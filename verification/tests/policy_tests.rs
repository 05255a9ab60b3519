use disk_destroyer::paths::AbsPath;
use disk_destroyer::policy::ParsedCfg;
use disk_destroyer::resolve::LinkTable;

fn cfg_with_never(prefix: &[u8]) -> ParsedCfg {
    let mut cfg = ParsedCfg::new();
    cfg.add_never(AbsPath::normalize(&prefix.to_vec(), &AbsPath::root()));
    cfg
}

#[test]
fn never_write_denies_descendants() {
    // A configuration listing /data/protected under the never-write rules
    // denies a write inside it and allows one outside it.
    let cfg = cfg_with_never(b"/data/protected");
    let links = LinkTable::new();
    let root = AbsPath::root();
    assert!(!cfg.can_write(&links, &b"/data/protected/file.img".to_vec(), &root));
    assert!(cfg.can_write(&links, &b"/data/other/file.img".to_vec(), &root));
}

#[test]
fn never_write_denies_rule_itself() {
    let cfg = cfg_with_never(b"/data/protected");
    let links = LinkTable::new();
    let root = AbsPath::root();
    assert!(!cfg.can_write(&links, &b"/data/protected".to_vec(), &root));
}

#[test]
fn symlink_cannot_bypass_never_write() {
    // /tmp/link points into the protected tree; the literal destination
    // never mentions /data/protected, yet the write is denied.
    let cfg = cfg_with_never(b"/data/protected");
    let mut links = LinkTable::new();
    let root = AbsPath::root();
    links.add(&b"/tmp/link".to_vec(), &b"/data/protected/sub".to_vec(), &root);
    assert!(!cfg.can_write(&links, &b"/tmp/link/file".to_vec(), &root));
    // The same spelling with no such link in place is allowed.
    let no_links = LinkTable::new();
    assert!(cfg.can_write(&no_links, &b"/tmp/link/file".to_vec(), &root));
}

#[test]
fn intermediate_symlink_is_caught() {
    let cfg = cfg_with_never(b"/data/protected");
    let mut links = LinkTable::new();
    let root = AbsPath::root();
    links.add(&b"/mnt/alias".to_vec(), &b"/data".to_vec(), &root);
    assert!(!cfg.can_write(&links, &b"/mnt/alias/protected/x".to_vec(), &root));
    assert!(cfg.can_write(&links, &b"/mnt/alias/free/x".to_vec(), &root));
}

#[test]
fn create_guard_is_lexical() {
    // canCreate denies a path under a no-create prefix even though nothing
    // on that path exists: no filesystem is consulted at all.
    let mut cfg = ParsedCfg::new();
    let root = AbsPath::root();
    cfg.add_no_create(AbsPath::normalize(&b"/data/protected".to_vec(), &root));
    assert!(!cfg.can_create(&b"/data/protected/brand/new/file".to_vec(), &root));
    assert!(!cfg.can_create(&b"/data/protected".to_vec(), &root));
    assert!(cfg.can_create(&b"/data/elsewhere/new".to_vec(), &root));
}

#[test]
fn create_guard_sees_through_dot_segments() {
    let mut cfg = ParsedCfg::new();
    let root = AbsPath::root();
    cfg.add_no_create(AbsPath::normalize(&b"/data/protected".to_vec(), &root));
    assert!(!cfg.can_create(&b"/data/other/../protected/f".to_vec(), &root));
}

#[test]
fn empty_configuration_denies_nothing() {
    let cfg = ParsedCfg::new();
    let links = LinkTable::new();
    let root = AbsPath::root();
    assert!(cfg.can_write(&links, &b"/anything".to_vec(), &root));
    assert!(cfg.can_create(&b"/anything".to_vec(), &root));
}
