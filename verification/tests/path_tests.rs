use disk_destroyer::paths::AbsPath;
use disk_destroyer::resolve::LinkTable;
use disk_destroyer::resolve::resolve_in;

fn norm(raw: &[u8]) -> Vec<u8> {
    AbsPath::normalize(&raw.to_vec(), &AbsPath::root()).path_bytes()
}

#[test]
fn normalize_collapses_dots() {
    assert_eq!(norm(b"/a/./b/../c"), b"/a/c".to_vec());
    assert_eq!(norm(b"/a/b/.."), b"/a".to_vec());
    assert_eq!(norm(b"/./."), b"/".to_vec());
}

#[test]
fn normalize_collapses_duplicate_separators() {
    assert_eq!(norm(b"//a///b//"), b"/a/b".to_vec());
}

#[test]
fn normalize_stops_dotdot_at_root() {
    assert_eq!(norm(b"/../../x"), b"/x".to_vec());
    assert_eq!(norm(b"/.."), b"/".to_vec());
}

#[test]
fn normalize_relative_against_cwd() {
    let cwd = AbsPath::normalize(&b"/home/op".to_vec(), &AbsPath::root());
    let p = AbsPath::normalize(&b"data/../img.bin".to_vec(), &cwd);
    assert_eq!(p.path_bytes(), b"/home/op/img.bin".to_vec());
}

#[test]
fn normalize_is_idempotent() {
    let once = AbsPath::normalize(&b"/var//log/../tmp/./x".to_vec(), &AbsPath::root());
    let twice = AbsPath::normalize(&once.path_bytes(), &AbsPath::root());
    assert_eq!(once.path_bytes(), twice.path_bytes());
    assert_eq!(once.path_bytes(), b"/var/tmp/x".to_vec());
}

#[test]
fn ancestor_test_is_prefix_based() {
    let root = AbsPath::root();
    let a = AbsPath::normalize(&b"/data/protected".to_vec(), &root);
    let b = AbsPath::normalize(&b"/data/protected/sub/file".to_vec(), &root);
    let c = AbsPath::normalize(&b"/data/protectedfile".to_vec(), &root);
    assert!(a.is_ancestor_of(&b));
    assert!(a.is_ancestor_of(&a));
    assert!(!a.is_ancestor_of(&c));
    assert!(!b.is_ancestor_of(&a));
    assert!(root.is_ancestor_of(&a));
}

#[test]
fn resolution_without_links_is_identity() {
    // An already symlink-free, lexically clean absolute path comes back
    // unchanged.
    let links = LinkTable::new();
    let r = resolve_in(&links, &b"/data/other/file.img".to_vec(), &AbsPath::root());
    assert_eq!(r.path_bytes(), b"/data/other/file.img".to_vec());
}

#[test]
fn resolution_follows_absolute_target() {
    let root = AbsPath::root();
    let mut links = LinkTable::new();
    links.add(&b"/tmp/link".to_vec(), &b"/data/protected/sub".to_vec(), &root);
    let r = resolve_in(&links, &b"/tmp/link/file".to_vec(), &root);
    assert_eq!(r.path_bytes(), b"/data/protected/sub/file".to_vec());
}

#[test]
fn resolution_follows_relative_target() {
    let root = AbsPath::root();
    let mut links = LinkTable::new();
    links.add(&b"/srv/current".to_vec(), &b"releases/v2".to_vec(), &root);
    let r = resolve_in(&links, &b"/srv/current/bin".to_vec(), &root);
    assert_eq!(r.path_bytes(), b"/srv/releases/v2/bin".to_vec());
}

#[test]
fn resolution_checks_final_path_once_more() {
    let root = AbsPath::root();
    let mut links = LinkTable::new();
    links.add(&b"/etc/alias".to_vec(), &b"real.conf".to_vec(), &root);
    // The final resolved path itself is a symlink: its relative target is
    // resolved against the parent directory.
    let r = resolve_in(&links, &b"/etc/alias".to_vec(), &root);
    assert_eq!(r.path_bytes(), b"/etc/real.conf".to_vec());
}

#[test]
fn resolution_cleans_dotdot_in_target() {
    let root = AbsPath::root();
    let mut links = LinkTable::new();
    links.add(&b"/a/b/link".to_vec(), &b"../c".to_vec(), &root);
    let r = resolve_in(&links, &b"/a/b/link/d".to_vec(), &root);
    assert_eq!(r.path_bytes(), b"/a/c/d".to_vec());
}
