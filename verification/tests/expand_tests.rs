use disk_destroyer::expand::expand_and_normalize;
use disk_destroyer::expand::expand_and_resolve;
use disk_destroyer::paths::AbsPath;
use disk_destroyer::resolve::LinkTable;

#[test]
fn plain_paths_pass_expansion_unchanged() {
    let root = AbsPath::root();
    let p = expand_and_normalize(&b"/var//log/../tmp/./x".to_vec(), &root).unwrap();
    assert_eq!(p.path_bytes(), b"/var/tmp/x".to_vec());
}

#[test]
fn unset_variable_fails_expansion() {
    // A reference to a variable that is surely unset must make expansion
    // fail; a pass-through of the raw bytes would succeed instead.
    let root = AbsPath::root();
    let raw = b"/a/${SURELY_UNSET_VARIABLE_3f2c9d1e}/x".to_vec();
    assert!(expand_and_normalize(&raw, &root).is_err());
}

#[test]
fn expansion_then_resolution() {
    let root = AbsPath::root();
    let mut links = LinkTable::new();
    links.add(&b"/tmp/link".to_vec(), &b"/data/protected/sub".to_vec(), &root);
    let p = expand_and_resolve(&links, &b"/tmp/link/file".to_vec(), &root).unwrap();
    assert_eq!(p.path_bytes(), b"/data/protected/sub/file".to_vec());
}
