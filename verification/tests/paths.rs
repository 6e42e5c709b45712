use etch::paths::normalize_import_path;

#[test]
fn import_paths_normalize_dot_and_dot_dot() {
    assert_eq!(normalize_import_path("./sub/../module.etch"), "module.etch");
    assert_eq!(normalize_import_path("module.etch"), "module.etch");
    assert_eq!(normalize_import_path("a/./b//c/"), "a/b/c");
    assert_eq!(normalize_import_path("lib/x/../../y.etch"), "y.etch");
}

#[test]
fn leading_parent_segments_are_kept() {
    assert_eq!(normalize_import_path("../x.etch"), "../x.etch");
    assert_eq!(normalize_import_path("a/../../x.etch"), "../x.etch");
    assert_eq!(normalize_import_path("../../a/b/.."), "../../a");
}

#[test]
fn a_path_that_keeps_nothing_is_the_directory_itself() {
    assert_eq!(normalize_import_path(""), ".");
    assert_eq!(normalize_import_path("./"), ".");
    assert_eq!(normalize_import_path("a/.."), ".");
}

#[test]
fn normalizing_twice_changes_nothing_more() {
    for path in ["./sub/../module.etch", "../../a/b/..", "a/..", "x//y/./z", "/abs/path"] {
        let once = normalize_import_path(path);
        assert_eq!(normalize_import_path(&once), once);
    }
}
