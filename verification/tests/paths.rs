use orf::paths::{join_path, normalize_path, starts_with_path, strip_cur_dir_key, strip_path_prefix, trim_path};

#[test]
fn paths_compare_by_components() {
    assert_eq!(normalize_path("a//b/./c/"), "a/b/c");
    assert_eq!(normalize_path("./a/b"), "./a/b");
    assert_eq!(normalize_path("/x//y"), "/x/y");
    assert_eq!(normalize_path("."), ".");
    assert_eq!(strip_cur_dir_key("./a//b"), "a/b");
    assert_eq!(strip_cur_dir_key("a/b"), "a/b");
}

#[test]
fn path_prefixes_go_by_components() {
    assert!(starts_with_path("src/lib.rs", "src"));
    assert!(starts_with_path("src/lib.rs", "src/"));
    assert!(!starts_with_path("srcx/lib.rs", "src"));
    assert!(starts_with_path("anything", ""));
    assert!(!starts_with_path("./a", "a"));
    assert!(starts_with_path("/a/b", "/a"));
    assert!(!starts_with_path("a/b", "/a"));
}

#[test]
fn trailing_separators_and_dots_are_trimmed() {
    assert_eq!(trim_path("a/b/"), "a/b");
    assert_eq!(trim_path("a/b/."), "a/b");
    assert_eq!(trim_path("a/b/.."), "a/b/..");
    assert_eq!(trim_path("./"), ".");
    assert_eq!(trim_path("/"), "/");
    assert_eq!(trim_path("a//"), "a");
}

#[test]
fn joins_follow_pathbuf() {
    assert_eq!(join_path(".vox", "objects"), ".vox/objects");
    assert_eq!(join_path(".vox/", "objects"), ".vox/objects");
    assert_eq!(join_path("", "objects"), "objects");
    assert_eq!(join_path(".vox", "/abs"), "/abs");
}

#[test]
fn prefixes_are_taken_off() {
    assert_eq!(strip_path_prefix("/repo/a/b", "/repo"), Some("a/b".to_string()));
    assert_eq!(strip_path_prefix("/repo", "/repo"), Some("".to_string()));
    assert_eq!(strip_path_prefix("/other/a", "/repo"), None);
    assert_eq!(strip_path_prefix("./a/b", "./"), Some("a/b".to_string()));
}
