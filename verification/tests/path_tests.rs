use sandbox_rs::path::{join_path, normalize_path, path_starts_with, paths_equal};

#[test]
fn normalize_removes_dotdot() {
    let p = "/sandbox/foo/../bar";
    assert_eq!(normalize_path(p), "/sandbox/bar");
}

#[test]
fn normalize_keeps_valid_subpath() {
    let p = "/sandbox/responses/out.json";
    assert_eq!(normalize_path(p), p);
}

#[test]
fn normalize_handles_dots_roots_and_separators() {
    assert_eq!(normalize_path("a/./b//c/"), "a/b/c");
    assert_eq!(normalize_path("/.."), "/");
    assert_eq!(normalize_path("../a"), "a");
    assert_eq!(normalize_path("a/.."), "");
    assert_eq!(normalize_path("./"), "");
    assert_eq!(normalize_path("//x///y"), "/x/y");
    assert_eq!(normalize_path(""), "");
}

#[test]
fn normalize_is_idempotent_on_examples() {
    for p in ["/a/b/../c", "x/./y/..", "../../z", "/", "a//b/"] {
        let once = normalize_path(p);
        assert_eq!(normalize_path(&once), once);
    }
}

#[test]
fn join_follows_pathbuf_push() {
    assert_eq!(join_path("/a", "b"), "/a/b");
    assert_eq!(join_path("/a/", "b"), "/a/b");
    assert_eq!(join_path("/a", "/b"), "/b");
    assert_eq!(join_path("", "b"), "b");
    assert_eq!(join_path("/a", ""), "/a/");
}

#[test]
fn starts_with_compares_components() {
    assert!(path_starts_with("/a/b", "/a"));
    assert!(path_starts_with("/a/b", "/a/"));
    assert!(!path_starts_with("/ab", "/a"));
    assert!(!path_starts_with("a/b", "/a"));
    assert!(path_starts_with("/a", "/"));
    assert!(!path_starts_with("./a", "a"));
}

#[test]
fn paths_equal_ignores_trailing_separators() {
    assert!(paths_equal("/a/b/", "/a/b"));
    assert!(paths_equal("a/./b", "a/b"));
    assert!(!paths_equal("./a", "a"));
    assert!(!paths_equal("/a", "a"));
}

#[test]
fn join_then_normalize_stays_below_base() {
    for (base, rel) in [("/a/../b", "c/./d"), ("x", "y/z"), ("/", "q"), ("", "r/s"), ("/m/", "./n")] {
        let joined = normalize_path(&join_path(base, rel));
        assert!(path_starts_with(&joined, &normalize_path(base)), "{base} + {rel}");
    }
}
