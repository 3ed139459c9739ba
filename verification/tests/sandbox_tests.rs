use sandbox_rs::config::Config;
use sandbox_rs::sandbox::{jail_path_resolved, read_path_resolved, ReadonlyDir, Sandbox};
use sandbox_rs::SandboxError;
use std::path::Path;

fn make_sandbox() -> (tempfile::TempDir, Sandbox) {
    let tmp = tempfile::tempdir().unwrap();
    let root = tmp.path().canonicalize().unwrap().to_str().unwrap().to_string();
    let sb = Sandbox::assemble(root, Config::default(), &[]);
    (tmp, sb)
}

/// A readonly directory as the application records it: the path as given,
/// and its canonical form from the file system.
fn readonly(dir: &Path) -> ReadonlyDir {
    let canonical = dir.canonicalize().ok().map(|c| c.to_str().unwrap().to_string());
    ReadonlyDir { path: dir.to_str().unwrap().to_string(), canonical }
}

#[test]
fn safe_path_rejects_escape() {
    let (_tmp, sb) = make_sandbox();
    assert!(sb.safe_path("../../etc/passwd").is_err());
}

#[test]
fn safe_path_accepts_nested() {
    let (_tmp, sb) = make_sandbox();
    let p = sb.safe_path("responses/foo.json").unwrap();
    assert!(Path::new(&p).starts_with(&sb.root));
}

#[test]
fn read_path_accepts_relative_within_sandbox() {
    let (_tmp, sb) = make_sandbox();
    let p = sb.safe_read_path("responses/out.json").unwrap();
    assert!(Path::new(&p).starts_with(&sb.root));
}

#[test]
fn read_path_rejects_absolute_outside_sandbox_without_readonly() {
    let (_tmp, sb) = make_sandbox();
    // /etc is outside the sandbox and no readonly dirs are configured.
    let result = sb.safe_read_path("/etc/hosts");
    assert!(
        matches!(result, Err(SandboxError::ReadRestricted(_))),
        "expected ReadRestricted, got {result:?}"
    );
}

#[test]
fn read_path_accepts_absolute_within_readonly_dir() {
    let ro_dir = tempfile::tempdir().unwrap();
    let ro_file = ro_dir.path().join("data.json");

    let (_tmp, mut sb) = make_sandbox();
    sb.add_readonly_dirs(&[readonly(ro_dir.path())]);

    let result = sb.safe_read_path(ro_file.to_str().unwrap());
    assert!(result.is_ok(), "expected Ok, got {result:?}");
}

#[test]
fn read_path_rejects_dotdot_escape_from_readonly_dir() {
    let ro_dir = tempfile::tempdir().unwrap();
    let (_tmp, mut sb) = make_sandbox();
    sb.add_readonly_dirs(&[readonly(ro_dir.path())]);

    // Attempt to traverse above the readonly dir.
    let escape = format!("{}/../../../etc/passwd", ro_dir.path().display());
    let result = sb.safe_read_path(&escape);
    assert!(
        matches!(result, Err(SandboxError::ReadRestricted(_))),
        "expected ReadRestricted, got {result:?}"
    );
}

#[test]
fn add_readonly_dirs_is_idempotent() {
    let ro_dir = tempfile::tempdir().unwrap();
    let (_tmp, mut sb) = make_sandbox();
    sb.add_readonly_dirs(&[readonly(ro_dir.path())]);
    let count_before = sb.readonly_roots().len();
    sb.add_readonly_dirs(&[readonly(ro_dir.path())]);
    assert_eq!(sb.readonly_roots().len(), count_before);
}

#[test]
fn add_readonly_dirs_updates_config() {
    let ro_dir = tempfile::tempdir().unwrap();
    let (_tmp, mut sb) = make_sandbox();
    sb.add_readonly_dirs(&[readonly(ro_dir.path())]);
    assert!(sb.config.readonly_dirs.contains(&ro_dir.path().to_str().unwrap().to_string()));
}

// ── Fixed roots ─────────────────────────────────────────────────────────────

fn fixed_sandbox() -> Sandbox {
    Sandbox::assemble("/srv/sb".to_string(), Config::default(), &[])
}

#[test]
fn safe_path_normalizes_inside_root() {
    let sb = fixed_sandbox();
    assert_eq!(sb.safe_path("a/./b/../c.json").unwrap(), "/srv/sb/a/c.json");
    assert_eq!(sb.safe_path("").unwrap(), "/srv/sb");
}

#[test]
fn safe_path_escape_error_names_the_argument() {
    let sb = fixed_sandbox();
    match sb.safe_path("../x") {
        Err(SandboxError::PathEscape(m)) => assert_eq!(m, "../x"),
        other => panic!("unexpected {other:?}"),
    }
}

#[test]
fn safe_path_absolute_inside_root_is_accepted() {
    let sb = fixed_sandbox();
    assert_eq!(sb.safe_path("/srv/sb/x").unwrap(), "/srv/sb/x");
    assert!(matches!(sb.safe_path("/srv/sbx"), Err(SandboxError::PathEscape(_))));
    assert!(matches!(sb.safe_path("/etc/passwd"), Err(SandboxError::PathEscape(_))));
}

#[test]
fn writable_paths_are_readable_at_the_same_place() {
    let sb = fixed_sandbox();
    for rel in ["a/b.json", "x/../y", "/srv/sb/z", "./q"] {
        let w = sb.safe_path(rel).unwrap();
        let r = sb.safe_read_path(rel).unwrap();
        assert_eq!(w, r);
    }
}

#[test]
fn response_path_is_inside_response_dir() {
    let sb = fixed_sandbox();
    assert_eq!(sb.response_path("out.json").unwrap(), "/srv/sb/responses/out.json");
    assert_eq!(sb.response_path("sub/../b.json").unwrap(), "/srv/sb/responses/b.json");
    match sb.response_path("../sandbox.toml") {
        Err(SandboxError::PathEscape(m)) => assert_eq!(m, "responses/../sandbox.toml"),
        other => panic!("unexpected {other:?}"),
    }
    match sb.response_path("../../up.json") {
        Err(SandboxError::PathEscape(m)) => assert_eq!(m, "responses/../../up.json"),
        other => panic!("unexpected {other:?}"),
    }
}

#[test]
fn readonly_dirs_widen_reads_only() {
    let mut sb = fixed_sandbox();
    assert!(sb.safe_read_path("/data/in.json").is_err());
    sb.add_readonly_dirs(&[ReadonlyDir { path: "/data/".to_string(), canonical: Some("/data".to_string()) }]);
    assert_eq!(sb.safe_read_path("/data/in.json").unwrap(), "/data/in.json");
    assert!(sb.safe_path("/data/in.json").is_err());
    // A path equal component-wise is not recorded twice.
    sb.add_readonly_dirs(&[ReadonlyDir { path: "/data".to_string(), canonical: Some("/data/".to_string()) }]);
    assert_eq!(sb.readonly_roots().len(), 1);
    assert_eq!(sb.config.readonly_dirs, vec!["/data/".to_string()]);
}

#[test]
fn unresolvable_readonly_dir_is_recorded_but_grants_nothing() {
    let mut sb = fixed_sandbox();
    sb.add_readonly_dirs(&[ReadonlyDir { path: "/missing".to_string(), canonical: None }]);
    assert!(sb.readonly_roots().is_empty());
    assert_eq!(sb.config.readonly_dirs, vec!["/missing".to_string()]);
    assert!(sb.safe_read_path("/missing/f").is_err());
}

#[test]
fn assemble_keeps_resolved_readonly_roots_in_order() {
    let sb = Sandbox::assemble(
        "/r".to_string(),
        Config::default(),
        &[Some("/a".to_string()), None, Some("/b".to_string())],
    );
    assert_eq!(sb.readonly_roots(), &vec!["/a".to_string(), "/b".to_string()]);
    assert_eq!(sb.root, "/r");
}

#[test]
fn canonicalize_readonly_drops_unresolved() {
    let roots = sandbox_rs::sandbox::canonicalize_readonly(&[None, Some("/x".to_string())]);
    assert_eq!(roots, vec!["/x".to_string()]);
}

#[test]
fn write_is_refused_when_links_resolve_outside_root() {
    // `link` resolves to /etc: the lexical path is inside, the resolved one is not.
    match jail_path_resolved("/srv/sb", "link/passwd", "/etc/passwd") {
        Err(SandboxError::PathEscape(m)) => assert_eq!(m, "link/passwd"),
        other => panic!("unexpected {other:?}"),
    }
    assert_eq!(jail_path_resolved("/srv/sb", "a/b", "/srv/sb/a/b").unwrap(), "/srv/sb/a/b");
    assert!(jail_path_resolved("/srv/sb", "../x", "/srv/sb/x").is_err());
}

#[test]
fn safe_path_on_existing_directory_resolves_inside() {
    let tmp = tempfile::tempdir().unwrap();
    let root = tmp.path().canonicalize().unwrap();
    let sb = Sandbox::assemble(root.to_str().unwrap().to_string(), Config::default(), &[]);
    let p = sb.safe_path("plain/new.json").unwrap();
    assert!(Path::new(&p).starts_with(&root));
}

#[test]
fn checked_response_dir_stays_in_root() {
    let mut config = Config::default();
    assert_eq!(config.checked_response_dir("/srv/sb").unwrap(), "/srv/sb/responses");
    config.response_dir = "../outside".to_string();
    match config.checked_response_dir("/srv/sb") {
        Err(SandboxError::PathEscape(m)) => assert_eq!(m, "../outside"),
        other => panic!("unexpected {other:?}"),
    }
}

#[test]
fn readonly_dir_outside_root_is_read_only() {
    let mut sb = fixed_sandbox();
    sb.add_readonly_dirs(&[ReadonlyDir { path: "/data".to_string(), canonical: Some("/data".to_string()) }]);
    assert!(sb.safe_read_path("/data/f.json").is_ok());
    assert!(matches!(sb.safe_path("/data/f.json"), Err(SandboxError::PathEscape(_))));
}

#[test]
fn read_through_a_linked_readonly_dir_is_accepted() {
    // The readonly dir was given as /var/ro, whose canonical form is
    // /private/var/ro: the read path resolves under the canonical root.
    let roots = vec!["/private/var/ro".to_string()];
    assert_eq!(
        read_path_resolved("/srv/sb", &roots, "/var/ro/data.json", "/private/var/ro/data.json").unwrap(),
        "/var/ro/data.json"
    );
    match read_path_resolved("/srv/sb", &roots, "/var/other/data.json", "/private/var/other/data.json") {
        Err(SandboxError::ReadRestricted(m)) => assert_eq!(m, "/var/other/data.json"),
        other => panic!("unexpected {other:?}"),
    }
    // Lexically inside wins whatever the resolution says.
    assert_eq!(read_path_resolved("/srv/sb", &roots, "a/../b.json", "/elsewhere").unwrap(), "/srv/sb/b.json");
}
