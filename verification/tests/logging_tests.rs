use sandbox_rs::config::{LevelFilter, LogConfig};
use sandbox_rs::logging::{log_destination, resolve_log_path};
use sandbox_rs::SandboxError;

#[test]
fn default_log_config_is_enabled() {
    let cfg = LogConfig::default();
    assert!(cfg.enabled);
}

#[test]
fn default_log_level_is_info() {
    let cfg = LogConfig::default();
    assert_eq!(cfg.level_filter(), LevelFilter::Info);
}

#[test]
fn log_level_parses_all_variants() {
    for (s, expected) in [
        ("error", LevelFilter::Error),
        ("warn", LevelFilter::Warn),
        ("info", LevelFilter::Info),
        ("debug", LevelFilter::Debug),
        ("trace", LevelFilter::Trace),
    ] {
        let cfg = LogConfig { level: s.to_string(), ..LogConfig::default() };
        assert_eq!(cfg.level_filter(), expected, "failed for level '{s}'");
    }
}

#[test]
fn unknown_log_level_falls_back_to_info() {
    let cfg = LogConfig { level: "nonsense".to_string(), ..LogConfig::default() };
    assert_eq!(cfg.level_filter(), LevelFilter::Info);
}

#[test]
fn init_disabled_does_not_create_file() {
    let tmp = tempfile::tempdir().unwrap();
    let cfg = LogConfig { enabled: false, ..LogConfig::default() };
    let root = tmp.path().to_str().unwrap();
    assert!(matches!(log_destination(&cfg, root), Ok(None)));
    assert!(!tmp.path().join(&cfg.file).exists());
}

#[test]
fn init_disabled_returns_ok() {
    let tmp = tempfile::tempdir().unwrap();
    let cfg = LogConfig { enabled: false, ..LogConfig::default() };
    let root = tmp.path().to_str().unwrap();
    // Must not error even when called multiple times.
    assert!(log_destination(&cfg, root).is_ok());
    assert!(log_destination(&cfg, root).is_ok());
}

#[test]
fn path_escape_in_log_file_is_rejected() {
    let tmp = tempfile::tempdir().unwrap();
    let cfg = LogConfig {
        enabled: true,
        file: "../../escape.log".to_string(),
        ..LogConfig::default()
    };
    let result = resolve_log_path(&cfg, tmp.path().to_str().unwrap());
    assert!(
        matches!(result, Err(SandboxError::PathEscape(_))),
        "expected PathEscape, got {result:?}"
    );
}

#[test]
fn valid_log_path_resolves_inside_sandbox() {
    let tmp = tempfile::tempdir().unwrap();
    let cfg = LogConfig::default();
    let path = resolve_log_path(&cfg, tmp.path().to_str().unwrap()).unwrap();
    assert!(std::path::Path::new(&path).starts_with(tmp.path()));
}
