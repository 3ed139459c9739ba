use sandbox_rs::platform::{sandbox_dir_in, GenericUnix, Linux, MacOS, Platform, Windows};

#[test]
fn platform_name_is_nonempty() {
    let all: [&dyn Platform; 4] = [&Linux, &MacOS, &Windows, &GenericUnix];
    for p in all {
        assert!(!p.name().is_empty());
    }
}

#[test]
fn platform_names() {
    assert_eq!(Linux.name(), "linux");
    assert_eq!(MacOS.name(), "macos");
    assert_eq!(Windows.name(), "windows");
    assert_eq!(GenericUnix.name(), "unix");
}

#[test]
fn default_dir_is_some() {
    assert!(
        Linux.default_sandbox_dir().is_some(),
        "HOME/USERPROFILE must be set in the test environment"
    );
}

#[test]
fn default_dir_is_absolute() {
    let dir = Linux.default_sandbox_dir().unwrap();
    assert!(std::path::Path::new(&dir).is_absolute(), "default sandbox dir must be absolute: {}", dir);
}

#[test]
fn linux_default_dir_under_local_share() {
    let dir = Linux.default_sandbox_dir().unwrap();
    assert!(dir.contains(".local/share"), "expected ~/.local/share, got {}", dir);
}

#[test]
fn sandbox_dir_is_named_inside_data_dir() {
    assert_eq!(sandbox_dir_in(Some("/home/u/.local/share".to_string())), Some("/home/u/.local/share/sandbox-rs".to_string()));
    assert_eq!(sandbox_dir_in(None), None);
}
