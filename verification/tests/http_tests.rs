use std::collections::HashMap;

use sandbox_rs::config::Config;
use sandbox_rs::http::{build_headers, HttpResponse};
use sandbox_rs::SandboxError;

fn response(body: &str) -> HttpResponse {
    HttpResponse { status: 200, headers: HashMap::new(), body: body.to_string(), url: "https://x/".to_string() }
}

#[test]
fn pretty_json_reformats_json_only() {
    let pretty = response("{\"a\":1}").pretty_json().unwrap();
    assert_eq!(pretty, "{\n  \"a\": 1\n}");
    assert!(response("not json").pretty_json().is_none());
}

#[test]
fn build_headers_puts_defaults_first() {
    let mut config = Config::default();
    config.default_headers = vec![("User-Agent".to_string(), "x".to_string())];
    let extra = vec![("Accept".to_string(), "application/json".to_string())];
    let h = build_headers(&extra, &config).unwrap();
    assert_eq!(h, vec![
        ("User-Agent".to_string(), "x".to_string()),
        ("Accept".to_string(), "application/json".to_string()),
    ]);
}

#[test]
fn build_headers_rejects_bad_name_and_value() {
    let config = Config::default();
    let bad_name = vec![("Bad Name".to_string(), "v".to_string())];
    match build_headers(&bad_name, &config) {
        Err(SandboxError::Io(e)) => assert_eq!(e.kind(), std::io::ErrorKind::InvalidInput),
        other => panic!("unexpected {other:?}"),
    }
    let bad_value = vec![("X".to_string(), "a\nb".to_string())];
    assert!(matches!(build_headers(&bad_value, &config), Err(SandboxError::Io(_))));
}

#[test]
fn header_name_and_value_rules() {
    let config = Config::default();
    let ok = vec![
        ("x-custom_token!#$%&'*+.^`|~9".to_string(), "tab\there ünïcode".to_string()),
    ];
    assert!(build_headers(&ok, &config).is_ok());
    assert!(build_headers(&[("".to_string(), "v".to_string())], &config).is_err());
    assert!(build_headers(&[("Nämé".to_string(), "v".to_string())], &config).is_err());
    assert!(build_headers(&[("X".to_string(), "del\u{7f}".to_string())], &config).is_err());
    assert!(build_headers(&[("X".to_string(), "".to_string())], &config).is_ok());
}

#[test]
fn build_headers_merges_names_case_insensitively() {
    let mut config = Config::default();
    config.default_headers = vec![
        ("Accept".to_string(), "text/plain".to_string()),
        ("X-A".to_string(), "1".to_string()),
    ];
    let extra = vec![
        ("accept".to_string(), "application/json".to_string()),
        ("X-B".to_string(), "2".to_string()),
        ("x-a".to_string(), "3".to_string()),
    ];
    let h = build_headers(&extra, &config).unwrap();
    assert_eq!(h, vec![
        ("Accept".to_string(), "application/json".to_string()),
        ("X-A".to_string(), "3".to_string()),
        ("X-B".to_string(), "2".to_string()),
    ]);
}

#[test]
fn pretty_json_of_invalid_body_is_none_and_valid_is_reprinted() {
    let r = response("[1,2]");
    assert_eq!(r.pretty_json().unwrap(), "[\n  1,\n  2\n]");
}
