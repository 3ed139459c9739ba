use std::collections::HashMap;

use sandbox_rs::config::Config;
use sandbox_rs::http::HttpResponse;
use sandbox_rs::path::path_less;
use sandbox_rs::sandbox::Sandbox;
use sandbox_rs::storage::{file_name_from, response_file_name, save_destination, SavedResponse};
use sandbox_rs::clock::{clock_now, file_stem, reading_after_epoch, reading_before_epoch, rfc3339_stamp};
use sandbox_rs::SandboxError;

fn response() -> HttpResponse {
    let mut headers = HashMap::new();
    headers.insert("content-type".to_string(), "application/json".to_string());
    HttpResponse { status: 201, headers, body: "{}".to_string(), url: "https://x/y".to_string() }
}

#[test]
fn saved_response_copies_the_response() {
    let saved = SavedResponse::from_http_at(&response(), "2024-01-01T00:00:00+00:00".to_string());
    assert_eq!(saved.timestamp, "2024-01-01T00:00:00+00:00");
    assert_eq!(saved.url, "https://x/y");
    assert_eq!(saved.status, 201);
    assert_eq!(saved.body, "{}");
    assert_eq!(saved.headers.get("content-type").map(String::as_str), Some("application/json"));
    let now = SavedResponse::from_http(&response()).unwrap();
    assert_eq!(now.status, 201);
    assert_eq!(now.url, "https://x/y");
    assert!(now.timestamp.ends_with("+00:00"));
    assert_eq!(&now.timestamp[10..11], "T");
}

#[test]
fn file_names() {
    assert_eq!(file_name_from(Some("a.json"), "ignored".to_string()), "a.json");
    assert_eq!(file_name_from(None, "20240101T000000000Z".to_string()), "20240101T000000000Z.json");
    assert_eq!(response_file_name(Some("b")).unwrap(), "b");
    let stamped = response_file_name(None).unwrap();
    assert_eq!(stamped.len(), 24);
    assert!(stamped.ends_with("Z.json"));
    assert_eq!(&stamped[8..9], "T");
    assert!(stamped[..8].chars().all(|c| c.is_ascii_digit()));
    assert!(stamped[9..18].chars().all(|c| c.is_ascii_digit()));
}

#[test]
fn save_destination_stays_in_sandbox() {
    let sb = Sandbox::assemble("/srv/sb".to_string(), Config::default(), &[]);
    assert_eq!(save_destination(&sb, Some("sub/out.json")).unwrap(), "/srv/sb/responses/sub/out.json");
    let stamped = save_destination(&sb, None).unwrap();
    assert!(stamped.starts_with("/srv/sb/responses/"));
    assert!(stamped.ends_with("Z.json"));
    assert_eq!(stamped.len(), "/srv/sb/responses/".len() + 24);
    assert!(matches!(save_destination(&sb, Some("../../x")), Err(SandboxError::PathEscape(_))));
}

#[test]
fn sort_paths_orders_like_pathbuf() {
    let input = vec![
        "/r/responses/b.json".to_string(),
        "/r/responses/a.json".to_string(),
        "/r/responses/B.json".to_string(),
        "/r/responses/a.json".to_string(),
        "/r/responses/ab".to_string(),
    ];
    let mut expected: Vec<std::path::PathBuf> = input.iter().map(std::path::PathBuf::from).collect();
    expected.sort();
    let sorted = sandbox_rs::storage::sort_paths(input);
    let got: Vec<std::path::PathBuf> = sorted.iter().map(std::path::PathBuf::from).collect();
    assert_eq!(got, expected);
}

#[test]
fn path_order_is_component_wise() {

    assert!(path_less("/a/b", "/a-b"));
    assert!(!path_less("/a-b", "/a/b"));
    assert!(path_less("/a", "/a/b"));
    assert!(!path_less("/a/", "/a"));
}

#[test]
fn file_stems_print_the_instant() {
    assert_eq!(file_stem(0, 0).unwrap(), "19700101T000000000Z");
    assert_eq!(file_stem(1_700_000_000, 123_456_789).unwrap(), "20231114T221320123Z");
    assert_eq!(file_stem(-1, 999_000_000).unwrap(), "19691231T235959999Z");
    assert!(file_stem(i64::MAX, 0).is_none());
}

#[test]
fn rfc3339_stamps_print_the_instant() {
    assert_eq!(rfc3339_stamp(0, 0).unwrap(), "1970-01-01T00:00:00+00:00");
    assert_eq!(rfc3339_stamp(1_700_000_000, 500_000_000).unwrap(), "2023-11-14T22:13:20.500+00:00");
    assert_eq!(rfc3339_stamp(1_700_000_000, 1_500).unwrap(), "2023-11-14T22:13:20.000001500+00:00");
    assert_eq!(rfc3339_stamp(-1, 0).unwrap(), "1969-12-31T23:59:59+00:00");
    assert!(rfc3339_stamp(i64::MIN, 0).is_none());
}

#[test]
fn clock_readings_around_the_epoch() {
    assert_eq!(reading_after_epoch(5, 7), Some((5, 7)));
    assert_eq!(reading_after_epoch(u64::MAX, 0), None);
    assert_eq!(reading_before_epoch(1, 0), Some((-1, 0)));
    assert_eq!(reading_before_epoch(1, 250_000_000), Some((-2, 750_000_000)));
    assert_eq!(reading_before_epoch(9_223_372_036_854_775_808, 0), Some((i64::MIN, 0)));
    assert_eq!(reading_before_epoch(9_223_372_036_854_775_808, 1), None);
    let (_, nanos) = clock_now().unwrap();
    assert!(nanos < 1_000_000_000);
}
