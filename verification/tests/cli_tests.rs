use sandbox_rs::cli::{build_opts, parse_headers, parse_kv, plan_output, post_body, resolve_dir, PostBody, SaveAction};
use sandbox_rs::SandboxError;

fn strings(v: &[&str]) -> Vec<String> {
    v.iter().map(|s| s.to_string()).collect()
}

#[test]
fn headers_are_split_at_first_colon_and_trimmed() {
    let h = parse_headers(&strings(&["Authorization: Bearer a:b", "  X-Y :  z  "])).unwrap();
    assert_eq!(h, vec![
        ("Authorization".to_string(), "Bearer a:b".to_string()),
        ("X-Y".to_string(), "z".to_string()),
    ]);
}

#[test]
fn header_without_colon_is_invalid_argument() {
    match parse_headers(&strings(&["Good: 1", "bad", "also bad"])) {
        Err(SandboxError::InvalidArg(m)) => assert_eq!(m, "invalid header 'bad' (expected 'Name: Value')"),
        other => panic!("unexpected {other:?}"),
    }
}

#[test]
fn kv_pairs_split_at_first_equals() {
    let q = parse_kv(&strings(&["page=2", "expr=a=b", "empty="])).unwrap();
    assert_eq!(q, vec![
        ("page".to_string(), "2".to_string()),
        ("expr".to_string(), "a=b".to_string()),
        ("empty".to_string(), "".to_string()),
    ]);
}

#[test]
fn kv_without_equals_is_invalid_argument() {
    match parse_kv(&strings(&["nope"])) {
        Err(SandboxError::InvalidArg(m)) => assert_eq!(m, "invalid key=value pair 'nope'"),
        other => panic!("unexpected {other:?}"),
    }
}

#[test]
fn kv_round_trip() {
    for (k, v) in [("a", "b"), ("per_page", "10"), ("k", "x=y"), ("", "")] {
        let parsed = parse_kv(&[format!("{k}={v}")]).unwrap();
        assert_eq!(parsed, vec![(k.to_string(), v.to_string())]);
    }
}

#[test]
fn header_round_trip() {
    for (k, v) in [("Authorization", "Bearer t"), ("X-Api-Key", "abc123"), ("A", "")] {
        let parsed = parse_headers(&[format!("{k}: {v}")]).unwrap();
        assert_eq!(parsed, vec![(k.to_string(), v.to_string())]);
    }
}

#[test]
fn build_opts_collects_headers_and_query() {
    let opts = build_opts("https://x", strings(&["A: 1"]), strings(&["q=2"])).unwrap();
    assert_eq!(opts.url, "https://x");
    assert_eq!(opts.headers, vec![("A".to_string(), "1".to_string())]);
    assert_eq!(opts.query, vec![("q".to_string(), "2".to_string())]);
    assert!(matches!(build_opts("u", strings(&["A"]), strings(&["q"])), Err(SandboxError::InvalidArg(m)) if m.starts_with("invalid header")));
    assert!(matches!(build_opts("u", strings(&["A: 1"]), strings(&["q"])), Err(SandboxError::InvalidArg(m)) if m.starts_with("invalid key=value")));
}

#[test]
fn resolve_dir_prefers_explicit_then_default() {
    assert_eq!(resolve_dir(Some("/x".into()), Some("/d".into())), "/x");
    assert_eq!(resolve_dir(None, Some("/d".into())), "/d");
    assert_eq!(resolve_dir(None, None), ".");
}

#[test]
fn save_behaviour_table() {
    let p = plan_output(None, false);
    assert!(!p.print && matches!(p.save, SaveAction::Auto));
    let p = plan_output(Some("n.json".into()), false);
    assert!(!p.print && matches!(p.save, SaveAction::Named(ref n) if n == "n.json"));
    let p = plan_output(None, true);
    assert!(p.print && matches!(p.save, SaveAction::Skip));
    let p = plan_output(Some("n.json".into()), true);
    assert!(p.print && matches!(p.save, SaveAction::Named(ref n) if n == "n.json"));
}

#[test]
fn post_body_choice() {
    assert!(matches!(post_body(Some("{\"k\":1}".into()), &[]), Ok(PostBody::Json(_))));
    assert!(matches!(post_body(Some("{bad".into()), &[]), Err(SandboxError::Json(_))));
    match post_body(None, &strings(&["a=1"])) {
        Ok(PostBody::Form(f)) => assert_eq!(f, vec![("a".to_string(), "1".to_string())]),
        _ => panic!("expected form"),
    }
    assert!(matches!(post_body(None, &strings(&["a"])), Err(SandboxError::InvalidArg(_))));
    assert!(matches!(post_body(None, &[]), Ok(PostBody::Empty)));
}
