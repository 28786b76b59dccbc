use rsystem::handle_key::HandleKey;
use rsystem::message::{plan_deliveries, split_plain};

#[test]
fn key_drops_the_crate_name() {
    assert_eq!(HandleKey::from_path("logger::Log").as_str(), "Log");
    assert_eq!(HandleKey::from_path("r::Ping").as_str(), "Ping");
}

#[test]
fn key_joins_later_pieces_with_dots() {
    assert_eq!(HandleKey::from_path("a::b::C").as_str(), "b.C");
    assert_eq!(HandleKey::from_path("app::temp::record::Set").as_str(), "temp.record.Set");
}

#[test]
fn key_of_path_without_separator_is_empty() {
    assert_eq!(HandleKey::from_path("Ping").as_str(), "");
    assert_eq!(HandleKey::from_path("").as_str(), "");
    assert_eq!(HandleKey::from_path("a:b").as_str(), "");
}

#[test]
fn key_edge_cases_follow_split_and_join() {
    // ":::" splits into ["", ":"]
    assert_eq!(HandleKey::from_path(":::").as_str(), ":");
    // "a::b::::c" splits into ["a", "b", "", "c"]
    assert_eq!(HandleKey::from_path("a::b::::c").as_str(), "b..c");
    assert_eq!(HandleKey::from_path("a::").as_str(), "");
    assert_eq!(HandleKey::from_path("::x").as_str(), "x");
    assert_eq!(HandleKey::from_path("é::ü::ß").as_str(), "ü.ß");
}

#[test]
fn key_never_holds_a_path_separator() {
    for path in ["a::b::::c", ":::::", "x::y:::z", "::::::"] {
        let key = HandleKey::from_path(path);
        assert!(!key.as_str().contains("::"), "{:?}", key.as_str());
    }
}

#[test]
fn plain_message_with_value() {
    let p = split_plain("temp.record;12.34");
    assert_eq!(p.tag, "temp.record");
    assert_eq!(p.remaining.as_deref(), Some("12.34"));
}

#[test]
fn plain_message_bare_tag() {
    let p = split_plain("Ping");
    assert_eq!(p.tag, "Ping");
    assert_eq!(p.remaining, None);
}

#[test]
fn plain_message_splits_at_first_semicolon() {
    let p = split_plain("a;b;c");
    assert_eq!(p.tag, "a");
    assert_eq!(p.remaining.as_deref(), Some("b;c"));
    let p = split_plain(";x");
    assert_eq!(p.tag, "");
    assert_eq!(p.remaining.as_deref(), Some("x"));
    let p = split_plain("x;");
    assert_eq!(p.tag, "x");
    assert_eq!(p.remaining.as_deref(), Some(""));
    let p = split_plain("");
    assert_eq!(p.tag, "");
    assert_eq!(p.remaining, None);
}

#[test]
fn plain_message_round_trip() {
    for (tag, value) in [("log", "hello; world"), ("ü", "ß"), ("", "")] {
        let line = format!("{};{}", tag, value);
        let p = split_plain(&line);
        assert_eq!(p.tag, tag);
        assert_eq!(p.remaining.as_deref(), Some(value));
    }
}

#[test]
fn deliveries_go_to_every_endpoint_in_order() {
    let messages = vec!["a".to_string(), "b".to_string()];
    let plan = plan_deliveries(&messages, 3);
    let expected: Vec<(usize, String)> = vec![
        (0, "a".into()),
        (1, "a".into()),
        (2, "a".into()),
        (0, "b".into()),
        (1, "b".into()),
        (2, "b".into()),
    ];
    assert_eq!(plan, expected);
}

#[test]
fn deliveries_with_no_endpoint_or_no_message() {
    assert!(plan_deliveries(&vec!["a".to_string()], 0).is_empty());
    assert!(plan_deliveries(&Vec::new(), 4).is_empty());
}
