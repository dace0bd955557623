use immortal::nn::error::NnError;
use immortal::nn::metadata::{parse_flat_json, serialize_flat_json, Metadata};

#[test]
fn flat_json_roundtrip() {
    let mut map = Metadata::new();
    map.insert(
        "architecture".to_string(),
        "token_classifier_bilstm_crf".to_string(),
    );
    map.insert("num_heads".to_string(), "8".to_string());
    map.insert("with\"quote".to_string(), "val\\ue".to_string());
    let json = serialize_flat_json(&map);
    let parsed = parse_flat_json(&json).unwrap();
    assert_eq!(parsed.len(), map.len());
    for key in ["architecture", "num_heads", "with\"quote"] {
        assert_eq!(parsed.get(key), map.get(key));
    }
}

#[test]
fn flat_json_empty() {
    assert!(parse_flat_json("{}").unwrap().is_empty());
    assert!(parse_flat_json("").unwrap().is_empty());
}

#[test]
fn flat_json_rejects_bad_input() {
    assert!(parse_flat_json("[1,2]").is_err());
}

#[test]
fn serialize_sorts_keys_and_escapes() {
    let mut map = Metadata::new();
    map.insert("b".to_string(), "line\nbreak".to_string());
    map.insert("a".to_string(), "tab\there".to_string());
    map.insert("ab".to_string(), "q\"\\".to_string());
    assert_eq!(
        serialize_flat_json(&map),
        "{\"a\":\"tab\\there\",\"ab\":\"q\\\"\\\\\",\"b\":\"line\\nbreak\"}"
    );
    assert_eq!(serialize_flat_json(&Metadata::new()), "{}");
}

#[test]
fn insert_replaces_existing_value() {
    let mut map = Metadata::new();
    map.insert("k".to_string(), "1".to_string());
    map.insert("k".to_string(), "2".to_string());
    assert_eq!(map.len(), 1);
    assert_eq!(map.get("k"), Some("2"));
    assert_eq!(map.get("missing"), None);
}

#[test]
fn parse_handles_whitespace_escapes_and_duplicates() {
    let m = parse_flat_json(" { \"a\" : \"x\\/y\\n\" , \"b\":\"\\q\",\"a\":\"z\" } ").unwrap();
    assert_eq!(m.len(), 2);
    assert_eq!(m.get("a"), Some("z"));
    assert_eq!(m.get("b"), Some("q"));
    let m = parse_flat_json("{\"k\":\"v\",}").unwrap();
    assert_eq!(m.get("k"), Some("v"));
}

#[test]
fn parse_error_messages() {
    let msg = |s: &str| match parse_flat_json(s) {
        Err(NnError::Format(m)) => m,
        other => panic!("unexpected: {other:?}"),
    };
    assert_eq!(msg("[1,2]"), "metadata JSON must be a flat object");
    assert_eq!(msg("{\"a\" \"b\"}"), "expected ':' after key");
    assert_eq!(msg("{a:\"b\"}"), "expected '\"' at start of JSON string, got Some('a')");
    assert_eq!(msg("{\"a\":}"), "expected '\"' at start of JSON string, got None");
    assert_eq!(msg("{\"a\":\"b}"), "unterminated JSON string");
    assert_eq!(msg("{\"a\":\"b\\}"), "unterminated escape");
    assert_eq!(msg("{\"a\":\"\\"), "metadata JSON must be a flat object");
}
