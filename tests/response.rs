use browser::response::{
    extract_json_string, extract_json_u16, generate_request_id, parse_response, unescape_json,
};

#[test]
fn string_field() {
    let json = r#"{"id":"1","body":"<p>hi</p>","error":null}"#;
    assert_eq!(extract_json_string(json, "body"), Some("<p>hi</p>".to_string()));
    assert_eq!(extract_json_string(json, "id"), Some("1".to_string()));
    assert_eq!(extract_json_string(json, "error"), None);
    assert_eq!(extract_json_string(json, "missing"), None);
}

#[test]
fn string_field_with_escapes() {
    let json = r#"{"body":"a\"b\\c\nd","x":1}"#;
    assert_eq!(extract_json_string(json, "body"), Some("a\"b\\c\nd".to_string()));
}

#[test]
fn unterminated_string_field_is_empty() {
    assert_eq!(extract_json_string(r#"{"body":"abc"#, "body"), Some(String::new()));
}

#[test]
fn number_field() {
    assert_eq!(extract_json_u16(r#"{"status":200,"x":1}"#, "status"), Some(200));
    assert_eq!(extract_json_u16(r#"{"status":65535}"#, "status"), Some(65535));
    assert_eq!(extract_json_u16(r#"{"status":65536}"#, "status"), None);
    assert_eq!(extract_json_u16(r#"{"status":"200"}"#, "status"), None);
    assert_eq!(extract_json_u16(r#"{"code":1}"#, "status"), None);
}

#[test]
fn unescape_sequences() {
    assert_eq!(unescape_json(r#"a\tb\rc\nd\"e\\f"#), "a\tb\rc\nd\"e\\f");
    assert_eq!(unescape_json("plain"), "plain");
}

#[test]
fn whole_response() {
    let r = parse_response(r#"{"status":404,"body":"nope","error":"not found"}"#);
    assert_eq!(r.status, 404);
    assert_eq!(r.body, "nope");
    assert_eq!(r.error, Some("not found".to_string()));
    let empty = parse_response("{}");
    assert_eq!(empty.status, 0);
    assert_eq!(empty.body, "");
    assert_eq!(empty.error, None);
}

#[test]
fn request_ids() {
    assert_eq!(generate_request_id(1234), "req_1234");
    assert_eq!(generate_request_id(0), "req_0");
    assert_eq!(generate_request_id(1700000000123), "req_1700000000123");
}
