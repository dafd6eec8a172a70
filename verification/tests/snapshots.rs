use central_server::codec::render_snapshot;

fn render_text(items: &[&str]) -> String {
    let owned: Vec<Vec<u8>> = items.iter().map(|s| s.as_bytes().to_vec()).collect();
    String::from_utf8(render_snapshot(&owned)).expect("rendered snapshot is text")
}

#[test]
fn renders_empty_list() {
    assert_eq!(render_text(&[]), "[]");
}

#[test]
fn renders_one_address() {
    assert_eq!(render_text(&["127.0.0.1"]), "[\"127.0.0.1\"]");
}

#[test]
fn renders_addresses_in_given_order() {
    assert_eq!(
        render_text(&["10.0.0.1", "192.168.0.7", "::1"]),
        "[\"10.0.0.1\",\"192.168.0.7\",\"::1\"]"
    );
}

#[test]
fn escapes_quote_and_backslash() {
    assert_eq!(render_text(&["a\"b"]), "[\"a\\\"b\"]");
    assert_eq!(render_text(&["a\\b"]), "[\"a\\\\b\"]");
}

#[test]
fn escapes_control_bytes() {
    assert_eq!(render_text(&["a\nb"]), "[\"a\\u000ab\"]");
    assert_eq!(render_text(&["\u{1f}"]), "[\"\\u001f\"]");
}

#[test]
fn matches_reference_json_for_plain_addresses() {
    let addresses = vec!["10.0.0.1", "192.168.0.7", "fe80::1"];
    let reference = serde_json::to_string(&addresses).expect("reference encoding");
    assert_eq!(render_text(&addresses), reference);
}

#[test]
fn matches_reference_json_for_escaped_text() {
    // The reference encoder writes the same escapes for quote and backslash.
    let odd = vec!["say \"hi\"", "back\\slash"];
    let reference = serde_json::to_string(&odd).expect("reference encoding");
    assert_eq!(render_text(&odd), reference);
}
