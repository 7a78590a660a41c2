use jetstream::codec::HeaderError;
use jetstream::headers::Headers;
use std::collections::HashSet;

fn set_of(values: &[&str]) -> HashSet<String> {
    values.iter().map(|v| v.to_string()).collect()
}

fn values_under(headers: &Headers, name: &str) -> Option<HashSet<String>> {
    headers.get(name).map(|values| values.iter().cloned().collect())
}

fn pair(name: &str, value: &str) -> (String, String) {
    (name.to_string(), value.to_string())
}

#[test]
fn single_line_single_value() {
    let headers = Headers::try_from(
        "NATS/1.0 200\r\naccept-encoding: json\r\nauthorization: s3cr3t\r\n".as_bytes(),
    )
    .unwrap();

    assert_eq!(values_under(&headers, "accept-encoding"), Some(set_of(&["json"])));
    assert_eq!(values_under(&headers, "authorization"), Some(set_of(&["s3cr3t"])));
}

#[test]
fn single_line_multi_value() {
    let headers = Headers::try_from(
        "NATS/1.0 200\r\naccept-encoding: html,json,text\r\nauthorization: s3cr3t\r\n".as_bytes(),
    )
    .unwrap();

    assert_eq!(
        values_under(&headers, "accept-encoding"),
        Some(set_of(&["html", "json", "text"]))
    );
    assert_eq!(values_under(&headers, "authorization"), Some(set_of(&["s3cr3t"])));
}

#[test]
fn multi_line_single_value_with_tab() {
    let headers =
        Headers::try_from("NATS/1.0 200\r\nx-test: one\r\n\t two\r\n\t three\r\n".as_bytes())
            .unwrap();

    assert_eq!(values_under(&headers, "x-test"), Some(set_of(&["one two three"])));
}

#[test]
fn multi_line_single_value_with_space() {
    let headers =
        Headers::try_from("NATS/1.0 200\r\nx-test: one\r\n  two\r\n  three\r\n".as_bytes())
            .unwrap();

    assert_eq!(values_under(&headers, "x-test"), Some(set_of(&["one two three"])));
}

#[test]
fn multi_line_multi_value_with_tab() {
    let headers =
        Headers::try_from("NATS/1.0 200\r\nx-test: one, \r\n\ttwo,\r\n\tthree\r\n".as_bytes())
            .unwrap();

    assert_eq!(values_under(&headers, "x-test"), Some(set_of(&["one", "two", "three"])));
}

#[test]
fn multi_line_multi_value_with_spaces() {
    let headers =
        Headers::try_from("NATS/1.0 200\r\nx-test: one,\r\n two,\r\n three\r\n".as_bytes())
            .unwrap();

    assert_eq!(values_under(&headers, "x-test"), Some(set_of(&["one", "two", "three"])));
}

#[test]
fn comma_splitting_gives_three_values() {
    let headers = Headers::try_from("NATS/1.0\r\nx-test: one,two,three\r\n".as_bytes()).unwrap();
    assert_eq!(values_under(&headers, "x-test"), Some(set_of(&["one", "two", "three"])));
    assert_eq!(headers.inner.len(), 1);
    assert_eq!(headers.get("x-test").unwrap().len(), 3);
}

#[test]
fn folding_strips_one_space() {
    let headers =
        Headers::try_from("NATS/1.0\r\nx-test: one\r\n two\r\n three\r\n".as_bytes()).unwrap();
    assert_eq!(values_under(&headers, "x-test"), Some(set_of(&["onetwothree"])));
}

#[test]
fn folding_strips_one_tab() {
    let headers =
        Headers::try_from("NATS/1.0\r\nx-test: one\r\n\ttwo\r\n\tthree\r\n".as_bytes()).unwrap();
    assert_eq!(values_under(&headers, "x-test"), Some(set_of(&["onetwothree"])));
}

#[test]
fn line_without_colon_is_refused() {
    let r = Headers::try_from("NATS/1.0\r\ngarbage\r\n".as_bytes());
    assert_eq!(r.err(), Some(HeaderError::MalformedHeaderLine));
    let r = Headers::try_from("NATS/1.0\r\na: b\r\ngarbage\r\nc: d\r\n".as_bytes());
    assert_eq!(r.err(), Some(HeaderError::MalformedHeaderLine));
}

#[test]
fn bad_version_line_is_refused() {
    let r = Headers::try_from("HTTP/1.1 200\r\na: b\r\n".as_bytes());
    assert_eq!(r.err(), Some(HeaderError::MalformedVersionLine));
    let r = Headers::try_from("NATS\r\n".as_bytes());
    assert_eq!(r.err(), Some(HeaderError::MalformedVersionLine));
    let r = Headers::try_from("\r\n".as_bytes());
    assert_eq!(r.err(), Some(HeaderError::MalformedVersionLine));
}

#[test]
fn empty_input_is_refused() {
    let r = Headers::try_from("".as_bytes());
    assert_eq!(r.err(), Some(HeaderError::MissingHeaderBlock));
}

#[test]
fn invalid_utf8_is_refused() {
    let bytes: [u8; 4] = [0x4e, 0xff, 0xfe, 0x0a];
    let r = Headers::try_from(&bytes);
    assert_eq!(r.err(), Some(HeaderError::InvalidEncoding));
}

#[test]
fn version_line_alone_gives_empty_headers() {
    let headers = Headers::try_from("NATS/1.0\r\n\r\n".as_bytes()).unwrap();
    assert!(headers.inner.is_empty());
    let headers = Headers::try_from("NATS/".as_bytes()).unwrap();
    assert!(headers.inner.is_empty());
    assert!(headers.get("x").is_none());
}

#[test]
fn blank_lines_are_passed_over() {
    let headers =
        Headers::try_from("NATS/1.0\r\n\r\na: 1\r\n   \r\n\r\nb: 2\r\n\r\n".as_bytes()).unwrap();
    assert_eq!(values_under(&headers, "a"), Some(set_of(&["1"])));
    assert_eq!(values_under(&headers, "b"), Some(set_of(&["2"])));
    assert_eq!(headers.inner.len(), 2);
}

#[test]
fn indented_line_after_blank_is_a_header() {
    let headers = Headers::try_from("NATS/1.0\r\n k: v\r\n".as_bytes()).unwrap();
    assert_eq!(values_under(&headers, "k"), Some(set_of(&["v"])));
}

#[test]
fn split_is_on_the_first_colon() {
    let headers = Headers::try_from("NATS/1.0\r\nurl: http://host:42\r\n".as_bytes()).unwrap();
    assert_eq!(values_under(&headers, "url"), Some(set_of(&["http://host:42"])));
}

#[test]
fn pieces_are_trimmed_and_duplicates_collapse() {
    let headers = Headers::try_from("NATS/1.0\r\nk:  a , b,a ,\u{a0}c\u{2003}\r\n".as_bytes()).unwrap();
    assert_eq!(values_under(&headers, "k"), Some(set_of(&["a", "b", "c"])));
    assert_eq!(headers.get("k").unwrap().len(), 3);
}

#[test]
fn same_name_on_two_lines_merges() {
    let headers = Headers::try_from("NATS/1.0\r\nk: a\r\nj: x\r\nk: b,a\r\n".as_bytes()).unwrap();
    assert_eq!(values_under(&headers, "k"), Some(set_of(&["a", "b"])));
    assert_eq!(values_under(&headers, "j"), Some(set_of(&["x"])));
}

#[test]
fn empty_value_is_a_value() {
    let headers = Headers::try_from("NATS/1.0\r\nk:\r\n".as_bytes()).unwrap();
    assert_eq!(values_under(&headers, "k"), Some(set_of(&[""])));
}

#[test]
fn bare_line_feeds_end_lines_too() {
    let headers = Headers::try_from("NATS/1.0\nk: a\n b\n".as_bytes()).unwrap();
    assert_eq!(values_under(&headers, "k"), Some(set_of(&["ab"])));
}

#[test]
fn to_bytes_of_empty_headers() {
    let headers = Headers::new();
    assert_eq!(headers.to_bytes(), b"NATS/1.0\r\n\r\n".to_vec());
}

#[test]
fn to_bytes_writes_trimmed_lines_in_order() {
    let headers = Headers::from_iter(vec![
        pair(" x-one ", " a "),
        pair("x-two", "b"),
        pair("x-one", "c"),
        pair("x-two", "b"),
    ]);
    assert_eq!(
        headers.to_bytes(),
        b"NATS/1.0\r\nx-one:a\r\nx-two:b\r\nx-one:c\r\n\r\n".to_vec()
    );
}

#[test]
fn to_bytes_encodes_non_ascii() {
    let headers = Headers::from_iter(vec![pair("k", "\u{e9}")]);
    assert_eq!(headers.to_bytes(), "NATS/1.0\r\nk:\u{e9}\r\n\r\n".as_bytes().to_vec());
}

#[test]
fn from_iter_collects_sets() {
    let headers = Headers::from_iter(vec![pair("a", "1"), pair("b", "2"), pair("a", "3"), pair("a", "1")]);
    assert_eq!(values_under(&headers, "a"), Some(set_of(&["1", "3"])));
    assert_eq!(values_under(&headers, "b"), Some(set_of(&["2"])));
    assert_eq!(values_under(&headers, "c"), None);
}

#[test]
fn serialize_then_parse_keeps_the_sets() {
    let headers = Headers::from_iter(vec![
        pair("accept-encoding", "html"),
        pair("accept-encoding", "json"),
        pair("authorization", "s3cr3t"),
        pair("x-empty", ""),
    ]);
    let again = Headers::try_from(&headers.to_bytes()).unwrap();
    assert_eq!(again.inner.len(), 3);
    assert_eq!(values_under(&again, "accept-encoding"), Some(set_of(&["html", "json"])));
    assert_eq!(values_under(&again, "authorization"), Some(set_of(&["s3cr3t"])));
    assert_eq!(values_under(&again, "x-empty"), Some(set_of(&[""])));
}

#[test]
fn insert_adds_to_the_set() {
    let mut headers = Headers::new();
    headers.insert("k".to_string(), "a".to_string());
    headers.insert("k".to_string(), "b".to_string());
    headers.insert("k".to_string(), "a".to_string());
    assert_eq!(headers.get("k").unwrap().len(), 2);
    assert_eq!(values_under(&headers, "k"), Some(set_of(&["a", "b"])));
}

#[test]
fn error_messages() {
    assert_eq!(HeaderError::InvalidEncoding.message(), "invalid utf8 received");
    assert_eq!(
        HeaderError::MissingHeaderBlock.message(),
        "expected header information not present"
    );
    assert_eq!(
        HeaderError::MalformedVersionLine.message(),
        "version line does not begin with NATS/"
    );
    assert_eq!(HeaderError::MalformedHeaderLine.message(), "malformed header input");
}

#[test]
fn equals_ignores_order() {
    let a = Headers::from_iter(vec![pair("k", "1"), pair("j", "x"), pair("k", "2")]);
    let b = Headers::from_iter(vec![pair("j", "x"), pair("k", "2"), pair("k", "1"), pair("k", "2")]);
    assert!(a.equals(&b));
    assert!(b.equals(&a));
    assert!(a.is_included_in(&b));
}

#[test]
fn equals_tells_sets_apart() {
    let a = Headers::from_iter(vec![pair("k", "1")]);
    let b = Headers::from_iter(vec![pair("k", "1"), pair("k", "2")]);
    let c = Headers::from_iter(vec![pair("k", "1"), pair("j", "1")]);
    assert!(!a.equals(&b));
    assert!(a.is_included_in(&b));
    assert!(!b.is_included_in(&a));
    assert!(!a.equals(&c));
    assert!(!b.equals(&c));
    assert!(Headers::new().is_included_in(&a));
    assert!(!a.equals(&Headers::new()));
}

#[test]
fn default_is_empty() {
    let headers = Headers::default();
    assert!(headers.inner.is_empty());
    assert!(headers.equals(&Headers::new()));
}

#[test]
fn parsed_block_equals_collected_pairs() {
    let parsed =
        Headers::try_from("NATS/1.0 200\r\nb: 2\r\na: 1, 3\r\n\r\n".as_bytes()).unwrap();
    let built = Headers::from_iter(vec![pair("a", "1"), pair("a", "3"), pair("b", "2")]);
    assert!(parsed.equals(&built));
    let again = Headers::try_from(&built.to_bytes()).unwrap();
    assert!(again.equals(&built));
}

#[test]
fn clone_keeps_the_headers() {
    let a = Headers::from_iter(vec![pair("k", "1"), pair("j", "x")]);
    let b = a.clone();
    assert!(a.equals(&b));
    assert_eq!(a.to_bytes(), b.to_bytes());
}
