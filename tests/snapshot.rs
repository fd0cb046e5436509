use minikv::{load_keys, parse_rdb, RdbError};

fn snapshot(body: &[u8]) -> Vec<u8> {
    let mut v = b"REDIS0011".to_vec();
    v.extend_from_slice(body);
    v
}

#[test]
fn selector_and_one_string_entry() {
    let data = snapshot(b"\xfe\x00\x00\x03foo\x03bar\xff");
    let d = parse_rdb(&data).unwrap();
    assert_eq!(d.keys, vec!["foo".to_string()]);
}

#[test]
fn invalid_header_is_format_error_and_no_keys() {
    let data = b"REDIS0010\xfe\x00\x00\x03foo\x03bar\xff".to_vec();
    assert_eq!(parse_rdb(&data).unwrap_err(), RdbError::FormatError);
    assert!(load_keys(&data).is_empty());
}

#[test]
fn short_header_is_format_error() {
    assert_eq!(parse_rdb(b"REDIS").unwrap_err(), RdbError::FormatError);
}

#[test]
fn header_alone_has_no_keys() {
    assert!(parse_rdb(b"REDIS0011").unwrap().keys.is_empty());
}

#[test]
fn truncated_value_is_unexpected_eof() {
    let data = snapshot(b"\x00\x03foo\x05ba");
    assert_eq!(parse_rdb(&data).unwrap_err(), RdbError::UnexpectedEof);
    assert!(load_keys(&data).is_empty());
}

#[test]
fn truncated_timestamp_is_unexpected_eof() {
    let data = snapshot(b"\xfc\x01\x02");
    assert_eq!(parse_rdb(&data).unwrap_err(), RdbError::UnexpectedEof);
}

#[test]
fn aux_fields_resize_hints_and_expiries() {
    let mut body: Vec<u8> = Vec::new();
    body.extend_from_slice(b"\xfa\x09redis-ver\x057.2.0");
    body.extend_from_slice(b"\xfe\x00\xfb\x03\x01");
    body.extend_from_slice(b"\xfc\x01\x02\x03\x04\x05\x06\x07\x08\x00\x01a\x01x");
    body.extend_from_slice(b"\xfd\x01\x02\x03\x04\x00\x01b\x01y");
    body.extend_from_slice(b"\x00\x01c\x01z\xff");
    let d = parse_rdb(&snapshot(&body)).unwrap();
    assert_eq!(d.keys, vec!["a".to_string(), "b".to_string(), "c".to_string()]);
}

#[test]
fn wide_length_encodings() {
    let data = snapshot(b"\x00\x40\x03foo\x80\x00\x00\x00\x03bar\x00\x03baz\xc0\x07\xff");
    let d = parse_rdb(&data).unwrap();
    assert_eq!(d.keys, vec!["foo".to_string(), "baz".to_string()]);
}

#[test]
fn bad_special_encoding_is_format_error() {
    let data = snapshot(b"\x00\xc3foo\x03bar\xff");
    assert_eq!(parse_rdb(&data).unwrap_err(), RdbError::FormatError);
}

#[test]
fn invalid_utf8_key_is_format_error() {
    let data = snapshot(b"\x00\x02\xff\xfe\x03bar\xff");
    assert_eq!(parse_rdb(&data).unwrap_err(), RdbError::FormatError);
}

#[test]
fn unknown_opcode_is_skipped() {
    let data = snapshot(b"\x07\x00\x03foo\x03bar\xff\x00\x03zzz\x01q");
    let d = parse_rdb(&data).unwrap();
    assert_eq!(d.keys, vec!["foo".to_string()]);
}

#[test]
fn expiring_entry_of_other_type_leaves_its_bytes() {
    let data = snapshot(b"\xfd\x01\x02\x03\x04\x02\xff");
    assert!(parse_rdb(&data).unwrap().keys.is_empty());
}
