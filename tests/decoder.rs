use bytes::BytesMut;
use minikv::{parse_command, Command};

fn buf(b: &[u8]) -> BytesMut {
    BytesMut::from(b)
}

#[test]
fn decodes_ping_and_consumes_it() {
    let mut b = buf(b"*1\r\n$4\r\nPING\r\n");
    assert!(matches!(parse_command(&mut b), Some(Command::Ping)));
    assert_eq!(b.len(), 0);
}

#[test]
fn decodes_lower_case_command_name() {
    let mut b = buf(b"*1\r\n$4\r\nping\r\n");
    assert!(matches!(parse_command(&mut b), Some(Command::Ping)));
}

#[test]
fn decodes_empty_echo() {
    let mut b = buf(b"*2\r\n$4\r\nECHO\r\n$0\r\n\r\n");
    match parse_command(&mut b) {
        Some(Command::Echo(m)) => assert_eq!(m, ""),
        other => panic!("unexpected {:?}", other),
    }
    assert_eq!(b.len(), 0);
}

#[test]
fn truncated_bulk_is_incomplete_until_completed() {
    let mut b = buf(b"*2\r\n$4\r\nECHO\r\n$5\r\nhel");
    assert!(parse_command(&mut b).is_none());
    assert_eq!(&b[..], b"*2\r\n$4\r\nECHO\r\n$5\r\nhel");
    b.extend_from_slice(b"lo\r\n");
    match parse_command(&mut b) {
        Some(Command::Echo(m)) => assert_eq!(m, "hello"),
        other => panic!("unexpected {:?}", other),
    }
    assert_eq!(b.len(), 0);
}

#[test]
fn every_prefix_of_a_request_is_incomplete() {
    let full: &[u8] = b"*3\r\n$3\r\nSET\r\n$3\r\nkey\r\n$5\r\nvalue\r\n";
    for n in 0..full.len() {
        let mut b = buf(&full[..n]);
        assert!(parse_command(&mut b).is_none());
        assert_eq!(b.len(), n);
    }
}

#[test]
fn non_numeric_length_leaves_buffer_untouched() {
    let input: &[u8] = b"*2\r\n$4\r\nECHO\r\n$x\r\nhello\r\n";
    let mut b = buf(input);
    assert!(parse_command(&mut b).is_none());
    assert_eq!(&b[..], input);
}

#[test]
fn huge_declared_length_is_incomplete() {
    let mut b = buf(b"*2\r\n$4\r\nECHO\r\n$99999999999999999999999\r\nhi\r\n");
    assert!(parse_command(&mut b).is_none());
}

#[test]
fn decodes_set_with_lower_case_px() {
    let mut b = buf(b"*5\r\n$3\r\nset\r\n$1\r\na\r\n$1\r\nb\r\n$2\r\npx\r\n$3\r\n100\r\n");
    match parse_command(&mut b) {
        Some(Command::SetValue(k, v, px)) => {
            assert_eq!(k, "a");
            assert_eq!(v, "b");
            assert_eq!(px, Some(100));
        }
        other => panic!("unexpected {:?}", other),
    }
}

#[test]
fn set_with_non_numeric_px_is_not_decoded() {
    let mut b = buf(b"*5\r\n$3\r\nSET\r\n$1\r\na\r\n$1\r\nb\r\n$2\r\nPX\r\n$2\r\nab\r\n");
    assert!(parse_command(&mut b).is_none());
}

#[test]
fn decodes_plain_set_and_get() {
    let mut b = buf(b"*3\r\n$3\r\nSET\r\n$3\r\nfoo\r\n$3\r\nbar\r\n*2\r\n$3\r\nGET\r\n$3\r\nfoo\r\n");
    match parse_command(&mut b) {
        Some(Command::SetValue(k, v, px)) => {
            assert_eq!(k, "foo");
            assert_eq!(v, "bar");
            assert_eq!(px, None);
        }
        other => panic!("unexpected {:?}", other),
    }
    match parse_command(&mut b) {
        Some(Command::Get(k)) => assert_eq!(k, "foo"),
        other => panic!("unexpected {:?}", other),
    }
    assert_eq!(b.len(), 0);
}

#[test]
fn decodes_config_get() {
    let mut b = buf(b"*3\r\n$6\r\nCONFIG\r\n$3\r\nget\r\n$3\r\ndir\r\n");
    match parse_command(&mut b) {
        Some(Command::ConfigGet(p)) => assert_eq!(p, "dir"),
        other => panic!("unexpected {:?}", other),
    }
}

#[test]
fn decodes_keys_with_its_pattern() {
    let mut b = buf(b"*2\r\n$4\r\nKEYS\r\n$1\r\n*\r\n");
    assert!(matches!(parse_command(&mut b), Some(Command::Keys)));
    assert_eq!(b.len(), 0);
}

#[test]
fn unknown_command_is_not_decoded() {
    let mut b = buf(b"*1\r\n$4\r\nQUIT\r\n");
    assert!(parse_command(&mut b).is_none());
    assert_eq!(b.len(), 14);
}

#[test]
fn invalid_utf8_argument_is_replaced() {
    let mut b = buf(b"*2\r\n$4\r\nECHO\r\n$2\r\na\xff\r\n");
    match parse_command(&mut b) {
        Some(Command::Echo(m)) => assert_eq!(m, "a\u{FFFD}"),
        other => panic!("unexpected {:?}", other),
    }
}

#[test]
fn oversized_array_count_is_not_decoded() {
    let input: &[u8] = b"*99999999999999999999999\r\n$4\r\nPING\r\n";
    let mut b = buf(input);
    assert!(parse_command(&mut b).is_none());
    assert_eq!(&b[..], input);
}
