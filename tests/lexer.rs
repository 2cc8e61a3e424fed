use battista_ftp::lexer::{expect_command, Bytes, Command};

fn parse(slice: &str) -> std::io::Result<Option<&[u8]>> {
    let mut bytes = Bytes::from(slice.as_bytes());
    expect_command(&mut bytes)
}

#[test]
fn command_parse_command() {
    assert_eq!(parse("foo  ").unwrap().unwrap(), "foo ".as_bytes());
}

#[test]
fn lexer_terminators_and_errors() {
    assert_eq!(parse("NOOP\r\nX").unwrap().unwrap(), b"NOOP\r\n");
    assert!(parse("NOOP").unwrap().is_none());
    assert!(parse("NOOP\r").unwrap().is_none());
    assert!(parse("NO1P ").is_err());
    assert!(parse("NOOP\rX").is_err());
}

#[test]
fn lexer_bytes_cursor() {
    let mut bytes = Bytes::from(b"ab cd".as_slice());
    assert_eq!(bytes.next(), Some(b'a'));
    assert_eq!(bytes.next(), Some(b'b'));
    assert_eq!(bytes.consume(), b"ab");
    assert_eq!(bytes.as_slice(), b" cd");
    assert_eq!(expect_command(&mut bytes).unwrap().unwrap(), b" ");
    assert_eq!(bytes.as_slice(), b"cd");
}

#[test]
fn lexer_decode() {
    assert!(Command::decode(b"USER foo").unwrap().is_none());
    assert!(Command::decode(b"US3R foo").is_err());
}
