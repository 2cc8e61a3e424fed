use battista_ftp::parser::{AsciiString, Byte, CmdString, CrLf, Parse, ParseError, PrintString, Sp};

#[test]
fn parser_parse_byte() {
    assert_eq!(Ok(1), Byte(|b| b == 32).parse(&[32]));
    assert_eq!(Err(ParseError::UnexpectedToken(31)), Byte(|b| b == 32).parse(&[31]));
    assert_eq!(Err(ParseError::MissingInput), Byte(|b| b == 32).parse(&[]));
}

#[test]
fn parser_parse_string() {
    assert_eq!(Ok(1), AsciiString.parse("H".as_bytes()));
    assert_eq!(Ok(5), AsciiString.parse("Hello".as_bytes()));
    assert_eq!(Ok(6), AsciiString.parse("\0Hello\n".as_bytes()));
    assert_eq!(Err(ParseError::MissingInput), AsciiString.parse("".as_bytes()));

    assert_eq!(Ok(1), PrintString.parse("H".as_bytes()));
    assert_eq!(Ok(5), PrintString.parse("Hello".as_bytes()));
    assert_eq!(Err(ParseError::UnexpectedToken(b'\0')), PrintString.parse("\0llo\n".as_bytes()));
}

#[test]
fn parser_parse_command() {
    assert_eq!(Ok(4), CmdString.parse("RETR".as_bytes()));
    assert_eq!(Ok(4), CmdString.parse("Retr".as_bytes()));
    assert_eq!(Ok(4), CmdString.parse("retr".as_bytes()));
    assert_eq!(Ok(4), CmdString.parse("ReTr".as_bytes()));
    assert_eq!(Ok(4), CmdString.parse("rETr".as_bytes()));
    assert_eq!(Ok(4), CmdString.parse("USER foo".as_bytes()));
    assert_eq!(Ok(4), CmdString.parse("NOOP\r\n".as_bytes()));
    assert_eq!(Err(ParseError::UnexpectedToken(b' ')), CmdString.parse(" RETR".as_bytes()));
    assert_eq!(Err(ParseError::UnexpectedToken(b'1')), CmdString.parse("1RETR".as_bytes()));
    assert_eq!(Err(ParseError::MissingInput), CmdString.parse("".as_bytes()));
}

#[test]
fn parser_separators() {
    assert_eq!(Ok(1), Sp.parse(b" x"));
    assert_eq!(Err(ParseError::UnexpectedToken(b'x')), Sp.parse(b"x"));
    assert_eq!(Ok(2), CrLf.parse(b"\r\nabc"));
    assert_eq!(Err(ParseError::MissingInput), CrLf.parse(b""));
    assert_eq!(Err(ParseError::MissingInput), CrLf.parse(b"\r"));
    assert_eq!(Err(ParseError::UnexpectedToken(b'x')), CrLf.parse(b"\rx"));
    assert_eq!(Err(ParseError::UnexpectedToken(b'\n')), CrLf.parse(b"\n\r"));
}

#[test]
fn parser_print_string_stops_at_space() {
    assert_eq!(Ok(4), PrintString.parse(b"USER foo"));
    assert_eq!(Ok(3), AsciiString.parse(b"a b\r\n"));
}
