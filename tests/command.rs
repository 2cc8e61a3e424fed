use battista_ftp::command::{Arg, Buffer, Cmd, Command, DecodeError, FormCode, Line, TypeCode};

#[test]
fn read_line() {
    let user = "USER foo".as_bytes();
    let pass = "PASS bar".as_bytes();
    let crlf = "\r\n".as_bytes();

    let mut buf = Vec::new();
    assert_eq!(Err(DecodeError::MissingInput), Buffer(&mut buf).read_line());

    let mut buf = user.to_vec();
    assert_eq!(Err(DecodeError::MissingInput), Buffer(&mut buf).read_line());
    buf.extend_from_slice(b"\r\n");
    assert_eq!(Ok(Line(user.to_owned())), Buffer(&mut buf).read_line());
    assert!(buf.is_empty());

    let mut buf = [user, crlf, pass].concat();
    assert_eq!(Ok(Line(user.to_owned())), Buffer(&mut buf).read_line());
    assert_eq!(&*buf, pass);
}

#[test]
fn cmd() {
    assert_eq!("USER".as_bytes(), &*Cmd::new("usEr".as_bytes()).unwrap());
    assert_eq!(Err(DecodeError::InvalidCmdLength), Cmd::new("".as_bytes()));
    assert_eq!(Err(DecodeError::InvalidCmdLength), Cmd::new("foobar".as_bytes()));
}

#[test]
fn split() {
    let line = Line(b"USER foo".to_vec());
    let (cmd, arg) = line.split().unwrap();
    assert_eq!("USER".as_bytes(), &*cmd);
    assert_eq!("foo".as_bytes(), &*arg.unwrap());

    let line = Line(b"NOOP".to_vec());
    let (cmd, arg) = line.split().unwrap();
    assert_eq!("NOOP".as_bytes(), &*cmd);
    assert!(arg.is_none());
}

fn decode(input: &str) -> (Result<Command, DecodeError>, Vec<u8>) {
    let mut buf = input.as_bytes().to_vec();
    let r = Command::decode(&mut buf);
    (r, buf)
}

fn decode_err(input: &str) -> DecodeError {
    match decode(input).0 {
        Err(e) => e,
        Ok(c) => panic!("decoded {:?}", c),
    }
}

#[test]
fn incomplete_line_is_kept_and_reading_again_agrees() {
    let mut buf = b"USER fo\r".to_vec();
    assert_eq!(Err(DecodeError::MissingInput), Buffer(&mut buf).read_line());
    assert_eq!(buf, b"USER fo\r".to_vec());
    assert_eq!(Err(DecodeError::MissingInput), Buffer(&mut buf).read_line());
    assert_eq!(buf, b"USER fo\r".to_vec());
}

#[test]
fn line_then_rest() {
    let mut buf = b"a\r\r\nNOOP\r\nQU".to_vec();
    assert_eq!(Ok(Line(b"a\r".to_vec())), Buffer(&mut buf).read_line());
    assert_eq!(buf, b"NOOP\r\nQU".to_vec());
    assert_eq!(Ok(Line(b"NOOP".to_vec())), Buffer(&mut buf).read_line());
    assert_eq!(buf, b"QU".to_vec());
}

#[test]
fn empty_line_before_terminator() {
    let mut buf = b"\r\nX".to_vec();
    assert_eq!(Ok(Line(Vec::new())), Buffer(&mut buf).read_line());
    assert_eq!(buf, b"X".to_vec());
}

#[test]
fn line_of_maximum_size_is_too_long() {
    let mut buf = vec![b'a'; 8192];
    assert_eq!(Err(DecodeError::LineTooLong), Buffer(&mut buf).read_line());
    let mut buf = vec![b'a'; 8191];
    assert_eq!(Err(DecodeError::MissingInput), Buffer(&mut buf).read_line());
    assert_eq!(buf.len(), 8191);
}

#[test]
fn long_line_with_terminator_is_read() {
    let mut buf = vec![b'a'; 9000];
    buf.extend_from_slice(b"\r\n");
    let line = Buffer(&mut buf).read_line().unwrap();
    assert_eq!(line.len(), 9000);
    assert!(buf.is_empty());
}

#[test]
fn user_is_case_insensitive() {
    let lower = decode("usEr x\r\n").0.unwrap();
    let upper = decode("USER x\r\n").0.unwrap();
    match (lower, upper) {
        (Command::User(a), Command::User(b)) => {
            assert_eq!(a.as_bytes(), b"x");
            assert_eq!(a.as_bytes(), b.as_bytes());
        },
        other => panic!("{:?}", other),
    }
}

#[test]
fn pass_keeps_spaces_in_argument() {
    match decode("PASS a b \r\n").0.unwrap() {
        Command::Pass(a) => assert_eq!(a.as_bytes(), b"a b "),
        other => panic!("{:?}", other),
    }
}

#[test]
fn port_address() {
    match decode("PORT 127,0,0,1,7,138\r\n").0.unwrap() {
        Command::Port(addr) => {
            assert_eq!(addr.ip, [127, 0, 0, 1]);
            assert_eq!(addr.port, 1930);
        },
        other => panic!("{:?}", other),
    }
    match decode("PORT 10,20,30,40,255,255\r\n").0.unwrap() {
        Command::Port(addr) => {
            assert_eq!(addr.ip, [10, 20, 30, 40]);
            assert_eq!(addr.port, 65535);
        },
        other => panic!("{:?}", other),
    }
}

#[test]
fn port_errors() {
    assert_eq!(decode_err("PORT 1,2,3\r\n"), DecodeError::MissingHostNumber);
    assert_eq!(decode_err("PORT 1,2,3,4,5\r\n"), DecodeError::MissingHostNumber);
    assert_eq!(decode_err("PORT 10,20,30,40,255,255,9\r\n"), DecodeError::InvalidNumber);
    assert_eq!(decode_err("PORT 1,2,3,4,5,6,\r\n"), DecodeError::InvalidNumber);
    assert_eq!(decode_err("PORT 1,2,3,4,5,x,7\r\n"), DecodeError::InvalidNumber);
    assert_eq!(decode_err("PORT 1,x,3\r\n"), DecodeError::InvalidNumber);
    assert_eq!(decode_err("PORT 1,2,3,256,5,6\r\n"), DecodeError::InvalidNumber);
    assert_eq!(decode_err("PORT 1,2,,4,5,6\r\n"), DecodeError::InvalidNumber);
    assert_eq!(decode_err("PORT +1,2,3,4,5,6\r\n"), DecodeError::InvalidNumber);
    assert_eq!(decode_err("PORT\r\n"), DecodeError::MissingArgument);
    assert_eq!(decode_err("PORT \r\n"), DecodeError::EmptyArgument);
}

#[test]
fn type_codes() {
    assert!(matches!(decode("TYPE A N\r\n").0, Ok(Command::Type(TypeCode::Ascii(Some(FormCode::NonPrint))))));
    assert!(matches!(decode("TYPE A\r\n").0, Ok(Command::Type(TypeCode::Ascii(None)))));
    assert!(matches!(decode("TYPE E C\r\n").0, Ok(Command::Type(TypeCode::Ebcdic(Some(FormCode::CarriageControl))))));
    assert!(matches!(decode("TYPE A T\r\n").0, Ok(Command::Type(TypeCode::Ascii(Some(FormCode::TelnetFmtControl))))));
    assert!(matches!(decode("TYPE I\r\n").0, Ok(Command::Type(TypeCode::Image))));
    assert!(matches!(decode("TYPE L 8\r\n").0, Ok(Command::Type(TypeCode::Local(8)))));
}

#[test]
fn type_errors() {
    assert_eq!(decode_err("TYPE X\r\n"), DecodeError::InvalidTypeCode);
    assert_eq!(decode_err("TYPE L\r\n"), DecodeError::InvalidTypeCode);
    assert_eq!(decode_err("TYPE L x\r\n"), DecodeError::InvalidNumber);
    assert_eq!(decode_err("TYPE A X\r\n"), DecodeError::InvalidFormCode);
    assert_eq!(decode_err("TYPE\r\n"), DecodeError::MissingArgument);
}

#[test]
fn quit() {
    assert_eq!(decode_err("QUIT extra\r\n"), DecodeError::UnexpectedData);
    assert!(matches!(decode("QUIT\r\n").0, Ok(Command::Quit)));
    assert_eq!(decode_err("QUIT \r\n"), DecodeError::UnexpectedData);
}

#[test]
fn user_errors() {
    assert_eq!(decode_err("USER\r\n"), DecodeError::MissingArgument);
    assert_eq!(decode_err("USER \r\n"), DecodeError::EmptyArgument);
    assert_eq!(decode_err("US x\r\n"), DecodeError::InvalidCmdLength);
    assert_eq!(decode_err("USERS x\r\n"), DecodeError::InvalidCmdLength);
}

#[test]
fn other_commands_are_forwarded() {
    match decode("noop\r\nREST").0.unwrap() {
        Command::Other(cmd, arg) => {
            assert_eq!(cmd.as_bytes(), b"NOOP");
            assert_eq!(cmd.len(), 4);
            assert!(arg.is_none());
        },
        other => panic!("{:?}", other),
    }
    let (r, rest) = decode("retr a.txt\r\nREST");
    match r.unwrap() {
        Command::Other(cmd, arg) => {
            assert_eq!(cmd.as_bytes(), b"RETR");
            assert_eq!(arg.unwrap().as_bytes(), b"a.txt");
        },
        other => panic!("{:?}", other),
    }
    assert_eq!(rest, b"REST".to_vec());
}

#[test]
fn decode_waits_for_more_input() {
    let (r, rest) = decode("USER foo");
    assert_eq!(r.unwrap_err(), DecodeError::MissingInput);
    assert_eq!(rest, b"USER foo".to_vec());
}

#[test]
fn decode_consumes_a_rejected_line() {
    let (r, rest) = decode("QUIT now\r\nNOOP\r\n");
    assert_eq!(r.unwrap_err(), DecodeError::UnexpectedData);
    assert_eq!(rest, b"NOOP\r\n".to_vec());
}

#[test]
fn arg_helpers() {
    let a = Arg::new(b"USER foo".to_vec(), 5);
    assert_eq!(a.as_bytes(), b"foo");
    assert_eq!(a.clone().as_bytes(), b"foo");
    assert!(Arg::required(Some(a)).is_ok());
    assert_eq!(Arg::required(Some(Arg::new(b"USER ".to_vec(), 5))).unwrap_err(), DecodeError::EmptyArgument);
    assert_eq!(Arg::required(None).unwrap_err(), DecodeError::MissingArgument);
    assert_eq!(Arg::forbidden(None), Ok(()));
    assert_eq!(Arg::forbidden(Some(Arg::new(Vec::new(), 0))), Err(DecodeError::UnexpectedData));
}
