use battista_ftp::command::{Command, DecodeError};
use battista_ftp::server::FtpCodec;

#[test]
fn it_works() {}

#[test]
fn codec_frames_commands() {
    let mut codec = FtpCodec;
    let mut buf = b"QUIT\r\nNOO".to_vec();
    assert!(matches!(codec.decode(&mut buf), Ok(Some(Command::Quit))));
    assert_eq!(buf, b"NOO".to_vec());
    assert!(matches!(codec.decode(&mut buf), Ok(None)));
    assert_eq!(buf, b"NOO".to_vec());
    buf.extend_from_slice(b"P x\r\n");
    assert!(matches!(codec.decode(&mut buf), Ok(Some(Command::Other(_, Some(_))))));
    let mut buf = b"TYPE Q\r\n".to_vec();
    assert_eq!(codec.decode(&mut buf).unwrap_err(), DecodeError::InvalidTypeCode);
}
