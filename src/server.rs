//! The protocol's framing: turning the bytes of a connection into commands.
use vstd::prelude::*;
use crate::command::{decode_spec, Command, CommandView, DecodeError};

verus! {

/// What framing makes of a decoding result: a command, a wait for more
/// input, or a protocol error.
pub open spec fn frame_spec(r: Result<CommandView, DecodeError>) -> Result<Option<CommandView>, DecodeError> {
    match r {
        Ok(c) => Ok(Some(c)),
        Err(DecodeError::MissingInput) => Ok(None),
        Err(e) => Err(e),
    }
}

/// The plain-value form of a framing result.
pub open spec fn frame_view(r: Result<Option<Command>, DecodeError>) -> Result<Option<CommandView>, DecodeError> {
    match r {
        Ok(Some(c)) => Ok(Some(c@)),
        Ok(None) => Ok(None),
        Err(e) => Err(e),
    }
}

/// The codec of the control connection.
pub struct FtpCodec;

impl FtpCodec {
    /// The next command in `buf`, or `None` while its line is incomplete.
    pub fn decode(&mut self, buf: &mut Vec<u8>) -> (r: Result<Option<Command>, DecodeError>)
        ensures
            frame_view(r) == frame_spec(decode_spec(old(buf)@).0),
            final(buf)@ == decode_spec(old(buf)@).1,
    {
        match Command::decode(buf) {
            Ok(cmd) => Ok(Some(cmd)),
            Err(DecodeError::MissingInput) => Ok(None),
            Err(err) => Err(err),
        }
    }
}

/// The protocol of the control connection: commands in, replies out.
pub struct FtpProto;

/// The service that answers commands.
pub struct FtpService;

} // verus!
