//! A streaming scan for the mnemonic at the head of a command line.
use vstd::prelude::*;
use vstd::slice::slice_subrange;

verus! {

#[verifier::external_type_specification]
#[verifier::external_body]
pub struct ExIoError(std::io::Error);

/// A cursor over a byte slice that hands out the bytes read since the last
/// hand-out.
pub struct Bytes<'buf> {
    buf: &'buf [u8],
    start: usize,
    pos: usize,
}

impl<'buf> Bytes<'buf> {
    #[verifier::type_invariant]
    spec fn inv(&self) -> bool {
        self.start <= self.pos <= self.buf@.len()
    }

    /// All bytes of the slice.
    pub closed spec fn input(&self) -> Seq<u8> {
        self.buf@
    }

    /// Where the bytes not yet handed out begin.
    pub closed spec fn start(&self) -> int {
        self.start as int
    }

    /// Where the next byte to read stands.
    pub closed spec fn pos(&self) -> int {
        self.pos as int
    }

    /// A cursor at the start of `buf`.
    pub fn from(buf: &'buf [u8]) -> (r: Self)
        ensures
            r.input() == buf@,
            r.start() == 0,
            r.pos() == 0,
    {
        Bytes { buf, start: 0, pos: 0 }
    }

    /// The next byte, if any is left.
    pub fn next(&mut self) -> (r: Option<u8>)
        ensures
            final(self).input() == old(self).input(),
            final(self).start() == old(self).start(),
            match r {
                Some(b) => old(self).pos() < old(self).input().len() && b == old(self).input()[old(
                    self,
                ).pos()] && final(self).pos() == old(self).pos() + 1,
                None => old(self).pos() == old(self).input().len() && final(self).pos() == old(
                    self,
                ).pos(),
            },
    {
        proof {
            use_type_invariant(&*self);
        }
        if self.pos < self.buf.len() {
            let b = self.buf[self.pos];
            self.pos = self.pos + 1;
            Some(b)
        } else {
            None
        }
    }

    /// Hands out the bytes read since the last hand-out.
    pub fn consume(&mut self) -> (r: &'buf [u8])
        ensures
            r@ == old(self).input().subrange(old(self).start(), old(self).pos()),
            final(self).input() == old(self).input(),
            final(self).start() == old(self).pos(),
            final(self).pos() == old(self).pos(),
    {
        proof {
            use_type_invariant(&*self);
        }
        let slice = slice_subrange(self.buf, self.start, self.pos);
        self.start = self.pos;
        slice
    }

    /// The bytes not yet handed out.
    pub fn as_slice(&self) -> (r: &'buf [u8])
        ensures
            r@ == self.input().subrange(self.start(), self.input().len() as int),
    {
        proof {
            use_type_invariant(self);
        }
        slice_subrange(self.buf, self.start, self.buf.len())
    }
}

/// Relies on `std::io::Error::from(ErrorKind::InvalidData)`: the error for a
/// byte that cannot stand where it was read.
#[verifier::external_body]
fn invalid_token(_token: char) -> std::io::Error {
    std::io::Error::from(std::io::ErrorKind::InvalidData)
}

pub open spec fn is_letter(b: u8) -> bool {
    (65 <= b <= 90) || (97 <= b <= 122)
}

/// Position of the first byte at `i` or later that is not a letter, or the
/// length of `s`.
pub open spec fn letters_end(s: Seq<u8>, i: int) -> int
    decreases s.len() - i,
{
    if 0 <= i < s.len() && is_letter(s[i]) {
        letters_end(s, i + 1)
    } else {
        i
    }
}

/// The outcome of scanning for a mnemonic.
pub enum Scan {
    /// The input ends before the mnemonic does.
    Incomplete,
    /// The mnemonic and its separator end at this position.
    Found(int),
    /// This byte cannot stand where it was read.
    Invalid(u8),
}

/// Scanning `s` from `i`: letters, then a space or CR LF.
pub open spec fn scan_spec(s: Seq<u8>, i: int) -> Scan {
    let q = letters_end(s, i);
    if q >= s.len() {
        Scan::Incomplete
    } else if s[q] == 32 {
        Scan::Found(q + 1)
    } else if s[q] == 13 {
        if q + 1 >= s.len() {
            Scan::Incomplete
        } else if s[q + 1] == 10 {
            Scan::Found(q + 2)
        } else {
            Scan::Invalid(s[q + 1])
        }
    } else {
        Scan::Invalid(s[q])
    }
}

/// Reads a mnemonic and its separator (a space, or CR LF) and hands out
/// everything read since the last hand-out; `None` when the input ends first.
pub fn expect_command<'buf>(bytes: &mut Bytes<'buf>) -> (r: std::io::Result<Option<&'buf [u8]>>)
    ensures
        final(bytes).input() == old(bytes).input(),
        match scan_spec(old(bytes).input(), old(bytes).pos()) {
            Scan::Incomplete => r matches Ok(None) && final(bytes).start() == old(bytes).start(),
            Scan::Found(end) => r matches Ok(Some(t)) && t@ == old(bytes).input().subrange(
                old(bytes).start(),
                end,
            ) && final(bytes).start() == end && final(bytes).pos() == end,
            Scan::Invalid(_) => r is Err && final(bytes).start() == old(bytes).start(),
        },
{
    let ghost s = bytes.input();
    let ghost p0 = bytes.pos();
    proof {
        use_type_invariant(&*bytes);
    }
    loop
        invariant
            bytes.input() == s,
            bytes.start() == old(bytes).start(),
            s == old(bytes).input(),
            p0 == old(bytes).pos(),
            p0 <= bytes.pos() <= s.len(),
            letters_end(s, p0) == letters_end(s, bytes.pos()),
        decreases s.len() - bytes.pos(),
    {
        let b = match bytes.next() {
            Some(b) => b,
            None => return Ok(None),
        };
        if b >= 65 && b <= 90 || b >= 97 && b <= 122 {
            // a letter of the mnemonic
        } else if b == 32 {
            return Ok(Some(bytes.consume()));
        } else if b == 13 {
            let c = match bytes.next() {
                Some(c) => c,
                None => return Ok(None),
            };
            if c == 10 {
                return Ok(Some(bytes.consume()));
            } else {
                return Err(invalid_token(c as char));
            }
        } else {
            return Err(invalid_token(b as char));
        }
    }
}

/// The head of a command stream.
pub struct Command {}

impl Command {
    /// Scans `buf` for a complete mnemonic; fails on a byte that cannot
    /// stand in one. No command is produced yet.
    pub fn decode(buf: &[u8]) -> (r: std::io::Result<Option<Self>>)
        ensures
            r is Err <==> scan_spec(buf@, 0) is Invalid,
            r is Ok ==> r matches Ok(None),
    {
        let mut bytes = Bytes::from(buf);
        match expect_command(&mut bytes) {
            Ok(_) => Ok(None),
            Err(e) => Err(e),
        }
    }
}

} // verus!
