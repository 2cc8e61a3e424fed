//! Command lines: extraction from an accumulation buffer, tokenizing and
//! decoding into typed commands.
use vstd::prelude::*;
use vstd::slice::slice_subrange;

verus! {

/// Why a command line could not be decoded.
#[derive(Clone, Debug, PartialEq, Eq)]
pub enum DecodeError {
    /// No complete line yet: wait for more bytes.
    MissingInput,
    /// The mnemonic is not three or four bytes long.
    InvalidCmdLength,
    /// No terminator within the longest line allowed.
    LineTooLong,
    /// A command that needs an argument has none.
    MissingArgument,
    /// A command that needs an argument has an empty one.
    EmptyArgument,
    /// A command that takes no argument has one.
    UnexpectedData,
    /// A `PORT` argument has fewer than six numbers.
    MissingHostNumber,
    /// A port number is missing; kept for callers that report it apart.
    MissingPortNumber,
    /// Bytes that are not text where text was needed, with the offset of the
    /// first one; the decoder reads numbers byte by byte and does not need it.
    InvalidUtf8(usize),
    /// A field is not a decimal number from 0 to 255, or a `PORT` argument
    /// has more than six.
    InvalidNumber,
    /// A `TYPE` argument names no known representation type.
    InvalidTypeCode,
    /// A `TYPE` argument names no known form code.
    InvalidFormCode,
}

/// Longest line the buffer may hold without a terminator.
pub const BUFFER_MAX_LINE_LENGTH: usize = 8192;

/// Capacity of the fresh buffer that receives the bytes after a line.
pub const BUFFER_DEFAULT_CAPACITY: usize = BUFFER_MAX_LINE_LENGTH / 4;

pub const CR: u8 = 13;

pub const LF: u8 = 10;

/// Position of the first CR LF pair in `s` that starts at `i` or later.
pub open spec fn crlf_from(s: Seq<u8>, i: int) -> Option<int>
    decreases s.len() - i,
{
    if i < 0 || i + 1 >= s.len() {
        None
    } else if s[i] == CR && s[i + 1] == LF {
        Some(i)
    } else {
        crlf_from(s, i + 1)
    }
}

/// Position of the first CR LF pair in `s`.
pub open spec fn first_crlf(s: Seq<u8>) -> Option<int> {
    crlf_from(s, 0)
}

/// `s` holds a CR LF pair starting at `p`.
pub open spec fn crlf_at(s: Seq<u8>, p: int) -> bool {
    0 <= p && p + 1 < s.len() && s[p] == CR && s[p + 1] == LF
}

/// What reading a line from a buffer holding `s` gives: the line and what
/// stays in the buffer, or the error (and the buffer is left as it was).
pub open spec fn read_line_spec(s: Seq<u8>) -> (Result<Seq<u8>, DecodeError>, Seq<u8>) {
    match first_crlf(s) {
        Some(p) => (Ok(s.subrange(0, p)), s.subrange(p + 2, s.len() as int)),
        None => if s.len() >= BUFFER_MAX_LINE_LENGTH {
            (Err(DecodeError::LineTooLong), s)
        } else {
            (Err(DecodeError::MissingInput), s)
        },
    }
}

/// One complete command line, terminator removed.
#[derive(Clone, Debug, PartialEq, Eq)]
pub struct Line(pub Vec<u8>);

impl View for Line {
    type V = Seq<u8>;

    open spec fn view(&self) -> Seq<u8> {
        self.0@
    }
}

impl std::ops::Deref for Line {
    type Target = [u8];

    fn deref(&self) -> &[u8] {
        self.0.as_slice()
    }
}

/// The accumulation buffer of a connection, borrowed for one read.
#[derive(Debug)]
pub struct Buffer<'a>(pub &'a mut Vec<u8>);

impl<'a> Buffer<'a> {
    /// Detaches the first complete line; the bytes after its terminator stay
    /// in the buffer.
    pub fn read_line(&mut self) -> (r: Result<Line, DecodeError>)
        ensures
            r matches Ok(line) ==> read_line_spec(old(self).0@).0 == Ok::<Seq<u8>, DecodeError>(line@),
            r matches Err(e) ==> read_line_spec(old(self).0@).0 == Err::<Seq<u8>, DecodeError>(e),
            final(self).0@ == read_line_spec(old(self).0@).1,
    {
        let Buffer(buf) = self;
        take_line(buf)
    }
}

/// Detaches the first complete line of `buf`.
fn take_line(buf: &mut Vec<u8>) -> (r: Result<Line, DecodeError>)
    ensures
        r matches Ok(line) ==> read_line_spec(old(buf)@).0 == Ok::<Seq<u8>, DecodeError>(line@),
        r matches Err(e) ==> read_line_spec(old(buf)@).0 == Err::<Seq<u8>, DecodeError>(e),
        final(buf)@ == read_line_spec(old(buf)@).1,
{
    let len = buf.len();
    let mut i: usize = 0;
    // scan the whole buffer for <CRLF>, so that it can be split there
    while i < len && !(i + 1 < len && buf[i] == CR && buf[i + 1] == LF)
        invariant
            len == buf@.len(),
            i <= len,
            crlf_from(buf@, 0) == crlf_from(buf@, i as int),
        decreases len - i,
    {
        i = i + 1;
    }
    if i < len {
        let end = i + 2;
        let mut line = Vec::with_capacity(BUFFER_DEFAULT_CAPACITY);
        std::mem::swap(buf, &mut line);
        // move the bytes after <CRLF> into the fresh buffer
        if end < len {
            buf.extend_from_slice(slice_subrange(line.as_slice(), end, len));
        }
        // cut the line right before <CRLF>
        line.truncate(i);
        proof {
            assert(buf@ =~= old(buf)@.subrange(end as int, len as int));
        }
        Ok(Line(line))
    } else if len >= BUFFER_MAX_LINE_LENGTH {
        // a peer that sends such a line is broken or hostile
        Err(DecodeError::LineTooLong)
    } else {
        Err(DecodeError::MissingInput)
    }
}

/// A buffer without a CR LF pair that is shorter than the longest line is
/// left as it is, and reading from it reports that input is missing; as the
/// buffer does not change, reading again gives the same answer.
pub proof fn lemma_incomplete_line_kept(b: Seq<u8>)
    requires
        forall|p: int| !crlf_at(b, p),
        b.len() < BUFFER_MAX_LINE_LENGTH,
    ensures
        read_line_spec(b) == (Err::<Seq<u8>, DecodeError>(DecodeError::MissingInput), b),
        read_line_spec(read_line_spec(b).1) == read_line_spec(b),
{
    lemma_no_crlf_from(b, 0);
}

proof fn lemma_no_crlf_from(s: Seq<u8>, i: int)
    requires
        0 <= i,
        forall|p: int| !crlf_at(s, p),
    ensures
        crlf_from(s, i) is None,
    decreases s.len() - i,
{
    if i + 1 < s.len() {
        assert(!crlf_at(s, i));
        lemma_no_crlf_from(s, i + 1);
    }
}

/// A complete line `l`, its terminator, and any bytes `r` after it: reading
/// gives back `l` and leaves exactly `r` in the buffer.
pub proof fn lemma_line_then_rest(l: Seq<u8>, r: Seq<u8>)
    requires
        forall|p: int| !crlf_at(l, p),
    ensures
        read_line_spec(l + seq![CR, LF] + r) == (Ok::<Seq<u8>, DecodeError>(l), r),
{
    let s = l + seq![CR, LF] + r;
    lemma_crlf_after_line(l, r, 0);
    assert(s.subrange(0, l.len() as int) =~= l);
    assert(s.subrange(l.len() as int + 2, s.len() as int) =~= r);
}

proof fn lemma_crlf_after_line(l: Seq<u8>, r: Seq<u8>, i: int)
    requires
        0 <= i <= l.len(),
        forall|p: int| !crlf_at(l, p),
    ensures
        crlf_from(l + seq![CR, LF] + r, i) == Some(l.len() as int),
    decreases l.len() - i,
{
    let s = l + seq![CR, LF] + r;
    if i < l.len() {
        if i + 1 < l.len() {
            assert(!crlf_at(l, i));
            assert(s[i] == l[i] && s[i + 1] == l[i + 1]);
        } else {
            assert(s[i + 1] == CR);
        }
        lemma_crlf_after_line(l, r, i + 1);
    } else {
        assert(s[i] == CR && s[i + 1] == LF);
    }
}

pub const SP: u8 = 32;

pub const COMMA: u8 = 44;

/// Position of the first `b` in `s` at `i` or later.
pub open spec fn byte_from(s: Seq<u8>, b: u8, i: int) -> Option<int>
    decreases s.len() - i,
{
    if i < 0 || i >= s.len() {
        None
    } else if s[i] == b {
        Some(i)
    } else {
        byte_from(s, b, i + 1)
    }
}

/// Position of the first `b` in `s`.
fn find_byte(s: &[u8], b: u8) -> (r: Option<usize>)
    ensures
        match r {
            Some(p) => byte_from(s@, b, 0) == Some(p as int) && p < s@.len(),
            None => byte_from(s@, b, 0) is None,
        },
{
    let n = s.len();
    let mut i: usize = 0;
    while i < n
        invariant
            n == s@.len(),
            i <= n,
            byte_from(s@, b, 0) == byte_from(s@, b, i as int),
        decreases n - i,
    {
        if s[i] == b {
            return Some(i);
        }
        i = i + 1;
    }
    None
}

/// A letter byte in upper case; other bytes are unchanged.
pub open spec fn upper(b: u8) -> u8 {
    if 97 <= b <= 122 {
        (b - 32) as u8
    } else {
        b
    }
}

pub open spec fn upper_seq(s: Seq<u8>) -> Seq<u8> {
    s.map_values(|b: u8| upper(b))
}

/// A command mnemonic: three or four bytes, in upper case.
#[derive(Clone, Copy, Debug, PartialEq, Eq)]
pub struct Cmd {
    buf: [u8; 4],
    len: usize,
}

impl View for Cmd {
    type V = Seq<u8>;

    closed spec fn view(&self) -> Seq<u8> {
        self.buf@.subrange(0, self.len as int)
    }
}

impl Cmd {
    #[verifier::type_invariant]
    spec fn inv(&self) -> bool {
        3 <= self.len <= 4
    }

    /// The mnemonic `cmd` in upper case, if it is three or four bytes long.
    pub fn new(cmd: &[u8]) -> (r: Result<Self, DecodeError>)
        ensures
            match r {
                Ok(c) => 3 <= cmd@.len() <= 4 && c@ == upper_seq(cmd@),
                Err(e) => !(3 <= cmd@.len() <= 4) && e == DecodeError::InvalidCmdLength,
            },
    {
        let mut buf: [u8; 4] = [0; 4];
        if cmd.len() >= 3 && cmd.len() <= 4 {
            let mut i: usize = 0;
            while i < cmd.len()
                invariant
                    i <= cmd@.len() <= 4,
                    forall|j: int| 0 <= j < i ==> buf@[j] == upper(cmd@[j]),
                decreases cmd@.len() - i,
            {
                let b = cmd[i];
                let u = if b >= 97 && b <= 122 {
                    b - 32
                } else {
                    b
                };
                buf[i] = u;
                i = i + 1;
            }
            let c = Cmd { buf, len: cmd.len() };
            assert(c@ =~= upper_seq(cmd@));
            Ok(c)
        } else {
            Err(DecodeError::InvalidCmdLength)
        }
    }

    pub fn len(&self) -> (r: usize)
        ensures
            r == self@.len(),
            3 <= r <= 4,
    {
        proof {
            use_type_invariant(self);
        }
        self.len
    }

    /// The mnemonic's bytes.
    pub fn as_bytes(&self) -> (r: &[u8])
        ensures
            r@ == self@,
    {
        proof {
            use_type_invariant(self);
        }
        slice_subrange(self.buf.as_slice(), 0, self.len)
    }

    /// Whether the mnemonic is the four bytes of `w`.
    fn is(&self, w: [u8; 4]) -> (r: bool)
        ensures
            r == (self@ == w@),
    {
        proof {
            use_type_invariant(self);
        }
        let r = self.len == 4 && self.buf[0] == w[0] && self.buf[1] == w[1]
            && self.buf[2] == w[2] && self.buf[3] == w[3];
        proof {
            assert(w@.len() == 4);
            if r {
                assert(self@ =~= w@);
            } else if self@ == w@ {
                assert(self@.len() == 4);
                assert(self@[0] == self.buf@[0] && self@[1] == self.buf@[1]);
                assert(self@[2] == self.buf@[2] && self@[3] == self.buf@[3]);
            }
        }
        r
    }
}

impl std::ops::Deref for Cmd {
    type Target = [u8];

    fn deref(&self) -> &[u8] {
        self.as_bytes()
    }
}

/// The argument of a command: the bytes of its line after the separator.
#[derive(Debug)]
pub struct Arg {
    buf: Vec<u8>,
    start: usize,
}

impl View for Arg {
    type V = Seq<u8>;

    closed spec fn view(&self) -> Seq<u8> {
        self.buf@.subrange(self.start as int, self.buf@.len() as int)
    }
}

impl std::ops::Deref for Arg {
    type Target = [u8];

    fn deref(&self) -> &[u8] {
        self.as_bytes()
    }
}

/// The bytes of an optional argument.
pub open spec fn opt_view(a: Option<Arg>) -> Option<Seq<u8>> {
    match a {
        Some(a) => Some(a@),
        None => None,
    }
}

/// What a command that needs an argument makes of `arg`.
pub open spec fn required_spec(arg: Option<Seq<u8>>) -> Result<Seq<u8>, DecodeError> {
    match arg {
        Some(a) => if a.len() > 0 {
            Ok(a)
        } else {
            Err(DecodeError::EmptyArgument)
        },
        None => Err(DecodeError::MissingArgument),
    }
}

impl Clone for Arg {
    fn clone(&self) -> (r: Self)
        ensures
            r@ == self@,
    {
        proof {
            use_type_invariant(self);
        }
        Arg { buf: self.buf.clone(), start: self.start }
    }
}

impl Arg {
    #[verifier::type_invariant]
    spec fn inv(&self) -> bool {
        self.start <= self.buf@.len()
    }

    /// The bytes of `buf` from `start` on.
    pub fn new(buf: Vec<u8>, start: usize) -> (r: Self)
        requires
            start <= buf@.len(),
        ensures
            r@ == buf@.subrange(start as int, buf@.len() as int),
    {
        Arg { buf, start }
    }

    /// The argument, which must be there and not be empty.
    pub fn required(arg: Option<Self>) -> (r: Result<Self, DecodeError>)
        ensures
            match r {
                Ok(a) => required_spec(opt_view(arg)) == Ok::<Seq<u8>, DecodeError>(a@),
                Err(e) => required_spec(opt_view(arg)) == Err::<Seq<u8>, DecodeError>(e),
            },
    {
        match arg {
            Some(arg) => {
                if arg.as_bytes().len() != 0 {
                    Ok(arg)
                } else {
                    Err(DecodeError::EmptyArgument)
                }
            },
            None => Err(DecodeError::MissingArgument),
        }
    }

    /// Succeeds exactly when there is no argument.
    pub fn forbidden(arg: Option<Self>) -> (r: Result<(), DecodeError>)
        ensures
            r == (if arg is Some {
                Err::<(), DecodeError>(DecodeError::UnexpectedData)
            } else {
                Ok(())
            }),
    {
        match arg {
            Some(_) => Err(DecodeError::UnexpectedData),
            None => Ok(()),
        }
    }

    /// The argument's bytes.
    pub fn as_bytes(&self) -> (r: &[u8])
        ensures
            r@ == self@,
    {
        proof {
            use_type_invariant(self);
        }
        slice_subrange(self.buf.as_slice(), self.start, self.buf.len())
    }
}

/// The mnemonic and optional argument of a line, before the mnemonic's
/// length is checked.
pub open spec fn tokens(line: Seq<u8>) -> (Seq<u8>, Option<Seq<u8>>) {
    match byte_from(line, SP, 0) {
        Some(p) => (line.subrange(0, p), Some(line.subrange(p + 1, line.len() as int))),
        None => (line, None),
    }
}

/// What splitting `line` gives: the upper-cased mnemonic and the optional
/// argument.
pub open spec fn split_spec(line: Seq<u8>) -> Result<(Seq<u8>, Option<Seq<u8>>), DecodeError> {
    let (cmd, arg) = tokens(line);
    if 3 <= cmd.len() <= 4 {
        Ok((upper_seq(cmd), arg))
    } else {
        Err(DecodeError::InvalidCmdLength)
    }
}

impl Line {
    /// Splits the line at its first space into mnemonic and argument.
    pub fn split(self) -> (r: Result<(Cmd, Option<Arg>), DecodeError>)
        ensures
            match r {
                Ok((c, a)) => split_spec(self@) == Ok::<(Seq<u8>, Option<Seq<u8>>), DecodeError>(
                    (c@, opt_view(a)),
                ),
                Err(e) => split_spec(self@) == Err::<(Seq<u8>, Option<Seq<u8>>), DecodeError>(e),
            },
    {
        let Line(line) = self;
        // mnemonic and argument are separated by a single <SP>
        match find_byte(line.as_slice(), SP) {
            Some(pos) => {
                let cmd = match Cmd::new(slice_subrange(line.as_slice(), 0, pos)) {
                    Ok(c) => c,
                    Err(e) => return Err(e),
                };
                let arg = Arg::new(line, pos + 1);
                Ok((cmd, Some(arg)))
            },
            None => {
                let cmd = match Cmd::new(line.as_slice()) {
                    Ok(c) => c,
                    Err(e) => return Err(e),
                };
                Ok((cmd, None))
            },
        }
    }
}

/// The pieces of `s` between the occurrences of `sep`; there is always at
/// least one.
pub open spec fn fields(s: Seq<u8>, sep: u8) -> Seq<Seq<u8>>
    decreases s.len(),
{
    let p = byte_from(s, sep, 0);
    if p is Some && 0 <= p->Some_0 < s.len() {
        seq![s.subrange(0, p->Some_0)] + fields(s.subrange(p->Some_0 + 1, s.len() as int), sep)
    } else {
        seq![s]
    }
}

/// The first field of `s` and, if there is a separator, what follows it.
fn next_field<'a>(s: &'a [u8], sep: u8) -> (r: (&'a [u8], Option<&'a [u8]>))
    ensures
        match r.1 {
            Some(rest) => fields(s@, sep) == seq![r.0@] + fields(rest@, sep),
            None => fields(s@, sep) == seq![r.0@],
        },
{
    let n = s.len();
    match find_byte(s, sep) {
        Some(p) => (slice_subrange(s, 0, p), Some(slice_subrange(s, p + 1, n))),
        None => (s, None),
    }
}

pub open spec fn is_digit(b: u8) -> bool {
    48 <= b <= 57
}

/// The value of the decimal digits `s`.
pub open spec fn decimal(s: Seq<u8>) -> nat
    decreases s.len(),
{
    if s.len() == 0 {
        0
    } else {
        decimal(s.drop_last()) * 10 + (s.last() - 48) as nat
    }
}

/// A byte value written in decimal: one or more digits, at most 255.
pub open spec fn number_spec(s: Seq<u8>) -> Result<u8, DecodeError> {
    if s.len() > 0 && (forall|i: int| 0 <= i < s.len() ==> is_digit(#[trigger] s[i])) && decimal(s)
        <= 255 {
        Ok(decimal(s) as u8)
    } else {
        Err(DecodeError::InvalidNumber)
    }
}

pub(crate) struct Number<'a>(pub(crate) &'a [u8]);

impl<'a> Number<'a> {
    fn parse(self) -> (r: Result<u8, DecodeError>)
        ensures
            r == number_spec(self.0@),
    {
        let Number(s) = self;
        let n = s.len();
        if n == 0 {
            return Err(DecodeError::InvalidNumber);
        }
        // the value so far, held at 256 once it is larger
        let mut v: u32 = 0;
        let mut i: usize = 0;
        while i < n
            invariant
                s == self.0,
                n == s@.len(),
                i <= n,
                forall|j: int| 0 <= j < i ==> is_digit(#[trigger] s@[j]),
                v == if decimal(s@.subrange(0, i as int)) < 256 {
                    decimal(s@.subrange(0, i as int))
                } else {
                    256
                },
            decreases n - i,
        {
            let b = s[i];
            if b < 48 || b > 57 {
                assert(!is_digit(s@[i as int]));
                return Err(DecodeError::InvalidNumber);
            }
            let w = v * 10 + (b - 48) as u32;
            v = if w > 256 {
                256
            } else {
                w
            };
            proof {
                assert(s@.subrange(0, i + 1).drop_last() =~= s@.subrange(0, i as int));
            }
            i = i + 1;
        }
        proof {
            assert(s@.subrange(0, n as int) =~= s@);
        }
        if v > 255 {
            Err(DecodeError::InvalidNumber)
        } else {
            Ok(v as u8)
        }
    }
}

/// An IPv4 socket address.
#[derive(Clone, Copy, Debug, PartialEq, Eq)]
pub struct SocketAddress {
    pub ip: [u8; 4],
    pub port: u16,
}

/// The value of a field known to be a valid number.
pub open spec fn num(s: Seq<u8>) -> u8 {
    decimal(s) as u8
}

/// What a `PORT` argument gives: exactly six comma-separated numbers, the
/// four octets of the address and the high and low byte of the port. An
/// invalid number among the first six comes first, then too few fields, then
/// too many.
pub open spec fn host_port_spec(arg: Seq<u8>) -> Result<(Seq<u8>, u16), DecodeError> {
    let f = fields(arg, COMMA);
    if exists|i: int| 0 <= i < f.len() && i < 6 && number_spec(#[trigger] f[i]) is Err {
        Err(DecodeError::InvalidNumber)
    } else if f.len() < 6 {
        Err(DecodeError::MissingHostNumber)
    } else if f.len() > 6 {
        Err(DecodeError::InvalidNumber)
    } else {
        Ok(
            (
                seq![num(f[0]), num(f[1]), num(f[2]), num(f[3])],
                (num(f[4]) * 256 + num(f[5])) as u16,
            ),
        )
    }
}

pub(crate) struct HostPort(pub(crate) Arg);

impl HostPort {
    fn parse_v4(self) -> (r: Result<SocketAddress, DecodeError>)
        ensures
            match r {
                Ok(a) => host_port_spec(self.0@) == Ok::<(Seq<u8>, u16), DecodeError>(
                    (a.ip@, a.port),
                ),
                Err(e) => host_port_spec(self.0@) == Err::<(Seq<u8>, u16), DecodeError>(e),
            },
    {
        let HostPort(arg) = self;
        let ghost f = fields(arg@, COMMA);
        let mut nums: Vec<u8> = Vec::new();
        let mut rest: Option<&[u8]> = Some(arg.as_bytes());
        let mut k: usize = 0;
        while k < 6
            invariant
                arg@ == self.0@,
                f == fields(arg@, COMMA),
                k <= 6,
                nums@.len() == k,
                k <= f.len(),
                forall|i: int| 0 <= i < k ==> number_spec(#[trigger] f[i]) == Ok::<u8, DecodeError>(nums@[i]),
                match rest {
                    Some(r) => f == f.subrange(0, k as int) + fields(r@, COMMA),
                    None => f.len() == k,
                },
            decreases 6 - k,
        {
            let cur = match rest {
                Some(r) => r,
                None => {
                    assert(!exists|i: int| 0 <= i < f.len() && i < 6 && number_spec(#[trigger] f[i]) is Err);
                    return Err(DecodeError::MissingHostNumber);
                },
            };
            let (field, next) = next_field(cur, COMMA);
            assert(f[k as int] == field@);
            let n = match Number(field).parse() {
                Ok(n) => n,
                Err(e) => {
                    assert(number_spec(f[k as int]) is Err);
                    return Err(e);
                },
            };
            nums.push(n);
            proof {
                match next {
                    Some(r) => {
                        assert(f =~= f.subrange(0, k + 1) + fields(r@, COMMA));
                    },
                    None => {},
                }
            }
            rest = next;
            k = k + 1;
        }
        assert(!exists|i: int| 0 <= i < f.len() && i < 6 && number_spec(#[trigger] f[i]) is Err);
        // the argument ends with the sixth number
        if let Some(r) = rest {
            assert(fields(r@, COMMA).len() >= 1);
            return Err(DecodeError::InvalidNumber);
        }
        let port = nums[4] as u16 * 256 + nums[5] as u16;
        let a = SocketAddress { ip: [nums[0], nums[1], nums[2], nums[3]], port };
        assert(a.ip@ =~= seq![num(f[0]), num(f[1]), num(f[2]), num(f[3])]);
        Ok(a)
    }
}

/// Letters of the `TYPE` argument: representation types, then form codes.
pub const TYPE_ASCII: u8 = 65;

pub const TYPE_EBCDIC: u8 = 69;

pub const TYPE_IMAGE: u8 = 73;

pub const TYPE_LOCAL: u8 = 76;

pub const FORM_NON_PRINT: u8 = 78;

pub const FORM_TELNET: u8 = 84;

pub const FORM_CARRIAGE: u8 = 67;

/// The format control of an `ASCII` or `EBCDIC` transfer type.
#[derive(Clone, Copy, Debug, PartialEq, Eq)]
pub enum FormCode {
    NonPrint,
    TelnetFmtControl,
    CarriageControl,
}

/// The form code that `s` names.
pub open spec fn form_code_spec(s: Seq<u8>) -> Result<FormCode, DecodeError> {
    if s == seq![FORM_NON_PRINT] {
        Ok(FormCode::NonPrint)
    } else if s == seq![FORM_TELNET] {
        Ok(FormCode::TelnetFmtControl)
    } else if s == seq![FORM_CARRIAGE] {
        Ok(FormCode::CarriageControl)
    } else {
        Err(DecodeError::InvalidFormCode)
    }
}

/// Whether `s` is the single byte `b`.
fn is_single(s: &[u8], b: u8) -> (r: bool)
    ensures
        r == (s@ == seq![b]),
{
    let r = s.len() == 1 && s[0] == b;
    proof {
        if r {
            assert(s@ =~= seq![b]);
        }
    }
    r
}

impl FormCode {
    fn parse(arg: &[u8]) -> (r: Result<Self, DecodeError>)
        ensures
            r == form_code_spec(arg@),
    {
        if is_single(arg, FORM_NON_PRINT) {
            Ok(FormCode::NonPrint)
        } else if is_single(arg, FORM_TELNET) {
            Ok(FormCode::TelnetFmtControl)
        } else if is_single(arg, FORM_CARRIAGE) {
            Ok(FormCode::CarriageControl)
        } else {
            Err(DecodeError::InvalidFormCode)
        }
    }
}

/// The representation type of a transfer.
#[derive(Clone, Copy, Debug, PartialEq, Eq)]
pub enum TypeCode {
    Ascii(Option<FormCode>),
    Ebcdic(Option<FormCode>),
    Image,
    Local(u8),
}

/// The optional form code in the second field of a `TYPE` argument.
pub open spec fn form_field_spec(f: Seq<Seq<u8>>) -> Result<Option<FormCode>, DecodeError> {
    if f.len() > 1 {
        match form_code_spec(f[1]) {
            Ok(c) => Ok(Some(c)),
            Err(e) => Err(e),
        }
    } else {
        Ok(None)
    }
}

/// What a `TYPE` argument gives: a type letter, then for `A` and `E` an
/// optional form code and for `L` a byte size, separated by spaces. Fields
/// after those are not read.
pub open spec fn type_code_spec(arg: Seq<u8>) -> Result<TypeCode, DecodeError> {
    let f = fields(arg, SP);
    if f[0] == seq![TYPE_ASCII] {
        match form_field_spec(f) {
            Ok(form) => Ok(TypeCode::Ascii(form)),
            Err(e) => Err(e),
        }
    } else if f[0] == seq![TYPE_EBCDIC] {
        match form_field_spec(f) {
            Ok(form) => Ok(TypeCode::Ebcdic(form)),
            Err(e) => Err(e),
        }
    } else if f[0] == seq![TYPE_IMAGE] {
        Ok(TypeCode::Image)
    } else if f[0] == seq![TYPE_LOCAL] {
        if f.len() > 1 {
            match number_spec(f[1]) {
                Ok(n) => Ok(TypeCode::Local(n)),
                Err(e) => Err(e),
            }
        } else {
            Err(DecodeError::InvalidTypeCode)
        }
    } else {
        Err(DecodeError::InvalidTypeCode)
    }
}

impl TypeCode {
    /// The optional form code after the type letter; `rest` is what follows
    /// the first field.
    fn parse_form(rest: Option<&[u8]>) -> (r: Result<Option<FormCode>, DecodeError>)
        ensures
            r == form_field_spec(
                match rest {
                    Some(s) => seq![Seq::<u8>::empty()] + fields(s@, SP),
                    None => seq![Seq::<u8>::empty()],
                },
            ),
    {
        match rest {
            Some(s) => {
                let (form, _) = next_field(s, SP);
                match FormCode::parse(form) {
                    Ok(c) => Ok(Some(c)),
                    Err(e) => Err(e),
                }
            },
            None => Ok(None),
        }
    }

    fn parse(arg: Arg) -> (r: Result<Self, DecodeError>)
        ensures
            r == type_code_spec(arg@),
    {
        let (code, rest) = next_field(arg.as_bytes(), SP);
        let ghost f = fields(arg@, SP);
        let ghost g = match rest {
            Some(s) => seq![Seq::<u8>::empty()] + fields(s@, SP),
            None => seq![Seq::<u8>::empty()],
        };
        assert(f[0] == code@);
        assert(f.len() == g.len() && (f.len() > 1 ==> f[1] == g[1]));
        assert(form_field_spec(f) == form_field_spec(g));
        if is_single(code, TYPE_ASCII) {
            match TypeCode::parse_form(rest) {
                Ok(form) => Ok(TypeCode::Ascii(form)),
                Err(e) => Err(e),
            }
        } else if is_single(code, TYPE_EBCDIC) {
            match TypeCode::parse_form(rest) {
                Ok(form) => Ok(TypeCode::Ebcdic(form)),
                Err(e) => Err(e),
            }
        } else if is_single(code, TYPE_IMAGE) {
            Ok(TypeCode::Image)
        } else if is_single(code, TYPE_LOCAL) {
            match rest {
                Some(s) => {
                    let (size, _) = next_field(s, SP);
                    match Number(size).parse() {
                        Ok(n) => Ok(TypeCode::Local(n)),
                        Err(e) => Err(e),
                    }
                },
                None => Err(DecodeError::InvalidTypeCode),
            }
        } else {
            Err(DecodeError::InvalidTypeCode)
        }
    }
}

/// A decoded command, as plain values.
pub enum CommandView {
    User(Seq<u8>),
    Pass(Seq<u8>),
    Port(Seq<u8>, u16),
    Type(TypeCode),
    Quit,
    Other(Seq<u8>, Option<Seq<u8>>),
}

/// A decoded command line.
#[derive(Debug)]
pub enum Command {
    User(Arg),
    Pass(Arg),
    Port(SocketAddress),
    Type(TypeCode),
    Quit,
    Other(Cmd, Option<Arg>),
}

impl View for Command {
    type V = CommandView;

    open spec fn view(&self) -> CommandView {
        match self {
            Command::User(a) => CommandView::User(a@),
            Command::Pass(a) => CommandView::Pass(a@),
            Command::Port(addr) => CommandView::Port(addr.ip@, addr.port),
            Command::Type(t) => CommandView::Type(*t),
            Command::Quit => CommandView::Quit,
            Command::Other(c, a) => CommandView::Other(c@, opt_view(*a)),
        }
    }
}

pub open spec fn user_word() -> Seq<u8> {
    seq![85u8, 83, 69, 82]
}

pub open spec fn pass_word() -> Seq<u8> {
    seq![80u8, 65, 83, 83]
}

pub open spec fn port_word() -> Seq<u8> {
    seq![80u8, 79, 82, 84]
}

pub open spec fn type_word() -> Seq<u8> {
    seq![84u8, 89, 80, 69]
}

pub open spec fn quit_word() -> Seq<u8> {
    seq![81u8, 85, 73, 84]
}

/// The command that a complete line (terminator removed) decodes to.
pub open spec fn decode_line_spec(line: Seq<u8>) -> Result<CommandView, DecodeError> {
    match split_spec(line) {
        Err(e) => Err(e),
        Ok((cmd, arg)) => if cmd == user_word() {
            match required_spec(arg) {
                Ok(a) => Ok(CommandView::User(a)),
                Err(e) => Err(e),
            }
        } else if cmd == pass_word() {
            match required_spec(arg) {
                Ok(a) => Ok(CommandView::Pass(a)),
                Err(e) => Err(e),
            }
        } else if cmd == port_word() {
            match required_spec(arg) {
                Ok(a) => match host_port_spec(a) {
                    Ok((ip, port)) => Ok(CommandView::Port(ip, port)),
                    Err(e) => Err(e),
                },
                Err(e) => Err(e),
            }
        } else if cmd == type_word() {
            match required_spec(arg) {
                Ok(a) => match type_code_spec(a) {
                    Ok(t) => Ok(CommandView::Type(t)),
                    Err(e) => Err(e),
                },
                Err(e) => Err(e),
            }
        } else if cmd == quit_word() {
            if arg is Some {
                Err(DecodeError::UnexpectedData)
            } else {
                Ok(CommandView::Quit)
            }
        } else {
            Ok(CommandView::Other(cmd, arg))
        },
    }
}

/// What decoding from a buffer holding `s` gives, and what stays in the
/// buffer: the bytes after the first line once a line was read, all of `s`
/// otherwise.
pub open spec fn decode_spec(s: Seq<u8>) -> (Result<CommandView, DecodeError>, Seq<u8>) {
    let (line, rest) = read_line_spec(s);
    match line {
        Ok(l) => (decode_line_spec(l), rest),
        Err(e) => (Err(e), rest),
    }
}

/// The plain-value form of a decoding result.
pub open spec fn result_view(r: Result<Command, DecodeError>) -> Result<CommandView, DecodeError> {
    match r {
        Ok(c) => Ok(c@),
        Err(e) => Err(e),
    }
}

impl Command {
    /// Reads one line from `buf` and decodes it.
    pub fn decode(buf: &mut Vec<u8>) -> (r: Result<Self, DecodeError>)
        ensures
            result_view(r) == decode_spec(old(buf)@).0,
            final(buf)@ == decode_spec(old(buf)@).1,
    {
        let line = match take_line(buf) {
            Ok(line) => line,
            Err(e) => return Err(e),
        };
        let (cmd, arg) = match line.split() {
            Ok(parts) => parts,
            Err(e) => return Err(e),
        };
        if cmd.is([85, 83, 69, 82]) {
            // USER
            match Arg::required(arg) {
                Ok(name) => Ok(Command::User(name)),
                Err(e) => Err(e),
            }
        } else if cmd.is([80, 65, 83, 83]) {
            // PASS
            match Arg::required(arg) {
                Ok(password) => Ok(Command::Pass(password)),
                Err(e) => Err(e),
            }
        } else if cmd.is([80, 79, 82, 84]) {
            // PORT
            match Arg::required(arg) {
                Ok(a) => match HostPort(a).parse_v4() {
                    Ok(addr) => Ok(Command::Port(addr)),
                    Err(e) => Err(e),
                },
                Err(e) => Err(e),
            }
        } else if cmd.is([84, 89, 80, 69]) {
            // TYPE
            match Arg::required(arg) {
                Ok(a) => match TypeCode::parse(a) {
                    Ok(code) => Ok(Command::Type(code)),
                    Err(e) => Err(e),
                },
                Err(e) => Err(e),
            }
        } else if cmd.is([81, 85, 73, 84]) {
            // QUIT
            match Arg::forbidden(arg) {
                Ok(()) => Ok(Command::Quit),
                Err(e) => Err(e),
            }
        } else {
            Ok(Command::Other(cmd, arg))
        }
    }
}

/// Mnemonics are read without regard to case: two lines that differ only in
/// the case of their mnemonic's letters decode to the same command.
pub proof fn lemma_mnemonic_case_insensitive(l1: Seq<u8>, l2: Seq<u8>)
    requires
        tokens(l1).1 == tokens(l2).1,
        upper_seq(tokens(l1).0) == upper_seq(tokens(l2).0),
    ensures
        decode_line_spec(l1) == decode_line_spec(l2),
{
    assert(upper_seq(tokens(l1).0).len() == tokens(l1).0.len());
    assert(upper_seq(tokens(l2).0).len() == tokens(l2).0.len());
}

} // verus!
