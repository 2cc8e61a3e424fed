//! Byte-class grammar: parsers that recognise a prefix of their input and
//! say how many bytes it spans.
use vstd::prelude::*;
use vstd::slice::slice_subrange;

verus! {

/// Why a parser recognised nothing.
#[derive(Clone, Debug, PartialEq, Eq)]
pub enum ParseError {
    MissingInput,
    UnexpectedToken(u8),
    CmdTooLong,
}

/// A recogniser of byte-string prefixes.
pub trait Parse {
    /// Whether `parse` may be called on this parser.
    spec fn ready(&self) -> bool;

    /// Whether `parse` on input `s` may answer `r`.
    spec fn parses(&self, s: Seq<u8>, r: Result<usize, ParseError>) -> bool;

    /// The length of the prefix of `s` that this parser recognises.
    fn parse(&self, s: &[u8]) -> (r: Result<usize, ParseError>)
        requires
            self.ready(),
        ensures
            self.parses(s@, r),
            r matches Ok(n) ==> 0 < n <= s@.len(),
    ;
}

/// What a parser of one byte of a class answers on `s`.
pub open spec fn single(s: Seq<u8>, class: spec_fn(u8) -> bool) -> Result<usize, ParseError> {
    if s.len() == 0 {
        Err(ParseError::MissingInput)
    } else if class(s[0]) {
        Ok(1)
    } else {
        Err(ParseError::UnexpectedToken(s[0]))
    }
}

/// One byte for which the predicate holds.
pub struct Byte<F>(pub F);

impl<F: Fn(u8) -> bool> Parse for Byte<F> {
    open spec fn ready(&self) -> bool {
        forall|b: u8| self.0.requires((b,))
    }

    open spec fn parses(&self, s: Seq<u8>, r: Result<usize, ParseError>) -> bool {
        if s.len() == 0 {
            r == Err::<usize, ParseError>(ParseError::MissingInput)
        } else {
            (r == Ok::<usize, ParseError>(1) && self.0.ensures((s[0],), true)) || (r == Err::<
                usize,
                ParseError,
            >(ParseError::UnexpectedToken(s[0])) && self.0.ensures((s[0],), false))
        }
    }

    fn parse(&self, s: &[u8]) -> (r: Result<usize, ParseError>) {
        if s.len() == 0 {
            Err(ParseError::MissingInput)
        } else {
            let b = s[0];
            if (self.0)(b) {
                Ok(1)
            } else {
                Err(ParseError::UnexpectedToken(b))
            }
        }
    }
}

/// `s` is cut at the positions `cuts`, in increasing order, and `p`
/// recognises each piece between two neighbouring cuts.
pub open spec fn chain<P: Parse>(p: P, s: Seq<u8>, cuts: Seq<usize>) -> bool {
    &&& cuts.len() >= 1
    &&& forall|k: int| 0 <= k < cuts.len() - 1 ==> #[trigger] piece(p, s, cuts, k)
}

/// `p` recognises the piece of `s` between cut `k` and cut `k + 1`.
pub open spec fn piece<P: Parse>(p: P, s: Seq<u8>, cuts: Seq<usize>, k: int) -> bool {
    cuts[k] < cuts[k + 1] <= s.len() && p.parses(
        s.subrange(cuts[k] as int, s.len() as int),
        Ok((cuts[k + 1] - cuts[k]) as usize),
    )
}

/// `p` recognises, one after the other, pieces that span `s` from the start
/// up to position `n`.
pub open spec fn repeats<P: Parse>(p: P, s: Seq<u8>, n: int) -> bool {
    exists|cuts: Seq<usize>| #[trigger] chain(p, s, cuts) && cuts[0] == 0 && cuts.last() == n
}

/// One or more repetitions of the inner parser, as many as it recognises.
pub struct OneOrMany<P>(pub P);

impl<P: Parse> Parse for OneOrMany<P> {
    open spec fn ready(&self) -> bool {
        self.0.ready()
    }

    open spec fn parses(&self, s: Seq<u8>, r: Result<usize, ParseError>) -> bool {
        match r {
            Ok(n) => 0 < n <= s.len() && repeats(self.0, s, n as int) && exists|e: ParseError|
                self.0.parses(s.subrange(n as int, s.len() as int), Err(e)),
            Err(e) => self.0.parses(s, Err(e)),
        }
    }

    fn parse(&self, s: &[u8]) -> (r: Result<usize, ParseError>) {
        let n = s.len();
        let mut len = match self.0.parse(s) {
            Ok(k) => k,
            Err(e) => return Err(e),
        };
        let ghost mut cuts: Seq<usize> = seq![0, len];
        proof {
            assert(s@.subrange(0, n as int) =~= s@);
        }
        loop
            invariant
                n == s@.len(),
                self.0.ready(),
                0 < len <= n,
                chain(self.0, s@, cuts),
                cuts[0] == 0,
                cuts.last() == len,
            decreases n - len,
        {
            let rest = slice_subrange(s, len, n);
            match self.0.parse(rest) {
                Ok(k) => {
                    proof {
                        let old_cuts = cuts;
                        cuts = cuts.push((len + k) as usize);
                        assert forall|j: int| 0 <= j < cuts.len() - 1 implies #[trigger] piece(
                            self.0,
                            s@,
                            cuts,
                            j,
                        ) by {
                            if j < old_cuts.len() - 1 {
                                assert(piece(self.0, s@, old_cuts, j));
                            }
                        }
                    }
                    len = len + k;
                },
                Err(e) => {
                    assert(self.0.parses(s@.subrange(len as int, n as int), Err(e)));
                    assert(repeats(self.0, s@, len as int));
                    return Ok(len);
                },
            }
        }
    }
}

/// One byte that `accept` accepts, where `accept` decides `class`.
fn single_byte<F: Fn(u8) -> bool>(s: &[u8], accept: F, Ghost(class): Ghost<spec_fn(u8) -> bool>) -> (r: Result<usize, ParseError>)
    requires
        forall|b: u8| #[trigger] accept.requires((b,)),
        forall|b: u8, ok: bool| accept.ensures((b,), ok) ==> ok == class(b),
    ensures
        r == single(s@, class),
{
    if s.len() == 0 {
        Err(ParseError::MissingInput)
    } else {
        let b = s[0];
        if accept(b) {
            Ok(1)
        } else {
            Err(ParseError::UnexpectedToken(b))
        }
    }
}

/// Position of the first byte at `i` or later that is outside `class`, or
/// the length of `s`.
pub open spec fn run_end(s: Seq<u8>, class: spec_fn(u8) -> bool, i: int) -> int
    decreases s.len() - i,
{
    if 0 <= i < s.len() && class(s[i]) {
        run_end(s, class, i + 1)
    } else {
        i
    }
}

/// What a parser of one or more bytes of a class answers on `s`: the length
/// of the longest prefix of such bytes, if it is not empty.
pub open spec fn run(s: Seq<u8>, class: spec_fn(u8) -> bool) -> Result<usize, ParseError> {
    match single(s, class) {
        Ok(_) => Ok(run_end(s, class, 0) as usize),
        Err(e) => Err(e),
    }
}

/// A run of `class` from `i` that stops at `n` ends at `n`.
proof fn lemma_run_end(s: Seq<u8>, class: spec_fn(u8) -> bool, i: int, n: int)
    requires
        0 <= i <= n <= s.len(),
        forall|j: int| i <= j < n ==> class(#[trigger] s[j]),
        n == s.len() || !class(s[n]),
    ensures
        run_end(s, class, i) == n,
    decreases n - i,
{
    if i < n {
        lemma_run_end(s, class, i + 1, n);
    }
}

/// For a parser of one byte, the cuts of a chain stand one byte apart.
proof fn lemma_unit_cuts<P: Parse>(p: P, class: spec_fn(u8) -> bool, s: Seq<u8>, cuts: Seq<usize>, k: int)
    requires
        forall|t: Seq<u8>, r: Result<usize, ParseError>| #[trigger] p.parses(t, r) <==> r == single(t, class),
        chain(p, s, cuts),
        0 <= k < cuts.len(),
    ensures
        cuts[k] == cuts[0] + k,
    decreases k,
{
    if k > 0 {
        lemma_unit_cuts(p, class, s, cuts, k - 1);
        assert(piece(p, s, cuts, k - 1));
    }
}

/// For a parser of one byte of `class`, each byte a chain covers is in
/// `class`.
proof fn lemma_unit_piece<P: Parse>(p: P, class: spec_fn(u8) -> bool, s: Seq<u8>, cuts: Seq<usize>, i: int)
    requires
        forall|t: Seq<u8>, r: Result<usize, ParseError>| #[trigger] p.parses(t, r) <==> r == single(t, class),
        chain(p, s, cuts),
        cuts[0] == 0,
        0 <= i < cuts.len() - 1,
    ensures
        i < s.len(),
        class(s[i]),
{
    lemma_unit_cuts(p, class, s, cuts, i);
    lemma_unit_cuts(p, class, s, cuts, i + 1);
    let t = s.subrange(cuts[i] as int, s.len() as int);
    assert(piece(p, s, cuts, i));
    assert(single(t, class) == Ok::<usize, ParseError>(1));
    assert(t[0] == s[i]);
}

/// Repetition of a parser of one byte of `class` answers as `run` does.
proof fn lemma_repeat_class<P: Parse>(p: P, class: spec_fn(u8) -> bool, s: Seq<u8>, r: Result<usize, ParseError>)
    requires
        forall|t: Seq<u8>, r: Result<usize, ParseError>| #[trigger] p.parses(t, r) <==> r == single(t, class),
        OneOrMany(p).parses(s, r),
    ensures
        r == run(s, class),
{
    match r {
        Ok(n) => {
            let cuts = choose|cuts: Seq<usize>| #[trigger] chain(p, s, cuts) && cuts[0] == 0 && cuts.last() == n;
            lemma_unit_cuts(p, class, s, cuts, cuts.len() - 1);
            assert forall|i: int| 0 <= i < n implies class(#[trigger] s[i]) by {
                lemma_unit_piece(p, class, s, cuts, i);
            }
            let e = choose|e: ParseError| p.parses(s.subrange(n as int, s.len() as int), Err(e));
            if n < s.len() {
                assert(s.subrange(n as int, s.len() as int)[0] == s[n as int]);
            }
            lemma_run_end(s, class, 0, n as int);
        },
        Err(_) => {},
    }
}

/// ASCII bytes other than CR and LF.
pub open spec fn ascii_class() -> spec_fn(u8) -> bool {
    |b: u8| b < 128 && b != 13 && b != 10
}

/// Printable bytes, space excluded.
pub open spec fn print_class() -> spec_fn(u8) -> bool {
    |b: u8| 33 <= b <= 126
}

/// Letters, in either case.
pub open spec fn cmd_class() -> spec_fn(u8) -> bool {
    |b: u8| (65 <= b <= 90) || (97 <= b <= 122)
}

/// One ASCII byte other than CR and LF.
pub struct AsciiChar;

impl Parse for AsciiChar {
    open spec fn ready(&self) -> bool {
        true
    }

    open spec fn parses(&self, s: Seq<u8>, r: Result<usize, ParseError>) -> bool {
        r == single(s, ascii_class())
    }

    fn parse(&self, s: &[u8]) -> (r: Result<usize, ParseError>) {
        let f = |b: u8| -> (ok: bool)
            ensures
                ok == ascii_class()(b),
            { b < 128 && b != 13 && b != 10 };
        single_byte(s, f, Ghost(ascii_class()))
    }
}

/// One or more bytes that `AsciiChar` accepts.
pub struct AsciiString;

impl Parse for AsciiString {
    open spec fn ready(&self) -> bool {
        true
    }

    open spec fn parses(&self, s: Seq<u8>, r: Result<usize, ParseError>) -> bool {
        r == run(s, ascii_class())
    }

    fn parse(&self, s: &[u8]) -> (r: Result<usize, ParseError>) {
        let r = OneOrMany(AsciiChar).parse(s);
        proof {
            lemma_repeat_class(AsciiChar, ascii_class(), s@, r);
        }
        r
    }
}

/// One printable byte: neither a control byte nor a space.
pub struct PrintChar;

impl Parse for PrintChar {
    open spec fn ready(&self) -> bool {
        true
    }

    open spec fn parses(&self, s: Seq<u8>, r: Result<usize, ParseError>) -> bool {
        r == single(s, print_class())
    }

    fn parse(&self, s: &[u8]) -> (r: Result<usize, ParseError>) {
        let f = |b: u8| -> (ok: bool)
            ensures
                ok == print_class()(b),
            { b >= 33 && b <= 126 };
        single_byte(s, f, Ghost(print_class()))
    }
}

/// One or more printable bytes.
pub struct PrintString;

impl Parse for PrintString {
    open spec fn ready(&self) -> bool {
        true
    }

    open spec fn parses(&self, s: Seq<u8>, r: Result<usize, ParseError>) -> bool {
        r == run(s, print_class())
    }

    fn parse(&self, s: &[u8]) -> (r: Result<usize, ParseError>) {
        let r = OneOrMany(PrintChar).parse(s);
        proof {
            lemma_repeat_class(PrintChar, print_class(), s@, r);
        }
        r
    }
}

/// One letter of a command mnemonic, in either case.
pub struct CmdChar;

impl Parse for CmdChar {
    open spec fn ready(&self) -> bool {
        true
    }

    open spec fn parses(&self, s: Seq<u8>, r: Result<usize, ParseError>) -> bool {
        r == single(s, cmd_class())
    }

    fn parse(&self, s: &[u8]) -> (r: Result<usize, ParseError>) {
        let f = |b: u8| -> (ok: bool)
            ensures
                ok == cmd_class()(b),
            { b >= 65 && b <= 90 || b >= 97 && b <= 122 };
        single_byte(s, f, Ghost(cmd_class()))
    }
}

/// One or more letters of a command mnemonic.
pub struct CmdString;

impl Parse for CmdString {
    open spec fn ready(&self) -> bool {
        true
    }

    open spec fn parses(&self, s: Seq<u8>, r: Result<usize, ParseError>) -> bool {
        r == run(s, cmd_class())
    }

    fn parse(&self, s: &[u8]) -> (r: Result<usize, ParseError>) {
        let r = OneOrMany(CmdChar).parse(s);
        proof {
            lemma_repeat_class(CmdChar, cmd_class(), s@, r);
        }
        r
    }
}

/// One space.
pub struct Sp;

impl Parse for Sp {
    open spec fn ready(&self) -> bool {
        true
    }

    open spec fn parses(&self, s: Seq<u8>, r: Result<usize, ParseError>) -> bool {
        r == single(s, |b: u8| b == 32)
    }

    fn parse(&self, s: &[u8]) -> (r: Result<usize, ParseError>) {
        let f = |b: u8| -> (ok: bool)
            ensures
                ok == (b == 32),
            { b == 32 };
        single_byte(s, f, Ghost(|b: u8| b == 32))
    }
}

/// What `CrLf` answers on `s`.
pub open spec fn crlf_spec(s: Seq<u8>) -> Result<usize, ParseError> {
    if s.len() == 0 {
        Err(ParseError::MissingInput)
    } else if s[0] != 13 {
        Err(ParseError::UnexpectedToken(s[0]))
    } else if s.len() == 1 {
        Err(ParseError::MissingInput)
    } else if s[1] != 10 {
        Err(ParseError::UnexpectedToken(s[1]))
    } else {
        Ok(2)
    }
}

/// The line terminator, CR then LF.
pub struct CrLf;

impl Parse for CrLf {
    open spec fn ready(&self) -> bool {
        true
    }

    open spec fn parses(&self, s: Seq<u8>, r: Result<usize, ParseError>) -> bool {
        r == crlf_spec(s)
    }

    fn parse(&self, s: &[u8]) -> (r: Result<usize, ParseError>) {
        let n = s.len();
        let cr = |b: u8| -> (ok: bool)
            ensures
                ok == (b == 13),
            { b == 13 };
        let lf = |b: u8| -> (ok: bool)
            ensures
                ok == (b == 10),
            { b == 10 };
        match single_byte(s, cr, Ghost(|b: u8| b == 13)) {
            Ok(_) => {},
            Err(e) => return Err(e),
        }
        let rest = slice_subrange(s, 1, n);
        match single_byte(rest, lf, Ghost(|b: u8| b == 10)) {
            Ok(_) => {},
            Err(e) => return Err(e),
        }
        Ok(2)
    }
}

} // verus!
