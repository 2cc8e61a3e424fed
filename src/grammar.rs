//! Sequencing of byte-class parsers: a pair of parsers recognises what the
//! first recognises followed by what the second recognises.
use vstd::prelude::*;
use vstd::slice::slice_subrange;

pub use crate::parser::{AsciiChar, AsciiString, Byte, Parse, ParseError, PrintChar, PrintString};

verus! {

impl<First: Parse, Second: Parse> Parse for (First, Second) {
    open spec fn ready(&self) -> bool {
        self.0.ready() && self.1.ready()
    }

    open spec fn parses(&self, s: Seq<u8>, r: Result<usize, ParseError>) -> bool {
        match r {
            Ok(n) => exists|a: usize|
                #[trigger] self.0.parses(s, Ok(a)) && a <= n && self.1.parses(
                    s.subrange(a as int, s.len() as int),
                    Ok((n - a) as usize),
                ),
            Err(e) => self.0.parses(s, Err(e)) || exists|a: usize|
                #[trigger] self.0.parses(s, Ok(a)) && self.1.parses(
                    s.subrange(a as int, s.len() as int),
                    Err(e),
                ),
        }
    }

    fn parse(&self, s: &[u8]) -> (r: Result<usize, ParseError>) {
        let n = s.len();
        let prefix = match self.0.parse(s) {
            Ok(prefix) => prefix,
            Err(e) => return Err(e),
        };
        match self.1.parse(slice_subrange(s, prefix, n)) {
            Ok(suffix) => {
                assert(((prefix + suffix) - prefix) as usize == suffix);
                Ok(prefix + suffix)
            },
            Err(e) => Err(e),
        }
    }
}

} // verus!
