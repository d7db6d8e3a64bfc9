//! Parsers that look for the end of a piece of markup, which they are fed in chunks.

pub mod dtd;
pub mod fast_element;
pub mod grammar;
pub mod memory;
pub mod pi;
pub mod scan;

pub use dtd::DtdParser;
pub use pi::PiParser;

use vstd::prelude::*;

use crate::errors::SyntaxError;
use crate::parser::scan::{stop, Scan};

verus! {

/// A parser that looks for the end of a piece of markup.
pub trait Parser: Sized {
    /// The kind of the piece.
    spec fn kind() -> Scan;

    /// Whether the parser has been fed `s` and the piece does not end there.
    spec fn fed(&self, s: Seq<u8>) -> bool;

    /// The error for a document that ends with the bytes `s` of a piece.
    spec fn unclosed(s: Seq<u8>) -> SyntaxError;

    /// Looks for the end of the piece in `bytes`. Returns the index of the `>` if it is there.
    fn feed(&mut self, bytes: &[u8]) -> (r: Option<usize>)
        ensures
            forall|s: Seq<u8>| #[trigger]
                old(self).fed(s) ==> match r {
                    Some(i) => i < bytes@.len() && stop(Self::kind(), s + bytes@) == Some(
                        s.len() + i,
                    ),
                    None => stop(Self::kind(), s + bytes@) is None && final(self).fed(s + bytes@),
                },
    ;

    /// Returns the error for a document that ends after the bytes that the parser has been fed.
    fn eof_error(self, content: &[u8]) -> (r: SyntaxError)
        requires
            self.fed(content@),
        ensures
            r == Self::unclosed(content@),
    ;
}

} // verus!
