//! A parser of processing instructions.

use vstd::prelude::*;

use crate::bytes::{GT, QUESTION};
use crate::errors::SyntaxError;
use crate::parser::scan::{
    lemma_stop, lemma_stop_at, lemma_stop_nowhere, lemma_stops_prefix, stop, stops, Scan,
};
use crate::parser::Parser;
use crate::utils::{has_prefix, is_whitespace, starts_with, whitespace};

verus! {

/// The bytes of `xml`.
pub open spec fn xml_name() -> Seq<u8> {
    seq![0x78u8, 0x6Du8, 0x6Cu8]
}

/// Whether the content of a processing instruction is that of an XML declaration.
pub open spec fn xml_declaration(content: Seq<u8>) -> bool {
    has_prefix(content, xml_name()) && (content.len() == 3 || whitespace(content[3]))
}

/// Checks whether the content of a processing instruction is that of an XML declaration.
pub fn is_xml_declaration(content: &[u8]) -> (r: bool)
    ensures
        r == xml_declaration(content@),
{
    let name = [0x78u8, 0x6Du8, 0x6Cu8];
    assert(name@ =~= xml_name());
    starts_with(content, &name) && (content.len() == 3 || is_whitespace(content[3]))
}

/// A parser that looks for the `?>` that ends a processing instruction. Contains whether
/// the bytes that it was fed before end with `?`.
#[derive(Clone, Copy, Debug, PartialEq, Eq, Structural)]
pub struct PiParser(pub bool);

/// The error for a document that ends in a processing instruction.
pub open spec fn unclosed_pi(s: Seq<u8>) -> SyntaxError {
    if s.len() > 0 && xml_declaration(s.skip(1)) {
        SyntaxError::UnclosedXmlDecl
    } else {
        SyntaxError::UnclosedPI
    }
}

impl Parser for PiParser {
    open spec fn kind() -> Scan {
        Scan::Pi
    }

    open spec fn fed(&self, s: Seq<u8>) -> bool {
        stop(Scan::Pi, s) is None && self.0 == (s.len() > 0 && s.last() == QUESTION)
    }

    open spec fn unclosed(s: Seq<u8>) -> SyntaxError {
        unclosed_pi(s)
    }

    fn feed(&mut self, bytes: &[u8]) -> (r: Option<usize>) {
        let mut from: usize = 0;
        assert forall|s: Seq<u8>| #[trigger] old(self).fed(s) implies forall|j: int|
            0 <= j < s.len() ==> !stops(Scan::Pi, s + bytes@, j) by {
            lemma_stop(Scan::Pi, s);
            assert forall|j: int| 0 <= j < s.len() implies !stops(Scan::Pi, s + bytes@, j) by {
                lemma_stops_prefix(Scan::Pi, s, bytes@, j);
            }
        }
        while from < bytes.len()
            invariant
                from <= bytes@.len(),
                *self == *old(self),
                forall|s: Seq<u8>| #[trigger]
                    old(self).fed(s) ==> forall|j: int|
                        0 <= j < s.len() + from ==> !stops(Scan::Pi, s + bytes@, j),
            decreases bytes@.len() - from,
        {
            match memchr::memchr(GT, vstd::slice::slice_subrange(bytes, from, bytes.len())) {
                Some(n) => {
                    let ghost rest = bytes@.subrange(from as int, bytes@.len() as int);
                    assert(rest[n as int] == bytes@[from + n]);
                    let i: usize = from + n;
                    let ended = if i == 0 {
                        self.0
                    } else {
                        bytes[i - 1] == QUESTION
                    };
                    assert forall|s: Seq<u8>| #[trigger] old(self).fed(s) implies {
                        &&& forall|j: int|
                            0 <= j < s.len() + i ==> !stops(Scan::Pi, s + bytes@, j)
                        &&& stops(Scan::Pi, s + bytes@, s.len() + i) == ended
                        &&& ended ==> stop(Scan::Pi, s + bytes@) == Some(s.len() + i)
                    } by {
                        assert forall|j: int| s.len() + from <= j < s.len() + i implies !stops(
                            Scan::Pi,
                            s + bytes@,
                            j,
                        ) by {
                            assert(rest[j - s.len() - from] == (s + bytes@)[j]);
                        }
                        if ended {
                            lemma_stop_at(Scan::Pi, s + bytes@, s.len() + i);
                        }
                    }
                    if ended {
                        return Some(i);
                    }
                    from = i + 1;
                },
                None => {
                    let ghost rest = bytes@.subrange(from as int, bytes@.len() as int);
                    assert forall|s: Seq<u8>| #[trigger]
                        old(self).fed(s) implies forall|j: int|
                        0 <= j < s.len() + bytes@.len() ==> !stops(Scan::Pi, s + bytes@, j) by {
                        assert forall|j: int|
                            s.len() + from <= j < s.len() + bytes@.len() implies !stops(
                            Scan::Pi,
                            s + bytes@,
                            j,
                        ) by {
                            assert(rest[j - s.len() - from] == (s + bytes@)[j]);
                        }
                    }
                    from = bytes.len();
                },
            }
        }
        if bytes.len() > 0 {
            self.0 = bytes[bytes.len() - 1] == QUESTION;
        }
        assert forall|s: Seq<u8>| #[trigger] old(self).fed(s) implies self.fed(s + bytes@) by {
            lemma_stop_nowhere(Scan::Pi, s + bytes@);
            if bytes@.len() == 0 {
                assert(s + bytes@ =~= s);
            }
        }
        None
    }

    fn eof_error(self, content: &[u8]) -> (r: SyntaxError) {
        if content.len() > 0 && is_xml_declaration(
            vstd::slice::slice_subrange(content, 1, content.len()),
        ) {
            assert(content@.subrange(1, content@.len() as int) =~= content@.skip(1));
            SyntaxError::UnclosedXmlDecl
        } else {
            assert(content@.len() > 0 ==> content@.subrange(1, content@.len() as int)
                =~= content@.skip(1));
            SyntaxError::UnclosedPI
        }
    }
}

} // verus!
