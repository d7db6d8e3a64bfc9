//! A parser of document type declarations.

use vstd::prelude::*;

use crate::bytes::{
    BANG, CLOSE_BRACKET, DOUBLE_QUOTE, GT, HYPHEN, LT, OPEN_BRACKET, QUESTION, SINGLE_QUOTE,
};
use crate::parser::scan::{lemma_stop, lemma_stop_extend, lemma_stop_push, stop, stops, Quote, Scan};
use crate::parser::scan::quote_step;

verus! {

/// A parser that looks for the `>` that ends a document type declaration. The `>`s of the
/// internal subset do not end it, and in the internal subset it passes over comments,
/// processing instructions and quoted values as a whole.
#[derive(Clone, Copy, Debug, PartialEq, Eq, Structural)]
pub enum DtdParser {
    /// Before the `[` of the internal subset. Contains balance of `<` (+1) and `>` (-1).
    BeforeInternalSubset(u64),
    /// In the internal subset, outside of markup.
    InsideInternalSubset,
    /// In the internal subset, after `<`.
    AfterOpen,
    /// In the internal subset, after `<!`.
    AfterBang,
    /// In the internal subset, after `<!-`.
    AfterBangHyphen,
    /// In a markup declaration of the internal subset.
    InsideDeclaration(Quote),
    /// In a processing instruction of the internal subset. Contains whether the last byte
    /// was `?`.
    InsidePi(bool),
    /// In a comment of the internal subset. Contains how many of the last bytes of the
    /// comment, two at most, were `-`.
    InsideComment(u8),
    /// After the `]` of the internal subset.
    AfterInternalSubset,
    /// After the `>` that ended the declaration.
    Finished,
}

/// How a markup declaration of the internal subset goes on with the byte `b`.
pub open spec fn declaration_step(quote: Quote, b: u8) -> DtdParser {
    if quote == Quote::Outside && b == GT {
        DtdParser::InsideInternalSubset
    } else {
        DtdParser::InsideDeclaration(quote_step(quote, b))
    }
}

/// How reading one byte of a document type declaration changes the parser.
pub open spec fn dtd_step(parser: DtdParser, b: u8) -> DtdParser {
    match parser {
        DtdParser::BeforeInternalSubset(balance) => if b == OPEN_BRACKET {
            DtdParser::InsideInternalSubset
        } else if b == LT {
            DtdParser::BeforeInternalSubset((balance + 1) as u64)
        } else if b == GT {
            if balance == 0 {
                DtdParser::Finished
            } else {
                DtdParser::BeforeInternalSubset((balance - 1) as u64)
            }
        } else {
            parser
        },
        DtdParser::InsideInternalSubset => if b == CLOSE_BRACKET {
            DtdParser::AfterInternalSubset
        } else if b == LT {
            DtdParser::AfterOpen
        } else {
            parser
        },
        DtdParser::AfterOpen => if b == BANG {
            DtdParser::AfterBang
        } else if b == QUESTION {
            DtdParser::InsidePi(false)
        } else {
            declaration_step(Quote::Outside, b)
        },
        DtdParser::AfterBang => if b == HYPHEN {
            DtdParser::AfterBangHyphen
        } else {
            declaration_step(Quote::Outside, b)
        },
        DtdParser::AfterBangHyphen => if b == HYPHEN {
            DtdParser::InsideComment(0)
        } else {
            declaration_step(Quote::Outside, b)
        },
        DtdParser::InsideDeclaration(quote) => declaration_step(quote, b),
        DtdParser::InsidePi(question) => if question && b == GT {
            DtdParser::InsideInternalSubset
        } else {
            DtdParser::InsidePi(b == QUESTION)
        },
        DtdParser::InsideComment(hyphens) => if hyphens >= 2 && b == GT {
            DtdParser::InsideInternalSubset
        } else if b == HYPHEN {
            DtdParser::InsideComment(if hyphens == 0 { 1 } else { 2 })
        } else {
            DtdParser::InsideComment(0)
        },
        DtdParser::AfterInternalSubset => if b == GT {
            DtdParser::Finished
        } else {
            parser
        },
        DtdParser::Finished => parser,
    }
}

/// The parser after the first bytes of a document type declaration.
pub open spec fn dtd_after(s: Seq<u8>) -> DtdParser
    decreases s.len(),
{
    if s.len() == 0 {
        DtdParser::BeforeInternalSubset(0)
    } else {
        dtd_step(dtd_after(s.drop_last()), s.last())
    }
}

/// Whether the next `>` ends the declaration.
pub open spec fn closes_doctype(parser: DtdParser) -> bool {
    parser == DtdParser::BeforeInternalSubset(0) || parser is AfterInternalSubset
}

/// The balance of `<` and `>` is no larger than the number of bytes read.
pub proof fn lemma_balance(s: Seq<u8>)
    ensures
        dtd_after(s) matches DtdParser::BeforeInternalSubset(balance) ==> balance <= s.len(),
    decreases s.len(),
{
    if s.len() > 0 {
        lemma_balance(s.drop_last());
    }
}

impl DtdParser {
    /// Whether the parser has been fed `s` and the declaration does not end there.
    pub open spec fn fed(self, s: Seq<u8>) -> bool {
        stop(Scan::DocType, s) is None && self == dtd_after(s)
    }

    fn quoted(quote: Quote, b: u8) -> (r: DtdParser)
        ensures
            r == declaration_step(quote, b),
    {
        match quote {
            Quote::Outside => if b == GT {
                DtdParser::InsideInternalSubset
            } else if b == SINGLE_QUOTE {
                DtdParser::InsideDeclaration(Quote::Single)
            } else if b == DOUBLE_QUOTE {
                DtdParser::InsideDeclaration(Quote::Double)
            } else {
                DtdParser::InsideDeclaration(Quote::Outside)
            },
            Quote::Single => if b == SINGLE_QUOTE {
                DtdParser::InsideDeclaration(Quote::Outside)
            } else {
                DtdParser::InsideDeclaration(Quote::Single)
            },
            Quote::Double => if b == DOUBLE_QUOTE {
                DtdParser::InsideDeclaration(Quote::Outside)
            } else {
                DtdParser::InsideDeclaration(Quote::Double)
            },
        }
    }

    fn step(self, b: u8) -> (r: DtdParser)
        requires
            self matches DtdParser::BeforeInternalSubset(balance) ==> balance < u64::MAX,
        ensures
            r == dtd_step(self, b),
    {
        match self {
            DtdParser::BeforeInternalSubset(balance) => if b == OPEN_BRACKET {
                DtdParser::InsideInternalSubset
            } else if b == LT {
                DtdParser::BeforeInternalSubset(balance + 1)
            } else if b == GT {
                if balance == 0 {
                    DtdParser::Finished
                } else {
                    DtdParser::BeforeInternalSubset(balance - 1)
                }
            } else {
                self
            },
            DtdParser::InsideInternalSubset => if b == CLOSE_BRACKET {
                DtdParser::AfterInternalSubset
            } else if b == LT {
                DtdParser::AfterOpen
            } else {
                self
            },
            DtdParser::AfterOpen => if b == BANG {
                DtdParser::AfterBang
            } else if b == QUESTION {
                DtdParser::InsidePi(false)
            } else {
                DtdParser::quoted(Quote::Outside, b)
            },
            DtdParser::AfterBang => if b == HYPHEN {
                DtdParser::AfterBangHyphen
            } else {
                DtdParser::quoted(Quote::Outside, b)
            },
            DtdParser::AfterBangHyphen => if b == HYPHEN {
                DtdParser::InsideComment(0)
            } else {
                DtdParser::quoted(Quote::Outside, b)
            },
            DtdParser::InsideDeclaration(quote) => DtdParser::quoted(quote, b),
            DtdParser::InsidePi(question) => if question && b == GT {
                DtdParser::InsideInternalSubset
            } else {
                DtdParser::InsidePi(b == QUESTION)
            },
            DtdParser::InsideComment(hyphens) => if hyphens >= 2 && b == GT {
                DtdParser::InsideInternalSubset
            } else if b == HYPHEN {
                if hyphens == 0 {
                    DtdParser::InsideComment(1)
                } else {
                    DtdParser::InsideComment(2)
                }
            } else {
                DtdParser::InsideComment(0)
            },
            DtdParser::AfterInternalSubset => if b == GT {
                DtdParser::Finished
            } else {
                self
            },
            DtdParser::Finished => self,
        }
    }

    /// Looks for the end of the declaration in `chunk`. If it is there, returns the bytes of
    /// `chunk` up to the `>` and the number of bytes up to and including the `>`.
    ///
    /// # Parameters
    /// - `buf`: the bytes of the declaration that were read before
    /// - `chunk`: the bytes that follow them
    pub fn feed<'b>(&mut self, buf: &[u8], chunk: &'b [u8]) -> (r: Option<(&'b [u8], usize)>)
        requires
            old(self).fed(buf@),
            buf@.len() + chunk@.len() <= u64::MAX,
        ensures
            match r {
                Some((bytes, used)) => {
                    &&& 0 < used <= chunk@.len()
                    &&& bytes@ == chunk@.take(used - 1)
                    &&& stop(Scan::DocType, buf@ + chunk@) == Some(buf@.len() + used - 1)
                    &&& *final(self) == DtdParser::Finished
                },
                None => final(self).fed(buf@ + chunk@),
            },
    {
        let mut i: usize = 0;
        assert(buf@ + chunk@.take(0) =~= buf@);
        while i < chunk.len()
            invariant
                i <= chunk@.len(),
                self.fed(buf@ + chunk@.take(i as int)),
                buf@.len() + chunk@.len() <= u64::MAX,
            decreases chunk@.len() - i,
        {
            let ghost read = buf@ + chunk@.take(i as int);
            let b: u8 = chunk[i];
            proof {
                lemma_balance(read);
                lemma_stop_push(Scan::DocType, read, b);
                assert(read.push(b).take(read.len() as int) =~= read);
                assert(read.push(b).drop_last() =~= read);
                assert(read.push(b) =~= buf@ + chunk@.take(i + 1));
                assert(stops(Scan::DocType, read.push(b), read.len() as int) == (b == GT
                    && closes_doctype(*self)));
                assert(*self !is Finished) by {
                    lemma_not_finished(read);
                }
            }
            *self = self.step(b);
            if let DtdParser::Finished = *self {
                proof {
                    lemma_stop_extend(Scan::DocType, read.push(b), chunk@.skip(i + 1));
                    assert(read.push(b) + chunk@.skip(i + 1) =~= buf@ + chunk@);
                }
                return Some((vstd::slice::slice_subrange(chunk, 0, i), i + 1));
            }
            i += 1;
        }
        assert(chunk@.take(i as int) =~= chunk@);
        None
    }
}

/// The parser is finished only after the end of the declaration.
proof fn lemma_not_finished(s: Seq<u8>)
    requires
        stop(Scan::DocType, s) is None,
    ensures
        dtd_after(s) !is Finished,
    decreases s.len(),
{
    if s.len() > 0 {
        let t = s.drop_last();
        assert(s =~= t.push(s.last()));
        lemma_stop_extend(Scan::DocType, t, seq![s.last()]);
        assert(t + seq![s.last()] =~= s);
        lemma_not_finished(t);
        lemma_stop(Scan::DocType, s);
        assert(!stops(Scan::DocType, s, s.len() - 1));
        assert(s.take(s.len() - 1) =~= t);
    }
}

} // verus!
