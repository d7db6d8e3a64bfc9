//! Markup that starts with `<!`.

use vstd::prelude::*;

use crate::bytes::{BANG, CLOSE_BRACKET, GT, HYPHEN, OPEN_BRACKET};
use crate::errors::SyntaxError;
use crate::parser::dtd::dtd_after;
use crate::parser::scan::{
    lemma_stop, lemma_stop_at, lemma_stop_nowhere, lemma_stops_prefix, stop, stops, Scan,
};
use crate::parser::DtdParser;

verus! {

/// Possible elements started with `<!`
#[derive(Clone, Copy, Debug, PartialEq, Eq, Structural)]
pub enum BangType {
    /// `<![CDATA[...]]>`
    CData,
    /// `<!--...-->`
    Comment,
    /// `<!DOCTYPE...>`
    DocType(DtdParser),
}

/// The kind of markup that starts with `<!` and the byte `byte`.
pub open spec fn bang_kind(byte: u8) -> Option<Scan> {
    if byte == OPEN_BRACKET {
        Some(Scan::CData)
    } else if byte == HYPHEN {
        Some(Scan::Comment)
    } else if byte == 0x44 || byte == 0x64 {
        Some(Scan::DocType)
    } else {
        None
    }
}

/// The error for a document that ends in markup of the given kind.
pub open spec fn unclosed_bang(kind: Scan) -> SyntaxError {
    match kind {
        Scan::CData => SyntaxError::UnclosedCData,
        Scan::Comment => SyntaxError::UnclosedComment,
        _ => SyntaxError::UnclosedDoctype,
    }
}

impl BangType {
    /// The kind of the markup.
    pub open spec fn kind(self) -> Scan {
        match self {
            BangType::CData => Scan::CData,
            BangType::Comment => Scan::Comment,
            BangType::DocType(_) => Scan::DocType,
        }
    }

    /// Whether the markup has been parsed up to the end of `s` and does not end there.
    pub open spec fn fed(self, s: Seq<u8>) -> bool {
        &&& stop(self.kind(), s) is None
        &&& self matches BangType::DocType(parser) ==> parser.fed(s)
    }

    /// Decides by the byte after `<!` what kind of markup follows.
    pub fn new(byte: Option<u8>) -> (r: Result<Self, SyntaxError>)
        ensures
            match r {
                Ok(bang) => {
                    &&& byte matches Some(b)
                    &&& bang_kind(b) == Some(bang.kind())
                    &&& bang.fed(Seq::empty())
                    &&& bang.fed(seq![BANG])
                },
                Err(e) => {
                    &&& e == SyntaxError::InvalidBangMarkup
                    &&& byte matches Some(b) ==> bang_kind(b) is None
                },
            },
    {
        proof {
            lemma_bang_alone();
        }
        match byte {
            Some(b) => if b == OPEN_BRACKET {
                Ok(BangType::CData)
            } else if b == HYPHEN {
                Ok(BangType::Comment)
            } else if b == 0x44 || b == 0x64 {
                Ok(BangType::DocType(DtdParser::BeforeInternalSubset(0)))
            } else {
                Err(SyntaxError::InvalidBangMarkup)
            },
            None => Err(SyntaxError::InvalidBangMarkup),
        }
    }

    /// If element is finished, returns its content up to `>` symbol and the number of bytes up to
    /// and including this symbol, otherwise returns `None`
    ///
    /// # Parameters
    /// - `buf`: buffer with data consumed on previous iterations
    /// - `chunk`: data read on current iteration and not yet consumed from reader
    pub fn parse<'b>(&mut self, buf: &[u8], chunk: &'b [u8]) -> (r: Option<(&'b [u8], usize)>)
        requires
            old(self).fed(buf@),
            buf@.len() + chunk@.len() <= u64::MAX,
        ensures
            final(self).kind() == old(self).kind(),
            match r {
                Some((bytes, used)) => {
                    &&& 0 < used <= chunk@.len()
                    &&& bytes@ == chunk@.take(used - 1)
                    &&& stop(old(self).kind(), buf@ + chunk@) == Some(buf@.len() + used - 1)
                },
                None => final(self).fed(buf@ + chunk@),
            },
    {
        match self {
            BangType::Comment => {
                let mut from: usize = 0;
                let ghost all = buf@ + chunk@;
                proof {
                    lemma_seen(Scan::Comment, buf@, chunk@);
                }
                while from < chunk.len()
                    invariant
                        from <= chunk@.len(),
                        all == buf@ + chunk@,
                        *self == BangType::Comment,
                        forall|j: int| 0 <= j < buf@.len() + from ==> !stops(Scan::Comment, all, j),
                    decreases chunk@.len() - from,
                {
                    let rest = vstd::slice::slice_subrange(chunk, from, chunk.len());
                    let found = memchr::memchr(GT, rest);
                    proof {
                        lemma_skipped(Scan::Comment, buf@, chunk@, from as int, rest@, found);
                    }
                    let i: usize = match found {
                        Some(n) => from + n,
                        None => {
                            from = chunk.len();
                            continue;
                        },
                    };
                    assert(all[buf@.len() + i] == rest@[i - from]);
                    // Need to read at least 6 symbols (`!---->`) for properly finished comment
                    // <!----> - XML comment
                    //  012345 - i
                    if i > 4 || buf.len() > 4 - i {
                        // We cannot strip last `--` from the buffer because we need it in case of
                        // check_comments enabled option
                        if i >= 2 && chunk[i - 1] == HYPHEN && chunk[i - 2] == HYPHEN {
                            proof {
                                lemma_stop_at(Scan::Comment, all, buf@.len() + i);
                            }
                            return Some((vstd::slice::slice_subrange(chunk, 0, i), i + 1));
                        }
                        // End sequence `-|->` was splitted at |
                        //        buf --/   \-- chunk

                        if i == 1 && buf.len() > 0 && buf[buf.len() - 1] == HYPHEN && chunk[0]
                            == HYPHEN {
                            proof {
                                lemma_stop_at(Scan::Comment, all, buf@.len() + i);
                            }
                            return Some((vstd::slice::slice_subrange(chunk, 0, i), i + 1));
                        }
                        // End sequence `--|>` was splitted at |
                        //         buf --/   \-- chunk

                        if i == 0 && buf.len() > 1 && buf[buf.len() - 1] == HYPHEN
                            && buf[buf.len() - 2] == HYPHEN {
                            proof {
                                lemma_stop_at(Scan::Comment, all, buf@.len() + i);
                            }
                            return Some((vstd::slice::slice_subrange(chunk, 0, i), i + 1));
                        }
                    }
                    from = i + 1;
                }
                proof {
                    lemma_stop_nowhere(Scan::Comment, all);
                }
            },
            BangType::CData => {
                let mut from: usize = 0;
                let ghost all = buf@ + chunk@;
                proof {
                    lemma_seen(Scan::CData, buf@, chunk@);
                }
                while from < chunk.len()
                    invariant
                        from <= chunk@.len(),
                        all == buf@ + chunk@,
                        *self == BangType::CData,
                        forall|j: int| 0 <= j < buf@.len() + from ==> !stops(Scan::CData, all, j),
                    decreases chunk@.len() - from,
                {
                    let rest = vstd::slice::slice_subrange(chunk, from, chunk.len());
                    let found = memchr::memchr(GT, rest);
                    proof {
                        lemma_skipped(Scan::CData, buf@, chunk@, from as int, rest@, found);
                    }
                    let i: usize = match found {
                        Some(n) => from + n,
                        None => {
                            from = chunk.len();
                            continue;
                        },
                    };
                    assert(all[buf@.len() + i] == rest@[i - from]);
                    if i >= 2 && chunk[i - 1] == CLOSE_BRACKET && chunk[i - 2] == CLOSE_BRACKET {
                        proof {
                            lemma_stop_at(Scan::CData, all, buf@.len() + i);
                        }
                        return Some((vstd::slice::slice_subrange(chunk, 0, i), i + 1));
                    }
                    // End sequence `]|]>` was splitted at |
                    //        buf --/   \-- chunk

                    if i == 1 && buf.len() > 0 && buf[buf.len() - 1] == CLOSE_BRACKET && chunk[0]
                        == CLOSE_BRACKET {
                        proof {
                            lemma_stop_at(Scan::CData, all, buf@.len() + i);
                        }
                        return Some((vstd::slice::slice_subrange(chunk, 0, i), i + 1));
                    }
                    // End sequence `]]|>` was splitted at |
                    //         buf --/   \-- chunk

                    if i == 0 && buf.len() > 1 && buf[buf.len() - 1] == CLOSE_BRACKET
                        && buf[buf.len() - 2] == CLOSE_BRACKET {
                        proof {
                            lemma_stop_at(Scan::CData, all, buf@.len() + i);
                        }
                        return Some((vstd::slice::slice_subrange(chunk, 0, i), i + 1));
                    }
                    from = i + 1;
                }
                proof {
                    lemma_stop_nowhere(Scan::CData, all);
                }
            },
            BangType::DocType(parser) => {
                return parser.feed(buf, chunk);
            },
        }
        None
    }

    /// Returns the error for a document that ends in the markup.
    pub fn to_err(&self) -> (r: SyntaxError)
        ensures
            r == unclosed_bang(self.kind()),
    {
        match self {
            BangType::CData => SyntaxError::UnclosedCData,
            BangType::Comment => SyntaxError::UnclosedComment,
            BangType::DocType(_) => SyntaxError::UnclosedDoctype,
        }
    }
}

/// No markup that starts with `!` ends there.
proof fn lemma_bang_alone()
    ensures
        stop(Scan::CData, seq![BANG]) is None,
        stop(Scan::Comment, seq![BANG]) is None,
        DtdParser::BeforeInternalSubset(0).fed(seq![BANG]),
{
    let s = seq![BANG];
    lemma_stop_nowhere(Scan::CData, s);
    lemma_stop_nowhere(Scan::Comment, s);
    lemma_stop_nowhere(Scan::DocType, s);
    reveal_with_fuel(dtd_after, 2);
}

/// Markup that does not end in `buf` does not end there either when more bytes follow.
proof fn lemma_seen(kind: Scan, buf: Seq<u8>, chunk: Seq<u8>)
    requires
        stop(kind, buf) is None,
    ensures
        forall|j: int| 0 <= j < buf.len() ==> !stops(kind, buf + chunk, j),
{
    lemma_stop(kind, buf);
    assert forall|j: int| 0 <= j < buf.len() implies !stops(kind, buf + chunk, j) by {
        lemma_stops_prefix(kind, buf, chunk, j);
    }
}

/// A comment or a CDATA section can end only before a `>`.
proof fn lemma_skipped(
    kind: Scan,
    buf: Seq<u8>,
    chunk: Seq<u8>,
    from: int,
    rest: Seq<u8>,
    found: Option<usize>,
)
    requires
        kind == Scan::Comment || kind == Scan::CData,
        0 <= from <= chunk.len(),
        rest == chunk.subrange(from, chunk.len() as int),
        forall|j: int| 0 <= j < buf.len() + from ==> !stops(kind, buf + chunk, j),
        match found {
            Some(n) => n < rest.len() && forall|j: int| 0 <= j < n ==> #[trigger] rest[j] != GT,
            None => forall|j: int| 0 <= j < rest.len() ==> #[trigger] rest[j] != GT,
        },
    ensures
        match found {
            Some(n) => forall|j: int|
                0 <= j < buf.len() + from + n ==> !stops(kind, buf + chunk, j),
            None => forall|j: int|
                0 <= j < buf.len() + chunk.len() ==> !stops(kind, buf + chunk, j),
        },
{
    let bound: int = match found {
        Some(n) => n as int,
        None => rest.len() as int,
    };
    assert forall|j: int| buf.len() + from <= j < buf.len() + from + bound implies !stops(
        kind,
        buf + chunk,
        j,
    ) by {
        assert(rest[j - buf.len() - from] == (buf + chunk)[j]);
    }
}

} // verus!
