//! A parser of tags.

use vstd::prelude::*;

use crate::bytes::{DOUBLE_QUOTE, GT, SINGLE_QUOTE};
use crate::errors::SyntaxError;
use crate::parser::scan::{
    lemma_stop_extend, lemma_stop_push, quote_after, quote_step, stop, stops, Quote, Scan,
};
use crate::utils::{is_whitespace, lemma_word_len, lemma_words, whitespace, word_len};

verus! {

/// A parser that looks for the `>` that ends a tag. The `>`s in quotes do not end it. On the
/// way it measures the name of the tag, which ends before the first white space.
#[derive(Clone, Copy, Debug)]
pub struct FastElementParser {
    quote: Quote,
    name_len: u64,
    in_name: bool,
}

/// The error for a document that ends in a tag.
pub open spec fn unclosed_tag(s: Seq<u8>) -> SyntaxError {
    match quote_after(s) {
        Quote::Outside => SyntaxError::UnclosedTag,
        Quote::Single => SyntaxError::UnclosedSingleQuotedAttributeValue,
        Quote::Double => SyntaxError::UnclosedDoubleQuotedAttributeValue,
    }
}

impl Default for FastElementParser {
    fn default() -> (r: Self)
        ensures
            r.fed(Seq::empty()),
    {
        FastElementParser { quote: Quote::Outside, name_len: 0, in_name: true }
    }
}

impl FastElementParser {
    /// Whether the parser has been fed `s` and the tag does not end there.
    pub closed spec fn fed(self, s: Seq<u8>) -> bool {
        &&& stop(Scan::Tag, s) is None
        &&& self.quote == quote_after(s)
        &&& self.name_len == word_len(s)
        &&& self.in_name == (word_len(s) == s.len())
    }

    /// The number of bytes that are known to belong to the name.
    pub closed spec fn counted(self) -> nat {
        self.name_len as nat
    }

    /// No more bytes were counted than the parser has been fed.
    pub proof fn lemma_counted(self, s: Seq<u8>)
        requires
            self.fed(s),
        ensures
            self.counted() <= s.len(),
            stop(Scan::Tag, s) is None,
    {
        lemma_words(s);
    }

    proof fn lemma_push(self, s: Seq<u8>, b: u8)
        requires
            self.fed(s),
        ensures
            stops(Scan::Tag, s.push(b), s.len() as int) == (b == GT && self.quote
                == Quote::Outside),
            stops(Scan::Tag, s.push(b), s.len() as int) ==> stop(Scan::Tag, s.push(b)) == Some(
                s.len() as int,
            ),
            !stops(Scan::Tag, s.push(b), s.len() as int) ==> (FastElementParser {
                quote: quote_step(self.quote, b),
                name_len: if self.in_name && !whitespace(b) {
                    (self.name_len + 1) as u64
                } else {
                    self.name_len
                },
                in_name: self.in_name && !whitespace(b),
            }).fed(s.push(b)) || s.len() >= u64::MAX,
    {
        let t = s.push(b);
        assert(t.take(s.len() as int) =~= s);
        assert(t.drop_last() =~= s);
        lemma_stop_push(Scan::Tag, s, b);
        lemma_words(s);
        assert forall|j: int| 0 <= j < s.len() implies t[j] == s[j] by {}
        if self.in_name && !whitespace(b) {
            lemma_word_len(t, t.len() as int);
        } else {
            lemma_word_len(t, word_len(s) as int);
        }
    }

    /// Looks for the end of the tag in `bytes`. If it is there, returns the length of the name
    /// of the tag and the index of the `>`.
    pub fn feed(&mut self, bytes: &[u8]) -> (r: Option<(u64, usize)>)
        requires
            old(self).counted() + bytes@.len() <= u64::MAX,
        ensures
            forall|s: Seq<u8>| #[trigger]
                old(self).fed(s) && s.len() + bytes@.len() <= u64::MAX ==> match r {
                    Some((name_len, i)) => {
                        &&& i < bytes@.len()
                        &&& stop(Scan::Tag, s + bytes@) == Some(s.len() + i)
                        &&& name_len == word_len(s + bytes@.take(i as int))
                    },
                    None => final(self).fed(s + bytes@),
                },
    {
        let mut i: usize = 0;
        assert forall|s: Seq<u8>| #[trigger] old(self).fed(s) implies self.fed(
            s + bytes@.take(0),
        ) by {
            assert(s + bytes@.take(0) =~= s);
        }
        while i < bytes.len()
            invariant
                i <= bytes@.len(),
                self.name_len <= old(self).name_len + i,
                old(self).name_len + bytes@.len() <= u64::MAX,
                forall|s: Seq<u8>| #[trigger]
                    old(self).fed(s) && s.len() + bytes@.len() <= u64::MAX ==> self.fed(
                        s + bytes@.take(i as int),
                    ),
            decreases bytes@.len() - i,
        {
            let b: u8 = bytes[i];
            let ghost before = *self;
            assert forall|s: Seq<u8>| #[trigger]
                old(self).fed(s) && s.len() + bytes@.len() <= u64::MAX implies {
                let read = s + bytes@.take(i as int);
                &&& before.fed(read)
                &&& read.push(b) == s + bytes@.take(i + 1)
            } by {
                assert((s + bytes@.take(i as int)).push(b) =~= s + bytes@.take(i + 1));
            }
            match self.quote {
                Quote::Outside => if b == GT {
                    assert forall|s: Seq<u8>| #[trigger]
                        old(self).fed(s) && s.len() + bytes@.len() <= u64::MAX implies stop(
                        Scan::Tag,
                        s + bytes@,
                    ) == Some(s.len() + i) && self.name_len == word_len(
                        s + bytes@.take(i as int),
                    ) by {
                        let read = s + bytes@.take(i as int);
                        before.lemma_push(read, b);
                        lemma_stop_extend(Scan::Tag, read.push(b), bytes@.skip(i + 1));
                        assert(read.push(b) + bytes@.skip(i + 1) =~= s + bytes@);
                    }
                    return Some((self.name_len, i));
                } else if b == SINGLE_QUOTE {
                    self.quote = Quote::Single;
                } else if b == DOUBLE_QUOTE {
                    self.quote = Quote::Double;
                },
                Quote::Single => if b == SINGLE_QUOTE {
                    self.quote = Quote::Outside;
                },
                Quote::Double => if b == DOUBLE_QUOTE {
                    self.quote = Quote::Outside;
                },
            }
            if self.in_name {
                if is_whitespace(b) {
                    self.in_name = false;
                } else {
                    self.name_len = self.name_len + 1;
                }
            }
            assert forall|s: Seq<u8>| #[trigger]
                old(self).fed(s) && s.len() + bytes@.len() <= u64::MAX implies self.fed(
                s + bytes@.take(i + 1),
            ) by {
                let read = s + bytes@.take(i as int);
                before.lemma_push(read, b);
            }
            i += 1;
        }
        assert(bytes@.take(i as int) =~= bytes@);
        None
    }

    /// Returns the error for a document that ends after the bytes that the parser has been fed.
    pub fn eof_error(self, content: &[u8]) -> (r: SyntaxError)
        requires
            self.fed(content@),
        ensures
            r == unclosed_tag(content@),
    {
        match self.quote {
            Quote::Outside => SyntaxError::UnclosedTag,
            Quote::Single => SyntaxError::UnclosedSingleQuotedAttributeValue,
            Quote::Double => SyntaxError::UnclosedDoubleQuotedAttributeValue,
        }
    }
}

} // verus!
