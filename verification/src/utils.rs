//! Helpers on byte slices that the rest of the library is written with.

use vstd::prelude::*;

use crate::bytes::{CR, LF, SPACE, TAB};

verus! {

/// The bytes that XML calls white space: space, carriage return, line feed and tab.
pub open spec fn whitespace(b: u8) -> bool {
    b == SPACE || b == CR || b == LF || b == TAB
}

/// Checks whether a byte is XML white space.
pub fn is_whitespace(b: u8) -> (r: bool)
    ensures
        r == whitespace(b),
{
    b == SPACE || b == CR || b == LF || b == TAB
}

/// Whether `s` starts with `prefix`.
pub open spec fn has_prefix(s: Seq<u8>, prefix: Seq<u8>) -> bool {
    prefix.len() <= s.len() && s.take(prefix.len() as int) == prefix
}

/// Checks whether `bytes` starts with `prefix`.
pub fn starts_with(bytes: &[u8], prefix: &[u8]) -> (r: bool)
    ensures
        r == has_prefix(bytes@, prefix@),
{
    if bytes.len() < prefix.len() {
        return false;
    }
    let mut i: usize = 0;
    while i < prefix.len()
        invariant
            i <= prefix@.len() <= bytes@.len(),
            forall|j: int| 0 <= j < i ==> bytes@[j] == prefix@[j],
        decreases prefix@.len() - i,
    {
        if bytes[i] != prefix[i] {
            assert(bytes@.take(prefix@.len() as int)[i as int] != prefix@[i as int]);
            return false;
        }
        i += 1;
    }
    assert(bytes@.take(prefix@.len() as int) =~= prefix@);
    true
}

/// Checks whether two byte strings are the same.
pub fn same_bytes(a: &[u8], b: &[u8]) -> (r: bool)
    ensures
        r == (a@ == b@),
{
    if a.len() != b.len() {
        return false;
    }
    let r = starts_with(a, b);
    assert(a@.take(b@.len() as int) =~= a@);
    r
}

/// The number of leading white space bytes of `s`.
pub open spec fn leading_space(s: Seq<u8>) -> nat
    decreases s.len(),
{
    if s.len() > 0 && whitespace(s[0]) {
        1 + leading_space(s.drop_first())
    } else {
        0
    }
}

/// `leading_space` is the length of the longest prefix of white space.
pub proof fn lemma_leading_space(s: Seq<u8>, n: int)
    requires
        0 <= n <= s.len(),
        forall|j: int| 0 <= j < n ==> whitespace(#[trigger] s[j]),
        n < s.len() ==> !whitespace(s[n]),
    ensures
        leading_space(s) == n,
    decreases n,
{
    if n > 0 {
        let t = s.drop_first();
        assert forall|j: int| 0 <= j < n - 1 implies whitespace(#[trigger] t[j]) by {
            assert(t[j] == s[j + 1]);
        }
        lemma_leading_space(t, n - 1);
    }
}

/// What `leading_space` counts.
pub proof fn lemma_spaces(s: Seq<u8>)
    ensures
        leading_space(s) <= s.len(),
        forall|j: int| 0 <= j < leading_space(s) ==> whitespace(#[trigger] s[j]),
        leading_space(s) < s.len() ==> !whitespace(s[leading_space(s) as int]),
    decreases s.len(),
{
    if s.len() > 0 && whitespace(s[0]) {
        let t = s.drop_first();
        lemma_spaces(t);
        assert forall|j: int| 0 <= j < leading_space(s) implies whitespace(#[trigger] s[j]) by {
            if j > 0 {
                assert(s[j] == t[j - 1]);
            }
        }
    }
}

/// Counts the white space at the start of `bytes`.
pub fn count_leading_space(bytes: &[u8]) -> (n: usize)
    ensures
        n == leading_space(bytes@),
        n <= bytes@.len(),
        forall|j: int| 0 <= j < n ==> whitespace(#[trigger] bytes@[j]),
        n < bytes@.len() ==> !whitespace(bytes@[n as int]),
{
    let mut n: usize = 0;
    while n < bytes.len() && is_whitespace(bytes[n])
        invariant
            n <= bytes@.len(),
            forall|j: int| 0 <= j < n ==> whitespace(#[trigger] bytes@[j]),
        decreases bytes@.len() - n,
    {
        n += 1;
    }
    proof {
        lemma_leading_space(bytes@, n as int);
    }
    n
}

/// `s` without the white space at its end.
pub open spec fn trim_end(s: Seq<u8>) -> Seq<u8>
    decreases s.len(),
{
    if s.len() > 0 && whitespace(s.last()) {
        trim_end(s.drop_last())
    } else {
        s
    }
}

/// What `trim_end` cuts off.
pub proof fn lemma_trim_end(s: Seq<u8>)
    ensures
        trim_end(s).len() <= s.len(),
        trim_end(s) == s.take(trim_end(s).len() as int),
        trim_end(s).len() > 0 ==> !whitespace(trim_end(s).last()),
        forall|j: int| trim_end(s).len() <= j < s.len() ==> whitespace(#[trigger] s[j]),
    decreases s.len(),
{
    if s.len() > 0 && whitespace(s.last()) {
        let t = s.drop_last();
        lemma_trim_end(t);
        let n = trim_end(t).len() as int;
        assert(s.take(n) =~= t.take(n));
        assert forall|j: int| n <= j < s.len() implies whitespace(#[trigger] s[j]) by {
            if j < t.len() {
                assert(s[j] == t[j]);
            }
        }
    } else {
        assert(s.take(s.len() as int) =~= s);
    }
}

/// Cuts off the white space at the end of `bytes`.
pub fn trimmed_end<'a>(bytes: &'a [u8]) -> (r: &'a [u8])
    ensures
        r@ == trim_end(bytes@),
{
    let mut n: usize = bytes.len();
    assert(bytes@.take(n as int) =~= bytes@);
    while n > 0 && is_whitespace(bytes[n - 1])
        invariant
            n <= bytes@.len(),
            trim_end(bytes@.take(n as int)) == trim_end(bytes@),
        decreases n,
    {
        assert(bytes@.take(n as int).drop_last() =~= bytes@.take(n - 1));
        n -= 1;
    }
    vstd::slice::slice_subrange(bytes, 0, n)
}

/// The number of bytes of `s` before its first white space.
pub open spec fn word_len(s: Seq<u8>) -> nat
    decreases s.len(),
{
    if s.len() > 0 && !whitespace(s[0]) {
        1 + word_len(s.drop_first())
    } else {
        0
    }
}

/// `word_len` is the length of the longest prefix that holds no white space.
pub proof fn lemma_word_len(s: Seq<u8>, n: int)
    requires
        0 <= n <= s.len(),
        forall|j: int| 0 <= j < n ==> !whitespace(#[trigger] s[j]),
        n < s.len() ==> whitespace(s[n]),
    ensures
        word_len(s) == n,
    decreases n,
{
    if n > 0 {
        let t = s.drop_first();
        assert forall|j: int| 0 <= j < n - 1 implies !whitespace(#[trigger] t[j]) by {
            assert(t[j] == s[j + 1]);
        }
        lemma_word_len(t, n - 1);
    }
}

/// What `word_len` counts.
pub proof fn lemma_words(s: Seq<u8>)
    ensures
        word_len(s) <= s.len(),
        forall|j: int| 0 <= j < word_len(s) ==> !whitespace(#[trigger] s[j]),
        word_len(s) < s.len() ==> whitespace(s[word_len(s) as int]),
    decreases s.len(),
{
    if s.len() > 0 && !whitespace(s[0]) {
        let t = s.drop_first();
        lemma_words(t);
        assert forall|j: int| 0 <= j < word_len(s) implies !whitespace(#[trigger] s[j]) by {
            if j > 0 {
                assert(s[j] == t[j - 1]);
            }
        }
    }
}

/// Counts the bytes before the first white space of `bytes`.
pub fn count_word(bytes: &[u8]) -> (n: usize)
    ensures
        n == word_len(bytes@),
        n <= bytes@.len(),
{
    let mut n: usize = 0;
    while n < bytes.len() && !is_whitespace(bytes[n])
        invariant
            n <= bytes@.len(),
            forall|j: int| 0 <= j < n ==> !whitespace(#[trigger] bytes@[j]),
        decreases bytes@.len() - n,
    {
        n += 1;
    }
    proof {
        lemma_word_len(bytes@, n as int);
    }
    n
}

/// Appends `bytes` to `buf`.
pub fn append(buf: &mut Vec<u8>, bytes: &[u8])
    ensures
        final(buf)@ == old(buf)@ + bytes@,
{
    buf.extend_from_slice(bytes);
    assert(buf@ =~= old(buf)@ + bytes@);
}

} // verus!
