//! The attributes of an XML declaration.

use vstd::prelude::*;

use crate::bytes::{DOUBLE_QUOTE, EQUALS, SINGLE_QUOTE};
use crate::utils::{
    count_leading_space, is_whitespace, leading_space, lemma_leading_space, same_bytes, whitespace,
};

verus! {

/// The index of the first `b` in `s`.
pub open spec fn position(s: Seq<u8>, b: u8) -> Option<int>
    decreases s.len(),
{
    if s.len() == 0 {
        None
    } else if s[0] == b {
        Some(0)
    } else {
        match position(s.drop_first(), b) {
            Some(i) => Some(i + 1),
            None => None,
        }
    }
}

proof fn lemma_position(s: Seq<u8>, b: u8, i: int)
    requires
        0 <= i < s.len(),
        s[i] == b,
        forall|j: int| 0 <= j < i ==> #[trigger] s[j] != b,
    ensures
        position(s, b) == Some(i),
    decreases i,
{
    if i > 0 {
        let t = s.drop_first();
        assert(s[0] != b);
        assert forall|j: int| 0 <= j < i - 1 implies #[trigger] t[j] != b by {
            assert(t[j] == s[j + 1]);
        }
        lemma_position(t, b, i - 1);
    }
}

proof fn lemma_no_position(s: Seq<u8>, b: u8)
    requires
        forall|j: int| 0 <= j < s.len() ==> #[trigger] s[j] != b,
    ensures
        position(s, b) is None,
    decreases s.len(),
{
    if s.len() > 0 {
        let t = s.drop_first();
        assert(s[0] != b);
        assert forall|j: int| 0 <= j < t.len() implies #[trigger] t[j] != b by {
            assert(t[j] == s[j + 1]);
        }
        lemma_no_position(t, b);
    }
}

/// The number of bytes of `s` before the first `=` or white space.
pub open spec fn key_len(s: Seq<u8>) -> nat
    decreases s.len(),
{
    if s.len() > 0 && s[0] != EQUALS && !whitespace(s[0]) {
        1 + key_len(s.drop_first())
    } else {
        0
    }
}

proof fn lemma_key_len(s: Seq<u8>, n: int)
    requires
        0 <= n <= s.len(),
        forall|j: int| 0 <= j < n ==> #[trigger] s[j] != EQUALS && !whitespace(s[j]),
        n < s.len() ==> s[n] == EQUALS || whitespace(s[n]),
    ensures
        key_len(s) == n,
    decreases n,
{
    if n > 0 {
        let t = s.drop_first();
        assert(s[0] != EQUALS && !whitespace(s[0]));
        assert forall|j: int| 0 <= j < n - 1 implies #[trigger] t[j] != EQUALS && !whitespace(
            t[j],
        ) by {
            assert(t[j] == s[j + 1]);
        }
        lemma_key_len(t, n - 1);
    }
}

/// `s` without the white space at its start.
pub open spec fn trim_start(s: Seq<u8>) -> Seq<u8> {
    s.skip(leading_space(s) as int)
}

/// The first attribute in `s`: its key, its value and what follows it. There is none if `s`
/// does not go on with a key, `=` and a quoted value.
pub open spec fn first_attribute(s: Seq<u8>) -> Option<(Seq<u8>, Seq<u8>, Seq<u8>)> {
    let t = trim_start(s);
    let key = key_len(t) as int;
    let equals = trim_start(t.skip(key));
    if equals.len() == 0 || equals[0] != EQUALS {
        None
    } else {
        let quoted = trim_start(equals.skip(1));
        if quoted.len() == 0 || (quoted[0] != SINGLE_QUOTE && quoted[0] != DOUBLE_QUOTE) {
            None
        } else {
            let body = quoted.skip(1);
            match position(body, quoted[0]) {
                Some(n) => Some((t.take(key), body.take(n), body.skip(n + 1))),
                None => None,
            }
        }
    }
}

/// The value of the first attribute with the given key. The attributes are looked at up to
/// the first one that is not written correctly.
pub open spec fn attribute_value(s: Seq<u8>, key: Seq<u8>) -> Option<Seq<u8>>
    decreases s.len(),
{
    match first_attribute(s) {
        Some((k, value, rest)) => if k == key {
            Some(value)
        } else if rest.len() < s.len() {
            attribute_value(rest, key)
        } else {
            None
        },
        None => None,
    }
}

fn skip_space<'a>(bytes: &'a [u8]) -> (r: &'a [u8])
    ensures
        r@ == trim_start(bytes@),
        r@.len() <= bytes@.len(),
{
    let n: usize = count_leading_space(bytes);
    let r = vstd::slice::slice_subrange(bytes, n, bytes.len());
    assert(r@ =~= bytes@.skip(n as int));
    r
}

fn count_key(bytes: &[u8]) -> (n: usize)
    ensures
        n == key_len(bytes@),
        n <= bytes@.len(),
{
    let mut n: usize = 0;
    while n < bytes.len() && bytes[n] != EQUALS && !is_whitespace(bytes[n])
        invariant
            n <= bytes@.len(),
            forall|j: int| 0 <= j < n ==> #[trigger] bytes@[j] != EQUALS && !whitespace(bytes@[j]),
        decreases bytes@.len() - n,
    {
        n += 1;
    }
    proof {
        lemma_key_len(bytes@, n as int);
    }
    n
}

/// Reads the first attribute of `bytes`. Returns its key, its value and what follows it.
fn read_attribute<'a>(bytes: &'a [u8]) -> (r: Option<(&'a [u8], &'a [u8], &'a [u8])>)
    ensures
        match r {
            Some((key, value, rest)) => {
                &&& first_attribute(bytes@) == Some((key@, value@, rest@))
                &&& rest@.len() < bytes@.len()
            },
            None => first_attribute(bytes@) is None,
        },
{
    let t = skip_space(bytes);
    let key: usize = count_key(t);
    let after = vstd::slice::slice_subrange(t, key, t.len());
    assert(after@ =~= t@.skip(key as int));
    let equals = skip_space(after);
    if equals.len() == 0 || equals[0] != EQUALS {
        return None;
    }
    let after_equals = vstd::slice::slice_subrange(equals, 1, equals.len());
    assert(after_equals@ =~= equals@.skip(1));
    let quoted = skip_space(after_equals);
    if quoted.len() == 0 || (quoted[0] != SINGLE_QUOTE && quoted[0] != DOUBLE_QUOTE) {
        return None;
    }
    let body = vstd::slice::slice_subrange(quoted, 1, quoted.len());
    assert(body@ =~= quoted@.skip(1));
    match memchr::memchr(quoted[0], body) {
        Some(n) => {
            proof {
                lemma_position(body@, quoted@[0], n as int);
            }
            let rest = vstd::slice::slice_subrange(body, n + 1, body.len());
            assert(rest@ =~= body@.skip(n + 1));
            Some(
                (
                    vstd::slice::slice_subrange(t, 0, key),
                    vstd::slice::slice_subrange(body, 0, n),
                    rest,
                ),
            )
        },
        None => {
            proof {
                lemma_no_position(body@, quoted@[0]);
            }
            None
        },
    }
}

/// Finds the value of the first attribute with the given key.
pub fn find_attribute<'a>(bytes: &'a [u8], key: &[u8]) -> (r: Option<&'a [u8]>)
    ensures
        match r {
            Some(value) => attribute_value(bytes@, key@) == Some(value@),
            None => attribute_value(bytes@, key@) is None,
        },
{
    let mut rest = bytes;
    loop
        invariant
            attribute_value(rest@, key@) == attribute_value(bytes@, key@),
        decreases rest@.len(),
    {
        match read_attribute(rest) {
            Some((k, value, next)) => {
                if same_bytes(k, key) {
                    return Some(value);
                }
                rest = next;
            },
            None => {
                return None;
            },
        }
    }
}

/// An attribute as it is written: white space, a key, `=` and a value in quotes.
pub struct Written {
    pub space: Seq<u8>,
    pub key: Seq<u8>,
    /// The white space before the `=`.
    pub before: Seq<u8>,
    /// The white space after the `=`.
    pub after: Seq<u8>,
    pub quote: u8,
    pub value: Seq<u8>,
}

/// Whether all bytes are white space.
pub open spec fn all_space(s: Seq<u8>) -> bool {
    forall|j: int| 0 <= j < s.len() ==> whitespace(#[trigger] s[j])
}

impl Written {
    /// Whether the attribute is written correctly.
    pub open spec fn valid(self) -> bool {
        &&& all_space(self.space)
        &&& all_space(self.before)
        &&& all_space(self.after)
        &&& self.key.len() > 0
        &&& forall|j: int|
            0 <= j < self.key.len() ==> #[trigger] self.key[j] != EQUALS && !whitespace(self.key[j])
        &&& self.quote == SINGLE_QUOTE || self.quote == DOUBLE_QUOTE
        &&& forall|j: int| 0 <= j < self.value.len() ==> #[trigger] self.value[j] != self.quote
    }

    /// The bytes of the attribute.
    pub open spec fn bytes(self) -> Seq<u8> {
        self.space + self.key + self.before + seq![EQUALS] + self.after + seq![self.quote]
            + self.value + seq![self.quote]
    }
}

/// Whether all attributes are written correctly.
pub open spec fn all_valid(attributes: Seq<Written>) -> bool {
    forall|i: int| 0 <= i < attributes.len() ==> #[trigger] attributes[i].valid()
}

/// The bytes of the attributes, one after another.
pub open spec fn attributes_bytes(attributes: Seq<Written>) -> Seq<u8>
    decreases attributes.len(),
{
    if attributes.len() == 0 {
        Seq::empty()
    } else {
        attributes[0].bytes() + attributes_bytes(attributes.drop_first())
    }
}

/// White space before something else is cut off.
proof fn lemma_trim_start(space: Seq<u8>, rest: Seq<u8>)
    requires
        all_space(space),
        rest.len() > 0 ==> !whitespace(rest[0]),
    ensures
        trim_start(space + rest) == rest,
{
    let s = space + rest;
    let n = space.len() as int;
    assert forall|j: int| 0 <= j < n implies whitespace(#[trigger] s[j]) by {
        assert(s[j] == space[j]);
    }
    lemma_leading_space(s, n);
    assert(s.skip(n) =~= rest);
}

/// An attribute that is written correctly is read as it is written.
proof fn lemma_first_attribute(a: Written, rest: Seq<u8>)
    requires
        a.valid(),
    ensures
        first_attribute(a.bytes() + rest) == Some((a.key, a.value, rest)),
        rest.len() < (a.bytes() + rest).len(),
{
    let quoted = seq![a.quote] + a.value + seq![a.quote] + rest;
    let equals = seq![EQUALS] + a.after + quoted;
    let t = a.key + a.before + equals;
    let s = a.bytes() + rest;
    assert(s =~= a.space + t);
    assert(t[0] == a.key[0]);
    lemma_trim_start(a.space, t);
    let n = a.key.len() as int;
    assert forall|j: int| 0 <= j < n implies #[trigger] t[j] != EQUALS && !whitespace(t[j]) by {
        assert(t[j] == a.key[j]);
    }
    if a.before.len() > 0 {
        assert(t[n] == a.before[0]);
        assert(whitespace(a.before[0]));
    }
    lemma_key_len(t, n);
    assert(t.skip(n) =~= a.before + equals);
    lemma_trim_start(a.before, equals);
    assert(equals.skip(1) =~= a.after + quoted);
    lemma_trim_start(a.after, quoted);
    let body = quoted.skip(1);
    assert(body =~= a.value + seq![a.quote] + rest);
    assert forall|j: int| 0 <= j < a.value.len() implies #[trigger] body[j] != a.quote by {
        assert(body[j] == a.value[j]);
    }
    lemma_position(body, a.quote, a.value.len() as int);
    assert(t.take(n) =~= a.key);
    assert(body.take(a.value.len() as int) =~= a.value);
    assert(body.skip(a.value.len() as int + 1) =~= rest);
}

/// The value of a key is that of the first attribute with the key, whatever attributes come before
/// and after it and whatever follows them.
pub proof fn law_attribute_is_found(
    attributes: Seq<Written>,
    tail: Seq<u8>,
    key: Seq<u8>,
    i: int,
)
    requires
        all_valid(attributes),
        0 <= i < attributes.len(),
        attributes[i].key == key,
        forall|j: int| 0 <= j < i ==> (#[trigger] attributes[j]).key != key,
    ensures
        attribute_value(attributes_bytes(attributes) + tail, key) == Some(attributes[i].value),
    decreases attributes.len(),
{
    let first = attributes[0];
    let others = attributes.drop_first();
    let rest = attributes_bytes(others) + tail;
    assert(attributes_bytes(attributes) + tail =~= first.bytes() + rest);
    assert(first.valid());
    lemma_first_attribute(first, rest);
    if i > 0 {
        assert(attributes[0].key != key);
        assert forall|j: int| 0 <= j < others.len() implies #[trigger] others[j].valid() by {
            assert(others[j] == attributes[j + 1]);
        }
        assert forall|j: int| 0 <= j < i - 1 implies (#[trigger] others[j]).key != key by {
            assert(others[j] == attributes[j + 1]);
        }
        law_attribute_is_found(others, tail, key, i - 1);
    }
}

/// A key that no attribute has is not found.
pub proof fn law_attribute_is_missing(attributes: Seq<Written>, tail: Seq<u8>, key: Seq<u8>)
    requires
        all_valid(attributes),
        all_space(tail),
        forall|j: int| 0 <= j < attributes.len() ==> (#[trigger] attributes[j]).key != key,
    ensures
        attribute_value(attributes_bytes(attributes) + tail, key) is None,
    decreases attributes.len(),
{
    if attributes.len() == 0 {
        let s = attributes_bytes(attributes) + tail;
        assert(s =~= tail + Seq::<u8>::empty());
        lemma_trim_start(tail, Seq::empty());
        lemma_trim_start(Seq::empty(), Seq::empty());
        assert(Seq::<u8>::empty() + Seq::<u8>::empty() =~= Seq::<u8>::empty());
        assert(Seq::<u8>::empty().skip(0) =~= Seq::<u8>::empty());
    } else {
        let first = attributes[0];
        let others = attributes.drop_first();
        let rest = attributes_bytes(others) + tail;
        assert(attributes_bytes(attributes) + tail =~= first.bytes() + rest);
        assert(first.valid());
        lemma_first_attribute(first, rest);
        assert forall|j: int| 0 <= j < others.len() implies #[trigger] others[j].valid()
            && others[j].key != key by {
            assert(others[j] == attributes[j + 1]);
        }
        law_attribute_is_missing(others, tail, key);
    }
}

} // verus!
