//! This is an implementation of [`Reader`] for reading from a [`ByteSource`] as underlying byte
//! stream.

use vstd::prelude::*;

use crate::bytes::{AMP, BANG, LT, QUESTION, SEMICOLON, SLASH};
use crate::encoding::{bom_encoding, Encoding};
use crate::errors::{Error, ErrorView, SyntaxError};
use crate::events::{BytesRef, Event};
use crate::name::QName;
use crate::parser::fast_element::{unclosed_tag, FastElementParser};
use crate::parser::scan::{
    lemma_stop, lemma_stop_at, lemma_stop_extend, lemma_stop_nowhere, stop, stops, Scan,
};
use crate::parser::{Parser, PiParser};
use crate::reader::bang::{bang_kind, unclosed_bang, BangType};
use crate::reader::steps::{
    heads, keeps, lemma_bom, lemma_head, lemma_next_step, lemma_tag_decodes, measure,
};
use crate::reader::model::{
    after_bom, bang_step, end_step, fault_step, mark_len, markup_step, next_step, pi_step, ref_step,
    settle, start_step, started_step, takes, text_step, trimmed, Model, Step,
};
use crate::reader::search::find_text_end;
use crate::reader::source::{
    bytes_ahead, chunk, chunk_ahead, consumed, fault_ahead, filled, input_ahead, lemma_chunk_ahead,
    lemma_consumed, lemma_filled, lemma_refused, lemma_skipped_input, ByteSource, Fault, Fill,
    FillError,
};
use crate::reader::to_end::{
    event_nesting, lemma_skip_step, lemma_to_end, skip_element, spans, to_end, Nesting,
};
use crate::reader::{EncodingRef, ParseState, Reader, Span};
use crate::utils::{append, count_leading_space, leading_space, lemma_words, word_len};

verus! {

/// Whether exactly `n` bytes were consumed between two moments.
pub open spec fn passed(before: Seq<Fill>, after: Seq<Fill>, n: int) -> bool {
    &&& bytes_ahead(after) == bytes_ahead(before).skip(n)
    &&& fault_ahead(after) == fault_ahead(before)
}

/// Whether the source failed with the error after it gave all bytes ahead.
pub open spec fn failed(before: Seq<Fill>, after: Seq<Fill>, error: std::io::Error) -> bool {
    fault_ahead(before) == Some(Fault { error, rest: after })
}

/// Detects the encoding by the bytes that the source gives first and consumes a byte order mark, if
/// there is one.
fn detect_encoding<R: ByteSource>(r: &mut R, position: &mut u64) -> (res: Result<
    Option<Encoding>,
    std::io::Error,
>)
    requires
        *old(position) + bytes_ahead(old(r).fills()).len() <= u64::MAX,
    ensures
        ({
            let before = old(r).fills();
            let head = chunk_ahead(before);
            match res {
                Ok(found) => {
                    &&& head.len() > 0 || fault_ahead(before) is None
                    &&& passed(before, final(r).fills(), mark_len(true, head))
                    &&& *final(position) == *old(position) + mark_len(true, head)
                    &&& match found {
                        Some(e) => bom_encoding(head) matches Some((name, _)) && e@ == name,
                        None => bom_encoding(head) is None,
                    }
                },
                Err(e) => {
                    &&& head.len() == 0
                    &&& failed(before, final(r).fills(), e)
                    &&& *final(position) == *old(position)
                },
            }
        }),
{
    let ghost before = r.fills();
    loop
        invariant
            *position == *old(position),
            *old(position) + bytes_ahead(before).len() <= u64::MAX,
            bytes_ahead(r.fills()) == bytes_ahead(before),
            fault_ahead(r.fills()) == fault_ahead(before),
            chunk_ahead(r.fills()) == chunk_ahead(before),
            before == old(r).fills(),
        decreases r.fills().len(),
    {
        let ghost now = r.fills();
        match r.fill_buf() {
            Ok(n) => {
                proof {
                    lemma_filled(now);
                }
                match crate::encoding::detect_encoding(n) {
                    Some((encoding, bom_len)) => {
                        proof {
                            lemma_consumed(now, bom_len as nat);
                        }
                        r.consume(bom_len);
                        *position = *position + bom_len as u64;
                        return Ok(Some(encoding));
                    },
                    None => {
                        assert(bytes_ahead(before).skip(0) =~= bytes_ahead(before));
                        return Ok(None);
                    },
                }
            },
            Err(e) => {
                proof {
                    lemma_refused(now, e);
                }
                match e {
                    FillError::Interrupted => {},
                    FillError::Failed(e) => {
                        return Err(e);
                    },
                }
            },
        }
    }
}

/// Removes a byte order mark of UTF-8, if the bytes that the source gives first start with it.
fn remove_utf8_bom<R: ByteSource>(r: &mut R, position: &mut u64) -> (res: Result<
    (),
    std::io::Error,
>)
    requires
        *old(position) + bytes_ahead(old(r).fills()).len() <= u64::MAX,
    ensures
        ({
            let before = old(r).fills();
            let head = chunk_ahead(before);
            match res {
                Ok(_) => {
                    &&& head.len() > 0 || fault_ahead(before) is None
                    &&& passed(before, final(r).fills(), mark_len(false, head))
                    &&& *final(position) == *old(position) + mark_len(false, head)
                },
                Err(e) => {
                    &&& head.len() == 0
                    &&& failed(before, final(r).fills(), e)
                    &&& *final(position) == *old(position)
                },
            }
        }),
{
    let ghost before = r.fills();
    loop
        invariant
            *position == *old(position),
            *old(position) + bytes_ahead(before).len() <= u64::MAX,
            bytes_ahead(r.fills()) == bytes_ahead(before),
            fault_ahead(r.fills()) == fault_ahead(before),
            chunk_ahead(r.fills()) == chunk_ahead(before),
            before == old(r).fills(),
        decreases r.fills().len(),
    {
        let ghost now = r.fills();
        match r.fill_buf() {
            Ok(n) => {
                proof {
                    lemma_filled(now);
                    assert(bytes_ahead(before).skip(0) =~= bytes_ahead(before));
                }
                if crate::encoding::starts_with_utf8_bom(n) {
                    proof {
                        lemma_consumed(now, 3);
                    }
                    r.consume(3);
                    *position = *position + 3;
                }
                return Ok(());
            },
            Err(e) => {
                proof {
                    lemma_refused(now, e);
                }
                match e {
                    FillError::Interrupted => {},
                    FillError::Failed(e) => {
                        return Err(e);
                    },
                }
            },
        }
    }
}

/// Skips white space.
fn skip_whitespace<R: ByteSource>(r: &mut R, position: &mut u64) -> (res: Result<
    (),
    std::io::Error,
>)
    requires
        *old(position) + bytes_ahead(old(r).fills()).len() <= u64::MAX,
    ensures
        ({
            let before = old(r).fills();
            let n = leading_space(bytes_ahead(before));
            &&& n <= bytes_ahead(before).len()
            &&& *final(position) == *old(position) + n
            &&& match res {
                Ok(_) => {
                    &&& passed(before, final(r).fills(), n as int)
                    &&& n < bytes_ahead(before).len() || fault_ahead(before) is None
                },
                Err(e) => n == bytes_ahead(before).len() && failed(before, final(r).fills(), e),
            }
        }),
{
    let ghost before = r.fills();
    let ghost s = bytes_ahead(before);
    let ghost mut read: int = 0;
    assert(s.skip(0) =~= s);
    loop
        invariant
            0 <= read <= s.len(),
            bytes_ahead(r.fills()) == s.skip(read),
            fault_ahead(r.fills()) == fault_ahead(before),
            forall|j: int| 0 <= j < read ==> crate::utils::whitespace(#[trigger] s[j]),
            *position == *old(position) + read,
            *old(position) + s.len() <= u64::MAX,
            s == bytes_ahead(before),
            before == old(r).fills(),
        decreases r.fills().len(), bytes_ahead(r.fills()).len(),
    {
        let ghost now = r.fills();
        match r.fill_buf() {
            Ok(n) => {
                let count: usize = count_leading_space(n);
                proof {
                    lemma_filled(now);
                    lemma_consumed(now, count as nat);
                    assert forall|j: int| read <= j < read + count implies
                        crate::utils::whitespace(#[trigger] s[j]) by {
                        assert(s.skip(read)[j - read] == n@[j - read]);
                    }
                    if count < n@.len() {
                        assert(s[read + count] == n@[count as int]);
                    }
                }
                if count > 0 {
                    r.consume(count);
                    *position = *position + count as u64;
                    proof {
                        assert(s.skip(read).skip(count as int) =~= s.skip(read + count));
                        read = read + count;
                    }
                } else {
                    proof {
                        crate::utils::lemma_leading_space(s, read);
                    }
                    return Ok(());
                }
            },
            Err(e) => {
                proof {
                    lemma_refused(now, e);
                }
                match e {
                    FillError::Interrupted => {},
                    FillError::Failed(e) => {
                        proof {
                            crate::utils::lemma_leading_space(s, read);
                        }
                        return Err(e);
                    },
                }
            },
        }
    }
}

/// A source that fails before it gives anything is what a reader at text returns.
proof fn lemma_failed_at_text(m: Model)
    requires
        m.input.bytes.len() == 0,
    ensures
        m.input.fault matches Some(fault) ==> text_step(m) == fault_step(m, fault, Seq::empty()),
{
    reveal(text_step);
    lemma_stop_nowhere(Scan::Text, m.input.bytes);
    assert(m.input.bytes =~= Seq::<u8>::empty());
    assert(m.drain() =~= m);
}

/// Returns the next byte without consuming it, if there is one.
fn peek_one<R: ByteSource>(r: &mut R) -> (res: Result<Option<u8>, std::io::Error>)
    ensures
        ({
            let before = old(r).fills();
            let s = bytes_ahead(before);
            match res {
                Ok(Some(b)) => {
                    &&& s.len() > 0
                    &&& b == s[0]
                    &&& passed(before, final(r).fills(), 0)
                    &&& chunk(final(r).fills()).len() > 0
                },
                Ok(None) => {
                    &&& s.len() == 0
                    &&& fault_ahead(before) is None
                    &&& passed(before, final(r).fills(), 0)
                },
                Err(e) => s.len() == 0 && failed(before, final(r).fills(), e),
            }
        }),
{
    let ghost before = r.fills();
    assert(bytes_ahead(before).skip(0) =~= bytes_ahead(before));
    loop
        invariant
            passed(before, r.fills(), 0),
            bytes_ahead(before).skip(0) == bytes_ahead(before),
            before == old(r).fills(),
        decreases r.fills().len(),
    {
        let ghost now = r.fills();
        match r.fill_buf() {
            Ok(n) => {
                proof {
                    lemma_filled(now);
                }
                let first: Option<u8> = if n.len() > 0 {
                    Some(n[0])
                } else {
                    None
                };
                return Ok(first);
            },
            Err(e) => {
                proof {
                    lemma_refused(now, e);
                }
                match e {
                    FillError::Interrupted => {},
                    FillError::Failed(e) => {
                        return Err(e);
                    },
                }
            },
        }
    }
}

/// Skips one byte.
fn consume_one<R: ByteSource>(r: &mut R, position: &mut u64)
    requires
        chunk(old(r).fills()).len() > 0,
        *old(position) < u64::MAX,
    ensures
        passed(old(r).fills(), final(r).fills(), 1),
        *final(position) == *old(position) + 1,
{
    proof {
        lemma_consumed(r.fills(), 1);
    }
    r.consume(1);
    *position = *position + 1;
}

/// Whether `got` is what was consumed between two moments and is kept in the buffer `buf`, which
/// was `kept` before.
spec fn keeping(
    before: Seq<Fill>,
    now: Seq<Fill>,
    kept: Seq<u8>,
    buf: Seq<u8>,
    got: Seq<u8>,
) -> bool {
    &&& bytes_ahead(before) == got + bytes_ahead(now)
    &&& fault_ahead(before) == fault_ahead(now)
    &&& buf == kept + got
}

/// Whether all bytes ahead were consumed and kept without finding the end of some markup. If the
/// source did not fail, `error` is the error.
pub open spec fn unclosed(
    before: Seq<Fill>,
    after: Seq<Fill>,
    kept: Seq<u8>,
    buf: Seq<u8>,
    n: int,
    error: SyntaxError,
    e: Error,
) -> bool {
    &&& buf == kept + bytes_ahead(before)
    &&& n == bytes_ahead(before).len()
    &&& match fault_ahead(before) {
        Some(fault) => e@ == ErrorView::Io(fault.error) && after == fault.rest,
        None => e@ == ErrorView::Syntax(error) && passed(before, after, n),
    }
}

/// Consuming bytes and keeping them in the buffer.
proof fn lemma_keep(
    before: Seq<Fill>,
    now: Seq<Fill>,
    kept: Seq<u8>,
    buf: Seq<u8>,
    got: Seq<u8>,
    n: nat,
)
    requires
        keeping(before, now, kept, buf, got),
        n <= chunk(now).len(),
    ensures
        keeping(
            before,
            consumed(now, n),
            kept,
            buf + chunk(now).take(n as int),
            got + chunk(now).take(n as int),
        ),
        n == chunk(now).len() && n > 0 ==> consumed(now, n).len() < now.len(),
        bytes_ahead(consumed(now, n)).len() == bytes_ahead(now).len() - n,
        got.len() + n <= bytes_ahead(before).len(),
{
    let part = chunk(now).take(n as int);
    lemma_consumed(now, n);
    assert(bytes_ahead(now) =~= part + bytes_ahead(now).skip(n as int));
    assert(got + bytes_ahead(now) =~= (got + part) + bytes_ahead(now).skip(n as int));
    assert((kept + got) + part =~= kept + (got + part));
}

/// After `n` bytes of the next chunk are consumed, the bytes before those that are still ahead are
/// what was consumed.
proof fn lemma_passed(before: Seq<Fill>, now: Seq<Fill>, got: Seq<u8>, n: nat)
    requires
        bytes_ahead(before) == got + bytes_ahead(now),
        fault_ahead(before) == fault_ahead(now),
        n <= chunk(now).len(),
    ensures
        passed(before, consumed(now, n), (got.len() + n) as int),
        bytes_ahead(before).take((got.len() + n) as int) == got + chunk(now).take(n as int),
        got.len() + chunk(now).len() <= bytes_ahead(before).len(),
        forall|i: int|
            0 <= i < chunk(now).len() ==> bytes_ahead(before)[got.len() + i] == #[trigger] chunk(
                now,
            )[i],
{
    lemma_consumed(now, n);
    lemma_consumed(now, chunk(now).len());
    assert(bytes_ahead(before).skip((got.len() + n) as int) =~= bytes_ahead(now).skip(n as int));
    assert(bytes_ahead(before).take((got.len() + n) as int) =~= got + bytes_ahead(now).take(
        n as int,
    ));
    assert forall|i: int| 0 <= i < chunk(now).len() implies bytes_ahead(before)[got.len() + i]
        == #[trigger] chunk(now)[i] by {
        assert(bytes_ahead(now).take(chunk(now).len() as int)[i] == chunk(now).take(
            chunk(now).len() as int,
        )[i]);
    }
}

/// What the search for the end of text came to.
pub(crate) enum ReadTextResult {
    /// Bytes were kept up to start of markup (`<` character), which was consumed.
    UpToMarkup,
    /// Bytes were kept up to start of reference (`&` character), which was not consumed.
    UpToRef,
    /// Bytes were kept up to the end of the data.
    UpToEof,
    /// The source failed.
    Failed(std::io::Error),
}

/// Reads text up to the next `<` or `&` and keeps it in the buffer.
fn read_text<R: ByteSource>(r: &mut R, buf: &mut Vec<u8>, position: &mut u64) -> (res:
    ReadTextResult)
    requires
        *old(position) + bytes_ahead(old(r).fills()).len() <= u64::MAX,
    ensures
        ({
            let before = old(r).fills();
            let s = bytes_ahead(before);
            let n = *final(position) - *old(position);
            match stop(Scan::Text, s) {
                Some(i) => {
                    &&& final(buf)@ == old(buf)@ + s.take(i)
                    &&& passed(before, final(r).fills(), n)
                    &&& 0 <= i < s.len()
                    &&& if s[i] == LT {
                        n == i + 1 && res == ReadTextResult::UpToMarkup
                    } else {
                        n == i && res == ReadTextResult::UpToRef
                    }
                },
                None => {
                    &&& final(buf)@ == old(buf)@ + s
                    &&& n == s.len()
                    &&& match fault_ahead(before) {
                        Some(fault) => {
                            &&& res == ReadTextResult::Failed(fault.error)
                            &&& final(r).fills() == fault.rest
                        },
                        None => res == ReadTextResult::UpToEof && passed(
                            before,
                            final(r).fills(),
                            n,
                        ),
                    }
                },
            }
        }),
{
    let ghost before = r.fills();
    let ghost s = bytes_ahead(before);
    let ghost kept = buf@;
    let ghost mut got = Seq::<u8>::empty();
    let mut read: u64 = 0;
    proof {
        assert(got + s =~= s);
        assert(kept + got =~= kept);
        lemma_stop_nowhere(Scan::Text, got);
    }
    loop
        invariant
            keeping(before, r.fills(), kept, buf@, got),
            stop(Scan::Text, got) is None,
            read == got.len() <= s.len(),
            *position == *old(position),
            *old(position) + s.len() <= u64::MAX,
            s == bytes_ahead(before),
            before == old(r).fills(),
            kept == old(buf)@,
        decreases r.fills().len(),
    {
        let ghost now = r.fills();
        match r.fill_buf() {
            Ok(available) => {
                proof {
                    lemma_filled(now);
                    lemma_passed(before, now, got, 0);
                }
                if available.len() == 0 {
                    // The end of the data
                    proof {
                        assert(s =~= got);
                        assert(s.skip(s.len() as int) =~= bytes_ahead(now));
                    }
                    *position = *position + read;
                    return ReadTextResult::UpToEof;
                }
                // Search for start of markup or an entity or character reference

                let found = find_text_end(available);
                proof {
                    lemma_text_chunk(s, got, available@);
                }
                match found {
                    Some(i) => {
                        proof {
                            lemma_passed(before, now, got, i as nat);
                            if available@[i as int] == LT {
                                lemma_passed(before, now, got, (i + 1) as nat);
                            }
                            assert(kept + (got + available@.take(i as int)) =~= buf@
                                + available@.take(i as int));
                        }
                        let is_markup = available[i] == LT;
                        append(buf, vstd::slice::slice_subrange(available, 0, i));
                        if is_markup {
                            // +1 to skip `<`
                            r.consume(i + 1);
                            *position = *position + read + i as u64 + 1;
                            return ReadTextResult::UpToMarkup;
                        }
                        // Do not consume `&` because it may be lone and we would be need to
                        // return it as part of Text event

                        r.consume(i);
                        *position = *position + read + i as u64;
                        return ReadTextResult::UpToRef;
                    },
                    None => {
                        proof {
                            lemma_keep(before, now, kept, buf@, got, available@.len());
                            assert(available@.take(available@.len() as int) =~= available@);
                        }
                        append(buf, available);
                        let used: usize = available.len();
                        r.consume(used);
                        read = read + used as u64;
                        proof {
                            got = got + chunk(now);
                        }
                    },
                }
            },
            Err(e) => {
                proof {
                    lemma_refused(now, e);
                }
                match e {
                    FillError::Interrupted => {},
                    FillError::Failed(e) => {
                        assert(s =~= got);
                        *position = *position + read;
                        return ReadTextResult::Failed(e);
                    },
                }
            },
        }
    }
}

/// Text that did not end yet ends where the next chunk says.
proof fn lemma_text_chunk(s: Seq<u8>, got: Seq<u8>, chunk: Seq<u8>)
    requires
        stop(Scan::Text, got) is None,
        got.len() + chunk.len() <= s.len(),
        s.take(got.len() as int) == got,
        forall|i: int| 0 <= i < chunk.len() ==> s[got.len() + i] == #[trigger] chunk[i],
    ensures
        match stop(Scan::Text, chunk) {
            Some(i) => stop(Scan::Text, s) == Some(got.len() + i),
            None => stop(Scan::Text, got + chunk) is None,
        },
{
    lemma_stop(Scan::Text, got);
    lemma_stop(Scan::Text, chunk);
    assert forall|j: int| 0 <= j < got.len() implies s[j] == got[j] by {
        assert(s.take(got.len() as int)[j] == s[j]);
    }
    match stop(Scan::Text, chunk) {
        Some(i) => {
            assert forall|j: int| 0 <= j < got.len() + i implies !stops(Scan::Text, s, j) by {
                if j < got.len() {
                    assert(!stops(Scan::Text, got, j));
                } else {
                    assert(!stops(Scan::Text, chunk, j - got.len()));
                    assert(s[got.len() + (j - got.len())] == chunk[j - got.len()]);
                }
            }
            assert(s[got.len() + i] == chunk[i]);
            lemma_stop_at(Scan::Text, s, got.len() + i);
        },
        None => {
            assert forall|j: int| 0 <= j < (got + chunk).len() implies !stops(
                Scan::Text,
                got + chunk,
                j,
            ) by {
                if j < got.len() {
                    assert(!stops(Scan::Text, got, j));
                } else {
                    assert(!stops(Scan::Text, chunk, j - got.len()));
                }
            }
            lemma_stop_nowhere(Scan::Text, got + chunk);
        },
    }
}

/// What the search for the end of a reference came to.
pub(crate) enum ReadRefResult {
    /// Bytes were kept up to the `;` that ends the reference, which was consumed.
    Ref,
    /// Bytes were kept up to start of another reference (`&` character), which was not consumed.
    UpToRef,
    /// Bytes were kept up to start of markup (`<` character), which was consumed.
    UpToMarkup,
    /// Bytes were kept up to the end of the data.
    UpToEof,
    /// The source failed.
    Failed(std::io::Error),
}

/// Reads a reference from its `&` up to the next `;`, `&` or `<` and keeps it in the buffer.
fn read_ref<R: ByteSource>(r: &mut R, buf: &mut Vec<u8>, position: &mut u64) -> (res:
    ReadRefResult)
    requires
        *old(position) + bytes_ahead(old(r).fills()).len() <= u64::MAX,
        bytes_ahead(old(r).fills()).len() > 0 ==> bytes_ahead(old(r).fills())[0] == AMP,
    ensures
        ({
            let before = old(r).fills();
            let s = bytes_ahead(before);
            let n = *final(position) - *old(position);
            match stop(Scan::Reference, s) {
                Some(i) => {
                    &&& 0 < i < s.len()
                    &&& final(buf)@ == old(buf)@ + s.take(i)
                    &&& passed(before, final(r).fills(), n)
                    &&& if s[i] == AMP {
                        n == i && res == ReadRefResult::UpToRef
                    } else if s[i] == SEMICOLON {
                        n == i + 1 && res == ReadRefResult::Ref
                    } else {
                        n == i + 1 && res == ReadRefResult::UpToMarkup
                    }
                },
                None => {
                    &&& final(buf)@ == old(buf)@ + s
                    &&& n == s.len()
                    &&& match fault_ahead(before) {
                        Some(fault) => {
                            &&& res == ReadRefResult::Failed(fault.error)
                            &&& final(r).fills() == fault.rest
                        },
                        None => res == ReadRefResult::UpToEof && passed(
                            before,
                            final(r).fills(),
                            n,
                        ),
                    }
                },
            }
        }),
{
    let ghost before = r.fills();
    let ghost s = bytes_ahead(before);
    let ghost kept = buf@;
    let ghost mut got = Seq::<u8>::empty();
    let mut read: u64 = 0;
    proof {
        assert(got + s =~= s);
        assert(kept + got =~= kept);
        lemma_stop_nowhere(Scan::Reference, got);
    }
    loop
        invariant
            keeping(before, r.fills(), kept, buf@, got),
            stop(Scan::Reference, got) is None,
            read == got.len() <= s.len(),
            s.len() > 0 ==> s[0] == AMP,
            *position == *old(position),
            *old(position) + s.len() <= u64::MAX,
            s == bytes_ahead(before),
            before == old(r).fills(),
            kept == old(buf)@,
        decreases r.fills().len(), bytes_ahead(r.fills()).len(),
    {
        let ghost now = r.fills();
        match r.fill_buf() {
            Ok(available) => {
                proof {
                    lemma_filled(now);
                    lemma_passed(before, now, got, 0);
                }
                if available.len() == 0 {
                    // The end of the data
                    proof {
                        assert(s =~= got);
                        assert(s.skip(s.len() as int) =~= bytes_ahead(now));
                    }
                    *position = *position + read;
                    return ReadRefResult::UpToEof;
                }
                // `read_ref` called when the first character is `&`, so we
                // should explicitly skip it at first iteration lest we confuse
                // it with the end

                if read == 0 {
                    proof {
                        lemma_keep(before, now, kept, buf@, got, 1);
                        assert(chunk(now)[0] == AMP);
                        assert(chunk(now).take(1) =~= seq![AMP]);
                        assert(buf@ + seq![AMP] =~= buf@.push(AMP));
                        got = got + chunk(now).take(1);
                        lemma_stop_nowhere(Scan::Reference, got);
                    }
                    // If that ampersand is lone, then it will be part of text
                    // and we should keep it
                    buf.push(AMP);
                    r.consume(1);
                    read = 1;
                    continue;
                }
                let found = memchr::memchr3(SEMICOLON, AMP, LT, available);
                proof {
                    lemma_reference_chunk(s, got, available@, found);
                }
                match found {
                    Some(i) => {
                        proof {
                            lemma_passed(before, now, got, i as nat);
                            lemma_passed(before, now, got, (i + 1) as nat);
                            assert(kept + (got + available@.take(i as int)) =~= buf@
                                + available@.take(i as int));
                        }
                        let end: u8 = available[i];
                        append(buf, vstd::slice::slice_subrange(available, 0, i));
                        if end == AMP {
                            // Do not consume `&` because it may be lone and we would be need to
                            // return it as part of Text event
                            r.consume(i);
                            *position = *position + read + i as u64;
                            return ReadRefResult::UpToRef;
                        }
                        // +1 -- skip the end `;` or `<`

                        r.consume(i + 1);
                        *position = *position + read + i as u64 + 1;
                        if end == SEMICOLON {
                            return ReadRefResult::Ref;
                        }
                        return ReadRefResult::UpToMarkup;
                    },
                    None => {
                        proof {
                            lemma_keep(before, now, kept, buf@, got, available@.len());
                            assert(available@.take(available@.len() as int) =~= available@);
                        }
                        append(buf, available);
                        let used: usize = available.len();
                        r.consume(used);
                        read = read + used as u64;
                        proof {
                            got = got + chunk(now);
                        }
                    },
                }
            },
            Err(e) => {
                proof {
                    lemma_refused(now, e);
                }
                match e {
                    FillError::Interrupted => {},
                    FillError::Failed(e) => {
                        assert(s =~= got);
                        *position = *position + read;
                        return ReadRefResult::Failed(e);
                    },
                }
            },
        }
    }
}

/// A reference that did not end yet ends where the next chunk says.
proof fn lemma_reference_chunk(s: Seq<u8>, got: Seq<u8>, chunk: Seq<u8>, found: Option<usize>)
    requires
        stop(Scan::Reference, got) is None,
        0 < got.len(),
        got.len() + chunk.len() <= s.len(),
        s.take(got.len() as int) == got,
        forall|i: int| 0 <= i < chunk.len() ==> s[got.len() + i] == #[trigger] chunk[i],
        match found {
            Some(i) => {
                &&& i < chunk.len()
                &&& chunk[i as int] == SEMICOLON || chunk[i as int] == AMP || chunk[i as int] == LT
                &&& forall|j: int|
                    0 <= j < i ==> #[trigger] chunk[j] != SEMICOLON && chunk[j] != AMP && chunk[j]
                        != LT
            },
            None => forall|j: int|
                0 <= j < chunk.len() ==> #[trigger] chunk[j] != SEMICOLON && chunk[j] != AMP
                    && chunk[j] != LT,
        },
    ensures
        match found {
            Some(i) => stop(Scan::Reference, s) == Some(got.len() + i),
            None => stop(Scan::Reference, got + chunk) is None,
        },
{
    lemma_stop(Scan::Reference, got);
    assert forall|j: int| 0 <= j < got.len() implies s[j] == got[j] by {
        assert(s.take(got.len() as int)[j] == s[j]);
    }
    match found {
        Some(i) => {
            assert forall|j: int| 0 <= j < got.len() + i implies !stops(Scan::Reference, s, j) by {
                if j < got.len() {
                    assert(!stops(Scan::Reference, got, j));
                } else {
                    assert(s[got.len() + (j - got.len())] == chunk[j - got.len()]);
                }
            }
            assert(s[got.len() + i] == chunk[i as int]);
            lemma_stop_at(Scan::Reference, s, got.len() + i);
        },
        None => {
            assert forall|j: int| 0 <= j < (got + chunk).len() implies !stops(
                Scan::Reference,
                got + chunk,
                j,
            ) by {
                if j < got.len() {
                    assert(!stops(Scan::Reference, got, j));
                } else {
                    assert((got + chunk)[j] == chunk[j - got.len()]);
                }
            }
            lemma_stop_nowhere(Scan::Reference, got + chunk);
        },
    }
}

/// A piece that ends in what was read of it ends there whatever follows.
proof fn lemma_ended(kind: Scan, before: Seq<Fill>, now: Seq<Fill>, got: Seq<u8>)
    requires
        filled(now),
        bytes_ahead(before) == got + bytes_ahead(now),
        stop(kind, got + chunk(now)) is Some,
    ensures
        stop(kind, bytes_ahead(before)) == stop(kind, got + chunk(now)),
{
    lemma_filled(now);
    let rest = bytes_ahead(now).skip(chunk(now).len() as int);
    assert(bytes_ahead(before) =~= (got + chunk(now)) + rest);
    lemma_stop_extend(kind, got + chunk(now), rest);
}

/// Reads a tag up to its `>`, which is consumed, and keeps the bytes before it in the buffer.
/// Returns the length of the name of the tag.
fn read_element<R: ByteSource>(r: &mut R, buf: &mut Vec<u8>, position: &mut u64) -> (res: Result<
    usize,
    Error,
>)
    requires
        *old(position) + bytes_ahead(old(r).fills()).len() <= u64::MAX,
    ensures
        ({
            let before = old(r).fills();
            let s = bytes_ahead(before);
            let n = *final(position) - *old(position);
            match stop(Scan::Tag, s) {
                Some(i) => {
                    &&& 0 <= i < s.len()
                    &&& final(buf)@ == old(buf)@ + s.take(i)
                    &&& n == i + 1
                    &&& passed(before, final(r).fills(), n)
                    &&& res matches Ok(name_len) && name_len == word_len(s.take(i))
                },
                None => {
                    &&& res matches Err(e)
                    &&& unclosed(
                        before,
                        final(r).fills(),
                        old(buf)@,
                        final(buf)@,
                        n,
                        unclosed_tag(s),
                        e,
                    )
                },
            }
        }),
{
    let ghost before = r.fills();
    let ghost s = bytes_ahead(before);
    let ghost kept = buf@;
    let ghost mut got = Seq::<u8>::empty();
    let mut parser = FastElementParser::default();
    let mut read: u64 = 0;
    let start: usize = buf.len();
    proof {
        assert(got + s =~= s);
        assert(kept + got =~= kept);
    }
    loop
        invariant
            keeping(before, r.fills(), kept, buf@, got),
            parser.fed(got),
            read == got.len() <= s.len(),
            *position == *old(position),
            *old(position) + s.len() <= u64::MAX,
            s == bytes_ahead(before),
            before == old(r).fills(),
            kept == old(buf)@,
            start == kept.len(),
        decreases r.fills().len(),
    {
        let ghost now = r.fills();
        proof {
            parser.lemma_counted(got);
        }
        match r.fill_buf() {
            Ok(available) => {
                proof {
                    lemma_filled(now);
                    lemma_passed(before, now, got, 0);
                }
                if available.len() == 0 {
                    // The end of the data
                    proof {
                        assert(s =~= got);
                        assert(s.skip(s.len() as int) =~= bytes_ahead(now));
                    }
                    *position = *position + read;
                    let content = vstd::slice::slice_subrange(buf.as_slice(), start, buf.len());
                    assert(content@ =~= got);
                    return Err(Error::Syntax(parser.eof_error(content)));
                }
                if let Some((name_len, i)) = parser.feed(available) {
                    proof {
                        lemma_ended(Scan::Tag, before, now, got);
                        lemma_passed(before, now, got, i as nat);
                        lemma_passed(before, now, got, (i + 1) as nat);
                        lemma_words(got + available@.take(i as int));
                        assert(kept + (got + available@.take(i as int)) =~= buf@ + available@.take(
                            i as int,
                        ));
                    }
                    append(buf, vstd::slice::slice_subrange(available, 0, i));
                    // +1 for `>` which we do not include
                    r.consume(i + 1);
                    *position = *position + read + i as u64 + 1;
                    let len: usize = buf.len();
                    assert(name_len <= len);
                    return Ok(name_len as usize);
                }
                // The `>` symbol not yet found, continue reading

                proof {
                    lemma_keep(before, now, kept, buf@, got, available@.len());
                    assert(available@.take(available@.len() as int) =~= available@);
                }
                append(buf, available);
                let used: usize = available.len();
                r.consume(used);
                read = read + used as u64;
                proof {
                    got = got + chunk(now);
                }
            },
            Err(e) => {
                proof {
                    lemma_refused(now, e);
                }
                match e {
                    FillError::Interrupted => {},
                    FillError::Failed(e) => {
                        assert(s =~= got);
                        *position = *position + read;
                        return Err(Error::Io(e));
                    },
                }
            },
        }
    }
}

/// Reads markup up to the `>` that the parser finds, which is consumed, and keeps the bytes before
/// it in the buffer.
fn read_with<R: ByteSource, P: Parser>(
    r: &mut R,
    parser: P,
    buf: &mut Vec<u8>,
    position: &mut u64,
) -> (res: Result<(), Error>)
    requires
        *old(position) + bytes_ahead(old(r).fills()).len() <= u64::MAX,
        parser.fed(Seq::empty()),
    ensures
        ({
            let before = old(r).fills();
            let s = bytes_ahead(before);
            let n = *final(position) - *old(position);
            match stop(P::kind(), s) {
                Some(i) => {
                    &&& 0 <= i < s.len()
                    &&& final(buf)@ == old(buf)@ + s.take(i)
                    &&& n == i + 1
                    &&& passed(before, final(r).fills(), n)
                    &&& res is Ok
                },
                None => {
                    &&& res matches Err(e)
                    &&& unclosed(
                        before,
                        final(r).fills(),
                        old(buf)@,
                        final(buf)@,
                        n,
                        P::unclosed(s),
                        e,
                    )
                },
            }
        }),
{
    let ghost before = r.fills();
    let ghost s = bytes_ahead(before);
    let ghost kept = buf@;
    let ghost mut got = Seq::<u8>::empty();
    let mut parser = parser;
    let mut read: u64 = 0;
    let start: usize = buf.len();
    proof {
        assert(got + s =~= s);
        assert(kept + got =~= kept);
        lemma_stop_nowhere(P::kind(), got);
    }
    loop
        invariant
            keeping(before, r.fills(), kept, buf@, got),
            parser.fed(got),
            stop(P::kind(), got) is None,
            read == got.len() <= s.len(),
            *position == *old(position),
            *old(position) + s.len() <= u64::MAX,
            s == bytes_ahead(before),
            before == old(r).fills(),
            kept == old(buf)@,
            start == kept.len(),
        decreases r.fills().len(),
    {
        let ghost now = r.fills();
        match r.fill_buf() {
            Ok(available) => {
                proof {
                    lemma_filled(now);
                    lemma_passed(before, now, got, 0);
                }
                if available.len() == 0 {
                    // The end of the data
                    proof {
                        assert(s =~= got);
                        assert(s.skip(s.len() as int) =~= bytes_ahead(now));
                    }
                    *position = *position + read;
                    let content = vstd::slice::slice_subrange(buf.as_slice(), start, buf.len());
                    assert(content@ =~= got);
                    return Err(Error::Syntax(parser.eof_error(content)));
                }
                if let Some(i) = parser.feed(available) {
                    proof {
                        lemma_ended(P::kind(), before, now, got);
                        lemma_passed(before, now, got, i as nat);
                        lemma_passed(before, now, got, (i + 1) as nat);
                        assert(kept + (got + available@.take(i as int)) =~= buf@ + available@.take(
                            i as int,
                        ));
                    }
                    append(buf, vstd::slice::slice_subrange(available, 0, i));
                    // +1 for `>` which we do not include
                    r.consume(i + 1);
                    *position = *position + read + i as u64 + 1;
                    return Ok(());
                }
                // The `>` symbol not yet found, continue reading

                proof {
                    lemma_keep(before, now, kept, buf@, got, available@.len());
                    assert(available@.take(available@.len() as int) =~= available@);
                }
                append(buf, available);
                let used: usize = available.len();
                r.consume(used);
                read = read + used as u64;
                proof {
                    got = got + chunk(now);
                }
            },
            Err(e) => {
                proof {
                    lemma_refused(now, e);
                }
                match e {
                    FillError::Interrupted => {},
                    FillError::Failed(e) => {
                        assert(s =~= got);
                        *position = *position + read;
                        return Err(Error::Io(e));
                    },
                }
            },
        }
    }
}

/// Reads markup that starts with `!` up to its `>`, which is consumed, and keeps the bytes before
/// it in the buffer. Returns the kind of the markup.
fn read_bang_element<R: ByteSource>(r: &mut R, buf: &mut Vec<u8>, position: &mut u64) -> (res:
    Result<BangType, Error>)
    requires
        *old(position) + bytes_ahead(old(r).fills()).len() <= u64::MAX,
        chunk(old(r).fills()).len() > 0,
        bytes_ahead(old(r).fills())[0] == BANG,
    ensures
        ({
            let before = old(r).fills();
            let after = final(r).fills();
            let s = bytes_ahead(before);
            let n = *final(position) - *old(position);
            if s.len() == 1 && fault_ahead(before) is Some {
                let fault = fault_ahead(before)->Some_0;
                &&& res matches Err(e)
                &&& e@ == ErrorView::Io(fault.error)
                &&& final(buf)@ == old(buf)@ + s
                &&& n == 0
                &&& after == fault.rest
            } else if s.len() == 1 || bang_kind(s[1]) is None {
                &&& res matches Err(e)
                &&& e@ == ErrorView::Syntax(SyntaxError::InvalidBangMarkup)
                &&& final(buf)@ == old(buf)@ + seq![BANG]
                &&& n == 0
                &&& passed(before, after, 1)
            } else {
                let kind = bang_kind(s[1])->Some_0;
                match stop(kind, s) {
                    Some(i) => {
                        &&& 0 <= i < s.len()
                        &&& final(buf)@ == old(buf)@ + s.take(i)
                        &&& n == i + 1
                        &&& passed(before, after, n)
                        &&& res matches Ok(bang) && bang.kind() == kind
                    },
                    None => {
                        &&& res matches Err(e)
                        &&& unclosed(
                            before,
                            after,
                            old(buf)@,
                            final(buf)@,
                            n,
                            unclosed_bang(kind),
                            e,
                        )
                    },
                }
            }
        }),
{
    // Peeked one bang ('!') before being called, so it's guaranteed to
    // start with it.
    let ghost before = r.fills();
    let ghost s = bytes_ahead(before);
    let ghost kept = buf@;
    let ghost mut got = seq![BANG];
    let start: usize = buf.len();
    let mut read: u64 = 1;
    proof {
        let empty = Seq::<u8>::empty();
        assert(empty + s =~= s);
        assert(kept + empty =~= kept);
        lemma_keep(before, before, kept, kept, empty, 1);
        lemma_passed(before, before, empty, 1);
        assert(chunk(before).take(1) =~= seq![BANG]);
        assert(empty + got =~= got);
        assert(buf@.push(BANG) =~= kept + got);
    }
    buf.push(BANG);
    r.consume(1);
    let second: Option<u8> = match peek_one(r) {
        Ok(second) => second,
        Err(e) => {
            assert(s =~= got);
            return Err(Error::Io(e));
        },
    };
    proof {
        assert(s.skip(1).skip(0) =~= s.skip(1));
        assert(s =~= got + s.skip(1));
    }
    let mut bang_type = match BangType::new(second) {
        Ok(bang_type) => bang_type,
        Err(e) => {
            return Err(Error::Syntax(e));
        },
    };
    let ghost kind = bang_type.kind();
    loop
        invariant
            keeping(before, r.fills(), kept, buf@, got),
            bang_type.fed(got),
            bang_type.kind() == kind,
            s.len() > 1,
            bang_kind(s[1]) == Some(kind),
            read == got.len() <= s.len(),
            *position == *old(position),
            *old(position) + s.len() <= u64::MAX,
            s == bytes_ahead(before),
            before == old(r).fills(),
            kept == old(buf)@,
            start == kept.len(),
        decreases r.fills().len(),
    {
        let ghost now = r.fills();
        match r.fill_buf() {
            Ok(available) => {
                proof {
                    lemma_filled(now);
                    lemma_passed(before, now, got, 0);
                }
                if available.len() == 0 {
                    // The end of the data
                    proof {
                        assert(s =~= got);
                        assert(s.skip(s.len() as int) =~= bytes_ahead(now));
                    }
                    *position = *position + read;
                    return Err(Error::Syntax(bang_type.to_err()));
                }
                // We only parse from start because we don't want to consider
                // whatever is in the buffer before the bang element

                let content = vstd::slice::slice_subrange(buf.as_slice(), start, buf.len());
                assert(content@ =~= got);
                if let Some((bytes, used)) = bang_type.parse(content, available) {
                    proof {
                        lemma_ended(kind, before, now, got);
                        lemma_passed(before, now, got, (used - 1) as nat);
                        lemma_passed(before, now, got, used as nat);
                        assert(kept + (got + bytes@) =~= buf@ + bytes@);
                    }
                    append(buf, bytes);
                    r.consume(used);
                    *position = *position + read + used as u64;
                    return Ok(bang_type);
                }
                proof {
                    lemma_keep(before, now, kept, buf@, got, available@.len());
                    assert(available@.take(available@.len() as int) =~= available@);
                }
                append(buf, available);
                let used: usize = available.len();
                r.consume(used);
                read = read + used as u64;
                proof {
                    got = got + chunk(now);
                }
            },
            Err(e) => {
                proof {
                    lemma_refused(now, e);
                }
                match e {
                    FillError::Interrupted => {},
                    FillError::Failed(e) => {
                        assert(s =~= got);
                        *position = *position + read;
                        return Err(Error::Io(e));
                    },
                }
            },
        }
    }
}

/// Whether a call did what the step says and kept in the buffer what the step keeps.
pub open spec fn takes_into(
    step: Step,
    model: Model,
    kept: Seq<u8>,
    buf: Seq<u8>,
    r: Result<Event, Error>,
) -> bool {
    takes(step, model, r) && buf == kept + step.kept
}

/// The bytes of the buffer from `start` on.
fn tail(buf: &Vec<u8>, start: usize) -> (r: &[u8])
    requires
        start <= buf@.len(),
    ensures
        r@ == buf@.skip(start as int),
{
    let r = vstd::slice::slice_subrange(buf.as_slice(), start, buf.len());
    assert(r@ =~= buf@.skip(start as int));
    r
}

/// This is an implementation for reading from a [`ByteSource`] as underlying byte stream.
impl<R: ByteSource> Reader<R> {
    /// The reader as it is seen by [`Reader::read_event_into()`].
    pub open spec fn stream_model(self) -> Model {
        Model { input: input_ahead(self.source().fills(), false), state: self.state() }
    }

    /// Reads a comment, a CDATA section or a document type declaration from its `!`.
    fn read_bang_into<'b>(&mut self, buf: &'b mut Vec<u8>) -> (r: Result<Event<'b>, Error>)
        requires
            old(self).stream_model().wf(),
            old(self).state().state == ParseState::InsideText,
            old(self).state().offset > 0,
            chunk(old(self).source().fills()).len() > 0,
            old(self).stream_model().input.bytes[0] == BANG,
        ensures
            takes_into(
                bang_step(old(self).stream_model()),
                final(self).stream_model(),
                old(buf)@,
                final(buf)@,
                r,
            ),
    {
        let ghost m = self.stream_model();
        let ghost kept = buf@;
        let ghost s = m.input.bytes;
        let start: u64 = self.state.offset;
        let len: usize = buf.len();
        proof {
            lemma_consumed(self.reader.fills(), 1);
        }
        match read_bang_element(&mut self.reader, buf, &mut self.state.offset) {
            Ok(bang_type) => {
                let bytes = tail(buf, len);
                proof {
                    let i = self.state.offset - start - 1;
                    assert(self.state().opened =~= m.state.opened);
                    assert(self.stream_model() =~= m.advance(i + 1));
                    assert(bytes@ =~= s.take(i));
                }
                self.state.emit_bang(bang_type, bytes)
            },
            Err(e) => {
                assert(self.state().opened =~= m.state.opened);
                // We want to report error at `<`, but offset was increased,
                // so return it back (-1 for `<`)
                self.state.error_at(start - 1);
                Err(e)
            },
        }
    }

    /// Reads an end tag from its `/`.
    fn read_end_into<'b>(&mut self, buf: &'b mut Vec<u8>) -> (r: Result<Event<'b>, Error>)
        requires
            old(self).stream_model().wf(),
            old(self).state().state == ParseState::InsideText,
            old(self).state().offset > 0,
            chunk(old(self).source().fills()).len() > 0,
        ensures
            takes_into(
                end_step(old(self).stream_model()),
                final(self).stream_model(),
                old(buf)@,
                final(buf)@,
                r,
            ),
    {
        let start: u64 = self.state.offset;
        let len: usize = buf.len();
        proof {
            lemma_consumed(self.reader.fills(), 1);
            lemma_skipped_input(self.stream_model().input, 1);
            lemma_tag_decodes(self.stream_model(), 1);
        }
        consume_one(&mut self.reader, &mut self.state.offset);
        proof {
            assert(self.state().opened =~= old(self).state().opened);
            assert(self.stream_model() =~= old(self).stream_model().advance(1));
        }
        let ghost m = self.stream_model();
        let ghost s = m.input.bytes;
        match read_element(&mut self.reader, buf, &mut self.state.offset) {
            Ok(name_len) => {
                let bytes = tail(buf, len);
                proof {
                    let i = self.state.offset - m.state.offset - 1;
                    assert(self.state().opened =~= m.state.opened);
                    assert(self.stream_model() =~= m.advance(i + 1));
                    assert(bytes@ =~= s.take(i));
                    lemma_words(bytes@);
                }
                self.state.emit_end(name_len, bytes)
            },
            Err(e) => {
                assert(self.state().opened =~= m.state.opened);
                // We want to report error at `<`, but offset was increased,
                // so return it back (-1 for `<`)
                self.state.error_at(start - 1);
                Err(e)
            },
        }
    }

    /// Reads a processing instruction or an XML declaration from its `?`.
    fn read_pi_into<'b>(&mut self, buf: &'b mut Vec<u8>) -> (r: Result<Event<'b>, Error>)
        requires
            old(self).stream_model().wf(),
            old(self).state().state == ParseState::InsideText,
            old(self).state().offset > 0,
        ensures
            takes_into(
                pi_step(old(self).stream_model()),
                final(self).stream_model(),
                old(buf)@,
                final(buf)@,
                r,
            ),
    {
        let start: u64 = self.state.offset;
        let len: usize = buf.len();
        let ghost m = self.stream_model();
        let ghost s = m.input.bytes;
        match read_with(&mut self.reader, PiParser(false), buf, &mut self.state.offset) {
            Ok(_) => {
                let bytes = tail(buf, len);
                proof {
                    let i = self.state.offset - m.state.offset - 1;
                    assert(self.state().opened =~= m.state.opened);
                    assert(self.stream_model() =~= m.advance(i + 1));
                    assert(bytes@ =~= s.take(i));
                }
                self.state.emit_question_mark(bytes)
            },
            Err(e) => {
                assert(self.state().opened =~= m.state.opened);
                // We want to report error at `<`, but offset was increased,
                // so return it back (-1 for `<`)
                self.state.error_at(start - 1);
                Err(e)
            },
        }
    }

    /// Reads a start tag or a self-closed tag from the byte after its `<`.
    fn read_start_into<'b>(&mut self, buf: &'b mut Vec<u8>) -> (r: Result<Event<'b>, Error>)
        requires
            old(self).stream_model().wf(),
            old(self).state().state == ParseState::InsideText,
            old(self).state().offset > 0,
        ensures
            takes_into(
                start_step(old(self).stream_model()),
                final(self).stream_model(),
                old(buf)@,
                final(buf)@,
                r,
            ),
    {
        let start: u64 = self.state.offset;
        let len: usize = buf.len();
        let ghost m = self.stream_model();
        let ghost s = m.input.bytes;
        match read_element(&mut self.reader, buf, &mut self.state.offset) {
            Ok(name_len) => {
                let bytes = tail(buf, len);
                proof {
                    let i = self.state.offset - m.state.offset - 1;
                    assert(self.state().opened =~= m.state.opened);
                    assert(self.stream_model() =~= m.advance(i + 1));
                    assert(bytes@ =~= s.take(i));
                    lemma_words(bytes@);
                }
                Ok(self.state.emit_start(name_len, bytes))
            },
            Err(e) => {
                assert(self.state().opened =~= m.state.opened);
                // We want to report error at `<`, but offset was increased,
                // so return it back (-1 for `<`)
                self.state.error_at(start - 1);
                Err(e)
            },
        }
    }

    /// Read bytes up to the `>` and skip it. This method is expected to be called after seeing the
    /// `<` symbol and skipping it. Inspects the next (current) symbol and returns an appropriate
    /// event:
    ///
    /// |Symbol |Event
    /// |-------|-------------------------------------
    /// |`!`    |`Comment`, `CData` or `DocType`
    /// |`/`    |`End`
    /// |`?`    |`PI`
    /// |_other_|`Start` or `Empty`
    ///
    /// Moves parser to the `InsideText` state.
    fn read_until_close_impl<'b>(&mut self, buf: &'b mut Vec<u8>) -> (r: Result<Event<'b>, Error>)
        requires
            old(self).stream_model().wf(),
            old(self).state().state != ParseState::Done,
            old(self).state().offset > 0,
        ensures
            takes_into(
                markup_step(old(self).stream_model()),
                final(self).stream_model(),
                old(buf)@,
                final(buf)@,
                r,
            ),
    {
        reveal(markup_step);
        self.state.goto(ParseState::InsideText);
        let ghost m = self.stream_model();
        assert(m == old(self).stream_model().goto(ParseState::InsideText));
        match peek_one(&mut self.reader) {
            Ok(Some(b)) => {
                assert(m.input.bytes.skip(0) =~= m.input.bytes);
                assert(self.stream_model() == m);
                if b == BANG {
                    // `<!` - comment, CDATA or DOCTYPE declaration
                    self.read_bang_into(buf)
                } else if b == SLASH {
                    // `</` - closing tag
                    self.read_end_into(buf)
                } else if b == QUESTION {
                    // `<?` - processing instruction
                    self.read_pi_into(buf)
                } else {
                    // `<...` - opening or self-closed tag
                    self.read_start_into(buf)
                }
            },
            // `<` - syntax error, tag not closed
            Ok(None) => {
                // We want to report error at `<`, but offset was increased,
                // so return it back (-1 for `<`)
                let start: u64 = self.state.offset;
                self.state.error_at(start - 1);
                assert(m.input.bytes.skip(0) =~= m.input.bytes);
                assert(buf@ + m.input.bytes =~= buf@);
                Err(Error::Syntax(SyntaxError::UnclosedTag))
            },
            Err(e) => {
                assert(buf@ + m.input.bytes =~= buf@);
                Err(Error::Io(e))
            },
        }
    }

    /// Reads a reference from its `&`, or the text up to the next piece if the `&` does not start
    /// a reference.
    fn read_ref_into<'b>(&mut self, buf: &'b mut Vec<u8>) -> (r: Result<Event<'b>, Error>)
        requires
            old(self).stream_model().wf(),
            old(self).state().state != ParseState::Done,
            old(self).stream_model().input.bytes.len() > 0 ==> old(
                self,
            ).stream_model().input.bytes[0] == AMP,
        ensures
            takes_into(
                ref_step(old(self).stream_model()),
                final(self).stream_model(),
                old(buf)@,
                final(buf)@,
                r,
            ),
    {
        reveal(ref_step);
        let ghost m = self.stream_model();
        let ghost s = m.input.bytes;
        let ghost kept = buf@;
        let start: u64 = self.state.offset;
        let len: usize = buf.len();
        let result = read_ref(&mut self.reader, buf, &mut self.state.offset);
        let bytes = tail(buf, len);
        proof {
            assert(self.state().opened =~= m.state.opened);
            assert(s.take(s.len() as int) =~= s);
            assert(kept + bytes@ =~= buf@);
            match stop(Scan::Reference, s) {
                Some(i) => assert(bytes@ =~= s.take(i)),
                None => assert(bytes@ =~= s),
            }
        }
        let ghost n = self.state.offset - m.state.offset;
        match result {
            // Emit reference, go to InsideText state
            ReadRefResult::Ref => {
                assert(self.stream_model() =~= m.advance(n));
                self.state.goto(ParseState::InsideText);
                // +1 to skip start `&`
                let content = vstd::slice::slice_subrange(bytes, 1, bytes.len());
                assert(content@ =~= s.subrange(1, n - 1));
                Ok(Event::GeneralRef(BytesRef::wrap(content, self.state.decoder())))
            },
            // Go to Done state
            ReadRefResult::UpToEof => {
                assert(self.stream_model() =~= m.drain());
                self.state.goto(ParseState::Done);
                self.state.emit_dangling(start, bytes)
            },
            // Go to InsideRef state or stay in it
            ReadRefResult::UpToRef => {
                assert(self.stream_model() =~= m.advance(n));
                self.state.goto(ParseState::InsideRef);
                self.state.emit_dangling(start, bytes)
            },
            // Go to InsideMarkup state
            ReadRefResult::UpToMarkup => {
                assert(self.stream_model() =~= m.advance(n));
                self.state.goto(ParseState::InsideMarkup);
                self.state.emit_dangling(start, bytes)
            },
            ReadRefResult::Failed(e) => Err(Error::Io(e)),
        }
    }

    /// Reads text, or the markup or the reference that stands in its place.
    fn read_text_into<'b>(&mut self, buf: &'b mut Vec<u8>) -> (r: Result<Event<'b>, Error>)
        requires
            old(self).stream_model().wf(),
            old(self).state().state == ParseState::InsideText,
        ensures
            takes_into(
                text_step(old(self).stream_model()),
                final(self).stream_model(),
                old(buf)@,
                final(buf)@,
                r,
            ),
    {
        reveal(text_step);
        let ghost m = self.stream_model();
        let ghost s = m.input.bytes;
        let ghost kept = buf@;
        let len: usize = buf.len();
        let result = read_text(&mut self.reader, buf, &mut self.state.offset);
        let ghost n = self.state.offset - m.state.offset;
        proof {
            assert(self.state().opened =~= m.state.opened);
            assert(kept + s.take(0) =~= kept);
            assert(!(result is Failed) ==> self.stream_model() =~= m.advance(n));
            lemma_skipped_input(m.input, n);
        }
        match result {
            // Text that is empty after trimming its end is passed over
            ReadTextResult::UpToMarkup => {
                let bytes = tail(buf, len);
                assert(bytes@ =~= s.take(n - 1));
                if self.state.emit_text(bytes).is_empty() {
                    proof {
                        let after = markup_step(m.advance(n)).kept;
                        assert((kept + s.take(n - 1)) + after =~= kept + (s.take(n - 1) + after));
                    }
                    self.read_until_close_impl(buf)
                } else {
                    self.state.goto(ParseState::InsideMarkup);
                    Ok(Event::Text(self.state.emit_text(tail(buf, len))))
                }
            },
            ReadTextResult::UpToRef => {
                proof {
                    lemma_stop(Scan::Text, s);
                    assert(stops(Scan::Text, s, n));
                    assert(s.skip(n)[0] == s[n]);
                }
                let bytes = tail(buf, len);
                assert(bytes@ =~= s.take(n));
                if self.state.emit_text(bytes).is_empty() {
                    proof {
                        let after = ref_step(m.advance(n)).kept;
                        assert((kept + s.take(n)) + after =~= kept + (s.take(n) + after));
                    }
                    self.read_ref_into(buf)
                } else {
                    self.state.goto(ParseState::InsideRef);
                    Ok(Event::Text(self.state.emit_text(tail(buf, len))))
                }
            },
            ReadTextResult::UpToEof => {
                self.state.goto(ParseState::Done);
                let bytes = tail(buf, len);
                assert(bytes@ =~= s);
                // Trim bytes from end if required
                let event = self.state.emit_text(bytes);
                if event.is_empty() {
                    Ok(Event::Eof)
                } else {
                    Ok(Event::Text(event))
                }
            },
            ReadTextResult::Failed(e) => Err(Error::Io(e)),
        }
    }

    /// Looks at the first bytes of the document and goes to the `InsideText` state.
    ///
    /// An encoding that was set explicitly stays, as it does in a reader that was created with
    /// `from_str`, but a byte order mark is removed all the same.
    fn look_at_start_into(&mut self) -> (r: Result<(), std::io::Error>)
        requires
            old(self).stream_model().wf(),
            old(self).state().state == ParseState::Init,
        ensures
            ({
                let m = old(self).stream_model();
                let head = chunk_ahead(old(self).source().fills());
                match r {
                    Ok(_) => {
                        &&& head.len() > 0 || m.input.fault is None
                        &&& final(self).stream_model() == after_bom(m, head)
                    },
                    Err(e) => {
                        &&& head.len() == 0
                        &&& m.input.fault matches Some(fault)
                        &&& fault.error == e
                        &&& final(self).stream_model() == m.fail(fault)
                    },
                }
            }),
    {
        let ghost m = self.stream_model();
        let ghost head = chunk_ahead(self.reader.fills());
        assert(m.input.bytes.skip(0) =~= m.input.bytes);
        if self.state.detect {
            match detect_encoding(&mut self.reader, &mut self.state.offset) {
                Ok(Some(encoding)) => {
                    if self.state.encoding.can_be_refined() {
                        self.state.encoding = EncodingRef::BomDetected(encoding);
                    }
                },
                Ok(None) => {},
                Err(e) => {
                    return Err(e);
                },
            }
        } else {
            match remove_utf8_bom(&mut self.reader, &mut self.state.offset) {
                Ok(_) => {},
                Err(e) => {
                    return Err(e);
                },
            }
        }
        self.state.state = ParseState::InsideText;
        assert(self.state().opened =~= m.state.opened);
        assert(self.stream_model() =~= after_bom(m, head));
        Ok(())
    }

    /// Goes to the `Done` state if reading cannot go on after the event.
    fn settled_into<'b>(&mut self, event: Result<Event<'b>, Error>) -> (r: Result<
        Event<'b>,
        Error,
    >)
        ensures
            forall|step: Step| #[trigger]
                takes(step, old(self).stream_model(), event) ==> takes(
                    settle(step),
                    final(self).stream_model(),
                    r,
                ) && settle(step).kept == step.kept,
    {
        self.state.settle(&event);
        event
    }

    /// Reads an event after the first bytes of the document were looked at.
    fn read_started_into<'b>(&mut self, buf: &'b mut Vec<u8>) -> (r: Result<Event<'b>, Error>)
        requires
            old(self).stream_model().wf(),
            old(self).state().state != ParseState::Init,
        ensures
            takes_into(
                started_step(old(self).stream_model()),
                final(self).stream_model(),
                old(buf)@,
                final(buf)@,
                r,
            ),
            old(self).state().state == ParseState::Done || old(self).state().state
                == ParseState::InsideEmpty ==> final(self).source() == old(self).source(),
    {
        let ghost m = self.stream_model();
        assert(buf@ + Seq::<u8>::empty() =~= buf@);
        match self.state.state {
            ParseState::InsideRef => {
                let event = self.read_ref_into(buf);
                self.settled_into(event)
            },
            ParseState::InsideText => {
                assert(m.input.bytes.skip(0) =~= m.input.bytes);
                // Go to InsideMarkup or Done state
                if self.state.config.trim_text_start {
                    if let Err(e) = skip_whitespace(&mut self.reader, &mut self.state.offset) {
                        proof {
                            assert(self.state().opened =~= m.state.opened);
                            lemma_failed_at_text(m.advance(trimmed(m)));
                        }
                        let event = Err(Error::Io(e));
                        assert(takes(
                            text_step(m.advance(trimmed(m))),
                            self.stream_model(),
                            event,
                        ));
                        return self.settled_into(event);
                    }
                }
                proof {
                    assert(self.state().opened =~= m.state.opened);
                    assert(self.stream_model() =~= m.advance(trimmed(m)));
                    lemma_skipped_input(m.input, trimmed(m));
                }
                let event = self.read_text_into(buf);
                self.settled_into(event)
            },
            // Go to InsideText state in next two arms
            ParseState::InsideMarkup => {
                let event = self.read_until_close_impl(buf);
                self.settled_into(event)
            },
            ParseState::InsideEmpty => Ok(Event::End(self.state.close_expanded_empty())),
            _ => {
                self.state.goto(ParseState::Done);
                Ok(Event::Eof)
            },
        }
    }

    /// Reads the next `Event`.
    ///
    /// This is the main entry point for reading XML events.
    ///
    /// `Event`s borrow `buf` and can be converted to own their data if needed.
    ///
    /// Having the possibility to control the internal buffers gives you some additional benefits
    /// such as:
    ///
    /// - Reduce the number of allocations by reusing the same buffer. For constrained systems,
    ///   you can call `buf.clear()` once you are done with processing the event (typically at the
    ///   end of your loop).
    /// - Reserve the buffer length if you know the file size (using `Vec::with_capacity`).
    pub fn read_event_into<'b>(&mut self, buf: &'b mut Vec<u8>) -> (r: Result<Event<'b>, Error>)
        requires
            old(self).stream_model().wf(),
        ensures
            takes_into(
                next_step(old(self).stream_model(), chunk_ahead(old(self).source().fills())),
                final(self).stream_model(),
                old(buf)@,
                final(buf)@,
                r,
            ),
            old(self).state().state == ParseState::Done || old(self).state().state
                == ParseState::InsideEmpty ==> final(self).source() == old(self).source(),
            final(self).stream_model().wf(),
            forall|n: nat|
                old(self).state().can_decode(n) ==> #[trigger] final(self).state().can_decode(n),
    {
        let ghost m = self.stream_model();
        let ghost head = chunk_ahead(self.reader.fills());
        proof {
            lemma_chunk_ahead(self.reader.fills());
            lemma_next_step(m, head);
            reveal(keeps);
            reveal(next_step);
            if m.state.state == ParseState::Init {
                lemma_bom(m, head);
            }
            assert(buf@ + Seq::<u8>::empty() =~= buf@);
        }
        if let ParseState::Init = self.state.state {
            // Go to InsideText state
            if let Err(e) = self.look_at_start_into() {
                proof {
                    lemma_chunk_ahead(old(self).source().fills());
                    let start = after_bom(m, head);
                    assert(start.input.bytes =~= m.input.bytes);
                    lemma_failed_at_text(start.advance(trimmed(start)));
                }
                self.state.goto(ParseState::Done);
                return Err(Error::Io(e));
            }
        }
        self.read_started_into(buf)
    }

    /// Reads until end element is found using provided buffer as intermediate storage for events
    /// content. This function is supposed to be called after you already read a `Start` event.
    ///
    /// Returns a span that covers the content between the `>` of an opening tag and the `<` of a
    /// closing tag, or an empty span if `expand_empty_elements` is set and this method was called
    /// after reading an expanded `Start` event.
    ///
    /// Manages nested cases where parent and child elements have the _literally_ same name.
    ///
    /// If a corresponding `End` event is not found, the error `MissingEndTag` is returned, in
    /// particular if this method is called without consuming the corresponding `Start` event
    /// first.
    ///
    /// The provided buffer is cleared before every event is read, so it holds the content of at
    /// most one event.
    ///
    /// The `end_name` parameter should contain name of the end element _in the reader encoding_.
    /// It is good practice to always get that parameter using `BytesStart::to_end()` method.
    ///
    /// The names of the skipped end tags are not checked if the `check_end_names` option is
    /// disabled.
    pub fn read_to_end_into(&mut self, end_name: QName, buf: &mut Vec<u8>) -> (r: Result<
        Span,
        Error,
    >)
        requires
            old(self).stream_model().wf(),
            old(self).state().can_decode(end_name@.len()),
        ensures
            ({
                let head = chunk_ahead(old(self).source().fills());
                let skipped = to_end(old(self).stream_model(), head, end_name@);
                &&& final(self).stream_model() == skipped.model
                &&& final(buf)@ == skipped.kept
                &&& spans(old(self).state().position(), skipped.result, r)
            }),
            old(self).state().state == ParseState::Done ==> final(self).source() == old(
                self,
            ).source(),
            final(self).stream_model().wf(),
            forall|n: nat|
                old(self).state().can_decode(n) ==> #[trigger] final(self).state().can_decode(n),
    {
        // Because we take position after the event before the End event,
        // it is important that this position indicates beginning of the End event.
        // If between last event and the End event would be only spaces, then we
        // take position before the spaces, but spaces would be skipped without
        // generating event if text is trimmed. To prevent that we temporary disable
        // text trimming.
        //
        // We also cannot take position after getting End event, because if
        // `trim_markup_names_in_closing_tags` is set to `true` (which is the default),
        // we do not known the real size of the End event that it is occupies in
        // the source and cannot correct the position after the End event.
        // So, we in any case should tweak parser configuration.
        let mut untrimmed_config = self.state.config;
        untrimmed_config.trim_text(false);
        let config = self.state.configure(untrimmed_config);
        let ghost m = self.stream_model();
        let ghost head = chunk_ahead(self.reader.fills());
        let ghost skipped = skip_element(m, head, end_name@, 0);
        let ghost all = to_end(old(self).stream_model(), head, end_name@);
        proof {
            assert(m =~= old(self).stream_model().untrimmed());
            lemma_chunk_ahead(self.reader.fills());
            lemma_to_end(old(self).stream_model(), head, end_name@);
        }
        let start: u64 = self.buffer_position();
        let mut depth: u64 = 0;
        loop
            invariant
                old(self).state().state == ParseState::Done ==> self.state().state
                    == ParseState::Done && self.source() == old(self).source(),
                self.stream_model().wf(),
                heads(self.stream_model(), head),
                self.state().state == ParseState::Init ==> chunk_ahead(self.source().fills())
                    == head,
                self.state().can_decode(end_name@.len()),
                skip_element(self.stream_model(), head, end_name@, depth as nat) == skipped,
                depth + self.stream_model().input.bytes.len() <= m.input.bytes.len(),
                m.input.bytes.len() <= u64::MAX || self.state().state == ParseState::Done,
                start == old(self).state().position(),
                skipped.model.configured(config) == all.model,
                skipped.kept == all.kept,
                skipped.result == all.result,
                head == chunk_ahead(old(self).source().fills()),
                all == to_end(old(self).stream_model(), head, end_name@),
                forall|n: nat|
                    old(self).state().can_decode(n) ==> #[trigger] all.model.state.can_decode(n),
            decreases measure(self.stream_model()),
        {
            let ghost before = self.stream_model();
            let ghost given = chunk_ahead(self.reader.fills());
            proof {
                lemma_skip_step(before, head);
                lemma_head(before, given, head);
            }
            buf.clear();
            let ghost kept = buf@;
            let end: u64 = self.buffer_position();
            let event = self.read_event_into(buf);
            proof {
                assert(self.state().can_decode(end_name@.len()));
                assert(kept + next_step(before, head).kept =~= next_step(before, head).kept);
            }
            match event {
                Err(e) => {
                    self.state.configure(config);
                    return Err(e);
                },
                Ok(event) => match event_nesting(&event, end_name) {
                    Nesting::Deeper => {
                        depth += 1;
                    },
                    Nesting::Shallower => {
                        if depth == 0 {
                            self.state.configure(config);
                            return Ok(start..end);
                        }
                        depth -= 1;
                    },
                    Nesting::Ended => {
                        self.state.configure(config);
                        return Err(Error::missed_end(end_name, self.state.decoder()));
                    },
                    Nesting::Same => {},
                },
            }
        }
    }
}

} // verus!
