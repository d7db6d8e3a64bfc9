//! Sources of data that are read in chunks.

use vstd::prelude::*;

use crate::parser::scan::{stop, Scan};

verus! {

/// Why a source of data gave no bytes.
#[derive(Debug)]
pub enum FillError {
    /// The read was interrupted and can be tried again.
    Interrupted,
    /// The read failed.
    Failed(std::io::Error),
}

/// What a source of data gives when it is asked for bytes.
pub enum Fill {
    /// Some bytes, which the source gives until they are consumed. No bytes at all are the end of
    /// the data.
    Chunk(Seq<u8>),
    /// An interruption, once.
    Interrupted,
    /// An error, once.
    Failed(std::io::Error),
}

/// The bytes that the first of the fills gives.
pub open spec fn chunk(fills: Seq<Fill>) -> Seq<u8> {
    if fills.len() == 0 {
        Seq::empty()
    } else {
        match fills[0] {
            Fill::Chunk(bytes) => bytes,
            _ => Seq::empty(),
        }
    }
}

/// The fills after `n` bytes of the first one were consumed.
pub open spec fn consumed(fills: Seq<Fill>, n: nat) -> Seq<Fill> {
    if n == 0 {
        fills
    } else if n == chunk(fills).len() {
        fills.drop_first()
    } else {
        fills.update(0, Fill::Chunk(chunk(fills).skip(n as int)))
    }
}

/// Whether `e` is what the source gives instead of bytes.
pub open spec fn refused(fills: Seq<Fill>, e: FillError) -> bool {
    &&& fills.len() > 0
    &&& match e {
        FillError::Interrupted => fills[0] is Interrupted,
        FillError::Failed(error) => fills[0] == Fill::Failed(error),
    }
}

/// Whether the source gives bytes, or is at the end of the data.
pub open spec fn filled(fills: Seq<Fill>) -> bool {
    fills.len() == 0 || fills[0] is Chunk
}

/// Whether a read that returns `r` gives the bytes that lie ahead, one after another. `before` and
/// `after` are what the source is going to give, `old_buf` and `buf` what is in the buffer. A read
/// of no bytes is the end of the data, unless the buffer is empty.
pub open spec fn reads_ahead(
    before: Seq<Fill>,
    after: Seq<Fill>,
    old_buf: Seq<u8>,
    buf: Seq<u8>,
    r: Result<usize, FillError>,
) -> bool {
    let s = bytes_ahead(before);
    &&& buf.len() == old_buf.len()
    &&& match r {
        Ok(n) => {
            &&& n <= old_buf.len()
            &&& n <= s.len()
            &&& buf == s.take(n as int) + old_buf.skip(n as int)
            &&& bytes_ahead(after) == s.skip(n as int)
            &&& fault_ahead(after) == fault_ahead(before)
            &&& n == 0 && old_buf.len() > 0 ==> s.len() == 0 && fault_ahead(before) is None
        },
        Err(FillError::Interrupted) => {
            &&& bytes_ahead(after) == s
            &&& fault_ahead(after) == fault_ahead(before)
        },
        Err(FillError::Failed(error)) => {
            &&& s.len() == 0
            &&& fault_ahead(before) == Some(Fault { error, rest: after })
        },
    }
}

/// A source of data.
pub trait ByteReader: Sized {
    /// What the source is going to give. A source that does not define it gives something, of
    /// which nothing is known but what the methods promise.
    open spec fn fills(&self) -> Seq<Fill> {
        arbitrary::<spec_fn(Self) -> Seq<Fill>>()(*self)
    }

    /// Whether a read can bring the source to `next` and change the contents of the buffer from
    /// `old_buf` to `buf`, and return `r`. A source that does not define it can do anything that
    /// [`read()`](Self::read) allows.
    open spec fn reads(
        &self,
        next: Self,
        old_buf: Seq<u8>,
        buf: Seq<u8>,
        r: Result<usize, FillError>,
    ) -> bool {
        true
    }

    /// Moves some bytes from the source to the start of `buf`. Returns the number of bytes.
    fn read(&mut self, buf: &mut [u8]) -> (r: Result<usize, FillError>)
        ensures
            old(self).reads(*final(self), old(buf)@, final(buf)@, r),
            reads_ahead(old(self).fills(), final(self).fills(), old(buf)@, final(buf)@, r),
    ;
}

/// A source of data with a buffer. A reader takes what is in the buffer and tells how much of it
/// was consumed.
pub trait ByteSource: ByteReader {
    /// Returns the contents of the internal buffer, filling it with more data if it is empty. An
    /// empty buffer is the end of the data.
    fn fill_buf(&mut self) -> (r: Result<&[u8], FillError>)
        ensures
            match r {
                Ok(bytes) => {
                    &&& filled(old(self).fills())
                    &&& bytes@ == chunk(old(self).fills())
                    &&& final(self).fills() == old(self).fills()
                },
                Err(e) => {
                    &&& refused(old(self).fills(), e)
                    &&& final(self).fills() == old(self).fills().drop_first()
                },
            },
    ;

    /// Tells that `amt` bytes of the buffer were consumed and shall not be returned again.
    fn consume(&mut self, amt: usize)
        requires
            amt <= chunk(old(self).fills()).len(),
        ensures
            final(self).fills() == consumed(old(self).fills(), amt as nat),
    ;
}

/// Copies the first `n` of `bytes` to the start of `buf`.
fn copy_bytes(buf: &mut [u8], bytes: &[u8], n: usize)
    requires
        n <= bytes@.len(),
        n <= old(buf)@.len(),
    ensures
        final(buf)@ == bytes@.take(n as int) + old(buf)@.skip(n as int),
{
    let mut i: usize = 0;
    assert(buf@ =~= bytes@.take(0) + old(buf)@.skip(0));
    while i < n
        invariant
            i <= n <= bytes@.len(),
            n <= old(buf)@.len(),
            buf@ == bytes@.take(i as int) + old(buf)@.skip(i as int),
        decreases n - i,
    {
        buf[i] = bytes[i];
        i += 1;
        assert(buf@ =~= bytes@.take(i as int) + old(buf)@.skip(i as int));
    }
}

impl<'a> ByteReader for &'a [u8] {
    open spec fn fills(&self) -> Seq<Fill> {
        if self@.len() == 0 {
            Seq::empty()
        } else {
            seq![Fill::Chunk(self@)]
        }
    }

    /// As many bytes are moved as there are and as there is room for.
    open spec fn reads(
        &self,
        next: Self,
        old_buf: Seq<u8>,
        buf: Seq<u8>,
        r: Result<usize, FillError>,
    ) -> bool {
        &&& r matches Ok(n)
        &&& n == if self@.len() <= old_buf.len() {
            self@.len()
        } else {
            old_buf.len()
        }
        &&& buf == self@.take(n as int) + old_buf.skip(n as int)
        &&& next@ == self@.skip(n as int)
    }

    fn read(&mut self, buf: &mut [u8]) -> (r: Result<usize, FillError>) {
        let bytes: &'a [u8] = *self;
        let n: usize = if bytes.len() <= buf.len() {
            bytes.len()
        } else {
            buf.len()
        };
        copy_bytes(buf, bytes, n);
        *self = vstd::slice::slice_subrange(bytes, n, bytes.len());
        proof {
            assert(self@ =~= bytes@.skip(n as int));
            lemma_slice_ahead(bytes);
            lemma_slice_ahead(*self);
        }
        Ok(n)
    }
}

impl<'a> ByteSource for &'a [u8] {
    fn fill_buf(&mut self) -> (r: Result<&[u8], FillError>) {
        Ok(*self)
    }

    fn consume(&mut self, amt: usize) {
        let bytes: &'a [u8] = *self;
        *self = vstd::slice::slice_subrange(bytes, amt, bytes.len());
        assert(self@ =~= bytes@.skip(amt as int));
        assert(bytes@.skip(0) =~= bytes@);
        assert(self.fills() =~= consumed(old(self).fills(), amt as nat));
    }
}

/// An error that cuts the data in two.
#[verifier::ext_equal]
pub struct Fault {
    /// The error.
    pub error: std::io::Error,
    /// What the source is going to give after the error.
    pub rest: Seq<Fill>,
}

/// What lies ahead of a reader.
#[verifier::ext_equal]
pub struct Input {
    /// The bytes up to the end of the data or the first error.
    pub bytes: Seq<u8>,
    /// The first error.
    pub fault: Option<Fault>,
    /// Whether the bytes of markup that does not end are left in the source.
    pub retains: bool,
}

/// The number of all bytes that a source is going to give.
pub open spec fn total(fills: Seq<Fill>) -> nat
    decreases fills.len(),
{
    if fills.len() == 0 {
        0
    } else {
        chunk(fills).len() + total(fills.drop_first())
    }
}

/// Whether a tag at the start of `s` is short enough to be decoded from any encoding.
pub open spec fn tag_fits(s: Seq<u8>) -> bool {
    stop(Scan::Tag, s) matches Some(i) ==> 4 * i + 64 <= isize::MAX
}

/// Whether all tags in `s` are short enough to be decoded from any encoding.
pub open spec fn tags_fit(s: Seq<u8>) -> bool {
    forall|p: int| 0 <= p <= s.len() ==> #[trigger] tag_fits(s.skip(p))
}

impl Input {
    /// Whether all tags ahead are short enough to be decoded from any encoding.
    #[verifier::opaque]
    pub open spec fn tags_fit(self) -> bool {
        &&& tags_fit(self.bytes)
        &&& self.fault matches Some(fault) ==> forall|k: int|
            0 <= k <= fault.rest.len() ==> tags_fit(bytes_ahead(#[trigger] fault.rest.skip(k)))
    }

    /// The number of bytes ahead, those behind the error included.
    pub open spec fn extent(self) -> nat {
        match self.fault {
            Some(fault) => self.bytes.len() + total(fault.rest),
            None => self.bytes.len(),
        }
    }

    /// What lies ahead after `n` bytes were consumed.
    pub open spec fn skip(self, n: int) -> Input {
        Input { bytes: self.bytes.skip(n), ..self }
    }
}

/// The bytes ahead up to the end of the data or the first error.
pub open spec fn bytes_ahead(fills: Seq<Fill>) -> Seq<u8>
    decreases fills.len(),
{
    if fills.len() == 0 {
        Seq::empty()
    } else {
        match fills[0] {
            Fill::Chunk(bytes) => if bytes.len() == 0 {
                Seq::empty()
            } else {
                bytes + bytes_ahead(fills.drop_first())
            },
            Fill::Interrupted => bytes_ahead(fills.drop_first()),
            Fill::Failed(_) => Seq::empty(),
        }
    }
}

/// The first error ahead.
pub open spec fn fault_ahead(fills: Seq<Fill>) -> Option<Fault>
    decreases fills.len(),
{
    if fills.len() == 0 {
        None
    } else {
        match fills[0] {
            Fill::Chunk(bytes) => if bytes.len() == 0 {
                None
            } else {
                fault_ahead(fills.drop_first())
            },
            Fill::Interrupted => fault_ahead(fills.drop_first()),
            Fill::Failed(error) => Some(Fault { error, rest: fills.drop_first() }),
        }
    }
}

/// The bytes that the source gives next; none at the end of the data or before an error.
pub open spec fn chunk_ahead(fills: Seq<Fill>) -> Seq<u8>
    decreases fills.len(),
{
    if fills.len() > 0 && fills[0] is Interrupted {
        chunk_ahead(fills.drop_first())
    } else {
        chunk(fills)
    }
}

/// What lies ahead of a reader that reads from a source.
pub open spec fn input_ahead(fills: Seq<Fill>, retains: bool) -> Input {
    Input { bytes: bytes_ahead(fills), fault: fault_ahead(fills), retains }
}

/// What lies ahead in a slice.
pub proof fn lemma_slice_ahead(bytes: &[u8])
    ensures
        bytes_ahead(bytes.fills()) == bytes@,
        fault_ahead(bytes.fills()) is None,
        chunk_ahead(bytes.fills()) == bytes@,
{
    reveal_with_fuel(bytes_ahead, 2);
    reveal_with_fuel(fault_ahead, 2);
    if bytes@.len() > 0 {
        assert(bytes@ + Seq::<u8>::empty() =~= bytes@);
    } else {
        assert(bytes@ =~= Seq::<u8>::empty());
    }
}

/// What lies ahead is not more than what the source is going to give.
proof fn lemma_extent(fills: Seq<Fill>, retains: bool)
    ensures
        input_ahead(fills, retains).extent() <= total(fills),
    decreases fills.len(),
{
    if fills.len() > 0 {
        lemma_extent(fills.drop_first(), retains);
    }
}

/// What the source is going to give after an error is among what it is going to give.
proof fn lemma_rest(fills: Seq<Fill>) -> (k: int)
    ensures
        fault_ahead(fills) matches Some(fault) ==> 0 <= k <= fills.len() && fault.rest
            == fills.skip(k),
    decreases fills.len(),
{
    if fills.len() == 0 {
        0
    } else if fills[0] is Failed {
        assert(fills.drop_first() =~= fills.skip(1));
        1
    } else {
        let k = lemma_rest(fills.drop_first());
        if 0 <= k <= fills.len() - 1 {
            assert(fills.drop_first().skip(k) =~= fills.skip(k + 1));
        }
        k + 1
    }
}

/// What lies ahead after an error.
pub(crate) proof fn lemma_failed_input(input: Input, fault: Fault, retains: bool)
    requires
        input.fault == Some(fault),
    ensures
        input.bytes.len() + input_ahead(fault.rest, retains).extent() <= input.extent(),
        input.tags_fit() ==> input_ahead(fault.rest, retains).tags_fit(),
{
    lemma_extent(fault.rest, retains);
    if input.tags_fit() {
        reveal(Input::tags_fit);
        let next = input_ahead(fault.rest, retains);
        assert(fault.rest.skip(0) =~= fault.rest);
        if let Some(later) = next.fault {
            let j = lemma_rest(fault.rest);
            assert forall|k: int| 0 <= k <= later.rest.len() implies tags_fit(
                bytes_ahead(#[trigger] later.rest.skip(k)),
            ) by {
                assert(later.rest.skip(k) =~= fault.rest.skip(j + k));
            }
        }
    }
}

/// What lies ahead after some bytes were consumed.
pub(crate) proof fn lemma_skipped_input(input: Input, n: int)
    requires
        0 <= n <= input.bytes.len(),
    ensures
        input.skip(n).extent() == input.extent() - n,
        input.tags_fit() ==> input.skip(n).tags_fit(),
{
    if input.tags_fit() {
        reveal(Input::tags_fit);
        let s = input.bytes.skip(n);
        assert forall|p: int| 0 <= p <= s.len() implies #[trigger] tag_fits(s.skip(p)) by {
            assert(s.skip(p) =~= input.bytes.skip(n + p));
        }
    }
}

/// Consuming bytes takes them from what lies ahead.
pub proof fn lemma_consumed(fills: Seq<Fill>, n: nat)
    requires
        n <= chunk(fills).len(),
    ensures
        n <= bytes_ahead(fills).len(),
        bytes_ahead(consumed(fills, n)) == bytes_ahead(fills).skip(n as int),
        fault_ahead(consumed(fills, n)) == fault_ahead(fills),
        bytes_ahead(fills).take(n as int) == chunk(fills).take(n as int),
        n == chunk(fills).len() && n > 0 ==> consumed(fills, n).len() == fills.len() - 1,
{
    let c = chunk(fills);
    let f = consumed(fills, n);
    if n == 0 {
        assert(bytes_ahead(fills).skip(0) =~= bytes_ahead(fills));
        assert(bytes_ahead(fills).take(0) =~= c.take(0));
    } else {
        assert(fills[0] == Fill::Chunk(c));
        assert(bytes_ahead(fills) == c + bytes_ahead(fills.drop_first()));
        if n < c.len() {
            assert(f[0] == Fill::Chunk(c.skip(n as int)));
            assert(f.drop_first() =~= fills.drop_first());
        }
        assert(bytes_ahead(f) =~= bytes_ahead(fills).skip(n as int));
        assert(bytes_ahead(fills).take(n as int) =~= c.take(n as int));
    }
}

/// The bytes that a source gives are the first bytes that lie ahead.
pub proof fn lemma_filled(fills: Seq<Fill>)
    requires
        filled(fills),
    ensures
        chunk(fills).len() <= bytes_ahead(fills).len(),
        forall|i: int| 0 <= i < chunk(fills).len() ==> chunk(fills)[i] == bytes_ahead(fills)[i],
        chunk(fills).len() == 0 ==> bytes_ahead(fills).len() == 0 && fault_ahead(fills) is None,
        chunk_ahead(fills) == chunk(fills),
{
}

/// An interruption changes nothing that lies ahead, and nothing lies ahead of an error.
pub proof fn lemma_refused(fills: Seq<Fill>, e: FillError)
    requires
        refused(fills, e),
    ensures
        match e {
            FillError::Interrupted => {
                &&& bytes_ahead(fills.drop_first()) == bytes_ahead(fills)
                &&& fault_ahead(fills.drop_first()) == fault_ahead(fills)
                &&& chunk_ahead(fills.drop_first()) == chunk_ahead(fills)
            },
            FillError::Failed(error) => {
                &&& bytes_ahead(fills).len() == 0
                &&& fault_ahead(fills) == Some(Fault { error, rest: fills.drop_first() })
                &&& chunk_ahead(fills).len() == 0
            },
        },
{
}

/// The next chunk is a prefix of what lies ahead.
pub proof fn lemma_chunk_ahead(fills: Seq<Fill>)
    ensures
        chunk_ahead(fills).len() <= bytes_ahead(fills).len(),
        bytes_ahead(fills).take(chunk_ahead(fills).len() as int) == chunk_ahead(fills),
        chunk_ahead(fills).len() == 0 ==> bytes_ahead(fills).len() == 0,
    decreases fills.len(),
{
    if fills.len() > 0 && fills[0] is Interrupted {
        lemma_chunk_ahead(fills.drop_first());
    } else {
        assert(bytes_ahead(fills).take(chunk(fills).len() as int) =~= chunk(fills));
    }
}

} // verus!
