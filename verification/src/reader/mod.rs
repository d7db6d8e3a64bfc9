//! Contains high-level interface for a pull-based XML parser.

pub mod agreement;
pub mod bang;
pub mod buffered_reader;
pub mod calls;
pub mod config;
pub mod contents;
pub mod elements;
pub mod grammar;
pub mod laws;
pub mod matching;
pub mod model;
mod search;
pub mod slice_reader;
pub mod source;
pub mod state;
pub mod steps;
pub mod tiling;
pub mod to_end;

pub use bang::BangType;
pub use config::Config;

use vstd::prelude::*;

use crate::encoding::{utf_8, Decoder, Encoding};
use crate::reader::source::{
    chunk, consumed, filled, reads_ahead, refused, ByteReader, ByteSource, FillError,
};
use crate::reader::state::{ReaderState, StateView};

verus! {

/// Possible reader states.
#[derive(Clone, Copy, Debug, PartialEq, Eq, Structural)]
pub enum ParseState {
    /// Initial state in which reader stay after creation. The reader will never return to this
    /// state.
    Init,
    /// State after seeing the `&` symbol in textual content. After generating one event the
    /// reader moves to the `InsideText` state.
    InsideRef,
    /// State after seeing the `<` symbol. After generating one event the reader moves to the
    /// `InsideText` state.
    InsideMarkup,
    /// State in which reader searches the `<` symbol of a markup. All bytes before that symbol
    /// will be returned in the text event. After that the reader moves to the `InsideMarkup`
    /// state.
    InsideText,
    /// This state is used only if option `expand_empty_elements` is set to `true`. The next
    /// event emitted will be an end event, after which reader returned to the `InsideText`
    /// state.
    InsideEmpty,
    /// Reader enters this state when end of file event generated or an error occurred. This is
    /// the last state, the reader stay in it forever.
    Done,
}

/// An encoding together with information about how it was retrieved.
#[derive(Clone, Copy, Debug)]
pub enum EncodingRef {
    /// Encoding was implicitly assumed to have a specified value. It can be refined using BOM or
    /// by the XML declaration event (`<?xml encoding=... ?>`)
    Implicit(Encoding),
    /// Encoding was explicitly set to the desired value. It cannot be changed nor by BOM, nor by
    /// parsing XML declaration (`<?xml encoding=... ?>`)
    Explicit(Encoding),
    /// Encoding was detected from a byte order mark (BOM) or by the first bytes of the content.
    /// It can be refined by the XML declaration event (`<?xml encoding=... ?>`)
    BomDetected(Encoding),
    /// Encoding was detected using XML declaration event (`<?xml encoding=... ?>`). It can no
    /// longer change
    XmlDetected(Encoding),
}

/// What an [`EncodingRef`] says; an encoding is known by its name.
#[verifier::ext_equal]
pub enum EncodingView {
    Implicit(Seq<char>),
    Explicit(Seq<char>),
    BomDetected(Seq<char>),
    XmlDetected(Seq<char>),
}

impl EncodingView {
    /// The name of the encoding.
    pub open spec fn name(self) -> Seq<char> {
        match self {
            EncodingView::Implicit(e) => e,
            EncodingView::Explicit(e) => e,
            EncodingView::BomDetected(e) => e,
            EncodingView::XmlDetected(e) => e,
        }
    }

    /// Whether the encoding can be refined by a byte order mark or an XML declaration.
    pub open spec fn refinable(self) -> bool {
        self is Implicit || self is BomDetected
    }
}

impl View for EncodingRef {
    type V = EncodingView;

    open spec fn view(&self) -> EncodingView {
        match self {
            EncodingRef::Implicit(e) => EncodingView::Implicit(e@),
            EncodingRef::Explicit(e) => EncodingView::Explicit(e@),
            EncodingRef::BomDetected(e) => EncodingView::BomDetected(e@),
            EncodingRef::XmlDetected(e) => EncodingView::XmlDetected(e@),
        }
    }
}

impl EncodingRef {
    /// Returns the encoding.
    pub fn encoding(&self) -> (r: Encoding)
        ensures
            r@ == self@.name(),
    {
        match self {
            EncodingRef::Implicit(e) => *e,
            EncodingRef::Explicit(e) => *e,
            EncodingRef::BomDetected(e) => *e,
            EncodingRef::XmlDetected(e) => *e,
        }
    }

    /// Checks whether the encoding can be refined by a byte order mark or an XML declaration.
    pub fn can_be_refined(&self) -> (r: bool)
        ensures
            r == self@.refinable(),
    {
        match self {
            EncodingRef::Implicit(_) | EncodingRef::BomDetected(_) => true,
            EncodingRef::Explicit(_) | EncodingRef::XmlDetected(_) => false,
        }
    }
}

/// Range of input in bytes, that corresponds to some piece of XML
pub type Span = std::ops::Range<u64>;

/// A direct stream to the underlying [`Reader`]s reader which updates
/// [`Reader::buffer_position()`] when read from it.
#[derive(Debug)]
#[must_use]
pub struct BinaryStream<'r, R> {
    /// The underlying reader.
    inner: &'r mut R,
    /// Current position in bytes in the source.
    offset: &'r mut u64,
}

impl<'r, R> BinaryStream<'r, R> {
    /// The underlying reader.
    pub closed spec fn source(self) -> R {
        *self.inner
    }

    /// Current position in bytes in the source.
    pub closed spec fn position(self) -> u64 {
        *self.offset
    }

    /// What the stream borrows of the underlying reader.
    pub closed spec fn borrowed_source(self) -> &'r mut R {
        self.inner
    }

    /// What the stream borrows of the position.
    pub closed spec fn borrowed_position(self) -> &'r mut u64 {
        self.offset
    }

    /// Returns current position in bytes in the source.
    pub fn offset(&self) -> (r: u64)
        ensures
            r == self.position(),
    {
        *self.offset
    }

    /// Gets a reference to the underlying reader.
    pub fn get_ref(&self) -> (r: &R)
        ensures
            *r == self.source(),
    {
        self.inner
    }

    /// Gets a mutable reference to the underlying reader.
    ///
    /// Avoid read from this reader because this will not update reader's position and will lead
    /// to incorrect positions of errors. Read from this stream instead.
    pub fn get_mut(&mut self) -> (r: &mut R)
        ensures
            *r == old(self).source(),
            final(self).source() == *final(r),
            final(self).position() == old(self).position(),
            *final(final(self).borrowed_source()) == *final(old(self).borrowed_source()),
            *final(final(self).borrowed_position()) == *final(old(self).borrowed_position()),
    {
        self.inner
    }
}

/// When a stream is given back, the reader goes on where the stream has come to.
pub proof fn law_stream_is_given_back<'r, R>(stream: BinaryStream<'r, R>)
    requires
        has_resolved(stream),
    ensures
        *final(stream.borrowed_source()) == stream.source(),
        *final(stream.borrowed_position()) == stream.position(),
{
}

/// Consuming bytes from the stream moves the position.
impl<'r, R: ByteSource> BinaryStream<'r, R> {
    /// Returns the contents of the internal buffer, filling it with more data if it is empty. An
    /// empty buffer is the end of the data.
    pub fn fill_buf(&mut self) -> (r: Result<&[u8], FillError>)
        ensures
            match r {
                Ok(bytes) => {
                    &&& filled(old(self).source().fills())
                    &&& bytes@ == chunk(old(self).source().fills())
                    &&& final(self).source().fills() == old(self).source().fills()
                },
                Err(e) => {
                    &&& refused(old(self).source().fills(), e)
                    &&& final(self).source().fills() == old(self).source().fills().drop_first()
                },
            },
            final(self).position() == old(self).position(),
            *final(final(self).borrowed_source()) == *final(old(self).borrowed_source()),
            *final(final(self).borrowed_position()) == *final(old(self).borrowed_position()),
    {
        self.inner.fill_buf()
    }

    /// Tells that `amt` bytes of the buffer were consumed and shall not be returned again.
    pub fn consume(&mut self, amt: usize)
        requires
            amt <= chunk(old(self).source().fills()).len(),
            old(self).position() + amt <= u64::MAX,
        ensures
            final(self).source().fills() == consumed(old(self).source().fills(), amt as nat),
            final(self).position() == old(self).position() + amt,
            *final(final(self).borrowed_source()) == *final(old(self).borrowed_source()),
            *final(final(self).borrowed_position()) == *final(old(self).borrowed_position()),
    {
        self.inner.consume(amt);
        *self.offset = *self.offset + amt as u64;
    }
}

/// Reading from the stream moves the position.
impl<'r, R: ByteReader> BinaryStream<'r, R> {
    /// Reads from the underlying reader into `buf` and returns what it returns: the number of bytes
    /// that were read, by which the position moves, or an error, with which it stays.
    pub fn read(&mut self, buf: &mut [u8]) -> (r: Result<usize, FillError>)
        requires
            old(self).position() + old(buf)@.len() <= u64::MAX,
        ensures
            old(self).source().reads(final(self).source(), old(buf)@, final(buf)@, r),
            reads_ahead(
                old(self).source().fills(),
                final(self).source().fills(),
                old(buf)@,
                final(buf)@,
                r,
            ),
            final(self).position() == match r {
                Ok(n) => old(self).position() + n,
                Err(_) => old(self).position() as int,
            },
            *final(final(self).borrowed_source()) == *final(old(self).borrowed_source()),
            *final(final(self).borrowed_position()) == *final(old(self).borrowed_position()),
    {
        let amt: usize = self.inner.read(buf)?;
        *self.offset = *self.offset + amt as u64;
        Ok(amt)
    }
}

/// A low level encoding-agnostic XML event reader.
///
/// Consumes bytes and streams XML events.
#[derive(Debug)]
pub struct Reader<R> {
    /// Source of data for parse
    reader: R,
    /// Configuration and current parse state
    state: ReaderState,
}

impl<R: Clone> Clone for Reader<R> {
    fn clone(&self) -> (r: Self)
        ensures
            cloned(self.source(), r.source()),
            r.state() == self.state(),
    {
        Reader { reader: self.reader.clone(), state: self.state.clone() }
    }
}

/// Builder methods
impl<R> Reader<R> {
    /// The source of data.
    pub closed spec fn source(self) -> R {
        self.reader
    }

    /// The configuration and the current parse state.
    pub closed spec fn state(self) -> StateView {
        self.state@
    }

    /// Creates a `Reader` that reads from a given reader. The encoding is assumed to be UTF-8 as
    /// long as nothing else is found in the document.
    pub fn from_reader(reader: R) -> (r: Self)
        ensures
            r.source() == reader,
            r.state() == StateView::initial(EncodingView::Implicit(utf_8()), true),
    {
        Reader { reader, state: ReaderState::new(EncodingRef::Implicit(Encoding::utf_8()), true) }
    }

    /// Creates a `Reader` that reads from a given reader in UTF-8, whatever the document says.
    pub fn from_utf8_reader(reader: R) -> (r: Self)
        ensures
            r.source() == reader,
            r.state() == StateView::initial(EncodingView::Explicit(utf_8()), false),
    {
        Reader { reader, state: ReaderState::new(EncodingRef::Explicit(Encoding::utf_8()), false) }
    }

    /// Returns reference to the parser configuration
    pub fn config(&self) -> (r: &Config)
        ensures
            *r == self.state().config,
    {
        &self.state.config
    }

    /// Returns mutable reference to the parser configuration
    pub fn config_mut(&mut self) -> (r: &mut Config)
        ensures
            *r == old(self).state().config,
            final(self).source() == old(self).source(),
            final(self).state() == (StateView { config: *final(r), ..old(self).state() }),
    {
        &mut self.state.config
    }
}

/// Getters
impl<R> Reader<R> {
    /// Consumes `Reader` returning the underlying reader
    pub fn into_inner(self) -> (r: R)
        ensures
            r == self.source(),
    {
        self.reader
    }

    /// Gets a reference to the underlying reader.
    pub fn get_ref(&self) -> (r: &R)
        ensures
            *r == self.source(),
    {
        &self.reader
    }

    /// Gets a mutable reference to the underlying reader.
    ///
    /// Avoid read from this reader because this will not update reader's position and will lead
    /// to incorrect positions of errors. If you want to read, use [`stream()`] instead.
    ///
    /// [`stream()`]: Self::stream
    pub fn get_mut(&mut self) -> (r: &mut R)
        ensures
            *r == old(self).source(),
            final(self).source() == *final(r),
            final(self).state() == old(self).state(),
    {
        &mut self.reader
    }

    /// Gets the byte position in the input data just after the last emitted event (i.e. this is
    /// position where data of last event ends).
    ///
    /// Note, that for text events which is originally ended with whitespace characters (` `, `\t`,
    /// `\r`, and `\n`) if `Config::trim_text_end` is set this is position before trim, not the
    /// position of the last byte of the text event content.
    pub fn buffer_position(&self) -> (r: u64)
        requires
            self.state().wf(),
        ensures
            r == self.state().position(),
    {
        // when internal state is InsideMarkup, we have actually read until '<',
        // which we don't want to show
        if let ParseState::InsideMarkup = self.state.state {
            self.state.offset - 1
        } else {
            self.state.offset
        }
    }

    /// Gets the last error byte position in the input data. If there is no errors yet, returns
    /// `0`.
    ///
    /// Unlike `buffer_position` it will point to the place where it is rational to report error
    /// to the end user. For example, all syntax errors are reported when the parser sees EOF
    /// inside of some kind of markup. The `buffer_position()` will point to the last byte of input
    /// which is not very useful. `error_position()` will point to the start of corresponding
    /// markup element (i. e. to the `<` character).
    ///
    /// This position is always `<= buffer_position()`.
    pub fn error_position(&self) -> (r: u64)
        ensures
            r == self.state().error_offset,
            self.state().wf() ==> r <= self.state().position(),
    {
        self.state.last_error_offset
    }

    /// Get the decoder, used to decode bytes, read by this reader, to the strings.
    ///
    /// The used encoding may change after parsing the XML declaration. If no encoding is specified
    /// in declaration, defaults to UTF-8.
    pub fn decoder(&self) -> (r: Decoder)
        ensures
            r@ == self.state().encoding.name(),
    {
        self.state.decoder()
    }

    /// Get the direct access to the underlying reader, but tracks the amount of read data and
    /// update [`Reader::buffer_position()`] accordingly.
    ///
    /// Note, that this method gives you access to the internal reader and read data will not be
    /// returned in any subsequent events read by `read_event` family of methods.
    pub fn stream(&mut self) -> (r: BinaryStream<'_, R>)
        ensures
            r.source() == old(self).source(),
            r.position() == old(self).state().offset,
            final(self).source() == *final(r.borrowed_source()),
            final(self).state() == (StateView {
                offset: *final(r.borrowed_position()) as int,
                ..old(self).state()
            }),
    {
        BinaryStream { inner: &mut self.reader, offset: &mut self.state.offset }
    }
}

} // verus!
