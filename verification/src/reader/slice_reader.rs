//! This is an implementation of [`Reader`] for reading from a `&[u8]` as underlying byte stream.
//! This implementation supports not using an intermediate buffer as the byte slice itself can be
//! used to borrow from.

use std::borrow::Cow;
use vstd::prelude::*;

use crate::bytes::{AMP, BANG, LT, QUESTION, SEMICOLON, SLASH};
use crate::encoding::{bom_encoding, decoding, utf_8, Encoding};
use crate::errors::{Error, ErrorView, SyntaxError};
use crate::events::{BytesRef, Event};
use crate::name::QName;
use crate::parser::fast_element::{unclosed_tag, FastElementParser};
use crate::parser::scan::{stop, Scan};
use crate::parser::{Parser, PiParser};
use crate::reader::bang::{bang_kind, unclosed_bang, BangType};
use crate::reader::steps::{
    heads, keeps, lemma_bom, lemma_head, lemma_next_step, lemma_tag_decodes, measure,
};
use crate::reader::model::{
    after_bom, bang_step, end_step, mark_len, markup_step, next_step, pi_step, ref_step, settle,
    start_step, started_step, takes, text_step, trimmed, Model, Step,
};
use crate::reader::search::{find_reference_end, find_text_end};
use crate::reader::source::{lemma_skipped_input, lemma_slice_ahead, Input};
use crate::reader::state::StateView;
use crate::reader::{EncodingRef, EncodingView, ParseState, Reader, Span};
use crate::reader::to_end::{
    event_nesting, lemma_skip_step, lemma_to_end, skip_element, spans, to_end, Nesting,
};
use crate::utils::{append, count_leading_space, leading_space, lemma_words, word_len};

verus! {

/// What lies ahead of a reader that reads from a slice.
pub open spec fn slice_input(bytes: Seq<u8>) -> Input {
    Input { bytes, fault: None, retains: true }
}

/// Reading an event keeps a reader of a slice well-formed.
proof fn lemma_read_event(m: Model)
    requires
        m.wf(),
    ensures
        next_step(m, m.input.bytes).model.wf(),
        forall|n: nat|
            m.state.can_decode(n) ==> #[trigger] next_step(
                m,
                m.input.bytes,
            ).model.state.can_decode(n),
        m.state.state == ParseState::Init && m.input.fault is None ==> after_bom(
            m,
            m.input.bytes,
        ).wf(),
{
    assert(m.input.bytes.take(m.input.bytes.len() as int) =~= m.input.bytes);
    lemma_next_step(m, m.input.bytes);
    if m.state.state == ParseState::Init {
        lemma_bom(m, m.input.bytes);
    }
    reveal(keeps);
}

/// Removes a byte order mark of UTF-8, if there is one.
fn remove_utf8_bom(source: &mut &[u8], position: &mut u64)
    requires
        *old(position) + old(source)@.len() <= u64::MAX,
    ensures
        final(source)@ == old(source)@.skip(mark_len(false, old(source)@)),
        *final(position) == *old(position) + mark_len(false, old(source)@),
{
    let bytes = *source;
    if crate::encoding::starts_with_utf8_bom(bytes) {
        *source = vstd::slice::slice_subrange(bytes, 3, bytes.len());
        *position = *position + 3;
    }
    assert(source@ =~= bytes@.skip(mark_len(false, bytes@)));
}

/// Detects the encoding by the first bytes and removes a byte order mark, if there is one.
fn detect_encoding(source: &mut &[u8], position: &mut u64) -> (r: Option<Encoding>)
    requires
        *old(position) + old(source)@.len() <= u64::MAX,
    ensures
        match r {
            Some(e) => bom_encoding(old(source)@) matches Some((name, _)) && e@ == name,
            None => bom_encoding(old(source)@) is None,
        },
        final(source)@ == old(source)@.skip(mark_len(true, old(source)@)),
        *final(position) == *old(position) + mark_len(true, old(source)@),
{
    let bytes = *source;
    match crate::encoding::detect_encoding(bytes) {
        Some((encoding, bom_len)) => {
            *source = vstd::slice::slice_subrange(bytes, bom_len, bytes.len());
            *position = *position + bom_len as u64;
            assert(source@ =~= bytes@.skip(bom_len as int));
            Some(encoding)
        },
        None => {
            assert(bytes@.skip(0) =~= bytes@);
            None
        },
    }
}

/// Skips white space.
fn skip_whitespace(source: &mut &[u8], position: &mut u64)
    requires
        *old(position) + old(source)@.len() <= u64::MAX,
    ensures
        final(source)@ == old(source)@.skip(leading_space(old(source)@) as int),
        *final(position) == *old(position) + leading_space(old(source)@),
        leading_space(old(source)@) <= old(source)@.len(),
{
    let bytes = *source;
    let whitespaces: usize = count_leading_space(bytes);
    *position = *position + whitespaces as u64;
    *source = vstd::slice::slice_subrange(bytes, whitespaces, bytes.len());
    assert(source@ =~= bytes@.skip(whitespaces as int));
}

/// Returns the next byte, if there is one.
fn peek_one(source: &[u8]) -> (r: Option<u8>)
    ensures
        match r {
            Some(b) => source@.len() > 0 && b == source@[0],
            None => source@.len() == 0,
        },
{
    if source.len() > 0 {
        Some(source[0])
    } else {
        None
    }
}

/// Skips one byte.
fn consume_one(source: &mut &[u8], position: &mut u64)
    requires
        old(source)@.len() > 0,
        *old(position) < u64::MAX,
    ensures
        final(source)@ == old(source)@.skip(1),
        *final(position) == *old(position) + 1,
{
    let bytes = *source;
    *source = vstd::slice::slice_subrange(bytes, 1, bytes.len());
    *position = *position + 1;
    assert(source@ =~= bytes@.skip(1));
}

/// This is an implementation for reading from a `&[u8]` as underlying byte stream. This
/// implementation supports not using an intermediate buffer as the byte slice itself can be used to
/// borrow from.
impl<'a> Reader<&'a [u8]> {
    /// The reader as it is seen by [`Reader::read_event()`].
    pub open spec fn model(self) -> Model {
        Model { input: slice_input(self.source()@), state: self.state() }
    }

    /// Whether calls can be made on the reader.
    pub open spec fn wf(self) -> bool {
        &&& self.state().state != ParseState::Done ==> self.state().offset + self.source().len()
            <= u64::MAX
        &&& self.model().wf()
    }

    /// Creates an XML reader from a string slice.
    pub fn from_str(s: &'a str) -> (r: Self)
        ensures
            r.source()@ == vstd::utf8::encode_utf8(s@),
            r.state() == StateView::initial(EncodingView::Explicit(utf_8()), true),
            r.wf(),
            r.stream_model().wf(),
    {
        // Rust strings are guaranteed to be UTF-8, so lock the encoding
        let bytes = s.as_bytes();
        let ghost len = bytes.len();
        let mut reader = Self::from_reader(bytes);
        reader.state.encoding = EncodingRef::Explicit(Encoding::utf_8());
        proof {
            assert(reader.state() =~= StateView::initial(EncodingView::Explicit(utf_8()), true));
            lemma_slice_ahead(bytes);
        }
        reader
    }

    /// Read an event that borrows from the input rather than a buffer.
    ///
    /// There is no asynchronous `read_event_async()` version of this function, because it is not
    /// necessary -- the contents are already in memory and no IO is needed, therefore there is no
    /// potential for blocking.
    pub fn read_event(&mut self) -> (r: Result<Event<'a>, Error>)
        requires
            old(self).wf(),
        ensures
            takes(next_step(old(self).model(), old(self).source()@), final(self).model(), r),
            final(self).wf(),
            forall|n: nat|
                old(self).state().can_decode(n) ==> #[trigger] final(self).state().can_decode(n),
    {
        proof {
            lemma_read_event(self.model());
            reveal(next_step);
        }
        if let ParseState::Init = self.state.state {
            // Go to InsideText state
            self.look_at_start();
        }
        self.read_started()
    }

    /// Reads an event after the first bytes of the document were looked at.
    fn read_started(&mut self) -> (r: Result<Event<'a>, Error>)
        requires
            old(self).model().wf(),
            old(self).state().state != ParseState::Init,
        ensures
            takes(started_step(old(self).model()), final(self).model(), r),
    {
        match self.state.state {
            ParseState::InsideRef => {
                let event = self.read_ref_event();
                self.settled(event)
            },
            ParseState::InsideText => {
                let event = self.read_text_event();
                self.settled(event)
            },
            // Go to InsideText state in next two arms
            ParseState::InsideMarkup => {
                let event = self.read_until_close();
                self.settled(event)
            },
            ParseState::InsideEmpty => Ok(Event::End(self.state.close_expanded_empty())),
            _ => {
                self.state.goto(ParseState::Done);
                Ok(Event::Eof)
            },
        }
    }

    /// Goes to the `Done` state if reading cannot go on after the event.
    fn settled(&mut self, event: Result<Event<'a>, Error>) -> (r: Result<Event<'a>, Error>)
        ensures
            forall|step: Step| #[trigger]
                takes(step, old(self).model(), event) ==> takes(
                    settle(step),
                    final(self).model(),
                    r,
                ),
    {
        self.state.settle(&event);
        event
    }

    /// Looks at the first bytes of the document and goes to the `InsideText` state.
    ///
    /// An encoding that was set explicitly stays, as it does in a reader that was created with
    /// `from_str`, but a byte order mark is removed all the same.
    fn look_at_start(&mut self)
        requires
            old(self).model().wf(),
            old(self).state().state == ParseState::Init,
        ensures
            final(self).model() == after_bom(old(self).model(), old(self).source()@),
    {
        if self.state.detect {
            if let Some(encoding) = detect_encoding(&mut self.reader, &mut self.state.offset) {
                if self.state.encoding.can_be_refined() {
                    self.state.encoding = EncodingRef::BomDetected(encoding);
                }
            }
        } else {
            remove_utf8_bom(&mut self.reader, &mut self.state.offset);
        }
        self.state.state = ParseState::InsideText;
        assert(self.state().opened =~= old(self).state().opened);
        assert(self.model() =~= after_bom(old(self).model(), old(self).source()@));
    }

    /// Reads until end element is found. This function is supposed to be called after you already
    /// read a `Start` event.
    ///
    /// Returns a span that covers the content between the `>` of an opening tag and the `<` of a
    /// closing tag, or an empty span if `expand_empty_elements` is set and this method was called
    /// after reading an expanded `Start` event.
    ///
    /// Manages nested cases where parent and child elements have the _literally_ same name.
    ///
    /// If a corresponding `End` event is not found, the error `MissingEndTag` is returned, in
    /// particular if this method is called without consuming the corresponding `Start` event
    /// first.
    ///
    /// The `end_name` parameter should contain name of the end element _in the reader encoding_.
    /// It is good practice to always get that parameter using `BytesStart::to_end()` method.
    ///
    /// The names of the skipped end tags are not checked if the `check_end_names` option is
    /// disabled.
    pub fn read_to_end(&mut self, end_name: QName) -> (r: Result<Span, Error>)
        requires
            old(self).wf(),
            old(self).state().can_decode(end_name@.len()),
        ensures
            ({
                let skipped = to_end(old(self).model(), old(self).source()@, end_name@);
                &&& final(self).model() == skipped.model
                &&& spans(old(self).state().position(), skipped.result, r)
            }),
            final(self).wf(),
            forall|n: nat|
                old(self).state().can_decode(n) ==> #[trigger] final(self).state().can_decode(n),
    {
        // Because we take position after the event before the End event,
        // it is important that this position indicates beginning of the End event.
        // If between last event and the End event would be only spaces, then we
        // take position before the spaces, but spaces would be skipped without
        // generating event if text is trimmed. To prevent that we temporary disable
        // text trimming.
        //
        // We also cannot take position after getting End event, because if
        // `trim_markup_names_in_closing_tags` is set to `true` (which is the default),
        // we do not known the real size of the End event that it is occupies in
        // the source and cannot correct the position after the End event.
        // So, we in any case should tweak parser configuration.
        let mut untrimmed_config = self.state.config;
        untrimmed_config.trim_text(false);
        let config = self.state.configure(untrimmed_config);
        let ghost m = self.model();
        let ghost head = self.reader@;
        let ghost skipped = skip_element(m, head, end_name@, 0);
        assert(m =~= old(self).model().untrimmed());
        proof {
            assert(head.take(head.len() as int) =~= head);
            lemma_to_end(old(self).model(), head, end_name@);
        }
        let ghost len = self.reader.len() as nat;
        let start: u64 = self.buffer_position();
        let mut depth: u64 = 0;
        loop
            invariant
                self.model().wf(),
                heads(self.model(), head),
                self.state().state == ParseState::Init ==> self.source()@ == head,
                self.state().can_decode(end_name@.len()),
                skip_element(self.model(), head, end_name@, depth as nat) == skipped,
                depth + self.source()@.len() <= len <= usize::MAX,
                start == old(self).state().position(),
                skipped.model.configured(config) == to_end(
                    old(self).model(),
                    old(self).source()@,
                    end_name@,
                ).model,
                skipped.result == to_end(old(self).model(), old(self).source()@, end_name@).result,
                forall|n: nat|
                    old(self).state().can_decode(n) ==> #[trigger] skipped.model.configured(
                        config,
                    ).state.can_decode(n),
            decreases measure(self.model()),
        {
            let ghost before = self.model();
            proof {
                lemma_skip_step(before, head);
            }
            let end: u64 = self.buffer_position();
            let event = self.read_event();
            proof {
                lemma_head(before, before.input.bytes, head);
            }
            assert(self.state().can_decode(end_name@.len()));
            match event {
                Err(e) => {
                    self.state.configure(config);
                    return Err(e);
                },
                Ok(event) => match event_nesting(&event, end_name) {
                    Nesting::Deeper => {
                        depth += 1;
                    },
                    Nesting::Shallower => {
                        if depth == 0 {
                            self.state.configure(config);
                            return Ok(start..end);
                        }
                        depth -= 1;
                    },
                    Nesting::Ended => {
                        self.state.configure(config);
                        return Err(Error::missed_end(end_name, self.state.decoder()));
                    },
                    Nesting::Same => {},
                },
            }
        }
    }

    /// Reads content between start and end tags, including any markup. This function is supposed
    /// to be called after you already read a `Start` event.
    ///
    /// Manages nested cases where parent and child elements have the _literally_ same name.
    ///
    /// This method does not unescape read data, instead it returns content "as is" of the XML
    /// document. This is because it has no idea what text it reads, and if, for example, it
    /// contains CDATA section, attempt to unescape it content will spoil data.
    ///
    /// Any text will be decoded using the XML current `decoder()`.
    ///
    /// What is decoded are the bytes of the document in the span that
    /// [`read_to_end()`](Self::read_to_end) returns. If they are UTF-8, they are borrowed and not
    /// copied, except if this method is called after a text: then the first of them is the `<`
    /// after the text, which has left the slice already.
    pub fn read_text(&mut self, end: QName) -> (r: Result<Cow<'a, str>, Error>)
        requires
            old(self).wf(),
            old(self).state().can_decode(end@.len()),
            old(self).state().can_decode(old(self).source()@.len()) || (to_end(
                old(self).model(),
                old(self).source()@,
                end@,
            ).result matches Ok(to) ==> old(self).state().can_decode(
                (to - old(self).state().position()) as nat,
            )),
        ensures
            ({
                let skipped = to_end(old(self).model(), old(self).source()@, end@);
                &&& final(self).model() == skipped.model
                &&& match skipped.result {
                    Ok(to) => {
                        let content = old(self).model().unread().take(
                            to - old(self).state().position(),
                        );
                        let encoding = skipped.model.state.encoding.name();
                        &&& match r {
                            Ok(text) => decoding(encoding, content) == Some(text@),
                            Err(e) => decoding(encoding, content) is None && e@
                                == ErrorView::Encoding(encoding),
                        }
                        &&& encoding == utf_8() && r is Ok && (old(self).state().state
                            != ParseState::InsideMarkup || content.len() == 0) ==> r->Ok_0
                            is Borrowed
                    },
                    Err(e) => r is Err && r->Err_0@ == e,
                }
            }),
            final(self).wf(),
            forall|n: nat|
                old(self).state().can_decode(n) ==> #[trigger] final(self).state().can_decode(n),
    {
        let ghost m = self.model();
        proof {
            assert(m.input.bytes.take(m.input.bytes.len() as int) =~= m.input.bytes);
            lemma_to_end(m, m.input.bytes, end@);
        }
        // self.reader will be changed, so remember the slice
        let buffer = self.reader;
        let ghost buffer_len = buffer.len();
        let after_text = match self.state.state {
            ParseState::InsideMarkup => true,
            _ => false,
        };
        let span = match self.read_to_end(end) {
            Ok(span) => span,
            Err(e) => {
                return Err(e);
            },
        };
        // `span` can only contain indexes up to the length of the buffer because it
        // was created from offsets from a single slice
        let len: usize = (span.end - span.start) as usize;
        proof {
            assert(m.state.can_decode(m.input.bytes.len()) ==> self.state().can_decode(
                m.input.bytes.len(),
            ));
            assert(m.state.can_decode(len as nat) ==> self.state().can_decode(len as nat));
        }
        let decoder = self.state.decoder();
        let text = if after_text && len > 0 {
            let mut content: Vec<u8> = vec![LT];
            append(&mut content, vstd::slice::slice_subrange(buffer, 0, len - 1));
            assert(content@ =~= m.unread().take(len as int));
            decoder.decode_to_owned(content.as_slice())
        } else {
            let content = vstd::slice::slice_subrange(buffer, 0, len);
            assert(content@ =~= m.unread().take(len as int));
            decoder.decode(content)
        };
        match text {
            Ok(text) => Ok(text),
            Err(e) => Err(Error::Encoding(e)),
        }
    }

    /// Takes the first `n` bytes of the source, skips `skip` bytes more and returns the bytes.
    fn take(&mut self, n: usize, skip: usize) -> (r: &'a [u8])
        requires
            n + skip <= old(self).source()@.len(),
            old(self).state().offset + old(self).source()@.len() <= u64::MAX,
        ensures
            r@ == old(self).source()@.take(n as int),
            final(self).model() == old(self).model().advance(n + skip),
    {
        let bytes = self.reader;
        let len: usize = bytes.len();
        self.reader = vstd::slice::slice_subrange(bytes, n + skip, len);
        self.state.offset = self.state.offset + n as u64 + skip as u64;
        assert(self.reader@ =~= bytes@.skip(n + skip));
        assert(self.model() =~= old(self).model().advance(n + skip));
        vstd::slice::slice_subrange(bytes, 0, n)
    }

    fn read_element(&mut self) -> (r: Result<(usize, &'a [u8]), Error>)
        requires
            old(self).model().wf(),
            old(self).state().state != ParseState::Done,
        ensures
            match stop(Scan::Tag, old(self).source()@) {
                Some(i) => {
                    &&& 0 <= i < old(self).source()@.len()
                    &&& r matches Ok((name_len, bytes))
                    &&& bytes@ == old(self).source()@.take(i)
                    &&& name_len == word_len(bytes@)
                    &&& name_len <= bytes@.len()
                    &&& final(self).model() == old(self).model().advance(i + 1)
                },
                None => {
                    &&& r matches Err(e)
                    &&& e@ == ErrorView::Syntax(unclosed_tag(old(self).source()@))
                    &&& final(self).model() == (Model {
                        input: old(self).model().input,
                        ..old(self).model().drain()
                    })
                },
            },
    {
        let mut parser = FastElementParser::default();
        let ghost s = self.reader@;
        proof {
            parser.lemma_counted(Seq::empty());
            assert(Seq::<u8>::empty() + s =~= s);
        }
        if let Some((name_len, consumed)) = parser.feed(self.reader) {
            proof {
                let name = Seq::<u8>::empty() + s.take(consumed as int);
                assert(name =~= s.take(consumed as int));
                lemma_words(name);
            }
            // +1 for `>` which we do not include
            let bytes = self.take(consumed, 1);
            return Ok((name_len as usize, bytes));
        }
        proof {
            parser.lemma_counted(s);
        }
        self.state.offset = self.state.offset + self.reader.len() as u64;
        assert(self.model() =~= (Model {
            input: old(self).model().input,
            ..old(self).model().drain()
        }));
        Err(Error::Syntax(parser.eof_error(self.reader)))
    }

    fn read_with<P: Parser>(&mut self, parser: P) -> (r: Result<&'a [u8], Error>)
        requires
            old(self).model().wf(),
            old(self).state().state != ParseState::Done,
            parser.fed(Seq::empty()),
        ensures
            match stop(P::kind(), old(self).source()@) {
                Some(i) => {
                    &&& 0 <= i < old(self).source()@.len()
                    &&& r matches Ok(bytes)
                    &&& bytes@ == old(self).source()@.take(i)
                    &&& final(self).model() == old(self).model().advance(i + 1)
                },
                None => {
                    &&& r matches Err(e)
                    &&& e@ == ErrorView::Syntax(P::unclosed(old(self).source()@))
                    &&& final(self).model() == (Model {
                        input: old(self).model().input,
                        ..old(self).model().drain()
                    })
                },
            },
    {
        let mut parser = parser;
        let ghost s = self.reader@;
        assert(Seq::<u8>::empty() + s =~= s);
        if let Some(i) = parser.feed(self.reader) {
            // +1 for `>` which we do not include
            let bytes = self.take(i, 1);
            return Ok(bytes);
        }
        self.state.offset = self.state.offset + self.reader.len() as u64;
        assert(self.model() =~= (Model {
            input: old(self).model().input,
            ..old(self).model().drain()
        }));
        Err(Error::Syntax(parser.eof_error(self.reader)))
    }

    fn read_bang_element(&mut self) -> (r: Result<(BangType, &'a [u8]), Error>)
        requires
            old(self).model().wf(),
            old(self).state().state != ParseState::Done,
            old(self).source()@.len() > 0,
        ensures
            ({
                let s = old(self).source()@;
                if s.len() > 1 && bang_kind(s[1]) is Some {
                    let kind = bang_kind(s[1])->Some_0;
                    match stop(kind, s) {
                        Some(i) => {
                            &&& 0 <= i < s.len()
                            &&& r matches Ok((bang, bytes))
                            &&& bang.kind() == kind
                            &&& bytes@ == s.take(i)
                            &&& final(self).model() == old(self).model().advance(i + 1)
                        },
                        None => {
                            &&& r matches Err(e)
                            &&& e@ == ErrorView::Syntax(unclosed_bang(kind))
                            &&& final(self).model() == (Model {
                                input: old(self).model().input,
                                ..old(self).model().drain()
                            })
                        },
                    }
                } else {
                    &&& r matches Err(e)
                    &&& e@ == ErrorView::Syntax(SyntaxError::InvalidBangMarkup)
                    &&& final(self).model() == old(self).model()
                }
            }),
    {
        let second: Option<u8> = if self.reader.len() > 1 {
            Some(self.reader[1])
        } else {
            None
        };
        let mut bang_type = match BangType::new(second) {
            Ok(bang_type) => bang_type,
            Err(e) => {
                return Err(Error::Syntax(e));
            },
        };
        let empty: [u8; 0] = [];
        assert(empty@ =~= Seq::<u8>::empty());
        assert(Seq::<u8>::empty() + self.reader@ =~= self.reader@);
        if let Some((_, used)) = bang_type.parse(&empty, self.reader) {
            // -1 for `>` which we do not include
            let bytes = self.take(used - 1, 1);
            return Ok((bang_type, bytes));
        }
        self.state.offset = self.state.offset + self.reader.len() as u64;
        assert(self.model() =~= (Model {
            input: old(self).model().input,
            ..old(self).model().drain()
        }));
        Err(Error::Syntax(bang_type.to_err()))
    }

    /// Reads a comment, a CDATA section or a document type declaration from its `!`.
    fn read_bang(&mut self) -> (r: Result<Event<'a>, Error>)
        requires
            old(self).model().wf(),
            old(self).state().state != ParseState::Done,
            old(self).state().offset > 0,
            old(self).source()@.len() > 0,
        ensures
            takes(bang_step(old(self).model()), final(self).model(), r),
    {
        let start: u64 = self.state.offset;
        match self.read_bang_element() {
            Ok((bang_type, bytes)) => self.state.emit_bang(bang_type, bytes),
            Err(e) => {
                // We want to report error at `<`, but offset was increased,
                // so return it back (-1 for `<`)
                self.state.last_error_offset = start - 1;
                Err(e)
            },
        }
    }

    /// Reads an end tag from its `/`.
    ///
    /// A close tag may have attributes. While XML does not allow such tags, they are accepted,
    /// because the constraints are not checked during parsing, and because looking just for `>`
    /// would turn `</tag attr=">" >` into the end tag `</tag attr=">` and the text `" >`.
    fn read_end(&mut self) -> (r: Result<Event<'a>, Error>)
        requires
            old(self).model().wf(),
            old(self).state().state == ParseState::InsideText,
            old(self).state().offset > 0,
            old(self).source()@.len() > 0,
        ensures
            takes(end_step(old(self).model()), final(self).model(), r),
    {
        let start: u64 = self.state.offset;
        proof {
            lemma_skipped_input(self.model().input, 1);
            lemma_tag_decodes(self.model(), 1);
        }
        consume_one(&mut self.reader, &mut self.state.offset);
        assert(self.model() =~= old(self).model().advance(1));
        match self.read_element() {
            Ok((name_len, bytes)) => self.state.emit_end(name_len, bytes),
            Err(e) => {
                // We want to report error at `<`, but offset was increased,
                // so return it back (-1 for `<`)
                self.state.last_error_offset = start - 1;
                Err(e)
            },
        }
    }

    /// Reads a processing instruction or an XML declaration from its `?`.
    fn read_pi(&mut self) -> (r: Result<Event<'a>, Error>)
        requires
            old(self).model().wf(),
            old(self).state().state != ParseState::Done,
            old(self).state().offset > 0,
            old(self).source()@.len() > 0,
        ensures
            takes(pi_step(old(self).model()), final(self).model(), r),
    {
        let start: u64 = self.state.offset;
        match self.read_with(PiParser(false)) {
            Ok(bytes) => self.state.emit_question_mark(bytes),
            Err(e) => {
                // We want to report error at `<`, but offset was increased,
                // so return it back (-1 for `<`)
                self.state.last_error_offset = start - 1;
                Err(e)
            },
        }
    }

    /// Reads a start tag or a self-closed tag from the byte after its `<`.
    fn read_start(&mut self) -> (r: Result<Event<'a>, Error>)
        requires
            old(self).model().wf(),
            old(self).state().state != ParseState::Done,
            old(self).state().offset > 0,
            old(self).source()@.len() > 0,
        ensures
            takes(start_step(old(self).model()), final(self).model(), r),
    {
        let start: u64 = self.state.offset;
        match self.read_element() {
            Ok((name_len, bytes)) => Ok(self.state.emit_start(name_len, bytes)),
            Err(e) => {
                // We want to report error at `<`, but offset was increased,
                // so return it back (-1 for `<`)
                self.state.last_error_offset = start - 1;
                Err(e)
            },
        }
    }

    /// Read bytes up to the `>` and skip it. This method is expected to be called after seeing the
    /// `<` symbol and skipping it. Inspects the next (current) symbol and returns an appropriate
    /// event:
    ///
    /// |Symbol |Event
    /// |-------|-------------------------------------
    /// |`!`    |`Comment`, `CData` or `DocType`
    /// |`/`    |`End`
    /// |`?`    |`PI`
    /// |_other_|`Start` or `Empty`
    ///
    /// Moves parser to the `InsideText` state.
    fn read_until_close(&mut self) -> (r: Result<Event<'a>, Error>)
        requires
            old(self).model().wf(),
            old(self).state().state != ParseState::Done,
            old(self).state().offset > 0,
        ensures
            takes(markup_step(old(self).model()), final(self).model(), r),
    {
        reveal(markup_step);
        self.state.state = ParseState::InsideText;
        assert(self.model() =~= old(self).model().goto(ParseState::InsideText));
        match peek_one(self.reader) {
            Some(b) => if b == BANG {
                // `<!` - comment, CDATA or DOCTYPE declaration
                self.read_bang()
            } else if b == SLASH {
                // `</` - closing tag
                self.read_end()
            } else if b == QUESTION {
                // `<?` - processing instruction
                self.read_pi()
            } else {
                // `<...` - opening or self-closed tag
                self.read_start()
            },
            // `<` - syntax error, tag not closed
            None => {
                // We want to report error at `<`, but offset was increased,
                // so return it back (-1 for `<`)
                self.state.last_error_offset = self.state.offset - 1;
                assert(self.state()
                    =~= old(self).model().goto(ParseState::InsideText).error_at(
                    old(self).state().offset - 1,
                ).state);
                Err(Error::Syntax(SyntaxError::UnclosedTag))
            },
        }
    }

    /// Reads a reference from its `&`, or the text up to the next piece if the `&` does not start
    /// a reference.
    fn read_ref_event(&mut self) -> (r: Result<Event<'a>, Error>)
        requires
            old(self).model().wf(),
            old(self).state().state != ParseState::Done,
            old(self).source()@.len() > 0,
            old(self).source()@[0] == AMP,
        ensures
            takes(ref_step(old(self).model()), final(self).model(), r),
    {
        reveal(ref_step);
        let ghost m = self.model();
        let ghost s = self.reader@;
        let start: u64 = self.state.offset;
        let len: usize = self.reader.len();
        // Search for the end of reference or a start of another reference or a markup
        match find_reference_end(self.reader) {
            // Do not consume `&` because it may be lone and we would be need to
            // return it as part of Text event
            Some(i) => if self.reader[i] == AMP {
                let bytes = self.take(i, 0);
                self.state.goto(ParseState::InsideRef);
                assert(self.model() =~= m.advance(i as int).goto(ParseState::InsideRef));
                self.state.emit_dangling(start, bytes)
            } else {
                let is_end = self.reader[i] == SEMICOLON;
                // skip the end `;` or `<`
                let bytes = self.take(i, 1);
                if is_end {
                    self.state.goto(ParseState::InsideText);
                    assert(self.model() =~= m.advance(i + 1).goto(ParseState::InsideText));
                    // +1 to skip start `&`
                    let content = vstd::slice::slice_subrange(bytes, 1, i);
                    assert(content@ =~= s.subrange(1, i as int));
                    Ok(Event::GeneralRef(BytesRef::wrap(content, self.state.decoder())))
                } else {
                    self.state.goto(ParseState::InsideMarkup);
                    assert(self.model() =~= m.advance(i + 1).goto(ParseState::InsideMarkup));
                    self.state.emit_dangling(start, bytes)
                }
            },
            None => {
                let bytes = self.take(len, 0);
                assert(bytes@ =~= s);
                self.state.goto(ParseState::Done);
                assert(self.model() =~= m.drain().goto(ParseState::Done));
                self.state.emit_dangling(start, bytes)
            },
        }
    }

    /// Reads text, or the markup or the reference that stands in its place.
    fn read_text_event(&mut self) -> (r: Result<Event<'a>, Error>)
        requires
            old(self).model().wf(),
            old(self).state().state == ParseState::InsideText,
        ensures
            takes(
                text_step(old(self).model().advance(trimmed(old(self).model()))),
                final(self).model(),
                r,
            ),
    {
        reveal(text_step);
        // Go to InsideMarkup or Done state
        if self.state.config.trim_text_start {
            skip_whitespace(&mut self.reader, &mut self.state.offset);
        }
        let ghost m = old(self).model().advance(trimmed(old(self).model()));
        let ghost s = self.reader@;
        assert(self.model() =~= m);
        let len: usize = self.reader.len();
        // Search for start of markup or an entity or character reference
        match find_text_end(self.reader) {
            Some(i) => {
                let is_markup = self.reader[i] == LT;
                let bytes = vstd::slice::slice_subrange(self.reader, 0, i);
                proof {
                    assert(bytes@ =~= s.take(i as int));
                    lemma_skipped_input(old(self).model().input, trimmed(old(self).model()));
                    lemma_skipped_input(m.input, i as int);
                    lemma_skipped_input(m.input, i + 1);
                }
                // Trim bytes from end if required
                let event = self.state.emit_text(bytes);
                if is_markup {
                    self.take(i, 1);
                    if event.is_empty() {
                        self.read_until_close()
                    } else {
                        self.state.goto(ParseState::InsideMarkup);
                        Ok(Event::Text(event))
                    }
                } else {
                    // Do not consume `&` because it may be lone and we would be need to
                    // return it as part of Text event
                    self.take(i, 0);
                    assert(s.skip(i as int)[0] == s[i as int]);
                    if event.is_empty() {
                        self.read_ref_event()
                    } else {
                        self.state.goto(ParseState::InsideRef);
                        Ok(Event::Text(event))
                    }
                }
            },
            None => {
                let bytes = self.take(len, 0);
                assert(bytes@ =~= s);
                self.state.goto(ParseState::Done);
                assert(self.model() =~= m.drain().goto(ParseState::Done));
                // Trim bytes from end if required
                let event = self.state.emit_text(bytes);
                if event.is_empty() {
                    Ok(Event::Eof)
                } else {
                    Ok(Event::Text(event))
                }
            },
        }
    }
}

} // verus!
