//! The state of a reader apart from its source of data.

use std::borrow::Cow;
use vstd::prelude::*;

use crate::bytes::{BANG, HYPHEN, OPEN_BRACKET, QUESTION, SLASH};
use crate::encoding::{decodable, decoded_or_empty, utf_8, Decoder};
use crate::errors::{Error, ErrorView, IllFormedError, IllFormedView, SyntaxError};
use crate::events::{
    declared_encoding, BytesCData, BytesDecl, BytesEnd, BytesPI, BytesStart, BytesText, Event,
    EventView, PiView, TagView, TextView,
};
use crate::parser::pi::{is_xml_declaration, unclosed_pi, xml_declaration};
use crate::parser::scan::{stop, stops, Scan};
use crate::reader::bang::{unclosed_bang, BangType};
use crate::reader::config::{default_config, Config};
use crate::reader::{EncodingRef, EncodingView, ParseState};
use crate::utils::{
    append, count_leading_space, count_word, has_prefix, leading_space, same_bytes, starts_with,
    trim_end, trimmed_end, word_len,
};

verus! {

/// The state of a reader apart from its source of data.
#[derive(Debug)]
pub struct ReaderState {
    /// Number of bytes read from the source of data since the reader was created
    pub offset: u64,
    /// A snapshot of an `offset` of the last error returned. It can be less than `offset`,
    /// because some errors conveniently report at earlier position, and changing `offset` is not
    /// possible, because some errors are recoverable.
    pub last_error_offset: u64,
    /// Defines how to process next byte
    pub state: ParseState,
    /// User-defined settings that affect parsing
    pub config: Config,
    /// Names of all currently started elements which didn't have a matching end tag yet
    pub opened: Vec<Vec<u8>>,
    /// The encoding used to read an XML
    pub encoding: EncodingRef,
    /// Whether the encoding is detected by the first bytes of the document. If not, then only
    /// a byte order mark of UTF-8 is removed.
    pub detect: bool,
}

/// What a [`ReaderState`] says.
#[verifier::ext_equal]
pub struct StateView {
    /// Number of bytes read from the source of data since the reader was created
    pub offset: int,
    /// The offset of the last error
    pub error_offset: int,
    /// Defines how to process next byte
    pub state: ParseState,
    /// User-defined settings that affect parsing
    pub config: Config,
    /// Names of all currently started elements which didn't have a matching end tag yet
    pub opened: Seq<Seq<u8>>,
    /// The encoding used to read an XML
    pub encoding: EncodingView,
    /// Whether the encoding is detected by the first bytes of the document
    pub detect: bool,
}

impl StateView {
    /// The state of a new reader.
    pub open spec fn initial(encoding: EncodingView, detect: bool) -> StateView {
        StateView {
            offset: 0,
            error_offset: 0,
            state: ParseState::Init,
            config: default_config(),
            opened: Seq::empty(),
            encoding,
            detect,
        }
    }

    /// The position just after the last event. If the `<` after it was already read, it does not
    /// count.
    pub open spec fn position(self) -> int {
        if self.state == ParseState::InsideMarkup {
            self.offset - 1
        } else {
            self.offset
        }
    }

    /// Whether names of `n` bytes can be decoded whatever encoding the document declares.
    pub open spec fn can_decode(self, n: nat) -> bool {
        ||| self.encoding.name() == utf_8() && !self.encoding.refinable()
        ||| 4 * n + 64 <= isize::MAX
    }

    /// Whether the state is one that a reader can be in.
    pub open spec fn wf(self) -> bool {
        &&& 0 <= self.error_offset <= self.position()
        &&& self.state == ParseState::InsideEmpty ==> self.opened.len() > 0
        &&& forall|i: int|
            0 <= i < self.opened.len() ==> self.can_decode(#[trigger] self.opened[i].len())
    }
}

/// A state and what a step from the state before has emitted.
#[verifier::ext_equal]
pub struct Emitted {
    pub state: StateView,
    pub result: Result<EventView, ErrorView>,
}

/// What a result of reading an event says.
pub open spec fn outcome(r: Result<Event, Error>) -> Result<EventView, ErrorView> {
    match r {
        Ok(event) => Ok(event@),
        Err(e) => Err(e@),
    }
}

/// Whether reading can go on after the result. It can after an event, except for the end of the
/// document, and after a violation of well-formedness.
pub open spec fn continues(result: Result<EventView, ErrorView>) -> bool {
    match result {
        Ok(event) => event !is Eof,
        Err(e) => e is IllFormed,
    }
}

/// The error for a document that is not well-formed.
pub open spec fn ill_formed(e: IllFormedView) -> Result<EventView, ErrorView> {
    Err(ErrorView::IllFormed(e))
}

/// A text event for the bytes of a text, from which the white space at the end is removed if
/// that is configured.
pub open spec fn text(st: StateView, bytes: Seq<u8>) -> TextView {
    TextView {
        content: if st.config.trim_text_end {
            trim_end(bytes)
        } else {
            bytes
        },
        encoding: st.encoding.name(),
    }
}

/// What is emitted for `bytes`, which start with an `&` that no `;` follows, where `start` is the
/// offset of the `&`.
pub open spec fn emit_dangling(st: StateView, start: int, bytes: Seq<u8>) -> Emitted {
    if st.config.allow_dangling_amp {
        Emitted { state: st, result: Ok(EventView::Text(text(st, bytes))) }
    } else {
        Emitted {
            state: StateView { error_offset: start, ..st },
            result: ill_formed(IllFormedView::UnclosedReference),
        }
    }
}

/// The bytes of `!--`.
pub open spec fn comment_start() -> Seq<u8> {
    seq![BANG, HYPHEN, HYPHEN]
}

/// The bytes of `![CDATA[`.
pub open spec fn cdata_start() -> Seq<u8> {
    seq![BANG, OPEN_BRACKET, 0x43u8, 0x44u8, 0x41u8, 0x54u8, 0x41u8, OPEN_BRACKET]
}

/// The byte, in upper case if it is an ASCII letter.
pub open spec fn upper(b: u8) -> u8 {
    if 0x61 <= b <= 0x7A {
        (b - 0x20) as u8
    } else {
        b
    }
}

/// The bytes of `!DOCTYPE`.
pub open spec fn doctype_start() -> Seq<u8> {
    seq![BANG, 0x44u8, 0x4Fu8, 0x43u8, 0x54u8, 0x59u8, 0x50u8, 0x45u8]
}

/// Whether `s` starts with `!DOCTYPE` in upper, lower or mixed case.
pub open spec fn starts_doctype(s: Seq<u8>) -> bool {
    s.len() >= 8 && forall|i: int| 0 <= i < 8 ==> upper(#[trigger] s[i]) == doctype_start()[i]
}

/// The first index from `from` on of a `--` that starts in the content of a comment, where `s` is
/// what stands between `<` and `>`. The index counts from the first byte of the content.
pub open spec fn double_hyphen_from(s: Seq<u8>, from: int) -> Option<int>
    decreases s.len() - from,
{
    if from >= s.len() - 5 {
        None
    } else if s[from + 3] == HYPHEN && s[from + 4] == HYPHEN {
        Some(from)
    } else {
        double_hyphen_from(s, from + 1)
    }
}

/// What a comment, a CDATA section or a document type declaration emits, where `bytes` stands
/// between `<` and `>`.
pub open spec fn emit_bang(st: StateView, kind: Scan, bytes: Seq<u8>) -> Emitted {
    let len = bytes.len() as int;
    let encoding = st.encoding.name();
    if kind == Scan::Comment && has_prefix(bytes, comment_start()) {
        match (st.config.check_comments, double_hyphen_from(bytes, 0)) {
            (true, Some(p)) => Emitted {
                state: StateView { error_offset: st.offset - len + 2 + p, ..st },
                result: ill_formed(IllFormedView::DoubleHyphenInComment),
            },
            _ => Emitted {
                state: st,
                result: Ok(
                    EventView::Comment(TextView { content: bytes.subrange(3, len - 2), encoding }),
                ),
            },
        }
    } else if kind == Scan::CData && has_prefix(bytes, cdata_start()) {
        Emitted {
            state: st,
            result: Ok(
                EventView::CData(TextView { content: bytes.subrange(8, len - 2), encoding }),
            ),
        }
    } else if kind == Scan::DocType && starts_doctype(bytes) {
        let rest = bytes.skip(8);
        let content = rest.skip(leading_space(rest) as int);
        if content.len() > 0 {
            Emitted { state: st, result: Ok(EventView::DocType(TextView { content, encoding })) }
        } else {
            Emitted {
                state: StateView { error_offset: st.offset - 1, ..st },
                result: ill_formed(IllFormedView::MissingDoctypeName),
            }
        }
    } else {
        Emitted {
            state: StateView { error_offset: st.offset - len - 2, ..st },
            result: Err(ErrorView::Syntax(unclosed_bang(kind))),
        }
    }
}

/// The name in an end tag, where `bytes` stands between `</` and `>` and its first `name_len`
/// bytes contain no white space.
pub open spec fn end_name(st: StateView, name_len: nat, bytes: Seq<u8>) -> Seq<u8> {
    if st.config.trim_markup_names_in_closing_tags {
        bytes.take(name_len as int)
    } else {
        bytes
    }
}

/// What an end tag emits, where `bytes` stands between `</` and `>`.
pub open spec fn emit_end(st: StateView, name_len: nat, bytes: Seq<u8>) -> Emitted {
    let name = end_name(st, name_len, bytes);
    let encoding = st.encoding.name();
    let at_start = st.offset - bytes.len() - 3;
    if st.opened.len() > 0 {
        let expected = st.opened.last();
        let closed = StateView { opened: st.opened.drop_last(), ..st };
        if st.config.check_end_names && name != expected {
            Emitted {
                state: StateView { error_offset: at_start, ..closed },
                result: ill_formed(
                    IllFormedView::MismatchedEndTag {
                        expected: decoded_or_empty(encoding, expected),
                        found: decoded_or_empty(encoding, name),
                    },
                ),
            }
        } else {
            Emitted { state: closed, result: Ok(EventView::End(name)) }
        }
    } else if st.config.allow_unmatched_ends {
        Emitted { state: st, result: Ok(EventView::End(name)) }
    } else {
        Emitted {
            state: StateView { error_offset: at_start, ..st },
            result: ill_formed(IllFormedView::UnmatchedEndTag(decoded_or_empty(encoding, name))),
        }
    }
}

/// What markup that starts with `<?` emits, where `bytes` stands between `<` and `>`.
pub open spec fn emit_question_mark(st: StateView, bytes: Seq<u8>) -> Emitted {
    let len = bytes.len() as int;
    if len > 1 && bytes.last() == QUESTION {
        let content = bytes.subrange(1, len - 1);
        if xml_declaration(content) {
            Emitted {
                state: match declared_encoding(content) {
                    Some(e) if st.encoding.refinable() => StateView {
                        encoding: EncodingView::XmlDetected(e),
                        ..st
                    },
                    _ => st,
                },
                result: Ok(EventView::Decl(content)),
            }
        } else {
            Emitted {
                state: st,
                result: Ok(
                    EventView::PI(
                        PiView {
                            content,
                            name_len: word_len(content),
                            encoding: st.encoding.name(),
                        },
                    ),
                ),
            }
        }
    } else {
        Emitted {
            state: StateView { error_offset: st.offset - len - 2, ..st },
            result: Err(ErrorView::Syntax(unclosed_pi(bytes))),
        }
    }
}

/// What a start tag or a self-closed tag emits, where `bytes` stands between `<` and `>` and its
/// first `name_len` bytes contain no white space.
pub open spec fn emit_start(st: StateView, name_len: nat, bytes: Seq<u8>) -> Emitted {
    if bytes.len() > 0 && bytes.last() == SLASH {
        let content = bytes.drop_last();
        let tag = TagView {
            content,
            name_len: if name_len <= content.len() {
                name_len
            } else {
                content.len()
            },
        };
        if st.config.expand_empty_elements {
            Emitted {
                state: StateView {
                    state: ParseState::InsideEmpty,
                    opened: st.opened.push(tag.name()),
                    ..st
                },
                result: Ok(EventView::Start(tag)),
            }
        } else {
            Emitted { state: st, result: Ok(EventView::Empty(tag)) }
        }
    } else {
        let tag = TagView { content: bytes, name_len };
        Emitted {
            state: StateView { opened: st.opened.push(tag.name()), ..st },
            result: Ok(EventView::Start(tag)),
        }
    }
}

/// What follows the start event of an expanded empty element.
pub open spec fn close_expanded_empty(st: StateView) -> Emitted {
    Emitted {
        state: StateView {
            state: ParseState::InsideText,
            opened: st.opened.drop_last(),
            ..st
        },
        result: Ok(EventView::End(st.opened.last())),
    }
}

impl View for ReaderState {
    type V = StateView;

    open spec fn view(&self) -> StateView {
        StateView {
            offset: self.offset as int,
            error_offset: self.last_error_offset as int,
            state: self.state,
            config: self.config,
            opened: Seq::new(self.opened@.len(), |i: int| self.opened@[i]@),
            encoding: self.encoding@,
            detect: self.detect,
        }
    }
}

impl Clone for ReaderState {
    fn clone(&self) -> (r: Self)
        ensures
            r@ == self@,
    {
        let mut opened: Vec<Vec<u8>> = Vec::new();
        let mut i: usize = 0;
        while i < self.opened.len()
            invariant
                i <= self.opened@.len(),
                opened@.len() == i,
                forall|j: int| 0 <= j < i ==> #[trigger] opened@[j]@ == self.opened@[j]@,
            decreases self.opened@.len() - i,
        {
            let mut name: Vec<u8> = Vec::new();
            append(&mut name, self.opened[i].as_slice());
            assert(name@ =~= self.opened@[i as int]@);
            opened.push(name);
            i += 1;
        }
        let r = ReaderState {
            offset: self.offset,
            last_error_offset: self.last_error_offset,
            state: self.state,
            config: self.config,
            opened,
            encoding: self.encoding,
            detect: self.detect,
        };
        assert(r@.opened =~= self@.opened);
        r
    }
}

/// Checks whether `bytes` starts with `!DOCTYPE` in upper, lower or mixed case.
fn is_doctype(bytes: &[u8]) -> (r: bool)
    ensures
        r == starts_doctype(bytes@),
{
    let start = [BANG, 0x44u8, 0x4Fu8, 0x43u8, 0x54u8, 0x59u8, 0x50u8, 0x45u8];
    assert(start@ =~= doctype_start());
    if bytes.len() < 8 {
        return false;
    }
    let mut i: usize = 0;
    while i < 8
        invariant
            i <= 8 <= bytes@.len(),
            start@ == doctype_start(),
            forall|j: int| 0 <= j < i ==> upper(#[trigger] bytes@[j]) == doctype_start()[j],
        decreases 8 - i,
    {
        let b: u8 = bytes[i];
        let u: u8 = if 0x61 <= b && b <= 0x7A {
            b - 0x20
        } else {
            b
        };
        if u != start[i] {
            return false;
        }
        i += 1;
    }
    true
}

/// Looks for `--` in a comment, where `bytes` is what stands between `<` and `>`. Returns its
/// index in the content of the comment.
fn find_double_hyphen(bytes: &[u8]) -> (r: Option<usize>)
    requires
        bytes@.len() >= 5,
    ensures
        match r {
            Some(p) => double_hyphen_from(bytes@, 0) == Some(p as int) && p < bytes@.len() - 5,
            None => double_hyphen_from(bytes@, 0) is None,
        },
{
    let len: usize = bytes.len();
    let mut off: usize = 0;
    while off < len - 5
        invariant
            5 <= len == bytes@.len(),
            off <= len - 5,
            double_hyphen_from(bytes@, off as int) == double_hyphen_from(bytes@, 0),
        decreases len - off,
    {
        let haystack = vstd::slice::slice_subrange(bytes, 3 + off, len - 2);
        match memchr::memchr(HYPHEN, haystack) {
            Some(p) => {
                proof {
                    lemma_no_hyphens(bytes@, off as int, off + p);
                    assert(haystack@[p as int] == bytes@[3 + off + p]);
                }
                // if next byte after `-` is also `-`, return an error
                if bytes[3 + off + p + 1] == HYPHEN {
                    return Some(off + p);
                }
                // Continue search after single `-` (+1 to skip it)

                off = off + p + 1;
            },
            None => {
                proof {
                    lemma_no_hyphens(bytes@, off as int, len - 5);
                }
                return None;
            },
        }
    }
    None
}

/// Where there is no `-` there is no `--`.
proof fn lemma_no_hyphens(s: Seq<u8>, from: int, to: int)
    requires
        0 <= from <= to <= s.len() - 5,
        forall|j: int|
            0 <= j < to - from ==> #[trigger] s.subrange(3 + from, s.len() - 2)[j] != HYPHEN,
    ensures
        double_hyphen_from(s, from) == double_hyphen_from(s, to),
    decreases to - from,
{
    if from < to {
        let t = s.subrange(3 + from, s.len() - 2);
        assert(t[0] == s[3 + from]);
        let u = s.subrange(3 + from + 1, s.len() - 2);
        assert forall|j: int| 0 <= j < to - from - 1 implies #[trigger] u[j] != HYPHEN by {
            assert(u[j] == t[j + 1]);
        }
        lemma_no_hyphens(s, from + 1, to);
    }
}

impl ReaderState {
    /// Creates the state of a new reader.
    pub fn new(encoding: EncodingRef, detect: bool) -> (r: Self)
        ensures
            r@ == StateView::initial(encoding@, detect),
    {
        let r = ReaderState {
            offset: 0,
            last_error_offset: 0,
            state: ParseState::Init,
            config: Config::default(),
            opened: Vec::new(),
            encoding,
            detect,
        };
        assert(r@ =~= StateView::initial(encoding@, detect));
        r
    }

    /// Returns the decoder of the current encoding.
    pub fn decoder(&self) -> (r: Decoder)
        ensures
            r@ == self@.encoding.name(),
    {
        Decoder::new(self.encoding.encoding())
    }

    /// Goes to another state.
    pub fn goto(&mut self, state: ParseState)
        ensures
            final(self)@ == (StateView { state, ..old(self)@ }),
    {
        self.state = state;
        assert(self@.opened =~= old(self)@.opened);
    }

    /// Goes to the `Done` state if reading cannot go on after `event`.
    pub fn settle(&mut self, event: &Result<Event, Error>)
        ensures
            final(self)@ == if continues(outcome(*event)) {
                old(self)@
            } else {
                StateView { state: ParseState::Done, ..old(self)@ }
            },
    {
        match event {
            // In case of ill-formed errors we already consume the wrong data
            // and change the state. We can continue parsing if we wish
            Err(Error::IllFormed(_)) => {},
            Err(_) | Ok(Event::Eof) => {
                self.goto(ParseState::Done);
            },
            _ => {},
        }
    }

    /// Remembers where the last error is.
    pub fn error_at(&mut self, offset: u64)
        ensures
            final(self)@ == (StateView { error_offset: offset as int, ..old(self)@ }),
    {
        self.last_error_offset = offset;
        assert(self@.opened =~= old(self)@.opened);
    }

    /// Changes the configuration. Returns the configuration before that.
    pub fn configure(&mut self, config: Config) -> (r: Config)
        ensures
            r == old(self)@.config,
            final(self)@ == (StateView { config, ..old(self)@ }),
    {
        let before = self.config;
        self.config = config;
        assert(self@.opened =~= old(self)@.opened);
        before
    }

    /// Trims end whitespaces from `bytes`, if required, and returns a text event.
    ///
    /// # Parameters
    /// - `bytes`: data from the start of stream to the first `<` or from `>` to `<`
    pub fn emit_text<'b>(&self, bytes: &'b [u8]) -> (r: BytesText<'b>)
        ensures
            r@ == text(self@, bytes@),
    {
        let content = if self.config.trim_text_end {
            trimmed_end(bytes)
        } else {
            bytes
        };
        BytesText::wrap(content, self.decoder())
    }

    /// Returns a text event for `bytes`, which start with an `&` that no `;` follows, or an error
    /// if such a text is not allowed.
    ///
    /// # Parameters
    /// - `start`: offset of the `&`
    /// - `bytes`: data from `&` to the next `&`, `<` or the end of the document
    pub fn emit_dangling<'b>(&mut self, start: u64, bytes: &'b [u8]) -> (r: Result<
        Event<'b>,
        Error,
    >)
        ensures
            (Emitted { state: final(self)@, result: outcome(r) }) == emit_dangling(
                old(self)@,
                start as int,
                bytes@,
            ),
    {
        if self.config.allow_dangling_amp {
            Ok(Event::Text(self.emit_text(bytes)))
        } else {
            self.last_error_offset = start;
            assert(self@.opened =~= old(self)@.opened);
            Err(Error::IllFormed(IllFormedError::UnclosedReference))
        }
    }

    /// Returns `Comment`, `CData` or `DocType` event.
    ///
    /// `bytes` contains data between `<` and `>`:
    /// - CDATA: `![CDATA[...]]`
    /// - Comment: `!--...--`
    /// - Doctype (uppercase): `!D...`
    /// - Doctype (lowercase): `!d...`
    pub fn emit_bang<'b>(&mut self, bang_type: BangType, bytes: &'b [u8]) -> (r: Result<
        Event<'b>,
        Error,
    >)
        requires
            old(self)@.offset >= bytes@.len() + 2,
            exists|all: Seq<u8>| #[trigger]
                stop(bang_type.kind(), all) == Some(bytes@.len() as int) && bytes@ == all.take(
                    bytes@.len() as int,
                ),
        ensures
            (Emitted { state: final(self)@, result: outcome(r) }) == emit_bang(
                old(self)@,
                bang_type.kind(),
                bytes@,
            ),
    {
        let len: usize = bytes.len();
        let cdata = [BANG, OPEN_BRACKET, 0x43u8, 0x44u8, 0x41u8, 0x54u8, 0x41u8, OPEN_BRACKET];
        let comment = [BANG, HYPHEN, HYPHEN];
        proof {
            assert(cdata@ =~= cdata_start());
            assert(comment@ =~= comment_start());
            let all = choose|all: Seq<u8>| #[trigger]
                stop(bang_type.kind(), all) == Some(bytes@.len() as int) && bytes@ == all.take(
                    bytes@.len() as int,
                );
            crate::parser::scan::lemma_stop(bang_type.kind(), all);
            assert(stops(bang_type.kind(), all, len as int));
            assert(forall|i: int| 0 <= i < len ==> bytes@[i] == all[i]);
            if bang_type.kind() == Scan::CData && has_prefix(bytes@, cdata_start()) {
                assert(bytes@[7] == bytes@.take(8)[7]);
                assert(bytes@[6] == bytes@.take(8)[6]);
            }
        }
        match bang_type {
            BangType::Comment if starts_with(bytes, &comment) => {
                if self.config.check_comments {
                    // search if '--' not in comments
                    if let Some(p) = find_double_hyphen(bytes) {
                        // `self.offset` is just after `>`, `p` counts from the byte after `<!--`
                        self.last_error_offset = self.offset - len as u64 + 2 + p as u64;
                        return Err(Error::IllFormed(IllFormedError::DoubleHyphenInComment));
                    }
                }
                // Cut of `!--` and `--` from start and end

                let content = vstd::slice::slice_subrange(bytes, 3, len - 2);
                Ok(Event::Comment(BytesText::wrap(content, self.decoder())))
            },
            // XML requires uppercase only
            BangType::CData if starts_with(bytes, &cdata) => {
                // Cut of `![CDATA[` and `]]` from start and end
                let content = vstd::slice::slice_subrange(bytes, 8, len - 2);
                Ok(Event::CData(BytesCData::wrap(content, self.decoder())))
            },
            // XML requires uppercase only, but HTML allows mixed case for doctype declarations
            BangType::DocType(_) if is_doctype(bytes) => {
                let rest = vstd::slice::slice_subrange(bytes, 8, len);
                assert(rest@ =~= bytes@.skip(8));
                let start: usize = count_leading_space(rest);
                if start < rest.len() {
                    // Cut of `!DOCTYPE` and any number of spaces from start
                    let content = vstd::slice::slice_subrange(rest, start, rest.len());
                    assert(content@ =~= rest@.skip(start as int));
                    Ok(Event::DocType(BytesText::wrap(content, self.decoder())))
                } else {
                    // We want report error at place where name is expected - this is just
                    // before `>`
                    self.last_error_offset = self.offset - 1;
                    Err(Error::IllFormed(IllFormedError::MissingDoctypeName))
                }
            },
            _ => {
                // <!....>
                //  ^^^^^ - `bytes` does not contain `<` and `>`, but `self.offset` is after `>`.
                // ^------- We report error at that position, so we need to subtract 2 and len
                self.last_error_offset = self.offset - len as u64 - 2;
                Err(Error::Syntax(bang_type.to_err()))
            },
        }
    }

    /// Wraps content of `bytes` into the end event. Checks that the name matches the last opened
    /// start name if that is configured.
    ///
    /// # Parameters
    /// - `name_len`: number of bytes before the first whitespace
    /// - `bytes`: data between `</` and `>`
    pub fn emit_end<'b>(&mut self, name_len: usize, bytes: &'b [u8]) -> (r: Result<
        Event<'b>,
        Error,
    >)
        requires
            name_len <= bytes@.len(),
            old(self)@.offset >= bytes@.len() + 3,
            decodable(old(self)@.encoding.name(), bytes@.len()),
            old(self)@.opened.len() > 0 ==> decodable(
                old(self)@.encoding.name(),
                old(self)@.opened.last().len(),
            ),
        ensures
            (Emitted { state: final(self)@, result: outcome(r) }) == emit_end(
                old(self)@,
                name_len as nat,
                bytes@,
            ),
    {
        // XML standard permits whitespaces after the markup name in closing tags.
        // Let's strip them from the buffer before comparing tag names.
        let name = if self.config.trim_markup_names_in_closing_tags {
            vstd::slice::slice_subrange(bytes, 0, name_len)
        } else {
            bytes
        };
        assert(name@ =~= end_name(self@, name_len as nat, bytes@));
        let decoder = self.decoder();
        // Get the name of the last opened tag
        match self.opened.pop() {
            Some(expected) => {
                assert(expected@ == old(self)@.opened.last());
                assert(self@.opened =~= old(self)@.opened.drop_last());
                if self.config.check_end_names && !same_bytes(name, expected.as_slice()) {
                    // Report error at start of the end tag at `<` character
                    // -3 for `</` and `>`
                    self.last_error_offset = self.offset - bytes.len() as u64 - 3;
                    assert(self@.opened =~= old(self)@.opened.drop_last());
                    return Err(
                        Error::IllFormed(
                            IllFormedError::MismatchedEndTag {
                                expected: decoder.decode_or_default(expected.as_slice()),
                                found: decoder.decode_or_default(name),
                            },
                        ),
                    );
                }
            },
            None => {
                assert(self@ =~= old(self)@);
                if !self.config.allow_unmatched_ends {
                    // Report error at start of the end tag at `<` character
                    // -3 for `</` and `>`
                    self.last_error_offset = self.offset - bytes.len() as u64 - 3;
                    assert(self@.opened =~= old(self)@.opened);
                    return Err(
                        Error::IllFormed(
                            IllFormedError::UnmatchedEndTag(decoder.decode_or_default(name)),
                        ),
                    );
                }
            },
        }
        Ok(Event::End(BytesEnd::wrap(Cow::Borrowed(name))))
    }

    /// `bytes` contains data between `<` and `>` and the first byte is `?`. The offset already
    /// after the `>`
    ///
    /// Returns `Decl` or `PI` event
    pub fn emit_question_mark<'b>(&mut self, bytes: &'b [u8]) -> (r: Result<Event<'b>, Error>)
        requires
            old(self)@.offset >= bytes@.len() + 2,
        ensures
            (Emitted { state: final(self)@, result: outcome(r) }) == emit_question_mark(
                old(self)@,
                bytes@,
            ),
    {
        let len: usize = bytes.len();
        // We accept at least <??>
        //                     ~~ - len = 2
        if len > 1 && bytes[len - 1] == QUESTION {
            // Cut of `?` and `?` from start and end
            let content = vstd::slice::slice_subrange(bytes, 1, len - 1);
            if is_xml_declaration(content) {
                let event = BytesDecl::wrap(content);
                // Try getting encoding from the declaration event
                if self.encoding.can_be_refined() {
                    if let Some(encoding) = event.encoder() {
                        self.encoding = EncodingRef::XmlDetected(encoding);
                    }
                }
                assert(self@.opened =~= old(self)@.opened);
                Ok(Event::Decl(event))
            } else {
                let name_len: usize = count_word(content);
                Ok(Event::PI(BytesPI::wrap(content, name_len, self.decoder())))
            }
        } else {
            // <?>
            //  ^ - `bytes` does not contain `<`, but we want to report error at `<`,
            // so we move offset to it (-2 for `<` and `>`)
            self.last_error_offset = self.offset - len as u64 - 2;
            assert(self@.opened =~= old(self)@.opened);
            if len > 0 && is_xml_declaration(vstd::slice::slice_subrange(bytes, 1, len)) {
                assert(bytes@.subrange(1, len as int) =~= bytes@.skip(1));
                Err(Error::Syntax(SyntaxError::UnclosedXmlDecl))
            } else {
                assert(len > 0 ==> bytes@.subrange(1, len as int) =~= bytes@.skip(1));
                Err(Error::Syntax(SyntaxError::UnclosedPI))
            }
        }
    }

    /// Remembers that an element with the given name was opened.
    fn open(&mut self, name: &[u8])
        ensures
            final(self)@ == (StateView { opened: old(self)@.opened.push(name@), ..old(self)@ }),
    {
        let mut owned: Vec<u8> = Vec::new();
        append(&mut owned, name);
        assert(owned@ =~= name@);
        self.opened.push(owned);
        assert(self@.opened =~= old(self)@.opened.push(name@));
    }

    /// Converts content of a tag to a `Start` or an `Empty` event
    ///
    /// # Parameters
    /// - `name_len`: number of bytes before the first whitespace
    /// - `bytes`: Content of a tag between `<` and `>`
    pub fn emit_start<'b>(&mut self, name_len: usize, bytes: &'b [u8]) -> (r: Event<'b>)
        requires
            name_len <= bytes@.len(),
        ensures
            (Emitted { state: final(self)@, result: Ok(r@) }) == emit_start(
                old(self)@,
                name_len as nat,
                bytes@,
            ),
    {
        let len: usize = bytes.len();
        if len > 0 && bytes[len - 1] == SLASH {
            // This is self-closed tag `<something/>`
            let content = vstd::slice::slice_subrange(bytes, 0, len - 1);
            assert(content@ =~= bytes@.drop_last());
            let name_len: usize = if name_len <= content.len() {
                name_len
            } else {
                content.len()
            };
            let event = BytesStart::wrap(content, name_len);
            if self.config.expand_empty_elements {
                self.state = ParseState::InsideEmpty;
                assert(self@.opened =~= old(self)@.opened);
                self.open(event.name().0);
                Event::Start(event)
            } else {
                Event::Empty(event)
            }
        } else {
            let event = BytesStart::wrap(bytes, name_len);
            self.open(event.name().0);
            Event::Start(event)
        }
    }

    /// Closes the empty element that was expanded into a start event.
    pub fn close_expanded_empty(&mut self) -> (r: BytesEnd<'static>)
        requires
            old(self)@.opened.len() > 0,
        ensures
            (Emitted { state: final(self)@, result: Ok(EventView::End(r@)) })
                == close_expanded_empty(old(self)@),
    {
        self.state = ParseState::InsideText;
        let name = match self.opened.pop() {
            Some(name) => name,
            None => Vec::new(),
        };
        assert(self@.opened =~= old(self)@.opened.drop_last());
        BytesEnd::wrap(Cow::Owned(name))
    }
}

} // verus!
