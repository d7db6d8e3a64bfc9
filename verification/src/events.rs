//! Events that a reader emits.

use std::borrow::Cow;
use vstd::prelude::*;

use crate::attributes::{attribute_value, find_attribute};
use crate::encoding::{decodable, decoding, label_encoding, utf_8, Decoder, Encoding, EncodingError};
use crate::name::QName;

verus! {

/// Borrows the bytes of `content`.
fn borrow_bytes<'c, 'a>(content: &'c Cow<'a, [u8]>) -> (r: &'c [u8])
    ensures
        r@ == content@,
{
    match content {
        Cow::Borrowed(bytes) => bytes,
        Cow::Owned(bytes) => bytes.as_slice(),
    }
}

/// What a start tag or a self-closed tag says: the bytes between `<` and `>`, without the `/`
/// that closes the tag, and the number of them that make up the name.
#[verifier::ext_equal]
pub struct TagView {
    pub content: Seq<u8>,
    pub name_len: nat,
}

impl TagView {
    /// The name of the element.
    pub open spec fn name(self) -> Seq<u8> {
        self.content.take(self.name_len as int)
    }
}

/// Some bytes of a document and the name of the encoding in which they are to be read.
#[verifier::ext_equal]
pub struct TextView {
    pub content: Seq<u8>,
    pub encoding: Seq<char>,
}

/// What a processing instruction says: the bytes between `<?` and `?>`, the number of them
/// that make up the target and the name of the encoding.
#[verifier::ext_equal]
pub struct PiView {
    pub content: Seq<u8>,
    pub name_len: nat,
    pub encoding: Seq<char>,
}

/// What an [`Event`] says.
#[verifier::ext_equal]
pub enum EventView {
    Start(TagView),
    End(Seq<u8>),
    Empty(TagView),
    Text(TextView),
    CData(TextView),
    Comment(TextView),
    Decl(Seq<u8>),
    PI(PiView),
    DocType(TextView),
    GeneralRef(TextView),
    Eof,
}

/// A start tag or a self-closed tag.
#[derive(Debug)]
pub struct BytesStart<'a> {
    buf: Cow<'a, [u8]>,
    name_len: usize,
}

impl<'a> View for BytesStart<'a> {
    type V = TagView;

    closed spec fn view(&self) -> TagView {
        TagView { content: self.buf@, name_len: self.name_len as nat }
    }
}

impl<'a> BytesStart<'a> {
    #[verifier::type_invariant]
    spec fn name_is_inside(self) -> bool {
        self.name_len <= self.buf@.len()
    }

    /// Wraps the bytes of a tag, the first `name_len` of which are the name.
    pub fn wrap(content: &'a [u8], name_len: usize) -> (r: Self)
        requires
            name_len <= content@.len(),
        ensures
            r@ == (TagView { content: content@, name_len: name_len as nat }),
    {
        BytesStart { buf: Cow::Borrowed(content), name_len }
    }

    /// Returns the bytes of the tag.
    pub fn as_bytes(&self) -> (r: &[u8])
        ensures
            r@ == self@.content,
    {
        borrow_bytes(&self.buf)
    }

    /// Returns the name of the element.
    pub fn name(&self) -> (r: QName<'_>)
        ensures
            r@ == self@.name(),
            r@.len() == self@.name_len,
    {
        proof {
            use_type_invariant(self);
        }
        QName(vstd::slice::slice_subrange(borrow_bytes(&self.buf), 0, self.name_len))
    }

    /// Creates the end tag that closes the element.
    pub fn to_end(&self) -> (r: BytesEnd<'_>)
        ensures
            r@ == self@.name(),
    {
        BytesEnd::wrap(Cow::Borrowed(self.name().0))
    }
}

/// An end tag.
#[derive(Debug)]
pub struct BytesEnd<'a> {
    name: Cow<'a, [u8]>,
}

impl<'a> View for BytesEnd<'a> {
    type V = Seq<u8>;

    closed spec fn view(&self) -> Seq<u8> {
        self.name@
    }
}

impl<'a> BytesEnd<'a> {
    /// Wraps the name of an element.
    pub fn wrap(name: Cow<'a, [u8]>) -> (r: Self)
        ensures
            r@ == name@,
    {
        BytesEnd { name }
    }

    /// Returns the name of the element.
    pub fn name(&self) -> (r: QName<'_>)
        ensures
            r@ == self@,
    {
        QName(borrow_bytes(&self.name))
    }
}

/// Text between tags, or the content of a comment or a document type declaration.
#[derive(Debug)]
pub struct BytesText<'a> {
    content: Cow<'a, [u8]>,
    decoder: Decoder,
}

impl<'a> View for BytesText<'a> {
    type V = TextView;

    closed spec fn view(&self) -> TextView {
        TextView { content: self.content@, encoding: self.decoder@ }
    }
}

impl<'a> BytesText<'a> {
    /// Wraps the bytes of a text.
    pub fn wrap(content: &'a [u8], decoder: Decoder) -> (r: Self)
        ensures
            r@ == (TextView { content: content@, encoding: decoder@ }),
    {
        BytesText { content: Cow::Borrowed(content), decoder }
    }

    /// Returns the bytes of the text.
    pub fn as_bytes(&self) -> (r: &[u8])
        ensures
            r@ == self@.content,
    {
        borrow_bytes(&self.content)
    }

    /// Checks whether there are no bytes in the text.
    pub fn is_empty(&self) -> (r: bool)
        ensures
            r == (self@.content.len() == 0),
    {
        borrow_bytes(&self.content).len() == 0
    }

    /// Decodes the text.
    pub fn decode(&self) -> (r: Result<Cow<'_, str>, EncodingError>)
        requires
            decodable(self@.encoding, self@.content.len()),
        ensures
            match r {
                Ok(text) => decoding(self@.encoding, self@.content) == Some(text@),
                Err(e) => decoding(self@.encoding, self@.content) is None && e.encoding()
                    == self@.encoding,
            },
            self@.encoding == utf_8() && r is Ok ==> r->Ok_0 is Borrowed,
    {
        self.decoder.decode(borrow_bytes(&self.content))
    }
}

/// The content of a CDATA section.
#[derive(Debug)]
pub struct BytesCData<'a> {
    content: Cow<'a, [u8]>,
    decoder: Decoder,
}

impl<'a> View for BytesCData<'a> {
    type V = TextView;

    closed spec fn view(&self) -> TextView {
        TextView { content: self.content@, encoding: self.decoder@ }
    }
}

impl<'a> BytesCData<'a> {
    /// Wraps the bytes of a CDATA section.
    pub fn wrap(content: &'a [u8], decoder: Decoder) -> (r: Self)
        ensures
            r@ == (TextView { content: content@, encoding: decoder@ }),
    {
        BytesCData { content: Cow::Borrowed(content), decoder }
    }

    /// Returns the bytes of the section.
    pub fn as_bytes(&self) -> (r: &[u8])
        ensures
            r@ == self@.content,
    {
        borrow_bytes(&self.content)
    }
}

/// A character or general entity reference. Contains the bytes between `&` and `;`.
#[derive(Debug)]
pub struct BytesRef<'a> {
    content: Cow<'a, [u8]>,
    decoder: Decoder,
}

impl<'a> View for BytesRef<'a> {
    type V = TextView;

    closed spec fn view(&self) -> TextView {
        TextView { content: self.content@, encoding: self.decoder@ }
    }
}

impl<'a> BytesRef<'a> {
    /// Wraps the bytes of a reference.
    pub fn wrap(content: &'a [u8], decoder: Decoder) -> (r: Self)
        ensures
            r@ == (TextView { content: content@, encoding: decoder@ }),
    {
        BytesRef { content: Cow::Borrowed(content), decoder }
    }

    /// Returns the bytes of the reference.
    pub fn as_bytes(&self) -> (r: &[u8])
        ensures
            r@ == self@.content,
    {
        borrow_bytes(&self.content)
    }
}

/// A processing instruction.
#[derive(Debug)]
pub struct BytesPI<'a> {
    content: Cow<'a, [u8]>,
    name_len: usize,
    decoder: Decoder,
}

impl<'a> View for BytesPI<'a> {
    type V = PiView;

    closed spec fn view(&self) -> PiView {
        PiView {
            content: self.content@,
            name_len: self.name_len as nat,
            encoding: self.decoder@,
        }
    }
}

impl<'a> BytesPI<'a> {
    /// Wraps the bytes of a processing instruction, the first `name_len` of which are the target.
    pub fn wrap(content: &'a [u8], name_len: usize, decoder: Decoder) -> (r: Self)
        requires
            name_len <= content@.len(),
        ensures
            r@ == (PiView {
                content: content@,
                name_len: name_len as nat,
                encoding: decoder@,
            }),
    {
        BytesPI { content: Cow::Borrowed(content), name_len, decoder }
    }

    /// Returns the bytes of the processing instruction.
    pub fn as_bytes(&self) -> (r: &[u8])
        ensures
            r@ == self@.content,
    {
        borrow_bytes(&self.content)
    }
}

/// An XML declaration. Contains the bytes between `<?` and `?>`.
#[derive(Debug)]
pub struct BytesDecl<'a> {
    content: Cow<'a, [u8]>,
}

impl<'a> View for BytesDecl<'a> {
    type V = Seq<u8>;

    closed spec fn view(&self) -> Seq<u8> {
        self.content@
    }
}

/// The bytes of `encoding`.
pub open spec fn encoding_key() -> Seq<u8> {
    seq![0x65u8, 0x6Eu8, 0x63u8, 0x6Fu8, 0x64u8, 0x69u8, 0x6Eu8, 0x67u8]
}

/// The name of the encoding that an XML declaration declares, if it declares one that is known.
pub open spec fn declared_encoding(content: Seq<u8>) -> Option<Seq<char>> {
    match attribute_value(content.skip(3), encoding_key()) {
        Some(label) => label_encoding(label),
        None => None,
    }
}

impl<'a> BytesDecl<'a> {
    #[verifier::type_invariant]
    spec fn target_is_inside(self) -> bool {
        self.content@.len() >= 3
    }

    /// Wraps the bytes of an XML declaration.
    pub fn wrap(content: &'a [u8]) -> (r: Self)
        requires
            content@.len() >= 3,
        ensures
            r@ == content@,
    {
        BytesDecl { content: Cow::Borrowed(content) }
    }

    /// Returns the bytes of the declaration.
    pub fn as_bytes(&self) -> (r: &[u8])
        ensures
            r@ == self@,
    {
        borrow_bytes(&self.content)
    }

    /// Returns the encoding that the declaration declares, if it declares one that is known.
    pub fn encoder(&self) -> (r: Option<Encoding>)
        ensures
            match r {
                Some(e) => declared_encoding(self@) == Some(e@),
                None => declared_encoding(self@) is None,
            },
    {
        proof {
            use_type_invariant(self);
        }
        let content = borrow_bytes(&self.content);
        let attributes = vstd::slice::slice_subrange(content, 3, content.len());
        assert(attributes@ =~= self@.skip(3));
        let key = [0x65u8, 0x6Eu8, 0x63u8, 0x6Fu8, 0x64u8, 0x69u8, 0x6Eu8, 0x67u8];
        assert(key@ =~= encoding_key());
        match find_attribute(attributes, &key) {
            Some(label) => Encoding::for_label(label),
            None => None,
        }
    }
}

/// An event that a reader emits.
#[derive(Debug)]
pub enum Event<'a> {
    /// Start tag `<tag attr="value">`.
    Start(BytesStart<'a>),
    /// End tag `</tag>`.
    End(BytesEnd<'a>),
    /// Empty element tag `<tag attr="value" />`.
    Empty(BytesStart<'a>),
    /// Text between tags.
    Text(BytesText<'a>),
    /// CDATA section `<![CDATA[...]]>`.
    CData(BytesCData<'a>),
    /// Comment `<!-- ... -->`.
    Comment(BytesText<'a>),
    /// XML declaration `<?xml ...?>`.
    Decl(BytesDecl<'a>),
    /// Processing instruction `<?...?>`.
    PI(BytesPI<'a>),
    /// Document type declaration `<!DOCTYPE ...>`.
    DocType(BytesText<'a>),
    /// Reference `&...;` in text.
    GeneralRef(BytesRef<'a>),
    /// End of the document.
    Eof,
}

impl<'a> View for Event<'a> {
    type V = EventView;

    open spec fn view(&self) -> EventView {
        match self {
            Event::Start(e) => EventView::Start(e@),
            Event::End(e) => EventView::End(e@),
            Event::Empty(e) => EventView::Empty(e@),
            Event::Text(e) => EventView::Text(e@),
            Event::CData(e) => EventView::CData(e@),
            Event::Comment(e) => EventView::Comment(e@),
            Event::Decl(e) => EventView::Decl(e@),
            Event::PI(e) => EventView::PI(e@),
            Event::DocType(e) => EventView::DocType(e@),
            Event::GeneralRef(e) => EventView::GeneralRef(e@),
            Event::Eof => EventView::Eof,
        }
    }
}

} // verus!
