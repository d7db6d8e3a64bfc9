//! Encodings of XML documents and their decoding.

use std::borrow::Cow;
use vstd::prelude::*;
use vstd::utf8::{decode_utf8, valid_utf8};

use crate::bytes::{LT, QUESTION};
use crate::utils::{has_prefix, starts_with};

verus! {

/// A character encoding, known by the name that the Encoding Standard gives it.
#[derive(Clone, Copy, Debug)]
pub struct Encoding {
    name: &'static str,
}

impl View for Encoding {
    type V = Seq<char>;

    closed spec fn view(&self) -> Seq<char> {
        self.name@
    }
}

/// The name of UTF-8.
pub open spec fn utf_8() -> Seq<char> {
    "UTF-8"@
}

/// The name of big endian UTF-16.
pub open spec fn utf_16be() -> Seq<char> {
    "UTF-16BE"@
}

/// The name of little endian UTF-16.
pub open spec fn utf_16le() -> Seq<char> {
    "UTF-16LE"@
}

impl Encoding {
    /// UTF-8.
    pub fn utf_8() -> (r: Self)
        ensures
            r@ == utf_8(),
    {
        Encoding { name: "UTF-8" }
    }

    /// Big endian UTF-16.
    pub fn utf_16be() -> (r: Self)
        ensures
            r@ == utf_16be(),
    {
        Encoding { name: "UTF-16BE" }
    }

    /// Little endian UTF-16.
    pub fn utf_16le() -> (r: Self)
        ensures
            r@ == utf_16le(),
    {
        Encoding { name: "UTF-16LE" }
    }

    /// Returns the name of the encoding.
    pub fn name(&self) -> (r: &'static str)
        ensures
            r@ == self@,
    {
        self.name
    }

    /// Finds the encoding with the given label, if there is one.
    pub fn for_label(label: &[u8]) -> (r: Option<Self>)
        ensures
            match r {
                Some(e) => label_encoding(label@) == Some(e@),
                None => label_encoding(label@) is None,
            },
    {
        match name_for_label(label) {
            Some(name) => Some(Encoding { name }),
            None => None,
        }
    }
}

/// The name of the encoding that `encoding_rs::Encoding::for_label` finds for a label.
pub uninterp spec fn label_encoding(label: Seq<u8>) -> Option<Seq<char>>;

/// The characters that `encoding_rs` decodes `bytes` to, where `encoding` is the
/// name of an encoding; `None` if some of the bytes are malformed.
pub uninterp spec fn decoded(encoding: Seq<char>, bytes: Seq<u8>) -> Option<Seq<char>>;

/// The characters that `bytes` are decoded to, where `encoding` is the name of an encoding; `None`
/// if some of the bytes are malformed.
pub open spec fn decoding(encoding: Seq<char>, bytes: Seq<u8>) -> Option<Seq<char>> {
    if encoding == utf_8() {
        if valid_utf8(bytes) {
            Some(decode_utf8(bytes))
        } else {
            None
        }
    } else {
        decoded(encoding, bytes)
    }
}

/// Whether `n` bytes in the given encoding can be decoded: UTF-8 is decoded in place,
/// for the others the size of the decoded text has to be computed first.
pub open spec fn decodable(encoding: Seq<char>, n: nat) -> bool {
    encoding == utf_8() || 4 * n + 64 <= isize::MAX
}

/// Calls `encoding_rs::Encoding::for_label` and returns the name of the encoding.
///
/// Claims that whether an encoding is found, and which one, depends on the label
/// alone. Which labels there are is not stated.
#[verifier::external_body]
fn name_for_label(label: &[u8]) -> (r: Option<&'static str>)
    ensures
        match r {
            Some(name) => label_encoding(label@) == Some(name@),
            None => label_encoding(label@) is None,
        },
{
    encoding_rs::Encoding::for_label(label).map(|e| e.name())
}

/// Calls `encoding_rs::Encoding::decode_without_bom_handling_and_without_replacement`
/// on the encoding with the given name. (The name of each encoding is also one of its
/// labels.)
///
/// Claims that the decoded text depends on the encoding and the bytes alone, and that
/// UTF-8 is decoded as UTF-8, by borrowing the bytes, and nothing is decoded where it is
/// not valid UTF-8. How other encodings are decoded is not stated.
#[verifier::external_body]
fn decode_named<'a>(encoding: &'static str, bytes: &'a [u8]) -> (r: Option<Cow<'a, str>>)
    requires
        decodable(encoding@, bytes@.len()),
    ensures
        match r {
            Some(text) => decoded(encoding@, bytes@) == Some(text@),
            None => decoded(encoding@, bytes@) is None,
        },
        encoding@ == utf_8() ==> match r {
            Some(text) => {
                &&& valid_utf8(bytes@)
                &&& text@ == decode_utf8(bytes@)
                &&& text is Borrowed
            },
            None => !valid_utf8(bytes@),
        },
{
    match encoding_rs::Encoding::for_label(encoding.as_bytes()) {
        Some(e) => e.decode_without_bom_handling_and_without_replacement(bytes),
        None => None,
    }
}

/// The reason why some bytes could not be decoded.
#[derive(Clone, Copy, Debug)]
pub enum EncodingError {
    /// The bytes are malformed in the given encoding.
    Malformed(Encoding),
}

impl EncodingError {
    /// The name of the encoding in which the bytes are malformed.
    pub open spec fn encoding(self) -> Seq<char> {
        match self {
            EncodingError::Malformed(e) => e@,
        }
    }
}

/// Decodes bytes of a document to text.
#[derive(Clone, Copy, Debug)]
pub struct Decoder {
    encoding: Encoding,
}

impl View for Decoder {
    type V = Seq<char>;

    closed spec fn view(&self) -> Seq<char> {
        self.encoding@
    }
}

impl Decoder {
    /// Creates a decoder of the given encoding.
    pub fn new(encoding: Encoding) -> (r: Self)
        ensures
            r@ == encoding@,
    {
        Decoder { encoding }
    }

    /// Returns the encoding that the decoder decodes from.
    pub fn encoding(&self) -> (r: Encoding)
        ensures
            r@ == self@,
    {
        self.encoding
    }

    /// Decodes `bytes`. Malformed bytes are an error, and a byte order mark is not removed. Text in
    /// UTF-8 is not copied.
    pub fn decode<'a>(&self, bytes: &'a [u8]) -> (r: Result<Cow<'a, str>, EncodingError>)
        requires
            decodable(self@, bytes@.len()),
        ensures
            match r {
                Ok(text) => decoding(self@, bytes@) == Some(text@),
                Err(e) => decoding(self@, bytes@) is None && e.encoding() == self@,
            },
            self@ == utf_8() && r is Ok ==> r->Ok_0 is Borrowed,
    {
        match decode_named(self.encoding.name, bytes) {
            Some(text) => Ok(text),
            None => Err(EncodingError::Malformed(self.encoding)),
        }
    }

    /// Decodes `bytes` as [`decode()`](Self::decode) does, to text that does not borrow from them.
    pub fn decode_to_owned<'a>(&self, bytes: &[u8]) -> (r: Result<Cow<'a, str>, EncodingError>)
        requires
            decodable(self@, bytes@.len()),
        ensures
            match r {
                Ok(text) => decoding(self@, bytes@) == Some(text@),
                Err(e) => decoding(self@, bytes@) is None && e.encoding() == self@,
            },
    {
        match self.decode(bytes) {
            Ok(Cow::Borrowed(text)) => Ok(Cow::Owned(text.to_owned())),
            Ok(Cow::Owned(text)) => Ok(Cow::Owned(text)),
            Err(e) => Err(e),
        }
    }

    /// Decodes `bytes` to an owned string, which is empty if they are malformed.
    pub fn decode_or_default(&self, bytes: &[u8]) -> (r: String)
        requires
            decodable(self@, bytes@.len()),
        ensures
            r@ == decoded_or_empty(self@, bytes@),
    {
        match self.decode(bytes) {
            Ok(Cow::Borrowed(text)) => text.to_owned(),
            Ok(Cow::Owned(text)) => text,
            Err(_) => {
                let text = String::new();
                assert(text@ =~= Seq::<char>::empty());
                text
            },
        }
    }
}

/// The decoded bytes, or nothing if they are malformed.
pub open spec fn decoded_or_empty(encoding: Seq<char>, bytes: Seq<u8>) -> Seq<char> {
    match decoding(encoding, bytes) {
        Some(text) => text,
        None => Seq::empty(),
    }
}

/// The byte order mark of UTF-8.
pub open spec fn utf8_bom() -> Seq<u8> {
    seq![0xEFu8, 0xBBu8, 0xBFu8]
}

/// The encoding that the first bytes of a document show, and the length of the byte
/// order mark among them.
pub open spec fn bom_encoding(s: Seq<u8>) -> Option<(Seq<char>, nat)> {
    if has_prefix(s, seq![0xFEu8, 0xFFu8]) {
        Some((utf_16be(), 2))
    } else if has_prefix(s, seq![0xFFu8, 0xFEu8]) {
        Some((utf_16le(), 2))
    } else if has_prefix(s, utf8_bom()) {
        Some((utf_8(), 3))
    } else if has_prefix(s, seq![0x00u8, LT, 0x00u8, QUESTION]) {
        Some((utf_16be(), 0))
    } else if has_prefix(s, seq![LT, 0x00u8, QUESTION, 0x00u8]) {
        Some((utf_16le(), 0))
    } else if has_prefix(s, seq![LT, QUESTION, 0x78u8, 0x6Du8]) {
        Some((utf_8(), 0))
    } else {
        None
    }
}

/// Checks whether `bytes` starts with the byte order mark of UTF-8.
pub fn starts_with_utf8_bom(bytes: &[u8]) -> (r: bool)
    ensures
        r == has_prefix(bytes@, utf8_bom()),
{
    let bom = [0xEFu8, 0xBBu8, 0xBFu8];
    assert(bom@ =~= utf8_bom());
    starts_with(bytes, &bom)
}

/// Detects the encoding of a document by the byte order mark or, if there is none, by
/// the bytes of `<?xml`. Returns the encoding and the length of the byte order mark.
pub fn detect_encoding(bytes: &[u8]) -> (r: Option<(Encoding, usize)>)
    ensures
        match r {
            Some((e, n)) => bom_encoding(bytes@) == Some((e@, n as nat)) && n <= bytes@.len(),
            None => bom_encoding(bytes@) is None,
        },
{
    let utf16be_bom = [0xFEu8, 0xFFu8];
    let utf16le_bom = [0xFFu8, 0xFEu8];
    let utf16be_start = [0x00u8, LT, 0x00u8, QUESTION];
    let utf16le_start = [LT, 0x00u8, QUESTION, 0x00u8];
    let ascii_start = [LT, QUESTION, 0x78u8, 0x6Du8];
    assert(utf16be_bom@ =~= seq![0xFEu8, 0xFFu8]);
    assert(utf16le_bom@ =~= seq![0xFFu8, 0xFEu8]);
    assert(utf16be_start@ =~= seq![0x00u8, LT, 0x00u8, QUESTION]);
    assert(utf16le_start@ =~= seq![LT, 0x00u8, QUESTION, 0x00u8]);
    assert(ascii_start@ =~= seq![LT, QUESTION, 0x78u8, 0x6Du8]);
    if starts_with(bytes, &utf16be_bom) {
        Some((Encoding::utf_16be(), 2))
    } else if starts_with(bytes, &utf16le_bom) {
        Some((Encoding::utf_16le(), 2))
    } else if starts_with_utf8_bom(bytes) {
        Some((Encoding::utf_8(), 3))
    } else if starts_with(bytes, &utf16be_start) {
        Some((Encoding::utf_16be(), 0))
    } else if starts_with(bytes, &utf16le_start) {
        Some((Encoding::utf_16le(), 0))
    } else if starts_with(bytes, &ascii_start) {
        Some((Encoding::utf_8(), 0))
    } else {
        None
    }
}

} // verus!
