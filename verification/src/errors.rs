//! Errors that reading a document can end with.

use vstd::prelude::*;

use crate::encoding::{decodable, decoded_or_empty, Decoder, EncodingError};
use crate::name::QName;

verus! {

/// Declares `std::io::Error`, which is carried from the source of data to the caller.
#[verifier::external_type_specification]
#[verifier::external_body]
pub struct ExIoError(std::io::Error);

/// An error in the syntax of a document, after which reading stops.
#[derive(Clone, Copy, Debug, PartialEq, Eq, Structural)]
pub enum SyntaxError {
    /// The `<!` is followed by something that starts neither a comment, nor a CDATA
    /// section, nor a document type declaration.
    InvalidBangMarkup,
    /// The document ended before the `?>` of a processing instruction.
    UnclosedPI,
    /// The document ended before the `?>` of the XML declaration.
    UnclosedXmlDecl,
    /// The document ended before the `-->` of a comment.
    UnclosedComment,
    /// The document ended before the `>` of a document type declaration.
    UnclosedDoctype,
    /// The document ended before the `]]>` of a CDATA section.
    UnclosedCData,
    /// The document ended before the `>` of a tag.
    UnclosedTag,
    /// The document ended inside of an attribute value in single quotes.
    UnclosedSingleQuotedAttributeValue,
    /// The document ended inside of an attribute value in double quotes.
    UnclosedDoubleQuotedAttributeValue,
}

/// A violation of well-formedness, after which reading can go on.
#[derive(Debug)]
pub enum IllFormedError {
    /// A document type declaration without a name.
    MissingDoctypeName,
    /// The document ended before the end tag with this name.
    MissingEndTag(String),
    /// An end tag with this name that has no start tag.
    UnmatchedEndTag(String),
    /// An end tag whose name differs from that of its start tag.
    MismatchedEndTag {
        /// The name of the start tag.
        expected: String,
        /// The name of the end tag.
        found: String,
    },
    /// A comment that contains `--`.
    DoubleHyphenInComment,
    /// An `&` that no `;` follows.
    UnclosedReference,
}

/// An error that reading an event can end with.
#[derive(Debug)]
pub enum Error {
    /// The source of data failed.
    Io(std::io::Error),
    /// The syntax of the document is wrong.
    Syntax(SyntaxError),
    /// The document is not well-formed.
    IllFormed(IllFormedError),
    /// Some bytes of the document could not be decoded.
    Encoding(EncodingError),
}

/// What an [`IllFormedError`] says.
#[verifier::ext_equal]
pub enum IllFormedView {
    MissingDoctypeName,
    MissingEndTag(Seq<char>),
    UnmatchedEndTag(Seq<char>),
    MismatchedEndTag { expected: Seq<char>, found: Seq<char> },
    DoubleHyphenInComment,
    UnclosedReference,
}

/// What an [`Error`] says. An encoding error is known by the name of the encoding.
#[verifier::ext_equal]
pub enum ErrorView {
    Io(std::io::Error),
    Syntax(SyntaxError),
    IllFormed(IllFormedView),
    Encoding(Seq<char>),
}

impl View for IllFormedError {
    type V = IllFormedView;

    open spec fn view(&self) -> IllFormedView {
        match self {
            IllFormedError::MissingDoctypeName => IllFormedView::MissingDoctypeName,
            IllFormedError::MissingEndTag(name) => IllFormedView::MissingEndTag(name@),
            IllFormedError::UnmatchedEndTag(name) => IllFormedView::UnmatchedEndTag(name@),
            IllFormedError::MismatchedEndTag { expected, found } =>
                IllFormedView::MismatchedEndTag { expected: expected@, found: found@ },
            IllFormedError::DoubleHyphenInComment => IllFormedView::DoubleHyphenInComment,
            IllFormedError::UnclosedReference => IllFormedView::UnclosedReference,
        }
    }
}

impl View for Error {
    type V = ErrorView;

    open spec fn view(&self) -> ErrorView {
        match self {
            Error::Io(e) => ErrorView::Io(*e),
            Error::Syntax(e) => ErrorView::Syntax(*e),
            Error::IllFormed(e) => ErrorView::IllFormed(e@),
            Error::Encoding(e) => ErrorView::Encoding(e.encoding()),
        }
    }
}

/// The error for a document that ended before the end tag with the given name.
pub open spec fn missed_end(name: Seq<u8>, encoding: Seq<char>) -> ErrorView {
    ErrorView::IllFormed(IllFormedView::MissingEndTag(decoded_or_empty(encoding, name)))
}

impl Error {
    /// Creates the error for a document that ended before the end tag with the given name.
    pub fn missed_end(name: QName, decoder: Decoder) -> (r: Self)
        requires
            decodable(decoder@, name@.len()),
        ensures
            r@ == missed_end(name@, decoder@),
    {
        Error::IllFormed(IllFormedError::MissingEndTag(decoder.decode_or_default(name.0)))
    }
}

} // verus!
