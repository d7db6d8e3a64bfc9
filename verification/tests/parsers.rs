//! Parsers that look for the end of markup.

use quick_xml::attributes::find_attribute;
use quick_xml::errors::SyntaxError;
use quick_xml::parser::fast_element::FastElementParser;
use quick_xml::parser::{DtdParser, Parser, PiParser};
use quick_xml::reader::BangType;
use quick_xml::utils::{count_leading_space, count_word, is_whitespace, trimmed_end};

#[test]
fn tags_end_outside_of_quotes() {
    let mut parser = FastElementParser::default();
    assert_eq!(parser.feed(b"a b='>' c=\">\" >d>"), Some((1, 14)));

    let mut parser = FastElementParser::default();
    assert_eq!(parser.feed(b"na"), None);
    assert_eq!(parser.feed(b"me"), None);
    assert_eq!(parser.feed(b" x='>"), None);
    assert_eq!(parser.eof_error(b"name x='>"), SyntaxError::UnclosedSingleQuotedAttributeValue);
    assert_eq!(parser.feed(b"\">'"), None);
    assert_eq!(parser.feed(b">"), Some((4, 0)));

    let mut parser = FastElementParser::default();
    assert_eq!(parser.feed(b">"), Some((0, 0)));
    assert_eq!(FastElementParser::default().eof_error(b""), SyntaxError::UnclosedTag);
}

#[test]
fn processing_instructions_end_with_a_question_mark() {
    let mut parser = PiParser(false);
    assert_eq!(parser.feed(b"?a>b?>"), Some(5));

    let mut parser = PiParser(false);
    assert_eq!(parser.feed(b"?>"), Some(1));

    let mut parser = PiParser(false);
    assert_eq!(parser.feed(b"?"), None);
    assert_eq!(parser.feed(b">"), Some(0));

    let mut parser = PiParser(false);
    assert_eq!(parser.feed(b"?xml "), None);
    assert_eq!(parser.feed(b">"), None);
    assert_eq!(parser.eof_error(b"?xml >"), SyntaxError::UnclosedXmlDecl);
    assert_eq!(PiParser(true).eof_error(b"?xml-x"), SyntaxError::UnclosedPI);
}

#[test]
fn kinds_of_markup_with_a_bang() {
    assert_eq!(BangType::new(Some(b'[')), Ok(BangType::CData));
    assert_eq!(BangType::new(Some(b'-')), Ok(BangType::Comment));
    let doctype = BangType::DocType(DtdParser::BeforeInternalSubset(0));
    assert_eq!(BangType::new(Some(b'D')), Ok(doctype));
    assert_eq!(BangType::new(Some(b'd')), Ok(doctype));
    assert_eq!(BangType::new(Some(b'E')), Err(SyntaxError::InvalidBangMarkup));
    assert_eq!(BangType::new(None), Err(SyntaxError::InvalidBangMarkup));
    assert_eq!(BangType::CData.to_err(), SyntaxError::UnclosedCData);
    assert_eq!(BangType::Comment.to_err(), SyntaxError::UnclosedComment);
    assert_eq!(doctype.to_err(), SyntaxError::UnclosedDoctype);
}

#[test]
fn comments_end_with_two_hyphens() {
    let parse = |buf: &[u8], chunk: &'static [u8]| BangType::Comment.parse(buf, chunk);
    assert_eq!(parse(b"", b"!-->-->x"), Some((b"!-->--".as_slice(), 7)));
    assert_eq!(parse(b"", b"!---->"), Some((b"!----".as_slice(), 6)));
    assert_eq!(parse(b"", b"!--->"), None);
    assert_eq!(parse(b"!--a-", b"->b"), Some((b"-".as_slice(), 2)));
    assert_eq!(parse(b"!--a--", b">b"), Some((b"".as_slice(), 1)));
    assert_eq!(parse(b"!--", b">"), None);
    assert_eq!(parse(b"!--a", b"b>->-->"), Some((b"b>->--".as_slice(), 7)));
}

#[test]
fn cdata_ends_with_two_brackets() {
    let parse = |buf: &[u8], chunk: &'static [u8]| BangType::CData.parse(buf, chunk);
    assert_eq!(parse(b"", b"![CDATA[a]>]]>b"), Some((b"![CDATA[a]>]]".as_slice(), 14)));
    assert_eq!(parse(b"![CDATA[a]", b"]>b"), Some((b"]".as_slice(), 2)));
    assert_eq!(parse(b"![CDATA[a]]", b">b"), Some((b"".as_slice(), 1)));
    assert_eq!(parse(b"![CDATA[a]", b">b"), None);
}

#[test]
fn doctypes_end_after_the_internal_subset() {
    let parse = |chunks: Vec<&'static str>| {
        let mut bang = BangType::new(Some(b'D')).unwrap();
        let mut buf: Vec<u8> = Vec::new();
        for chunk in chunks {
            if let Some((_, used)) = bang.parse(&buf, chunk.as_bytes()) {
                return Some(buf.len() + used);
            }
            buf.extend_from_slice(chunk.as_bytes());
        }
        None
    };
    assert_eq!(parse(vec!["!DOCTYPE a>"]), Some(11));
    assert_eq!(parse(vec!["!DOCTYPE <a> b>"]), Some(15));
    assert_eq!(parse(vec!["!DOCTYPE a [", ">", "]", " >"]), Some(16));
    assert_eq!(parse(vec!["!DOCTYPE a [<", "!", "-", "-", "]>", "-", "-", ">]>"]), Some(23));
    assert_eq!(parse(vec!["!DOCTYPE a [<?", "]>", "?", ">]>"]), Some(20));
    assert_eq!(parse(vec!["!DOCTYPE a [<!ENTITY '", "]>", "'>]>"]), Some(28));
    assert_eq!(parse(vec!["!DOCTYPE a [", "]"]), None);
}

#[test]
fn attributes_by_their_keys() {
    assert_eq!(find_attribute(b" version='1.0' encoding=\"utf-8\"", b"encoding"), Some(b"utf-8".as_slice()));
    assert_eq!(find_attribute(b" version = '1.0'", b"version"), Some(b"1.0".as_slice()));
    assert_eq!(find_attribute(b" version='1.0'", b"encoding"), None);
    assert_eq!(find_attribute(b"", b"encoding"), None);
}

#[test]
fn white_space() {
    assert_eq!((0..=255u8).filter(|b| is_whitespace(*b)).collect::<Vec<u8>>(), b"\t\n\r ");
    assert_eq!(count_leading_space(b" \t\r\na "), 4);
    assert_eq!(count_leading_space(b"  "), 2);
    assert_eq!(count_word(b"ab c"), 2);
    assert_eq!(count_word(b"ab"), 2);
    assert_eq!(trimmed_end(b" a b \n"), b" a b");
    assert_eq!(trimmed_end(b" \n"), b"");
}
