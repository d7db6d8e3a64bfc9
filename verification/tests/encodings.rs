//! Encodings of documents.

use quick_xml::encoding::{detect_encoding, Decoder, Encoding, EncodingError};
use quick_xml::errors::{Error, IllFormedError};
use quick_xml::events::Event;
use quick_xml::name::QName;
use quick_xml::reader::{EncodingRef, Reader};

fn text_of(bytes: &[u8]) -> String {
    let mut reader = Reader::from_reader(bytes);
    loop {
        match reader.read_event().unwrap() {
            Event::Text(e) => return e.decode().unwrap().into_owned(),
            Event::Eof => unreachable!(),
            _ => {}
        }
    }
}

fn name_of(encoding: Option<Encoding>) -> Option<&'static str> {
    encoding.map(|e| e.name())
}

#[test]
fn labels_of_encodings() {
    assert_eq!(name_of(Encoding::for_label(b"utf-8")), Some("UTF-8"));
    assert_eq!(name_of(Encoding::for_label(b" Windows-1251 ")), Some("windows-1251"));
    assert_eq!(name_of(Encoding::for_label(b"latin1")), Some("windows-1252"));
    assert_eq!(name_of(Encoding::for_label(b"utf-16")), Some("UTF-16LE"));
    assert_eq!(name_of(Encoding::for_label(b"no such encoding")), None);
}

#[test]
fn decoding() {
    let utf_8 = Decoder::new(Encoding::utf_8());
    assert_eq!(utf_8.decode("\u{43F}".as_bytes()).unwrap(), "\u{43F}");
    // A byte order mark is not removed
    assert_eq!(utf_8.decode(b"\xEF\xBB\xBFa").unwrap(), "\u{FEFF}a");
    match utf_8.decode(b"a\xFF") {
        Err(EncodingError::Malformed(e)) => assert_eq!(e.name(), "UTF-8"),
        other => panic!("{:?}", other),
    }
    assert_eq!(utf_8.decode_or_default(b"ab"), "ab");
    assert_eq!(utf_8.decode_or_default(b"a\xFF"), "");

    let cyrillic = Decoder::new(Encoding::for_label(b"windows-1251").unwrap());
    assert_eq!(cyrillic.decode(b"\xEF\xF0").unwrap(), "\u{43F}\u{440}");
    assert_eq!(cyrillic.encoding().name(), "windows-1251");

    let utf_16 = Decoder::new(Encoding::utf_16le());
    assert_eq!(utf_16.decode(b"a\0\x3F\x04").unwrap(), "a\u{43F}");
    assert!(utf_16.decode(b"a\0\x3F").is_err());
    let utf_16 = Decoder::new(Encoding::utf_16be());
    assert_eq!(utf_16.decode(b"\0a\x04\x3F").unwrap(), "a\u{43F}");
}

#[test]
fn first_bytes_of_documents() {
    let detected = |bytes: &[u8]| detect_encoding(bytes).map(|(e, n)| (e.name(), n));
    assert_eq!(detected(b"\xFE\xFF"), Some(("UTF-16BE", 2)));
    assert_eq!(detected(b"\xFF\xFE\0"), Some(("UTF-16LE", 2)));
    assert_eq!(detected(b"\xEF\xBB\xBFa"), Some(("UTF-8", 3)));
    assert_eq!(detected(b"\0<\0?"), Some(("UTF-16BE", 0)));
    assert_eq!(detected(b"<\0?\0"), Some(("UTF-16LE", 0)));
    assert_eq!(detected(b"<?xml"), Some(("UTF-8", 0)));
    assert_eq!(detected(b"<?x"), None);
    assert_eq!(detected(b"<a>"), None);
    assert_eq!(detected(b"\xEF\xBB"), None);
    assert_eq!(detected(b""), None);
}

#[test]
fn declared_encoding_is_used() {
    assert_eq!(
        text_of(b"<?xml version='1.0' encoding='windows-1251'?><a>\xEF\xF0</a>"),
        "\u{43F}\u{440}"
    );
    assert_eq!(
        text_of(b"<?xml version = \"1.0\" encoding = \"koi8-r\"?><a>\xD0\xD2</a>"),
        "\u{43F}\u{440}"
    );
    // Unknown encodings are ignored
    assert_eq!(text_of("<?xml encoding='unknown'?><a>\u{43F}</a>".as_bytes()), "\u{43F}");
    // A byte order mark is overruled by the declaration
    assert_eq!(text_of(b"\xEF\xBB\xBF<?xml encoding='windows-1251'?>\xEF"), "\u{43F}");
}

#[test]
fn the_first_declaration_counts() {
    assert_eq!(
        text_of(b"<?xml encoding='windows-1251'?><?xml encoding='koi8-r'?>\xEF"),
        "\u{43F}"
    );
}

#[test]
fn encoding_of_a_string_is_fixed() {
    let mut reader = Reader::from_str("\u{FEFF}<?xml encoding='windows-1251'?>\u{43F}");
    assert_eq!(reader.decoder().encoding().name(), "UTF-8");
    match reader.read_event() {
        Ok(Event::Decl(e)) => assert_eq!(name_of(e.encoder()), Some("windows-1251")),
        other => panic!("{:?}", other),
    }
    assert_eq!(reader.decoder().encoding().name(), "UTF-8");
    match reader.read_event() {
        Ok(Event::Text(e)) => assert_eq!(e.decode().unwrap(), "\u{43F}"),
        other => panic!("{:?}", other),
    }
}

#[test]
fn utf8_readers_do_not_detect() {
    let mut reader = Reader::from_utf8_reader(b"\xEF\xBB\xBF<a/>\xFF\xFE".as_slice());
    assert!(matches!(reader.read_event(), Ok(Event::Empty(_))));
    // The byte order mark counts
    assert_eq!(reader.buffer_position(), 7);
    match reader.read_event() {
        Ok(Event::Text(e)) => {
            assert_eq!(e.as_bytes(), b"\xFF\xFE");
            assert!(e.decode().is_err());
        }
        other => panic!("{:?}", other),
    }

    let mut reader = Reader::from_utf8_reader(b"\xFF\xFE<\0a\0>\0".as_slice());
    match reader.read_event() {
        Ok(Event::Text(e)) => assert_eq!(e.as_bytes(), b"\xFF\xFE"),
        other => panic!("{:?}", other),
    }
}

#[test]
fn byte_order_marks_are_removed() {
    for (bytes, name, end) in vec![
        (b"\xEF\xBB\xBFab".as_slice(), "UTF-8", 5),
        (b"\xFE\xFFab".as_slice(), "UTF-16BE", 4),
        (b"\xFF\xFEab".as_slice(), "UTF-16LE", 4),
    ] {
        let mut reader = Reader::from_reader(bytes);
        match reader.read_event() {
            Ok(Event::Text(e)) => assert_eq!(e.as_bytes(), b"ab"),
            other => panic!("{:?}", other),
        }
        assert_eq!(reader.decoder().encoding().name(), name);
        assert_eq!(reader.buffer_position(), end);

        let mut reader = Reader::from_reader(bytes);
        let mut buf = Vec::new();
        match reader.read_event_into(&mut buf) {
            Ok(Event::Text(e)) => assert_eq!(e.as_bytes(), b"ab"),
            other => panic!("{:?}", other),
        }
        assert_eq!(reader.decoder().encoding().name(), name);
        assert_eq!(reader.buffer_position(), end);
    }
}

#[test]
fn byte_order_marks_count_in_positions() {
    let mut reader = Reader::from_str("\u{feff}<a/>");
    assert!(matches!(reader.read_event(), Ok(Event::Empty(_))));
    assert_eq!(reader.buffer_position(), 7);

    let mut reader = Reader::from_str("\u{feff}<a");
    assert!(reader.read_event().is_err());
    assert_eq!(reader.error_position(), 3);
    assert_eq!(reader.buffer_position(), 5);

    let mut reader = Reader::from_str("\u{feff}<a>b</a>");
    reader.read_event().unwrap();
    assert_eq!(reader.read_to_end(QName(b"a")).unwrap(), 6..7);

    // The mark is a part of the document
    let mut reader = Reader::from_str("\u{feff}b</a>");
    reader.config_mut().allow_unmatched_ends = true;
    assert_eq!(reader.read_text(QName(b"a")).unwrap(), "\u{feff}b");

    // The same events with and without a mark
    let xml = "<a>b</c>&d;<e";
    let with = ["\u{feff}", xml].concat();
    for (mut marked, mut plain) in vec![
        (Reader::from_utf8_reader(with.as_bytes()), Reader::from_utf8_reader(xml.as_bytes())),
        (Reader::from_str(&with), Reader::from_str(xml)),
    ] {
        for _ in 0..7 {
            assert_eq!(format!("{:?}", marked.read_event()), format!("{:?}", plain.read_event()));
            assert_eq!(marked.buffer_position(), plain.buffer_position() + 3);
        }
        assert_eq!((marked.error_position(), plain.error_position()), (14, 11));
    }
}

#[test]
fn byte_order_mark_in_a_stream_of_utf8() {
    let mut reader = Reader::from_utf8_reader(b"\xEF\xBB\xBFa".as_slice());
    let mut buf = Vec::new();
    match reader.read_event_into(&mut buf) {
        Ok(Event::Text(e)) => assert_eq!(e.as_bytes(), b"a"),
        other => panic!("{:?}", other),
    }
    assert_eq!(reader.buffer_position(), 4);
}

#[test]
fn names_in_errors_are_decoded() {
    let xml = b"<?xml encoding='windows-1251'?><\xEF></\xF0></\xF1>";
    let mut reader = Reader::from_reader(xml.as_slice());
    reader.read_event().unwrap();
    reader.read_event().unwrap();
    match reader.read_event() {
        Err(Error::IllFormed(IllFormedError::MismatchedEndTag { expected, found })) => {
            assert_eq!((expected.as_str(), found.as_str()), ("\u{43F}", "\u{440}"));
        }
        other => panic!("{:?}", other),
    }
    match reader.read_event() {
        Err(Error::IllFormed(IllFormedError::UnmatchedEndTag(name))) => {
            assert_eq!(name, "\u{441}")
        }
        other => panic!("{:?}", other),
    }
    match reader.read_to_end(QName(b"\xF2")) {
        Err(Error::IllFormed(IllFormedError::MissingEndTag(name))) => assert_eq!(name, "\u{442}"),
        other => panic!("{:?}", other),
    }
}

#[test]
fn names_that_cannot_be_decoded_are_empty_in_errors() {
    let mut reader = Reader::from_utf8_reader(b"<a></\xFF>".as_slice());
    reader.read_event().unwrap();
    match reader.read_event() {
        Err(Error::IllFormed(IllFormedError::MismatchedEndTag { expected, found })) => {
            assert_eq!((expected.as_str(), found.as_str()), ("a", ""));
        }
        other => panic!("{:?}", other),
    }
    match reader.read_to_end(QName(b"\xFF")) {
        Err(Error::IllFormed(IllFormedError::MissingEndTag(name))) => assert_eq!(name, ""),
        other => panic!("{:?}", other),
    }
}

#[test]
fn text_is_decoded_as_declared() {
    let xml = b"<?xml encoding='windows-1251'?><a>\xEF<b/></a>";
    let mut reader = Reader::from_reader(xml.as_slice());
    reader.read_event().unwrap();
    reader.read_event().unwrap();
    assert_eq!(reader.read_text(QName(b"a")).unwrap(), "\u{43F}<b/>");

    let xml = b"<?xml encoding='windows-1251'?><a>b<c>\xEF</c></a>";
    let mut reader = Reader::from_reader(xml.as_slice());
    reader.read_event().unwrap();
    reader.read_event().unwrap();
    reader.read_event().unwrap();
    assert_eq!(reader.read_text(QName(b"a")).unwrap(), "<c>\u{43F}</c>");
}

#[test]
fn which_encodings_can_be_refined() {
    let utf_8 = Encoding::utf_8();
    for (encoding, refinable) in vec![
        (EncodingRef::Implicit(utf_8), true),
        (EncodingRef::Explicit(utf_8), false),
        (EncodingRef::BomDetected(utf_8), true),
        (EncodingRef::XmlDetected(utf_8), false),
    ] {
        assert_eq!(encoding.can_be_refined(), refinable);
        assert_eq!(encoding.encoding().name(), "UTF-8");
    }
}
