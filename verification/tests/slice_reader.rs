//! Reading from slices.

use quick_xml::errors::{Error, IllFormedError, SyntaxError};
use quick_xml::events::Event;
use quick_xml::name::QName;
use quick_xml::reader::{Config, Reader};
use std::borrow::Cow;

fn lossy(bytes: &[u8]) -> String {
    String::from_utf8_lossy(bytes).into_owned()
}

fn show(event: &Event) -> String {
    match event {
        Event::Start(e) => format!("Start({})", lossy(e.as_bytes())),
        Event::End(e) => format!("End({})", lossy(e.name().0)),
        Event::Empty(e) => format!("Empty({})", lossy(e.as_bytes())),
        Event::Text(e) => format!("Text({})", lossy(e.as_bytes())),
        Event::CData(e) => format!("CData({})", lossy(e.as_bytes())),
        Event::Comment(e) => format!("Comment({})", lossy(e.as_bytes())),
        Event::Decl(e) => format!("Decl({})", lossy(e.as_bytes())),
        Event::PI(e) => format!("PI({})", lossy(e.as_bytes())),
        Event::DocType(e) => format!("DocType({})", lossy(e.as_bytes())),
        Event::GeneralRef(e) => format!("Ref({})", lossy(e.as_bytes())),
        Event::Eof => format!("Eof"),
    }
}

fn show_result(result: &Result<Event, Error>) -> String {
    match result {
        Ok(event) => show(event),
        Err(Error::Syntax(e)) => format!("{:?}", e),
        Err(Error::IllFormed(e)) => format!("{:?}", e),
        Err(e) => format!("{:?}", e),
    }
}

/// Reads events, with the position after each, up to the end or the first fatal error.
fn read_all(reader: &mut Reader<&[u8]>) -> Vec<(String, u64)> {
    let mut all = Vec::new();
    loop {
        let result = reader.read_event();
        all.push((show_result(&result), reader.buffer_position()));
        match result {
            Ok(Event::Eof) => return all,
            Err(Error::IllFormed(_)) => {}
            Err(_) => return all,
            _ => {}
        }
    }
}

fn names(all: Vec<(String, u64)>) -> Vec<String> {
    all.into_iter().map(|(name, _)| name).collect()
}

#[test]
fn every_kind_of_event() {
    let mut reader = Reader::from_str(concat_document());
    assert_eq!(
        read_all(&mut reader),
        vec![
            (format!("Decl(xml version=\"1.0\")"), 21),
            (format!("DocType(a [<!ELEMENT a \">\">])"), 52),
            (format!("Start(a b='>')"), 61),
            (format!("Text(text )"), 66),
            (format!("Ref(amp)"), 71),
            (format!("Text( more)"), 76),
            (format!("Comment( c - d )"), 90),
            (format!("CData(<x>]])"), 107),
            (format!("PI(php echo ?)"), 121),
            (format!("Empty(e )"), 126),
            (format!("End(a)"), 131),
            (format!("Eof"), 131),
        ]
    );
}

fn concat_document() -> &'static str {
    "<?xml version=\"1.0\"?><!DOCTYPE a [<!ELEMENT a \">\">]><a b='>'>text &amp; more<!-- c - d --><![CDATA[<x>]]]]><?php echo ??><e /></a >"
}

#[test]
fn counts_tags_and_collects_text() {
    let mut reader = Reader::from_str(
        "\n            <tag1 att1 = \"test\">\n               <tag2><!--Test comment-->Test</tag2>\n               <tag2>Test 2</tag2>\n            </tag1>\n        ",
    );
    reader.config_mut().trim_text(true);
    let mut count = 0;
    let mut txt = Vec::new();
    loop {
        match reader.read_event().unwrap() {
            Event::Start(_) => count += 1,
            Event::Text(e) => txt.push(e.decode().unwrap().into_owned()),
            Event::Eof => break,
            _ => (),
        }
    }
    assert_eq!(count, 3);
    assert_eq!(txt, vec!["Test".to_string(), "Test 2".to_string()]);
}

#[test]
fn dangling_ampersands_are_text_if_allowed() {
    let mut reader = Reader::from_str("text with & &amp; & alone");
    reader.config_mut().allow_dangling_amp = true;
    assert_eq!(
        names(read_all(&mut reader)),
        vec!["Text(text with )", "Text(& )", "Ref(amp)", "Text( )", "Text(& alone)", "Eof"]
    );
}

#[test]
fn dangling_ampersands_are_errors_by_default() {
    let mut reader = Reader::from_str("a & b &amp; & <c/> &");
    assert_eq!(show_result(&reader.read_event()), "Text(a )");
    assert_eq!(reader.error_position(), 0);
    assert_eq!(show_result(&reader.read_event()), "UnclosedReference");
    assert_eq!(reader.error_position(), 2);
    assert_eq!(reader.buffer_position(), 6);
    assert_eq!(show_result(&reader.read_event()), "Ref(amp)");
    assert_eq!(show_result(&reader.read_event()), "Text( )");
    assert_eq!(show_result(&reader.read_event()), "UnclosedReference");
    assert_eq!(reader.error_position(), 12);
    assert_eq!(reader.buffer_position(), 14);
    assert_eq!(show_result(&reader.read_event()), "Empty(c)");
    assert_eq!(show_result(&reader.read_event()), "Text( )");
    assert_eq!(show_result(&reader.read_event()), "UnclosedReference");
    assert_eq!(reader.error_position(), 19);
    assert_eq!(show_result(&reader.read_event()), "Eof");
}

#[test]
fn unmatched_ends() {
    let mut reader = Reader::from_str("<a></a></b>");
    assert_eq!(names(read_all(&mut reader)), vec!["Start(a)", "End(a)", "UnmatchedEndTag(\"b\")", "Eof"]);
    assert_eq!(reader.error_position(), 7);

    let mut reader = Reader::from_str("<a></a></b>");
    reader.config_mut().allow_unmatched_ends = true;
    assert_eq!(names(read_all(&mut reader)), vec!["Start(a)", "End(a)", "End(b)", "Eof"]);
    assert_eq!(reader.error_position(), 0);
}

#[test]
fn mismatched_ends() {
    let mut reader = Reader::from_str("<mytag></different_tag>");
    assert_eq!(
        names(read_all(&mut reader)),
        vec![
            "Start(mytag)",
            "MismatchedEndTag { expected: \"mytag\", found: \"different_tag\" }",
            "Eof"
        ]
    );
    assert_eq!(reader.error_position(), 7);
    assert_eq!(reader.buffer_position(), 23);

    let mut reader = Reader::from_str("<mytag></different_tag>");
    reader.config_mut().check_end_names = false;
    assert_eq!(names(read_all(&mut reader)), vec!["Start(mytag)", "End(different_tag)", "Eof"]);
}

#[test]
fn prefixes_are_compared_literally() {
    let mut reader = Reader::from_str("<outer xmlns=\"namespace\" xmlns:p=\"namespace\"></p:outer>");
    assert_eq!(
        names(read_all(&mut reader)),
        vec![
            "Start(outer xmlns=\"namespace\" xmlns:p=\"namespace\")",
            "MismatchedEndTag { expected: \"outer\", found: \"p:outer\" }",
            "Eof"
        ]
    );
}

#[test]
fn closing_tags_with_white_space() {
    let mut reader = Reader::from_str("<a></a \t\r\n>");
    assert_eq!(names(read_all(&mut reader)), vec!["Start(a)", "End(a)", "Eof"]);

    let mut reader = Reader::from_str("<a></a >");
    reader.config_mut().trim_markup_names_in_closing_tags = false;
    assert_eq!(
        names(read_all(&mut reader)),
        vec!["Start(a)", "MismatchedEndTag { expected: \"a\", found: \"a \" }", "Eof"]
    );

    let mut reader = Reader::from_str("<a></a >");
    reader.config_mut().trim_markup_names_in_closing_tags = false;
    reader.config_mut().check_end_names = false;
    assert_eq!(names(read_all(&mut reader)), vec!["Start(a)", "End(a )", "Eof"]);
}

#[test]
fn closing_tags_with_attributes() {
    let mut reader = Reader::from_str("<tag></tag attr=\">\" >x");
    assert_eq!(names(read_all(&mut reader)), vec!["Start(tag)", "End(tag)", "Text(x)", "Eof"]);
}

#[test]
fn empty_elements() {
    let mut reader = Reader::from_str("<a b=\"c\"/><d /></>");
    assert_eq!(
        names(read_all(&mut reader)),
        vec!["Empty(a b=\"c\")", "Empty(d )", "UnmatchedEndTag(\"\")", "Eof"]
    );

    let mut reader = Reader::from_str("<a b=\"c\"/><d/>");
    reader.config_mut().expand_empty_elements = true;
    assert_eq!(
        read_all(&mut reader),
        vec![
            (format!("Start(a b=\"c\")"), 10),
            (format!("End(a)"), 10),
            (format!("Start(d)"), 14),
            (format!("End(d)"), 14),
            (format!("Eof"), 14),
        ]
    );
}

#[test]
fn names_of_tags() {
    let mut reader = Reader::from_str("<a b=\"c\"><d\n/><e/>");
    match reader.read_event() {
        Ok(Event::Start(e)) => {
            assert_eq!(e.name().0, b"a");
            assert_eq!(e.to_end().name().0, b"a");
        }
        other => panic!("{:?}", other),
    }
    match reader.read_event() {
        Ok(Event::Empty(e)) => assert_eq!(e.name().into_inner(), b"d"),
        other => panic!("{:?}", other),
    }
    match reader.read_event() {
        Ok(Event::Empty(e)) => assert_eq!(e.name().0, b"e"),
        other => panic!("{:?}", other),
    }
}

#[test]
fn trimming_of_text() {
    let xml = " <a> b </a> \t<c/>\n";
    let read = |start: bool, end: bool| {
        let mut reader = Reader::from_str(xml);
        reader.config_mut().trim_text_start = start;
        reader.config_mut().trim_text_end = end;
        names(read_all(&mut reader))
    };
    assert_eq!(
        read(false, false),
        vec!["Text( )", "Start(a)", "Text( b )", "End(a)", "Text( \t)", "Empty(c)", "Text(\n)", "Eof"]
    );
    assert_eq!(read(true, false), vec!["Start(a)", "Text(b )", "End(a)", "Empty(c)", "Eof"]);
    assert_eq!(read(false, true), vec!["Start(a)", "Text( b)", "End(a)", "Empty(c)", "Eof"]);
    assert_eq!(read(true, true), vec!["Start(a)", "Text(b)", "End(a)", "Empty(c)", "Eof"]);
}

#[test]
fn trimming_before_references() {
    let mut reader = Reader::from_str("  &lt;  &gt; ");
    reader.config_mut().trim_text_end = true;
    assert_eq!(names(read_all(&mut reader)), vec!["Ref(lt)", "Ref(gt)", "Eof"]);

    let mut reader = Reader::from_str("  &lt;  &gt; ");
    assert_eq!(
        names(read_all(&mut reader)),
        vec!["Text(  )", "Ref(lt)", "Text(  )", "Ref(gt)", "Text( )", "Eof"]
    );
}

#[test]
fn position_after_trimmed_text_is_before_the_tag() {
    let mut reader = Reader::from_str("<a>text  </a>");
    reader.config_mut().trim_text(true);
    reader.read_event().unwrap();
    match reader.read_event() {
        Ok(Event::Text(e)) => assert_eq!(e.as_bytes(), b"text"),
        other => panic!("{:?}", other),
    }
    assert_eq!(reader.buffer_position(), 9);
}

#[test]
fn double_hyphens_in_comments() {
    let xml = "<!-- a -- b --><!-- c ---><!----><!-->--><!-- d -->";
    let mut reader = Reader::from_str(xml);
    assert_eq!(
        names(read_all(&mut reader)),
        vec!["Comment( a -- b )", "Comment( c -)", "Comment()", "Comment(>)", "Comment( d )", "Eof"]
    );

    let mut reader = Reader::from_str(xml);
    reader.config_mut().check_comments = true;
    assert_eq!(show_result(&reader.read_event()), "DoubleHyphenInComment");
    assert_eq!(reader.error_position(), 7);
    assert_eq!(reader.buffer_position(), 15);
    assert_eq!(show_result(&reader.read_event()), "DoubleHyphenInComment");
    assert_eq!(reader.error_position(), 22);
    assert_eq!(show_result(&reader.read_event()), "Comment()");
    assert_eq!(show_result(&reader.read_event()), "Comment(>)");
    assert_eq!(show_result(&reader.read_event()), "Comment( d )");
}

#[test]
fn syntax_errors_are_at_the_markup() {
    for (xml, error, offset) in vec![
        ("ab<c", SyntaxError::UnclosedTag, 4),
        ("ab<", SyntaxError::UnclosedTag, 3),
        ("ab</c", SyntaxError::UnclosedTag, 5),
        ("ab<c d='>", SyntaxError::UnclosedSingleQuotedAttributeValue, 9),
        ("ab<c d=\">", SyntaxError::UnclosedDoubleQuotedAttributeValue, 9),
        ("ab<?c>", SyntaxError::UnclosedPI, 6),
        ("ab<?xml >", SyntaxError::UnclosedXmlDecl, 9),
        ("ab<!--c->", SyntaxError::UnclosedComment, 9),
        ("ab<!-c-->", SyntaxError::UnclosedComment, 9),
        ("ab<![CDATA[]>", SyntaxError::UnclosedCData, 13),
        ("ab<![cdata[]]>", SyntaxError::UnclosedCData, 14),
        ("ab<!DOCTYPE [>", SyntaxError::UnclosedDoctype, 14),
        ("ab<!DOC>", SyntaxError::UnclosedDoctype, 8),
        ("ab<!x>", SyntaxError::InvalidBangMarkup, 3),
        ("ab<!", SyntaxError::InvalidBangMarkup, 3),
    ] {
        let mut reader = Reader::from_str(xml);
        assert_eq!(show_result(&reader.read_event()), "Text(ab)");
        assert_eq!(reader.buffer_position(), 2);
        match reader.read_event() {
            Err(Error::Syntax(e)) => assert_eq!(e, error),
            other => panic!("{}: {:?}", xml, other),
        }
        assert_eq!(reader.error_position(), 2, "{}", xml);
        assert_eq!(reader.buffer_position(), offset, "{}", xml);
        // The reader is done
        assert_eq!(show_result(&reader.read_event()), "Eof");
        assert_eq!(show_result(&reader.read_event()), "Eof");
    }
}

#[test]
fn doctype_without_a_name() {
    let mut reader = Reader::from_str("<!DOCTYPE  ><!doctype a><!DocType\nb>");
    assert_eq!(show_result(&reader.read_event()), "MissingDoctypeName");
    assert_eq!(reader.error_position(), 11);
    assert_eq!(show_result(&reader.read_event()), "DocType(a)");
    assert_eq!(show_result(&reader.read_event()), "DocType(b)");
}

#[test]
fn internal_subsets() {
    for dtd in vec![
        "<!DOCTYPE r [<!-- ]> -->]>",
        "<!DOCTYPE r [<?pi ]> ?>]>",
        "<!DOCTYPE r [<!ENTITY e ']>'>]>",
        "<!DOCTYPE r [<!ENTITY e \"]>\">%p;] >",
        "<!DOCTYPE r SYSTEM \"x\">",
    ] {
        let mut reader = Reader::from_str(dtd);
        let content = &dtd[10..dtd.len() - 1];
        assert_eq!(show_result(&reader.read_event()), format!("DocType({})", content));
        assert_eq!(show_result(&reader.read_event()), "Eof");
    }
}

#[test]
fn processing_instructions() {
    let mut reader = Reader::from_str("<?a?><??><?a>b??><?xml?><?xmlx?><?xml-stylesheet a?>");
    assert_eq!(
        names(read_all(&mut reader)),
        vec!["PI(a)", "PI()", "PI(a>b?)", "Decl(xml)", "PI(xmlx)", "PI(xml-stylesheet a)", "Eof"]
    );

    let mut reader = Reader::from_str("<?>");
    assert_eq!(show_result(&reader.read_event()), "UnclosedPI");
}

#[test]
fn skips_to_the_end_of_an_element() {
    let xml = "\n            <outer>\n                <inner>\n                    <inner></inner>\n                    <inner/>\n                    <outer></outer>\n                    <outer/>\n                </inner>\n            </outer>\n        ";
    let mut reader = Reader::from_str(xml);
    reader.config_mut().trim_text(true);
    let end = match reader.read_event() {
        Ok(Event::Start(e)) => e.to_end().name().0.to_vec(),
        other => panic!("{:?}", other),
    };
    assert_eq!(end, b"outer");
    let span = reader.read_to_end(QName(&end)).unwrap();
    assert_eq!(span.start, 20);
    assert_eq!(&xml.as_bytes()[span.end as usize..span.end as usize + 8], b"</outer>");
    assert_eq!(span.end, xml.rfind("</outer>").unwrap() as u64);
    assert_eq!(show_result(&reader.read_event()), "Eof");
    // The settings are as they were before
    assert_eq!(reader.config().trim_text_start, true);
    assert_eq!(reader.config().trim_text_end, true);
}

#[test]
fn skips_an_expanded_empty_element() {
    let mut reader = Reader::from_str("<a><b/></a>");
    reader.config_mut().expand_empty_elements = true;
    reader.read_event().unwrap();
    reader.read_event().unwrap();
    assert_eq!(reader.read_to_end(QName(b"b")).unwrap(), 7..7);
    assert_eq!(reader.read_to_end(QName(b"a")).unwrap(), 7..7);
    assert_eq!(show_result(&reader.read_event()), "Eof");
}

#[test]
fn missing_end_tags() {
    // The start tag was not read before
    let mut reader = Reader::from_str("<a>b</a>");
    reader.config_mut().trim_text_start = true;
    match reader.read_to_end(QName(b"a")) {
        Err(Error::IllFormed(IllFormedError::MissingEndTag(name))) => assert_eq!(name, "a"),
        other => panic!("{:?}", other),
    }
    assert_eq!(reader.config().trim_text_start, true);

    let mut reader = Reader::from_str("<a>b</c></a>");
    reader.read_event().unwrap();
    match reader.read_to_end(QName(b"a")) {
        Err(Error::IllFormed(IllFormedError::MismatchedEndTag { expected, found })) => {
            assert_eq!((expected.as_str(), found.as_str()), ("a", "c"));
        }
        other => panic!("{:?}", other),
    }
}

#[test]
fn reads_html_as_text() {
    let mut reader = Reader::from_str(
        "\n        <html>\n            <title>This is a HTML text</title>\n            <p>Usual XML rules does not apply inside it\n            <p>For example, elements not needed to be &quot;closed&quot;\n        </html>\n    ",
    );
    reader.config_mut().trim_text(true);
    assert_eq!(show_result(&reader.read_event()), "Start(html)");
    reader.config_mut().check_end_names = false;
    let text = reader.read_text(QName(b"html")).unwrap();
    assert_eq!(
        text,
        "\n            <title>This is a HTML text</title>\n            <p>Usual XML rules does not apply inside it\n            <p>For example, elements not needed to be &quot;closed&quot;\n        "
    );
    assert!(matches!(text, Cow::Borrowed(_)));
    reader.config_mut().check_end_names = true;
    assert_eq!(show_result(&reader.read_event()), "Eof");
}

#[test]
fn reads_text_up_to_the_matching_end() {
    let mut reader = Reader::from_str("<a>1<a>2</a>3</a>4");
    reader.read_event().unwrap();
    assert_eq!(reader.read_text(QName(b"a")).unwrap(), "1<a>2</a>3");
    assert_eq!(reader.buffer_position(), 17);
    assert_eq!(show_result(&reader.read_event()), "Text(4)");

    let mut reader = Reader::from_str("<a></a>");
    reader.read_event().unwrap();
    assert_eq!(reader.read_text(QName(b"a")).unwrap(), "");
}

#[test]
fn reads_text_after_text() {
    let mut reader = Reader::from_str("<a>x<b/>y</a>");
    assert_eq!(show_result(&reader.read_event()), "Start(a)");
    assert_eq!(show_result(&reader.read_event()), "Text(x)");
    assert_eq!(reader.buffer_position(), 4);
    let mut other = reader.clone();
    assert_eq!(reader.read_text(QName(b"a")).unwrap(), "<b/>y");
    assert_eq!(reader.buffer_position(), 13);
    assert_eq!(other.read_to_end(QName(b"a")).unwrap(), 4..9);

    let mut reader = Reader::from_str("<a>x</a>");
    reader.read_event().unwrap();
    reader.read_event().unwrap();
    assert_eq!(reader.read_text(QName(b"a")).unwrap(), "");

    let mut reader = Reader::from_str("<a>x&b;y</a>");
    reader.read_event().unwrap();
    assert_eq!(show_result(&reader.read_event()), "Text(x)");
    assert_eq!(reader.read_text(QName(b"a")).unwrap(), "&b;y");

    let mut reader = Reader::from_utf8_reader(b"<a>x<b>\xFF</b></a>".as_slice());
    reader.read_event().unwrap();
    reader.read_event().unwrap();
    assert!(matches!(reader.read_text(QName(b"a")), Err(Error::Encoding(_))));
}

#[test]
fn text_in_utf8_is_borrowed() {
    let mut reader = Reader::from_str("<a>x&b;\u{43F}<c/></a>");
    reader.read_event().unwrap();
    match reader.clone().read_text(QName(b"a")).unwrap() {
        Cow::Borrowed(text) => assert_eq!(text, "x&b;\u{43F}<c/>"),
        other => panic!("{:?}", other),
    }
    match reader.read_event() {
        Ok(Event::Text(e)) => assert!(matches!(e.decode(), Ok(Cow::Borrowed("x")))),
        other => panic!("{:?}", other),
    }
    // At a reference
    assert!(matches!(reader.clone().read_text(QName(b"a")), Ok(Cow::Borrowed(_))));

    // After a text there is nothing to borrow but the empty text
    let mut reader = Reader::from_str("<a>x<b/></a>");
    reader.read_event().unwrap();
    reader.read_event().unwrap();
    assert!(matches!(reader.read_text(QName(b"a")), Ok(Cow::Owned(_))));
    let mut reader = Reader::from_str("<a>x</a>");
    reader.read_event().unwrap();
    reader.read_event().unwrap();
    assert!(matches!(reader.read_text(QName(b"a")), Ok(Cow::Borrowed(""))));
}

#[test]
fn events_tile_the_document() {
    let pieces = vec![
        "<?xml version='1.0'?>",
        "\n",
        "<!DOCTYPE  a [<!ELEMENT a EMPTY>]>",
        "<a b='>'>",
        " text ",
        "&amp;",
        "more",
        "<!-- c -->",
        "<![CDATA[<d>]]>",
        "<?e ?>",
        "<f />",
        "</a >",
    ];
    let xml = pieces.concat();
    let mut reader = Reader::from_str(&xml);
    let mut start = 0;
    for piece in &pieces {
        reader.read_event().unwrap();
        let end = reader.buffer_position() as usize;
        assert_eq!(&xml[start..end], *piece);
        start = end;
    }
    assert_eq!(show_result(&reader.read_event()), "Eof");
    assert_eq!(reader.buffer_position() as usize, xml.len());
}

#[test]
fn reading_ends_in_time() {
    for xml in vec!["", "a", "<", "<a/>", "&;&;&", "<></>", "<a/><b/>c&d;</e></f><g"] {
        for expand in vec![false, true] {
            let mut reader = Reader::from_str(xml);
            reader.config_mut().expand_empty_elements = expand;
            for _ in 0..2 * xml.len() {
                let before = reader.buffer_position();
                match reader.read_event() {
                    Ok(Event::Eof) | Err(Error::Syntax(_)) => break,
                    Ok(Event::End(_)) => {}
                    _ => assert!(reader.buffer_position() > before, "{}", xml),
                }
            }
            let last = reader.read_event();
            if xml.len() > 0 && !matches!(last, Ok(Event::Eof)) {
                assert!(matches!(last, Err(Error::Syntax(_))), "{}", xml);
            }
            assert_eq!(show_result(&reader.read_event()), "Eof");
        }
    }
}

#[test]
fn position_of_the_last_error_after_any_calls() {
    let mut reader = Reader::from_str("<a>b<c/></a><d>e</d><f><g</f>");
    assert_eq!(reader.error_position(), 0);
    reader.read_event().unwrap();
    reader.read_text(QName(b"a")).unwrap();
    assert_eq!(reader.error_position(), 0);
    reader.read_event().unwrap();
    reader.read_to_end(QName(b"d")).unwrap();
    assert_eq!(reader.error_position(), 0);
    reader.read_event().unwrap();
    // `g</f` is the name of a start tag
    assert!(matches!(
        reader.read_to_end(QName(b"f")),
        Err(Error::IllFormed(IllFormedError::MissingEndTag(_))),
    ));
    assert_eq!(reader.error_position(), 0);
    assert_eq!(reader.buffer_position(), 29);

    let mut reader = Reader::from_str("<a>b<c/><d");
    reader.read_event().unwrap();
    assert!(matches!(
        reader.read_to_end(QName(b"a")),
        Err(Error::Syntax(SyntaxError::UnclosedTag)),
    ));
    assert_eq!(reader.error_position(), 8);
    assert_eq!(reader.buffer_position(), 10);
}

#[test]
fn text_that_cannot_be_decoded() {
    let mut reader = Reader::from_utf8_reader(b"<a>\xFF</a>".as_slice());
    reader.read_event().unwrap();
    match reader.read_text(QName(b"a")) {
        Err(Error::Encoding(e)) => assert_eq!(format!("{:?}", e), "Malformed(Encoding { name: \"UTF-8\" })"),
        other => panic!("{:?}", other),
    }
}

#[test]
fn configuration() {
    let config = Config::default();
    assert_eq!(
        (
            config.allow_dangling_amp,
            config.allow_unmatched_ends,
            config.check_comments,
            config.check_end_names,
            config.expand_empty_elements,
            config.trim_markup_names_in_closing_tags,
            config.trim_text_start,
            config.trim_text_end,
        ),
        (false, false, false, true, false, true, false, false)
    );
    let mut trimmed = config;
    trimmed.trim_text(true);
    assert_eq!((trimmed.trim_text_start, trimmed.trim_text_end), (true, true));
    trimmed.trim_text(false);
    assert_eq!(trimmed, config);
    let mut checked = config;
    checked.enable_all_checks(true);
    assert_eq!((checked.check_comments, checked.check_end_names), (true, true));
    checked.enable_all_checks(false);
    assert_eq!((checked.check_comments, checked.check_end_names), (false, false));

    let mut reader = Reader::from_str("");
    assert_eq!(*reader.config(), config);
    *reader.config_mut() = checked;
    assert_eq!(*reader.config(), checked);
}

#[test]
fn access_to_the_source() {
    let mut reader = Reader::from_str("<a>bc");
    reader.read_event().unwrap();
    assert_eq!(*reader.get_ref(), b"bc");
    // Reading directly from the source does not move the position
    *reader.get_mut() = b"c";
    assert_eq!(reader.buffer_position(), 3);
    assert_eq!(show_result(&reader.read_event()), "Text(c)");
    assert_eq!(reader.into_inner(), b"");
}

#[test]
fn unclosed_markup_stays_in_the_slice() {
    let mut reader = Reader::from_str("a<b");
    reader.read_event().unwrap();
    assert!(reader.read_event().is_err());
    assert_eq!(reader.buffer_position(), 3);
    assert_eq!(reader.into_inner(), b"b");
}

#[test]
fn clones_read_on_their_own() {
    let mut reader = Reader::from_str("<a><b>c</b></a>");
    reader.config_mut().check_comments = true;
    reader.read_event().unwrap();
    reader.read_event().unwrap();
    let mut clone = reader.clone();
    assert_eq!(clone.buffer_position(), 6);
    assert_eq!(clone.config().check_comments, true);
    assert_eq!(names(read_all(&mut clone)), vec!["Text(c)", "End(b)", "End(a)", "Eof"]);
    assert_eq!(reader.buffer_position(), 6);
    assert_eq!(names(read_all(&mut reader)), vec!["Text(c)", "End(b)", "End(a)", "Eof"]);
}
