//! Reading from sources with a buffer.

use quick_xml::errors::{Error, IllFormedError, SyntaxError};
use quick_xml::events::Event;
use quick_xml::name::QName;
use quick_xml::reader::source::{ByteReader, ByteSource, FillError};
use quick_xml::reader::Reader;
use std::collections::VecDeque;

/// What a source gives next.
enum Given {
    Bytes(Vec<u8>),
    Interruption,
    Failure(&'static str),
}

/// A source that gives what it is told to give.
struct Script {
    given: VecDeque<Given>,
    /// The bytes that are given, from the index on.
    current: Vec<u8>,
    index: usize,
}

impl Script {
    fn new(given: Vec<Given>) -> Self {
        Script { given: given.into_iter().collect(), current: Vec::new(), index: 0 }
    }

    /// A source that gives `bytes` in chunks of `size` bytes, with an interruption before each.
    fn chunks(bytes: &[u8], size: usize) -> Self {
        let mut given = Vec::new();
        for chunk in bytes.chunks(size) {
            given.push(Given::Interruption);
            given.push(Given::Bytes(chunk.to_vec()));
        }
        Script::new(given)
    }
}

impl ByteReader for Script {
    fn read(&mut self, buf: &mut [u8]) -> Result<usize, FillError> {
        let available = self.fill_buf()?;
        let n = available.len().min(buf.len());
        buf[..n].copy_from_slice(&available[..n]);
        self.consume(n);
        Ok(n)
    }
}

impl ByteSource for Script {
    fn fill_buf(&mut self) -> Result<&[u8], FillError> {
        if self.index == self.current.len() {
            match self.given.pop_front() {
                Some(Given::Bytes(bytes)) => {
                    self.current = bytes;
                    self.index = 0;
                }
                Some(Given::Interruption) => return Err(FillError::Interrupted),
                Some(Given::Failure(text)) => {
                    return Err(FillError::Failed(std::io::Error::new(
                        std::io::ErrorKind::Other,
                        text,
                    )))
                }
                None => {}
            }
        }
        Ok(&self.current[self.index..])
    }

    fn consume(&mut self, amt: usize) {
        self.index += amt;
    }
}

fn lossy(bytes: &[u8]) -> String {
    String::from_utf8_lossy(bytes).into_owned()
}

fn show(result: &Result<Event, Error>) -> String {
    match result {
        Ok(Event::Start(e)) => format!("Start({})", lossy(e.as_bytes())),
        Ok(Event::End(e)) => format!("End({})", lossy(e.name().0)),
        Ok(Event::Empty(e)) => format!("Empty({})", lossy(e.as_bytes())),
        Ok(Event::Text(e)) => format!("Text({})", lossy(e.as_bytes())),
        Ok(Event::CData(e)) => format!("CData({})", lossy(e.as_bytes())),
        Ok(Event::Comment(e)) => format!("Comment({})", lossy(e.as_bytes())),
        Ok(Event::Decl(e)) => format!("Decl({})", lossy(e.as_bytes())),
        Ok(Event::PI(e)) => format!("PI({})", lossy(e.as_bytes())),
        Ok(Event::DocType(e)) => format!("DocType({})", lossy(e.as_bytes())),
        Ok(Event::GeneralRef(e)) => format!("Ref({})", lossy(e.as_bytes())),
        Ok(Event::Eof) => format!("Eof"),
        Err(Error::Io(e)) => format!("Io({})", e),
        Err(Error::Syntax(e)) => format!("{:?}", e),
        Err(Error::IllFormed(e)) => format!("{:?}", e),
        Err(Error::Encoding(e)) => format!("{:?}", e),
    }
}

/// The results of reading, with the positions of the reader and of its last error after each.
type Results = Vec<(String, u64, u64)>;

fn read_slice(bytes: &[u8], configure: impl Fn(&mut quick_xml::reader::Config)) -> Results {
    let mut reader = Reader::from_reader(bytes);
    configure(reader.config_mut());
    let mut all = Vec::new();
    loop {
        let result = reader.read_event();
        all.push((show(&result), reader.buffer_position(), reader.error_position()));
        if matches!(result, Ok(Event::Eof)) {
            return all;
        }
    }
}

fn read_stream<R: ByteSource>(
    source: R,
    configure: impl Fn(&mut quick_xml::reader::Config),
) -> Results {
    let mut reader = Reader::from_reader(source);
    configure(reader.config_mut());
    let mut all = Vec::new();
    let mut buf = Vec::new();
    loop {
        let result = reader.read_event_into(&mut buf);
        let shown = show(&result);
        let ended = matches!(result, Ok(Event::Eof));
        all.push((shown, reader.buffer_position(), reader.error_position()));
        if ended {
            return all;
        }
    }
}

const DOCUMENTS: [&str; 22] = [
    "",
    " \n",
    "<?xml version=\"1.0\"?><!DOCTYPE a [<!ELEMENT a \">\"><!-- ]> --><?p ]> ?>]><a b='>'>text &amp; more<!-- c - d --><![CDATA[<x>]]]]><?php echo ??><e /></a >",
    "a & b &amp; & <c/> &",
    "a &b",
    "<a>  <b/> &lt; </a> ",
    "</a><b></c><d",
    "<a b='",
    "<a b=\"",
    "</a",
    "<",
    "<!",
    "<!x>",
    "<!-",
    "<!---->",
    "<!--->-->",
    "<![CDATA[]]",
    "<![cdata[]]>",
    "<!DOCTYPE>",
    "<!DOCTYPE <a> b>x",
    "<?xml",
    "<?p ??",
];

#[test]
fn streams_and_slices_give_the_same() {
    for xml in DOCUMENTS.iter() {
        for options in 0..64u32 {
            let configure = |config: &mut quick_xml::reader::Config| {
                config.allow_dangling_amp = options & 1 != 0;
                config.allow_unmatched_ends = options & 2 != 0;
                config.check_comments = options & 2 != 0;
                config.check_end_names = options & 4 == 0;
                config.expand_empty_elements = options & 8 != 0;
                config.trim_markup_names_in_closing_tags = options & 4 == 0;
                config.trim_text_start = options & 16 != 0;
                config.trim_text_end = options & 32 != 0;
            };
            let expected = read_slice(xml.as_bytes(), configure);
            assert_eq!(read_stream(xml.as_bytes(), configure), expected, "{}", xml);
            // The first chunk is large enough to detect the encoding
            for size in vec![1, 2, 3, 5] {
                let mut given = vec![Given::Interruption];
                let head = xml.len().min(4);
                given.push(Given::Bytes(xml.as_bytes()[..head].to_vec()));
                for chunk in xml.as_bytes()[head..].chunks(size) {
                    given.push(Given::Bytes(chunk.to_vec()));
                    given.push(Given::Interruption);
                }
                assert_eq!(
                    read_stream(Script::new(given), configure),
                    expected,
                    "{} in chunks of {}",
                    xml,
                    size
                );
            }
        }
    }
}

#[test]
fn markup_that_is_split_between_chunks() {
    for size in 1..8 {
        let source = Script::chunks(b"<!-- a --><![CDATA[b]]><?c d?><e f=\"g>h\" >i&j;</e>", size);
        let all: Vec<String> =
            read_stream(source, |_| {}).into_iter().map(|(shown, _, _)| shown).collect();
        assert_eq!(
            all,
            vec![
                "Comment( a )",
                "CData(b)",
                "PI(c d)",
                "Start(e f=\"g>h\" )",
                "Text(i)",
                "Ref(j)",
                "End(e)",
                "Eof"
            ]
        );
    }
}

#[test]
fn counts_tags_and_collects_text_through_a_buffer() {
    let xml = "<tag1 att1 = \"test\">\n                <tag2><!--Test comment-->Test</tag2>\n                <tag2>Test 2</tag2>\n             </tag1>";
    let mut reader = Reader::from_reader(Script::chunks(xml.as_bytes(), 7));
    reader.config_mut().trim_text(true);
    let mut count = 0;
    let mut buf = Vec::new();
    let mut txt = Vec::new();
    loop {
        match reader.read_event_into(&mut buf) {
            Ok(Event::Start(_)) => count += 1,
            Ok(Event::Text(e)) => txt.push(e.decode().unwrap().into_owned()),
            Err(e) => panic!("Error at position {}: {:?}", reader.error_position(), e),
            Ok(Event::Eof) => break,
            _ => (),
        }
        buf.clear();
    }
    assert_eq!(count, 3);
    assert_eq!(txt, vec!["Test".to_string(), "Test 2".to_string()]);
}

#[test]
fn line_and_column_of_a_position() {
    let xml = "<tag1 att1 = \"test\">\n                <tag2><!--Test comment-->Test</tag2>\n                <tag3>Test 2</tag3>\n             </tag1>";
    let mut reader = Reader::from_reader(xml.as_bytes());
    let mut buf = Vec::new();
    loop {
        match reader.read_event_into(&mut buf) {
            Ok(Event::Start(e)) if e.name().0 == b"tag3" => break,
            Ok(Event::Eof) => unreachable!(),
            _ => (),
        }
        buf.clear();
    }
    let end = reader.buffer_position() as usize;
    let rest = reader.into_inner();
    assert_eq!(rest.len(), xml.len() - end);
    let read = &xml[..end];
    let line = read.matches('\n').count() + 1;
    let column = read.len() - read.rfind('\n').unwrap() - 1;
    assert_eq!((line, column), (3, 22));
}

#[test]
fn events_are_kept_in_the_buffer() {
    let mut reader = Reader::from_reader(b"ab<c d/><!--e-->&f;".as_slice());
    let mut buf = b"x".to_vec();
    reader.read_event_into(&mut buf).unwrap();
    assert_eq!(buf, b"xab");
    reader.read_event_into(&mut buf).unwrap();
    assert_eq!(buf, b"xabc d/");
    reader.read_event_into(&mut buf).unwrap();
    assert_eq!(buf, b"xabc d/!--e--");
    reader.read_event_into(&mut buf).unwrap();
    assert_eq!(buf, b"xabc d/!--e--&f");
}

#[test]
fn skips_to_the_end_of_an_element_through_a_buffer() {
    let xml = "\n            <outer>\n                <inner>\n                    <inner></inner>\n                    <inner/>\n                    <outer></outer>\n                    <outer/>\n                </inner>\n            </outer>\n        ";
    for size in vec![4, 9, 1000] {
        let mut reader = Reader::from_reader(Script::chunks(xml.as_bytes(), size));
        reader.config_mut().trim_text(true);
        let mut buf = Vec::new();
        assert_eq!(show(&reader.read_event_into(&mut buf)), "Start(outer)");
        let span = reader.read_to_end_into(QName(b"outer"), &mut buf).unwrap();
        assert_eq!(span, 20..xml.rfind("</outer>").unwrap() as u64);
        // The buffer holds the last event only
        assert_eq!(buf, b"outer");
        assert_eq!(show(&reader.read_event_into(&mut buf)), "Eof");
        assert_eq!(reader.config().trim_text_start, true);
        assert_eq!(reader.config().trim_text_end, true);
    }
}

#[test]
fn streams_and_slices_skip_to_the_same_end() {
    for xml in vec![
        "<a>b<a>c</a>&d;<e/></a>f",
        "<a>b</c>",
        "<a>b<c",
        "<a>b<a></a>",
        "<a>&b<c/></a>",
    ] {
        let mut slice = Reader::from_str(xml);
        slice.read_event().unwrap();
        let expected = format!("{:?}", slice.read_to_end(QName(b"a")));
        for size in 1..xml.len() {
            let mut stream = Reader::from_reader(Script::chunks(xml.as_bytes(), size));
            let mut buf = Vec::new();
            stream.read_event_into(&mut buf).unwrap();
            let found = format!("{:?}", stream.read_to_end_into(QName(b"a"), &mut buf));
            assert_eq!(found, expected, "{}", xml);
            assert_eq!(stream.buffer_position(), slice.buffer_position(), "{}", xml);
            assert_eq!(stream.error_position(), slice.error_position(), "{}", xml);
        }
    }
}

#[test]
fn cuts_do_not_matter_without_detection() {
    for bytes in vec![
        b"\xFE\xFFab<c/>".as_slice(),
        b"\xFF\xFE<\0?\0".as_slice(),
        b"\0<\0?".as_slice(),
        b"<?xml version='1.0' encoding='windows-1251'?>a".as_slice(),
    ] {
        let mut all = Vec::new();
        for size in 1..bytes.len() + 1 {
            let mut reader = Reader::from_utf8_reader(Script::chunks(bytes, size));
            let mut events = Vec::new();
            let mut buf = Vec::new();
            loop {
                let result = reader.read_event_into(&mut buf);
                events.push((show(&result), reader.buffer_position()));
                if matches!(result, Ok(Event::Eof)) {
                    break;
                }
            }
            all.push(events);
        }
        for events in &all {
            assert_eq!(events, &all[0]);
        }
    }
}

#[test]
fn a_source_is_not_touched_when_nothing_is_read() {
    let mut reader = Reader::from_reader(Script::new(vec![
        Given::Bytes(b"<a/>".to_vec()),
        Given::Interruption,
        Given::Failure("broken"),
        Given::Interruption,
        Given::Bytes(b"<b/>".to_vec()),
    ]));
    reader.config_mut().expand_empty_elements = true;
    let mut buf = Vec::new();
    assert_eq!(show(&reader.read_event_into(&mut buf)), "Start(a)");
    assert_eq!(show(&reader.read_event_into(&mut buf)), "End(a)");
    assert_eq!(reader.get_ref().given.len(), 4);
    assert_eq!(show(&reader.read_event_into(&mut buf)), "Io(broken)");
    assert_eq!(reader.get_ref().given.len(), 2);
    assert_eq!(show(&reader.read_event_into(&mut buf)), "Eof");
    assert!(reader.read_to_end_into(QName(b"a"), &mut buf).is_err());
    assert_eq!(reader.get_ref().given.len(), 2);
}

#[test]
fn missing_end_tag_through_a_buffer() {
    let mut reader = Reader::from_reader(Script::chunks(b"<a><b></b>", 4));
    let mut buf = Vec::new();
    reader.read_event_into(&mut buf).unwrap();
    match reader.read_to_end_into(QName(b"a"), &mut buf) {
        Err(Error::IllFormed(IllFormedError::MissingEndTag(name))) => assert_eq!(name, "a"),
        other => panic!("{:?}", other),
    }
}

#[test]
fn unclosed_markup_is_consumed_from_a_stream() {
    let mut reader = Reader::from_reader(b"a<b".as_slice());
    let mut buf = Vec::new();
    reader.read_event_into(&mut buf).unwrap();
    match reader.read_event_into(&mut buf) {
        Err(Error::Syntax(SyntaxError::UnclosedTag)) => {}
        other => panic!("{:?}", other),
    }
    assert_eq!(reader.into_inner(), b"");
}

#[test]
fn failures_in_markup_and_text_are_final() {
    for start in vec!["", "<", "<a", "</", "</a", "<?a", "<!--a", "<!", "a", "&a"] {
        let mut reader = Reader::from_reader(Script::new(vec![
            Given::Bytes(b"<a/> ".to_vec()),
            Given::Bytes(format!("{}", start).into_bytes()),
            Given::Failure("broken"),
            Given::Bytes(b"<b/>".to_vec()),
        ]));
        if start == "" {
            // An empty chunk is the end of the data
            continue;
        }
        let mut buf = Vec::new();
        assert_eq!(show(&reader.read_event_into(&mut buf)), "Empty(a)");
        let mut shown = show(&reader.read_event_into(&mut buf));
        if shown == "Text( )" {
            shown = show(&reader.read_event_into(&mut buf));
        }
        assert_eq!(shown, "Io(broken)", "{}", start);
        assert_eq!(show(&reader.read_event_into(&mut buf)), "Eof");
    }
}

#[test]
fn failures_before_anything_was_read_are_final() {
    let mut buf = Vec::new();
    for detect in vec![true, false] {
        let source = Script::new(vec![
            Given::Interruption,
            Given::Failure("first"),
            Given::Bytes(b"<a/>".to_vec()),
        ]);
        let mut reader = if detect {
            Reader::from_reader(source)
        } else {
            Reader::from_utf8_reader(source)
        };
        assert_eq!(show(&reader.read_event_into(&mut buf)), "Io(first)");
        assert_eq!(reader.buffer_position(), 0);
        assert_eq!(show(&reader.read_event_into(&mut buf)), "Eof");
        assert_eq!(show(&reader.read_event_into(&mut buf)), "Eof");
    }

    let mut reader = Reader::from_reader(Script::new(vec![
        Given::Bytes(b"<a/> ".to_vec()),
        Given::Bytes(b" ".to_vec()),
        Given::Failure("second"),
        Given::Bytes(b"  <b/>".to_vec()),
    ]));
    reader.config_mut().trim_text_start = true;
    assert_eq!(show(&reader.read_event_into(&mut buf)), "Empty(a)");
    assert_eq!(show(&reader.read_event_into(&mut buf)), "Io(second)");
    assert_eq!(reader.buffer_position(), 6);
    assert_eq!(show(&reader.read_event_into(&mut buf)), "Eof");
}

#[test]
fn positions_of_failures() {
    let mut reader = Reader::from_reader(Script::new(vec![
        Given::Bytes(b"ab<c d".to_vec()),
        Given::Failure("broken"),
    ]));
    let mut buf = Vec::new();
    assert_eq!(show(&reader.read_event_into(&mut buf)), "Text(ab)");
    assert_eq!(show(&reader.read_event_into(&mut buf)), "Io(broken)");
    assert_eq!(reader.buffer_position(), 6);
    assert_eq!(reader.error_position(), 2);
}

#[test]
fn raw_bytes_are_read_through_the_stream() {
    let mut reader = Reader::from_str("<tag>binary << data&></tag>");
    //                                 ^    ^               ^     ^
    //                                 0    5              21    27
    assert_eq!(show(&reader.read_event()), "Start(tag)");
    assert_eq!(reader.buffer_position(), 5);

    // Reading from the stream() advances position
    let mut inner = reader.stream();
    let mut binary = [0u8; 16];
    assert_eq!(inner.read(&mut binary).unwrap(), 16);
    assert_eq!(&binary, b"binary << data&>");
    assert_eq!(inner.offset(), 21);
    assert_eq!(reader.buffer_position(), 21);

    assert_eq!(show(&reader.read_event()), "End(tag)");
    assert_eq!(reader.buffer_position(), 27);
    assert_eq!(show(&reader.read_event()), "Eof");
}

#[test]
fn the_stream_gives_what_the_source_gives() {
    let mut reader = Reader::from_reader(Script::new(vec![
        Given::Bytes(b"<a>bcd".to_vec()),
        Given::Interruption,
        Given::Bytes(b"ef</a>".to_vec()),
    ]));
    let mut buf = Vec::new();
    assert_eq!(show(&reader.read_event_into(&mut buf)), "Start(a)");
    let mut stream = reader.stream();
    assert_eq!(stream.fill_buf().unwrap(), b"bcd");
    stream.consume(2);
    assert_eq!(stream.offset(), 5);
    assert_eq!(stream.get_ref().index, 5);
    let mut bytes = [b'-'; 4];
    assert_eq!(stream.read(&mut bytes).unwrap(), 1);
    assert_eq!(&bytes, b"d---");
    assert!(matches!(stream.read(&mut bytes), Err(FillError::Interrupted)));
    assert_eq!(&bytes, b"d---");
    assert_eq!(stream.read(&mut bytes[..2]).unwrap(), 2);
    assert_eq!(&bytes, b"ef--");
    assert_eq!(stream.offset(), 8);
    // This does not move the position
    stream.get_mut().index += 1;
    assert_eq!(stream.offset(), 8);
    assert_eq!(reader.buffer_position(), 8);
    assert_eq!(show(&reader.read_event_into(&mut buf)), "Text(/a>)");
}

#[test]
fn slices_are_sources() {
    let mut source: &[u8] = b"abc";
    assert_eq!(source.fill_buf().unwrap(), b"abc");
    ByteSource::consume(&mut source, 1);
    assert_eq!(source, b"bc");
    let mut bytes = [0u8; 3];
    assert_eq!(ByteReader::read(&mut source, &mut bytes).unwrap(), 2);
    assert_eq!(&bytes, b"bc\0");
    assert_eq!(ByteReader::read(&mut source, &mut bytes).unwrap(), 0);
}

#[test]
fn a_split_byte_order_mark_is_text() {
    let mut reader = Reader::from_reader(Script::new(vec![
        Given::Interruption,
        Given::Bytes(b"\xEF\xBB".to_vec()),
        Given::Bytes(b"\xBF<a/>".to_vec()),
    ]));
    let mut buf = Vec::new();
    match reader.read_event_into(&mut buf) {
        Ok(Event::Text(e)) => assert_eq!(e.as_bytes(), b"\xEF\xBB\xBF"),
        other => panic!("{:?}", other),
    }
    assert_eq!(reader.buffer_position(), 3);

    let mut reader = Reader::from_utf8_reader(Script::new(vec![
        Given::Interruption,
        Given::Bytes(b"\xEF\xBB\xBF<a".to_vec()),
        Given::Bytes(b"/>".to_vec()),
    ]));
    buf.clear();
    assert_eq!(show(&reader.read_event_into(&mut buf)), "Empty(a)");
    assert_eq!(reader.buffer_position(), 7);
}

#[test]
fn whitespace_before_markup_stays_in_the_buffer() {
    let mut reader = Reader::from_reader(b"  <a/>  &b;".as_slice());
    reader.config_mut().trim_text_end = true;
    let mut buf = Vec::new();
    assert_eq!(show(&reader.read_event_into(&mut buf)), "Empty(a)");
    assert_eq!(buf, b"  a/");
    assert_eq!(show(&reader.read_event_into(&mut buf)), "Ref(b)");
    assert_eq!(buf, b"  a/  &b");
}
