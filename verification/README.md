# quick-xml

A pull-based XML reader, written in Verus. It reads a document event by event, from a slice without
copying or from a source with a buffer, and it is proved to return what its contracts say for every
document.

```rust
use quick_xml::events::Event;
use quick_xml::Reader;

let mut reader = Reader::from_str("<a>text</a>");
loop {
    match reader.read_event() {
        Ok(Event::Start(e)) => println!("{:?}", e.name()),
        Ok(Event::Text(e)) => println!("{:?}", e.decode()),
        Ok(Event::Eof) => break,
        Ok(_) => {}
        Err(e) => panic!("error at {}: {:?}", reader.error_position(), e),
    }
}
```

## Layout

- `src/reader/` is the reader. `slice_reader.rs` reads from slices, `buffered_reader.rs` from
  anything that implements `ByteSource`, `state.rs` turns the pieces of a document into events.
- `src/reader/model.rs` and `src/reader/to_end.rs` say what the methods of a reader do. The steps
  that have many cases are opaque, so a proof that needs their definition reveals it.
- `src/reader/laws.rs`, `src/reader/contents.rs`, `src/reader/tiling.rs`, `src/reader/elements.rs`,
  `src/reader/calls.rs` and `src/reader/agreement.rs` prove what holds of all documents: that reading
  comes to an end and how soon, that tags nest, that positions count all bytes and only grow, that
  errors lie behind them whatever calls were made, that events tile the document, that a slice and a
  stream give the same events, and more.
- `src/parser/` finds the end of tags, comments, CDATA sections, processing instructions and
  document type declarations, also where they are split between chunks.
- `src/encoding.rs` detects encodings and decodes text with `encoding_rs`.
- `app/` reads from files and from `std::io::BufRead`, and stores configurations.

## What is not proved

The searches of `memchr` (`src/parser/memory.rs`) and the decoders of `encoding_rs`
(`src/encoding.rs`) are specified, not verified. A source of data is trusted to give what it says it
is going to give, or something at least, in the order that its methods promise, if it does not say.
That of a slice is verified.
