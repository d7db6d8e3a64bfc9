//! A pull-based XML reader.
//!
//! The entry point is [`reader::Reader`], which turns a stream of bytes into a stream of
//! [`events::Event`]s. It reads from slices without copying ([`Reader::read_event`]) and from
//! sources with a buffer ([`Reader::read_event_into`]).
//!
//! What a reader does is stated in [`reader::model`], step by step, over the bytes that lie ahead
//! of it and its state. What follows from that for all documents is stated and proved in
//! [`reader::laws`], [`reader::contents`], [`reader::elements`] and [`reader::agreement`].

pub mod attributes;
pub mod bytes;
pub mod encoding;
pub mod errors;
pub mod events;
pub mod name;
pub mod parser;
pub mod reader;
pub mod utils;

pub use errors::Error;
pub use reader::Reader;
