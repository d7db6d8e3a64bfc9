//! The bytes that have a meaning in the syntax of XML.

use vstd::prelude::*;

verus! {

/// A tab.
pub const TAB: u8 = 0x09;

/// A line feed.
pub const LF: u8 = 0x0A;

/// A carriage return.
pub const CR: u8 = 0x0D;

/// A space.
pub const SPACE: u8 = 0x20;

/// The byte `!`.
pub const BANG: u8 = 0x21;

/// The byte `"`.
pub const DOUBLE_QUOTE: u8 = 0x22;

/// The byte `&`.
pub const AMP: u8 = 0x26;

/// The byte `'`.
pub const SINGLE_QUOTE: u8 = 0x27;

/// The byte `-`.
pub const HYPHEN: u8 = 0x2D;

/// The byte `/`.
pub const SLASH: u8 = 0x2F;

/// The byte `;`.
pub const SEMICOLON: u8 = 0x3B;

/// The byte `<`.
pub const LT: u8 = 0x3C;

/// The byte `=`.
pub const EQUALS: u8 = 0x3D;

/// The byte `>`.
pub const GT: u8 = 0x3E;

/// The byte `?`.
pub const QUESTION: u8 = 0x3F;

/// The byte `[`.
pub const OPEN_BRACKET: u8 = 0x5B;

/// The byte `]`.
pub const CLOSE_BRACKET: u8 = 0x5D;

} // verus!
