//! The bytes that mean something in PGN.
use vstd::prelude::*;

verus! {

/// Horizontal tab.
pub const TAB: u8 = 0x09;

/// Line feed.
pub const LF: u8 = 0x0a;

/// Carriage return.
pub const CR: u8 = 0x0d;

/// ` `
pub const SPACE: u8 = 0x20;

/// `!`
pub const BANG: u8 = 0x21;

/// `"`
pub const QUOTE: u8 = 0x22;

/// `#`
pub const HASH: u8 = 0x23;

/// `$`
pub const DOLLAR: u8 = 0x24;

/// `%`
pub const PERCENT: u8 = 0x25;

/// `(`
pub const PAREN: u8 = 0x28;

/// `)`
pub const CLOSE_PAREN: u8 = 0x29;

/// `*`
pub const STAR: u8 = 0x2a;

/// `+`
pub const PLUS: u8 = 0x2b;

/// `-`
pub const MINUS: u8 = 0x2d;

/// `.`
pub const DOT: u8 = 0x2e;

/// `/`
pub const SLASH: u8 = 0x2f;

/// `0`
pub const ZERO: u8 = 0x30;

/// `1`
pub const ONE: u8 = 0x31;

/// `2`
pub const TWO: u8 = 0x32;

/// `9`
pub const NINE: u8 = 0x39;

/// `;`
pub const SEMICOLON: u8 = 0x3b;

/// `?`
pub const QUERY: u8 = 0x3f;

/// `O`
pub const UPPER_O: u8 = 0x4f;

/// `P`
pub const UPPER_P: u8 = 0x50;

/// `[`
pub const BRACKET: u8 = 0x5b;

/// `\`
pub const BACKSLASH: u8 = 0x5c;

/// `]`
pub const CLOSE_BRACKET: u8 = 0x5d;

/// `{`
pub const BRACE: u8 = 0x7b;

/// `}`
pub const CLOSE_BRACE: u8 = 0x7d;

/// First byte of a byte order mark.
pub const BOM_1: u8 = 0xef;

/// Second byte of a byte order mark.
pub const BOM_2: u8 = 0xbb;

/// Third byte of a byte order mark.
pub const BOM_3: u8 = 0xbf;

} // verus!
