//! Names of the ASCII bytes of the markup.

use vstd::prelude::*;

verus! {

pub const SPACE: u8 = 0x20;
pub const NEWLINE: u8 = 0x0a;
pub const BANG: u8 = 0x21;
pub const HASH: u8 = 0x23;
pub const DOLLAR: u8 = 0x24;
pub const PERCENT: u8 = 0x25;
pub const APOSTROPHE: u8 = 0x27;
pub const RPAREN: u8 = 0x29;
pub const STAR: u8 = 0x2a;
pub const PLUS: u8 = 0x2b;
pub const COMMA: u8 = 0x2c;
pub const MINUS: u8 = 0x2d;
pub const SLASH: u8 = 0x2f;
pub const DIGIT_0: u8 = 0x30;
pub const DIGIT_9: u8 = 0x39;
pub const COLON: u8 = 0x3a;
pub const SEMICOLON: u8 = 0x3b;
pub const EQUALS: u8 = 0x3d;
pub const GREATER: u8 = 0x3e;
pub const AT: u8 = 0x40;
pub const UNDERSCORE: u8 = 0x5f;
pub const BACKTICK: u8 = 0x60;
pub const PIPE: u8 = 0x7c;
pub const RBRACE: u8 = 0x7d;
pub const TILDE: u8 = 0x7e;

} // verus!
