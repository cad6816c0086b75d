//! The ASCII bytes the notation is made of, by name.

use vstd::prelude::*;

verus! {

/// A tab.
pub const TAB: u8 = 0x09;

/// A line feed.
pub const NEWLINE: u8 = 0x0a;

/// A carriage return.
pub const RETURN: u8 = 0x0d;

/// A space.
pub const SPACE: u8 = 0x20;

/// `!`.
pub const BANG: u8 = 0x21;

/// `"`.
pub const DQUOTE: u8 = 0x22;

/// `#`.
pub const HASH: u8 = 0x23;

/// `$`.
pub const DOLLAR: u8 = 0x24;

/// `%`.
pub const PERCENT: u8 = 0x25;

/// `&`.
pub const AMPERSAND: u8 = 0x26;

/// `'`.
pub const SQUOTE: u8 = 0x27;

/// `(`.
pub const LPAREN: u8 = 0x28;

/// `)`.
pub const RPAREN: u8 = 0x29;

/// `*`.
pub const STAR: u8 = 0x2a;

/// `+`.
pub const PLUS: u8 = 0x2b;

/// `,`.
pub const COMMA: u8 = 0x2c;

/// `-`.
pub const HYPHEN: u8 = 0x2d;

/// `.`.
pub const DOT: u8 = 0x2e;

/// `/`.
pub const SLASH: u8 = 0x2f;

/// `0`.
pub const DIGIT_0: u8 = 0x30;

/// `9`.
pub const DIGIT_9: u8 = 0x39;

/// `:`.
pub const COLON: u8 = 0x3a;

/// `;`.
pub const SEMICOLON: u8 = 0x3b;

/// `<`.
pub const LESS: u8 = 0x3c;

/// `>`.
pub const GREATER: u8 = 0x3e;

/// `@`.
pub const AT_SIGN: u8 = 0x40;

/// `A`.
pub const UPPER_A: u8 = 0x41;

/// `F`.
pub const UPPER_F: u8 = 0x46;

/// `Z`.
pub const UPPER_Z: u8 = 0x5a;

/// `[`.
pub const LBRACK: u8 = 0x5b;

/// `\`.
pub const BACKSLASH: u8 = 0x5c;

/// `]`.
pub const RBRACK: u8 = 0x5d;

/// `^`.
pub const CARET: u8 = 0x5e;

/// `_`.
pub const UNDERSCORE: u8 = 0x5f;

/// A backtick.
pub const BACKTICK: u8 = 0x60;

/// `a`.
pub const LOWER_A: u8 = 0x61;

/// `b`.
pub const LOWER_B: u8 = 0x62;

/// `e`.
pub const LOWER_E: u8 = 0x65;

/// `f`.
pub const LOWER_F: u8 = 0x66;

/// `i`.
pub const LOWER_I: u8 = 0x69;

/// `l`.
pub const LOWER_L: u8 = 0x6c;

/// `n`.
pub const LOWER_N: u8 = 0x6e;

/// `o`.
pub const LOWER_O: u8 = 0x6f;

/// `p`.
pub const LOWER_P: u8 = 0x70;

/// `r`.
pub const LOWER_R: u8 = 0x72;

/// `s`.
pub const LOWER_S: u8 = 0x73;

/// `t`.
pub const LOWER_T: u8 = 0x74;

/// `u`.
pub const LOWER_U: u8 = 0x75;

/// `v`.
pub const LOWER_V: u8 = 0x76;

/// `x`.
pub const LOWER_X: u8 = 0x78;

/// `z`.
pub const LOWER_Z: u8 = 0x7a;

/// `{`.
pub const LBRACE: u8 = 0x7b;

/// `|`.
pub const PIPE: u8 = 0x7c;

/// `}`.
pub const RBRACE: u8 = 0x7d;

/// `~`.
pub const TILDE: u8 = 0x7e;

} // verus!
