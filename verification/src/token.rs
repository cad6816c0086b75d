//! Child tokens of a markup body: a maximal run of literal text, or one sigil.

use vstd::prelude::*;
use crate::ascii::{
    AMPERSAND, AT_SIGN, BACKSLASH, BACKTICK, BANG, DOLLAR, LBRACE, LBRACK, LESS, NEWLINE, PIPE,
    RBRACE, SLASH, STAR, TILDE, UNDERSCORE,
};
use crate::bytes::{addressable, at, get, utf8};
use crate::docstate::{label_can_open, label_opens, ref_can_open};
use crate::emphasis::{emphasis_can_open, emphasis_opens, strike_can_open, strike_opens};
use crate::escapes::{comment_can_open, escaped, is_escaped, opens_comment};

verus! {

/// What a child token is.
#[derive(Clone, Copy, Debug, PartialEq, Eq, Structural)]
pub enum Kind {
    /// Literal text.
    MarkupText,
    /// `@`.
    At,
    /// `{`.
    LCurly,
    /// `}`.
    RCurly,
    /// A line feed.
    NotaNewline,
    /// A `*` that can open emphasis.
    Star,
    /// A `_` that can open emphasis.
    NotaUnderscore,
    /// `\`.
    NotaBackslash,
    /// A backtick.
    NotaBacktick,
    /// `$`.
    NotaDollar,
    /// `|`.
    Pipe,
    /// A `<` shaped like a label opener.
    LAngle,
    /// A `&` shaped like a reference opener.
    Amp,
    /// An unescaped `[`.
    LBrack,
    /// The `!` of `![`.
    Bang,
    /// The `/` of a comment opener.
    Slash,
    /// A `~~` that can open strikethrough.
    Tilde,
    /// The end of the text.
    Eof,
}

/// A child token and its extent.
#[derive(Clone, Copy, Debug, PartialEq, Eq, Structural)]
pub struct Token {
    /// What it is.
    pub kind: Kind,
    /// Its first byte.
    pub start: u32,
    /// One past its last byte.
    pub end: u32,
}

/// Does `b` end a run of literal text?
pub open spec fn is_sigil(b: u8) -> bool {
    ||| b == RBRACE || b == AT_SIGN || b == LBRACE || b == NEWLINE || b == STAR || b == UNDERSCORE || b == BACKSLASH
    ||| b == BACKTICK || b == DOLLAR || b == PIPE || b == LESS || b == AMPERSAND || b == LBRACK || b == SLASH
    ||| b == TILDE || b == BANG
}

/// The end of the literal text that starts at `i`.
pub open spec fn text_end(s: Seq<u8>, i: int) -> int
    decreases s.len() - i,
{
    if 0 <= i < s.len() && !is_sigil(s[i]) {
        text_end(s, i + 1)
    } else {
        i
    }
}

/// The kind of the token that the sigil at `pos` makes: a sigil that opens nothing is literal text.
pub open spec fn sigil_kind(s: Seq<u8>, pos: int) -> Kind {
    let b = s[pos];
    if b == AT_SIGN {
        Kind::At
    } else if b == LBRACE {
        Kind::LCurly
    } else if b == RBRACE {
        Kind::RCurly
    } else if b == NEWLINE {
        Kind::NotaNewline
    } else if b == STAR && emphasis_opens(s, pos, STAR) {
        Kind::Star
    } else if b == UNDERSCORE && emphasis_opens(s, pos, UNDERSCORE) {
        Kind::NotaUnderscore
    } else if b == LESS && label_opens(s, pos) {
        Kind::LAngle
    } else if b == AMPERSAND && label_opens(s, pos) {
        Kind::Amp
    } else if b == LBRACK && !escaped(s, pos) {
        Kind::LBrack
    } else if b == BANG && !escaped(s, pos) && at(s, pos + 1) == Some(LBRACK) {
        Kind::Bang
    } else if b == TILDE && strike_opens(s, pos) {
        Kind::Tilde
    } else if b == SLASH && opens_comment(s, pos) {
        Kind::Slash
    } else if b == BACKSLASH {
        Kind::NotaBackslash
    } else if b == BACKTICK {
        Kind::NotaBacktick
    } else if b == DOLLAR {
        Kind::NotaDollar
    } else if b == PIPE {
        Kind::Pipe
    } else {
        Kind::MarkupText
    }
}

/// The end of the child token at `pos`: past the run of text, the `~~`, or the one sigil byte.
#[verifier::opaque]
pub open spec fn token_end(s: Seq<u8>, pos: int) -> int {
    if pos >= s.len() {
        pos
    } else if !is_sigil(s[pos]) {
        text_end(s, pos)
    } else if sigil_kind(s, pos) == Kind::Tilde {
        pos + 2
    } else {
        pos + 1
    }
}

/// The kind of the child token at `pos`.
#[verifier::opaque]
pub open spec fn token_kind(s: Seq<u8>, pos: int) -> Kind {
    if pos >= s.len() {
        Kind::Eof
    } else if !is_sigil(s[pos]) {
        Kind::MarkupText
    } else {
        sigil_kind(s, pos)
    }
}

/// Literal text ends at or after its start, inside the source.
pub proof fn text_end_bounds(s: Seq<u8>, i: int)
    requires
        0 <= i <= s.len(),
    ensures
        i <= text_end(s, i) <= s.len(),
    decreases s.len() - i,
{
    if i < s.len() && !is_sigil(s[i]) {
        text_end_bounds(s, i + 1);
    }
}

/// Every token but the last is at least one byte long and inside the source.
pub proof fn token_bounds(s: Seq<u8>, pos: int)
    requires
        0 <= pos < s.len(),
    ensures
        pos < token_end(s, pos) <= s.len(),
        token_kind(s, pos) != Kind::Eof,
        token_kind(s, pos) == Kind::NotaBackslash ==> s[pos] == BACKSLASH,
        token_kind(s, pos) == Kind::NotaBacktick ==> s[pos] == BACKTICK,
        token_kind(s, pos) == Kind::NotaDollar ==> s[pos] == DOLLAR,
        token_kind(s, pos) == Kind::Tilde ==> pos + 1 < s.len() && s[pos + 1] == TILDE,
{
    reveal(token_end);
    reveal(token_kind);
    if !is_sigil(s[pos]) {
        text_end_bounds(s, pos + 1);
    }
}

/// Does `b` end a run of literal text?
fn sigil(b: u8) -> (yes: bool)
    ensures
        yes == is_sigil(b),
{
    b == RBRACE || b == AT_SIGN || b == LBRACE || b == NEWLINE || b == STAR || b == UNDERSCORE || b == BACKSLASH || b
        == BACKTICK || b == DOLLAR || b == PIPE || b == LESS || b == AMPERSAND || b == LBRACK || b == SLASH || b
        == TILDE || b == BANG
}

/// The kind of the token that the sigil at `pos` makes.
fn classify_sigil(source: &str, pos: u32) -> (kind: Kind)
    requires
        addressable(utf8(source)),
        pos < utf8(source).len(),
    ensures
        kind == sigil_kind(utf8(source), pos as int),
{
    let s = source.as_bytes();
    let b: u8 = s[pos as usize];
    if b == AT_SIGN {
        Kind::At
    } else if b == LBRACE {
        Kind::LCurly
    } else if b == RBRACE {
        Kind::RCurly
    } else if b == NEWLINE {
        Kind::NotaNewline
    } else if b == STAR && emphasis_can_open(source, pos, STAR) {
        Kind::Star
    } else if b == UNDERSCORE && emphasis_can_open(source, pos, UNDERSCORE) {
        Kind::NotaUnderscore
    } else if b == LESS && label_can_open(source, pos) {
        Kind::LAngle
    } else if b == AMPERSAND && ref_can_open(source, pos) {
        Kind::Amp
    } else if b == LBRACK && !is_escaped(source, pos) {
        Kind::LBrack
    } else if b == BANG && !is_escaped(source, pos) && get(s, pos as usize + 1) == Some(LBRACK) {
        Kind::Bang
    } else if b == TILDE && strike_can_open(source, pos) {
        Kind::Tilde
    } else if b == SLASH && comment_can_open(source, pos) {
        Kind::Slash
    } else if b == BACKSLASH {
        Kind::NotaBackslash
    } else if b == BACKTICK {
        Kind::NotaBacktick
    } else if b == DOLLAR {
        Kind::NotaDollar
    } else if b == PIPE {
        Kind::Pipe
    } else {
        Kind::MarkupText
    }
}

/// Pull the child token at `pos`: a maximal run of literal text, or a single sigil as a typed token.
/// A sigil that opens nothing is one byte of text. For sigils whose meaning spans more than their
/// own bytes (code, math, emphasis, escapes), the reader scans on from the token's start.
pub fn next_nota_child(source: &str, pos: u32) -> (token: Token)
    requires
        addressable(utf8(source)),
    ensures
        token.kind == token_kind(utf8(source), pos as int),
        token.start == pos,
        token.end == token_end(utf8(source), pos as int),
{
    proof {
        reveal(token_end);
        reveal(token_kind);
    }
    let s = source.as_bytes();
    if pos as usize >= s.len() {
        return Token { kind: Kind::Eof, start: pos, end: pos };
    }
    if sigil(s[pos as usize]) {
        let kind = classify_sigil(source, pos);
        let end: u32 = if kind == Kind::Tilde {
            pos + 2
        } else {
            pos + 1
        };
        return Token { kind, start: pos, end };
    }
    let mut i: usize = pos as usize;
    while i < s.len() && !sigil(s[i])
        invariant
            s@ == utf8(source),
            addressable(s@),
            pos <= i <= s@.len(),
            text_end(s@, i as int) == text_end(s@, pos as int),
        decreases s@.len() - i,
    {
        i = i + 1;
    }
    Token { kind: Kind::MarkupText, start: pos, end: i as u32 }
}

/// Does `b` end a run of plain body text?
pub open spec fn ends_plain_text(b: u8) -> bool {
    b == RBRACE || b == AT_SIGN || b == LBRACE || b == NEWLINE || b == STAR || b == UNDERSCORE || b == BACKSLASH || b
        == BACKTICK || b == DOLLAR || b == PIPE
}

/// The end of the run of plain body text that starts at `i`.
pub open spec fn plain_text_end(s: Seq<u8>, i: int) -> int
    decreases s.len() - i,
{
    if 0 <= i < s.len() && !ends_plain_text(s[i]) {
        plain_text_end(s, i + 1)
    } else {
        i
    }
}

/// The run of plain body text at `pos`, which is empty where a byte that ends one stands there.
pub fn next_markup_text(source: &str, pos: u32) -> (token: Token)
    requires
        addressable(utf8(source)),
        pos <= utf8(source).len(),
    ensures
        token.kind == Kind::MarkupText,
        token.start == pos,
        token.end == plain_text_end(utf8(source), pos as int),
{
    let s = source.as_bytes();
    let mut i: usize = pos as usize;
    while i < s.len() && !(s[i] == RBRACE || s[i] == AT_SIGN || s[i] == LBRACE || s[i] == NEWLINE || s[i]
        == STAR || s[i] == UNDERSCORE || s[i] == BACKSLASH || s[i] == BACKTICK || s[i] == DOLLAR || s[i] == PIPE)
        invariant
            addressable(s@),
            pos <= i <= s@.len(),
            plain_text_end(s@, i as int) == plain_text_end(s@, pos as int),
        decreases s@.len() - i,
    {
        i = i + 1;
    }
    Token { kind: Kind::MarkupText, start: pos, end: i as u32 }
}

} // verus!
