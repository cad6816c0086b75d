//! Document-state sugar: `<label>`, `&ref`, `[^mark]`.

use vstd::prelude::*;
use crate::ascii::{CARET, DQUOTE, GREATER, LBRACE, LBRACK, LPAREN, RBRACK, SQUOTE, UNDERSCORE};
use crate::bytes::{
    addressable, ascii_alnum, ascii_space, at, byte_at, is_alnum, is_space, skip, skip_class, utf8,
    ByteClass, Span,
};
use crate::escapes::{escaped, is_escaped};

verus! {

/// Can the byte at `i` start a label: a letter, a digit or `_`?
pub open spec fn label_starts(s: Seq<u8>, i: int) -> bool {
    at(s, i) matches Some(b) && (is_alnum(b) || b == UNDERSCORE)
}

/// Does a sigil at `off` have the shape of a label or reference opener: unescaped, and a label
/// start right after it?
pub open spec fn label_opens(s: Seq<u8>, off: int) -> bool {
    !escaped(s, off) && label_starts(s, off + 1)
}

/// May `<` or `&` fire after what stands before `off`: nothing, white space, or opening
/// punctuation?
pub open spec fn left_guard(s: Seq<u8>, off: int) -> bool {
    at(s, off - 1) matches Some(b) ==> is_space(b) || b == LPAREN || b == LBRACK || b == LBRACE || b
        == DQUOTE || b == SQUOTE
}

/// The end of the label that starts at `start`, clipped at `limit`.
pub open spec fn label_end(s: Seq<u8>, start: int, limit: int) -> Option<int> {
    if start < limit && label_starts(s, start) {
        let end = skip(s, start + 1, ByteClass::Label);
        Some(
            if end <= limit {
                end
            } else {
                limit
            },
        )
    } else {
        None
    }
}

/// The label that starts at `start` and is closed by `close` before `limit`.
pub open spec fn closed_label(s: Seq<u8>, start: int, limit: int, close: u8) -> Option<Span> {
    match label_end(s, start, limit) {
        Some(end) => if end < limit && at(s, end) == Some(close) {
            Some(Span { start: start as u32, end: end as u32 })
        } else {
            None
        },
        None => None,
    }
}

/// The reference whose `&` stands at `amp`.
pub open spec fn reference(s: Seq<u8>, amp: int, limit: int) -> Option<Span> {
    match label_end(s, amp + 1, limit) {
        Some(end) => Some(Span { start: (amp + 1) as u32, end: end as u32 }),
        None => None,
    }
}

/// The footnote mark whose `[` stands at `lbrack`.
pub open spec fn footnote(s: Seq<u8>, lbrack: int, limit: int) -> Option<Span> {
    if at(s, lbrack + 1) == Some(CARET) {
        closed_label(s, lbrack + 2, limit, RBRACK)
    } else {
        None
    }
}

/// Can the byte at `off` start a label?
fn label_start_at(source: &str, off: u32) -> (yes: bool)
    ensures
        yes == label_starts(utf8(source), off as int),
{
    match byte_at(source, off) {
        Some(b) => ascii_alnum(b) || b == UNDERSCORE,
        None => false,
    }
}

/// Opener shape of `<label>`: unescaped and directly followed by a label start. The left guard is
/// the caller's, who knows the enclosing frame.
pub fn label_can_open(source: &str, off: u32) -> (yes: bool)
    requires
        addressable(utf8(source)),
        off <= utf8(source).len(),
    ensures
        yes == label_opens(utf8(source), off as int),
{
    !is_escaped(source, off) && label_start_at(source, off + 1)
}

/// Opener shape of `&ref` (see [`label_can_open`]).
pub fn ref_can_open(source: &str, off: u32) -> (yes: bool)
    requires
        addressable(utf8(source)),
        off <= utf8(source).len(),
    ensures
        yes == label_opens(utf8(source), off as int),
{
    !is_escaped(source, off) && label_start_at(source, off + 1)
}

/// The left guard on `<` and `&`: the sigil fires only after the source start, white space, or
/// opening punctuation, so that `Vec<T>` and `R&D` stay prose.
pub fn docstate_left_guard(source: &str, off: u32) -> (yes: bool)
    ensures
        yes == left_guard(utf8(source), off as int),
{
    if off == 0 {
        return true;
    }
    match byte_at(source, off - 1) {
        None => true,
        Some(b) => ascii_space(b) || b == LPAREN || b == LBRACK || b == LBRACE || b == DQUOTE || b == SQUOTE,
    }
}

/// The end of the label that starts at `start`, clipped at `limit`.
fn docstate_ident_end(source: &str, start: u32, limit: u32) -> (found: Option<u32>)
    requires
        addressable(utf8(source)),
    ensures
        match found {
            Some(end) => label_end(utf8(source), start as int, limit as int) == Some(end as int)
                && start < end <= limit && end <= utf8(source).len(),
            None => label_end(utf8(source), start as int, limit as int) is None,
        },
{
    if start >= limit || !label_start_at(source, start) {
        return None;
    }
    let end: usize = skip_class(source.as_bytes(), start as usize + 1, ByteClass::Label);
    if end <= limit as usize {
        Some(end as u32)
    } else {
        Some(limit)
    }
}

/// `<label>` at `lt_off`: the label's span, with its `>` required before `limit`.
pub fn label_sugar_at(source: &str, lt_off: u32, limit: u32) -> (found: Option<Span>)
    requires
        addressable(utf8(source)),
        lt_off < u32::MAX,
    ensures
        found == closed_label(utf8(source), lt_off + 1, limit as int, GREATER),
        found matches Some(l) ==> lt_off < l.start < l.end < limit && l.end < utf8(source).len(),
{
    match docstate_ident_end(source, lt_off + 1, limit) {
        Some(end) => if end < limit && byte_at(source, end) == Some(GREATER) {
            Some(Span::new(lt_off + 1, end))
        } else {
            None
        },
        None => None,
    }
}

/// `&ref` at `amp_off`: the reference's span, which ends at the first byte that is not a label's.
pub fn ref_sugar_at(source: &str, amp_off: u32, limit: u32) -> (found: Option<Span>)
    requires
        addressable(utf8(source)),
        amp_off < u32::MAX,
    ensures
        found == reference(utf8(source), amp_off as int, limit as int),
        found matches Some(r) ==> amp_off < r.start < r.end <= limit && r.end
            <= utf8(source).len(),
{
    match docstate_ident_end(source, amp_off + 1, limit) {
        Some(end) => Some(Span::new(amp_off + 1, end)),
        None => None,
    }
}

/// `[^mark]` at `lbrack_off`: the mark's span, with the `[^` digraph and the `]` before `limit`.
pub fn footnote_sugar_at(source: &str, lbrack_off: u32, limit: u32) -> (found: Option<Span>)
    requires
        addressable(utf8(source)),
        lbrack_off + 1 < u32::MAX,
    ensures
        found == footnote(utf8(source), lbrack_off as int, limit as int),
        found matches Some(m) ==> lbrack_off + 1 < m.start < m.end < limit && m.end
            < utf8(source).len(),
{
    if byte_at(source, lbrack_off + 1) != Some(CARET) {
        return None;
    }
    match docstate_ident_end(source, lbrack_off + 2, limit) {
        Some(end) => if end < limit && byte_at(source, end) == Some(RBRACK) {
            Some(Span::new(lbrack_off + 2, end))
        } else {
            None
        },
        None => None,
    }
}

} // verus!
