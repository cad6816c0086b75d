//! Head scans: what follows the head of an `@`-form, where a form stands, and what continues it.

use vstd::prelude::*;
use crate::ascii::{
    COLON, DOLLAR, HYPHEN, LBRACE, LBRACK, LOWER_E, LOWER_F, LOWER_I, LOWER_L, LOWER_S, NEWLINE,
    PIPE, SPACE, TAB, UNDERSCORE,
};
use crate::bytes::{
    addressable, ascii_alnum, at, at_pair, class_holds, get, in_class, is_alnum, skip, skip_bounds,
    skip_class, utf8, ByteClass,
};

verus! {

/// The element trigger right after an `@`-form head (see [`markup_trigger`]).
#[derive(Clone, Copy, Debug, PartialEq, Eq, Structural)]
pub enum MarkupTrigger {
    /// `@head{…}`: a braced body.
    Brace,
    /// `@head[…]`: a property group, with an optional body.
    Bracket,
    /// `@head:…`: colon or block sugar.
    Colon,
    /// `@head|{…}|`: a verbatim body.
    Verbatim,
    /// Nothing glued to the head: an interpolation.
    Bare,
}

/// What continues an `@if` branch (see [`else_peek`]).
#[derive(Clone, Copy, Debug, PartialEq, Eq, Structural)]
pub enum ElsePeek {
    /// No continuation: the conditional ends.
    Ends,
    /// `else if (…) {…}`: resume at the `if` keyword.
    ElseIf {
        /// The offset of `if`.
        if_offset: u32,
    },
    /// `else {…}`: resume at the body's `{`.
    Else {
        /// The offset of the `{`.
        brace_offset: u32,
    },
}

/// Does `-` with a word byte after it stand at `i`?
pub open spec fn hyphen_joins(s: Seq<u8>, i: int) -> bool {
    at(s, i) == Some(HYPHEN) && (at(s, i + 1) matches Some(b) && in_class(ByteClass::Word, b))
}

/// The end of the `-`-joined word runs that start at `i`.
pub open spec fn hyphen_tail(s: Seq<u8>, i: int) -> int
    decreases s.len() - i,
{
    if hyphen_joins(s, i) {
        proof {
            skip_bounds(s, i + 1, ByteClass::Word);
        }
        hyphen_tail(s, skip(s, i + 1, ByteClass::Word))
    } else {
        i
    }
}

/// The trigger at `after`.
pub open spec fn head_trigger(s: Seq<u8>, after: int) -> MarkupTrigger {
    if at(s, after) == Some(LBRACE) {
        MarkupTrigger::Brace
    } else if at(s, after) == Some(LBRACK) {
        MarkupTrigger::Bracket
    } else if at(s, after) == Some(COLON) {
        MarkupTrigger::Colon
    } else if at(s, after) == Some(PIPE) && at(s, after + 1) == Some(LBRACE) {
        MarkupTrigger::Verbatim
    } else {
        MarkupTrigger::Bare
    }
}

/// The start of the spaces and tabs that end at `pos`, not before `frame`.
pub open spec fn frame_walk(s: Seq<u8>, pos: int, frame: int) -> int
    decreases pos - frame,
{
    if pos > frame && (at(s, pos - 1) == Some(SPACE) || at(s, pos - 1) == Some(TAB)) {
        frame_walk(s, pos - 1, frame)
    } else {
        pos
    }
}

/// Does only white space stand between `pos` and the start of its line or of its frame?
pub open spec fn leads_line(s: Seq<u8>, pos: int, frame: int) -> bool {
    let w = frame_walk(s, pos, frame);
    w == frame || w == 0 || at(s, w - 1) == Some(NEWLINE)
}

/// The first byte at or after `i` that is neither blank nor past a second `\n`; `None` where two
/// newlines break the gap. `newlines` counts those already passed.
pub open spec fn else_gap(s: Seq<u8>, i: int, newlines: int) -> Option<int>
    decreases s.len() - i,
{
    if 0 <= i < s.len() && in_class(ByteClass::LineTail, s[i]) {
        else_gap(s, i + 1, newlines)
    } else if 0 <= i < s.len() && s[i] == NEWLINE {
        if newlines >= 1 {
            None
        } else {
            else_gap(s, i + 1, newlines + 1)
        }
    } else {
        Some(i)
    }
}

/// Does a word end at `i`: is there no byte that could continue an identifier?
pub open spec fn word_ends(s: Seq<u8>, i: int) -> bool {
    at(s, i) matches Some(b) ==> !(is_alnum(b) || b == UNDERSCORE || b == DOLLAR || b >= 0x80)
}

/// Does the keyword `else` stand at `i`?
pub open spec fn else_at(s: Seq<u8>, i: int) -> bool {
    at(s, i) == Some(LOWER_E) && at(s, i + 1) == Some(LOWER_L) && at(s, i + 2) == Some(LOWER_S) && at(
        s,
        i + 3,
    ) == Some(LOWER_E) && word_ends(s, i + 4)
}

/// Does the keyword `if` stand at `i`?
pub open spec fn if_at(s: Seq<u8>, i: int) -> bool {
    at(s, i) == Some(LOWER_I) && at(s, i + 1) == Some(LOWER_F) && word_ends(s, i + 2)
}

/// What continues the `@if` branch that closed at `close_end`.
pub open spec fn else_after(s: Seq<u8>, close_end: int) -> ElsePeek {
    match else_gap(s, close_end, 0) {
        None => ElsePeek::Ends,
        Some(i) => if else_at(s, i) {
            let after = skip(s, i + 4, ByteClass::Blank);
            if if_at(s, after) {
                ElsePeek::ElseIf { if_offset: after as u32 }
            } else if at(s, after) == Some(LBRACE) {
                ElsePeek::Else { brace_offset: after as u32 }
            } else {
                ElsePeek::Ends
            }
        } else {
            ElsePeek::Ends
        },
    }
}

/// A hyphenated tail ends at or after its start, inside the source.
pub proof fn hyphen_tail_bounds(s: Seq<u8>, i: int)
    requires
        0 <= i,
    ensures
        i <= hyphen_tail(s, i),
        hyphen_tail(s, i) > i ==> hyphen_tail(s, i) <= s.len(),
    decreases s.len() - i,
{
    if hyphen_joins(s, i) {
        skip_bounds(s, i + 1, ByteClass::Word);
        hyphen_tail_bounds(s, skip(s, i + 1, ByteClass::Word));
    }
}

/// A continuation stands at or after the branch it continues, inside the source.
pub proof fn else_after_bounds(s: Seq<u8>, close_end: int)
    requires
        0 <= close_end,
        addressable(s),
    ensures
        match else_after(s, close_end) {
            ElsePeek::Ends => true,
            ElsePeek::ElseIf { if_offset } => close_end + 4 <= if_offset && if_offset + 2
                <= s.len() && s[if_offset as int] == LOWER_I && s[if_offset + 1] == LOWER_F,
            ElsePeek::Else { brace_offset } => close_end + 4 <= brace_offset < s.len()
                && s[brace_offset as int] == LBRACE,
        },
{
    else_gap_bounds(s, close_end, 0);
    if let Some(i) = else_gap(s, close_end, 0) {
        skip_bounds(s, i + 4, ByteClass::Blank);
    }
}

/// The gap before a continuation ends at or after its start.
proof fn else_gap_bounds(s: Seq<u8>, i: int, newlines: int)
    requires
        0 <= i,
    ensures
        else_gap(s, i, newlines) matches Some(j) ==> i <= j,
    decreases s.len() - i,
{
    if i < s.len() && in_class(ByteClass::LineTail, s[i]) {
        else_gap_bounds(s, i + 1, newlines);
    } else if i < s.len() && s[i] == NEWLINE && newlines < 1 {
        else_gap_bounds(s, i + 1, newlines + 1);
    }
}

/// Scan a hyphenated custom-element name tail (`@my-widget`) at `at`: one or more `-`-joined runs of
/// word bytes. Gives the offset past the tail, or `None` where no `-` with a word byte after it
/// stands.
pub fn scan_hyphen_tail(source: &str, at: u32) -> (tail: Option<u32>)
    requires
        addressable(utf8(source)),
    ensures
        match tail {
            Some(end) => end == hyphen_tail(utf8(source), at as int) && at < end
                <= utf8(source).len(),
            None => hyphen_tail(utf8(source), at as int) == at,
        },
{
    let s = source.as_bytes();
    let mut i: usize = at as usize;
    loop
        invariant_except_break
            s@ == utf8(source),
            addressable(s@),
            at <= i,
            i > at ==> i <= s@.len(),
            hyphen_tail(s@, i as int) == hyphen_tail(s@, at as int),
        ensures
            s@ == utf8(source),
            i == hyphen_tail(s@, at as int),
            at <= i,
            i > at ==> i <= s@.len(),
        decreases s@.len() - i,
    {
        if i >= s.len() || s[i] != HYPHEN {
            break ;
        }
        match get(s, i + 1) {
            Some(b) => {
                if !class_holds(ByteClass::Word, b) {
                    break ;
                }
            },
            None => {
                break ;
            },
        }
        proof {
            skip_bounds(s@, i + 1, ByteClass::Word);
        }
        i = skip_class(s, i + 1, ByteClass::Word);
    }
    if i > at as usize {
        Some(i as u32)
    } else {
        None
    }
}

/// Classify the byte at `after` as the trigger glued to an `@`-form head.
pub fn markup_trigger(source: &str, after: u32) -> (kind: MarkupTrigger)
    requires
        addressable(utf8(source)),
    ensures
        kind == head_trigger(utf8(source), after as int),
{
    let s = source.as_bytes();
    match get(s, after as usize) {
        Some(b) => {
            if b == LBRACE {
                MarkupTrigger::Brace
            } else if b == LBRACK {
                MarkupTrigger::Bracket
            } else if b == COLON {
                MarkupTrigger::Colon
            } else if b == PIPE && get(s, after as usize + 1) == Some(LBRACE) {
                MarkupTrigger::Verbatim
            } else {
                MarkupTrigger::Bare
            }
        },
        None => MarkupTrigger::Bare,
    }
}

/// Is `at` a line start, white space aside, inside a markup frame whose body begins at
/// `frame_start`? Only spaces and tabs may stand between `at` and the frame's start, the source's
/// start, or a `\n`.
pub fn at_line_start_in_frame(source: &str, at: u32, frame_start: u32) -> (yes: bool)
    ensures
        yes == leads_line(utf8(source), at as int, frame_start as int),
{
    let s = source.as_bytes();
    let mut pos: u32 = at;
    loop
        invariant_except_break
            s@ == utf8(source),
            pos <= at,
            frame_walk(s@, pos as int, frame_start as int) == frame_walk(
                s@,
                at as int,
                frame_start as int,
            ),
        ensures
            s@ == utf8(source),
            pos == frame_walk(s@, at as int, frame_start as int),
        decreases pos,
    {
        if pos <= frame_start {
            break ;
        }
        let before = get(s, pos as usize - 1);
        if !(before == Some(SPACE) || before == Some(TAB)) {
            break ;
        }
        pos = pos - 1;
    }
    pos == frame_start || pos == 0 || get(s, pos as usize - 1) == Some(NEWLINE)
}

/// Does a word end at `i`?
fn at_word_end(s: &[u8], i: usize) -> (yes: bool)
    ensures
        yes == word_ends(s@, i as int),
{
    match get(s, i) {
        Some(b) => !(ascii_alnum(b) || b == UNDERSCORE || b == DOLLAR || b >= 0x80),
        None => true,
    }
}

/// Scan for an `else` or `else if` that continues an `@if` branch closed at `close_end`: blanks and
/// at most one newline may stand between, and what follows `else` must be `if` or a `{`.
pub fn else_peek(source: &str, close_end: u32) -> (peek: ElsePeek)
    requires
        addressable(utf8(source)),
    ensures
        peek == else_after(utf8(source), close_end as int),
{
    let s = source.as_bytes();
    let mut i: usize = close_end as usize;
    let mut newlines: usize = 0;
    while i < s.len() && class_holds(ByteClass::Blank, s[i])
        invariant
            s@ == utf8(source),
            addressable(s@),
            close_end <= i,
            newlines <= 1,
            else_gap(s@, i as int, newlines as int) == else_gap(s@, close_end as int, 0),
        decreases s@.len() - i,
    {
        if s[i] == NEWLINE {
            if newlines >= 1 {
                return ElsePeek::Ends;
            }
            newlines = newlines + 1;
        }
        i = i + 1;
    }
    assert(else_gap(s@, close_end as int, 0) == Some(i as int));
    if i >= s.len() {
        return ElsePeek::Ends;
    }
    if !(at_pair(s, i, LOWER_E, LOWER_L) && at_pair(s, i + 2, LOWER_S, LOWER_E) && at_word_end(s, i + 4)) {
        return ElsePeek::Ends;
    }
    let after: usize = skip_class(s, i + 4, ByteClass::Blank);
    if at_pair(s, after, LOWER_I, LOWER_F) && at_word_end(s, after + 2) {
        ElsePeek::ElseIf { if_offset: after as u32 }
    } else if get(s, after) == Some(LBRACE) {
        ElsePeek::Else { brace_offset: after as u32 }
    } else {
        ElsePeek::Ends
    }
}

} // verus!
