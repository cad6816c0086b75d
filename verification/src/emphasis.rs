//! Emphasis: the word-boundary rule for `*`, `_` and `~~`, and the search for their close.

use vstd::prelude::*;
use crate::ascii::{
    AT_SIGN, BACKSLASH, BACKTICK, BANG, DOLLAR, LBRACE, LBRACK, NEWLINE, PIPE, RBRACE, SLASH,
    STAR, TILDE,
};
use crate::bytes::{addressable, ascii_space, at, get, is_space, utf8};
use crate::embedded::{at_form_bounds, at_form_end, skip_at_form};
use crate::escapes::{
    block_comment_bounds, escaped, is_escaped, markup_comment_end, skip_markup_comment,
};
use crate::lines::{line_content_end, line_end, next_line_bounds};
use crate::links::{lex_link_span, link_closers, link_on_one_line};
use crate::raw::{raw_span_bounds, raw_span_end, skip_raw_span};
use crate::unicode::{char_at, char_before, char_from, char_until, is_wordy, wordy};

verus! {

/// Is a marker of `len` bytes at `off` inside a word: wordy characters on both of its sides?
pub open spec fn intra_word(s: Seq<u8>, off: int, len: int) -> bool {
    wordy(char_until(s, off)) && wordy(char_from(s, off + len))
}

/// Is the byte at `i` content: there, not white space, and not the marker?
pub open spec fn content_at(s: Seq<u8>, i: int, marker: u8) -> bool {
    at(s, i) matches Some(b) && !is_space(b) && b != marker
}

/// Can the one-byte marker at `off` open a span?
pub open spec fn emphasis_opens(s: Seq<u8>, off: int, marker: u8) -> bool {
    !escaped(s, off) && !intra_word(s, off, 1) && content_at(s, off + 1, marker)
}

/// Can the `~~` at `off` open a span?
pub open spec fn strike_opens(s: Seq<u8>, off: int) -> bool {
    at(s, off + 1) == Some(TILDE) && !escaped(s, off) && !intra_word(s, off, 2) && content_at(
        s,
        off + 2,
        TILDE,
    )
}

/// Can the marker of `len` bytes at `off` close its span: unescaped, not inside a word, and with
/// content right before it?
pub open spec fn closes(s: Seq<u8>, off: int, len: int) -> bool {
    !escaped(s, off) && !intra_word(s, off, len) && (at(s, off - 1) matches Some(b) && !is_space(b))
}

/// The marker of `len` bytes that closes the span whose content starts at `first`, sought from `i`
/// on before `bound` with `depth` braces open. Escapes, raw spans, `@`-forms, block comments and
/// links are opaque; the `}` of the enclosing body and a `//` comment end the search.
pub open spec fn marker_close(
    s: Seq<u8>,
    i: int,
    depth: int,
    first: int,
    marker: u8,
    len: int,
    bound: int,
) -> Option<int>
    decreases s.len() + 2 - i,
{
    if 0 <= i < bound && i < s.len() {
        if s[i] == BACKSLASH {
            marker_close(s, i + 2, depth, first, marker, len, bound)
        } else if s[i] == LBRACE {
            marker_close(s, i + 1, depth + 1, first, marker, len, bound)
        } else if s[i] == RBRACE {
            if depth == 0 {
                None
            } else {
                marker_close(s, i + 1, depth - 1, first, marker, len, bound)
            }
        } else if s[i] == BACKTICK || s[i] == DOLLAR || (s[i] == PIPE && at(s, i + 1) == Some(LBRACE)) {
            proof {
                raw_span_bounds(s, i);
            }
            marker_close(s, raw_span_end(s, i), depth, first, marker, len, bound)
        } else if s[i] == AT_SIGN {
            proof {
                at_form_bounds(s, i);
            }
            marker_close(s, at_form_end(s, i), depth, first, marker, len, bound)
        } else if s[i] == SLASH && at(s, i + 1) == Some(SLASH) {
            None
        } else if s[i] == SLASH && at(s, i + 1) == Some(STAR) {
            proof {
                block_comment_bounds(s, i + 2, 1, 0, s.len() as int);
            }
            marker_close(s, markup_comment_end(s, i), depth, first, marker, len, bound)
        } else if s[i] == LBRACK || (s[i] == BANG && at(s, i + 1) == Some(LBRACK)) {
            proof {
                link_on_one_line(s, link_bracket(s, i), bound);
            }
            match link_closers(s, link_bracket(s, i), bound) {
                Some((_, url_end)) => marker_close(
                    s,
                    url_end + 1,
                    depth,
                    first,
                    marker,
                    len,
                    bound,
                ),
                None => marker_close(s, i + 1, depth, first, marker, len, bound),
            }
        } else if s[i] == marker && depth == 0 && (len == 1 || at(s, i + 1) == Some(marker)) && i
            > first && closes(s, i, len) {
            Some(i)
        } else {
            marker_close(s, i + 1, depth, first, marker, len, bound)
        }
    } else {
        None
    }
}

/// The `[` of the link or image that starts at `i`.
pub open spec fn link_bracket(s: Seq<u8>, i: int) -> int {
    if s[i] == LBRACK {
        i
    } else {
        i + 1
    }
}

/// The close of the span that the marker of `len` bytes at `open` opens, on the same line.
pub open spec fn span_close(s: Seq<u8>, open: int, marker: u8, len: int) -> Option<int> {
    marker_close(s, open + len, 0, open + len, marker, len, line_end(s, open))
}

/// A close stands past the span's first content byte, before the bound, and can close.
pub proof fn marker_close_bounds(
    s: Seq<u8>,
    i: int,
    depth: int,
    first: int,
    marker: u8,
    len: int,
    bound: int,
)
    requires
        0 <= i,
    ensures
        marker_close(s, i, depth, first, marker, len, bound) matches Some(e) ==> i <= e < bound && e
            < s.len() && first < e && s[e] == marker && closes(s, e, len) && (len == 1 || at(
            s,
            e + 1,
        ) == Some(marker)),
    decreases s.len() + 2 - i,
{
    if i < bound && i < s.len() {
        if s[i] == BACKSLASH {
            marker_close_bounds(s, i + 2, depth, first, marker, len, bound);
        } else if s[i] == LBRACE {
            marker_close_bounds(s, i + 1, depth + 1, first, marker, len, bound);
        } else if s[i] == RBRACE {
            if depth != 0 {
                marker_close_bounds(s, i + 1, depth - 1, first, marker, len, bound);
            }
        } else if s[i] == BACKTICK || s[i] == DOLLAR || (s[i] == PIPE && at(s, i + 1) == Some(LBRACE)) {
            raw_span_bounds(s, i);
            marker_close_bounds(s, raw_span_end(s, i), depth, first, marker, len, bound);
        } else if s[i] == AT_SIGN {
            at_form_bounds(s, i);
            marker_close_bounds(s, at_form_end(s, i), depth, first, marker, len, bound);
        } else if s[i] == SLASH && at(s, i + 1) == Some(SLASH) {
        } else if s[i] == SLASH && at(s, i + 1) == Some(STAR) {
            block_comment_bounds(s, i + 2, 1, 0, s.len() as int);
            marker_close_bounds(s, markup_comment_end(s, i), depth, first, marker, len, bound);
        } else if s[i] == LBRACK || (s[i] == BANG && at(s, i + 1) == Some(LBRACK)) {
            link_on_one_line(s, link_bracket(s, i), bound);
            match link_closers(s, link_bracket(s, i), bound) {
                Some((_, url_end)) => {
                    marker_close_bounds(s, url_end + 1, depth, first, marker, len, bound);
                },
                None => {
                    marker_close_bounds(s, i + 1, depth, first, marker, len, bound);
                },
            }
        } else if s[i] == marker && depth == 0 && (len == 1 || at(s, i + 1) == Some(marker)) && i
            > first && closes(s, i, len) {
        } else {
            marker_close_bounds(s, i + 1, depth, first, marker, len, bound);
        }
    }
}

/// An emphasis or strikethrough span never crosses a newline, and its close can close: the bytes
/// from the opener up to the close hold no `\n`.
pub proof fn span_close_on_line(s: Seq<u8>, open: int, marker: u8, len: int)
    requires
        0 <= open <= s.len(),
        0 < len,
    ensures
        span_close(s, open, marker, len) matches Some(e) ==> open + len < e < line_end(s, open)
            && s[e] == marker && closes(s, e, len) && forall|k: int|
            open <= k <= e ==> #[trigger] s[k] != NEWLINE,
{
    next_line_bounds(s, open);
    marker_close_bounds(s, open + len, 0, open + len, marker, len, line_end(s, open));
}

/// Is a marker of `len` bytes at `off` inside a word?
fn is_intra_word(source: &str, off: usize, len: usize) -> (yes: bool)
    requires
        off + len <= usize::MAX,
    ensures
        yes == intra_word(utf8(source), off as int, len as int),
{
    is_wordy(char_before(source, off)) && is_wordy(char_at(source, off + len))
}

/// Is the byte at `i` content: not white space, and not the marker?
fn is_content_at(s: &[u8], i: usize, marker: u8) -> (yes: bool)
    ensures
        yes == content_at(s@, i as int, marker),
{
    match get(s, i) {
        Some(b) => !ascii_space(b) && b != marker,
        None => false,
    }
}

/// Can the `*` or `_` at `off` open an emphasis span: unescaped, not inside a word, and directly
/// followed by content that is not the marker again?
pub fn emphasis_can_open(source: &str, off: u32, marker: u8) -> (yes: bool)
    requires
        addressable(utf8(source)),
        off <= utf8(source).len(),
    ensures
        yes == emphasis_opens(utf8(source), off as int, marker),
{
    !is_escaped(source, off) && !is_intra_word(source, off as usize, 1) && is_content_at(
        source.as_bytes(),
        off as usize + 1,
        marker,
    )
}

/// Can the `~~` at `off` open a strikethrough span? As for emphasis, with the two bytes taken
/// together.
pub fn strike_can_open(source: &str, off: u32) -> (yes: bool)
    requires
        addressable(utf8(source)),
        off <= utf8(source).len(),
    ensures
        yes == strike_opens(utf8(source), off as int),
{
    let s = source.as_bytes();
    get(s, off as usize + 1) == Some(TILDE) && !is_escaped(source, off) && !is_intra_word(
        source,
        off as usize,
        2,
    ) && is_content_at(s, off as usize + 2, TILDE)
}

/// Can the marker of `len` bytes at `off` close its span?
fn can_close(source: &str, off: u32, len: usize) -> (yes: bool)
    requires
        addressable(utf8(source)),
        0 < off <= utf8(source).len(),
        len <= 2,
    ensures
        yes == closes(utf8(source), off as int, len as int),
{
    !is_escaped(source, off) && !is_intra_word(source, off as usize, len) && match get(
        source.as_bytes(),
        off as usize - 1,
    ) {
        Some(b) => !ascii_space(b),
        None => false,
    }
}

/// Find the close of the emphasis opened at `open`, or `None`, in which case the opener is literal.
pub fn find_emphasis_close(source: &str, open: u32, marker: u8) -> (found: Option<u32>)
    requires
        addressable(utf8(source)),
        open <= utf8(source).len(),
    ensures
        match found {
            Some(e) => span_close(utf8(source), open as int, marker, 1) == Some(e as int),
            None => span_close(utf8(source), open as int, marker, 1) is None,
        },
{
    find_marker_close(source, open, marker, 1)
}

/// Find the close of the strikethrough opened at `open`, or `None`, in which case the opener is
/// literal.
pub fn find_strike_close(source: &str, open: u32) -> (found: Option<u32>)
    requires
        addressable(utf8(source)),
        open <= utf8(source).len(),
    ensures
        match found {
            Some(e) => span_close(utf8(source), open as int, TILDE, 2) == Some(e as int),
            None => span_close(utf8(source), open as int, TILDE, 2) is None,
        },
{
    find_marker_close(source, open, TILDE, 2)
}

/// Scan forward from a marker of `len` bytes opened at `open` for the next valid close, bounded by
/// the end of the opening line, the `}` closing the enclosing body, or the source end.
fn find_marker_close(source: &str, open: u32, marker: u8, len: u32) -> (found: Option<u32>)
    requires
        addressable(utf8(source)),
        open <= utf8(source).len(),
        1 <= len <= 2,
    ensures
        match found {
            Some(e) => span_close(utf8(source), open as int, marker, len as int) == Some(e as int),
            None => span_close(utf8(source), open as int, marker, len as int) is None,
        },
{
    let s = source.as_bytes();
    let bound: usize = line_content_end(source, open) as usize;
    let first: usize = open as usize + len as usize;
    let mut i: usize = first;
    let mut depth: usize = 0;
    while i < bound
        invariant
            s@ == utf8(source),
            addressable(s@),
            bound == line_end(s@, open as int),
            bound <= s@.len(),
            first == open + len,
            1 <= len <= 2,
            first <= i,
            depth <= i - first,
            marker_close(
                s@,
                i as int,
                depth as int,
                first as int,
                marker,
                len as int,
                bound as int,
            ) == span_close(s@, open as int, marker, len as int),
        decreases s@.len() + 2 - i,
    {
        let b: u8 = s[i];
        if b == BACKSLASH {
            i = i + 2;
        } else if b == LBRACE {
            depth = depth + 1;
            i = i + 1;
        } else if b == RBRACE {
            if depth == 0 {
                return None;
            }
            depth = depth - 1;
            i = i + 1;
        } else if b == BACKTICK || b == DOLLAR || (b == PIPE && get(s, i + 1) == Some(LBRACE)) {
            i = skip_raw_span(source, i);
        } else if b == AT_SIGN {
            i = skip_at_form(s, i);
        } else if b == SLASH && get(s, i + 1) == Some(SLASH) {
            return None;
        } else if b == SLASH && get(s, i + 1) == Some(STAR) {
            i = skip_markup_comment(source, i);
        } else if b == LBRACK || (b == BANG && get(s, i + 1) == Some(LBRACK)) {
            let bracket: usize = if b == LBRACK {
                i
            } else {
                i + 1
            };
            proof {
                link_on_one_line(s@, bracket as int, bound as int);
            }
            i = match lex_link_span(source, bracket as u32, bound as u32) {
                Some(link) => link.resume as usize,
                None => i + 1,
            };
        } else if b == marker && depth == 0 && (len == 1 || get(s, i + 1) == Some(marker)) && i
            > first && can_close(source, i as u32, len as usize) {
            return Some(i as u32);
        } else {
            i = i + 1;
        }
    }
    None
}

} // verus!
