//! Block extents: the brace that clips a line, and the body of colon sugar.

use vstd::prelude::*;
use crate::ascii::{AT_SIGN, BACKSLASH, LBRACE, RBRACE, SLASH, SPACE, STAR, TAB};
use crate::bytes::{addressable, at, get, skip, skip_class, utf8, ByteClass};
use crate::embedded::{at_form_bounds, at_form_end, skip_at_form};
use crate::escapes::{block_comment_bounds, markup_comment_end, skip_markup_comment};
use crate::lines::{
    block_end, block_end_bounds, indented_block_end, line_content_end, line_end, next_line,
    next_line_bounds, next_line_start,
};

verus! {

/// The first `}` from `i` on that closes no `{` of the line, where `depth` braces are open before
/// `i` and the line ends at `stop`. Escapes, `@`-forms and block comments are opaque, and one that
/// crosses the line end leaves none; so does a `//` comment.
pub open spec fn brace_clip(s: Seq<u8>, i: int, depth: int, stop: int) -> Option<int>
    decreases s.len() + 2 - i,
{
    if 0 <= i < stop && i < s.len() {
        if s[i] == BACKSLASH {
            brace_clip(s, i + 2, depth, stop)
        } else if s[i] == AT_SIGN {
            proof {
                at_form_bounds(s, i);
            }
            brace_clip(s, at_form_end(s, i), depth, stop)
        } else if s[i] == SLASH && at(s, i + 1) == Some(SLASH) {
            None
        } else if s[i] == SLASH && at(s, i + 1) == Some(STAR) {
            proof {
                block_comment_bounds(s, i + 2, 1, 0, s.len() as int);
            }
            brace_clip(s, markup_comment_end(s, i), depth, stop)
        } else if s[i] == LBRACE {
            brace_clip(s, i + 1, depth + 1, stop)
        } else if s[i] == RBRACE {
            if depth == 0 {
                Some(i)
            } else {
                brace_clip(s, i + 1, depth - 1, stop)
            }
        } else {
            brace_clip(s, i + 1, depth, stop)
        }
    } else {
        None
    }
}

/// The `}` that clips the line from `from` on.
pub open spec fn line_clip(s: Seq<u8>, from: int) -> Option<int> {
    brace_clip(s, from, 0, line_end(s, from))
}

/// The extent of the colon-sugar body whose `:` ends at `colon_end`: from the first byte past the
/// spaces and tabs, to the brace that clips the first line (where `clip`), or else over the lines
/// indented past `indent`.
pub open spec fn colon_extent(s: Seq<u8>, colon_end: int, indent: int, clip: bool) -> (int, int) {
    let start = skip(s, colon_end, ByteClass::InlineSpace);
    match line_clip(s, colon_end) {
        Some(end) => if clip {
            (start, end)
        } else {
            (start, block_end(s, next_line(s, colon_end), indent))
        },
        None => (start, block_end(s, next_line(s, colon_end), indent)),
    }
}

/// A clipping brace stands at or after the start of its search, on the line.
pub proof fn brace_clip_bounds(s: Seq<u8>, i: int, depth: int, stop: int)
    requires
        0 <= i,
    ensures
        brace_clip(s, i, depth, stop) matches Some(e) ==> i <= e < stop && e < s.len() && s[e]
            == RBRACE,
    decreases s.len() + 2 - i,
{
    if i < stop && i < s.len() {
        if s[i] == BACKSLASH {
            brace_clip_bounds(s, i + 2, depth, stop);
        } else if s[i] == AT_SIGN {
            at_form_bounds(s, i);
            brace_clip_bounds(s, at_form_end(s, i), depth, stop);
        } else if s[i] == SLASH && at(s, i + 1) == Some(SLASH) {
        } else if s[i] == SLASH && at(s, i + 1) == Some(STAR) {
            block_comment_bounds(s, i + 2, 1, 0, s.len() as int);
            brace_clip_bounds(s, markup_comment_end(s, i), depth, stop);
        } else if s[i] == LBRACE {
            brace_clip_bounds(s, i + 1, depth + 1, stop);
        } else if s[i] == RBRACE {
            if depth != 0 {
                brace_clip_bounds(s, i + 1, depth - 1, stop);
            }
        } else {
            brace_clip_bounds(s, i + 1, depth, stop);
        }
    }
}

/// A clipping brace is not among the spaces and tabs that lead its search.
pub proof fn brace_clip_past_space(s: Seq<u8>, i: int, depth: int, stop: int)
    requires
        0 <= i,
    ensures
        brace_clip(s, i, depth, stop) matches Some(e) ==> skip(s, i, ByteClass::InlineSpace) <= e,
    decreases s.len() + 2 - i,
{
    if i < stop && i < s.len() && (s[i] == SPACE || s[i] == TAB) {
        brace_clip_past_space(s, i + 1, depth, stop);
    } else {
        brace_clip_bounds(s, i, depth, stop);
    }
}

/// A colon body's extent runs forward, inside the source.
pub proof fn colon_extent_bounds(s: Seq<u8>, colon_end: int, indent: int, clip: bool)
    requires
        0 <= colon_end <= s.len(),
    ensures
        colon_end <= colon_extent(s, colon_end, indent, clip).0 <= colon_extent(
            s,
            colon_end,
            indent,
            clip,
        ).1 <= s.len(),
{
    crate::lines::content_start_bounds(s, colon_end);
    next_line_bounds(s, colon_end);
    block_end_bounds(s, next_line(s, colon_end), indent);
    brace_clip_bounds(s, colon_end, 0, line_end(s, colon_end));
    brace_clip_past_space(s, colon_end, 0, line_end(s, colon_end));
}

/// Scan the line from `from` for a `}` that closes nothing on it. Escapes, `@`-forms with their
/// groups and comments are opaque, balanced braces are paired, and nothing past the line's end
/// clips it. This is the clip shared by colon
/// sugar's first line and by line-start sugar inside a braced body.
pub fn brace_clip_on_line(source: &str, from: u32) -> (found: Option<u32>)
    requires
        addressable(utf8(source)),
        from <= utf8(source).len(),
    ensures
        match found {
            Some(e) => line_clip(utf8(source), from as int) == Some(e as int) && from <= e
                < line_end(utf8(source), from as int) <= utf8(source).len(),
            None => line_clip(utf8(source), from as int) is None,
        },
{
    let s = source.as_bytes();
    let stop: usize = line_content_end(source, from) as usize;
    let mut i: usize = from as usize;
    let mut depth: usize = 0;
    while i < stop
        invariant
            s@ == utf8(source),
            addressable(s@),
            from <= i,
            depth <= i - from,
            brace_clip(s@, i as int, depth as int, stop as int) == brace_clip(
                s@,
                from as int,
                0,
                stop as int,
            ),
            stop == line_end(s@, from as int),
            stop <= s@.len(),
        decreases s@.len() + 2 - i,
    {
        let b: u8 = s[i];
        if b == BACKSLASH {
            i = i + 2;
        } else if b == AT_SIGN {
            i = skip_at_form(s, i);
        } else if b == SLASH && get(s, i + 1) == Some(SLASH) {
            return None;
        } else if b == SLASH && get(s, i + 1) == Some(STAR) {
            i = skip_markup_comment(source, i);
        } else if b == LBRACE {
            depth = depth + 1;
            i = i + 1;
        } else if b == RBRACE {
            if depth == 0 {
                return Some(i as u32);
            }
            depth = depth - 1;
            i = i + 1;
        } else {
            i = i + 1;
        }
    }
    None
}

/// The extent of a colon-sugar body: the rest of the line after `colon_end` past its spaces and
/// tabs, plus the following lines indented strictly past `head_indent`. When `clip_at_brace`, a `}`
/// that closes an enclosing body ends it on the first line.
pub fn colon_block_extent(
    source: &str,
    colon_end: u32,
    head_indent: usize,
    clip_at_brace: bool,
) -> (extent: (u32, u32))
    requires
        addressable(utf8(source)),
        colon_end <= utf8(source).len(),
        head_indent <= u32::MAX,
    ensures
        (extent.0 as int, extent.1 as int) == colon_extent(
            utf8(source),
            colon_end as int,
            head_indent as int,
            clip_at_brace,
        ),
        colon_end <= extent.0 <= extent.1 <= utf8(source).len(),
{
    proof {
        colon_extent_bounds(utf8(source), colon_end as int, head_indent as int, clip_at_brace);
    }
    let start: usize = skip_class(source.as_bytes(), colon_end as usize, ByteClass::InlineSpace);
    if clip_at_brace {
        if let Some(clip) = brace_clip_on_line(source, colon_end) {
            return (start as u32, clip);
        }
    }
    let next: u32 = next_line_start(source, colon_end);
    (start as u32, indented_block_end(source, next, head_indent as u32))
}

} // verus!
