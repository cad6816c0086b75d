//! Backslash escapes and markup comments.

use vstd::prelude::*;
use crate::ascii::{BACKSLASH, SLASH, STAR};
use crate::bytes::{addressable, at, byte_at, clamp, utf8};
use crate::lines::{line_content_end, line_end};

verus! {

/// The number of backslashes directly before `off`.
pub open spec fn backslashes_before(s: Seq<u8>, off: int) -> nat
    decreases off,
{
    if 0 < off <= s.len() && s[off - 1] == BACKSLASH {
        1 + backslashes_before(s, off - 1)
    } else {
        0
    }
}

/// Is the byte at `off` escaped: does an odd run of backslashes stand before it?
pub open spec fn escaped(s: Seq<u8>, off: int) -> bool {
    backslashes_before(s, off) % 2 == 1
}

/// The result of scanning a markup comment ([`lex_comment`]).
#[derive(Clone, Copy, Debug, PartialEq, Eq, Structural)]
pub struct CommentScan {
    /// One past the comment's last byte: for `//` the end of its line's content, for a block
    /// comment one past the closing `*/`.
    pub end: u32,
    /// `true` for a block comment.
    pub block: bool,
    /// `false` when a block comment ran into the limit with unbalanced depth.
    pub terminated: bool,
}

/// Does a comment open at `off`: an unescaped byte with `/` or `*` right after it?
pub open spec fn opens_comment(s: Seq<u8>, off: int) -> bool {
    !escaped(s, off) && (at(s, off + 1) == Some(SLASH) || at(s, off + 1) == Some(STAR))
}

/// The end of the nested block comment whose `depth` openers stand before `i`. `prev` is the byte
/// before `i`, or zero where that byte already belongs to an opener or a closer, so that `/*/`
/// counts once.
pub open spec fn block_comment_end(s: Seq<u8>, i: int, depth: int, prev: u8, limit: int) -> Option<int>
    decreases limit - i,
{
    if 0 <= i < limit {
        if prev == STAR && s[i] == SLASH {
            if depth <= 1 {
                Some(i + 1)
            } else {
                block_comment_end(s, i + 1, depth - 1, 0, limit)
            }
        } else if prev == SLASH && s[i] == STAR {
            block_comment_end(s, i + 1, depth + 1, 0, limit)
        } else {
            block_comment_end(s, i + 1, depth, s[i], limit)
        }
    } else {
        None
    }
}

/// The comment whose opener stands at `off`, scanned up to `limit`.
pub open spec fn comment(s: Seq<u8>, off: int, limit: int) -> CommentScan {
    let lim = clamp(s, limit);
    if at(s, off + 1) == Some(SLASH) {
        let end = line_end(s, off);
        CommentScan {
            end: (if end <= lim { end } else { lim }) as u32,
            block: false,
            terminated: true,
        }
    } else {
        match block_comment_end(s, off + 2, 1, 0, lim) {
            Some(end) => CommentScan { end: end as u32, block: true, terminated: true },
            None => CommentScan { end: lim as u32, block: true, terminated: false },
        }
    }
}

/// The offset past the block comment whose `/*` stands at `i`, nesting counted, or the source end.
pub open spec fn markup_comment_end(s: Seq<u8>, i: int) -> int {
    match block_comment_end(s, i + 2, 1, 0, s.len() as int) {
        Some(end) => end,
        None => s.len() as int,
    }
}

/// A block comment ends past where its scan starts, inside the limit.
pub proof fn block_comment_bounds(s: Seq<u8>, i: int, depth: int, prev: u8, limit: int)
    ensures
        block_comment_end(s, i, depth, prev, limit) matches Some(end) ==> i < end <= limit,
    decreases limit - i,
{
    if 0 <= i < limit {
        if prev == STAR && s[i] == SLASH {
            if depth > 1 {
                block_comment_bounds(s, i + 1, depth - 1, 0, limit);
            }
        } else if prev == SLASH && s[i] == STAR {
            block_comment_bounds(s, i + 1, depth + 1, 0, limit);
        } else {
            block_comment_bounds(s, i + 1, depth, s[i], limit);
        }
    }
}

/// Is the byte at `off` preceded by an odd run of backslashes?
pub fn is_escaped(source: &str, off: u32) -> (yes: bool)
    requires
        off <= utf8(source).len(),
    ensures
        yes == escaped(utf8(source), off as int),
{
    let s = source.as_bytes();
    let mut odd: bool = false;
    let mut i: usize = off as usize;
    while i > 0 && s[i - 1] == BACKSLASH
        invariant
            i <= off <= s@.len(),
            escaped(s@, off as int) == (escaped(s@, i as int) != odd),
        decreases i,
    {
        i = i - 1;
        odd = !odd;
    }
    odd
}

/// Does a markup comment open at `off`: an unescaped `/` directly followed by `/` or `*`?
pub fn comment_can_open(source: &str, off: u32) -> (yes: bool)
    requires
        addressable(utf8(source)),
        off <= utf8(source).len(),
    ensures
        yes == opens_comment(utf8(source), off as int),
{
    if is_escaped(source, off) {
        return false;
    }
    let next = byte_at(source, off + 1);
    next == Some(SLASH) || next == Some(STAR)
}

/// Scan the comment opened at `off` within `limit`. A `//` comment runs to its line's content end;
/// a block comment runs to the matching `*/`, nesting counted. An unterminated block comment
/// reports `terminated: false` and ends at the limit.
pub fn lex_comment(source: &str, off: u32, limit: u32) -> (scan: CommentScan)
    requires
        addressable(utf8(source)),
        off <= utf8(source).len(),
    ensures
        scan == comment(utf8(source), off as int, limit as int),
        scan.end <= limit && scan.end <= utf8(source).len(),
{
    let s = source.as_bytes();
    let lim: u32 = if (limit as usize) <= s.len() { limit } else { s.len() as u32 };
    if byte_at(source, off + 1) == Some(SLASH) {
        let end: u32 = line_content_end(source, off);
        return CommentScan {
            end: if end <= lim { end } else { lim },
            block: false,
            terminated: true,
        };
    }
    let mut i: u32 = off + 2;
    let mut depth: u32 = 1;
    let mut prev: u8 = 0;
    while i < lim
        invariant
            lim <= s@.len() <= u32::MAX,
            1 <= depth <= i,
            block_comment_end(s@, i as int, depth as int, prev, lim as int) == block_comment_end(
                s@,
                off + 2,
                1,
                0,
                lim as int,
            ),
            lim == clamp(s@, limit as int),
            s@ == utf8(source),
            at(s@, off + 1) != Some(SLASH),
            lim <= limit,
        decreases lim - i,
    {
        let b: u8 = s[i as usize];
        i = i + 1;
        if prev == STAR && b == SLASH {
            if depth == 1 {
                return CommentScan { end: i, block: true, terminated: true };
            }
            depth = depth - 1;
            prev = 0;
        } else if prev == SLASH && b == STAR {
            depth = depth + 1;
            prev = 0;
        } else {
            prev = b;
        }
    }
    CommentScan { end: lim, block: true, terminated: false }
}

/// Step over the block comment whose `/*` stands at `i`, nesting counted.
pub fn skip_markup_comment(source: &str, i: usize) -> (end: usize)
    requires
        addressable(utf8(source)),
        i + 1 < utf8(source).len(),
        utf8(source)[i + 1] == STAR,
    ensures
        end == markup_comment_end(utf8(source), i as int),
        i < end <= utf8(source).len(),
{
    proof {
        block_comment_bounds(utf8(source), i + 2, 1, 0, utf8(source).len() as int);
    }
    lex_comment(source, i as u32, source.len() as u32).end as usize
}

/// A backslash escapes what stands behind it, unless it is escaped itself.
pub proof fn backslashes_escape(s: Seq<u8>, i: int)
    requires
        0 <= i < s.len(),
    ensures
        escaped(s, i + 1) == (s[i] == BACKSLASH && !escaped(s, i)),
{
}

} // verus!
