//! Stepping over embedded JavaScript: strings, balanced groups and `@`-forms.
//!
//! These scans bound extents; they make no attempt at JavaScript's grammar beyond strings,
//! templates, comments and brackets. A regular expression literal is not recognised.

use vstd::prelude::*;
use crate::ascii::{
    BACKSLASH, BACKTICK, DQUOTE, LBRACE, LBRACK, LPAREN, NEWLINE, RBRACE, RBRACK, RPAREN, SLASH,
    SQUOTE, STAR,
};
use crate::bytes::{
    at, find_byte, find_pair, get, next_byte_first, next_pair, next_pair_first, skip, skip_bounds,
    skip_class, ByteClass,
};
use crate::lines::line_end;

verus! {

/// The offset past the string body that starts at `i` and is closed by `quote`. A backslash hides
/// the byte after it. A `'` or `"` string that meets a `\n` stops there; any string stops at the
/// source end.
pub open spec fn string_body_end(s: Seq<u8>, i: int, quote: u8) -> int
    decreases s.len() + 2 - i,
{
    if 0 <= i < s.len() {
        if s[i] == BACKSLASH {
            string_body_end(s, i + 2, quote)
        } else if s[i] == NEWLINE && quote != BACKTICK {
            i
        } else if s[i] == quote {
            i + 1
        } else {
            string_body_end(s, i + 1, quote)
        }
    } else {
        i
    }
}

/// The offset past the string or template literal whose opening quote stands at `i`.
pub open spec fn string_end(s: Seq<u8>, i: int) -> int {
    string_body_end(s, i + 1, s[i])
}

/// Is `b` an opening bracket?
pub open spec fn is_opener(b: u8) -> bool {
    b == LPAREN || b == LBRACK || b == LBRACE
}

/// Is `b` a closing bracket?
pub open spec fn is_closer(b: u8) -> bool {
    b == RPAREN || b == RBRACK || b == RBRACE
}

/// Does `b` open a string or template literal?
pub open spec fn is_quote(b: u8) -> bool {
    b == DQUOTE || b == SQUOTE || b == BACKTICK
}

/// The offset past the block comment whose `/*` stands at `i` (nesting not counted, as in
/// JavaScript), or the source end.
pub open spec fn js_comment_end(s: Seq<u8>, i: int) -> int {
    match next_pair(s, i + 2, STAR, SLASH) {
        Some(k) => k + 2,
        None => s.len() as int,
    }
}

/// The offset past the bracket that brings the bracket depth `depth` at `i` back to zero, if there
/// is one. The three bracket kinds nest alike; strings, templates and comments are opaque.
pub open spec fn group_close(s: Seq<u8>, i: int, depth: int) -> Option<int>
    decreases s.len() + 2 - i,
{
    if 0 <= i < s.len() {
        if is_opener(s[i]) {
            group_close(s, i + 1, depth + 1)
        } else if is_closer(s[i]) {
            if depth <= 1 {
                Some(i + 1)
            } else {
                group_close(s, i + 1, depth - 1)
            }
        } else if is_quote(s[i]) {
            proof {
                string_body_bounds(s, i + 1, s[i]);
            }
            group_close(s, string_end(s, i), depth)
        } else if s[i] == SLASH && at(s, i + 1) == Some(SLASH) {
            proof {
                next_byte_first(s, i, NEWLINE);
            }
            group_close(s, line_end(s, i), depth)
        } else if s[i] == SLASH && at(s, i + 1) == Some(STAR) {
            proof {
                next_pair_first(s, i + 2, STAR, SLASH);
            }
            group_close(s, js_comment_end(s, i), depth)
        } else {
            group_close(s, i + 1, depth)
        }
    } else {
        None
    }
}

/// The offset past the balanced group whose opener stands at `i`; just past the opener when the
/// group never closes.
pub open spec fn group_end(s: Seq<u8>, i: int) -> int {
    match group_close(s, i, 0) {
        Some(end) => end,
        None => i + 1,
    }
}

/// Does a `(` or `[` group open at `i`?
pub open spec fn opens_group(s: Seq<u8>, i: int) -> bool {
    at(s, i) == Some(LPAREN) || at(s, i) == Some(LBRACK)
}

/// The offset past the `(` and `[` groups that stand side by side from `i` on.
pub open spec fn groups_end(s: Seq<u8>, i: int) -> int
    decreases s.len() + 2 - i,
{
    if opens_group(s, i) {
        proof {
            group_end_bounds(s, i);
        }
        groups_end(s, group_end(s, i))
    } else {
        i
    }
}

/// The offset past the head and the adjacent `(` and `[` groups of the `@`-form whose `@` stands at
/// `i`. A `{` body is left to the caller.
pub open spec fn at_form_end(s: Seq<u8>, i: int) -> int {
    groups_end(s, skip(s, i + 1, ByteClass::Head))
}

/// A string scan never moves back, and oversteps the end by one byte at most.
pub proof fn string_body_bounds(s: Seq<u8>, i: int, quote: u8)
    requires
        0 <= i <= s.len() + 1,
    ensures
        i <= string_body_end(s, i, quote) <= s.len() + 1,
    decreases s.len() + 2 - i,
{
    if i < s.len() {
        if s[i] == BACKSLASH {
            string_body_bounds(s, i + 2, quote);
        } else if !(s[i] == NEWLINE && quote != BACKTICK) && s[i] != quote {
            string_body_bounds(s, i + 1, quote);
        }
    }
}

/// A group that closes does so past its scan's start, inside the source.
pub proof fn group_close_bounds(s: Seq<u8>, i: int, depth: int)
    requires
        0 <= i,
    ensures
        group_close(s, i, depth) matches Some(end) ==> i < end <= s.len(),
    decreases s.len() + 2 - i,
{
    if i < s.len() {
        if is_opener(s[i]) {
            group_close_bounds(s, i + 1, depth + 1);
        } else if is_closer(s[i]) {
            if depth > 1 {
                group_close_bounds(s, i + 1, depth - 1);
            }
        } else if is_quote(s[i]) {
            string_body_bounds(s, i + 1, s[i]);
            group_close_bounds(s, string_end(s, i), depth);
        } else if s[i] == SLASH && at(s, i + 1) == Some(SLASH) {
            next_byte_first(s, i, NEWLINE);
            group_close_bounds(s, line_end(s, i), depth);
        } else if s[i] == SLASH && at(s, i + 1) == Some(STAR) {
            next_pair_first(s, i + 2, STAR, SLASH);
            group_close_bounds(s, js_comment_end(s, i), depth);
        } else {
            group_close_bounds(s, i + 1, depth);
        }
    }
}

/// A group ends past its opener, inside the source.
pub proof fn group_end_bounds(s: Seq<u8>, i: int)
    requires
        0 <= i < s.len(),
    ensures
        i < group_end(s, i) <= s.len(),
{
    group_close_bounds(s, i, 0);
}

/// Groups end no earlier than they start, inside the source.
pub proof fn groups_end_bounds(s: Seq<u8>, i: int)
    requires
        0 <= i <= s.len(),
    ensures
        i <= groups_end(s, i) <= s.len(),
    decreases s.len() + 2 - i,
{
    if opens_group(s, i) {
        group_end_bounds(s, i);
        groups_end_bounds(s, group_end(s, i));
    }
}

/// An `@`-form ends past its `@`, inside the source.
pub proof fn at_form_bounds(s: Seq<u8>, i: int)
    requires
        0 <= i < s.len(),
    ensures
        i < at_form_end(s, i) <= s.len(),
{
    skip_bounds(s, i + 1, ByteClass::Head);
    groups_end_bounds(s, skip(s, i + 1, ByteClass::Head));
}

/// Step over the string or template literal whose opening quote stands at `i`.
pub fn skip_js_string(s: &[u8], i: usize) -> (end: usize)
    requires
        i < s@.len(),
        s@.len() + 2 <= usize::MAX,
    ensures
        end == string_end(s@, i as int),
        i < end <= s@.len() + 1,
{
    let quote: u8 = s[i];
    let mut j: usize = i + 1;
    while j < s.len()
        invariant
            i < s@.len(),
            quote == s@[i as int],
            i < j <= s@.len() + 1,
            s@.len() + 2 <= usize::MAX,
            string_body_end(s@, j as int, quote) == string_body_end(s@, i + 1, quote),
        decreases s@.len() + 2 - j,
    {
        let b: u8 = s[j];
        if b == BACKSLASH {
            j = j + 2;
        } else if b == NEWLINE && quote != BACKTICK {
            return j;
        } else if b == quote {
            return j + 1;
        } else {
            j = j + 1;
        }
    }
    j
}

/// Step over the balanced group whose opener stands at `i`; one byte when it never closes.
pub fn skip_balanced(s: &[u8], i: usize) -> (end: usize)
    requires
        i < s@.len(),
        is_opener(s@[i as int]),
        s@.len() + 2 <= usize::MAX,
    ensures
        end == group_end(s@, i as int),
        i < end <= s@.len(),
{
    let mut j: usize = i;
    let mut depth: usize = 0;
    proof {
        group_end_bounds(s@, i as int);
    }
    while j < s.len()
        invariant
            i <= j <= s@.len() + 1,
            s@.len() + 2 <= usize::MAX,
            depth <= j,
            j > i ==> depth >= 1,
            j == i ==> is_opener(s@[i as int]) && depth == 0,
            group_close(s@, j as int, depth as int) == group_close(s@, i as int, 0),
            i < group_end(s@, i as int) <= s@.len(),
        decreases s@.len() + 2 - j,
    {
        let b: u8 = s[j];
        if b == LPAREN || b == LBRACK || b == LBRACE {
            depth = depth + 1;
            j = j + 1;
        } else if b == RPAREN || b == RBRACK || b == RBRACE {
            if depth == 1 {
                return j + 1;
            }
            depth = depth - 1;
            j = j + 1;
        } else if b == DQUOTE || b == SQUOTE || b == BACKTICK {
            j = skip_js_string(s, j);
        } else if b == SLASH && get(s, j + 1) == Some(SLASH) {
            proof {
                next_byte_first(s@, j as int, NEWLINE);
            }
            j = find_byte(s, j, NEWLINE);
        } else if b == SLASH && get(s, j + 1) == Some(STAR) {
            j = match find_pair(s, j + 2, STAR, SLASH) {
                Some(k) => k + 2,
                None => s.len(),
            };
        } else {
            j = j + 1;
        }
    }
    i + 1
}

/// Step over the `@`-form whose `@` stands at `i`: its head and any adjacent `(` and `[` groups, so
/// that no byte inside its JavaScript is taken for markup. A `{` body is left to the caller.
pub fn skip_at_form(s: &[u8], i: usize) -> (end: usize)
    requires
        i < s@.len(),
        s@.len() + 2 <= usize::MAX,
    ensures
        end == at_form_end(s@, i as int),
        i < end <= s@.len(),
{
    let head: usize = skip_class(s, i + 1, ByteClass::Head);
    let mut j: usize = head;
    while j < s.len() && (s[j] == LPAREN || s[j] == LBRACK)
        invariant
            i < j <= s@.len(),
            s@.len() + 2 <= usize::MAX,
            groups_end(s@, j as int) == groups_end(s@, head as int),
        decreases s@.len() - j,
    {
        proof {
            group_end_bounds(s@, j as int);
        }
        j = skip_balanced(s, j);
    }
    j
}

} // verus!
