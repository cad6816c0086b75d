//! How the constructs of the notation are spelled: byte for byte, what the scans find where a
//! construct is written in its plain form.

use vstd::prelude::*;
use crate::ascii::{
    AT_SIGN, BACKSLASH, BACKTICK, BANG, CARET, DOLLAR, DOT, GREATER, HASH, HYPHEN, LBRACE,
    LBRACK, LPAREN, NEWLINE, PERCENT, PIPE, PLUS, RBRACE, RBRACK, RPAREN, SLASH, SPACE, STAR,
    TAB, TILDE, UNDERSCORE,
};
use crate::anatomy::only;
use crate::bytes::{
    addressable, at, in_class, is_space, next_byte, next_byte_first, next_byte_unique, run_end, skip,
    ByteClass, Span,
};
use crate::docstate::{closed_label, footnote, label_starts, reference};
use crate::emphasis::{closes, marker_close, span_close};
use crate::escapes::{block_comment_end, comment, CommentScan};
use crate::heads::{else_after, else_at, else_gap, if_at, ElsePeek};
use crate::lines::{
    block_end, block_end_bounds, content_start, is_blank, line_end, next_line, next_line_bounds,
    starts_line,
};
use crate::links::{link_bound, link_span, link_text_end, link_url_end, LinkSpans};
use crate::lowering::{cooked_after, trim_back, trim_front, url_text};
use crate::raw::{code_span, dollar_close, math_span, CodeScan, MathScan};
use crate::statements::{
    heading, is_fence, list_marker, opens_statement, thematic_break, ListMarker,
};

verus! {

/// Do all bytes from `a` to `b` belong to a class?
pub open spec fn all_in(s: Seq<u8>, a: int, b: int, c: ByteClass) -> bool {
    forall|i: int| a <= i < b ==> at(s, i) is Some && in_class(c, #[trigger] s[i])
}

/// Does nothing of a class stand at `i`?
pub open spec fn none_at(s: Seq<u8>, i: int, c: ByteClass) -> bool {
    at(s, i) matches Some(b) ==> !in_class(c, b)
}

/// Is the line at `line` indented up to `c`, where its content starts?
pub open spec fn indents_to(s: Seq<u8>, line: int, c: int) -> bool {
    0 <= line <= c <= s.len() && all_in(s, line, c, ByteClass::InlineSpace) && none_at(
        s,
        c,
        ByteClass::InlineSpace,
    )
}

/// Can a byte stand in plain text: does it neither open nor close nor escape anything?
pub open spec fn is_plain(b: u8) -> bool {
    b != BACKSLASH && b != LBRACE && b != RBRACE && b != LBRACK && b != RBRACK && b != LPAREN && b != RPAREN && b
        != BACKTICK && b != DOLLAR && b != PIPE && b != AT_SIGN && b != SLASH && b != BANG && b != STAR && b
        != UNDERSCORE && b != TILDE && b != NEWLINE
}

/// Is the source from `a` to `b` plain text?
pub open spec fn all_plain(s: Seq<u8>, a: int, b: int) -> bool {
    0 <= a <= b <= s.len() && forall|i: int| a <= i < b ==> is_plain(#[trigger] s[i])
}

/// A run of a class ends where its last byte does.
proof fn skips_to(s: Seq<u8>, a: int, b: int, c: ByteClass)
    requires
        0 <= a <= b <= s.len(),
        all_in(s, a, b, c),
        none_at(s, b, c),
    ensures
        skip(s, a, c) == b,
    decreases b - a,
{
    if a < b {
        assert(in_class(c, s[a]));
        skips_to(s, a + 1, b, c);
    }
}

/// A run of a class goes as far as its bytes do, or farther.
proof fn skips_past(s: Seq<u8>, a: int, b: int, c: ByteClass)
    requires
        0 <= a <= b <= s.len(),
        all_in(s, a, b, c),
    ensures
        skip(s, a, c) >= b,
    decreases s.len() - a,
{
    if a < s.len() && in_class(c, s[a]) {
        if a < b {
            skips_past(s, a + 1, b, c);
        } else {
            skips_past(s, a + 1, a + 1, c);
        }
    } else if a < b {
        assert(in_class(c, s[a]));
    }
}

/// A run of a byte ends where its last one does.
proof fn runs_to(s: Seq<u8>, a: int, b: int, c: u8)
    requires
        0 <= a <= b <= s.len(),
        only(s, a, b, c),
        at(s, b) != Some(c),
    ensures
        run_end(s, a, c) == b,
    decreases b - a,
{
    if a < b {
        assert(at(s, a) == Some(c));
        runs_to(s, a + 1, b, c);
    }
}

/// One to six `#` and a space or a tab open a heading of as many levels, whose text starts behind
/// the space. More `#`s, or another byte behind them, open none.
pub proof fn headings_are_spelled(s: Seq<u8>, line: int, c: int, n: int)
    requires
        addressable(s),
        indents_to(s, line, c),
        0 <= n,
        c + n <= s.len(),
        only(s, c, c + n, HASH),
        at(s, c + n) != Some(HASH),
    ensures
        heading(s, line) is Some <==> 1 <= n <= 6 && (at(s, c + n) == Some(SPACE) || at(s, c + n)
            == Some(TAB)),
        heading(s, line) matches Some(h) ==> h.0 == n && h.1 == c + n + 1,
{
    skips_to(s, line, c, ByteClass::InlineSpace);
    runs_to(s, c, c + n, HASH);
}

/// Three or more `-` with nothing but white space behind them are a thematic break over the `-`s;
/// fewer are none.
pub proof fn thematic_breaks_are_spelled(s: Seq<u8>, line: int, c: int, n: int, end: int)
    requires
        addressable(s),
        indents_to(s, line, c),
        0 <= n,
        c + n <= end <= s.len(),
        only(s, c, c + n, HYPHEN),
        at(s, c + n) != Some(HYPHEN),
        all_in(s, c + n, end, ByteClass::LineTail),
    ensures
        n >= 3 ==> thematic_break(s, line, end) == Some(
            Span { start: c as u32, end: (c + n) as u32 },
        ),
        n < 3 ==> thematic_break(s, line, end) is None,
{
    skips_to(s, line, c, ByteClass::InlineSpace);
    runs_to(s, c, c + n, HYPHEN);
    skips_past(s, c + n, end, ByteClass::LineTail);
}

/// A `-` and a space open an item of a plain list; a `+`, or digits and a `.`, and a space one of a
/// numbered list. The text of the item starts behind the space.
pub proof fn items_are_spelled(s: Seq<u8>, line: int, c: int, n: int)
    requires
        addressable(s),
        indents_to(s, line, c),
        0 <= n,
        c + n < s.len(),
        all_in(s, c, c + n, ByteClass::Digit),
        none_at(s, c + n, ByteClass::Digit),
    ensures
        n == 0 && at(s, c) == Some(HYPHEN) && at(s, c + 1) == Some(SPACE) ==> list_marker(s, line)
            == Some(
            ListMarker {
                ordered: false,
                indent: (c - line) as u32,
                offset: c as u32,
                body_col: (c + 2) as u32,
            },
        ),
        n == 0 && at(s, c) == Some(PLUS) && at(s, c + 1) == Some(SPACE) ==> list_marker(s, line)
            == Some(
            ListMarker {
                ordered: true,
                indent: (c - line) as u32,
                offset: c as u32,
                body_col: (c + 2) as u32,
            },
        ),
        n > 0 && at(s, c + n) == Some(DOT) && at(s, c + n + 1) == Some(SPACE) ==> list_marker(
            s,
            line,
        ) == Some(
            ListMarker {
                ordered: true,
                indent: (c - line) as u32,
                offset: c as u32,
                body_col: (c + n + 2) as u32,
            },
        ),
        n == 0 && at(s, c) != Some(HYPHEN) && at(s, c) != Some(PLUS) ==> list_marker(s, line) is None,
        n > 0 && at(s, c + n) != Some(DOT) ==> list_marker(s, line) is None,
{
    skips_to(s, line, c, ByteClass::InlineSpace);
    skips_to(s, c, c + n, ByteClass::Digit);
    if n > 0 {
        assert(in_class(ByteClass::Digit, s[c]));
    }
}

/// A `%` that leads its line opens a statement, and three or more alone on their line a fence.
pub proof fn statements_are_spelled(s: Seq<u8>, line: int, c: int, n: int, e: int)
    requires
        indents_to(s, line, c),
        0 <= n,
        c + n <= e <= s.len(),
        only(s, c, c + n, PERCENT),
        at(s, c + n) != Some(PERCENT),
        all_in(s, c + n, e, ByteClass::LineTail),
        none_at(s, e, ByteClass::LineTail),
    ensures
        opens_statement(s, line) <==> n > 0,
        is_fence(s, line) <==> n >= 3 && (e == s.len() || s[e] == NEWLINE),
{
    skips_to(s, line, c, ByteClass::InlineSpace);
    runs_to(s, c, c + n, PERCENT);
    skips_to(s, c + n, e, ByteClass::LineTail);
    if n > 0 {
        assert(at(s, c) == Some(PERCENT));
    }
}

/// Blanks with no line break, or one, lead to what stands behind them.
proof fn gap_is_crossed(s: Seq<u8>, i: int, newlines: int, j: int)
    requires
        0 <= i <= j <= s.len(),
        newlines == 0 || newlines == 1,
        all_in(s, i, j, ByteClass::Blank),
        none_at(s, j, ByteClass::Blank),
        forall|a: int, b: int|
            i <= a < j && i <= b < j && #[trigger] s[a] == NEWLINE && #[trigger] s[b] == NEWLINE ==> a
                == b,
        newlines == 1 ==> forall|a: int| i <= a < j ==> #[trigger] s[a] != NEWLINE,
    ensures
        else_gap(s, i, newlines) == Some(j),
    decreases j - i,
{
    if i < j {
        assert(in_class(ByteClass::Blank, s[i]));
        if s[i] == NEWLINE {
            assert forall|a: int| i + 1 <= a < j implies #[trigger] s[a] != NEWLINE by {
                if s[a] == NEWLINE {
                    assert(s[i] == NEWLINE && s[a] == NEWLINE);
                }
            }
            gap_is_crossed(s, i + 1, newlines + 1, j);
        } else {
            gap_is_crossed(s, i + 1, newlines, j);
        }
    } else if i < s.len() {
        assert(!in_class(ByteClass::Blank, s[i]));
    }
}

/// Behind a branch, over blanks with no more than one line break, the word `else` continues the
/// conditional: an `if` behind it with another condition, a `{` with the last branch. Anything else
/// ends it.
pub proof fn continuations_are_spelled(s: Seq<u8>, e: int, i: int, j: int)
    requires
        addressable(s),
        0 <= e <= i <= s.len(),
        all_in(s, e, i, ByteClass::Blank),
        none_at(s, i, ByteClass::Blank),
        forall|a: int, b: int|
            e <= a < i && e <= b < i && #[trigger] s[a] == NEWLINE && #[trigger] s[b] == NEWLINE ==> a
                == b,
        else_at(s, i) ==> i + 4 <= j <= s.len() && all_in(s, i + 4, j, ByteClass::Blank) && none_at(
            s,
            j,
            ByteClass::Blank,
        ),
    ensures
        else_after(s, e) == (if else_at(s, i) && if_at(s, j) {
            ElsePeek::ElseIf { if_offset: j as u32 }
        } else if else_at(s, i) && at(s, j) == Some(LBRACE) {
            ElsePeek::Else { brace_offset: j as u32 }
        } else {
            ElsePeek::Ends
        }),
{
    gap_is_crossed(s, e, 0, i);
    if else_at(s, i) {
        skips_to(s, i + 4, j, ByteClass::Blank);
    }
}

/// A blank line behind a branch ends its conditional, whatever follows.
pub proof fn blank_lines_end_conditionals(s: Seq<u8>, e: int, a: int, b: int)
    requires
        0 <= e <= a < b < s.len(),
        all_in(s, e, b, ByteClass::Blank),
        s[a] == NEWLINE,
        s[b] == NEWLINE,
    ensures
        else_after(s, e) == ElsePeek::Ends,
{
    gap_is_broken(s, e, 0, a, b);
}

/// Two line breaks break the gap.
proof fn gap_is_broken(s: Seq<u8>, i: int, newlines: int, a: int, b: int)
    requires
        0 <= i <= b < s.len(),
        all_in(s, i, b, ByteClass::Blank),
        s[b] == NEWLINE,
        0 <= newlines,
        newlines >= 1 || (i <= a < b && s[a] == NEWLINE),
    ensures
        else_gap(s, i, newlines) is None,
    decreases b - i,
{
    if i < b {
        assert(in_class(ByteClass::Blank, s[i]));
        if s[i] == NEWLINE {
            if newlines < 1 {
                gap_is_broken(s, i + 1, newlines + 1, a, b);
            }
        } else {
            gap_is_broken(s, i + 1, newlines, a, b);
        }
    }
}

/// Backticks, a text of their line without a backtick, and as many backticks again or more are
/// inline code over that text.
pub proof fn inline_code_is_spelled(s: Seq<u8>, off: int, n: int, close: int)
    requires
        addressable(s),
        0 <= off,
        1 <= n,
        off + n < close,
        close + n <= s.len(),
        only(s, off, off + n, BACKTICK),
        forall|i: int| off + n <= i < close ==> #[trigger] s[i] != BACKTICK && s[i] != NEWLINE,
        only(s, close, close + n, BACKTICK),
    ensures
        code_span(s, off) == (CodeScan::Code {
            span: Span { start: off as u32, end: (close + n) as u32 },
            is_block: false,
            lang: None,
            content: Span { start: (off + n) as u32, end: close as u32 },
            resume: (close + n) as u32,
        }),
{
    let open = off + n;
    assert(s[open] != BACKTICK);
    runs_to(s, off, open, BACKTICK);
    assert(at(s, close) == Some(BACKTICK));
    next_byte_unique(s, open, BACKTICK, close);
    next_byte_first(s, open, NEWLINE);
    let stop = line_end(s, open);
    assert(close < stop) by {
        if stop <= close {
            assert(s[stop] == NEWLINE);
        }
    }
    run_is_long(s, close, close + n, BACKTICK);
}

/// A run of a byte goes as far as its bytes do, or farther.
proof fn run_is_long(s: Seq<u8>, a: int, b: int, c: u8)
    requires
        0 <= a <= b <= s.len(),
        only(s, a, b, c),
    ensures
        run_end(s, a, c) >= b,
    decreases s.len() - a,
{
    if a < b {
        assert(at(s, a) == Some(c));
    }
    if a < s.len() && s[a] == c {
        if a < b {
            run_is_long(s, a + 1, b, c);
        } else {
            run_is_long(s, a + 1, a + 1, c);
        }
    }
}

/// Backticks that no backtick of their line follows, fewer than a fence has, are text.
pub proof fn lone_backticks_are_text(s: Seq<u8>, off: int, n: int)
    requires
        addressable(s),
        0 <= off,
        1 <= n < 3,
        off + n <= s.len(),
        only(s, off, off + n, BACKTICK),
        at(s, off + n) != Some(BACKTICK),
        forall|i: int| off + n <= i < line_end(s, off + n) ==> #[trigger] s[i] != BACKTICK,
    ensures
        code_span(s, off) == (CodeScan::Literal { resume: (off + n) as u32 }),
{
    let open = off + n;
    runs_to(s, off, open, BACKTICK);
    next_byte_first(s, open, NEWLINE);
    next_byte_first(s, open, BACKTICK);
    let next = next_byte(s, open, BACKTICK);
    if next < line_end(s, open) {
        assert(s[next] != BACKTICK);
    }
}

/// One dollar, a text of its line without dollars and backslashes, and a dollar are inline math over
/// that text.
pub proof fn inline_math_is_spelled(s: Seq<u8>, off: int, close: int)
    requires
        addressable(s),
        0 <= off,
        off + 1 < close < s.len(),
        s[off] == DOLLAR,
        forall|i: int|
            off + 1 <= i < close ==> #[trigger] s[i] != DOLLAR && s[i] != BACKSLASH && s[i] != NEWLINE,
        s[close] == DOLLAR,
    ensures
        math_span(s, off) == (MathScan::Math {
            span: Span { start: off as u32, end: (close + 1) as u32 },
            is_block: false,
            content: Span { start: (off + 1) as u32, end: close as u32 },
            resume: (close + 1) as u32,
        }),
{
    assert(s[off + 1] != DOLLAR);
    assert(only(s, off, off + 1, DOLLAR));
    runs_to(s, off, off + 1, DOLLAR);
    next_byte_first(s, off + 1, NEWLINE);
    let stop = line_end(s, off + 1);
    assert(close < stop) by {
        if stop < close {
            assert(s[stop] == NEWLINE);
        }
    }
    dollar_is_found(s, off + 1, stop, close);
}

/// The first dollar is found.
proof fn dollar_is_found(s: Seq<u8>, i: int, bound: int, close: int)
    requires
        0 <= i <= close < bound <= s.len(),
        forall|k: int| i <= k < close ==> #[trigger] s[k] != DOLLAR && s[k] != BACKSLASH,
        s[close] == DOLLAR,
    ensures
        dollar_close(s, i, bound, 1) == Some(close),
    decreases close - i,
{
    if i < close {
        dollar_is_found(s, i + 1, bound, close);
    } else {
        run_is_long(s, i, i + 1, DOLLAR);
    }
}

/// Over plain text of its line, a marker is closed by the next that can close.
pub proof fn emphasis_is_spelled(s: Seq<u8>, open: int, marker: u8, len: int, close: int)
    requires
        0 <= open,
        len == 1 || len == 2,
        marker == STAR || marker == UNDERSCORE || marker == TILDE,
        only(s, open, open + len, marker),
        open + len < close,
        close + len <= s.len(),
        all_plain(s, open + len, close),
        only(s, close, close + len, marker),
        closes(s, close, len),
    ensures
        span_close(s, open, marker, len) == Some(close),
{
    next_byte_first(s, open, NEWLINE);
    let bound = line_end(s, open);
    assert(at(s, close) == Some(marker));
    assert(len == 2 ==> at(s, close + 1) == Some(marker));
    assert(close < bound) by {
        if bound <= close {
            assert(s[bound] == NEWLINE);
            if bound < open + len {
                assert(at(s, bound) == Some(marker));
            }
        }
    }
    marker_is_found(s, open + len, open + len, marker, len, bound, close);
}

/// The marker behind plain text is found.
proof fn marker_is_found(
    s: Seq<u8>,
    i: int,
    first: int,
    marker: u8,
    len: int,
    bound: int,
    close: int,
)
    requires
        0 <= first <= i <= close < bound <= s.len(),
        first < close,
        marker == STAR || marker == UNDERSCORE || marker == TILDE,
        all_plain(s, i, close),
        s[close] == marker,
        len == 1 || at(s, close + 1) == Some(marker),
        closes(s, close, len),
    ensures
        marker_close(s, i, 0, first, marker, len, bound) == Some(close),
    decreases close - i,
{
    if i < close {
        assert(is_plain(s[i]));
        marker_is_found(s, i + 1, first, marker, len, bound, close);
    }
}

/// `[text](url)` over plain text is a link of that text to that url.
pub proof fn links_are_spelled(s: Seq<u8>, lbrack: int, t: int, u: int, limit: int)
    requires
        addressable(s),
        0 <= lbrack < t,
        t + 2 <= u < limit <= s.len(),
        s[lbrack] == LBRACK,
        all_plain(s, lbrack + 1, t),
        s[t] == RBRACK,
        s[t + 1] == LPAREN,
        forall|i: int|
            t + 2 <= i < u ==> #[trigger] s[i] != BACKSLASH && s[i] != LPAREN && s[i] != RPAREN && s[i]
                != LBRACE && s[i] != RBRACE && s[i] != NEWLINE,
        s[u] == RPAREN,
    ensures
        link_span(s, lbrack, limit) == Some(
            LinkSpans {
                text: Span { start: (lbrack + 1) as u32, end: t as u32 },
                url: Span { start: (t + 2) as u32, end: u as u32 },
                resume: (u + 1) as u32,
            },
        ),
{
    next_byte_first(s, lbrack, NEWLINE);
    let e = line_end(s, lbrack);
    assert(u < e) by {
        if e <= u {
            assert(s[e] == NEWLINE);
            if lbrack < e < t {
                assert(is_plain(s[e]));
            }
        }
    }
    let bound = link_bound(s, lbrack, limit);
    text_is_found(s, lbrack + 1, bound, t);
    url_is_found(s, t + 2, bound, u);
}

/// The `]` behind plain text is found.
proof fn text_is_found(s: Seq<u8>, i: int, bound: int, t: int)
    requires
        0 <= i <= t < bound <= s.len(),
        all_plain(s, i, t),
        s[t] == RBRACK,
    ensures
        link_text_end(s, i, 0, 0, bound) == Some(t),
    decreases t - i,
{
    if i < t {
        assert(is_plain(s[i]));
        text_is_found(s, i + 1, bound, t);
    }
}

/// The `)` behind a plain url is found.
proof fn url_is_found(s: Seq<u8>, i: int, bound: int, u: int)
    requires
        0 <= i <= u < bound <= s.len(),
        forall|k: int|
            i <= k < u ==> #[trigger] s[k] != BACKSLASH && s[k] != LPAREN && s[k] != RPAREN && s[k] != LBRACE
                && s[k] != RBRACE,
        s[u] == RPAREN,
    ensures
        link_url_end(s, i, 0, 0, bound) == Some(u),
    decreases u - i,
{
    if i < u {
        url_is_found(s, i + 1, bound, u);
    }
}

/// A label is a letter, a digit or a `_`, and letters, digits, `_`, `:` and `-` behind it, up to the
/// first other byte. A reference is one behind its `&`, a label in angle brackets one that a `>`
/// closes, and a footnote one between `[^` and `]`.
pub proof fn labels_are_spelled(s: Seq<u8>, start: int, e: int, limit: int)
    requires
        addressable(s),
        2 <= start < e < limit <= s.len(),
        label_starts(s, start),
        all_in(s, start + 1, e, ByteClass::Label),
        none_at(s, e, ByteClass::Label),
    ensures
        reference(s, start - 1, limit) == Some(Span { start: start as u32, end: e as u32 }),
        closed_label(s, start, limit, GREATER) == (if at(s, e) == Some(GREATER) {
            Some(Span { start: start as u32, end: e as u32 })
        } else {
            None
        }),
        footnote(s, start - 2, limit) == (if at(s, start - 1) == Some(CARET) && at(s, e) == Some(
            RBRACK,
        ) {
            Some(Span { start: start as u32, end: e as u32 })
        } else {
            None
        }),
{
    skips_to(s, start + 1, e, ByteClass::Label);
}

/// A `//` comment ends with its line, or where its surroundings do.
pub proof fn line_comments_are_spelled(s: Seq<u8>, off: int, e: int)
    requires
        addressable(s),
        0 <= off,
        off + 1 < e <= s.len(),
        s[off + 1] == SLASH,
        forall|i: int| off <= i < e ==> #[trigger] s[i] != NEWLINE,
        e < s.len() ==> s[e] == NEWLINE,
    ensures
        comment(s, off, s.len() as int) == (CommentScan {
            end: e as u32,
            block: false,
            terminated: true,
        }),
{
    next_byte_unique(s, off, NEWLINE, e);
}

/// A block comment that holds no slash ends with the first `*/` behind its opener.
pub proof fn block_comments_are_spelled(s: Seq<u8>, off: int, e: int)
    requires
        addressable(s),
        0 <= off,
        off + 3 < e < s.len() + 1,
        s[off + 1] == STAR,
        forall|i: int| off + 2 <= i < e - 1 ==> #[trigger] s[i] != SLASH,
        s[e - 2] == STAR,
        s[e - 1] == SLASH,
    ensures
        comment(s, off, s.len() as int) == (CommentScan {
            end: e as u32,
            block: true,
            terminated: true,
        }),
{
    close_is_found(s, off + 2, 0, e);
}

/// The `*/` behind a text without slashes is found.
proof fn close_is_found(s: Seq<u8>, i: int, prev: u8, e: int)
    requires
        0 <= i < e <= s.len(),
        forall|k: int| i <= k < e - 1 ==> #[trigger] s[k] != SLASH,
        prev != SLASH,
        s[e - 1] == SLASH,
        i < e - 1 ==> s[e - 2] == STAR,
        i == e - 1 ==> prev == STAR,
    ensures
        block_comment_end(s, i, 1, prev, s.len() as int) == Some(e),
    decreases e - i,
{
    if i < e - 1 {
        close_is_found(s, i + 1, s[i], e);
    }
}

/// A block holds the lines that are blank or indented past it, and ends at the first that is
/// neither.
pub proof fn blocks_are_spelled(s: Seq<u8>, line: int, min: int, l: int)
    requires
        0 <= line <= s.len(),
        starts_line(s, line),
        line <= l < s.len(),
        starts_line(s, l),
    ensures
        ({
            let e = block_end(s, line, min);
            &&& l < e ==> is_blank(s, l) || content_start(s, l) - l > min
            &&& l == e ==> !is_blank(s, l) && content_start(s, l) - l <= min
        }),
    decreases s.len() - line,
{
    if line < s.len() && !(!is_blank(s, line) && content_start(s, line) - line <= min) {
        next_line_bounds(s, line);
        block_end_bounds(s, next_line(s, line), min);
        if line < l {
            assert(next_line(s, line) <= l) by {
                if l < next_line(s, line) {
                    assert(l - 1 < line_end(s, line));
                    assert(s[l - 1] != NEWLINE);
                }
            }
            blocks_are_spelled(s, next_line(s, line), min, l);
        }
    }
}

/// A url without escapes stands for itself, without the white space around it.
pub proof fn urls_are_spelled(t: Seq<u8>, a: int, b: int)
    requires
        0 <= a < b <= t.len(),
        forall|i: int| 0 <= i < a ==> is_space(#[trigger] t[i]),
        forall|i: int| b <= i < t.len() ==> is_space(#[trigger] t[i]),
        !is_space(t[a]),
        !is_space(t[b - 1]),
        forall|i: int| a <= i < b ==> #[trigger] t[i] != BACKSLASH,
    ensures
        url_text(t) == t.subrange(a, b),
{
    trims_to(t, 0, a);
    trims_back_to(t, a, t.len() as int, b);
    let u = t.subrange(a, b);
    assert forall|i: int| 0 <= i < u.len() implies #[trigger] u[i] != BACKSLASH by {
        assert(t[a + i] != BACKSLASH);
    }
    cooks_to_itself(Seq::empty(), u, 0);
    assert(Seq::<u8>::empty() + u.skip(0) =~= u);
}

/// White space in front is trimmed.
proof fn trims_to(t: Seq<u8>, i: int, a: int)
    requires
        0 <= i <= a < t.len(),
        forall|k: int| i <= k < a ==> is_space(#[trigger] t[k]),
        !is_space(t[a]),
    ensures
        trim_front(t, i) == a,
    decreases a - i,
{
    if i < a {
        assert(is_space(t[i]));
        trims_to(t, i + 1, a);
    }
}

/// White space behind is trimmed.
proof fn trims_back_to(t: Seq<u8>, i: int, j: int, b: int)
    requires
        0 <= i < b <= j <= t.len(),
        forall|k: int| b <= k < j ==> is_space(#[trigger] t[k]),
        !is_space(t[b - 1]),
    ensures
        trim_back(t, i, j) == b,
    decreases j - b,
{
    if b < j {
        assert(is_space(t[j - 1]));
        trims_back_to(t, i, j - 1, b);
    }
}

/// Text without backslashes has nothing to resolve.
proof fn cooks_to_itself(acc: Seq<u8>, t: Seq<u8>, i: int)
    requires
        0 <= i <= t.len(),
        forall|k: int| i <= k < t.len() ==> #[trigger] t[k] != BACKSLASH,
    ensures
        cooked_after(acc, t, i) == acc + t.skip(i),
    decreases t.len() - i,
{
    if i < t.len() {
        assert(t[i] != BACKSLASH);
        cooks_to_itself(acc.push(t[i]), t, i + 1);
        assert(acc.push(t[i]) + t.skip(i + 1) =~= acc + t.skip(i));
    } else {
        assert(acc + t.skip(i) =~= acc);
    }
}

} // verus!
