//! Line-start constructs: `%` and `%%%` statements, headings, list markers, thematic breaks and
//! the `|` property lines of colon sugar.

use vstd::prelude::*;
use crate::ascii::{DOT, HASH, HYPHEN, NEWLINE, PERCENT, PIPE, PLUS, SLASH, SPACE, TAB};
use crate::bytes::{
    addressable, at, get, run_bounds, run_end, skip, skip_class, skip_run, utf8, ByteClass, Span,
};
use crate::lines::{
    content_start, content_start_bounds, ends_line, is_blank, line_content_end, line_end,
    line_probe, next_line, next_line_bounds, next_line_start, starts_line,
};

verus! {

/// A list marker found at a line start (see [`list_marker_at`]).
#[derive(Clone, Copy, Debug, PartialEq, Eq, Structural)]
pub struct ListMarker {
    /// `true` for an ordered marker (`+` or `N.`), `false` for a bullet (`-`).
    pub ordered: bool,
    /// Indentation depth (the count of leading spaces and tabs), which drives nesting.
    pub indent: u32,
    /// Byte offset of the marker's first character.
    pub offset: u32,
    /// Offset where the item body begins, just past the marker and its one separating space.
    pub body_col: u32,
}

/// Does the line at `line` open a statement: is its first byte past the indentation a `%`?
pub open spec fn opens_statement(s: Seq<u8>, line: int) -> bool {
    at(s, content_start(s, line)) == Some(PERCENT)
}

/// The number of `%` that lead the content of the line at `line`.
pub open spec fn percent_run(s: Seq<u8>, line: int) -> int {
    run_end(s, content_start(s, line), PERCENT) - content_start(s, line)
}

/// Is the line at `line` a fence: three or more `%` alone on their line?
pub open spec fn is_fence(s: Seq<u8>, line: int) -> bool {
    percent_run(s, line) >= 3 && ends_line(
        s,
        skip(s, run_end(s, content_start(s, line), PERCENT), ByteClass::LineTail),
    )
}

/// What the line at `line` opens: for a fence, the start of its body and `true`; for a statement,
/// the offset past its first `%` and `false`.
pub open spec fn statement_opened(s: Seq<u8>, line: int) -> Option<(u32, bool)> {
    if is_fence(s, line) {
        Some((next_line(s, line) as u32, true))
    } else if opens_statement(s, line) {
        Some(((content_start(s, line) + 1) as u32, false))
    } else {
        None
    }
}

/// Is the rest of the line from `content` on empty but for spaces, tabs or a `//` comment?
pub open spec fn empty_statement(s: Seq<u8>, content: int) -> bool {
    is_blank(s, content) || (at(s, content_start(s, content)) == Some(SLASH) && at(
        s,
        content_start(s, content) + 1,
    ) == Some(SLASH))
}

/// The first line from `line` on that opens a statement or is blank, or the source end.
pub open spec fn statement_stop(s: Seq<u8>, line: int) -> int
    decreases s.len() - line,
{
    if 0 <= line < s.len() {
        if opens_statement(s, line) || is_blank(s, line) {
            line
        } else {
            proof {
                next_line_bounds(s, line);
            }
            statement_stop(s, next_line(s, line))
        }
    } else {
        s.len() as int
    }
}

/// The first line from `line` on whose content starts with three or more `%`, and the line after
/// it; the source end twice when there is none.
pub open spec fn fence_close(s: Seq<u8>, line: int) -> (int, int)
    decreases s.len() - line,
{
    if 0 <= line < s.len() {
        if percent_run(s, line) >= 3 {
            (line, next_line(s, line))
        } else {
            proof {
                next_line_bounds(s, line);
            }
            fence_close(s, next_line(s, line))
        }
    } else {
        (s.len() as int, s.len() as int)
    }
}

/// The end of the run of `#` that leads the content of the line at `line`.
pub open spec fn hash_end(s: Seq<u8>, line: int) -> int {
    run_end(s, content_start(s, line), HASH)
}

/// The heading that the line at `line` opens: one to six `#`, then a space or a tab. Its level,
/// the start of its body, and the end of its line.
pub open spec fn heading(s: Seq<u8>, line: int) -> Option<(u8, u32, u32)> {
    let level = hash_end(s, line) - content_start(s, line);
    let after = at(s, hash_end(s, line));
    if 1 <= level <= 6 && (after == Some(SPACE) || after == Some(TAB)) {
        Some((level as u8, (hash_end(s, line) + 1) as u32, line_end(s, line) as u32))
    } else {
        None
    }
}

/// The thematic break at `line`: three or more `-` with only whitespace after them up to `end`.
pub open spec fn thematic_break(s: Seq<u8>, line: int, end: int) -> Option<Span> {
    let run_start = content_start(s, line);
    let stop = run_end(s, run_start, HYPHEN);
    if stop - run_start >= 3 && stop <= end && skip(s, stop, ByteClass::LineTail) >= end {
        Some(Span { start: run_start as u32, end: stop as u32 })
    } else {
        None
    }
}

/// The length of the list marker at `i`: one for `-` or `+`, and for digits and a `.` as many bytes
/// as they take; zero when neither stands there.
pub open spec fn marker_len(s: Seq<u8>, i: int) -> int {
    let digits = skip(s, i, ByteClass::Digit);
    if at(s, i) == Some(HYPHEN) || at(s, i) == Some(PLUS) {
        1
    } else if digits > i && at(s, digits) == Some(DOT) {
        digits + 1 - i
    } else {
        0
    }
}

/// The list marker that leads the content of the line at `line`, with a space after it.
pub open spec fn list_marker(s: Seq<u8>, line: int) -> Option<ListMarker> {
    let c = content_start(s, line);
    let n = marker_len(s, c);
    if n > 0 && at(s, c + n) == Some(SPACE) {
        Some(
            ListMarker {
                ordered: at(s, c) != Some(HYPHEN),
                indent: (c - line) as u32,
                offset: c as u32,
                body_col: (c + n + 1) as u32,
            },
        )
    } else {
        None
    }
}

/// The offset past the `|` that leads the content of the line at `line`.
pub open spec fn prop_line(s: Seq<u8>, line: int) -> Option<u32> {
    if at(s, content_start(s, line)) == Some(PIPE) {
        Some((content_start(s, line) + 1) as u32)
    } else {
        None
    }
}

/// A statement region ends at or after the line it is sought from, inside the source.
pub proof fn statement_stop_bounds(s: Seq<u8>, line: int)
    requires
        0 <= line <= s.len(),
    ensures
        line <= statement_stop(s, line) <= s.len(),
        starts_line(s, line) ==> starts_line(s, statement_stop(s, line)),
        statement_stop(s, line) < s.len() ==> opens_statement(s, statement_stop(s, line))
            || is_blank(s, statement_stop(s, line)),
    decreases s.len() - line,
{
    if line < s.len() && !(opens_statement(s, line) || is_blank(s, line)) {
        next_line_bounds(s, line);
        statement_stop_bounds(s, next_line(s, line));
    }
}

/// A statement runs over lines that are neither blank nor statements of their own: a blank line and
/// the next statement both end it.
pub proof fn statements_hold_plain_lines(s: Seq<u8>, line: int, l: int)
    requires
        0 <= line <= l < statement_stop(s, line),
        line <= s.len(),
        starts_line(s, line),
        starts_line(s, l),
    ensures
        !is_blank(s, l),
        !opens_statement(s, l),
    decreases s.len() - line,
{
    statement_stop_bounds(s, line);
    if line < l {
        next_line_bounds(s, line);
        statements_hold_plain_lines(s, next_line(s, line), l);
    }
}

/// A fence closes at or after the line it is sought from, inside the source.
pub proof fn fence_close_bounds(s: Seq<u8>, line: int)
    requires
        0 <= line <= s.len(),
    ensures
        line <= fence_close(s, line).0 <= fence_close(s, line).1 <= s.len(),
        starts_line(s, line) ==> starts_line(s, fence_close(s, line).0),
        fence_close(s, line).0 < s.len() ==> percent_run(s, fence_close(s, line).0) >= 3,
    decreases s.len() - line,
{
    if line < s.len() {
        next_line_bounds(s, line);
        if percent_run(s, line) < 3 {
            fence_close_bounds(s, next_line(s, line));
        }
    }
}

/// Does the line at `line_start` open a `%` or `%%%` statement?
pub fn is_statement_line(source: &str, line_start: u32) -> (yes: bool)
    requires
        addressable(utf8(source)),
        line_start <= utf8(source).len(),
    ensures
        yes == opens_statement(utf8(source), line_start as int),
{
    let s = source.as_bytes();
    get(s, skip_class(s, line_start as usize, ByteClass::InlineSpace)) == Some(PERCENT)
}

/// Classify the statement line at `line_start`: for a `%%%` fence line, the offset of the line
/// after the opener and `true`; for a `%` statement, the offset just past the first `%` and
/// `false`.
pub fn statement_kind(source: &str, line_start: u32) -> (kind: Option<(u32, bool)>)
    requires
        addressable(utf8(source)),
        line_start <= utf8(source).len(),
    ensures
        kind == statement_opened(utf8(source), line_start as int),
        kind matches Some((next, _)) ==> line_start < next <= utf8(source).len(),
{
    let s = source.as_bytes();
    let c: usize = skip_class(s, line_start as usize, ByteClass::InlineSpace);
    let r: usize = skip_run(s, c, PERCENT);
    proof {
        run_bounds(s@, c as int, PERCENT);
        content_start_bounds(s@, line_start as int);
    }
    if r - c >= 3 {
        let tail: usize = skip_class(s, r, ByteClass::LineTail);
        let byte = get(s, tail);
        if byte.is_none() || byte == Some(NEWLINE) {
            return Some((next_line_start(source, line_start), true));
        }
    }
    if r > c {
        proof {
            assert(s@[c as int] == PERCENT);
        }
        Some((c as u32 + 1, false))
    } else {
        None
    }
}

/// Is the `%` statement whose body begins at `content` a no-op: the rest of its line empty, or
/// only a `//` comment?
pub fn percent_line_is_empty(source: &str, content: u32) -> (yes: bool)
    requires
        addressable(utf8(source)),
        content <= utf8(source).len(),
    ensures
        yes == empty_statement(utf8(source), content as int),
{
    let s = source.as_bytes();
    let c: usize = skip_class(s, content as usize, ByteClass::InlineSpace);
    let byte = get(s, c);
    byte.is_none() || byte == Some(NEWLINE) || (byte == Some(SLASH) && get(s, c + 1) == Some(SLASH))
}

/// The exclusive bound of the `%` statement region whose JavaScript begins at `content`: the start
/// of the next line that opens a statement, the start of the first blank line, or the source end.
pub fn statement_bound(source: &str, content: u32) -> (bound: u32)
    requires
        addressable(utf8(source)),
        content <= utf8(source).len(),
    ensures
        bound == statement_stop(utf8(source), next_line(utf8(source), content as int)),
        content <= bound <= utf8(source).len(),
{
    let ghost s = utf8(source);
    let len: u32 = source.len() as u32;
    let mut line: u32 = next_line_start(source, content);
    let ghost first = next_line(s, content as int);
    while line < len
        invariant
            s == utf8(source),
            addressable(s),
            len == s.len(),
            content <= line <= len,
            first == next_line(s, content as int),
            statement_stop(s, line as int) == statement_stop(s, first),
        decreases len - line,
    {
        if is_statement_line(source, line) || line_probe(source, line).1 {
            return line;
        }
        line = next_line_start(source, line);
    }
    len
}

/// Find the `%%%` fence close at or after `inner_start`: the closing line's start, and the offset
/// past that line.
pub fn find_fence_close(source: &str, inner_start: u32) -> (close: (u32, u32))
    requires
        addressable(utf8(source)),
    ensures
        (close.0 as int, close.1 as int) == fence_close(utf8(source), inner_start as int),
        close.0 <= close.1 <= utf8(source).len(),
{
    let ghost s = utf8(source);
    let mut line: u32 = inner_start;
    while (line as usize) < source.len()
        invariant
            s == utf8(source),
            addressable(s),
            fence_close(s, line as int) == fence_close(s, inner_start as int),
        decreases s.len() - line,
    {
        let b = source.as_bytes();
        let c: usize = skip_class(b, line as usize, ByteClass::InlineSpace);
        if skip_run(b, c, PERCENT) - c >= 3 {
            return (line, next_line_start(source, line));
        }
        line = next_line_start(source, line);
    }
    (source.len() as u32, source.len() as u32)
}

/// Detect a heading marker (one to six `#` and one space or tab) at `line_start`, leading
/// indentation tolerated. Gives the level, the body start and the line end.
pub fn heading_at(source: &str, line_start: u32) -> (found: Option<(u8, u32, u32)>)
    requires
        addressable(utf8(source)),
        line_start <= utf8(source).len(),
    ensures
        found == heading(utf8(source), line_start as int),
        found matches Some((level, body, end)) ==> 1 <= level <= 6 && line_start < body <= end
            <= utf8(source).len(),
{
    let s = source.as_bytes();
    let c: usize = skip_class(s, line_start as usize, ByteClass::InlineSpace);
    let r: usize = skip_run(s, c, HASH);
    let after = get(s, r);
    proof {
        heading_on_line(s@, line_start as int);
    }
    if 1 <= r - c && r - c <= 6 && (after == Some(SPACE) || after == Some(TAB)) {
        Some(((r - c) as u8, (r + 1) as u32, line_content_end(source, line_start)))
    } else {
        None
    }
}

/// A heading marker and the whitespace after it lie on the line they start.
proof fn heading_on_line(s: Seq<u8>, line: int)
    requires
        0 <= line <= s.len(),
    ensures
        heading(s, line) is Some ==> hash_end(s, line) + 1 <= line_end(s, line),
        line <= content_start(s, line) <= hash_end(s, line),
{
    content_start_bounds(s, line);
    let c = content_start(s, line);
    run_bounds(s, c, HASH);
    next_line_bounds(s, line);
    let r = hash_end(s, line);
    if heading(s, line) is Some && line_end(s, line) <= r {
        let e = line_end(s, line);
        if e < r {
            assert(s[e] == HASH);
        }
    }
}

/// Detect a `---` thematic break at `line_start`: three or more `-` (leading indentation tolerated)
/// whose tail up to `line_end`, the caller's clipped line extent, is whitespace only. Gives the
/// span of the `-` run.
pub fn thematic_break_at(source: &str, line_start: u32, line_end: u32) -> (found: Option<Span>)
    requires
        addressable(utf8(source)),
    ensures
        found == thematic_break(utf8(source), line_start as int, line_end as int),
        found matches Some(run) ==> line_start <= run.start && run.start + 3 <= run.end <= line_end,
{
    let s = source.as_bytes();
    let run_start: usize = skip_class(s, line_start as usize, ByteClass::InlineSpace);
    let stop: usize = skip_run(s, run_start, HYPHEN);
    let tail: usize = skip_class(s, stop, ByteClass::LineTail);
    if stop - run_start >= 3 && stop <= line_end as usize && tail >= line_end as usize {
        Some(Span::new(run_start as u32, stop as u32))
    } else {
        None
    }
}

/// Classify a list marker (`- `, `+ ` or `N. `) at the first content of the line at `line_start`.
pub fn list_marker_at(source: &str, line_start: u32) -> (found: Option<ListMarker>)
    requires
        addressable(utf8(source)),
        line_start <= utf8(source).len(),
    ensures
        found == list_marker(utf8(source), line_start as int),
        found matches Some(m) ==> line_start <= m.offset < m.body_col <= utf8(source).len(),
{
    let s = source.as_bytes();
    let c: usize = skip_class(s, line_start as usize, ByteClass::InlineSpace);
    let first = get(s, c);
    let digits: usize = skip_class(s, c, ByteClass::Digit);
    let n: usize = if first == Some(HYPHEN) || first == Some(PLUS) {
        1
    } else if digits > c && get(s, digits) == Some(DOT) {
        digits + 1 - c
    } else {
        0
    };
    if n > 0 && get(s, c + n) == Some(SPACE) {
        Some(
            ListMarker {
                ordered: first != Some(HYPHEN),
                indent: (c - line_start as usize) as u32,
                offset: c as u32,
                body_col: (c + n + 1) as u32,
            },
        )
    } else {
        None
    }
}

/// If the line at `line_start` is a colon-sugar property line (its first content is `|`), the
/// offset just past the `|`, where the entries begin.
pub fn colon_prop_line_at(source: &str, line_start: u32) -> (found: Option<u32>)
    requires
        addressable(utf8(source)),
        line_start <= utf8(source).len(),
    ensures
        found == prop_line(utf8(source), line_start as int),
        found matches Some(after) ==> line_start < after <= utf8(source).len(),
{
    let s = source.as_bytes();
    let c: usize = skip_class(s, line_start as usize, ByteClass::InlineSpace);
    if get(s, c) == Some(PIPE) {
        Some((c + 1) as u32)
    } else {
        None
    }
}

/// The line classifiers of this module as regular expressions, for tools that read a document line
/// by line.
pub struct NotaLineClassifiers {
    /// A line that opens a statement.
    pub percent_line: &'static str,
    /// A line that opens a fence.
    pub fence_line: &'static str,
    /// A line that closes a fence.
    pub fence_close_line: &'static str,
    /// The text of a statement that does nothing.
    pub empty_statement: &'static str,
    /// A heading.
    pub heading: &'static str,
    /// A list item.
    pub list_marker: &'static str,
    /// A property line.
    pub prop_line: &'static str,
}

/// The line classifiers as regular expressions.
pub fn line_classifiers() -> (patterns: NotaLineClassifiers)
    ensures
        patterns.percent_line@ == "^[ \\t]*%"@,
        patterns.fence_line@ == "^[ \\t]*%{3,}[ \\t\\r]*$"@,
        patterns.fence_close_line@ == "^[ \\t]*%{3,}"@,
        patterns.empty_statement@ == "^[ \\t]*(//.*)?$"@,
        patterns.heading@ == "^[ \\t]*(#{1,6})[ \\t]"@,
        patterns.list_marker@ == "^([ \\t]*)([-+]|[0-9]+\\.) "@,
        patterns.prop_line@ == "^[ \\t]*\\|"@,
{
    NotaLineClassifiers {
        percent_line: "^[ \\t]*%",
        fence_line: "^[ \\t]*%{3,}[ \\t\\r]*$",
        fence_close_line: "^[ \\t]*%{3,}",
        empty_statement: "^[ \\t]*(//.*)?$",
        heading: "^[ \\t]*(#{1,6})[ \\t]",
        list_marker: "^([ \\t]*)([-+]|[0-9]+\\.) ",
        prop_line: "^[ \\t]*\\|",
    }
}

} // verus!
