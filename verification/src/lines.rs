//! Line geometry: where lines start, end, and how far they are indented.

use vstd::prelude::*;
use crate::ascii::{NEWLINE};
use crate::bytes::{
    addressable, at, find_byte, get, next_byte, next_byte_first, skip, skip_bounds, skip_class,
    utf8, ByteClass,
};

verus! {

/// The offset of the `\n` that ends the line holding `from`, or the source end.
pub open spec fn line_end(s: Seq<u8>, from: int) -> int {
    next_byte(s, from, NEWLINE)
}

/// The offset just past the `\n` that ends the line holding `from`, or the source end.
pub open spec fn next_line(s: Seq<u8>, from: int) -> int {
    if line_end(s, from) < s.len() {
        line_end(s, from) + 1
    } else {
        line_end(s, from)
    }
}

/// Is `i` the end of a line: a `\n`, or no byte at all?
pub open spec fn ends_line(s: Seq<u8>, i: int) -> bool {
    at(s, i) is None || at(s, i) == Some(NEWLINE)
}

/// The first byte of the line at `line` that is neither a space nor a tab.
pub open spec fn content_start(s: Seq<u8>, line: int) -> int {
    skip(s, line, ByteClass::InlineSpace)
}

/// Does the line at `line` hold nothing but spaces and tabs?
pub open spec fn is_blank(s: Seq<u8>, line: int) -> bool {
    ends_line(s, content_start(s, line))
}

/// The start of the line holding `off`.
pub open spec fn line_start(s: Seq<u8>, off: int) -> int
    decreases off,
{
    if 0 < off <= s.len() && s[off - 1] != NEWLINE {
        line_start(s, off - 1)
    } else {
        off
    }
}

/// The number of spaces and tabs that lead the line holding `off`.
pub open spec fn indent_of(s: Seq<u8>, off: int) -> int {
    content_start(s, line_start(s, off)) - line_start(s, off)
}

/// The end of an indentation-scoped block: the first line at or after `line` that has content
/// indented by no more than `min`, or the source end.
pub open spec fn block_end(s: Seq<u8>, line: int, min: int) -> int
    decreases s.len() - line,
{
    if 0 <= line < s.len() {
        if !is_blank(s, line) && content_start(s, line) - line <= min {
            line
        } else {
            proof {
                next_line_bounds(s, line);
            }
            block_end(s, next_line(s, line), min)
        }
    } else {
        line
    }
}

/// Does a line start at `i`: at the start of `s`, after a `\n`, or at its end?
pub open spec fn starts_line(s: Seq<u8>, i: int) -> bool {
    i == 0 || i == s.len() || (0 < i < s.len() && s[i - 1] == NEWLINE)
}

/// Every line step moves forward, to just past a `\n` or to the source end.
pub proof fn next_line_bounds(s: Seq<u8>, from: int)
    requires
        0 <= from <= s.len(),
    ensures
        from <= line_end(s, from) <= next_line(s, from) <= s.len(),
        from < s.len() ==> from < next_line(s, from),
        line_end(s, from) < s.len() ==> s[line_end(s, from)] == NEWLINE,
        next_line(s, from) < s.len() ==> s[next_line(s, from) - 1] == NEWLINE,
        starts_line(s, next_line(s, from)),
        forall|k: int| from <= k < line_end(s, from) ==> #[trigger] s[k] != NEWLINE,
{
    next_byte_first(s, from, NEWLINE);
}

/// A line's content starts no later than the line ends.
pub proof fn content_start_bounds(s: Seq<u8>, line: int)
    requires
        0 <= line <= s.len(),
    ensures
        line <= content_start(s, line) <= line_end(s, line),
        ends_line(s, content_start(s, line)) <==> content_start(s, line) == line_end(s, line),
{
    skip_bounds(s, line, ByteClass::InlineSpace);
    next_line_bounds(s, line);
    let c = content_start(s, line);
    let e = line_end(s, line);
    if e < c {
        assert(s[e] == NEWLINE);
    }
    if c < e {
        assert(s[c] != NEWLINE);
    }
}

/// A block ends at or after the line it starts on, inside the source.
pub proof fn block_end_bounds(s: Seq<u8>, line: int, min: int)
    requires
        0 <= line <= s.len(),
    ensures
        line <= block_end(s, line, min) <= s.len(),
    decreases s.len() - line,
{
    if line < s.len() && !(!is_blank(s, line) && content_start(s, line) - line <= min) {
        next_line_bounds(s, line);
        block_end_bounds(s, next_line(s, line), min);
    }
}

/// The offset of the terminating `\n` of the line containing `from` (or the source end).
pub fn line_content_end(source: &str, from: u32) -> (end: u32)
    requires
        addressable(utf8(source)),
        from <= utf8(source).len(),
    ensures
        end == line_end(utf8(source), from as int),
        from <= end <= utf8(source).len(),
{
    find_byte(source.as_bytes(), from as usize, NEWLINE) as u32
}

/// The offset just past the next `\n` at or after `offset`, the start of the next line (or the
/// source end).
pub fn next_line_start(source: &str, offset: u32) -> (start: u32)
    requires
        addressable(utf8(source)),
        offset <= utf8(source).len(),
    ensures
        start == next_line(utf8(source), offset as int),
        offset <= start <= utf8(source).len(),
        offset < utf8(source).len() ==> offset < start,
{
    let end: u32 = line_content_end(source, offset);
    if (end as usize) < source.len() {
        end + 1
    } else {
        end
    }
}

/// The start of the line containing byte `offset`.
pub fn line_start_of(source: &str, offset: u32) -> (start: u32)
    requires
        offset <= utf8(source).len(),
    ensures
        start == line_start(utf8(source), offset as int),
        start <= offset,
{
    let s = source.as_bytes();
    let mut start: u32 = offset;
    while start > 0 && s[start as usize - 1] != NEWLINE
        invariant
            start <= offset,
            offset <= s@.len(),
            line_start(s@, start as int) == line_start(s@, offset as int),
        decreases start,
    {
        start = start - 1;
    }
    start
}

/// The indentation (leading space and tab count) of the line containing byte `offset`.
pub fn line_indent_of(source: &str, offset: u32) -> (indent: usize)
    requires
        addressable(utf8(source)),
        offset <= utf8(source).len(),
    ensures
        indent == indent_of(utf8(source), offset as int),
{
    let start: usize = line_start_of(source, offset) as usize;
    skip_class(source.as_bytes(), start, ByteClass::InlineSpace) - start
}

/// The offset of the first byte past the leading spaces and tabs of the line at `line`, and
/// whether the line has no content.
pub fn line_probe(source: &str, line: u32) -> (probe: (u32, bool))
    requires
        addressable(utf8(source)),
        line <= utf8(source).len(),
    ensures
        probe.0 == content_start(utf8(source), line as int),
        probe.1 == is_blank(utf8(source), line as int),
        line <= probe.0 <= utf8(source).len(),
{
    let s = source.as_bytes();
    let c: usize = skip_class(s, line as usize, ByteClass::InlineSpace);
    let byte = get(s, c);
    (c as u32, byte.is_none() || byte == Some(NEWLINE))
}

/// The end of the block of lines from `line` on that are blank or indented past `min_indent`.
pub fn indented_block_end(source: &str, line: u32, min_indent: u32) -> (end: u32)
    requires
        addressable(utf8(source)),
        line <= utf8(source).len(),
    ensures
        end == block_end(utf8(source), line as int, min_indent as int),
        line <= end <= utf8(source).len(),
{
    let mut l: u32 = line;
    while (l as usize) < source.len()
        invariant
            addressable(utf8(source)),
            line <= l <= utf8(source).len(),
            block_end(utf8(source), l as int, min_indent as int) == block_end(
                utf8(source),
                line as int,
                min_indent as int,
            ),
        decreases utf8(source).len() - l,
    {
        let (content, blank) = line_probe(source, l);
        if !blank && content - l <= min_indent {
            return l;
        }
        l = next_line_start(source, l);
    }
    l
}

/// The end offset of a list item's body: lines after the marker line that are blank or indented
/// strictly past `marker_indent` belong to the item.
pub fn list_item_extent(source: &str, first_line_end: u32, marker_indent: u32) -> (end: u32)
    requires
        addressable(utf8(source)),
        first_line_end <= utf8(source).len(),
    ensures
        end == block_end(
            utf8(source),
            next_line(utf8(source), first_line_end as int),
            marker_indent as int,
        ),
        first_line_end <= end <= utf8(source).len(),
{
    indented_block_end(source, next_line_start(source, first_line_end), marker_indent)
}

} // verus!
