//! The whitespace of a body: which of its spaces and line breaks are content.
//!
//! A body is text runs and elements. Its text is cut into lines; blank edge lines, common
//! indentation and trailing spaces go, and every remaining line break stays, as a text of its own.
//! Elements pass through untouched and in order.

use vstd::prelude::*;
use crate::ascii::{NEWLINE, RETURN, SPACE, TAB};
use crate::bytes::{ascii_space, is_space};

verus! {

/// A body segment: a run of text, or an element.
#[derive(Clone, Copy)]
pub enum Seg<'a, E> {
    /// Text.
    Text(&'a [u8]),
    /// An element.
    Elem(E),
}

/// A child of a body, its whitespace settled.
pub enum Child<E> {
    /// Text.
    Text(Vec<u8>),
    /// An element.
    Elem(E),
}

/// The mathematical view of a [`Child`].
pub enum Piece<E> {
    /// Text.
    Text(Seq<u8>),
    /// An element.
    Elem(E),
}

/// A body, byte by byte: a byte of text, a line break, or an element.
#[derive(Clone, Copy)]
pub enum Mark<E> {
    /// A byte of text.
    Byte(u8),
    /// A line break.
    Break,
    /// An element.
    Elem(E),
}

impl<E> Child<E> {
    /// The piece that this child is.
    pub open spec fn piece(self) -> Piece<E> {
        match self {
            Child::Text(bytes) => Piece::Text(bytes@),
            Child::Elem(e) => Piece::Elem(e),
        }
    }
}

/// The pieces that a sequence of children is.
pub open spec fn pieces<E>(children: Seq<Child<E>>) -> Seq<Piece<E>> {
    Seq::new(children.len(), |i: int| children[i].piece())
}

/// Is the character at `i` a line or paragraph separator (U+2028, U+2029)?
pub open spec fn separator_at(t: Seq<u8>, i: int) -> bool {
    i + 2 < t.len() && t[i] == 0xe2 && t[i + 1] == 0x80 && (t[i + 2] == 0xa8 || t[i + 2] == 0xa9)
}

/// The marks of a text run from `i` on. A line feed, a carriage return and a separator break the
/// line; a carriage return right before a line feed, or at the end of the run, is part of the
/// break that follows.
pub open spec fn text_marks<E>(t: Seq<u8>, i: int) -> Seq<Mark<E>>
    decreases t.len() - i,
{
    if 0 <= i < t.len() {
        if t[i] == NEWLINE {
            seq![Mark::Break] + text_marks(t, i + 1)
        } else if t[i] == RETURN {
            if i + 1 == t.len() || t[i + 1] == NEWLINE {
                text_marks(t, i + 1)
            } else {
                seq![Mark::Break] + text_marks(t, i + 1)
            }
        } else if separator_at(t, i) {
            seq![Mark::Break] + text_marks(t, i + 3)
        } else {
            seq![Mark::Byte(t[i])] + text_marks(t, i + 1)
        }
    } else {
        Seq::empty()
    }
}

/// The marks of the segments from `k` on.
pub open spec fn body_marks<E>(segs: Seq<Seg<E>>, k: int) -> Seq<Mark<E>>
    decreases segs.len() - k,
{
    if 0 <= k < segs.len() {
        (match segs[k] {
            Seg::Text(t) => text_marks(t@, 0),
            Seg::Elem(e) => seq![Mark::Elem(e)],
        }) + body_marks(segs, k + 1)
    } else {
        Seq::empty()
    }
}

/// Is the mark at `i` a byte of white space?
pub open spec fn white_at<E>(m: Seq<Mark<E>>, i: int) -> bool {
    m[i] matches Mark::Byte(b) && is_space(b)
}

/// Is the mark at `i` a space or a tab?
pub open spec fn blank_at<E>(m: Seq<Mark<E>>, i: int) -> bool {
    m[i] matches Mark::Byte(b) && (b == SPACE || b == TAB)
}

/// Is there no content between `i` and `j`: white space only?
pub open spec fn all_white<E>(m: Seq<Mark<E>>, i: int, j: int) -> bool {
    forall|k: int| i <= k < j ==> #[trigger] white_at(m, k)
}

/// Does a body have content: an element, or a byte that is not white space?
pub open spec fn has_content<E>(m: Seq<Mark<E>>) -> bool {
    exists|k: int|
        0 <= k < m.len() && !(#[trigger] m[k] is Break) && !white_at(m, k)
}

/// The number of line breaks before `i`.
pub open spec fn breaks_before<E>(m: Seq<Mark<E>>, i: int) -> nat
    decreases i,
{
    if 0 < i <= m.len() {
        breaks_before(m, i - 1) + if m[i - 1] is Break {
            1nat
        } else {
            0nat
        }
    } else {
        0
    }
}

/// The end of the line that holds `i`: the next break before `b`, or `b`.
pub open spec fn break_from<E>(m: Seq<Mark<E>>, i: int, b: int) -> int
    decreases b - i,
{
    if 0 <= i < b && !(m[i] is Break) {
        break_from(m, i + 1, b)
    } else {
        i
    }
}

/// The start of the last line between `a` and `b`.
pub open spec fn last_line<E>(m: Seq<Mark<E>>, a: int, b: int) -> int
    decreases b - a,
{
    if a < b && !(m[b - 1] is Break) {
        last_line(m, a, b - 1)
    } else {
        b
    }
}

/// `a`, moved past the blank lines that lead the body.
pub open spec fn past_blank_lines<E>(m: Seq<Mark<E>>, a: int) -> int
    decreases m.len() - a,
{
    let e = break_from(m, a, m.len() as int);
    if 0 <= a <= e && e < m.len() && all_white(m, a, e) {
        past_blank_lines(m, e + 1)
    } else {
        a
    }
}

/// `b`, moved before the blank lines that end the body from `a` on.
pub open spec fn before_blank_lines<E>(m: Seq<Mark<E>>, a: int, b: int) -> int
    decreases b,
{
    let l = last_line(m, a, b);
    if 0 <= a < l <= b && all_white(m, l, b) {
        before_blank_lines(m, a, l - 1)
    } else {
        b
    }
}

/// What is left of a body once its edges are trimmed: where it starts and ends, and whether its
/// first line is indented like the others.
pub struct Edges {
    /// Its start.
    pub start: int,
    /// Its end.
    pub end: int,
    /// Does the first line take part in the common indentation?
    pub indents: bool,
}

/// Trim the edges. A braced body loses the one blank line after its `{`, whose next line is then an
/// indented one, and the one blank line before its `}`. Any other body loses all its edge blank
/// lines, and its first line is indented like the others.
pub open spec fn edges<E>(m: Seq<Mark<E>>, braced: bool) -> Edges {
    let len = m.len() as int;
    if braced {
        let e = break_from(m, 0, len);
        let opened = e < len && all_white(m, 0, e);
        let start = if opened {
            e + 1
        } else {
            0
        };
        let l = last_line(m, start, len);
        Edges {
            start,
            end: if start < l && all_white(m, l, len) {
                l - 1
            } else {
                len
            },
            indents: opened,
        }
    } else {
        let start = past_blank_lines(m, 0);
        Edges { start, end: before_blank_lines(m, start, len), indents: true }
    }
}

/// The length of the white space that leads the line from `i` to `j`.
pub open spec fn lead<E>(m: Seq<Mark<E>>, i: int, j: int) -> int
    decreases j - i,
{
    if i < j && white_at(m, i) {
        1 + lead(m, i + 1, j)
    } else {
        0
    }
}

/// The number of spaces and tabs that lead the line from `i` to `j`.
pub open spec fn tabs<E>(m: Seq<Mark<E>>, i: int, j: int) -> int
    decreases j - i,
{
    if i < j && blank_at(m, i) {
        1 + tabs(m, i + 1, j)
    } else {
        0
    }
}

/// The smaller indentation, where there is one.
pub open spec fn min_indent(a: Option<int>, b: Option<int>) -> Option<int> {
    match (a, b) {
        (Some(x), Some(y)) => if x <= y {
            a
        } else {
            b
        },
        (Some(x), None) => a,
        (None, _) => b,
    }
}

/// The smallest indentation of the lines with content between `i` and `b`; `counts` says whether
/// the first of them counts.
pub open spec fn common_indent<E>(m: Seq<Mark<E>>, i: int, b: int, counts: bool) -> Option<int>
    decreases b - i,
{
    let e = break_from(m, i, b);
    let here = if counts && !all_white(m, i, e) {
        Some(lead(m, i, e))
    } else {
        None
    };
    if 0 <= i <= e && e < b {
        min_indent(here, common_indent(m, e + 1, b, true))
    } else {
        here
    }
}

/// The end of the line from `i` to `j` without its trailing spaces and tabs.
pub open spec fn trimmed_end<E>(m: Seq<Mark<E>>, i: int, j: int) -> int
    decreases j - i,
{
    if i < j && blank_at(m, j - 1) {
        trimmed_end(m, i, j - 1)
    } else {
        j
    }
}

/// The end of the run of bytes that starts at `i`, not past `j`.
pub open spec fn byte_run_end<E>(m: Seq<Mark<E>>, i: int, j: int) -> int
    decreases j - i,
{
    if i < j && m[i] is Byte {
        byte_run_end(m, i + 1, j)
    } else {
        i
    }
}

/// The bytes from `i` to `j`.
pub open spec fn bytes_of<E>(m: Seq<Mark<E>>, i: int, j: int) -> Seq<u8> {
    Seq::new((j - i) as nat, |k: int| m[i + k]->Byte_0)
}

/// The pieces of the marks from `i` to `j`: bytes side by side are one text.
pub open spec fn line_pieces<E>(m: Seq<Mark<E>>, i: int, j: int) -> Seq<Piece<E>>
    decreases j - i,
{
    if i < j {
        match m[i] {
            Mark::Byte(_) => {
                let e = byte_run_end(m, i, j);
                if i < e <= j {
                    seq![Piece::Text(bytes_of(m, i, e))] + line_pieces(m, e, j)
                } else {
                    Seq::empty()
                }
            },
            Mark::Elem(e) => seq![Piece::Elem(e)] + line_pieces(m, i + 1, j),
            Mark::Break => line_pieces(m, i + 1, j),
        }
    } else {
        Seq::empty()
    }
}

/// A line break, as a piece.
pub open spec fn break_piece<E>() -> Piece<E> {
    Piece::Text(seq![NEWLINE])
}

/// The pieces of the lines from `i` to `b`. Each line loses `common` of its indentation (the first
/// only where `indents`) and its trailing spaces and tabs (in a braced body the line that the `}`
/// ends keeps them); the leftover indentation stays with the text. A break stands between every two lines.
pub open spec fn lines_pieces<E>(
    m: Seq<Mark<E>>,
    i: int,
    b: int,
    common: int,
    indents: bool,
    braced: bool,
) -> Seq<Piece<E>>
    decreases b - i,
{
    let e = break_from(m, i, b);
    let start = if indents {
        i + if tabs(m, i, e) <= common {
            tabs(m, i, e)
        } else {
            common
        }
    } else {
        i
    };
    let end = if braced && e == b && b == m.len() {
        e
    } else {
        trimmed_end(m, start, e)
    };
    let here = line_pieces(m, start, end);
    if 0 <= i <= e && e < b {
        here + seq![break_piece()] + lines_pieces(m, e + 1, b, common, true, braced)
    } else {
        here
    }
}

/// The children of a body, its whitespace settled. A body without content is one break per line
/// break where it is braced, and nothing where it is not.
pub open spec fn settled<E>(m: Seq<Mark<E>>, braced: bool) -> Seq<Piece<E>> {
    if has_content(m) {
        let edge = edges(m, braced);
        let common = match common_indent(m, edge.start, edge.end, edge.indents) {
            Some(n) => n,
            None => 0,
        };
        lines_pieces(m, edge.start, edge.end, common, edge.indents, braced)
    } else if braced {
        Seq::new(breaks_before(m, m.len() as int), |i: int| break_piece())
    } else {
        Seq::empty()
    }
}

/// A line ends at or after its start, before the end of the body.
pub proof fn break_from_bounds<E>(m: Seq<Mark<E>>, i: int, b: int)
    requires
        0 <= i <= b <= m.len(),
    ensures
        i <= break_from(m, i, b) <= b,
        break_from(m, i, b) < b ==> m[break_from(m, i, b)] is Break,
        forall|k: int| i <= k < break_from(m, i, b) ==> !(#[trigger] m[k] is Break),
    decreases b - i,
{
    if i < b && !(m[i] is Break) {
        break_from_bounds(m, i + 1, b);
    }
}

/// The last line starts between the ends of the body, at its start or after a break.
pub proof fn last_line_bounds<E>(m: Seq<Mark<E>>, a: int, b: int)
    requires
        0 <= a <= b <= m.len(),
    ensures
        a <= last_line(m, a, b) <= b,
        last_line(m, a, b) == a || m[last_line(m, a, b) - 1] is Break,
    decreases b - a,
{
    if a < b && !(m[b - 1] is Break) {
        last_line_bounds(m, a, b - 1);
    }
}

/// Append the marks of a text run.
pub fn push_text_marks<E: Copy>(out: &mut Vec<Mark<E>>, t: &[u8])
    requires
        t@.len() + 2 <= usize::MAX,
    ensures
        final(out)@ == old(out)@ + text_marks(t@, 0),
{
    let mut i: usize = 0;
    while i < t.len()
        invariant
            i <= t@.len(),
            t@.len() + 2 <= usize::MAX,
            out@ + text_marks(t@, i as int) == old(out)@ + text_marks(t@, 0),
        decreases t@.len() - i,
    {
        let ghost before = out@;
        let b: u8 = t[i];
        if b == NEWLINE {
            out.push(Mark::Break);
            i = i + 1;
            assert(before + (seq![Mark::<E>::Break] + text_marks(t@, i as int)) =~= out@
                + text_marks(t@, i as int));
        } else if b == RETURN {
            if i + 1 == t.len() || t[i + 1] == NEWLINE {
                i = i + 1;
            } else {
                out.push(Mark::Break);
                i = i + 1;
                assert(before + (seq![Mark::<E>::Break] + text_marks(t@, i as int)) =~= out@
                    + text_marks(t@, i as int));
            }
        } else if i + 2 < t.len() && b == 0xe2 && t[i + 1] == 0x80 && (t[i + 2] == 0xa8 || t[i + 2]
            == 0xa9) {
            out.push(Mark::Break);
            i = i + 3;
            assert(before + (seq![Mark::<E>::Break] + text_marks(t@, i as int)) =~= out@
                + text_marks(t@, i as int));
        } else {
            out.push(Mark::Byte(b));
            i = i + 1;
            assert(before + (seq![Mark::<E>::Byte(b)] + text_marks(t@, i as int)) =~= out@
                + text_marks(t@, i as int));
        }
    }
    assert(out@ + text_marks(t@, i as int) =~= out@);
}

/// The marks of a body.
fn marks_of<E: Copy>(segs: &[Seg<'_, E>]) -> (marks: Vec<Mark<E>>)
    requires
        forall|k: int|
            0 <= k < segs@.len() ==> (#[trigger] segs@[k] matches Seg::Text(t) ==> t@.len() + 3
                <= usize::MAX),
    ensures
        marks@ == body_marks(segs@, 0),
{
    let mut out: Vec<Mark<E>> = Vec::new();
    let mut k: usize = 0;
    assert(out@ + body_marks(segs@, 0) =~= body_marks(segs@, 0));
    while k < segs.len()
        invariant
            k <= segs@.len(),
            forall|j: int|
                0 <= j < segs@.len() ==> (#[trigger] segs@[j] matches Seg::Text(t) ==> t@.len() + 3
                    <= usize::MAX),
            out@ + body_marks(segs@, k as int) == body_marks(segs@, 0),
        decreases segs@.len() - k,
    {
        let ghost before = out@;
        match segs[k] {
            Seg::Text(t) => {
                assert(segs@[k as int] == Seg::Text::<E>(t));
                push_text_marks(&mut out, t);
                assert(before + (text_marks(t@, 0) + body_marks(segs@, k + 1)) =~= out@
                    + body_marks(segs@, k + 1));
            },
            Seg::Elem(e) => {
                out.push(Mark::Elem(e));
                assert(before + (seq![Mark::Elem(e)] + body_marks(segs@, k + 1)) =~= out@
                    + body_marks(segs@, k + 1));
            },
        }
        k = k + 1;
    }
    assert(out@ + body_marks(segs@, k as int) =~= out@);
    out
}

/// Is the mark at `i` a byte of white space?
fn is_white<E: Copy>(m: &Vec<Mark<E>>, i: usize) -> (yes: bool)
    requires
        i < m@.len(),
    ensures
        yes == white_at(m@, i as int),
{
    match m[i] {
        Mark::Byte(b) => ascii_space(b),
        _ => false,
    }
}

/// Is the mark at `i` a space or a tab?
fn is_blank<E: Copy>(m: &Vec<Mark<E>>, i: usize) -> (yes: bool)
    requires
        i < m@.len(),
    ensures
        yes == blank_at(m@, i as int),
{
    match m[i] {
        Mark::Byte(b) => b == SPACE || b == TAB,
        _ => false,
    }
}

/// Is the mark at `i` a line break?
fn is_break<E: Copy>(m: &Vec<Mark<E>>, i: usize) -> (yes: bool)
    requires
        i < m@.len(),
    ensures
        yes == (m@[i as int] is Break),
{
    match m[i] {
        Mark::Break => true,
        _ => false,
    }
}

/// Is the mark at `i` a byte?
fn is_byte<E: Copy>(m: &Vec<Mark<E>>, i: usize) -> (yes: bool)
    requires
        i < m@.len(),
    ensures
        yes == (m@[i as int] is Byte),
{
    match m[i] {
        Mark::Byte(_) => true,
        _ => false,
    }
}

/// Is there no content between `i` and `j`?
fn line_is_blank<E: Copy>(m: &Vec<Mark<E>>, i: usize, j: usize) -> (yes: bool)
    requires
        i <= j <= m@.len(),
    ensures
        yes == all_white(m@, i as int, j as int),
{
    let mut k: usize = i;
    while k < j
        invariant
            i <= k <= j <= m@.len(),
            all_white(m@, i as int, k as int),
        decreases j - k,
    {
        if !is_white(m, k) {
            assert(!white_at(m@, k as int));
            return false;
        }
        k = k + 1;
    }
    true
}

/// Does the body have content?
fn any_content<E: Copy>(m: &Vec<Mark<E>>) -> (yes: bool)
    ensures
        yes == has_content(m@),
{
    let mut k: usize = 0;
    while k < m.len()
        invariant
            k <= m@.len(),
            forall|j: int| 0 <= j < k ==> #[trigger] m@[j] is Break || white_at(m@, j),
        decreases m@.len() - k,
    {
        if !is_break(m, k) && !is_white(m, k) {
            assert(!(m@[k as int] is Break) && !white_at(m@, k as int));
            return true;
        }
        k = k + 1;
    }
    false
}

/// The end of the line that holds `i`.
fn line_end_from<E: Copy>(m: &Vec<Mark<E>>, i: usize, b: usize) -> (e: usize)
    requires
        i <= b <= m@.len(),
    ensures
        e == break_from(m@, i as int, b as int),
        i <= e <= b,
{
    let mut k: usize = i;
    while k < b && !is_break(m, k)
        invariant
            i <= k <= b <= m@.len(),
            break_from(m@, k as int, b as int) == break_from(m@, i as int, b as int),
        decreases b - k,
    {
        k = k + 1;
    }
    k
}

/// The start of the last line between `a` and `b`.
fn last_line_start<E: Copy>(m: &Vec<Mark<E>>, a: usize, b: usize) -> (l: usize)
    requires
        a <= b <= m@.len(),
    ensures
        l == last_line(m@, a as int, b as int),
        a <= l <= b,
{
    let mut k: usize = b;
    while a < k && !is_break(m, k - 1)
        invariant
            a <= k <= b <= m@.len(),
            last_line(m@, a as int, k as int) == last_line(m@, a as int, b as int),
        decreases k,
    {
        k = k - 1;
    }
    k
}

/// Trim the edges of a body: its start, its end, and whether its first line is indented.
fn trim_edges<E: Copy>(m: &Vec<Mark<E>>, braced: bool) -> (edge: (usize, usize, bool))
    ensures
        (Edges { start: edge.0 as int, end: edge.1 as int, indents: edge.2 }) == edges(m@, braced),
        edge.0 <= edge.1 <= m@.len(),
{
    let len: usize = m.len();
    if braced {
        let e: usize = line_end_from(m, 0, len);
        let opened = e < len && line_is_blank(m, 0, e);
        let start: usize = if opened {
            e + 1
        } else {
            0
        };
        let l: usize = last_line_start(m, start, len);
        proof {
            last_line_bounds(m@, start as int, len as int);
        }
        let end: usize = if start < l && line_is_blank(m, l, len) {
            l - 1
        } else {
            len
        };
        return (start, end, opened);
    }
    let mut start: usize = 0;
    loop
        invariant_except_break
            len == m@.len(),
            start <= len,
            past_blank_lines(m@, start as int) == past_blank_lines(m@, 0),
        ensures
            len == m@.len(),
            start <= len,
            start == past_blank_lines(m@, 0),
        decreases len - start,
    {
        let e: usize = line_end_from(m, start, len);
        if !(e < len && line_is_blank(m, start, e)) {
            break ;
        }
        start = e + 1;
    }
    let mut end: usize = len;
    loop
        invariant_except_break
            len == m@.len(),
            start <= end <= len,
            before_blank_lines(m@, start as int, end as int) == before_blank_lines(
                m@,
                start as int,
                len as int,
            ),
        ensures
            len == m@.len(),
            start <= end <= len,
            end == before_blank_lines(m@, start as int, len as int),
        decreases end,
    {
        let l: usize = last_line_start(m, start, end);
        if !(start < l && line_is_blank(m, l, end)) {
            break ;
        }
        end = l - 1;
    }
    (start, end, true)
}

/// The length of the white space that leads the line from `i` to `j`.
fn leading_ws_len<E: Copy>(m: &Vec<Mark<E>>, i: usize, j: usize) -> (n: usize)
    requires
        i <= j <= m@.len(),
    ensures
        n == lead(m@, i as int, j as int),
        n <= j - i,
{
    let mut k: usize = i;
    while k < j && is_white(m, k)
        invariant
            i <= k <= j <= m@.len(),
            lead(m@, i as int, j as int) == (k - i) + lead(m@, k as int, j as int),
        decreases j - k,
    {
        k = k + 1;
    }
    k - i
}

/// The number of spaces and tabs that lead the line from `i` to `j`.
fn leading_tabs<E: Copy>(m: &Vec<Mark<E>>, i: usize, j: usize) -> (n: usize)
    requires
        i <= j <= m@.len(),
    ensures
        n == tabs(m@, i as int, j as int),
        n <= j - i,
{
    let mut k: usize = i;
    while k < j && is_blank(m, k)
        invariant
            i <= k <= j <= m@.len(),
            tabs(m@, i as int, j as int) == (k - i) + tabs(m@, k as int, j as int),
        decreases j - k,
    {
        k = k + 1;
    }
    k - i
}

/// The smaller indentation is the same however three are taken together.
proof fn min_indent_assoc(a: Option<int>, b: Option<int>, c: Option<int>)
    ensures
        min_indent(min_indent(a, b), c) == min_indent(a, min_indent(b, c)),
{
}

/// The smallest indentation of the lines with content between `a` and `b`.
fn find_common_indent<E: Copy>(m: &Vec<Mark<E>>, a: usize, b: usize, counts: bool) -> (n: Option<
    usize,
>)
    requires
        a <= b <= m@.len(),
    ensures
        match n {
            Some(k) => common_indent(m@, a as int, b as int, counts) == Some(k as int),
            None => common_indent(m@, a as int, b as int, counts) is None,
        },
{
    let mut i: usize = a;
    let mut first: bool = counts;
    let mut best: Option<usize> = None;
    let ghost mut so_far: Option<int> = None;
    loop
        invariant
            a <= i <= b <= m@.len(),
            so_far == (match best {
                Some(k) => Some(k as int),
                None => None::<int>,
            }),
            min_indent(so_far, common_indent(m@, i as int, b as int, first)) == common_indent(
                m@,
                a as int,
                b as int,
                counts,
            ),
        decreases b - i,
    {
        let e: usize = line_end_from(m, i, b);
        let ghost here: Option<int> = if first && !all_white(m@, i as int, e as int) {
            Some(lead(m@, i as int, e as int))
        } else {
            None
        };
        if first && !line_is_blank(m, i, e) {
            let n: usize = leading_ws_len(m, i, e);
            best = match best {
                Some(k) => if k <= n {
                    Some(k)
                } else {
                    Some(n)
                },
                None => Some(n),
            };
        }
        proof {
            if e < b {
                min_indent_assoc(so_far, here, common_indent(m@, e + 1, b as int, true));
            }
            so_far = min_indent(so_far, here);
        }
        if e >= b {
            return best;
        }
        i = e + 1;
        first = true;
    }
}

/// Append a line break.
fn push_break<E: Copy>(out: &mut Vec<Child<E>>)
    ensures
        pieces(final(out)@) == pieces(old(out)@).push(break_piece()),
{
    let mut text: Vec<u8> = Vec::new();
    text.push(NEWLINE);
    assert(text@ =~= seq![NEWLINE]);
    out.push(Child::Text(text));
    assert(pieces(out@) =~= pieces(old(out)@).push(break_piece()));
}

/// Append the marks from `a` to `j` as children: bytes side by side make one text.
fn emit_line<E: Copy>(out: &mut Vec<Child<E>>, m: &Vec<Mark<E>>, a: usize, j: usize)
    requires
        a <= j <= m@.len(),
    ensures
        pieces(final(out)@) == pieces(old(out)@) + line_pieces(m@, a as int, j as int),
{
    let mut i: usize = a;
    while i < j
        invariant
            a <= i <= j <= m@.len(),
            pieces(out@) + line_pieces(m@, i as int, j as int) == pieces(old(out)@) + line_pieces(
                m@,
                a as int,
                j as int,
            ),
        decreases j - i,
    {
        let ghost before = pieces(out@);
        match m[i] {
            Mark::Byte(_) => {
                let mut text: Vec<u8> = Vec::new();
                let mut e: usize = i;
                while e < j && is_byte(m, e)
                    invariant
                        i <= e <= j <= m@.len(),
                        text@.len() == e - i,
                        forall|k: int| i <= k < e ==> #[trigger] m@[k] is Byte,
                        forall|k: int| 0 <= k < e - i ==> text@[k] == (#[trigger] m@[i + k])->Byte_0,
                        byte_run_end(m@, e as int, j as int) == byte_run_end(
                            m@,
                            i as int,
                            j as int,
                        ),
                    decreases j - e,
                {
                    if let Mark::Byte(b) = m[e] {
                        text.push(b);
                    }
                    e = e + 1;
                }
                let ghost t = text@;
                proof {
                    assert(t =~= bytes_of(m@, i as int, e as int));
                }
                out.push(Child::Text(text));
                assert(pieces(out@) =~= before.push(Piece::Text(t)));
                assert(before + (seq![Piece::Text(t)] + line_pieces(m@, e as int, j as int))
                    =~= pieces(out@) + line_pieces(m@, e as int, j as int));
                i = e;
            },
            Mark::Elem(e) => {
                out.push(Child::Elem(e));
                assert(pieces(out@) =~= before.push(Piece::Elem(e)));
                assert(before + (seq![Piece::Elem(e)] + line_pieces(m@, i + 1, j as int))
                    =~= pieces(out@) + line_pieces(m@, i + 1, j as int));
                i = i + 1;
            },
            Mark::Break => {
                i = i + 1;
            },
        }
    }
    assert(pieces(out@) + line_pieces(m@, i as int, j as int) =~= pieces(out@));
}

/// The end of the line from `i` to `j` without its trailing spaces and tabs.
fn trim_end<E: Copy>(m: &Vec<Mark<E>>, i: usize, j: usize) -> (e: usize)
    requires
        i <= j <= m@.len(),
    ensures
        e == trimmed_end(m@, i as int, j as int),
        i <= e <= j,
{
    let mut k: usize = j;
    while i < k && is_blank(m, k - 1)
        invariant
            i <= k <= j <= m@.len(),
            trimmed_end(m@, i as int, k as int) == trimmed_end(m@, i as int, j as int),
        decreases k,
    {
        k = k - 1;
    }
    k
}

/// Settle the whitespace of a body of segments.
pub fn lower<E: Copy>(segs: &[Seg<'_, E>], is_brace: bool) -> (children: Vec<Child<E>>)
    requires
        forall|k: int|
            0 <= k < segs@.len() ==> (#[trigger] segs@[k] matches Seg::Text(t) ==> t@.len() + 3
                <= usize::MAX),
    ensures
        pieces(children@) == settled(body_marks(segs@, 0), is_brace),
{
    settle(&marks_of(segs), is_brace)
}

/// Settle the whitespace of a body of marks.
pub fn settle<E: Copy>(m: &Vec<Mark<E>>, is_brace: bool) -> (children: Vec<Child<E>>)
    ensures
        pieces(children@) == settled(m@, is_brace),
{
    let mut out: Vec<Child<E>> = Vec::new();
    assert(pieces(out@) =~= Seq::<Piece<E>>::empty());
    if !any_content(m) {
        if !is_brace {
            return out;
        }
        let mut k: usize = 0;
        while k < m.len()
            invariant
                k <= m@.len(),
                pieces(out@) == Seq::new(
                    breaks_before(m@, k as int),
                    |i: int| break_piece::<E>(),
                ),
            decreases m@.len() - k,
        {
            let ghost before = pieces(out@);
            if is_break(m, k) {
                push_break(&mut out);
                assert(pieces(out@) =~= Seq::new(
                    breaks_before(m@, k + 1),
                    |i: int| break_piece::<E>(),
                ));
            }
            k = k + 1;
        }
        return out;
    }
    let (start, end, indents) = trim_edges(m, is_brace);
    let common: usize = match find_common_indent(m, start, end, indents) {
        Some(n) => n,
        None => 0,
    };
    let ghost whole = lines_pieces(
        m@,
        start as int,
        end as int,
        common as int,
        indents,
        is_brace,
    );
    let mut i: usize = start;
    let mut indented: bool = indents;
    assert(pieces(out@) + whole =~= whole);
    loop
        invariant_except_break
            start <= i <= end <= m@.len(),
            pieces(out@) + lines_pieces(
                m@,
                i as int,
                end as int,
                common as int,
                indented,
                is_brace,
            ) == whole,
        ensures
            pieces(out@) == whole,
        decreases end - i,
    {
        let ghost before = pieces(out@);
        let e: usize = line_end_from(m, i, end);
        let from: usize = if indented {
            let t: usize = leading_tabs(m, i, e);
            i + if t <= common {
                t
            } else {
                common
            }
        } else {
            i
        };
        let to: usize = if is_brace && e == end && end == m.len() {
            e
        } else {
            trim_end(m, from, e)
        };
        emit_line(&mut out, m, from, to);
        if e >= end {
            break ;
        }
        let ghost here = line_pieces(m@, from as int, to as int);
        push_break(&mut out);
        i = e + 1;
        indented = true;
        proof {
            let rest = lines_pieces(m@, i as int, end as int, common as int, true, is_brace);
            assert(pieces(out@) =~= before + here + seq![break_piece::<E>()]);
            assert(before + (here + seq![break_piece::<E>()] + rest) =~= pieces(out@) + rest);
        }
    }
    out
}

/// The elements among the marks from `i` to `j`, in order.
pub open spec fn elements<E>(m: Seq<Mark<E>>, i: int, j: int) -> Seq<E>
    decreases j - i,
{
    if i < j {
        (match m[i] {
            Mark::Elem(e) => seq![e],
            _ => Seq::empty(),
        }) + elements(m, i + 1, j)
    } else {
        Seq::empty()
    }
}

/// The elements among pieces, in order.
pub open spec fn piece_elements<E>(ps: Seq<Piece<E>>) -> Seq<E>
    decreases ps.len(),
{
    if ps.len() > 0 {
        (match ps[0] {
            Piece::Elem(e) => seq![e],
            _ => Seq::empty(),
        }) + piece_elements(ps.drop_first())
    } else {
        Seq::empty()
    }
}

/// The number of line breaks from `i` to `j`.
pub open spec fn breaks_between<E>(m: Seq<Mark<E>>, i: int, j: int) -> int
    decreases j - i,
{
    if i < j {
        (if m[i] is Break {
            1int
        } else {
            0int
        }) + breaks_between(m, i + 1, j)
    } else {
        0
    }
}

/// The number of pieces that are a line break.
pub open spec fn piece_breaks<E>(ps: Seq<Piece<E>>) -> int
    decreases ps.len(),
{
    if ps.len() > 0 {
        (if ps[0] == break_piece::<E>() {
            1int
        } else {
            0int
        }) + piece_breaks(ps.drop_first())
    } else {
        0
    }
}

/// Marks that hold a line break only as a break, never as a byte.
pub open spec fn breaks_apart<E>(m: Seq<Mark<E>>) -> bool {
    forall|k: int| 0 <= k < m.len() ==> #[trigger] m[k] != Mark::<E>::Byte(NEWLINE)
}

/// Elements and breaks of two runs of pieces are those of the first and those of the second.
proof fn pieces_split<E>(a: Seq<Piece<E>>, b: Seq<Piece<E>>)
    ensures
        piece_elements(a + b) == piece_elements(a) + piece_elements(b),
        piece_breaks(a + b) == piece_breaks(a) + piece_breaks(b),
    decreases a.len(),
{
    if a.len() > 0 {
        assert((a + b).drop_first() =~= a.drop_first() + b);
        pieces_split(a.drop_first(), b);
        assert(piece_elements(a + b) =~= piece_elements(a) + piece_elements(b));
    } else {
        assert(a + b =~= b);
        assert(piece_elements(a + b) =~= piece_elements(a) + piece_elements(b));
    }
}

/// Elements and breaks from `i` to `j` are those up to `k` and those from `k` on.
proof fn marks_split<E>(m: Seq<Mark<E>>, i: int, k: int, j: int)
    requires
        i <= k <= j,
    ensures
        elements(m, i, j) == elements(m, i, k) + elements(m, k, j),
        breaks_between(m, i, j) == breaks_between(m, i, k) + breaks_between(m, k, j),
    decreases k - i,
{
    if i < k {
        marks_split(m, i + 1, k, j);
    }
    assert(elements(m, i, j) =~= elements(m, i, k) + elements(m, k, j));
}

/// White space holds no elements and no breaks.
proof fn white_holds_nothing<E>(m: Seq<Mark<E>>, i: int, j: int)
    requires
        all_white(m, i, j),
    ensures
        elements(m, i, j) == Seq::<E>::empty(),
        breaks_between(m, i, j) == 0,
    decreases j - i,
{
    if i < j {
        assert(white_at(m, i));
        white_holds_nothing(m, i + 1, j);
        assert(elements(m, i, j) =~= Seq::<E>::empty());
    }
}

/// One piece on its own.
proof fn one_piece<E>(p: Piece<E>)
    ensures
        piece_elements(seq![p]) == (match p {
            Piece::Elem(e) => seq![e],
            _ => Seq::<E>::empty(),
        }),
        piece_breaks(seq![p]) == (if p == break_piece::<E>() {
            1int
        } else {
            0int
        }),
{
    assert(seq![p].drop_first() =~= Seq::<Piece<E>>::empty());
    assert(piece_elements(Seq::<Piece<E>>::empty()) =~= Seq::<E>::empty());
    assert(piece_breaks(Seq::<Piece<E>>::empty()) == 0);
    assert(piece_elements(seq![p]) =~= match p {
        Piece::Elem(e) => seq![e],
        _ => Seq::<E>::empty(),
    });
}

/// A run of bytes holds no elements and no breaks.
proof fn bytes_hold_nothing<E>(m: Seq<Mark<E>>, i: int, j: int)
    requires
        0 <= i <= j <= m.len(),
    ensures
        i <= byte_run_end(m, i, j) <= j,
        elements(m, i, byte_run_end(m, i, j)) == Seq::<E>::empty(),
        breaks_between(m, i, byte_run_end(m, i, j)) == 0,
        forall|k: int| i <= k < byte_run_end(m, i, j) ==> #[trigger] m[k] is Byte,
    decreases j - i,
{
    if i < j && m[i] is Byte {
        bytes_hold_nothing(m, i + 1, j);
        assert(elements(m, i, byte_run_end(m, i, j)) =~= Seq::<E>::empty());
    }
}

/// A line without breaks keeps its elements, and none of its pieces is a break.
proof fn line_keeps<E>(m: Seq<Mark<E>>, i: int, j: int)
    requires
        0 <= i <= j <= m.len(),
        breaks_apart(m),
    ensures
        piece_elements(line_pieces(m, i, j)) == elements(m, i, j),
        piece_breaks(line_pieces(m, i, j)) == 0,
    decreases j - i,
{
    if i < j {
        match m[i] {
            Mark::Byte(_) => {
                let e = byte_run_end(m, i, j);
                bytes_hold_nothing(m, i, j);
                assert(i < e) by {
                    bytes_hold_nothing(m, i + 1, j);
                }
                let text = Piece::<E>::Text(bytes_of(m, i, e));
                assert(text != break_piece::<E>()) by {
                    if text == break_piece::<E>() {
                        assert(bytes_of(m, i, e)[0] == NEWLINE);
                        assert(m[i] == Mark::<E>::Byte(NEWLINE));
                    }
                }
                one_piece(text);
                line_keeps(m, e, j);
                pieces_split(seq![text], line_pieces(m, e, j));
                marks_split(m, i, e, j);
                assert(piece_elements(line_pieces(m, i, j)) =~= elements(m, i, j));
            },
            Mark::Elem(e) => {
                one_piece(Piece::Elem(e));
                line_keeps(m, i + 1, j);
                pieces_split(seq![Piece::Elem(e)], line_pieces(m, i + 1, j));
            },
            Mark::Break => {
                line_keeps(m, i + 1, j);
                assert(elements(m, i, j) =~= elements(m, i + 1, j));
            },
        }
    } else {
        assert(piece_elements(Seq::<Piece<E>>::empty()) =~= Seq::<E>::empty());
    }
}

/// The indentation of a line is white.
pub proof fn tabs_are_white<E>(m: Seq<Mark<E>>, i: int, j: int)
    requires
        i <= j,
    ensures
        0 <= tabs(m, i, j) <= j - i,
        all_white(m, i, i + tabs(m, i, j)),
    decreases j - i,
{
    if i < j && blank_at(m, i) {
        tabs_are_white(m, i + 1, j);
        assert forall|k: int| i <= k < i + tabs(m, i, j) implies #[trigger] white_at(m, k) by {
            if k > i {
                assert(i + 1 <= k < i + 1 + tabs(m, i + 1, j));
            }
        }
    }
}

/// What is trimmed off the end of a line is white.
pub proof fn trimming_is_white<E>(m: Seq<Mark<E>>, i: int, j: int)
    requires
        i <= j,
    ensures
        i <= trimmed_end(m, i, j) <= j,
        all_white(m, trimmed_end(m, i, j), j),
    decreases j - i,
{
    if i < j && blank_at(m, j - 1) {
        trimming_is_white(m, i, j - 1);
        assert forall|k: int| trimmed_end(m, i, j) <= k < j implies #[trigger] white_at(m, k) by {
            if k < j - 1 {
                assert(trimmed_end(m, i, j - 1) <= k < j - 1);
            }
        }
    }
}

/// The lines of a body keep its elements, and a break for each break between them.
proof fn lines_keep<E>(
    m: Seq<Mark<E>>,
    i: int,
    b: int,
    common: int,
    indents: bool,
    braced: bool,
)
    requires
        0 <= i <= b <= m.len(),
        0 <= common,
        breaks_apart(m),
    ensures
        piece_elements(lines_pieces(m, i, b, common, indents, braced)) == elements(m, i, b),
        piece_breaks(lines_pieces(m, i, b, common, indents, braced)) == breaks_between(m, i, b),
    decreases b - i,
{
    let e = break_from(m, i, b);
    break_from_bounds(m, i, b);
    tabs_are_white(m, i, e);
    let cut = if tabs(m, i, e) <= common {
        tabs(m, i, e)
    } else {
        common
    };
    let start = if indents {
        i + cut
    } else {
        i
    };
    trimming_is_white(m, start, e);
    let end = if braced && e == b && b == m.len() {
        e
    } else {
        trimmed_end(m, start, e)
    };
    let here = line_pieces(m, start, end);
    assert(all_white(m, i, start));
    assert(all_white(m, end, e));
    white_holds_nothing(m, i, start);
    white_holds_nothing(m, end, e);
    marks_split(m, i, start, e);
    marks_split(m, start, end, e);
    line_keeps(m, start, end);
    assert(elements(m, i, e) =~= elements(m, start, end));
    no_breaks(m, i, e);
    if e < b {
        let rest = lines_pieces(m, e + 1, b, common, true, braced);
        lines_keep(m, e + 1, b, common, true, braced);
        one_piece(break_piece::<E>());
        pieces_split(here, seq![break_piece::<E>()]);
        pieces_split(here + seq![break_piece::<E>()], rest);
        marks_split(m, i, e, b);
        assert(elements(m, e, b) =~= elements(m, e + 1, b));
        assert(piece_elements(lines_pieces(m, i, b, common, indents, braced)) =~= elements(
            m,
            i,
            b,
        ));
    }
}

/// A stretch without breaks counts none.
proof fn no_breaks<E>(m: Seq<Mark<E>>, i: int, j: int)
    requires
        forall|k: int| i <= k < j ==> !(#[trigger] m[k] is Break),
    ensures
        breaks_between(m, i, j) == 0,
    decreases j - i,
{
    if i < j {
        no_breaks(m, i + 1, j);
    }
}

/// The blank lines that lead a body hold no elements.
proof fn leading_blank_lines<E>(m: Seq<Mark<E>>, a: int)
    requires
        0 <= a <= m.len(),
    ensures
        a <= past_blank_lines(m, a) <= m.len(),
        elements(m, a, past_blank_lines(m, a)) == Seq::<E>::empty(),
    decreases m.len() - a,
{
    let len = m.len() as int;
    let e = break_from(m, a, len);
    break_from_bounds(m, a, len);
    if e < len && all_white(m, a, e) {
        leading_blank_lines(m, e + 1);
        white_holds_nothing(m, a, e);
        let p = past_blank_lines(m, a);
        marks_split(m, a, e, p);
        marks_split(m, e, e + 1, p);
        assert(elements(m, e, e + 1) =~= Seq::<E>::empty());
        assert(elements(m, a, p) =~= Seq::<E>::empty());
    }
}

/// The blank lines that end a body hold no elements.
proof fn trailing_blank_lines<E>(m: Seq<Mark<E>>, a: int, b: int)
    requires
        0 <= a <= b <= m.len(),
    ensures
        a <= before_blank_lines(m, a, b) <= b,
        elements(m, before_blank_lines(m, a, b), b) == Seq::<E>::empty(),
    decreases b,
{
    let l = last_line(m, a, b);
    last_line_bounds(m, a, b);
    if a < l && all_white(m, l, b) {
        trailing_blank_lines(m, a, l - 1);
        white_holds_nothing(m, l, b);
        let p = before_blank_lines(m, a, b);
        marks_split(m, p, l - 1, b);
        marks_split(m, l - 1, l, b);
        assert(elements(m, l - 1, l) =~= Seq::<E>::empty());
        assert(elements(m, p, b) =~= Seq::<E>::empty());
    }
}

/// The edges of a body hold no elements.
proof fn edges_hold_nothing<E>(m: Seq<Mark<E>>, braced: bool)
    ensures
        ({
            let edge = edges(m, braced);
            &&& 0 <= edge.start <= edge.end <= m.len()
            &&& elements(m, 0, edge.start) == Seq::<E>::empty()
            &&& elements(m, edge.end, m.len() as int) == Seq::<E>::empty()
        }),
{
    let len = m.len() as int;
    let edge = edges(m, braced);
    if braced {
        let e = break_from(m, 0, len);
        break_from_bounds(m, 0, len);
        if e < len && all_white(m, 0, e) {
            white_holds_nothing(m, 0, e);
            marks_split(m, 0, e, e + 1);
            assert(m[e] is Break);
            assert(elements(m, e + 1, e + 1) =~= Seq::<E>::empty());
            assert(elements(m, e, e + 1) =~= Seq::<E>::empty());
        }
        assert(elements(m, 0, edge.start) =~= Seq::<E>::empty());
        let l = last_line(m, edge.start, len);
        last_line_bounds(m, edge.start, len);
        if edge.start < l && all_white(m, l, len) {
            white_holds_nothing(m, l, len);
            marks_split(m, l - 1, l, len);
            assert(elements(m, l - 1, l) =~= Seq::<E>::empty());
        }
        assert(elements(m, edge.end, len) =~= Seq::<E>::empty());
    } else {
        leading_blank_lines(m, 0);
        trailing_blank_lines(m, edge.start, len);
    }
}

/// The indentation that lines share is not negative.
pub proof fn common_indent_bounds<E>(m: Seq<Mark<E>>, i: int, b: int, counts: bool)
    ensures
        common_indent(m, i, b, counts) matches Some(n) ==> 0 <= n,
    decreases b - i,
{
    let e = break_from(m, i, b);
    lead_bounds(m, i, e);
    if 0 <= i <= e && e < b {
        common_indent_bounds(m, e + 1, b, true);
    }
}

/// A line is not led by less than nothing.
proof fn lead_bounds<E>(m: Seq<Mark<E>>, i: int, j: int)
    ensures
        0 <= lead(m, i, j),
    decreases j - i,
{
    if i < j && white_at(m, i) {
        lead_bounds(m, i + 1, j);
    }
}

/// A body without content holds no elements.
proof fn contentless_holds_nothing<E>(m: Seq<Mark<E>>, i: int)
    requires
        0 <= i <= m.len(),
        !has_content(m),
    ensures
        elements(m, i, m.len() as int) == Seq::<E>::empty(),
    decreases m.len() - i,
{
    if i < m.len() {
        contentless_holds_nothing(m, i + 1);
        assert(m[i] is Break || white_at(m, i));
        assert(elements(m, i, m.len() as int) =~= Seq::<E>::empty());
    }
}

/// Breaks alone hold no elements.
proof fn breaks_hold_nothing<E>(ps: Seq<Piece<E>>)
    requires
        forall|i: int| 0 <= i < ps.len() ==> #[trigger] ps[i] == break_piece::<E>(),
    ensures
        piece_elements(ps) == Seq::<E>::empty(),
        piece_breaks(ps) == ps.len(),
    decreases ps.len(),
{
    if ps.len() > 0 {
        breaks_hold_nothing(ps.drop_first());
        assert(piece_elements(ps) =~= Seq::<E>::empty());
    }
}

/// Settling the white space of a body keeps every element, in order.
pub proof fn elements_are_kept<E>(m: Seq<Mark<E>>, braced: bool)
    requires
        breaks_apart(m),
    ensures
        piece_elements(settled(m, braced)) == elements(m, 0, m.len() as int),
{
    let len = m.len() as int;
    if has_content(m) {
        let edge = edges(m, braced);
        edges_hold_nothing(m, braced);
        common_indent_bounds(m, edge.start, edge.end, edge.indents);
        let common = match common_indent(m, edge.start, edge.end, edge.indents) {
            Some(n) => n,
            None => 0,
        };
        lines_keep(m, edge.start, edge.end, common, edge.indents, braced);
        marks_split(m, 0, edge.start, len);
        marks_split(m, edge.start, edge.end, len);
        assert(piece_elements(settled(m, braced)) =~= elements(m, 0, len));
    } else {
        contentless_holds_nothing(m, 0);
        breaks_hold_nothing(settled(m, braced));
    }
}

/// Line breaks are never run together: settling a body leaves one break for each line break
/// between its edges, so that a blank line stays two breaks. A braced body of nothing but white
/// space keeps all its breaks.
pub proof fn breaks_are_not_joined<E>(m: Seq<Mark<E>>, braced: bool)
    requires
        breaks_apart(m),
    ensures
        has_content(m) ==> piece_breaks(settled(m, braced)) == breaks_between(
            m,
            edges(m, braced).start,
            edges(m, braced).end,
        ),
        !has_content(m) && braced ==> piece_breaks(settled(m, braced)) == breaks_before(
            m,
            m.len() as int,
        ),
{
    if has_content(m) {
        let edge = edges(m, braced);
        edges_hold_nothing(m, braced);
        common_indent_bounds(m, edge.start, edge.end, edge.indents);
        let common = match common_indent(m, edge.start, edge.end, edge.indents) {
            Some(n) => n,
            None => 0,
        };
        lines_keep(m, edge.start, edge.end, common, edge.indents, braced);
    } else {
        breaks_hold_nothing(settled(m, braced));
    }
}

/// The marks of a text run hold a line feed only as a break.
pub proof fn text_breaks_apart<E>(t: Seq<u8>, i: int)
    requires
        0 <= i,
    ensures
        breaks_apart(text_marks::<E>(t, i)),
    decreases t.len() - i,
{
    if i < t.len() {
        if separator_at(t, i) {
            text_breaks_apart::<E>(t, i + 3);
        }
        text_breaks_apart::<E>(t, i + 1);
    }
}

/// The marks of a body hold a line feed only as a break.
pub proof fn body_breaks_apart<E>(segs: Seq<Seg<E>>, k: int)
    requires
        0 <= k,
    ensures
        breaks_apart(body_marks(segs, k)),
    decreases segs.len() - k,
{
    if k < segs.len() {
        if let Seg::Text(t) = segs[k] {
            text_breaks_apart::<E>(t@, 0);
        }
        body_breaks_apart(segs, k + 1);
    }
}

/// Marks of a text run hold no elements.
pub proof fn text_holds_no_elements<E>(t: Seq<u8>, i: int, j: int)
    requires
        0 <= i,
        0 <= j <= text_marks::<E>(t, i).len(),
    ensures
        elements(text_marks::<E>(t, i), j, text_marks::<E>(t, i).len() as int) == Seq::<E>::empty(),
    decreases text_marks::<E>(t, i).len() - j,
{
    let m = text_marks::<E>(t, i);
    if j < m.len() {
        text_is_no_element::<E>(t, i, j);
        text_holds_no_elements::<E>(t, i, j + 1);
        assert(elements(m, j, m.len() as int) =~= Seq::<E>::empty());
    }
}

/// No mark of a text run is an element.
proof fn text_is_no_element<E>(t: Seq<u8>, i: int, j: int)
    requires
        0 <= i,
        0 <= j < text_marks::<E>(t, i).len(),
    ensures
        !(text_marks::<E>(t, i)[j] is Elem),
    decreases t.len() - i,
{
    if i < t.len() {
        let step: int = if t[i] == NEWLINE || t[i] == RETURN || !separator_at(t, i) {
            1
        } else {
            3
        };
        let rest = text_marks::<E>(t, i + step);
        let gone = text_marks::<E>(t, i).len() - rest.len();
        if j >= gone {
            text_is_no_element::<E>(t, i + step, j - gone);
            assert(text_marks::<E>(t, i)[j] == rest[j - gone]);
        }
    }
}

/// Elements of marks behind others are those of the first and those of the second.
pub proof fn joined_elements<E>(a: Seq<Mark<E>>, b: Seq<Mark<E>>, i: int)
    requires
        0 <= i <= a.len(),
    ensures
        elements(a + b, i, (a + b).len() as int) == elements(a, i, a.len() as int) + elements(
            b,
            0,
            b.len() as int,
        ),
    decreases a.len() - i,
{
    let all = a + b;
    if i < a.len() {
        joined_elements(a, b, i + 1);
        assert(elements(all, i, all.len() as int) =~= elements(a, i, a.len() as int) + elements(
            b,
            0,
            b.len() as int,
        ));
    } else {
        shifted_elements(a, b, 0);
        assert(elements(a, i, a.len() as int) =~= Seq::<E>::empty());
        assert(elements(all, i, all.len() as int) =~= elements(a, i, a.len() as int) + elements(
            b,
            0,
            b.len() as int,
        ));
    }
}

/// Elements of marks that stand behind others.
proof fn shifted_elements<E>(a: Seq<Mark<E>>, b: Seq<Mark<E>>, k: int)
    requires
        0 <= k <= b.len(),
    ensures
        elements(a + b, a.len() + k, (a + b).len() as int) == elements(b, k, b.len() as int),
    decreases b.len() - k,
{
    if k < b.len() {
        shifted_elements(a, b, k + 1);
        assert((a + b)[a.len() + k] == b[k]);
    }
}

/// The elements among segments from `k` on, in order.
pub open spec fn seg_elements<E>(segs: Seq<Seg<E>>, k: int) -> Seq<E>
    decreases segs.len() - k,
{
    if 0 <= k < segs.len() {
        (match segs[k] {
            Seg::Elem(e) => seq![e],
            Seg::Text(_) => Seq::empty(),
        }) + seg_elements(segs, k + 1)
    } else {
        Seq::empty()
    }
}

/// The elements among the marks of a body are those of its segments.
proof fn body_elements<E>(segs: Seq<Seg<E>>, k: int)
    requires
        0 <= k,
    ensures
        elements(body_marks(segs, k), 0, body_marks(segs, k).len() as int) == seg_elements(segs, k),
    decreases segs.len() - k,
{
    if k < segs.len() {
        let rest = body_marks(segs, k + 1);
        body_elements(segs, k + 1);
        match segs[k] {
            Seg::Text(t) => {
                let text = text_marks::<E>(t@, 0);
                text_holds_no_elements::<E>(t@, 0, 0);
                joined_elements(text, rest, 0);
                assert(elements(text + rest, 0, (text + rest).len() as int) =~= seg_elements(
                    segs,
                    k,
                ));
            },
            Seg::Elem(e) => {
                let one = seq![Mark::<E>::Elem(e)];
                assert(elements(one, 1, 1) =~= Seq::<E>::empty());
                assert(elements(one, 0, 1) =~= seq![e]);
                joined_elements(one, rest, 0);
            },
        }
    }
}

/// A body keeps every element of its segments, in order, however its white space is settled.
pub proof fn bodies_keep_their_elements<E>(segs: Seq<Seg<E>>, braced: bool)
    ensures
        piece_elements(settled(body_marks(segs, 0), braced)) == seg_elements(segs, 0),
{
    body_breaks_apart(segs, 0);
    body_elements(segs, 0);
    elements_are_kept(body_marks(segs, 0), braced);
}

} // verus!
