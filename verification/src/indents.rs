//! The indentation that the lines of a body share: a body that is no braced one says the same
//! however far it stands from the margin.

use vstd::prelude::*;
use crate::ascii::{NEWLINE, RETURN, SPACE, TAB};
use crate::bytes::{is_space, next_byte};
use crate::scribble::{
    all_white, before_blank_lines, blank_at, body_marks, break_from, break_from_bounds, break_piece,
    byte_run_end, bytes_of, common_indent, edges, has_content, last_line, last_line_bounds, lead,
    line_pieces, lines_pieces, min_indent, past_blank_lines, settled, tabs, text_marks, trimmed_end,
    white_at, Mark, Piece, Seg,
};

verus! {

/// The lines between `i` and `b`.
pub open spec fn lines_of<E>(m: Seq<Mark<E>>, i: int, b: int) -> Seq<Seq<Mark<E>>>
    decreases b - i,
{
    let e = break_from(m, i, b);
    if 0 <= i <= e && e < b {
        seq![m.subrange(i, e)] + lines_of(m, e + 1, b)
    } else {
        seq![m.subrange(i, b)]
    }
}

/// Is a line blank?
pub open spec fn is_blank_line<E>(line: Seq<Mark<E>>) -> bool {
    all_white(line, 0, line.len() as int)
}

/// The lines without the blank ones that lead them; one line is left in any case.
pub open spec fn without_lead<E>(lines: Seq<Seq<Mark<E>>>) -> Seq<Seq<Mark<E>>>
    decreases lines.len(),
{
    if lines.len() > 1 && is_blank_line(lines[0]) {
        without_lead(lines.skip(1))
    } else {
        lines
    }
}

/// The lines without the blank ones that end them; one line is left in any case.
pub open spec fn without_tail<E>(lines: Seq<Seq<Mark<E>>>) -> Seq<Seq<Mark<E>>>
    decreases lines.len(),
{
    if lines.len() > 1 && is_blank_line(lines.last()) {
        without_tail(lines.drop_last())
    } else {
        lines
    }
}

/// The indentation of a line with content.
pub open spec fn indent_of<E>(line: Seq<Mark<E>>) -> Option<int> {
    if is_blank_line(line) {
        None
    } else {
        Some(lead(line, 0, line.len() as int))
    }
}

/// The smallest indentation of the lines with content.
pub open spec fn shared_indent<E>(lines: Seq<Seq<Mark<E>>>) -> Option<int>
    decreases lines.len(),
{
    if lines.len() == 0 {
        None
    } else {
        min_indent(indent_of(lines[0]), shared_indent(lines.skip(1)))
    }
}

/// A line without `common` of its indentation and without its trailing spaces and tabs.
pub open spec fn line_text<E>(line: Seq<Mark<E>>, common: int) -> Seq<Piece<E>> {
    let n = line.len() as int;
    let start = if tabs(line, 0, n) <= common {
        tabs(line, 0, n)
    } else {
        common
    };
    line_pieces(line, start, trimmed_end(line, start, n))
}

/// The lines, each without `common` of its indentation, with a break between every two.
pub open spec fn joined_lines<E>(lines: Seq<Seq<Mark<E>>>, common: int) -> Seq<Piece<E>>
    decreases lines.len(),
{
    if lines.len() == 0 {
        Seq::empty()
    } else if lines.len() == 1 {
        line_text(lines[0], common)
    } else {
        line_text(lines[0], common) + seq![break_piece()] + joined_lines(lines.skip(1), common)
    }
}

/// The indentation taken from lines: what they share, or none.
pub open spec fn taken_indent<E>(lines: Seq<Seq<Mark<E>>>) -> int {
    match shared_indent(lines) {
        Some(n) => n,
        None => 0,
    }
}

/// A part of two equal stretches is equal.
proof fn parts_agree<E>(m: Seq<Mark<E>>, i: int, l: Seq<Mark<E>>, a: int, n: int, p: int, q: int)
    requires
        0 <= i,
        i + n <= m.len(),
        0 <= a,
        a + n <= l.len(),
        m.subrange(i, i + n) == l.subrange(a, a + n),
        0 <= p <= q <= n,
    ensures
        m.subrange(i + p, i + q) == l.subrange(a + p, a + q),
        p < n ==> m[i + p] == l[a + p],
{
    assert(m.subrange(i, i + n).subrange(p, q) =~= m.subrange(i + p, i + q));
    assert(l.subrange(a, a + n).subrange(p, q) =~= l.subrange(a + p, a + q));
    if p < n {
        assert(m.subrange(i, i + n)[p] == m[i + p]);
        assert(l.subrange(a, a + n)[p] == l[a + p]);
    }
}

/// Equal stretches are both white, or neither is.
proof fn white_agrees<E>(m: Seq<Mark<E>>, i: int, l: Seq<Mark<E>>, a: int, n: int)
    requires
        0 <= n,
        0 <= i,
        i + n <= m.len(),
        0 <= a,
        a + n <= l.len(),
        m.subrange(i, i + n) == l.subrange(a, a + n),
    ensures
        all_white(m, i, i + n) == all_white(l, a, a + n),
{
    if all_white(m, i, i + n) {
        assert forall|k: int| a <= k < a + n implies #[trigger] white_at(l, k) by {
            parts_agree(m, i, l, a, n, k - a, n);
            assert(white_at(m, i + (k - a)));
        }
    }
    if all_white(l, a, a + n) {
        assert forall|k: int| i <= k < i + n implies #[trigger] white_at(m, k) by {
            parts_agree(m, i, l, a, n, k - i, n);
            assert(white_at(l, a + (k - i)));
        }
    }
}

/// Equal stretches are indented alike.
proof fn indents_agree<E>(m: Seq<Mark<E>>, i: int, l: Seq<Mark<E>>, a: int, n: int)
    requires
        0 <= n,
        0 <= i,
        i + n <= m.len(),
        0 <= a,
        a + n <= l.len(),
        m.subrange(i, i + n) == l.subrange(a, a + n),
    ensures
        lead(m, i, i + n) == lead(l, a, a + n),
        tabs(m, i, i + n) == tabs(l, a, a + n),
        0 <= tabs(m, i, i + n) <= n,
    decreases n,
{
    if n > 0 {
        parts_agree(m, i, l, a, n, 0, n);
        parts_agree(m, i, l, a, n, 1, n);
        indents_agree(m, i + 1, l, a + 1, n - 1);
    }
}

/// Equal stretches are trimmed alike.
proof fn trims_agree<E>(m: Seq<Mark<E>>, i: int, l: Seq<Mark<E>>, a: int, n: int)
    requires
        0 <= n,
        0 <= i,
        i + n <= m.len(),
        0 <= a,
        a + n <= l.len(),
        m.subrange(i, i + n) == l.subrange(a, a + n),
    ensures
        trimmed_end(m, i, i + n) - i == trimmed_end(l, a, a + n) - a,
        i <= trimmed_end(m, i, i + n) <= i + n,
    decreases n,
{
    if n > 0 {
        parts_agree(m, i, l, a, n, n - 1, n);
        parts_agree(m, i, l, a, n, 0, n - 1);
        trims_agree(m, i, l, a, n - 1);
    }
}

/// Equal stretches have equal runs of bytes.
proof fn runs_agree<E>(m: Seq<Mark<E>>, i: int, l: Seq<Mark<E>>, a: int, n: int)
    requires
        0 <= n,
        0 <= i,
        i + n <= m.len(),
        0 <= a,
        a + n <= l.len(),
        m.subrange(i, i + n) == l.subrange(a, a + n),
    ensures
        byte_run_end(m, i, i + n) - i == byte_run_end(l, a, a + n) - a,
        i <= byte_run_end(m, i, i + n) <= i + n,
    decreases n,
{
    if n > 0 {
        parts_agree(m, i, l, a, n, 0, n);
        parts_agree(m, i, l, a, n, 1, n);
        runs_agree(m, i + 1, l, a + 1, n - 1);
    }
}

/// Equal stretches are the same pieces.
proof fn pieces_agree<E>(m: Seq<Mark<E>>, i: int, l: Seq<Mark<E>>, a: int, n: int)
    requires
        0 <= n,
        0 <= i,
        i + n <= m.len(),
        0 <= a,
        a + n <= l.len(),
        m.subrange(i, i + n) == l.subrange(a, a + n),
    ensures
        line_pieces(m, i, i + n) == line_pieces(l, a, a + n),
    decreases n,
{
    if n > 0 {
        parts_agree(m, i, l, a, n, 0, n);
        match m[i] {
            Mark::Byte(_) => {
                runs_agree(m, i, l, a, n);
                let r = byte_run_end(m, i, i + n) - i;
                if 0 < r {
                    let (x, y) = (bytes_of(m, i, i + r), bytes_of(l, a, a + r));
                    assert forall|k: int| 0 <= k < r implies #[trigger] x[k] == y[k] by {
                        parts_agree(m, i, l, a, n, k, n);
                    }
                    assert(x =~= y);
                    parts_agree(m, i, l, a, n, r, n);
                    pieces_agree(m, i + r, l, a + r, n - r);
                }
            },
            _ => {
                parts_agree(m, i, l, a, n, 1, n);
                pieces_agree(m, i + 1, l, a + 1, n - 1);
            },
        }
    }
}

/// A line read where it stands says what it says by itself.
proof fn line_by_itself<E>(m: Seq<Mark<E>>, i: int, e: int, common: int)
    requires
        0 <= i <= e <= m.len(),
        0 <= common,
    ensures
        ({
            let start = i + if tabs(m, i, e) <= common {
                tabs(m, i, e)
            } else {
                common
            };
            line_pieces(m, start, trimmed_end(m, start, e)) == line_text(m.subrange(i, e), common)
        }),
        all_white(m, i, e) == is_blank_line(m.subrange(i, e)),
        lead(m, i, e) == lead(m.subrange(i, e), 0, e - i),
{
    let l = m.subrange(i, e);
    let n = e - i;
    assert(l.subrange(0, n) =~= l);
    white_agrees(m, i, l, 0, n);
    indents_agree(m, i, l, 0, n);
    let cut = if tabs(m, i, e) <= common {
        tabs(m, i, e)
    } else {
        common
    };
    parts_agree(m, i, l, 0, n, cut, n);
    trims_agree(m, i + cut, l, cut, n - cut);
    let t = trimmed_end(l, cut, n) - cut;
    parts_agree(m, i, l, 0, n, cut, cut + t);
    pieces_agree(m, i + cut, l, cut, t);
}

/// A body has at least one line.
proof fn some_line<E>(m: Seq<Mark<E>>, i: int, b: int)
    ensures
        lines_of(m, i, b).len() > 0,
{
}

/// The lines of a body joined are its pieces.
proof fn joined_are_pieces<E>(m: Seq<Mark<E>>, i: int, b: int, common: int)
    requires
        0 <= i <= b <= m.len(),
        0 <= common,
    ensures
        lines_pieces(m, i, b, common, true, false) == joined_lines(lines_of(m, i, b), common),
    decreases b - i,
{
    let e = break_from(m, i, b);
    break_from_bounds(m, i, b);
    line_by_itself(m, i, e, common);
    if e < b {
        let rest = lines_of(m, e + 1, b);
        some_line(m, e + 1, b);
        assert(lines_of(m, i, b).skip(1) =~= rest);
        joined_are_pieces(m, e + 1, b, common);
    }
}

/// The lines of a body share its common indentation.
proof fn shared_is_common<E>(m: Seq<Mark<E>>, i: int, b: int)
    requires
        0 <= i <= b <= m.len(),
    ensures
        common_indent(m, i, b, true) == shared_indent(lines_of(m, i, b)),
    decreases b - i,
{
    let e = break_from(m, i, b);
    break_from_bounds(m, i, b);
    line_by_itself(m, i, e, 0);
    let all = lines_of(m, i, b);
    if e < b {
        assert(all.skip(1) =~= lines_of(m, e + 1, b));
        shared_is_common(m, e + 1, b);
    } else {
        assert(all.skip(1) =~= Seq::<Seq<Mark<E>>>::empty());
        assert(shared_indent(all.skip(1)) is None);
    }
}

/// Passing by leading blank lines drops them.
proof fn lead_is_dropped<E>(m: Seq<Mark<E>>, a: int)
    requires
        0 <= a <= m.len(),
    ensures
        a <= past_blank_lines(m, a) <= m.len(),
        lines_of(m, past_blank_lines(m, a), m.len() as int) == without_lead(
            lines_of(m, a, m.len() as int),
        ),
    decreases m.len() - a,
{
    let len = m.len() as int;
    let e = break_from(m, a, len);
    break_from_bounds(m, a, len);
    line_by_itself(m, a, e, 0);
    if e < len && all_white(m, a, e) {
        some_line(m, e + 1, len);
        assert(lines_of(m, a, len).skip(1) =~= lines_of(m, e + 1, len));
        lead_is_dropped(m, e + 1);
    }
}

/// The last line holds no break.
proof fn last_line_is_one<E>(m: Seq<Mark<E>>, a: int, b: int)
    requires
        0 <= a <= b <= m.len(),
    ensures
        forall|k: int| last_line(m, a, b) <= k < b ==> !(#[trigger] m[k] is Break),
    decreases b - a,
{
    if a < b && !(m[b - 1] is Break) {
        last_line_is_one(m, a, b - 1);
    }
}

/// A line ends where it did when what follows is cut off behind it.
proof fn break_from_cut<E>(m: Seq<Mark<E>>, i: int, c: int, b: int)
    requires
        0 <= i <= c <= b <= m.len(),
    ensures
        break_from(m, i, b) <= c ==> break_from(m, i, c) == break_from(m, i, b),
    decreases c - i,
{
    break_from_bounds(m, i, b);
    if i < c && !(m[i] is Break) {
        break_from_cut(m, i + 1, c, b);
    }
}

/// The lines of a body are those before the last break, and the one after it.
proof fn last_line_splits<E>(m: Seq<Mark<E>>, i: int, l: int, b: int)
    requires
        0 <= i < l <= b <= m.len(),
        m[l - 1] is Break,
        forall|k: int| l <= k < b ==> !(#[trigger] m[k] is Break),
    ensures
        lines_of(m, i, b) == lines_of(m, i, l - 1).push(m.subrange(l, b)),
    decreases b - i,
{
    let e = break_from(m, i, b);
    break_from_bounds(m, i, b);
    break_from_cut(m, i, l - 1, b);
    break_from_bounds(m, i, l - 1);
    if e < l - 1 {
        last_line_splits(m, e + 1, l, b);
        assert(lines_of(m, i, b) =~= lines_of(m, i, l - 1).push(m.subrange(l, b)));
    } else {
        break_from_bounds(m, l, b);
        assert(lines_of(m, l, b) =~= seq![m.subrange(l, b)]);
        assert(lines_of(m, i, b) =~= lines_of(m, i, l - 1).push(m.subrange(l, b)));
    }
}

/// Passing by the blank lines at the end drops them.
proof fn tail_is_dropped<E>(m: Seq<Mark<E>>, a: int, b: int)
    requires
        0 <= a <= b <= m.len(),
    ensures
        a <= before_blank_lines(m, a, b) <= b,
        lines_of(m, a, before_blank_lines(m, a, b)) == without_tail(lines_of(m, a, b)),
    decreases b,
{
    let l = last_line(m, a, b);
    last_line_bounds(m, a, b);
    last_line_is_one(m, a, b);
    line_by_itself(m, l, b, 0);
    if a < l {
        last_line_splits(m, a, l, b);
        some_line(m, a, l - 1);
        let all = lines_of(m, a, b);
        assert(all.drop_last() =~= lines_of(m, a, l - 1));
        assert(all.last() == m.subrange(l, b));
        tail_is_dropped(m, a, l - 1);
    } else {
        break_from_bounds(m, a, b);
        assert(lines_of(m, a, b).len() == 1);
    }
}

/// An unbraced body with content, line by line.
proof fn settled_by_lines<E>(m: Seq<Mark<E>>)
    requires
        has_content(m),
    ensures
        ({
            let kept = without_tail(without_lead(lines_of(m, 0, m.len() as int)));
            settled(m, false) == joined_lines(kept, taken_indent(kept))
        }),
{
    let len = m.len() as int;
    lead_is_dropped(m, 0);
    let start = past_blank_lines(m, 0);
    tail_is_dropped(m, start, len);
    let end = before_blank_lines(m, start, len);
    shared_is_common(m, start, end);
    let kept = lines_of(m, start, end);
    indents_not_negative(kept);
    joined_are_pieces(m, start, end, taken_indent(kept));
    assert(edges(m, false).start == start && edges(m, false).end == end);
}

/// An indentation is a length.
proof fn indents_not_negative<E>(lines: Seq<Seq<Mark<E>>>)
    ensures
        taken_indent(lines) >= 0,
        shared_indent(lines) matches Some(n) ==> n >= 0,
    decreases lines.len(),
{
    if lines.len() > 0 {
        lead_not_negative(lines[0], 0);
        indents_not_negative(lines.skip(1));
    }
}

proof fn lead_not_negative<E>(line: Seq<Mark<E>>, i: int)
    ensures
        lead(line, i, line.len() as int) >= 0,
    decreases line.len() - i,
{
    if i < line.len() && white_at(line, i) {
        lead_not_negative(line, i + 1);
    }
}

/// `k` spaces.
pub open spec fn spaces<E>(k: nat) -> Seq<Mark<E>> {
    Seq::new(k, |i: int| Mark::Byte(SPACE))
}

/// Is `more` the line `line` with `k` spaces before it, or the line itself where it is blank?
pub open spec fn is_indented<E>(line: Seq<Mark<E>>, more: Seq<Mark<E>>, k: nat) -> bool {
    more == if is_blank_line(line) {
        line
    } else {
        spaces(k) + line
    }
}

/// Are `more` the lines `lines`, with `k` spaces before each that is not blank?
pub open spec fn are_indented<E>(
    lines: Seq<Seq<Mark<E>>>,
    more: Seq<Seq<Mark<E>>>,
    k: nat,
) -> bool {
    lines.len() == more.len() && forall|j: int|
        0 <= j < lines.len() ==> is_indented(lines[j], #[trigger] more[j], k)
}

/// Is all white space inside the lines spaces and tabs?
pub open spec fn are_spaced<E>(lines: Seq<Seq<Mark<E>>>) -> bool {
    forall|j: int| 0 <= j < lines.len() ==> is_spaced(#[trigger] lines[j])
}

/// Is all white space of a line spaces and tabs?
pub open spec fn is_spaced<E>(line: Seq<Mark<E>>) -> bool {
    forall|i: int| 0 <= i < line.len() && white_at(line, i) ==> #[trigger] blank_at(line, i)
}

/// A line with spaces before it is as much further in, and no more or less blank.
proof fn indented_line<E>(line: Seq<Mark<E>>, k: nat, p: int)
    requires
        0 <= p <= k,
        !is_blank_line(line),
    ensures
        ({
            let more = spaces(k) + line;
            let n = line.len() as int;
            &&& !is_blank_line(more)
            &&& lead(more, p, n + k) == k - p + lead(line, 0, n)
            &&& tabs(more, p, n + k) == k - p + tabs(line, 0, n)
        }),
    decreases k - p,
{
    let more = spaces::<E>(k) + line;
    let n = line.len() as int;
    let w = choose|w: int| 0 <= w < n && !(#[trigger] white_at(line, w));
    assert(more[k + w] == line[w]);
    assert(!white_at(more, k + w));
    if p < k {
        assert(more[p] == Mark::<E>::Byte(SPACE));
        assert(is_space(SPACE));
        indented_line(line, k, p + 1);
    } else {
        assert(more.subrange(k as int, k + n) =~= line);
        assert(line.subrange(0, n) =~= line);
        indents_agree(more, k as int, line, 0, n);
    }
}

/// Spaces before a line are what it loses of a larger common indentation.
proof fn indented_text_is_same<E>(line: Seq<Mark<E>>, more: Seq<Mark<E>>, k: nat, common: int)
    requires
        0 <= common,
        is_spaced(line),
        is_indented(line, more, k),
    ensures
        line_text(more, common + k) == line_text(line, common),
{
    let n = line.len() as int;
    if is_blank_line(line) {
        blank_text(line, common);
        blank_text(line, common + k);
    } else {
        indented_line(line, k, 0);
        let l = line;
        let cut = if tabs(l, 0, n) <= common {
            tabs(l, 0, n)
        } else {
            common
        };
        assert(l.subrange(0, n) =~= l);
        indents_agree(l, 0, l, 0, n);
        assert(more.subrange(k as int, k + n) =~= l.subrange(0, n));
        parts_agree(more, k as int, l, 0, n, cut, n);
        trims_agree(more, k + cut, l, cut, n - cut);
        let t = trimmed_end(l, cut, n) - cut;
        parts_agree(more, k as int, l, 0, n, cut, cut + t);
        pieces_agree(more, k + cut, l, cut, t);
    }
}

/// A blank line of spaces and tabs leaves nothing.
proof fn blank_text<E>(line: Seq<Mark<E>>, common: int)
    requires
        0 <= common,
        is_spaced(line),
        is_blank_line(line),
    ensures
        line_text(line, common) == Seq::<Piece<E>>::empty(),
{
    let n = line.len() as int;
    assert forall|i: int| 0 <= i < n implies #[trigger] blank_at(line, i) by {
        assert(white_at(line, i));
    }
    assert(line.subrange(0, n) =~= line);
    indents_agree(line, 0, line, 0, n);
    let start = if tabs(line, 0, n) <= common {
        tabs(line, 0, n)
    } else {
        common
    };
    blank_trims(line, start, n);
}

proof fn blank_trims<E>(line: Seq<Mark<E>>, i: int, j: int)
    requires
        0 <= i <= j <= line.len(),
        forall|q: int| 0 <= q < line.len() ==> #[trigger] blank_at(line, q),
    ensures
        trimmed_end(line, i, j) == i,
    decreases j - i,
{
    if i < j {
        assert(blank_at(line, j - 1));
        blank_trims(line, i, j - 1);
    }
}

/// Indented lines have the same blank lines before and after them.
proof fn indented_edges<E>(lines: Seq<Seq<Mark<E>>>, more: Seq<Seq<Mark<E>>>, k: nat)
    requires
        are_indented(lines, more, k),
        are_spaced(lines),
    ensures
        are_indented(without_lead(lines), without_lead(more), k),
        are_indented(without_tail(lines), without_tail(more), k),
        are_spaced(without_lead(lines)),
        are_spaced(without_tail(lines)),
    decreases lines.len(),
{
    if lines.len() > 1 {
        let last = lines.len() - 1;
        assert(is_indented(lines[0], more[0], k));
        assert(is_indented(lines[last], more[last], k));
        if !is_blank_line(lines[0]) {
            indented_line(lines[0], k, 0);
        }
        if !is_blank_line(lines[last]) {
            indented_line(lines[last], k, 0);
        }
        let (a, b) = (lines.skip(1), more.skip(1));
        assert forall|j: int| 0 <= j < a.len() implies is_indented(a[j], #[trigger] b[j], k) by {
            assert(is_indented(lines[j + 1], more[j + 1], k));
        }
        assert forall|j: int| 0 <= j < a.len() implies is_spaced(#[trigger] a[j]) by {
            assert(is_spaced(lines[j + 1]));
        }
        indented_edges(a, b, k);
        let (c, d) = (lines.drop_last(), more.drop_last());
        assert forall|j: int| 0 <= j < c.len() implies is_indented(c[j], #[trigger] d[j], k) by {
            assert(is_indented(lines[j], more[j], k));
        }
        assert forall|j: int| 0 <= j < c.len() implies is_spaced(#[trigger] c[j]) by {
            assert(is_spaced(lines[j]));
        }
        indented_edges(c, d, k);
    }
}

/// Indented lines share as much more indentation; lines that share none are blank, and the same.
proof fn indented_shares<E>(lines: Seq<Seq<Mark<E>>>, more: Seq<Seq<Mark<E>>>, k: nat)
    requires
        are_indented(lines, more, k),
    ensures
        shared_indent(lines) matches Some(n) ==> shared_indent(more) == Some(n + k),
        shared_indent(lines) is None ==> lines == more,
    decreases lines.len(),
{
    if lines.len() > 0 {
        assert(is_indented(lines[0], more[0], k));
        if !is_blank_line(lines[0]) {
            indented_line(lines[0], k, 0);
        }
        let (a, b) = (lines.skip(1), more.skip(1));
        assert forall|j: int| 0 <= j < a.len() implies is_indented(a[j], #[trigger] b[j], k) by {
            assert(is_indented(lines[j + 1], more[j + 1], k));
        }
        indented_shares(a, b, k);
        if shared_indent(lines) is None {
            assert(lines =~= seq![lines[0]] + a);
            assert(more =~= seq![more[0]] + b);
        }
    } else {
        assert(lines =~= more);
    }
}

/// Indented lines, without as much more, join to the same.
proof fn indented_joins<E>(
    lines: Seq<Seq<Mark<E>>>,
    more: Seq<Seq<Mark<E>>>,
    k: nat,
    common: int,
)
    requires
        0 <= common,
        are_indented(lines, more, k),
        are_spaced(lines),
    ensures
        joined_lines(more, common + k) == joined_lines(lines, common),
    decreases lines.len(),
{
    if lines.len() > 0 {
        assert(is_indented(lines[0], more[0], k));
        indented_text_is_same(lines[0], more[0], k, common);
        let (a, b) = (lines.skip(1), more.skip(1));
        assert forall|j: int| 0 <= j < a.len() implies is_indented(a[j], #[trigger] b[j], k) by {
            assert(is_indented(lines[j + 1], more[j + 1], k));
        }
        assert forall|j: int| 0 <= j < a.len() implies is_spaced(#[trigger] a[j]) by {
            assert(is_spaced(lines[j + 1]));
        }
        indented_joins(a, b, k, common);
    }
}

/// A body has content if one of its lines does.
proof fn content_by_lines<E>(m: Seq<Mark<E>>, i: int)
    requires
        0 <= i <= m.len(),
    ensures
        (exists|q: int| i <= q < m.len() && !(#[trigger] m[q] is Break) && !white_at(m, q)) == (
        exists|j: int|
            0 <= j < lines_of(m, i, m.len() as int).len() && !is_blank_line(
                #[trigger] lines_of(m, i, m.len() as int)[j],
            )),
    decreases m.len() - i,
{
    let len = m.len() as int;
    let e = break_from(m, i, len);
    break_from_bounds(m, i, len);
    line_by_itself(m, i, e, 0);
    let all = lines_of(m, i, len);
    assert(all[0] == m.subrange(i, e));
    if !all_white(m, i, e) {
        let q = choose|q: int| i <= q < e && !(#[trigger] white_at(m, q));
        assert(!(m[q] is Break));
        assert(!is_blank_line(all[0]));
    }
    if e < len {
        content_by_lines(m, e + 1);
        let rest = lines_of(m, e + 1, len);
        assert(all =~= seq![all[0]] + rest);
        if exists|q: int| i <= q < len && !(#[trigger] m[q] is Break) && !white_at(m, q) {
            let q = choose|q: int| i <= q < len && !(#[trigger] m[q] is Break) && !white_at(m, q);
            if q < e {
                assert(!white_at(m, q));
                assert(!is_blank_line(all[0]));
            } else {
                assert(q > e);
                let j = choose|j: int| 0 <= j < rest.len() && !is_blank_line(#[trigger] rest[j]);
                assert(all[j + 1] == rest[j]);
            }
        }
        if exists|j: int| 0 <= j < all.len() && !is_blank_line(#[trigger] all[j]) {
            let j = choose|j: int| 0 <= j < all.len() && !is_blank_line(#[trigger] all[j]);
            if j > 0 {
                assert(rest[j - 1] == all[j]);
            }
        }
    } else {
        assert(all.len() == 1);
        if exists|q: int| i <= q < len && !(#[trigger] m[q] is Break) && !white_at(m, q) {
            let q = choose|q: int| i <= q < len && !(#[trigger] m[q] is Break) && !white_at(m, q);
            assert(!white_at(m, q));
            assert(!is_blank_line(all[0]));
        }
    }
}

/// Where every line of an unbraced body that is not blank stands `k` spaces further in, the body is
/// the same: the first line takes part in the common indentation like the others.
pub proof fn indentation_is_no_content<E>(m: Seq<Mark<E>>, n: Seq<Mark<E>>, k: nat)
    requires
        are_spaced(lines_of(m, 0, m.len() as int)),
        are_indented(lines_of(m, 0, m.len() as int), lines_of(n, 0, n.len() as int), k),
    ensures
        settled(n, false) == settled(m, false),
{
    let lines = lines_of(m, 0, m.len() as int);
    let more = lines_of(n, 0, n.len() as int);
    content_by_lines(m, 0);
    content_by_lines(n, 0);
    assert forall|j: int| 0 <= j < lines.len() implies is_blank_line(#[trigger] lines[j])
        == is_blank_line(more[j]) by {
        assert(is_indented(lines[j], more[j], k));
        if !is_blank_line(lines[j]) {
            indented_line(lines[j], k, 0);
        }
    }
    if has_content(m) {
        let j = choose|j: int| 0 <= j < lines.len() && !is_blank_line(#[trigger] lines[j]);
        assert(!is_blank_line(more[j]));
        assert(has_content(n));
        settled_by_lines(m);
        settled_by_lines(n);
        indented_edges(lines, more, k);
        indented_edges(without_lead(lines), without_lead(more), k);
        let kept = without_tail(without_lead(lines));
        let kept_more = without_tail(without_lead(more));
        indented_shares(kept, kept_more, k);
        indents_not_negative(kept);
        if shared_indent(kept) is Some {
            indented_joins(kept, kept_more, k, taken_indent(kept));
        }
    } else {
        if has_content(n) {
            let j = choose|j: int| 0 <= j < more.len() && !is_blank_line(#[trigger] more[j]);
            assert(!is_blank_line(lines[j]));
        }
    }
}

/// Is `t` ASCII text without a carriage return, whose white space is spaces, tabs and line feeds?
pub open spec fn is_plain(t: Seq<u8>) -> bool {
    forall|i: int| 0 <= i < t.len() ==> is_plain_byte(#[trigger] t[i])
}

/// May `b` stand in such a text?
pub open spec fn is_plain_byte(b: u8) -> bool {
    b < 0x80 && b != RETURN && (is_space(b) ==> b == SPACE || b == TAB || b == NEWLINE)
}

/// Is there nothing but white space between `i` and `e`?
pub open spec fn is_blank_text(t: Seq<u8>, i: int, e: int) -> bool {
    forall|q: int| i <= q < e ==> is_space(#[trigger] t[q])
}

/// The text from the line start `i` on, with `k` spaces before each line that is not blank.
pub open spec fn indented_text(t: Seq<u8>, i: int, k: nat) -> Seq<u8>
    decreases t.len() - i,
{
    let e = next_byte(t, i, NEWLINE);
    let line = if is_blank_text(t, i, e) {
        t.subrange(i, e)
    } else {
        Seq::new(k, |j: int| SPACE) + t.subrange(i, e)
    };
    if 0 <= i <= e && e < t.len() {
        line + seq![NEWLINE] + indented_text(t, e + 1, k)
    } else {
        line
    }
}

/// The mark of a byte of plain text.
pub open spec fn plain_mark<E>(b: u8) -> Mark<E> {
    if b == NEWLINE {
        Mark::Break
    } else {
        Mark::Byte(b)
    }
}

/// The marks of plain text.
pub open spec fn plain_marks<E>(t: Seq<u8>) -> Seq<Mark<E>> {
    Seq::new(t.len(), |i: int| plain_mark(t[i]))
}

/// Plain text has one mark for each byte.
proof fn plain_text_marks<E>(t: Seq<u8>, i: int)
    requires
        is_plain(t),
        0 <= i <= t.len(),
    ensures
        text_marks::<E>(t, i) == plain_marks::<E>(t).skip(i),
    decreases t.len() - i,
{
    if i < t.len() {
        assert(is_plain_byte(t[i]));
        plain_text_marks::<E>(t, i + 1);
        assert(plain_marks::<E>(t).skip(i) =~= seq![plain_mark::<E>(t[i])] + plain_marks::<E>(
            t,
        ).skip(i + 1));
    } else {
        assert(plain_marks::<E>(t).skip(i) =~= Seq::<Mark<E>>::empty());
    }
}

/// Lines are the same whatever stands before them.
proof fn lines_stand_alone<E>(x: Seq<Mark<E>>, r: Seq<Mark<E>>, i: int)
    requires
        0 <= i <= r.len(),
    ensures
        lines_of(x + r, x.len() + i, (x + r).len() as int) == lines_of(r, i, r.len() as int),
    decreases r.len() - i,
{
    let m = x + r;
    let n = x.len() as int;
    let len = r.len() as int;
    breaks_stand_alone(x, r, i);
    let e = break_from(r, i, len);
    break_from_bounds(r, i, len);
    assert(m.subrange(n + i, n + e) =~= r.subrange(i, e));
    if e < len {
        lines_stand_alone(x, r, e + 1);
    }
}

proof fn breaks_stand_alone<E>(x: Seq<Mark<E>>, r: Seq<Mark<E>>, i: int)
    requires
        0 <= i <= r.len(),
    ensures
        break_from(x + r, x.len() + i, (x + r).len() as int) == x.len() + break_from(
            r,
            i,
            r.len() as int,
        ),
    decreases r.len() - i,
{
    if i < r.len() {
        assert((x + r)[x.len() + i] == r[i]);
        if !(r[i] is Break) {
            breaks_stand_alone(x, r, i + 1);
        }
    }
}

/// A line, a break and what follows are that line and the lines that follow.
proof fn line_first<E>(line: Seq<Mark<E>>, rest: Seq<Mark<E>>)
    requires
        forall|q: int| 0 <= q < line.len() ==> !(#[trigger] line[q] is Break),
    ensures
        ({
            let m = line + seq![Mark::Break] + rest;
            lines_of(m, 0, m.len() as int) == seq![line] + lines_of(rest, 0, rest.len() as int)
        }),
{
    let head = line + seq![Mark::<E>::Break];
    let m = head + rest;
    let n = line.len() as int;
    let len = m.len() as int;
    break_from_bounds(m, 0, len);
    let e = break_from(m, 0, len);
    assert(e == n) by {
        if e < n {
            assert(m[e] == line[e]);
        }
        if e > n {
            assert(m[n] is Break);
        }
    }
    assert(m.subrange(0, n) =~= line);
    lines_stand_alone(head, rest, 0);
}

/// A line by itself is one line.
proof fn line_only<E>(line: Seq<Mark<E>>)
    requires
        forall|q: int| 0 <= q < line.len() ==> !(#[trigger] line[q] is Break),
    ensures
        lines_of(line, 0, line.len() as int) == seq![line],
{
    break_from_bounds(line, 0, line.len() as int);
    assert(line.subrange(0, line.len() as int) =~= line);
}

/// The marks of the line of plain text from `i` to `e`, indented.
proof fn indented_plain_line<E>(t: Seq<u8>, i: int, e: int, k: nat)
    requires
        is_plain(t),
        0 <= i <= e <= t.len(),
        forall|q: int| i <= q < e ==> #[trigger] t[q] != NEWLINE,
    ensures
        ({
            let line = if is_blank_text(t, i, e) {
                t.subrange(i, e)
            } else {
                Seq::new(k, |j: int| SPACE) + t.subrange(i, e)
            };
            let m = plain_marks::<E>(t).subrange(i, e);
            let n = plain_marks::<E>(line);
            &&& is_spaced(m)
            &&& is_indented(m, n, k)
            &&& is_plain(line)
            &&& forall|q: int| 0 <= q < n.len() ==> !(#[trigger] n[q] is Break)
        }),
{
    let m = plain_marks::<E>(t).subrange(i, e);
    assert forall|q: int| 0 <= q < m.len() implies #[trigger] m[q] == Mark::<E>::Byte(t[i + q]) by {
        assert(t[i + q] != NEWLINE);
    }
    assert forall|q: int| 0 <= q < m.len() && white_at(m, q) implies #[trigger] blank_at(m, q) by {
        assert(m[q] == Mark::<E>::Byte(t[i + q]));
        assert(is_plain_byte(t[i + q]));
    }
    assert(is_blank_text(t, i, e) == is_blank_line(m)) by {
        if is_blank_text(t, i, e) {
            assert forall|q: int| 0 <= q < m.len() implies #[trigger] white_at(m, q) by {
                assert(m[q] == Mark::<E>::Byte(t[i + q]));
                assert(is_space(t[i + q]));
            }
        }
        if is_blank_line(m) {
            assert forall|q: int| i <= q < e implies is_space(#[trigger] t[q]) by {
                assert(white_at(m, q - i));
                assert(m[q - i] == Mark::<E>::Byte(t[i + (q - i)]));
            }
        }
    }
    let cut = t.subrange(i, e);
    assert(is_plain(cut)) by {
        assert forall|q: int| 0 <= q < cut.len() implies is_plain_byte(#[trigger] cut[q]) by {
            assert(is_plain_byte(t[i + q]));
        }
    }
    if is_blank_text(t, i, e) {
        assert(plain_marks::<E>(cut) =~= m);
    } else {
        let line = Seq::new(k, |j: int| SPACE) + cut;
        assert(is_plain(line)) by {
            assert forall|q: int| 0 <= q < line.len() implies is_plain_byte(#[trigger] line[q]) by {
                if q >= k {
                    assert(line[q] == cut[q - k]);
                }
            }
        }
        assert(plain_marks::<E>(line) =~= spaces(k) + m);
    }
}

/// Text with spaces before its lines has indented lines.
proof fn indented_text_is_indented<E>(t: Seq<u8>, i: int, k: nat)
    requires
        is_plain(t),
        0 <= i <= t.len(),
    ensures
        ({
            let u = indented_text(t, i, k);
            &&& is_plain(u)
            &&& are_spaced(lines_of(plain_marks::<E>(t), i, t.len() as int))
            &&& are_indented(
                lines_of(plain_marks::<E>(t), i, t.len() as int),
                lines_of(plain_marks::<E>(u), 0, u.len() as int),
                k,
            )
        }),
    decreases t.len() - i,
{
    let m = plain_marks::<E>(t);
    let len = t.len() as int;
    let e = next_byte(t, i, NEWLINE);
    plain_break::<E>(t, i);
    indented_plain_line::<E>(t, i, e, k);
    let line = if is_blank_text(t, i, e) {
        t.subrange(i, e)
    } else {
        Seq::new(k, |j: int| SPACE) + t.subrange(i, e)
    };
    let n = plain_marks::<E>(line);
    let u = indented_text(t, i, k);
    let a = lines_of(m, i, len);
    if e < len {
        indented_text_is_indented::<E>(t, e + 1, k);
        let after = indented_text(t, e + 1, k);
        assert(is_plain(u)) by {
            assert forall|q: int| 0 <= q < u.len() implies is_plain_byte(#[trigger] u[q]) by {
                if q < line.len() {
                    assert(u[q] == line[q]);
                } else if q > line.len() {
                    assert(u[q] == after[q - line.len() - 1]);
                }
            }
        }
        assert(plain_marks::<E>(u) =~= n + seq![Mark::<E>::Break] + plain_marks::<E>(after));
        line_first(n, plain_marks::<E>(after));
        let b = lines_of(plain_marks::<E>(u), 0, u.len() as int);
        let (ra, rb) = (lines_of(m, e + 1, len), lines_of(
            plain_marks::<E>(after),
            0,
            after.len() as int,
        ));
        assert(a =~= seq![m.subrange(i, e)] + ra);
        assert forall|j: int| 0 <= j < a.len() implies is_indented(a[j], #[trigger] b[j], k) by {
            if j > 0 {
                assert(is_indented(ra[j - 1], rb[j - 1], k));
            }
        }
        assert forall|j: int| 0 <= j < a.len() implies is_spaced(#[trigger] a[j]) by {
            if j > 0 {
                assert(is_spaced(ra[j - 1]));
            }
        }
    } else {
        line_only(n);
        assert(u == line);
    }
}

/// A line of plain text ends at its line feed.
proof fn plain_break<E>(t: Seq<u8>, i: int)
    requires
        0 <= i <= t.len(),
    ensures
        break_from(plain_marks::<E>(t), i, t.len() as int) == next_byte(t, i, NEWLINE),
        i <= next_byte(t, i, NEWLINE) <= t.len(),
        forall|q: int| i <= q < next_byte(t, i, NEWLINE) ==> #[trigger] t[q] != NEWLINE,
    decreases t.len() - i,
{
    if i < t.len() && t[i] != NEWLINE {
        plain_break::<E>(t, i + 1);
    }
}

/// The same spaces put before every line of a text that is not blank change nothing of a body that
/// is not braced.
pub proof fn indented_texts_settle_alike<E>(text: &[u8], more: &[u8], k: nat)
    requires
        is_plain(text@),
        more@ == indented_text(text@, 0, k),
    ensures
        settled(body_marks(seq![Seg::<E>::Text(more)], 0), false) == settled(
            body_marks(seq![Seg::<E>::Text(text)], 0),
            false,
        ),
{
    let (t, u) = (text@, more@);
    indented_text_is_indented::<E>(t, 0, k);
    one_text_marks::<E>(text);
    one_text_marks::<E>(more);
    indentation_is_no_content(plain_marks::<E>(t), plain_marks::<E>(u), k);
}

proof fn one_text_marks<E>(text: &[u8])
    requires
        is_plain(text@),
    ensures
        body_marks(seq![Seg::<E>::Text(text)], 0) == plain_marks::<E>(text@),
{
    let segs = seq![Seg::<E>::Text(text)];
    plain_text_marks::<E>(text@, 0);
    assert(body_marks(segs, 1) =~= Seq::<Mark<E>>::empty());
    assert(plain_marks::<E>(text@).skip(0) =~= plain_marks::<E>(text@));
    assert(body_marks(segs, 0) =~= plain_marks::<E>(text@));
}

} // verus!
