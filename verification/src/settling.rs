//! What settling the white space of a body leaves alone: everything in it that is not white space.

use vstd::prelude::*;
use crate::ascii::{NEWLINE};
use crate::bytes::is_space;
use crate::scribble::{
    Mark, Piece, all_white, before_blank_lines, break_from,
    break_from_bounds, break_piece, byte_run_end, bytes_of, common_indent, common_indent_bounds,
    edges, has_content, last_line, last_line_bounds, line_pieces, lines_pieces, past_blank_lines,
    settled, tabs, tabs_are_white, trimmed_end, trimming_is_white, white_at,
};

verus! {

/// The content among the marks from `i` to `j`, in order: its elements, and its bytes that are not
/// white space.
pub open spec fn content<E>(m: Seq<Mark<E>>, i: int, j: int) -> Seq<Mark<E>>
    decreases j - i,
{
    if i < j {
        (if m[i] is Break || white_at(m, i) {
            Seq::empty()
        } else {
            seq![m[i]]
        }) + content(m, i + 1, j)
    } else {
        Seq::empty()
    }
}

/// The bytes of a text, as marks.
pub open spec fn byte_marks<E>(t: Seq<u8>) -> Seq<Mark<E>> {
    Seq::new(t.len(), |k: int| Mark::Byte(t[k]))
}

/// The content of pieces, in order.
pub open spec fn piece_content<E>(ps: Seq<Piece<E>>) -> Seq<Mark<E>>
    decreases ps.len(),
{
    if ps.len() > 0 {
        (match ps[0] {
            Piece::Elem(e) => seq![Mark::Elem(e)],
            Piece::Text(t) => content(byte_marks(t), 0, t.len() as int),
        }) + piece_content(ps.drop_first())
    } else {
        Seq::empty()
    }
}

/// The content of two runs of pieces is that of the first and that of the second.
proof fn pieces_part<E>(a: Seq<Piece<E>>, b: Seq<Piece<E>>)
    ensures
        piece_content(a + b) == piece_content(a) + piece_content(b),
    decreases a.len(),
{
    if a.len() > 0 {
        assert((a + b).drop_first() =~= a.drop_first() + b);
        pieces_part(a.drop_first(), b);
    } else {
        assert(a + b =~= b);
    }
    assert(piece_content(a + b) =~= piece_content(a) + piece_content(b));
}

/// The content of one piece is its own.
proof fn piece_alone<E>(p: Piece<E>)
    ensures
        piece_content(seq![p]) == (match p {
            Piece::Elem(e) => seq![Mark::Elem(e)],
            Piece::Text(t) => content(byte_marks(t), 0, t.len() as int),
        }),
{
    assert(seq![p].drop_first() =~= Seq::<Piece<E>>::empty());
    assert(piece_content(Seq::<Piece<E>>::empty()) =~= Seq::<Mark<E>>::empty());
    assert(piece_content(seq![p]) =~= match p {
        Piece::Elem(e) => seq![Mark::Elem(e)],
        Piece::Text(t) => content(byte_marks(t), 0, t.len() as int),
    });
}

/// The content from `i` to `j` is that up to `k` and that from `k` on.
proof fn marks_part<E>(m: Seq<Mark<E>>, i: int, k: int, j: int)
    requires
        i <= k <= j,
    ensures
        content(m, i, j) == content(m, i, k) + content(m, k, j),
    decreases k - i,
{
    if i < k {
        marks_part(m, i + 1, k, j);
    }
    assert(content(m, i, j) =~= content(m, i, k) + content(m, k, j));
}

/// White space and breaks are no content.
proof fn empty_where_white<E>(m: Seq<Mark<E>>, i: int, j: int)
    requires
        forall|k: int| i <= k < j ==> #[trigger] m[k] is Break || white_at(m, k),
    ensures
        content(m, i, j) == Seq::<Mark<E>>::empty(),
    decreases j - i,
{
    if i < j {
        assert(m[i] is Break || white_at(m, i));
        empty_where_white(m, i + 1, j);
    }
    assert(content(m, i, j) =~= Seq::<Mark<E>>::empty());
}

/// Equal marks at another place have equal content.
proof fn moved_content<E>(a: Seq<Mark<E>>, b: Seq<Mark<E>>, d: int, i: int, j: int)
    requires
        forall|k: int| i <= k < j ==> #[trigger] a[k] == b[k + d],
    ensures
        content(a, i, j) == content(b, i + d, j + d),
    decreases j - i,
{
    if i < j {
        assert(a[i] == b[i + d]);
        moved_content(a, b, d, i + 1, j);
    }
    assert(content(a, i, j) =~= content(b, i + d, j + d));
}

/// A run of bytes lies between its ends and holds bytes alone.
proof fn run_of_bytes<E>(m: Seq<Mark<E>>, i: int, j: int)
    requires
        i <= j,
    ensures
        i <= byte_run_end(m, i, j) <= j,
        forall|k: int| i <= k < byte_run_end(m, i, j) ==> #[trigger] m[k] is Byte,
        i < j && m[i] is Byte ==> i < byte_run_end(m, i, j),
    decreases j - i,
{
    if i < j && m[i] is Byte {
        run_of_bytes(m, i + 1, j);
    }
}

/// The pieces of a line hold its content.
proof fn line_content<E>(m: Seq<Mark<E>>, i: int, j: int)
    requires
        0 <= i <= j <= m.len(),
    ensures
        piece_content(line_pieces(m, i, j)) == content(m, i, j),
    decreases j - i,
{
    if i < j {
        match m[i] {
            Mark::Byte(_) => {
                let e = byte_run_end(m, i, j);
                run_of_bytes(m, i, j);
                let t = bytes_of(m, i, e);
                assert forall|k: int| 0 <= k < t.len() implies #[trigger] byte_marks::<E>(t)[k]
                    == m[k + i] by {
                    assert(m[k + i] is Byte);
                }
                moved_content(byte_marks::<E>(t), m, i, 0, e - i);
                piece_alone(Piece::<E>::Text(t));
                line_content(m, e, j);
                pieces_part(seq![Piece::<E>::Text(t)], line_pieces(m, e, j));
                marks_part(m, i, e, j);
            },
            Mark::Elem(e) => {
                piece_alone(Piece::Elem(e));
                line_content(m, i + 1, j);
                pieces_part(seq![Piece::Elem(e)], line_pieces(m, i + 1, j));
            },
            Mark::Break => {
                line_content(m, i + 1, j);
            },
        }
    }
    assert(piece_content(line_pieces(m, i, j)) =~= content(m, i, j));
}

/// A break between lines is no content.
proof fn breaks_are_empty<E>()
    ensures
        piece_content(seq![break_piece::<E>()]) == Seq::<Mark<E>>::empty(),
{
    let t = seq![NEWLINE];
    piece_alone(break_piece::<E>());
    assert(is_space(NEWLINE));
    assert forall|k: int| 0 <= k < 1 implies #[trigger] byte_marks::<E>(t)[k] is Break || white_at(
        byte_marks::<E>(t),
        k,
    ) by {}
    empty_where_white(byte_marks::<E>(t), 0, 1);
}

/// The pieces of lines hold their content.
proof fn lines_content<E>(
    m: Seq<Mark<E>>,
    i: int,
    b: int,
    common: int,
    indents: bool,
    braced: bool,
)
    requires
        0 <= i <= b <= m.len(),
        0 <= common,
    ensures
        piece_content(lines_pieces(m, i, b, common, indents, braced)) == content(m, i, b),
    decreases b - i,
{
    let e = break_from(m, i, b);
    break_from_bounds(m, i, b);
    tabs_are_white(m, i, e);
    let start = if indents {
        i + if tabs(m, i, e) <= common {
            tabs(m, i, e)
        } else {
            common
        }
    } else {
        i
    };
    trimming_is_white(m, start, e);
    let end = if braced && e == b && b == m.len() {
        e
    } else {
        trimmed_end(m, start, e)
    };
    let here = line_pieces(m, start, end);
    assert(all_white(m, i, start));
    assert(all_white(m, end, e));
    empty_where_white(m, i, start);
    empty_where_white(m, end, e);
    marks_part(m, i, start, e);
    marks_part(m, start, end, e);
    line_content(m, start, end);
    assert(content(m, i, e) =~= piece_content(here));
    if e < b {
        let rest = lines_pieces(m, e + 1, b, common, true, braced);
        lines_content(m, e + 1, b, common, true, braced);
        breaks_are_empty::<E>();
        pieces_part(here, seq![break_piece::<E>()]);
        pieces_part(here + seq![break_piece::<E>()], rest);
        marks_part(m, i, e, b);
        assert(content(m, e, b) =~= content(m, e + 1, b));
        assert(piece_content(lines_pieces(m, i, b, common, indents, braced)) =~= content(m, i, b));
    }
}

/// The blank lines that lead a body hold no content.
proof fn leading_lines<E>(m: Seq<Mark<E>>, a: int)
    requires
        0 <= a <= m.len(),
    ensures
        a <= past_blank_lines(m, a) <= m.len(),
        content(m, a, past_blank_lines(m, a)) == Seq::<Mark<E>>::empty(),
    decreases m.len() - a,
{
    let e = break_from(m, a, m.len() as int);
    break_from_bounds(m, a, m.len() as int);
    let p = past_blank_lines(m, a);
    if e < m.len() && all_white(m, a, e) {
        leading_lines(m, e + 1);
        assert forall|k: int| a <= k < e + 1 implies #[trigger] m[k] is Break || white_at(m, k) by {
            if k < e {
                assert(white_at(m, k));
            }
        }
        empty_where_white(m, a, e + 1);
        marks_part(m, a, e + 1, p);
    }
    assert(content(m, a, p) =~= Seq::<Mark<E>>::empty());
}

/// The blank lines that end a body hold no content.
proof fn trailing_lines<E>(m: Seq<Mark<E>>, a: int, b: int)
    requires
        0 <= a <= b <= m.len(),
    ensures
        a <= before_blank_lines(m, a, b) <= b,
        content(m, before_blank_lines(m, a, b), b) == Seq::<Mark<E>>::empty(),
    decreases b,
{
    let l = last_line(m, a, b);
    last_line_bounds(m, a, b);
    let p = before_blank_lines(m, a, b);
    if a < l && all_white(m, l, b) {
        trailing_lines(m, a, l - 1);
        assert forall|k: int| l - 1 <= k < b implies #[trigger] m[k] is Break || white_at(m, k) by {
            if l <= k {
                assert(white_at(m, k));
            }
        }
        empty_where_white(m, l - 1, b);
        marks_part(m, p, l - 1, b);
    }
    assert(content(m, p, b) =~= Seq::<Mark<E>>::empty());
}

/// The edges of a body hold no content.
proof fn edge_content<E>(m: Seq<Mark<E>>, braced: bool)
    ensures
        ({
            let edge = edges(m, braced);
            &&& 0 <= edge.start <= edge.end <= m.len()
            &&& content(m, 0, edge.start) == Seq::<Mark<E>>::empty()
            &&& content(m, edge.end, m.len() as int) == Seq::<Mark<E>>::empty()
        }),
{
    let len = m.len() as int;
    let edge = edges(m, braced);
    if braced {
        let e = break_from(m, 0, len);
        break_from_bounds(m, 0, len);
        let l = last_line(m, edge.start, len);
        last_line_bounds(m, edge.start, len);
        assert forall|k: int| 0 <= k < edge.start implies #[trigger] m[k] is Break || white_at(
            m,
            k,
        ) by {
            if k < e {
                assert(white_at(m, k));
            }
        }
        empty_where_white(m, 0, edge.start);
        assert forall|k: int| edge.end <= k < len implies #[trigger] m[k] is Break || white_at(
            m,
            k,
        ) by {
            if l <= k {
                assert(white_at(m, k));
            }
        }
        empty_where_white(m, edge.end, len);
    } else {
        leading_lines(m, 0);
        trailing_lines(m, edge.start, len);
    }
}

/// Settling the white space of a body keeps all its content, in order, and adds none: its elements
/// and every byte that is not white space.
pub proof fn content_is_kept<E>(m: Seq<Mark<E>>, braced: bool)
    ensures
        piece_content(settled(m, braced)) == content(m, 0, m.len() as int),
{
    let len = m.len() as int;
    if has_content(m) {
        let edge = edges(m, braced);
        edge_content(m, braced);
        common_indent_bounds(m, edge.start, edge.end, edge.indents);
        let common = match common_indent(m, edge.start, edge.end, edge.indents) {
            Some(n) => n,
            None => 0,
        };
        lines_content(m, edge.start, edge.end, common, edge.indents, braced);
        marks_part(m, 0, edge.start, len);
        marks_part(m, edge.start, edge.end, len);
    } else {
        assert forall|k: int| 0 <= k < len implies #[trigger] m[k] is Break || white_at(m, k) by {}
        empty_where_white(m, 0, len);
        contentless(settled(m, braced));
    }
    assert(piece_content(settled(m, braced)) =~= content(m, 0, len));
}

/// Breaks alone are no content.
proof fn contentless<E>(ps: Seq<Piece<E>>)
    requires
        forall|i: int| 0 <= i < ps.len() ==> #[trigger] ps[i] == break_piece::<E>(),
    ensures
        piece_content(ps) == Seq::<Mark<E>>::empty(),
    decreases ps.len(),
{
    if ps.len() > 0 {
        contentless(ps.drop_first());
        breaks_are_empty::<E>();
        assert(ps =~= seq![ps[0]] + ps.drop_first());
        pieces_part(seq![ps[0]], ps.drop_first());
    }
    assert(piece_content(ps) =~= Seq::<Mark<E>>::empty());
}

} // verus!
