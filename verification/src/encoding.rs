//! The text of a settled body is UTF-8: where it is cut, characters end.

use vstd::prelude::*;
use vstd::utf8::{is_continuation_byte, valid_utf8, valid_utf8_concat};
use crate::ascii::{NEWLINE, RETURN};
use crate::bytes::Span;
use crate::lowering::{child_marks, child_pieces};
use crate::output::slice;
use crate::scribble::{
    all_white, before_blank_lines, blank_at, break_from, break_from_bounds, byte_run_end, bytes_of,
    common_indent, edges, has_content, last_line, last_line_bounds, lead, line_pieces, lines_pieces,
    past_blank_lines, separator_at, settled, tabs, text_marks, trimmed_end, white_at, Mark, Piece,
};
use crate::tree::{NodeKind, Tree};
use crate::unicode::{
    ascii_is_valid, boundary, char_bounds, cut_is_valid, line_start_boundary, width,
};

verus! {

/// Is the mark at `i` a byte inside a character?
pub open spec fn inside_char<E>(m: Seq<Mark<E>>, i: int) -> bool {
    m[i] matches Mark::Byte(b) && is_continuation_byte(b)
}

/// May text be cut at `i`: does no character reach over it?
pub open spec fn cuts<E>(m: Seq<Mark<E>>, i: int) -> bool {
    0 < i < m.len() && m[i - 1] is Byte ==> !inside_char(m, i)
}

/// Are the marks from `i` to `j` all bytes?
pub open spec fn all_bytes<E>(m: Seq<Mark<E>>, i: int, j: int) -> bool {
    forall|k: int| i <= k < j ==> #[trigger] m[k] is Byte
}

/// Are the bytes of a body text: valid between any two places where they may be cut?
pub open spec fn holds_text<E>(m: Seq<Mark<E>>) -> bool {
    &&& m.len() > 0 ==> !inside_char(m, 0)
    &&& forall|k: int|
        0 < k < m.len() && (m[k - 1] matches Mark::Byte(b) && b < 0x80) ==> !(#[trigger] inside_char(
            m,
            k,
        ))
    &&& forall|i: int, j: int|
        #![trigger bytes_of(m, i, j)]
        0 <= i <= j <= m.len() && all_bytes(m, i, j) && cuts(m, i) && cuts(m, j) ==> valid_utf8(
            bytes_of(m, i, j),
        )
}

/// Are the texts among the pieces valid?
pub open spec fn texts_are_valid<E>(ps: Seq<Piece<E>>) -> bool {
    forall|k: int| 0 <= k < ps.len() ==> (#[trigger] ps[k] matches Piece::Text(t) ==> valid_utf8(t))
}

/// Two bodies of text one after the other are one.
proof fn text_joins<E>(a: Seq<Mark<E>>, b: Seq<Mark<E>>)
    requires
        holds_text(a),
        holds_text(b),
    ensures
        holds_text(a + b),
{
    let m = a + b;
    let n = a.len() as int;
    if m.len() > 0 {
        if n > 0 {
            assert(m[0] == a[0]);
        } else {
            assert(m[0] == b[0]);
        }
    }
    assert forall|k: int|
        0 < k < m.len() && (m[k - 1] matches Mark::Byte(c) && c < 0x80) implies !(
    #[trigger] inside_char(m, k)) by {
        if k < n {
            assert(!inside_char(a, k));
        } else if k == n {
            assert(m[k] == b[0]);
        } else {
            assert(m[k - 1] == b[k - n - 1]);
            assert(!inside_char(b, k - n));
        }
    }
    assert forall|i: int, j: int|
        #![trigger bytes_of(m, i, j)]
        0 <= i <= j <= m.len() && all_bytes(m, i, j) && cuts(m, i) && cuts(m, j) implies valid_utf8(
        bytes_of(m, i, j),
    ) by {
        if j <= n {
            assert(cuts(a, i));
            assert(cuts(a, j));
            assert(all_bytes(a, i, j)) by {
                assert forall|k: int| i <= k < j implies #[trigger] a[k] is Byte by {
                    assert(m[k] is Byte);
                }
            }
            assert(valid_utf8(bytes_of(a, i, j)));
            assert(bytes_of(m, i, j) =~= bytes_of(a, i, j));
        } else if i >= n {
            assert(cuts(b, i - n));
            assert(cuts(b, j - n));
            assert(all_bytes(b, i - n, j - n)) by {
                assert forall|k: int| i - n <= k < j - n implies #[trigger] b[k] is Byte by {
                    assert(m[k + n] is Byte);
                }
            }
            assert(valid_utf8(bytes_of(b, i - n, j - n)));
            assert(bytes_of(m, i, j) =~= bytes_of(b, i - n, j - n));
        } else {
            assert(cuts(a, i));
            assert(cuts(a, n));
            assert(cuts(b, 0));
            assert(cuts(b, j - n));
            assert(all_bytes(a, i, n)) by {
                assert forall|k: int| i <= k < n implies #[trigger] a[k] is Byte by {
                    assert(m[k] is Byte);
                }
            }
            assert(all_bytes(b, 0, j - n)) by {
                assert forall|k: int| 0 <= k < j - n implies #[trigger] b[k] is Byte by {
                    assert(m[k + n] is Byte);
                }
            }
            let (x, y) = (bytes_of(a, i, n), bytes_of(b, 0, j - n));
            assert(valid_utf8(x));
            assert(valid_utf8(y));
            valid_utf8_concat(x, y);
            assert(bytes_of(m, i, j) =~= x + y);
        }
    }
}

/// A break or an element is a body of text.
proof fn one_mark_holds_text<E>(one: Mark<E>)
    requires
        !(one is Byte),
    ensures
        holds_text(seq![one]),
{
    let m = seq![one];
    assert forall|i: int, j: int|
        #![trigger bytes_of(m, i, j)]
        0 <= i <= j <= m.len() && all_bytes(m, i, j) && cuts(m, i) && cuts(m, j) implies valid_utf8(
        bytes_of(m, i, j),
    ) by {
        if i < j {
            assert(m[i] is Byte);
        }
        assert(bytes_of(m, i, j) =~= Seq::<u8>::empty());
    }
}

proof fn no_marks_hold_text<E>()
    ensures
        holds_text(Seq::<Mark<E>>::empty()),
{
    let m = Seq::<Mark<E>>::empty();
    assert forall|i: int, j: int|
        #![trigger bytes_of(m, i, j)]
        0 <= i <= j <= m.len() && all_bytes(m, i, j) && cuts(m, i) && cuts(m, j) implies valid_utf8(
        bytes_of(m, i, j),
    ) by {
        assert(bytes_of(m, i, j) =~= Seq::<u8>::empty());
    }
}

/// The marks of bytes.
spec fn byte_marks<E>(t: Seq<u8>) -> Seq<Mark<E>> {
    Seq::new(t.len(), |i: int| Mark::Byte(t[i]))
}

/// One character is a body of text.
proof fn char_holds_text<E>(c: Seq<u8>)
    requires
        valid_utf8(c),
        c.len() > 0,
        !is_continuation_byte(c[0]),
        forall|k: int| 0 < k < c.len() ==> is_continuation_byte(#[trigger] c[k]),
        c[0] < 0x80 ==> c.len() == 1,
    ensures
        holds_text(byte_marks::<E>(c)),
{
    let m = byte_marks::<E>(c);
    assert forall|k: int|
        0 < k < m.len() && (m[k - 1] matches Mark::Byte(b) && b < 0x80) implies !(
    #[trigger] inside_char(m, k)) by {
        if k > 1 {
            assert(is_continuation_byte(c[k - 1]));
        }
    }
    assert forall|i: int, j: int|
        #![trigger bytes_of(m, i, j)]
        0 <= i <= j <= m.len() && all_bytes(m, i, j) && cuts(m, i) && cuts(m, j) implies valid_utf8(
        bytes_of(m, i, j),
    ) by {
        if 0 < i < m.len() {
            assert(m[i - 1] is Byte);
            assert(is_continuation_byte(c[i]));
        }
        if 0 < j < m.len() {
            assert(m[j - 1] is Byte);
            assert(is_continuation_byte(c[j]));
        }
        if i < j {
            assert(bytes_of(m, i, j) =~= c);
        } else {
            assert(bytes_of(m, i, j) =~= Seq::<u8>::empty());
        }
    }
}

/// The bytes of a character from its second on are marked one by one.
proof fn inner_bytes_marked<E>(t: Seq<u8>, k: int, e: int)
    requires
        0 <= k <= e <= t.len(),
        forall|q: int| k <= q < e ==> is_continuation_byte(#[trigger] t[q]),
    ensures
        text_marks::<E>(t, k) == byte_marks::<E>(t.subrange(k, e)) + text_marks::<E>(t, e),
    decreases e - k,
{
    if k < e {
        inner_bytes_marked::<E>(t, k + 1, e);
        assert(is_continuation_byte(t[k]));
        assert(byte_marks::<E>(t.subrange(k, e)) =~= seq![Mark::<E>::Byte(t[k])] + byte_marks::<E>(
            t.subrange(k + 1, e),
        ));
        assert(text_marks::<E>(t, k) =~= byte_marks::<E>(t.subrange(k, e)) + text_marks::<E>(t, e));
    } else {
        assert(byte_marks::<E>(t.subrange(k, e)) =~= Seq::<Mark<E>>::empty());
        assert(text_marks::<E>(t, k) =~= byte_marks::<E>(t.subrange(k, e)) + text_marks::<E>(t, e));
    }
}

/// The marks of valid text hold text.
proof fn text_holds_text<E>(t: Seq<u8>, i: int)
    requires
        valid_utf8(t),
        boundary(t, i),
    ensures
        holds_text(text_marks::<E>(t, i)),
    decreases t.len() - i,
{
    if i < t.len() {
        char_bounds(t, i);
        let w = width(t[i]);
        let brk = Mark::<E>::Break;
        one_mark_holds_text(brk);
        text_holds_text::<E>(t, i + w);
        if t[i] == NEWLINE {
            text_joins(seq![brk], text_marks::<E>(t, i + 1));
        } else if t[i] == RETURN {
            if !(i + 1 == t.len() || t[i + 1] == NEWLINE) {
                text_joins(seq![brk], text_marks::<E>(t, i + 1));
            }
        } else if separator_at(t, i) {
            text_joins(seq![brk], text_marks::<E>(t, i + 3));
        } else {
            let c = t.subrange(i, i + w);
            cut_is_valid(t, i, i + w);
            assert forall|k: int| 0 < k < c.len() implies is_continuation_byte(#[trigger] c[k]) by {
                assert(c[k] == t[i + k]);
            }
            char_holds_text::<E>(c);
            inner_bytes_marked::<E>(t, i + 1, i + w);
            let inner = byte_marks::<E>(t.subrange(i + 1, i + w));
            assert(byte_marks::<E>(c) =~= seq![Mark::<E>::Byte(t[i])] + inner);
            assert(text_marks::<E>(t, i) =~= byte_marks::<E>(c) + text_marks::<E>(t, i + w));
            text_joins(byte_marks::<E>(c), text_marks::<E>(t, i + w));
        }
    } else {
        no_marks_hold_text::<E>();
    }
}

/// The marks of the children of a body hold text.
proof fn children_hold_text(s: Seq<u8>, kids: Seq<Tree>, i: int, routed: bool)
    requires
        valid_utf8(s),
        0 <= i,
    ensures
        holds_text(child_marks(s, kids, i, routed)),
    decreases kids.len() - i,
{
    no_marks_hold_text::<usize>();
    if i < kids.len() {
        let one = Mark::<usize>::Elem(i as usize);
        one_mark_holds_text(one);
        children_hold_text(s, kids, i + 1, routed);
        match kids[i].kind {
            NodeKind::Text => {
                let t = slice(s, kids[i].span);
                slices_are_valid(s, kids[i].span);
                if t.len() > 0 {
                    line_start_boundary(t, 0);
                }
                text_holds_text::<usize>(t, 0);
                text_joins(text_marks::<usize>(t, 0), child_marks(s, kids, i + 1, routed));
            },
            NodeKind::Comment { .. } => {},
            NodeKind::Statement { .. } => {},
            _ => {
                text_joins(seq![one], child_marks(s, kids, i + 1, routed));
            },
        }
    }
}

/// What stands in a range of characters is valid.
pub proof fn slices_are_valid(s: Seq<u8>, span: Span)
    requires
        valid_utf8(s),
    ensures
        valid_utf8(slice(s, span)),
{
    if span.start <= span.end && boundary(s, span.start as int) && boundary(s, span.end as int) {
        cut_is_valid(s, span.start as int, span.end as int);
    }
}

/// A run of bytes ends where it may be cut.
proof fn run_ends<E>(m: Seq<Mark<E>>, i: int, j: int)
    requires
        0 <= i <= j <= m.len(),
        cuts(m, j),
    ensures
        i <= byte_run_end(m, i, j) <= j,
        cuts(m, byte_run_end(m, i, j)) || byte_run_end(m, i, j) == i,
        all_bytes(m, i, byte_run_end(m, i, j)),
        i < j && m[i] is Byte ==> i < byte_run_end(m, i, j) && cuts(m, byte_run_end(m, i, j)),
    decreases j - i,
{
    if i < j && m[i] is Byte {
        run_ends(m, i + 1, j);
    }
}

/// The texts of a line that is cut well are valid.
proof fn line_is_valid<E>(m: Seq<Mark<E>>, i: int, j: int)
    requires
        holds_text(m),
        0 <= i <= j <= m.len(),
        cuts(m, i),
        cuts(m, j),
    ensures
        texts_are_valid(line_pieces(m, i, j)),
    decreases j - i,
{
    if i < j {
        match m[i] {
            Mark::Byte(_) => {
                run_ends(m, i, j);
                let e = byte_run_end(m, i, j);
                assert(valid_utf8(bytes_of(m, i, e)));
                line_is_valid(m, e, j);
            },
            _ => {
                line_is_valid(m, i + 1, j);
            },
        }
    }
}

/// Behind spaces and tabs a line may be cut.
proof fn indent_cuts<E>(m: Seq<Mark<E>>, i: int, j: int, n: int)
    requires
        holds_text(m),
        0 <= i <= j <= m.len(),
        cuts(m, i),
        0 <= n <= tabs(m, i, j),
    ensures
        i + n <= j,
        cuts(m, i + n),
    decreases n,
{
    if n > 0 {
        if i < j && blank_at(m, i) {
            if i + 1 < m.len() {
                assert(!inside_char(m, i + 1));
            }
            indent_cuts(m, i + 1, j, n - 1);
        }
    }
}

/// Before trailing spaces and tabs a line may be cut.
proof fn trim_cuts<E>(m: Seq<Mark<E>>, i: int, j: int)
    requires
        0 <= i <= j <= m.len(),
        cuts(m, j),
    ensures
        i <= trimmed_end(m, i, j) <= j,
        cuts(m, trimmed_end(m, i, j)),
    decreases j - i,
{
    if i < j && blank_at(m, j - 1) {
        trim_cuts(m, i, j - 1);
    }
}

proof fn tabs_not_negative<E>(m: Seq<Mark<E>>, i: int, j: int)
    ensures
        tabs(m, i, j) >= 0,
    decreases j - i,
{
    if i < j && blank_at(m, i) {
        tabs_not_negative(m, i + 1, j);
    }
}

/// The texts of lines are valid.
proof fn lines_are_valid<E>(
    m: Seq<Mark<E>>,
    i: int,
    b: int,
    common: int,
    indents: bool,
    braced: bool,
)
    requires
        holds_text(m),
        0 <= i <= b <= m.len(),
        0 <= common,
        cuts(m, i),
        cuts(m, b),
    ensures
        texts_are_valid(lines_pieces(m, i, b, common, indents, braced)),
    decreases b - i,
{
    let e = break_from(m, i, b);
    break_from_bounds(m, i, b);
    tabs_not_negative(m, i, e);
    let cut = if tabs(m, i, e) <= common {
        tabs(m, i, e)
    } else {
        common
    };
    let start = if indents {
        i + cut
    } else {
        i
    };
    if indents {
        indent_cuts(m, i, e, cut);
    }
    trim_cuts(m, start, e);
    let end = if braced && e == b && b == m.len() {
        e
    } else {
        trimmed_end(m, start, e)
    };
    line_is_valid(m, start, end);
    if e < b {
        lines_are_valid(m, e + 1, b, common, true, braced);
        ascii_is_valid(seq![NEWLINE]);
    }
}

/// What is left of a body is cut at its breaks.
proof fn edges_cut<E>(m: Seq<Mark<E>>, braced: bool)
    ensures
        0 <= edges(m, braced).start <= edges(m, braced).end <= m.len(),
        cuts(m, edges(m, braced).start),
        cuts(m, edges(m, braced).end),
{
    let len = m.len() as int;
    if braced {
        let e = break_from(m, 0, len);
        break_from_bounds(m, 0, len);
        let start = edges(m, braced).start;
        last_line_bounds(m, start, len);
    } else {
        lead_cuts(m, 0);
        tail_cuts(m, past_blank_lines(m, 0), len);
    }
}

proof fn lead_cuts<E>(m: Seq<Mark<E>>, a: int)
    requires
        0 <= a <= m.len(),
        cuts(m, a),
    ensures
        a <= past_blank_lines(m, a) <= m.len(),
        cuts(m, past_blank_lines(m, a)),
    decreases m.len() - a,
{
    let e = break_from(m, a, m.len() as int);
    break_from_bounds(m, a, m.len() as int);
    if e < m.len() && all_white(m, a, e) {
        lead_cuts(m, e + 1);
    }
}

proof fn tail_cuts<E>(m: Seq<Mark<E>>, a: int, b: int)
    requires
        0 <= a <= b <= m.len(),
        cuts(m, b),
    ensures
        a <= before_blank_lines(m, a, b) <= b,
        cuts(m, before_blank_lines(m, a, b)),
    decreases b,
{
    let l = last_line(m, a, b);
    last_line_bounds(m, a, b);
    if a < l && all_white(m, l, b) {
        tail_cuts(m, a, l - 1);
    }
}

/// The texts of a settled body are valid.
proof fn settled_is_valid<E>(m: Seq<Mark<E>>, braced: bool)
    requires
        holds_text(m),
    ensures
        texts_are_valid(settled(m, braced)),
{
    if has_content(m) {
        let edge = edges(m, braced);
        edges_cut(m, braced);
        indent_not_negative(m, edge.start, edge.end, edge.indents);
        let common = match common_indent(m, edge.start, edge.end, edge.indents) {
            Some(n) => n,
            None => 0,
        };
        lines_are_valid(m, edge.start, edge.end, common, edge.indents, braced);
    } else if braced {
        ascii_is_valid(seq![NEWLINE]);
    }
}

proof fn indent_not_negative<E>(m: Seq<Mark<E>>, i: int, b: int, counts: bool)
    requires
        0 <= i <= b <= m.len(),
    ensures
        common_indent(m, i, b, counts) matches Some(n) ==> n >= 0,
    decreases b - i,
{
    let e = break_from(m, i, b);
    break_from_bounds(m, i, b);
    lead_not_negative(m, i, e);
    if e < b {
        indent_not_negative(m, e + 1, b, true);
    }
}

proof fn lead_not_negative<E>(m: Seq<Mark<E>>, i: int, j: int)
    ensures
        lead(m, i, j) >= 0,
    decreases j - i,
{
    if i < j && white_at(m, i) {
        lead_not_negative(m, i + 1, j);
    }
}

/// The text that the children of a body settle to is valid UTF-8.
pub proof fn settled_children_are_valid(
    s: Seq<u8>,
    kids: Seq<Tree>,
    i: int,
    routed: bool,
    braced: bool,
)
    requires
        valid_utf8(s),
        0 <= i,
    ensures
        texts_are_valid(child_pieces(s, kids, i, routed, braced)),
{
    children_hold_text(s, kids, i, routed);
    settled_is_valid(child_marks(s, kids, i, routed), braced);
}

} // verus!
