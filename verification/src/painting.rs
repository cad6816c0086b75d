//! What highlighting owes a document: every node of it is painted, and all of its code is handed on
//! to be painted token by token.

use vstd::prelude::*;
use crate::ascii::{
    AT_SIGN, BACKSLASH, COLON, HASH, HYPHEN, LBRACE, LOWER_E, LOWER_F, LOWER_L, LOWER_O, LOWER_S,
    LPAREN, PERCENT, PIPE, PLUS, SPACE, TAB,
};
use crate::anatomy::{
    all_sound, are_children, is_child, is_form, is_part, is_prop, is_sound, no_code_in_item,
    sound_inside,
};
use crate::bytes::{at, clamp, run_end, utf8, Span};
use crate::highlight::{
    body_open, children, collected, conditional, doc_state_sigils, element, emit, emphasis_paint,
    fence_above, fence_markers, form_start, gap_end, gap_start, group, head, head_end,
    interpolation, is_plain_name, item_children, iteration, js, lies_in, painted, parts, prop,
    prop_pipes, props, statement_extent, statement_markers, statements, structural, unpainted,
    verbatim, NotaHighlightKind, NotaHighlightSpan, Paint,
};
use crate::lines::{content_start, line_start, next_line_bounds};
use crate::lowering::{
    first_child, is_host, is_statement, names_identifier, statements_end, statements_end_bounds,
};
use crate::raw::{code_span, math_span, CodeScan, MathScan};
use crate::statements::{fence_close, fence_close_bounds, list_marker, prop_line, statement_opened};
use crate::tree::{BodyForm, NodeKind, NotaDocStateKind, NotaEmphasisMarker, NotaTag, Tree};

verus! {

/// Was everything that `a` holds painted in `b` too, with its fences inside the source?
#[verifier::opaque]
pub open spec fn is_grown(s: Seq<u8>, a: Paint, b: Paint) -> bool {
    &&& a.spans.len() <= b.spans.len()
    &&& a.ranges.len() <= b.ranges.len()
    &&& forall|i: int| 0 <= i < a.spans.len() ==> #[trigger] b.spans[i] == a.spans[i]
    &&& forall|i: int| 0 <= i < a.ranges.len() ==> #[trigger] b.ranges[i] == a.ranges[i]
    &&& a.fence_inner <= s.len() ==> b.fence_inner <= s.len()
}

/// Is the extent from `a` to `b` painted as `kind`?
#[verifier::opaque]
pub open spec fn has(p: Paint, a: int, b: int, kind: NotaHighlightKind) -> bool {
    p.spans.contains(NotaHighlightSpan { start: a as u32, end: b as u32, kind })
}

/// Does a collected extent of JavaScript cover `i`?
#[verifier::opaque]
pub open spec fn covers(p: Paint, i: int) -> bool {
    exists|k: int| 0 <= k < p.ranges.len() && (#[trigger] p.ranges[k]).start <= i < p.ranges[k].end
}

/// Does `i` stand inside a form among `kids`?
pub open spec fn inside_form(kids: Seq<Tree>, i: int) -> bool {
    exists|k: int|
        0 <= k < kids.len() && (#[trigger] kids[k]).kind is Markup && kids[k].span.start <= i
            < kids[k].span.end
}

/// Is all the code of `t` collected, but for the forms inside it?
pub open spec fn is_collected(p: Paint, t: Tree) -> bool {
    forall|i: int|
        t.span.start <= i < t.span.end && !inside_form(t.kids, i) ==> #[trigger] covers(p, i)
}

/// Is a node itself painted? The code right below it is collected, or, where it is an interpolated
/// name, painted as one; and of each kind this says how its extent, its name or its markers are
/// painted.
#[verifier::opaque]
pub open spec fn is_shown(s: Seq<u8>, p: Paint, t: Tree) -> bool {
    let (a, b) = (t.span.start as int, t.span.end as int);
    &&& forall|k: int|
        0 <= k < t.kids.len() && (#[trigger] t.kids[k]).kind is Js ==> is_collected(p, t.kids[k])
            || (t.kind == NodeKind::Interpolation && names_identifier(s, t.span) && has(
            p,
            a,
            b,
            NotaHighlightKind::Interpolation,
        ))
    &&& match t.kind {
        NodeKind::Statement { class: _, attach: _ } => is_collected(p, t),
        NodeKind::Heading { level } => (a < b ==> has(p, a, b, NotaHighlightKind::Heading)) && has(
            p,
            content_start(s, a),
            content_start(s, a) + level,
            NotaHighlightKind::HeadingMarker,
        ),
        NodeKind::ListItem { list: _ } => at(s, a) == Some(HYPHEN) || at(s, a) == Some(PLUS) ==> has(
            p,
            a,
            a + 1,
            NotaHighlightKind::ListMarker,
        ),
        NodeKind::Interpolation => names_identifier(s, t.span)
            && at(s, a - 1) == Some(AT_SIGN) ==> has(
            p,
            a - 1,
            a,
            NotaHighlightKind::Sigil,
        ),
        NodeKind::Code { is_block: _, lang: _ } => is_entered(s, t) ==> forall|k: int|
            0 <= k < t.kids.len() && (#[trigger] t.kids[k]).kind is Raw ==> has(
                p,
                t.kids[k].span.start as int,
                t.kids[k].span.end as int,
                NotaHighlightKind::Code,
            ),
        NodeKind::Math { is_block: _ } => is_entered(s, t) ==> forall|k: int|
            0 <= k < t.kids.len() && (#[trigger] t.kids[k]).kind is Raw ==> has(
                p,
                t.kids[k].span.start as int,
                t.kids[k].span.end as int,
                NotaHighlightKind::Math,
            ),
        NodeKind::ThematicBreak => has(p, a, b, NotaHighlightKind::ListMarker),
        NodeKind::Comment { block: _ } => a < b ==> has(p, a, b, NotaHighlightKind::Comment),
        NodeKind::Emphasis { marker } => match marker {
            NotaEmphasisMarker::Strong => b - a > 1 ==> has(
                p,
                a,
                b,
                NotaHighlightKind::EmphasisStrong,
            ) && has(p, a, a + 1, NotaHighlightKind::Sigil) && has(
                p,
                b - 1,
                b,
                NotaHighlightKind::Sigil,
            ),
            NotaEmphasisMarker::Em => b - a > 1 ==> has(p, a, b, NotaHighlightKind::EmphasisEm)
                && has(p, a, a + 1, NotaHighlightKind::Sigil) && has(
                p,
                b - 1,
                b,
                NotaHighlightKind::Sigil,
            ),
            NotaEmphasisMarker::Strike => b - a > 2 ==> has(
                p,
                a,
                b,
                NotaHighlightKind::EmphasisStrike,
            ) && has(p, a, a + 2, NotaHighlightKind::Sigil) && has(
                p,
                b - 2,
                b,
                NotaHighlightKind::Sigil,
            ),
        },
        NodeKind::DocState { sugar, label } => {
            let e = label.end as int;
            &&& label.start < label.end ==> has(
                p,
                label.start as int,
                e,
                NotaHighlightKind::Interpolation,
            )
            &&& match sugar {
                NotaDocStateKind::Label => has(p, a, a + 1, NotaHighlightKind::Sigil) && has(
                    p,
                    e,
                    e + 1,
                    NotaHighlightKind::Sigil,
                ),
                NotaDocStateKind::Ref => has(p, a, a + 1, NotaHighlightKind::Sigil),
                NotaDocStateKind::FootnoteMark => has(p, a, a + 2, NotaHighlightKind::Sigil) && has(
                    p,
                    e,
                    e + 1,
                    NotaHighlightKind::Sigil,
                ),
                NotaDocStateKind::FootnoteText => has(p, a, a + 2, NotaHighlightKind::Sigil) && has(
                    p,
                    e,
                    e + 2,
                    NotaHighlightKind::Sigil,
                ),
            }
        },
        NodeKind::Attrs => a < b ==> has(p, a, a + 1, NotaHighlightKind::Sigil) && has(
            p,
            b - 1,
            b,
            NotaHighlightKind::Sigil,
        ),
        NodeKind::Field { key, quoted: _ } => has(
            p,
            key.start as int,
            key.end as int,
            NotaHighlightKind::PropName,
        ),
        NodeKind::Shorthand => has(p, a, b, NotaHighlightKind::PropName),
        NodeKind::Element { tag, body } => {
            &&& match tag {
                NotaTag::Host { name } => name.start < name.end ==> has(
                    p,
                    name.start as int,
                    name.end as int,
                    NotaHighlightKind::TagHost,
                ),
                NotaTag::Component { name } => name.start < name.end ==> has(
                    p,
                    name.start as int,
                    name.end as int,
                    NotaHighlightKind::TagComponent,
                ),
                NotaTag::Dynamic => has(p, a, a + 1, NotaHighlightKind::Sigil),
            }
            &&& body == BodyForm::Verbatim ==> has(p, b - 2, b, NotaHighlightKind::Sigil)
                && forall|k: int|
                0 <= k < t.kids[1].kids.len() && (#[trigger] t.kids[1].kids[k]).kind is Raw ==> has(
                    p,
                    t.kids[1].kids[k].span.start as int,
                    t.kids[1].kids[k].span.end as int,
                    NotaHighlightKind::Verbatim,
                )
        },
        NodeKind::If => if at(s, a) == Some(AT_SIGN) {
            a + 3 <= s.len() ==> has(p, a, a + 1, NotaHighlightKind::Sigil) && has(
                p,
                a + 1,
                a + 3,
                NotaHighlightKind::ControlKeyword,
            )
        } else {
            has(p, a, a + 2, NotaHighlightKind::ControlKeyword)
        },
        NodeKind::For => a + 4 <= s.len() ==> has(p, a, a + 1, NotaHighlightKind::Sigil) && has(
            p,
            a + 1,
            a + 4,
            NotaHighlightKind::ControlKeyword,
        ),
        _ => true,
    }
}

/// Is what stands below a node painted? Raw spans are measured again, over the whole source, and
/// nothing stands below the code of an interpolated name.
pub open spec fn is_entered(s: Seq<u8>, t: Tree) -> bool {
    match t.kind {
        NodeKind::Code { is_block: _, lang: _ } => code_span(s, t.span.start as int) is Code,
        NodeKind::Math { is_block: _ } => math_span(s, t.span.start as int) is Math,
        NodeKind::Interpolation => !names_identifier(s, t.span),
        _ => true,
    }
}

/// Is a node painted, and is every node below it?
#[verifier::opaque]
pub open spec fn all_shown(s: Seq<u8>, p: Paint, t: Tree) -> bool
    decreases t,
{
    is_shown(s, p, t) && (is_entered(s, t) ==> forall|k: int|
        0 <= k < t.kids.len() ==> all_shown(s, p, #[trigger] t.kids[k]))
}

/// Are the trees from `k` on painted?
pub open spec fn shown_from(s: Seq<u8>, p: Paint, kids: Seq<Tree>, k: int) -> bool {
    forall|i: int| k <= i < kids.len() ==> all_shown(s, p, #[trigger] kids[i])
}

/// What has grown twice has grown.
pub broadcast proof fn grown_twice(s: Seq<u8>, a: Paint, b: Paint, c: Paint)
    requires
        #[trigger] is_grown(s, a, b),
        #[trigger] is_grown(s, b, c),
    ensures
        is_grown(s, a, c),
{
    reveal(is_grown);
    assert forall|i: int| 0 <= i < a.spans.len() implies #[trigger] c.spans[i] == a.spans[i] by {
        assert(b.spans[i] == a.spans[i]);
    }
    assert forall|i: int| 0 <= i < a.ranges.len() implies #[trigger] c.ranges[i] == a.ranges[i] by {
        assert(b.ranges[i] == a.ranges[i]);
    }
}

/// What has grown keeps its fences inside the source.
pub broadcast proof fn grown_inside(s: Seq<u8>, a: Paint, b: Paint)
    requires
        #[trigger] is_grown(s, a, b),
        a.fence_inner <= s.len(),
    ensures
        b.fence_inner <= s.len(),
{
    reveal(is_grown);
}

proof fn grown_alike(s: Seq<u8>, a: Paint)
    ensures
        is_grown(s, a, a),
{
    reveal(is_grown);
}

/// What is painted stays painted.
pub broadcast proof fn has_still(s: Seq<u8>, a: Paint, b: Paint, x: int, y: int,
    kind: NotaHighlightKind)
    requires
        #[trigger] is_grown(s, a, b),
        #[trigger] has(a, x, y, kind),
    ensures
        has(b, x, y, kind),
{
    reveal(is_grown);
    reveal(has);
    let span = NotaHighlightSpan { start: x as u32, end: y as u32, kind };
    let i = choose|i: int| 0 <= i < a.spans.len() && a.spans[i] == span;
    assert(b.spans[i] == span);
}

proof fn covers_still(s: Seq<u8>, a: Paint, b: Paint, i: int)
    requires
        is_grown(s, a, b),
        covers(a, i),
    ensures
        covers(b, i),
{
    reveal(is_grown);
    reveal(covers);
    let k = choose|k: int|
        0 <= k < a.ranges.len() && (#[trigger] a.ranges[k]).start <= i < a.ranges[k].end;
    assert(b.ranges[k] == a.ranges[k]);
}

/// What is collected stays collected.
pub broadcast proof fn collected_still(s: Seq<u8>, a: Paint, b: Paint, t: Tree)
    requires
        #[trigger] is_grown(s, a, b),
        #[trigger] is_collected(a, t),
    ensures
        is_collected(b, t),
{
    assert forall|i: int|
        t.span.start <= i < t.span.end && !inside_form(t.kids, i) implies #[trigger] covers(
        b,
        i,
    ) by {
        assert(covers(a, i));
        covers_still(s, a, b, i);
    }
}

proof fn shown_still(s: Seq<u8>, a: Paint, b: Paint, t: Tree)
    requires
        is_grown(s, a, b),
        is_shown(s, a, t),
    ensures
        is_shown(s, b, t),
{
    broadcast use has_still, collected_still;

    reveal(is_shown);
    assert forall|k: int| 0 <= k < t.kids.len() && (#[trigger] t.kids[k]).kind is Js implies
        is_collected(b, t.kids[k]) || (t.kind == NodeKind::Interpolation && names_identifier(
        s,
        t.span,
    ) && has(
        b,
        t.span.start as int,
        t.span.end as int,
        NotaHighlightKind::Interpolation,
    )) by {
        assert(t.kids[k].kind is Js);
    }
}

/// What is shown stays shown.
pub broadcast proof fn all_shown_still(s: Seq<u8>, a: Paint, b: Paint, t: Tree)
    requires
        #[trigger] is_grown(s, a, b),
        #[trigger] all_shown(s, a, t),
    ensures
        all_shown(s, b, t),
    decreases t,
{
    reveal_with_fuel(all_shown, 2);
    shown_still(s, a, b, t);
    if is_entered(s, t) {
        assert forall|k: int| 0 <= k < t.kids.len() implies all_shown(s, b,
            #[trigger] t.kids[k]) by {
            assert(all_shown(s, a, t.kids[k]));
            all_shown_still(s, a, b, t.kids[k]);
        }
    }
}

/// A node that is painted with all right below it is painted whole.
proof fn shown_whole(s: Seq<u8>, p: Paint, t: Tree)
    requires
        t.kind is Props || t.kind is Body || t.kind is Fragment || is_shown(s, p, t),
        is_sound(s, t),
        is_entered(s, t) ==> shown_from(s, p, t.kids, 0),
    ensures
        all_shown(s, p, t),
{
    reveal(is_shown);
    reveal_with_fuel(all_shown, 2);
    sound_inside(s, t);
}

/// Painting one span adds to what is painted.
pub broadcast proof fn emit_grows(s: Seq<u8>, st: Paint, a: int, b: int, kind: NotaHighlightKind)
    ensures
        is_grown(s, st, #[trigger] emit(s, st, a, b, kind)),
        0 <= a < b <= s.len() ==> has(emit(s, st, a, b, kind), a, b, kind),
{
    reveal(is_grown);
    reveal(has);
    if 0 <= a < b <= s.len() {
        let p = emit(s, st, a, b, kind);
        assert(p.spans[st.spans.len() as int] == NotaHighlightSpan {
            start: a as u32,
            end: b as u32,
            kind,
        });
    }
}

proof fn collected_grows(s: Seq<u8>, st: Paint, a: int, b: int)
    requires
        s.len() <= u32::MAX,
    ensures
        is_grown(s, st, collected(s, st, a, b)),
        0 <= a && b <= s.len() ==> forall|i: int|
            a <= i < b ==> #[trigger] covers(collected(s, st, a, b), i),
{
    reveal(is_grown);
    reveal(covers);
    let p = collected(s, st, a, b);
    if 0 <= a < b <= s.len() {
        assert(p.ranges[st.ranges.len() as int] == Span { start: a as u32, end: b as u32 });
    }
}

/// What a node is painted as is reached from where it stands: it is a child, a form, code, or a form
/// inside code, and no statement.
pub open spec fn is_paintable(t: Tree) -> bool {
    (is_child(t) || t.kind is Js || t.kind is Markup) && !(t.kind is Statement)
}

proof fn code_is_shown(
    s: Seq<u8>,
    st: Paint,
    kids: Seq<Tree>,
    k: int,
    p: int,
    e: int,
    style: bool,
)
    requires
        s.len() <= u32::MAX,
        st.fence_inner <= s.len(),
        0 <= k,
        0 <= p,
        e <= s.len(),
        all_sound(s, kids),
        forall|i: int|
            0 <= i < kids.len() ==> (#[trigger] kids[i]).kind is Markup || kids[i].kind is Binding,
    ensures
        is_grown(s, st, js(s, st, kids, k, p, e, style)),
        shown_from(s, js(s, st, kids, k, p, e, style), kids, k),
        forall|i: int|
            p <= i < e && (forall|j: int|
                k <= j < kids.len() && (#[trigger] kids[j]).kind is Markup ==> !(kids[j].span.start
                    <= i < kids[j].span.end)) ==> #[trigger] covers(
                js(s, st, kids, k, p, e, style),
                i,
            ),
    decreases kids, kids.len() - k, 5int, 0int,
{
    broadcast use grown_inside, grown_twice, all_shown_still;

    let done = js(s, st, kids, k, p, e, style);
    if k < kids.len() {
        let m = kids[k];
        if m.kind == NodeKind::Markup {
            let hole = if m.span.start < e {
                m.span.start as int
            } else {
                e
            };
            let before = collected(s, st, p, hole);
            let next = if p < m.span.end {
                m.span.end as int
            } else {
                p
            };
            collected_grows(s, st, p, hole);
            node_is_shown(s, before, m, style);
            let mid = painted(s, before, m, style);
            code_is_shown(s, mid, kids, k + 1, next, e, style);
            assert(done == js(s, mid, kids, k + 1, next, e, style));
            assert(is_grown(s, before, done));
            assert forall|i: int|
                p <= i < e && (forall|j: int|
                    k <= j < kids.len() && (#[trigger] kids[j]).kind is Markup ==> !(
                    kids[j].span.start <= i < kids[j].span.end)) implies #[trigger] covers(
                done,
                i,
            ) by {
                if i < hole {
                    assert(covers(before, i));
                    covers_still(s, before, done, i);
                } else {
                    assert(!(kids[k].span.start <= i < kids[k].span.end));
                    assert(next <= i);
                }
            }
        } else {
            code_is_shown(s, st, kids, k + 1, p, e, style);
            sound_inside(s, m);
            assert(is_shown(s, done, m)) by {
                reveal(is_shown);
            }
            shown_whole(s, done, m);
        }
    } else {
        collected_grows(s, st, p, e);
    }
}

proof fn js_is_shown(s: Seq<u8>, st: Paint, t: Tree, a: int, b: int, style: bool)
    requires
        s.len() <= u32::MAX,
        st.fence_inner <= s.len(),
        is_sound(s, t),
        t.kind is Js || t.kind is Statement,
        a == t.span.start,
        t.span.end <= b <= s.len(),
    ensures
        is_grown(s, st, js(s, st, t.kids, 0, a, b, style)),
        is_collected(js(s, st, t.kids, 0, a, b, style), t),
        all_shown(s, js(s, st, t.kids, 0, a, b, style), t),
    decreases t.kids, t.kids.len() as int, 6int, 0int,
{
    sound_inside(s, t);
    code_is_shown(s, st, t.kids, 0, a, b, style);
    let done = js(s, st, t.kids, 0, a, b, style);
    assert forall|i: int|
        t.span.start <= i < t.span.end && !inside_form(t.kids, i) implies #[trigger] covers(
        done,
        i,
    ) by {
        assert forall|j: int| 0 <= j < t.kids.len() && (#[trigger] t.kids[j]).kind is Markup implies
            !(t.kids[j].span.start <= i < t.kids[j].span.end) by {}
    }
    assert(is_shown(s, done, t)) by {
        reveal(is_shown);
    }
    shown_whole(s, done, t);
}

#[verifier::rlimit(60)]
proof fn node_is_shown(s: Seq<u8>, st: Paint, t: Tree, style: bool)
    requires
        s.len() <= u32::MAX,
        st.fence_inner <= s.len(),
        is_sound(s, t),
        is_paintable(t),
    ensures
        is_grown(s, st, painted(s, st, t, style)),
        all_shown(s, painted(s, st, t, style), t),
        t.kind is Js ==> is_collected(painted(s, st, t, style), t),
    decreases t, 0int, 20int, 0int,
{
    broadcast use grown_inside, grown_twice, has_still, collected_still, all_shown_still,
        emit_grows;

    let (a, b) = (t.span.start as int, t.span.end as int);
    let done = painted(s, st, t, style);
    grown_alike(s, st);
    sound_inside(s, t);
    match t.kind {
        NodeKind::Element { tag, body } => {
            if body == BodyForm::Verbatim {
                verbatim_is_shown(s, st, t, tag, style);
            } else {
                element_is_shown(s, st, t, tag, body, style);
            }
        },
        NodeKind::Fragment => {
            let sigil = if at(s, a) == Some(AT_SIGN) && at(s, a + 1) == Some(LBRACE) {
                emit(s, st, a, a + 1, NotaHighlightKind::Sigil)
            } else {
                st
            };
            children_are_shown(s, sigil, t.kids, 0, None, style);
        },
        NodeKind::Interpolation => {
            interpolation_is_shown(s, st, t, style);
        },
        NodeKind::Js { tier: _ } => {
            js_is_shown(s, st, t, a, b, style);
        },
        NodeKind::Markup => {
            node_is_shown(s, st, t.kids[0], style);
        },
        NodeKind::If => {
            conditional_is_shown(s, st, t, style);
        },
        NodeKind::For => {
            iteration_is_shown(s, st, t, style);
        },
        NodeKind::Attrs => {
            group_is_shown(s, st, t, style);
        },
        _ => {
            sugar_is_shown(s, st, t, style);
        },
    }
    if t.kind is Fragment || t.kind is Markup {
        assert(is_shown(s, done, t)) by {
            reveal(is_shown);
        }
        shown_whole(s, done, t);
    }
}

/// A heading's marker is what leads its line.
proof fn markers_lead(s: Seq<u8>, a: int)
    requires
        0 <= a <= s.len(),
        at(s, content_start(s, a)) == Some(HASH),
    ensures
        gap_end(s, a) == content_start(s, a),
    decreases s.len() - a,
{
    if a < s.len() && (s[a] == SPACE || s[a] == TAB) {
        markers_lead(s, a + 1);
    }
}

#[verifier::spinoff_prover]
#[verifier::rlimit(60)]
proof fn sugar_is_shown(s: Seq<u8>, st: Paint, t: Tree, style: bool)
    requires
        s.len() <= u32::MAX,
        st.fence_inner <= s.len(),
        is_sound(s, t),
        is_child(t) && !is_form(t) && !(t.kind is Statement) && !(t.kind is Attrs),
    ensures
        is_grown(s, st, painted(s, st, t, style)),
        all_shown(s, painted(s, st, t, style), t),
    decreases t, 0int, 19int, 0int,
{
    broadcast use grown_inside, grown_twice, has_still, collected_still, all_shown_still,
        emit_grows;

    let (a, b) = (t.span.start as int, t.span.end as int);
    let done = painted(s, st, t, style);
    grown_alike(s, st);
    sound_inside(s, t);
    match t.kind {
        NodeKind::Heading { level } => {
            let marker = gap_end(s, a);
            markers_lead(s, a);
            let under = emit(s, st, a, b, NotaHighlightKind::Heading);
            let run = emit(s, under, marker, marker + level, NotaHighlightKind::HeadingMarker);
            no_code_in_item(t);
            item_is_shown(s, run, t.kids, style);
        },
        NodeKind::ListItem { list: _ } => {
            let marked = match list_marker(s, a) {
                Some(m) => emit(
                    s,
                    st,
                    m.offset as int,
                    m.body_col - 1,
                    NotaHighlightKind::ListMarker,
                ),
                None => st,
            };
            no_code_in_item(t);
            item_is_shown(s, marked, t.kids, style);
        },
        NodeKind::DocState { sugar, label } => {
            let sigils = doc_state_sigils(s, st, sugar, a, label);
            let name = emit(
                s,
                sigils,
                label.start as int,
                label.end as int,
                NotaHighlightKind::Interpolation,
            );
            assert(is_grown(s, st, name));
            if t.kids.len() == 2 {
                sound_inside(s, t.kids[0]);
                sound_inside(s, t.kids[1]);
                let given = props(s, name, t.kids[0].kids, 0, style);
                props_are_shown(s, name, t.kids[0].kids, 0, style);
                children_are_shown(s, given, t.kids[1].kids, 0, None, style);
                shown_whole(s, given, t.kids[0]);
                shown_whole(s, done, t.kids[1]);
            }
        },
        NodeKind::Emphasis { marker } => {
            let (kind, len) = emphasis_paint(marker);
            let under = emit(s, st, a, b, kind);
            let open = emit(s, under, a, a + len, NotaHighlightKind::Sigil);
            let close = emit(s, open, b - len, b, NotaHighlightKind::Sigil);
            children_are_shown(s, close, t.kids, 0, None, style);
        },
        NodeKind::Link { url: _ } => {
            children_are_shown(s, st, t.kids, 0, None, style);
        },
        NodeKind::Code { is_block: _, lang: _ } => match code_span(s, a) {
            CodeScan::Code { span, is_block: _, lang, content, resume: _ } => {
                let open = emit(
                    s,
                    st,
                    span.start as int,
                    content.start as int,
                    NotaHighlightKind::CodeDelim,
                );
                let tag = match lang {
                    Some(l) => emit(
                        s,
                        open,
                        l.start as int,
                        l.end as int,
                        NotaHighlightKind::CodeLang,
                    ),
                    None => open,
                };
                parts_are_shown(s, tag, t.kids, 0, NotaHighlightKind::Code, style);
            },
            CodeScan::Literal { resume: _ } => {},
        },
        NodeKind::Math { is_block: _ } => match math_span(s, a) {
            MathScan::Math { span, is_block: _, content, resume: _ } => {
                let open = emit(
                    s,
                    st,
                    span.start as int,
                    content.start as int,
                    NotaHighlightKind::MathDelim,
                );
                parts_are_shown(s, open, t.kids, 0, NotaHighlightKind::Math, style);
            },
            MathScan::Literal { resume: _ } => {},
        },
        _ => {},
    }
    assert(is_shown(s, done, t)) by {
        reveal(is_shown);
    }
    shown_whole(s, done, t);
}

proof fn group_is_shown(s: Seq<u8>, st: Paint, t: Tree, style: bool)
    requires
        s.len() <= u32::MAX,
        st.fence_inner <= s.len(),
        is_sound(s, t),
        t.kind is Attrs || t.kind is Props,
    ensures
        is_grown(s, st, group(s, st, t, style)),
        all_shown(s, group(s, st, t, style), t),
    decreases t, 0int, 19int, 0int,
{
    broadcast use grown_inside, grown_twice, has_still, collected_still, all_shown_still,
        emit_grows;

    let (a, b) = (t.span.start as int, t.span.end as int);
    let open = emit(s, st, a, a + 1, NotaHighlightKind::Sigil);
    let close = emit(s, open, b - 1, b, NotaHighlightKind::Sigil);
    sound_inside(s, t);
    props_are_shown(s, close, t.kids, 0, style);
    let done = group(s, st, t, style);
    assert(is_shown(s, done, t)) by {
        reveal(is_shown);
    }
    shown_whole(s, done, t);
}

proof fn item_is_shown(s: Seq<u8>, st: Paint, kids: Seq<Tree>, style: bool)
    requires
        s.len() <= u32::MAX,
        st.fence_inner <= s.len(),
        all_sound(s, kids),
        are_children(kids.skip(first_child(kids))),
    ensures
        is_grown(s, st, item_children(s, st, kids, style)),
        shown_from(s, item_children(s, st, kids, style), kids, 0),
    decreases kids, kids.len() as int, 6int, 0int,
{
    broadcast use grown_inside, grown_twice, has_still, collected_still, all_shown_still;

    let from = first_child(kids);
    grown_alike(s, st);
    let given = if from == 1 {
        group(s, st, kids[0], style)
    } else {
        st
    };
    if from == 1 {
        group_is_shown(s, st, kids[0], style);
    }
    let rest = kids.skip(from);
    assert forall|i: int| from <= i < kids.len() implies is_child(#[trigger] kids[i]) by {
        assert(rest[i - from] == kids[i]);
    }
    children_are_shown(s, given, kids, from, None, style);
}

#[verifier::rlimit(60)]
proof fn head_is_shown(s: Seq<u8>, st: Paint, t: Tree, tag: NotaTag, style: bool)
    requires
        s.len() <= u32::MAX,
        st.fence_inner <= s.len(),
        is_sound(s, t),
        t.kind matches NodeKind::Element { tag: own, body } && own == tag,
    ensures
        is_grown(s, st, head(s, st, t, tag, style)),
        match tag {
            NotaTag::Host { name } => name.start < name.end ==> has(
                head(s, st, t, tag, style),
                name.start as int,
                name.end as int,
                NotaHighlightKind::TagHost,
            ),
            NotaTag::Component { name } => name.start < name.end ==> has(
                head(s, st, t, tag, style),
                name.start as int,
                name.end as int,
                NotaHighlightKind::TagComponent,
            ),
            NotaTag::Dynamic => has(
                head(s, st, t, tag, style),
                t.span.start as int,
                t.span.start + 1,
                NotaHighlightKind::Sigil,
            ) && all_shown(s, head(s, st, t, tag, style), t.kids[2]) && is_collected(
                head(s, st, t, tag, style),
                t.kids[2],
            ),
        },
    decreases t, 0int, 18int, 0int,
{
    broadcast use grown_inside, grown_twice, has_still, collected_still, all_shown_still,
        emit_grows;

    sound_inside(s, t);
    if tag == NotaTag::Dynamic {
        let sigil = emit(s, st, t.span.start as int, t.span.start + 1, NotaHighlightKind::Sigil);
        let code = t.kids[2];
        sound_inside(s, code);
        js_is_shown(s, sigil, code, code.span.start as int, code.span.end as int, style);
    }
}

proof fn pipes_grow(s: Seq<u8>, st: Paint, kids: Seq<Tree>, k: int, last: Option<int>)
    ensures
        is_grown(s, st, prop_pipes(s, st, kids, k, last)),
    decreases kids.len() - k,
{
    broadcast use grown_inside, grown_twice, emit_grows;

    grown_alike(s, st);
    if 0 <= k < kids.len() {
        let line = line_start(s, kids[k].span.start as int);
        if !lies_in(s, kids[k]) || last == Some(line) {
            pipes_grow(s, st, kids, k + 1, last);
        } else {
            let next = match prop_line(s, line) {
                Some(content) => emit(
                    s,
                    st,
                    content - 1,
                    content as int,
                    NotaHighlightKind::Sigil,
                ),
                None => st,
            };
            pipes_grow(s, next, kids, k + 1, Some(line));
        }
    }
}

#[verifier::rlimit(60)]
proof fn element_is_shown(
    s: Seq<u8>,
    st: Paint,
    t: Tree,
    tag: NotaTag,
    body: BodyForm,
    style: bool,
)
    requires
        s.len() <= u32::MAX,
        st.fence_inner <= s.len(),
        is_sound(s, t),
        t.kind == (NodeKind::Element { tag, body }),
        body != BodyForm::Verbatim,
    ensures
        is_grown(s, st, element(s, st, t, tag, body, style)),
        all_shown(s, element(s, st, t, tag, body, style), t),
    decreases t, 0int, 19int, 0int,
{
    broadcast use grown_inside, grown_twice, has_still, collected_still, all_shown_still,
        emit_grows;

    sound_inside(s, t);
    let done = element(s, st, t, tag, body, style);
    let headed = head(s, st, t, tag, style);
    head_is_shown(s, st, t, tag, style);
    let end = head_end(s, t, tag);
    grown_alike(s, headed);
    let colon = if at(s, end) == Some(COLON) {
        emit(s, headed, end, end + 1, NotaHighlightKind::Sigil)
    } else {
        headed
    };
    let lined = if body == BodyForm::Colon {
        prop_pipes(s, colon, t.kids[0].kids, 0, None)
    } else {
        headed
    };
    pipes_grow(s, colon, t.kids[0].kids, 0, None);
    sound_inside(s, t.kids[0]);
    sound_inside(s, t.kids[1]);
    let given = props(s, lined, t.kids[0].kids, 0, style);
    props_are_shown(s, lined, t.kids[0].kids, 0, style);
    let inner = style || is_host(s, tag, utf8("style"));
    children_are_shown(s, given, t.kids[1].kids, 0, None, inner);
    shown_whole(s, given, t.kids[0]);
    shown_whole(s, done, t.kids[1]);
    assert(is_shown(s, done, t)) by {
        reveal(is_shown);
    }
    shown_whole(s, done, t);
}

proof fn props_are_shown(s: Seq<u8>, st: Paint, kids: Seq<Tree>, k: int, style: bool)
    requires
        s.len() <= u32::MAX,
        st.fence_inner <= s.len(),
        0 <= k,
        all_sound(s, kids),
        forall|i: int| 0 <= i < kids.len() ==> is_prop(#[trigger] kids[i]),
    ensures
        is_grown(s, st, props(s, st, kids, k, style)),
        shown_from(s, props(s, st, kids, k, style), kids, k),
    decreases kids, kids.len() - k, 5int, 0int,
{
    broadcast use grown_inside, grown_twice, all_shown_still;

    grown_alike(s, st);
    if k < kids.len() {
        prop_is_shown(s, st, kids[k], style);
        props_are_shown(s, prop(s, st, kids[k], style), kids, k + 1, style);
    }
}

proof fn prop_is_shown(s: Seq<u8>, st: Paint, p: Tree, style: bool)
    requires
        s.len() <= u32::MAX,
        st.fence_inner <= s.len(),
        is_sound(s, p),
        is_prop(p),
    ensures
        is_grown(s, st, prop(s, st, p, style)),
        all_shown(s, prop(s, st, p, style), p),
    decreases p, 0int, 10int, 0int,
{
    broadcast use grown_inside, grown_twice, has_still, collected_still, all_shown_still,
        emit_grows;

    sound_inside(s, p);
    match p.kind {
        NodeKind::Field { key, quoted: _ } => {
            let named = emit(
                s,
                st,
                key.start as int,
                key.end as int,
                NotaHighlightKind::PropName,
            );
            sound_inside(s, p.kids[0]);
            node_is_shown(s, named, p.kids[0], style);
        },
        NodeKind::Spread => {
            sound_inside(s, p.kids[0]);
            node_is_shown(s, st, p.kids[0], style);
        },
        _ => {},
    }
    let done = prop(s, st, p, style);
    assert(is_shown(s, done, p)) by {
        reveal(is_shown);
    }
    shown_whole(s, done, p);
}

#[verifier::rlimit(60)]
proof fn verbatim_is_shown(s: Seq<u8>, st: Paint, t: Tree, tag: NotaTag, style: bool)
    requires
        s.len() <= u32::MAX,
        st.fence_inner <= s.len(),
        is_sound(s, t),
        t.kind == (NodeKind::Element { tag, body: BodyForm::Verbatim }),
    ensures
        is_grown(s, st, verbatim(s, st, t, tag, style)),
        all_shown(s, verbatim(s, st, t, tag, style), t),
    decreases t, 0int, 19int, 0int,
{
    broadcast use grown_inside, grown_twice, has_still, collected_still, all_shown_still,
        emit_grows;

    sound_inside(s, t);
    sound_inside(s, t.kids[0]);
    sound_inside(s, t.kids[1]);
    let end = t.span.end as int;
    let done = verbatim(s, st, t, tag, style);
    head_is_shown(s, st, t, tag, style);
    let headed = head(s, st, t, tag, style);
    props_are_shown(s, headed, t.kids[0].kids, 0, style);
    let before = props(s, headed, t.kids[0].kids, 0, style);
    let open = body_open(s, t, tag, t.kids[0].kids);
    let opened = emit(s, before, open, open + 2, NotaHighlightKind::Sigil);
    let closed = emit(s, opened, end - 2, end, NotaHighlightKind::Sigil);
    parts_are_shown(s, closed, t.kids[1].kids, 0, NotaHighlightKind::Verbatim, style);
    shown_whole(s, before, t.kids[0]);
    shown_whole(s, done, t.kids[1]);
    assert(is_shown(s, done, t)) by {
        reveal(is_shown);
    }
    shown_whole(s, done, t);
}

proof fn parts_are_shown(
    s: Seq<u8>,
    st: Paint,
    kids: Seq<Tree>,
    k: int,
    raw: NotaHighlightKind,
    style: bool,
)
    requires
        s.len() <= u32::MAX,
        st.fence_inner <= s.len(),
        0 <= k,
        all_sound(s, kids),
        forall|i: int| 0 <= i < kids.len() ==> is_part(#[trigger] kids[i]),
    ensures
        is_grown(s, st, parts(s, st, kids, k, raw, style)),
        shown_from(s, parts(s, st, kids, k, raw, style), kids, k),
        forall|i: int|
            k <= i < kids.len() && (#[trigger] kids[i]).kind is Raw ==> has(
                parts(s, st, kids, k, raw, style),
                kids[i].span.start as int,
                kids[i].span.end as int,
                raw,
            ),
    decreases kids, kids.len() - k, 5int, 0int,
{
    broadcast use grown_inside, grown_twice, has_still, all_shown_still, emit_grows;

    grown_alike(s, st);
    if k < kids.len() {
        let t = kids[k];
        sound_inside(s, t);
        let a = form_start(t);
        let armed = if at(s, a - 1) == Some(PIPE) {
            emit(s, st, a - 1, a, NotaHighlightKind::Sigil)
        } else {
            st
        };
        let next = if t.kind == NodeKind::Raw {
            emit(s, st, t.span.start as int, t.span.end as int, raw)
        } else {
            painted(s, armed, t, style)
        };
        if t.kind != NodeKind::Raw {
            node_is_shown(s, armed, t, style);
        } else {
            assert(is_shown(s, next, t)) by {
                reveal(is_shown);
            }
            shown_whole(s, next, t);
        }
        parts_are_shown(s, next, kids, k + 1, raw, style);
    }
}

proof fn interpolation_is_shown(s: Seq<u8>, st: Paint, t: Tree, style: bool)
    requires
        s.len() <= u32::MAX,
        st.fence_inner <= s.len(),
        is_sound(s, t),
        t.kind == NodeKind::Interpolation,
    ensures
        is_grown(s, st, interpolation(s, st, t, style)),
        all_shown(s, interpolation(s, st, t, style), t),
    decreases t, 0int, 19int, 0int,
{
    broadcast use grown_inside, grown_twice, has_still, collected_still, all_shown_still,
        emit_grows;

    sound_inside(s, t);
    let code = t.kids[0];
    sound_inside(s, code);
    let (a, b) = (code.span.start as int, code.span.end as int);
    grown_alike(s, st);
    if !is_plain_name(s, code.span) {
        let p = gap_start(s, a);
        let sigil = if at(s, p - 1) == Some(LPAREN) && at(s, p - 2) == Some(AT_SIGN) {
            emit(s, st, p - 2, p - 1, NotaHighlightKind::Sigil)
        } else {
            st
        };
        js_is_shown(s, sigil, code, a, b, style);
    }
    let done = interpolation(s, st, t, style);
    assert(is_shown(s, done, t)) by {
        reveal(is_shown);
    }
    shown_whole(s, done, t);
}

#[verifier::rlimit(60)]
proof fn conditional_is_shown(s: Seq<u8>, st: Paint, t: Tree, style: bool)
    requires
        s.len() <= u32::MAX,
        st.fence_inner <= s.len(),
        is_sound(s, t),
        t.kind == NodeKind::If,
    ensures
        is_grown(s, st, conditional(s, st, t, style)),
        all_shown(s, conditional(s, st, t, style), t),
    decreases t, 0int, 19int, 0int,
{
    broadcast use grown_inside, grown_twice, has_still, collected_still, all_shown_still,
        emit_grows;

    sound_inside(s, t);
    let done = conditional(s, st, t, style);
    let a = t.span.start as int;
    let keyword = if at(s, a) == Some(AT_SIGN) {
        emit(
            s,
            emit(s, st, a, a + 1, NotaHighlightKind::Sigil),
            a + 1,
            a + 3,
            NotaHighlightKind::ControlKeyword,
        )
    } else {
        emit(s, st, a, a + 2, NotaHighlightKind::ControlKeyword)
    };
    assert(is_grown(s, st, keyword));
    sound_inside(s, t.kids[0]);
    sound_inside(s, t.kids[1]);
    node_is_shown(s, keyword, t.kids[0], style);
    let test = painted(s, keyword, t.kids[0], style);
    sound_inside(s, t.kids[1]);
    children_are_shown(s, test, t.kids[1].kids, 0, None, style);
    let body = children(s, test, t.kids[1].kids, 0, None, style);
    shown_whole(s, body, t.kids[1]);
    grown_alike(s, body);
    if t.kids.len() == 3 {
        sound_inside(s, t.kids[2]);
        sound_inside(s, t.kids[2]);
        let other = gap_end(s, t.kids[1].span.end as int);
        let marked = if at(s, other) == Some(LOWER_E) && at(s, other + 1) == Some(LOWER_L) && at(
            s,
            other + 2,
        ) == Some(LOWER_S) && at(s, other + 3) == Some(LOWER_E) {
            emit(s, body, other, other + 4, NotaHighlightKind::ControlKeyword)
        } else {
            body
        };
        if t.kids[2].kind == NodeKind::If {
            node_is_shown(s, marked, t.kids[2], style);
        } else {
            children_are_shown(s, marked, t.kids[2].kids, 0, None, style);
            shown_whole(s, done, t.kids[2]);
        }
    }
    assert(is_shown(s, done, t)) by {
        reveal(is_shown);
    }
    shown_whole(s, done, t);
}

proof fn iteration_is_shown(s: Seq<u8>, st: Paint, t: Tree, style: bool)
    requires
        s.len() <= u32::MAX,
        st.fence_inner <= s.len(),
        is_sound(s, t),
        t.kind == NodeKind::For,
    ensures
        is_grown(s, st, iteration(s, st, t, style)),
        all_shown(s, iteration(s, st, t, style), t),
    decreases t, 0int, 19int, 0int,
{
    broadcast use grown_inside, grown_twice, has_still, collected_still, all_shown_still,
        emit_grows;

    sound_inside(s, t);
    let done = iteration(s, st, t, style);
    let a = t.span.start as int;
    let keyword = emit(
        s,
        emit(s, st, a, a + 1, NotaHighlightKind::Sigil),
        a + 1,
        a + 4,
        NotaHighlightKind::ControlKeyword,
    );
    assert(is_grown(s, st, keyword));
    sound_inside(s, t.kids[0]);
    sound_inside(s, t.kids[1]);
    sound_inside(s, t.kids[2]);
    node_is_shown(s, keyword, t.kids[0], style);
    let bind = painted(s, keyword, t.kids[0], style);
    let of = gap_end(s, t.kids[0].span.end as int);
    grown_alike(s, bind);
    let marked = if at(s, of) == Some(LOWER_O) && at(s, of + 1) == Some(LOWER_F) {
        emit(s, bind, of, of + 2, NotaHighlightKind::ControlKeyword)
    } else {
        bind
    };
    node_is_shown(s, marked, t.kids[1], style);
    let iterable = painted(s, marked, t.kids[1], style);
    sound_inside(s, t.kids[2]);
    children_are_shown(s, iterable, t.kids[2].kids, 0, None, style);
    shown_whole(s, done, t.kids[2]);
    assert(is_shown(s, done, t)) by {
        reveal(is_shown);
    }
    shown_whole(s, done, t);
}

proof fn children_are_shown(
    s: Seq<u8>,
    st: Paint,
    kids: Seq<Tree>,
    k: int,
    prev: Option<int>,
    style: bool,
)
    requires
        s.len() <= u32::MAX,
        st.fence_inner <= s.len(),
        0 <= k,
        all_sound(s, kids),
        forall|i: int| k <= i < kids.len() ==> is_child(#[trigger] kids[i]),
    ensures
        is_grown(s, st, children(s, st, kids, k, prev, style)),
        shown_from(s, children(s, st, kids, k, prev, style), kids, k),
    decreases kids, kids.len() - k, 4int, 0int,
{
    broadcast use grown_inside, grown_twice, has_still, collected_still, all_shown_still,
        emit_grows;

    grown_alike(s, st);
    if k < kids.len() {
        let t = kids[k];
        let (a, b) = (t.span.start as int, t.span.end as int);
        sound_inside(s, t);
        if is_statement(t) {
            let j = statements_end(kids, k);
            statements_end_bounds(kids, k);
            runs_hold_statements(kids, k);
            statements_are_shown(s, st, kids, k, j, style);
            let next = statements(s, st, kids, k, j, style);
            children_are_shown(s, next, kids, j, Some(kids[j - 1].span.end as int), style);
            let done = children(s, st, kids, k, prev, style);
            assert forall|i: int| k <= i < kids.len() implies all_shown(s, done,
                #[trigger] kids[i]) by {
                if i < j {
                    assert(all_shown(s, next, kids[i]));
                }
            }
        } else if t.kind == NodeKind::Text {
            let under = if style {
                emit(s, st, a, b, NotaHighlightKind::StyleText)
            } else {
                st
            };
            let escape = if at(s, a - 1) == Some(BACKSLASH) && (prev is None || prev == Some(a - 1)) {
                emit(s, under, a - 1, b, NotaHighlightKind::Escape)
            } else {
                under
            };
            assert(is_shown(s, escape, t)) by {
                reveal(is_shown);
            }
            shown_whole(s, escape, t);
            children_are_shown(s, escape, kids, k + 1, Some(b), style);
        } else {
            node_is_shown(s, st, t, style);
            let next = painted(s, st, t, style);
            if t.kind is Comment {
                children_are_shown(s, next, kids, k + 1, prev, style);
            } else {
                children_are_shown(s, next, kids, k + 1, Some(b), style);
            }
        }
    }
}

proof fn runs_hold_statements(kids: Seq<Tree>, k: int)
    requires
        0 <= k,
    ensures
        forall|i: int|
            k <= i < statements_end(kids, k) && i < kids.len() ==> is_statement(#[trigger] kids[i]),
    decreases kids.len() - k,
{
    if k < kids.len() && is_statement(kids[k]) {
        runs_hold_statements(kids, k + 1);
    }
}

proof fn fence_markers_grow(s: Seq<u8>, st: Paint, open_line: int, inner: int)
    requires
        0 <= inner,
    ensures
        is_grown(s, st, fence_markers(s, st, open_line, inner)),
{
    broadcast use grown_twice, emit_grows;

    let open = gap_end(s, open_line);
    let opened = emit(s, st, open, clamp(s, run_end(s, open, PERCENT)), NotaHighlightKind::Sigil);
    if inner <= s.len() {
        fence_close_bounds(s, inner);
    }
    let (inner_end, after) = fence_close(s, inner);
    let close = gap_end(s, inner_end);
    let closed = if at(s, close) == Some(PERCENT) {
        emit(s, opened, close, clamp(s, run_end(s, close, PERCENT)), NotaHighlightKind::Sigil)
    } else {
        opened
    };
    grown_alike(s, opened);
    assert(is_grown(s, st, closed));
    reveal(is_grown);
}

proof fn fences_open_inside(s: Seq<u8>, line: int)
    ensures
        fence_above(s, line) matches Some((above, inner)) ==> 0 <= inner,
    decreases line,
{
    if 0 < line <= s.len() {
        let above = line_start(s, line - 1);
        if 0 <= above < line {
            fences_open_inside(s, above);
        }
    }
}

proof fn markers_grow(s: Seq<u8>, st: Paint, start: int)
    ensures
        is_grown(s, st, statement_markers(s, st, start)),
{
    broadcast use emit_grows;

    let line = line_start(s, start);
    grown_alike(s, st);
    fences_open_inside(s, line);
    match statement_opened(s, line) {
        Some((content, false)) => {
            let marked = Paint { marker: Some(content - 1), ..st };
            assert(is_grown(s, marked, emit(s, marked, content - 1, content as int,
                NotaHighlightKind::Sigil)));
            reveal(is_grown);
        },
        Some((inner, true)) => {
            fence_markers_grow(s, st, line, inner as int);
        },
        None => match fence_above(s, line) {
            Some((above, inner)) => {
                fence_markers_grow(s, st, above, inner);
            },
            None => {},
        },
    }
}

proof fn extents_stay_inside(s: Seq<u8>, st: Paint, kids: Seq<Tree>, i: int, j: int)
    requires
        st.fence_inner <= s.len(),
        0 <= i < j <= kids.len(),
        all_sound(s, kids),
    ensures
        kids[i].span.end <= statement_extent(s, st, kids, i, j) <= s.len(),
{
    sound_inside(s, kids[i]);
    if i + 1 < j {
        sound_inside(s, kids[i + 1]);
    }
    next_line_bounds(s, kids[i].span.end as int);
}

proof fn statements_are_shown(s: Seq<u8>, st: Paint, kids: Seq<Tree>, i: int, j: int, style: bool)
    requires
        s.len() <= u32::MAX,
        st.fence_inner <= s.len(),
        0 <= i <= j <= kids.len(),
        all_sound(s, kids),
        forall|n: int| i <= n < j ==> is_statement(#[trigger] kids[n]),
    ensures
        is_grown(s, st, statements(s, st, kids, i, j, style)),
        forall|n: int|
            i <= n < j ==> all_shown(s, statements(s, st, kids, i, j, style), #[trigger] kids[n]),
    decreases kids, kids.len() - i, 2int, 0int,
{
    broadcast use grown_inside, grown_twice, has_still, collected_still, all_shown_still,
        emit_grows;

    grown_alike(s, st);
    if i < j {
        let t = kids[i];
        sound_inside(s, t);
        if i + 1 < j {
            sound_inside(s, kids[i + 1]);
        }
        let marked = statement_markers(s, st, t.span.start as int);
        markers_grow(s, st, t.span.start as int);
        let end = statement_extent(s, marked, kids, i, j);
        extents_stay_inside(s, marked, kids, i, j);
        js_is_shown(s, marked, t, t.span.start as int, end, style);
        let next = js(s, marked, t.kids, 0, t.span.start as int, end, style);
        statements_are_shown(s, next, kids, i + 1, j, style);
    }
}

/// All code of a document is collected to be painted, and every node of it is painted: an element
/// by its name, a heading, an emphasis, a comment and a thematic break over their whole extents, a
/// property by its key, a conditional and a loop by their keywords, raw text of a verbatim body as
/// such.
pub proof fn documents_are_shown(s: Seq<u8>, nodes: Seq<Tree>)
    requires
        s.len() <= u32::MAX,
        all_sound(s, nodes),
        are_children(nodes),
    ensures
        shown_from(s, structural(s, nodes), nodes, 0),
{
    children_are_shown(s, unpainted(), nodes, 0, None, false);
}

} // verus!
