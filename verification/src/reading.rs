//! What a source is read into: trees that stand over source that looks like them, in source order.

use vstd::prelude::*;
use vstd::utf8::valid_utf8;
use crate::ascii::{
    AMPERSAND, AT_SIGN, BACKSLASH, BACKTICK, BANG, CARET, COLON, COMMA, DOLLAR, DOT, GREATER,
    HASH, HYPHEN, LBRACE, LBRACK, LESS, LOWER_F, LOWER_I, LOWER_O, LOWER_R, LPAREN, NEWLINE,
    PIPE, RBRACE, RBRACK, RPAREN, SLASH, SPACE, STAR, TAB, TILDE, UNDERSCORE,
};
use crate::anatomy::{
    all_sound, are_children, in_order, is_child, is_form, is_part, is_prop, is_sound, is_upper,
    lies_between, only, sound_inside, sound_over,
};
use crate::blocks::{brace_clip_bounds, brace_clip_past_space, colon_extent, colon_extent_bounds};
use crate::bytes::{
    addressable, at, ByteClass, in_class, run_bounds, run_end, skip, skip_bounds, Span,
};
use crate::docstate::{closed_label, footnote, label_end, reference};
use crate::embedded::{at_form_bounds, at_form_end};
use crate::emphasis::{marker_close_bounds, span_close};
use crate::escapes::{block_comment_bounds, block_comment_end, comment, markup_comment_end};
use crate::grammar::{
    after_form, ask, at_least, attrs, bindings, body, BodyMode, bounded_parts, braced, bracket,
    bracket_child, child, clip, code, collect, colon_element, colon_live, control_body,
    control_head, doc_state_tree, document, document_frame, document_start, element, element_tree,
    emphasis, entries, entry, fence_statements, follower, Follower, footnote_text, for_form,
    for_head, for_iterable, form, form_child, Frame, go, head_start, HeadStart, hoisted, if_form,
    image, in_bound, inline_span, Input, is_component, is_filler, islands, js_at, label,
    last_content, line_entries, line_starts, line_statements, list, live_trigger, math, named_form,
    paren, past, postfix, prop_groups, prop_lines, prop_value, query, range, Reading,
    reads_statements, refer, Region, region_mode, smaller, spells2, spells3, statement,
    statement_line, statements, sugar_end, triggered, trivia, verbatim_element, verbatim_parts,
    view, with_nodes, with_raw, with_text,
};
use crate::heads::{
    else_after, else_after_bounds, ElsePeek, hyphen_tail, hyphen_tail_bounds, leads_line,
    MarkupTrigger,
};
use crate::js::{answer_answers, JsAnswer, JsAsk, JsTokenKind};
use crate::lines::{
    block_end, block_end_bounds, content_start, content_start_bounds, indent_of, is_blank, line_end,
    next_line, next_line_bounds, starts_line,
};
use crate::links::{
    link_bound, link_on_one_line, link_span, link_text_bounds, link_text_end, link_url_bounds,
    link_url_end,
};
use crate::lowering::first_child;
use crate::raw::{
    armed_stop, armed_stop_bounds, code_content_boundary, code_span, code_span_bounds,
    math_content_boundary, math_span, math_span_bounds, raw_span_bounds, raw_span_end,
    verbatim_closes, verbatim_stop, verbatim_stop_bounds, CodeScan, MathScan,
};
use crate::statements::{
    empty_statement, fence_close, fence_close_bounds, heading, is_fence, list_marker,
    opens_statement, prop_line, statement_stop, statement_stop_bounds, thematic_break,
};
use crate::token::{token_bounds, token_end, token_kind, Kind};
use crate::tree::{
    BodyForm, branch, ExprTier, leaf, NodeKind, NotaDocStateKind, NotaEmphasisMarker, NotaListKind,
    NotaTag, Tree,
};
use crate::unicode::{
    ascii_then_boundary, boundary, char_bounds, char_from, cut_is_valid, escape,
    identifier_end_bounds, identifier_start, line_start_boundary,
};

verus! {

/// What a row of trees is made of.
pub enum Row {
    /// The children of a body.
    Children,
    /// Properties.
    Props,
    /// Raw runs and armed forms.
    Parts,
    /// The forms inside code.
    Forms,
    /// The names that a statement binds, and the forms inside it.
    Names,
}

/// May a tree stand in such a row?
pub open spec fn belongs(what: Row, t: Tree) -> bool {
    match what {
        Row::Children => is_child(t),
        Row::Props => is_prop(t),
        Row::Parts => is_part(t),
        Row::Forms => t.kind is Markup,
        Row::Names => t.kind is Markup || t.kind is Binding,
    }
}

/// Need trees not stand one behind the other in such a row? The names that a statement binds stand
/// in its code, and the code of a property may run on into the line of the next.
pub open spec fn is_loose(what: Row) -> bool {
    what is Names || what is Props
}

/// Are `nodes` sound trees that belong in the row, one behind the other, between `lo` and `hi`?
#[verifier::opaque]
pub open spec fn is_row(s: Seq<u8>, what: Row, nodes: Seq<Tree>, lo: int, hi: int) -> bool {
    &&& all_sound(s, nodes)
    &&& is_loose(what) || in_order(nodes)
    &&& forall|k: int|
        0 <= k < nodes.len() ==> belongs(what, #[trigger] nodes[k]) && (is_loose(what) || (lo
            <= nodes[k].span.start && nodes[k].span.end <= hi))
}

/// Reading went on, no further back than `pos` and inside the source, and what it read is such a
/// row; unless it stopped.
pub open spec fn is_tidy(d: Input, what: Row, lo: int, r: Reading, pos: int) -> bool {
    r.stop is None ==> pos <= r.at <= d.s.len() && is_row(d.s, what, r.nodes, lo, r.at)
}

/// Can a source be read up to `end`?
pub open spec fn is_readable(d: Input, end: int) -> bool {
    addressable(d.s) && valid_utf8(d.s) && 0 <= end <= d.s.len() && boundary(d.s, end)
}

/// Does a bounded range end inside the source, and not among the spaces that lead a line?
pub open spec fn is_tight(s: Seq<u8>, mode: BodyMode) -> bool {
    mode matches BodyMode::Bounded { end } ==> end <= s.len() && (end == s.len() || (s[end as int]
        != SPACE && s[end as int] != TAB) || end == 0 || s[end - 1] == NEWLINE)
}

/// Does `pos` stand inside what is around it?
pub open spec fn stands_in(s: Seq<u8>, region: Region, pos: int) -> bool {
    region matches Region::Markup { frame } ==> is_tight(s, frame.mode) && in_bound(
        frame.mode,
        pos,
    )
}

/// One tree more, behind the others.
proof fn row_grows(s: Seq<u8>, what: Row, nodes: Seq<Tree>, lo: int, hi: int, t: Tree, next: int)
    requires
        is_row(s, what, nodes, lo, hi),
        is_sound(s, t),
        belongs(what, t),
        is_loose(what) || (lo <= t.span.start && hi <= t.span.start && t.span.end <= next && hi
            <= next),
    ensures
        is_row(s, what, nodes.push(t), lo, next),
{
    reveal(is_row);
    let more = nodes.push(t);
    assert forall|k: int| 0 <= k < more.len() implies belongs(what, #[trigger] more[k]) && is_sound(
        s,
        more[k],
    ) && (is_loose(what) || (lo <= more[k].span.start && more[k].span.end <= next)) by {
        if k < nodes.len() {
            assert(more[k] == nodes[k]);
        }
    }
    if !is_loose(what) {
        assert forall|i: int, j: int| 0 <= i < j < more.len() implies (#[trigger] more[i]).span.end
            <= (#[trigger] more[j]).span.start by {
            assert(more[i] == nodes[i]);
            if j < nodes.len() {
                assert(more[j] == nodes[j]);
            }
        }
    }
}

/// A row reaches as far as one likes.
proof fn row_reaches(s: Seq<u8>, what: Row, nodes: Seq<Tree>, lo: int, hi: int, next: int)
    requires
        is_row(s, what, nodes, lo, hi),
        is_loose(what) || hi <= next,
    ensures
        is_row(s, what, nodes, lo, next),
{
    reveal(is_row);
}

/// An empty row.
proof fn row_of_none(s: Seq<u8>, what: Row, lo: int)
    ensures
        is_row(s, what, Seq::empty(), lo, lo),
{
    reveal(is_row);
}

/// The children of a body are a row of children.
proof fn row_is_children(s: Seq<u8>, what: Row, nodes: Seq<Tree>, lo: int, hi: int)
    requires
        is_row(s, what, nodes, lo, hi),
    ensures
        all_sound(s, nodes),
        !is_loose(what) ==> in_order(nodes),
        what is Children ==> are_children(nodes),
        what is Parts ==> are_children(nodes),
        forall|k: int| 0 <= k < nodes.len() ==> belongs(what, #[trigger] nodes[k]),
{
    reveal(is_row);
}

/// What stands in the source up to `end` stands in the source.
proof fn view_shows(d: Input, end: int, i: int)
    requires
        0 <= end <= d.s.len(),
    ensures
        view(d, end).len() == end,
        0 <= i < end ==> view(d, end)[i] == d.s[i],
        at(view(d, end), i) == if i < end {
            at(d.s, i)
        } else {
            None
        },
{
}

/// A text added to a row.
proof fn text_is_tidy(d: Input, nodes: Seq<Tree>, lo: int, pos: int, a: int, b: int, next: int)
    requires
        addressable(d.s),
        is_row(d.s, Row::Children, nodes, lo, pos),
        0 <= lo <= pos <= a,
        b <= next <= d.s.len(),
        pos <= next,
    ensures
        is_row(d.s, Row::Children, with_text(nodes, a, b), lo, next),
{
    if a < b {
        let t = leaf(NodeKind::Text, a, b);
        assert(all_sound(d.s, t.kids));
        sound_over(d.s, t);
        row_grows(d.s, Row::Children, nodes, lo, pos, t, next);
    } else {
        row_reaches(d.s, Row::Children, nodes, lo, pos, next);
    }
}

/// A raw run added to a row.
proof fn raw_is_tidy(d: Input, nodes: Seq<Tree>, lo: int, pos: int, b: int, next: int)
    requires
        addressable(d.s),
        is_row(d.s, Row::Parts, nodes, lo, pos),
        0 <= lo <= pos,
        b <= next <= d.s.len(),
        pos <= next,
    ensures
        is_row(d.s, Row::Parts, with_raw(nodes, pos, b), lo, next),
{
    if pos < b {
        let t = leaf(NodeKind::Raw, pos, b);
        assert(all_sound(d.s, t.kids));
        sound_over(d.s, t);
        row_grows(d.s, Row::Parts, nodes, lo, pos, t, next);
    } else {
        row_reaches(d.s, Row::Parts, nodes, lo, pos, next);
    }
}

/// An element is sound over its properties and its body.
proof fn element_is_sound(
    s: Seq<u8>,
    tag: NotaTag,
    form: BodyForm,
    a: int,
    b: int,
    props: Seq<Tree>,
    children: Seq<Tree>,
    dynamic: Seq<Tree>,
)
    requires
        addressable(s),
        0 <= a <= b <= s.len(),
        at(s, a) == Some(AT_SIGN),
        all_sound(s, props),
        forall|k: int| 0 <= k < props.len() ==> is_prop(#[trigger] props[k]),
        all_sound(s, children),
        are_children(children),
        is_named(s, tag, a, dynamic),
        form == BodyForm::Verbatim ==> at(s, b - 2) == Some(RBRACE) && at(s, b - 1) == Some(PIPE)
            && forall|k: int| 0 <= k < children.len() ==> is_part(#[trigger] children[k]),
    ensures
        is_sound(s, element_tree(tag, form, a, b, props, children, dynamic)),
{
    let t = element_tree(tag, form, a, b, props, children, dynamic);
    let p = branch(NodeKind::Props, a, b, props);
    let c = branch(NodeKind::Body, a, b, children);
    sound_over(s, p);
    sound_over(s, c);
    assert(t.kids =~= seq![p, c] + dynamic);
    assert(t.kids[0] == p && t.kids[1] == c);
    assert forall|k: int| 0 <= k < t.kids.len() implies is_sound(s, #[trigger] t.kids[k]) by {
        if k >= 2 {
            assert(t.kids[k] == dynamic[k - 2]);
        }
    }
    if dynamic.len() == 1 {
        assert(t.kids[2] == dynamic[0]);
    }
    sound_over(s, t);
}

/// Is a tag named, or its expression there?
pub open spec fn is_named(s: Seq<u8>, tag: NotaTag, a: int, dynamic: Seq<Tree>) -> bool {
    match tag {
        NotaTag::Host { name } => dynamic.len() == 0 && lies_between(name, a + 1, s.len() as int)
            && !is_upper(s, name.start as int),
        NotaTag::Component { name } => dynamic.len() == 0 && lies_between(
            name,
            a + 1,
            s.len() as int,
        ) && is_upper(s, name.start as int),
        NotaTag::Dynamic => dynamic.len() == 1 && dynamic[0].kind is Js && is_sound(s, dynamic[0]),
    }
}

/// Reading added one form to `nodes`, from `pos` on.
pub open spec fn adds_form(d: Input, nodes: Seq<Tree>, r: Reading, pos: int) -> bool {
    r.stop is None ==> {
        &&& pos < r.at <= d.s.len()
        &&& r.nodes.len() == nodes.len() + 1
        &&& r.nodes == nodes.push(r.nodes.last())
        &&& is_form(r.nodes.last())
        &&& is_sound(d.s, r.nodes.last())
        &&& pos <= r.nodes.last().span.start
        &&& r.nodes.last().span.end <= r.at
    }
}

/// Reading came to one piece of code, from `p` on.
pub open spec fn is_code(d: Input, r: Reading, p: int, end: int) -> bool {
    r.stop is None ==> {
        &&& p <= r.at <= end
        &&& r.nodes.len() == 1
        &&& r.nodes[0].kind is Js
        &&& is_sound(d.s, r.nodes[0])
        &&& p <= r.nodes[0].span.start < r.nodes[0].span.end <= r.at
    }
}

/// Reading came to one fragment, from `p` on.
pub open spec fn is_branch(d: Input, r: Reading, start: int, p: int) -> bool {
    r.stop is None ==> {
        &&& p < r.at <= d.s.len()
        &&& r.nodes.len() == 1
        &&& r.nodes[0].kind == NodeKind::Fragment
        &&& is_sound(d.s, r.nodes[0])
        &&& r.nodes[0].span.end == r.at
        &&& r.nodes[0].span.start == start
    }
}


/// The name or token that a head starts with stands behind the `@`.
proof fn heads_start_behind(d: Input, end: int, p: int)
    requires
        is_readable(d, end),
        0 < p <= end,
        boundary(d.s, p),
    ensures
        match head_start(d, end, p) {
            HeadStart::Name { span } => p <= span.start <= span.end <= end,
            HeadStart::Brace { at: i } => p <= i < end && d.s[i as int] == LBRACE,
            HeadStart::Paren { at: i } => p <= i < end && d.s[i as int] == LPAREN,
            _ => true,
        },
{
    let v = view(d, end);
    view_shows(d, end, p);
    if char_from(v, p) matches Some(c) && identifier_start(c) {
        cut_is_valid(d.s, 0, end);
        assert(v == d.s.subrange(0, end));
        if p == end {
            assert(char_from(v, p) is None);
        }
        views_keep_boundaries(d.s, end, p);
        identifier_end_bounds(v, p);
    } else {
        answer_answers(d.s, d.facts, query(JsAsk::Token, p, end), 0);
    }
}

/// A boundary of the source is one of its start.
proof fn views_keep_boundaries(s: Seq<u8>, end: int, p: int)
    requires
        0 <= p <= end <= s.len(),
        boundary(s, p),
    ensures
        boundary(s.subrange(0, end), p),
{
}

#[verifier::spinoff_prover]
proof fn form_is_tidy(d: Input, end: int, region: Region, nodes: Seq<Tree>, pos: int)
    requires
        is_readable(d, end),
        0 <= pos < end,
        d.s[pos] == AT_SIGN,
        stands_in(d.s, region, pos),
    ensures
        adds_form(d, nodes, form(d, end, region, nodes, pos), pos),
    decreases d.s.len() + 2 - pos, 3int,
{
    let s = d.s;
    ascii_then_boundary(s, pos);
    heads_start_behind(d, end, pos + 1);
    let r = form(d, end, region, nodes, pos);
    match head_start(d, end, pos + 1) {
        HeadStart::Name { span } => if spells2(s, span, LOWER_I, LOWER_F) {
            if_is_tidy(d, end, nodes, pos, past(s, pos, span.end as int));
        } else if spells3(s, span, LOWER_F, LOWER_O, LOWER_R) {
            for_is_tidy(d, end, nodes, pos, past(s, pos, span.end as int));
        } else {
            named_is_tidy(d, end, region, nodes, pos, span);
        },
        HeadStart::Brace { at } => {
            braced_is_tidy(d, end, at as int);
            let body = braced(d, end, at as int);
            if body.stop is None {
                let t = branch(NodeKind::Fragment, pos, body.at, body.nodes);
                row_is_children(s, Row::Children, body.nodes, at + 1, body.at);
                sound_over(s, t);
                assert(r.nodes.last() == t);
            }
        },
        HeadStart::Paren { at } => {
            paren_is_tidy(d, end, at as int);
            let head = paren(d, end, at as int);
            if head.stop is None {
                triggered_is_tidy(
                    d,
                    end,
                    region,
                    nodes,
                    pos,
                    NotaTag::Dynamic,
                    head.nodes,
                    past(s, pos, head.at),
                );
            }
        },
        _ => {},
    }
}

proof fn named_is_tidy(d: Input, end: int, region: Region, nodes: Seq<Tree>, pos: int, name: Span)
    requires
        is_readable(d, end),
        0 <= pos < end,
        d.s[pos] == AT_SIGN,
        stands_in(d.s, region, pos),
        pos < name.start <= name.end <= end,
    ensures
        adds_form(d, nodes, named_form(d, end, region, nodes, pos, name), pos),
    decreases d.s.len() + 2 - pos, 2int,
{
    let s = d.s;
    let tail = hyphen_tail(s, name.end as int);
    hyphen_tail_bounds(s, name.end as int);
    let component = is_component(s, name.start as int);
    let full = if !component && tail > name.end && live_trigger(s, tail, colon_live(s, region, pos))
        != MarkupTrigger::Bare {
        Span { start: name.start, end: tail as u32 }
    } else {
        name
    };
    let tag = if component {
        NotaTag::Component { name: full }
    } else {
        NotaTag::Host { name: full }
    };
    let js = leaf(
        NodeKind::Js { tier: ExprTier::Primary },
        full.start as int,
        full.end as int,
    );
    assert(all_sound(s, js.kids));
    sound_over(s, js);
    triggered_is_tidy(d, end, region, nodes, pos, tag, seq![js], past(s, pos, full.end as int));
}

#[verifier::spinoff_prover]
proof fn triggered_is_tidy(
    d: Input,
    end: int,
    region: Region,
    nodes: Seq<Tree>,
    pos: int,
    tag: NotaTag,
    head: Seq<Tree>,
    c: int,
)
    requires
        is_readable(d, end),
        0 <= pos < end,
        pos < c <= d.s.len(),
        d.s[pos] == AT_SIGN,
        stands_in(d.s, region, pos),
        head.len() == 1,
        head[0].kind is Js,
        is_sound(d.s, head[0]),
        pos <= head[0].span.start,
        head[0].span.end <= c,
        is_named(
            d.s,
            tag,
            pos,
            if tag == NotaTag::Dynamic {
                head
            } else {
                Seq::<Tree>::empty()
            },
        ),
    ensures
        adds_form(d, nodes, triggered(d, end, region, nodes, pos, tag, head, c), pos),
    decreases d.s.len() + 2 - c, 12int,
{
    let s = d.s;
    let dynamic = if tag == NotaTag::Dynamic {
        head
    } else {
        Seq::<Tree>::empty()
    };
    row_of_none(s, Row::Props, pos);
    row_reaches(s, Row::Props, Seq::empty(), pos, pos, c);
    match live_trigger(s, c, colon_live(s, region, pos)) {
        MarkupTrigger::Brace => element_is_tidy(d, end, region, nodes, pos, tag, dynamic, c),
        MarkupTrigger::Bracket => element_is_tidy(d, end, region, nodes, pos, tag, dynamic, c),
        MarkupTrigger::Colon => colon_is_tidy(
            d,
            end,
            region,
            nodes,
            pos,
            tag,
            dynamic,
            Seq::empty(),
            c,
        ),
        MarkupTrigger::Verbatim => verbatim_is_tidy(
            d,
            end,
            nodes,
            pos,
            tag,
            dynamic,
            Seq::empty(),
            c,
        ),
        MarkupTrigger::Bare => {
            let t = branch(
                NodeKind::Interpolation,
                head[0].span.start as int,
                head[0].span.end as int,
                head,
            );
            sound_inside(s, head[0]);
            assert(all_sound(s, t.kids));
            sound_over(s, t);
            assert(nodes.push(t).last() == t);
        },
    }
}

#[verifier::spinoff_prover]
proof fn element_is_tidy(
    d: Input,
    end: int,
    region: Region,
    nodes: Seq<Tree>,
    pos: int,
    tag: NotaTag,
    dynamic: Seq<Tree>,
    c: int,
)
    requires
        is_readable(d, end),
        0 <= pos < end,
        pos < c <= d.s.len(),
        d.s[pos] == AT_SIGN,
        stands_in(d.s, region, pos),
        is_named(d.s, tag, pos, dynamic),
    ensures
        adds_form(d, nodes, element(d, end, region, nodes, pos, tag, dynamic, c), pos),
    decreases d.s.len() + 2 - c, 11int,
{
    let s = d.s;
    row_of_none(s, Row::Props, pos);
    row_reaches(s, Row::Props, Seq::empty(), pos, pos, c);
    groups_are_tidy(d, end, Seq::empty(), c, pos);
    let groups = prop_groups(d, end, Seq::empty(), c);
    let b = at_least(s, c, groups.at);
    if groups.stop is None {
        row_is_children(s, Row::Props, groups.nodes, pos, groups.at);
        if at(s, b) == Some(LBRACE) {
            braced_is_tidy(d, end, b);
            let body = braced(d, end, b);
            if body.stop is None {
                row_is_children(s, Row::Children, body.nodes, b + 1, body.at);
                element_is_sound(
                    s,
                    tag,
                    BodyForm::Braced,
                    pos,
                    body.at,
                    groups.nodes,
                    body.nodes,
                    dynamic,
                );
            }
        } else if at(s, b) == Some(PIPE) && at(s, b + 1) == Some(LBRACE) {
            verbatim_is_tidy(d, end, nodes, pos, tag, dynamic, groups.nodes, b);
        } else if at(s, b) == Some(COLON) && colon_live(s, region, pos) {
            colon_is_tidy(d, end, region, nodes, pos, tag, dynamic, groups.nodes, b);
        } else {
            element_is_sound(
                s,
                tag,
                BodyForm::Braced,
                pos,
                b,
                groups.nodes,
                Seq::empty(),
                dynamic,
            );
        }
    }
}

proof fn groups_are_tidy(d: Input, end: int, nodes: Seq<Tree>, c: int, lo: int)
    requires
        is_readable(d, end),
        0 <= lo <= c <= d.s.len(),
        is_row(d.s, Row::Props, nodes, lo, c),
    ensures
        is_tidy(d, Row::Props, lo, prop_groups(d, end, nodes, c), c),
    decreases d.s.len() + 2 - c, 10int,
{
    if c < d.s.len() && d.s[c] == LBRACK {
        row_reaches(d.s, Row::Props, nodes, lo, c, c + 1);
        entries_are_tidy(d, end, nodes, c, c + 1, lo);
        let r = entries(d, end, nodes, c, c + 1);
        if r.stop is None {
            groups_are_tidy(d, end, r.nodes, past(d.s, c, r.at), lo);
        }
    }
}

proof fn entries_are_tidy(d: Input, end: int, nodes: Seq<Tree>, open: int, p: int, lo: int)
    requires
        is_readable(d, end),
        0 <= lo <= p <= d.s.len(),
        is_row(d.s, Row::Props, nodes, lo, p),
    ensures
        is_tidy(d, Row::Props, lo, entries(d, end, nodes, open, p), p),
        entries(d, end, nodes, open, p).stop is None ==> entries(d, end, nodes, open, p).at > p,
    decreases d.s.len() + 2 - p, 9int,
{
    let s = d.s;
    match ask(d, JsAsk::Token, p, end) {
        Some(JsAnswer::Token { span, kind }) => {
            answer_answers(s, d.facts, query(JsAsk::Token, p, end), 0);
            if at(s, span.start as int) == Some(RBRACK) {
                row_reaches(s, Row::Props, nodes, lo, p, span.end as int);
            } else {
                row_reaches(s, Row::Props, nodes, lo, p, span.start as int);
                entry_is_tidy(d, end, nodes, span, kind, lo);
                let r = entry(d, end, nodes, span, kind);
                if r.stop is None {
                    if let Some(JsAnswer::Token { span: next, kind: _ }) = ask(
                        d,
                        JsAsk::Token,
                        r.at,
                        end,
                    ) {
                        answer_answers(s, d.facts, query(JsAsk::Token, r.at, end), 0);
                        row_reaches(s, Row::Props, r.nodes, lo, r.at, next.end as int);
                        if at(s, next.start as int) == Some(COMMA) {
                            entries_are_tidy(
                                d,
                                end,
                                r.nodes,
                                open,
                                past(s, p, next.end as int),
                                lo,
                            );
                        }
                    }
                }
            }
        },
        _ => {},
    }
}

proof fn entry_is_tidy(d: Input, end: int, nodes: Seq<Tree>, key: Span, kind: JsTokenKind, lo: int)
    requires
        is_readable(d, end),
        0 <= lo <= key.start < key.end <= end,
        is_row(d.s, Row::Props, nodes, lo, key.start as int),
    ensures
        is_tidy(d, Row::Props, lo, entry(d, end, nodes, key, kind), key.end as int),
    decreases d.s.len() + 2 - key.start, 8int,
{
    let s = d.s;
    let (a, b) = (key.start as int, key.end as int);
    if spells3(s, key, DOT, DOT, DOT) {
        js_is_tidy(d, end, JsAsk::Assignment, b);
        let value = js_at(d, end, JsAsk::Assignment, b);
        if value.stop is None {
            let t = branch(NodeKind::Spread, a, value.at, value.nodes);
            assert(all_sound(s, t.kids));
            sound_over(s, t);
            row_grows(s, Row::Props, nodes, lo, a, t, value.at);
        }
    } else {
        let bare = leaf(NodeKind::Shorthand, a, b);
        assert(all_sound(s, bare.kids));
        sound_over(s, bare);
        row_grows(s, Row::Props, nodes, lo, a, bare, b);
        if let Some(JsAnswer::Token { span: colon, kind: _ }) = ask(d, JsAsk::Token, b, end) {
            answer_answers(s, d.facts, query(JsAsk::Token, b, end), 0);
            if at(s, colon.start as int) == Some(COLON) {
                value_is_tidy(d, end, past(s, a, colon.end as int));
                let value = prop_value(d, end, past(s, a, colon.end as int));
                if value.stop is None {
                    let t = branch(
                        NodeKind::Field { key, quoted: kind == JsTokenKind::Str },
                        a,
                        value.at,
                        value.nodes,
                    );
                    assert(all_sound(s, t.kids));
                    sound_over(s, t);
                    row_grows(s, Row::Props, nodes, lo, a, t, value.at);
                }
            }
        }
    }
}

proof fn value_is_tidy(d: Input, end: int, p: int)
    requires
        is_readable(d, end),
        0 <= p <= end,
    ensures
        ({
            let r = prop_value(d, end, p);
            r.stop is None ==> p <= r.at <= d.s.len() && r.nodes.len() == 1 && is_sound(
                d.s,
                r.nodes[0],
            ) && (r.nodes[0].kind is Js || is_form(r.nodes[0]))
        }),
    decreases d.s.len() + 2 - p, 7int,
{
    match ask(d, JsAsk::Token, p, end) {
        Some(JsAnswer::Token { span, kind: _ }) => {
            answer_answers(d.s, d.facts, query(JsAsk::Token, p, end), 0);
            if at(d.s, span.start as int) == Some(AT_SIGN) {
                form_is_tidy(d, end, Region::Js, Seq::empty(), span.start as int);
            } else {
                js_is_tidy(d, end, JsAsk::Assignment, span.start as int);
            }
        },
        Some(JsAnswer::Nothing) => js_is_tidy(d, end, JsAsk::Assignment, p),
        _ => {},
    }
}

proof fn js_is_tidy(d: Input, end: int, what: JsAsk, p: int)
    requires
        is_readable(d, end),
        0 <= p <= end,
    ensures
        is_code(d, js_at(d, end, what, p), p, end),
    decreases d.s.len() + 2 - p, 6int,
{
    if let Some(JsAnswer::Extent { span, tier }) = ask(d, what, p, end) {
        answer_answers(d.s, d.facts, query(what, p, end), 0);
        row_of_none(d.s, Row::Forms, span.start as int);
        islands_are_tidy(
            d,
            end,
            Row::Forms,
            Seq::empty(),
            span.start as int,
            span.end as int,
            span.start as int,
        );
        let forms = islands(d, end, Seq::empty(), span.start as int, span.end as int);
        if forms.stop is None {
            let t = branch(
                NodeKind::Js { tier },
                span.start as int,
                span.end as int,
                forms.nodes,
            );
            let hi = choose|hi: int|
                #[trigger] is_row(d.s, Row::Forms, forms.nodes, span.start as int, hi);
            row_is_children(d.s, Row::Forms, forms.nodes, span.start as int, hi);
            sound_over(d.s, t);
        }
    }
}

proof fn islands_are_tidy(
    d: Input,
    end: int,
    what: Row,
    nodes: Seq<Tree>,
    p: int,
    e: int,
    lo: int,
)
    requires
        is_readable(d, end),
        what is Forms || what is Names,
        0 <= lo <= p <= d.s.len(),
        e <= end,
        is_row(d.s, what, nodes, lo, p),
    ensures
        islands(d, end, nodes, p, e).stop is None ==> exists|hi: int| #[trigger]
            is_row(d.s, what, islands(d, end, nodes, p, e).nodes, lo, hi),
    decreases d.s.len() + 2 - p, 5int,
{
    if let Some(JsAnswer::Form { at }) = ask(d, JsAsk::Form, p, e) {
        answer_answers(d.s, d.facts, query(JsAsk::Form, p, e), 0);
        form_is_tidy(d, end, Region::Js, Seq::empty(), at as int);
        let r = form(d, end, Region::Js, Seq::empty(), at as int);
        if r.stop is None {
            let t = branch(NodeKind::Markup, at as int, r.at, r.nodes);
            assert(all_sound(d.s, t.kids));
            sound_over(d.s, t);
            row_grows(d.s, what, nodes, lo, p, t, r.at);
            islands_are_tidy(d, end, what, nodes.push(t), past(d.s, at as int, r.at), e, lo);
        }
    } else {
        assert(islands(d, end, nodes, p, e).stop is None ==> is_row(
            d.s,
            what,
            islands(d, end, nodes, p, e).nodes,
            lo,
            p,
        ));
    }
}

proof fn bindings_are_tidy(d: Input, nodes: Seq<Tree>, p: int, e: int)
    requires
        addressable(d.s),
        0 <= p,
        is_row(d.s, Row::Names, nodes, 0, 0),
    ensures
        is_row(d.s, Row::Names, bindings(d, nodes, p, e).nodes, 0, 0),
    decreases d.s.len() + 2 - p,
{
    if let Some(JsAnswer::Binding { span }) = ask(d, JsAsk::Binding, p, e) {
        answer_answers(d.s, d.facts, query(JsAsk::Binding, p, e), 0);
        let t = leaf(NodeKind::Binding, span.start as int, span.end as int);
        assert(all_sound(d.s, t.kids));
        sound_over(d.s, t);
        row_grows(d.s, Row::Names, nodes, 0, 0, t, 0);
        bindings_are_tidy(d, nodes.push(t), past(d.s, p, span.end as int), e);
    }
}

proof fn paren_is_tidy(d: Input, end: int, open: int)
    requires
        is_readable(d, end),
        0 <= open < end,
    ensures
        ({
            let r = paren(d, end, open);
            r.stop is None ==> open < r.at <= end && r.nodes.len() == 1 && r.nodes[0].kind is Js
                && is_sound(d.s, r.nodes[0]) && open < r.nodes[0].span.start
                && r.nodes[0].span.end <= r.at
        }),
    decreases d.s.len() + 2 - open, 8int,
{
    js_is_tidy(d, end, JsAsk::Expression, open + 1);
    let inner = js_at(d, end, JsAsk::Expression, open + 1);
    if inner.stop is None {
        answer_answers(d.s, d.facts, query(JsAsk::Token, inner.at, end), 0);
    }
}

proof fn braced_is_tidy(d: Input, end: int, open: int)
    requires
        is_readable(d, end),
        0 <= open < d.s.len(),
    ensures
        ({
            let r = braced(d, end, open);
            r.stop is None ==> open < r.at <= d.s.len() && at(d.s, r.at - 1) == Some(RBRACE)
                && is_row(d.s, Row::Children, r.nodes, open + 1, r.at)
        }),
    decreases d.s.len() + 2 - open, 8int,
{
    body_is_tidy(d, end, Frame { mode: BodyMode::Body, start: (open + 1) as u32 }, open + 1);
}

proof fn branch_is_tidy(d: Input, end: int, start: int, p: int)
    requires
        is_readable(d, end),
        0 <= start <= p <= end,
    ensures
        is_branch(d, control_body(d, end, start, p), start, p),
    decreases d.s.len() + 2 - p, 9int,
{
    if let Some(JsAnswer::Token { span, kind: _ }) = ask(d, JsAsk::Token, p, end) {
        answer_answers(d.s, d.facts, query(JsAsk::Token, p, end), 0);
        if at(d.s, span.start as int) == Some(LBRACE) {
            braced_is_tidy(d, end, span.start as int);
            let r = braced(d, end, span.start as int);
            if r.stop is None {
                let t = branch(NodeKind::Fragment, start, r.at, r.nodes);
                row_is_children(d.s, Row::Children, r.nodes, span.start + 1, r.at);
                sound_over(d.s, t);
            }
        }
    }
}

proof fn condition_is_tidy(d: Input, end: int, p: int)
    requires
        is_readable(d, end),
        0 <= p <= end,
    ensures
        ({
            let r = control_head(d, end, p);
            r.stop is None ==> p < r.at <= end && r.nodes.len() == 1 && r.nodes[0].kind is Js
                && is_sound(d.s, r.nodes[0])
        }),
    decreases d.s.len() + 2 - p, 9int,
{
    if let Some(JsAnswer::Token { span, kind: _ }) = ask(d, JsAsk::Token, p, end) {
        answer_answers(d.s, d.facts, query(JsAsk::Token, p, end), 0);
        if at(d.s, span.start as int) == Some(LPAREN) {
            paren_is_tidy(d, end, span.start as int);
        }
    }
}

#[verifier::spinoff_prover]
proof fn if_is_tidy(d: Input, end: int, nodes: Seq<Tree>, pos: int, c: int)
    requires
        is_readable(d, end),
        0 <= pos < c <= d.s.len(),
        c <= end,
        at(d.s, pos) == Some(AT_SIGN) || (at(d.s, pos) == Some(LOWER_I) && at(d.s, pos + 1) == Some(
            LOWER_F,
        )),
    ensures
        adds_form(d, nodes, if_form(d, end, nodes, pos, c), pos),
        if_form(d, end, nodes, pos, c).stop is None ==> if_form(
            d,
            end,
            nodes,
            pos,
            c,
        ).nodes.last().kind == NodeKind::If && if_form(d, end, nodes, pos, c).nodes.last().span.end
            == if_form(d, end, nodes, pos, c).at,
    decreases d.s.len() + 2 - c, 12int,
{
    let s = d.s;
    condition_is_tidy(d, end, c);
    let cond = control_head(d, end, c);
    if cond.stop is None {
        branch_is_tidy(d, end, pos, cond.at);
        let then = control_body(d, end, pos, cond.at);
        let kids = cond.nodes + then.nodes;
        if then.stop is None {
            else_after_bounds(s, then.at);
            assert(kids[0] == cond.nodes[0] && kids[1] == then.nodes[0]);
            match else_after(s, then.at) {
                ElsePeek::Ends => {
                    let t = branch(NodeKind::If, pos, then.at, kids);
                    assert(all_sound(s, kids));
                    sound_over(s, t);
                    assert(nodes.push(t).last() == t);
                },
                ElsePeek::ElseIf { if_offset } => {
                    if if_offset + 2 <= end {
                        if_is_tidy(d, end, kids, if_offset as int, if_offset + 2);
                    } else {
                        conditions_lie_inside(d, end, if_offset + 2);
                    }
                    let r = if_form(d, end, kids, if_offset as int, if_offset + 2);
                    if r.stop is None {
                        let t = branch(NodeKind::If, pos, r.at, r.nodes);
                        assert(r.nodes[0] == kids[0] && r.nodes[1] == kids[1] && r.nodes[2]
                            == r.nodes.last());
                        assert(all_sound(s, r.nodes));
                        sound_over(s, t);
                        assert(nodes.push(t).last() == t);
                    }
                },
                ElsePeek::Else { brace_offset } => {
                    braced_is_tidy(d, end, brace_offset as int);
                    let r = braced(d, end, brace_offset as int);
                    if r.stop is None {
                        let other = branch(
                            NodeKind::Fragment,
                            brace_offset as int,
                            r.at,
                            r.nodes,
                        );
                        row_is_children(s, Row::Children, r.nodes, brace_offset + 1, r.at);
                        sound_over(s, other);
                        let t = branch(NodeKind::If, pos, r.at, kids.push(other));
                        assert(t.kids[0] == kids[0] && t.kids[1] == kids[1] && t.kids[2] == other);
                        assert(all_sound(s, t.kids));
                        sound_over(s, t);
                        assert(nodes.push(t).last() == t);
                    }
                },
            }
        }
    }
}

/// Past the end of the code there is no condition.
proof fn conditions_lie_inside(d: Input, end: int, c: int)
    requires
        end < c,
    ensures
        forall|nodes: Seq<Tree>, pos: int| (#[trigger] if_form(d, end, nodes, pos, c)).stop is Some,
{
    assert(ask(d, JsAsk::Token, c, end) is None);
    assert(control_head(d, end, c).stop is Some);
}

#[verifier::spinoff_prover]
proof fn for_is_tidy(d: Input, end: int, nodes: Seq<Tree>, pos: int, c: int)
    requires
        is_readable(d, end),
        0 <= pos < c <= end,
        at(d.s, pos) == Some(AT_SIGN),
    ensures
        adds_form(d, nodes, for_form(d, end, nodes, pos, c), pos),
    decreases d.s.len() + 2 - c, 12int,
{
    let s = d.s;
    loop_head_is_tidy(d, end, c);
    let head = for_head(d, end, c);
    if head.stop is None {
        branch_is_tidy(d, end, pos, head.at);
        let body = control_body(d, end, pos, head.at);
        if body.stop is None {
            let t = branch(NodeKind::For, pos, body.at, head.nodes + body.nodes);
            assert(t.kids[0] == head.nodes[0] && t.kids[1] == head.nodes[1] && t.kids[2]
                == body.nodes[0]);
            assert(all_sound(s, t.kids));
            sound_over(s, t);
            assert(nodes.push(t).last() == t);
        }
    }
}

proof fn loop_head_is_tidy(d: Input, end: int, p: int)
    requires
        is_readable(d, end),
        0 <= p <= end,
    ensures
        ({
            let r = for_head(d, end, p);
            r.stop is None ==> p < r.at <= end && r.nodes.len() == 2 && r.nodes[0].kind is Js
                && r.nodes[1].kind is Js && is_sound(d.s, r.nodes[0]) && is_sound(d.s, r.nodes[1])
        }),
    decreases d.s.len() + 2 - p, 9int,
{
    if let Some(JsAnswer::Token { span: open, kind: _ }) = ask(d, JsAsk::Token, p, end) {
        answer_answers(d.s, d.facts, query(JsAsk::Token, p, end), 0);
        if at(d.s, open.start as int) == Some(LPAREN) {
            js_is_tidy(d, end, JsAsk::Pattern, open.end as int);
            let bind = js_at(d, end, JsAsk::Pattern, open.end as int);
            if bind.stop is None {
                let q = bind.at;
                answer_answers(d.s, d.facts, query(JsAsk::Token, q, end), 0);
                if let Some(JsAnswer::Token { span: of, kind: _ }) = ask(d, JsAsk::Token, q, end) {
                    js_is_tidy(d, end, JsAsk::Assignment, of.end as int);
                    let iter = js_at(d, end, JsAsk::Assignment, of.end as int);
                    if iter.stop is None {
                        answer_answers(d.s, d.facts, query(JsAsk::Token, iter.at, end), 0);
                        let kids = bind.nodes + iter.nodes;
                        assert(kids[0] == bind.nodes[0] && kids[1] == iter.nodes[0]);
                    }
                }
                assert(for_head(d, end, p) == for_iterable(d, end, bind.nodes, q));
            }
        }
    }
}

/// Where a colon body stops is inside the source, and not among the spaces that lead a line.
proof fn colon_stops_are_tight(s: Seq<u8>, mode: BodyMode, colon_end: int, indent: int)
    requires
        addressable(s),
        is_tight(s, mode),
        0 <= colon_end <= s.len(),
    ensures
        ({
            let stop = clip(mode, colon_extent(s, colon_end, indent, mode == BodyMode::Body).1);
            is_tight(s, BodyMode::Bounded { end: stop as u32 }) && stop <= s.len() && (in_bound(
                mode,
                colon_end,
            ) ==> colon_end <= stop) && 0 <= stop
        }),
{
    let body = mode == BodyMode::Body;
    colon_extent_bounds(s, colon_end, indent, body);
    next_line_bounds(s, colon_end);
    blocks_end_at_lines(s, next_line(s, colon_end), indent);
    block_end_bounds(s, next_line(s, colon_end), indent);
    brace_clip_bounds(s, colon_end, 0, line_end(s, colon_end));
}

proof fn blocks_end_at_lines(s: Seq<u8>, line: int, min: int)
    requires
        0 <= line <= s.len(),
        line == 0 || line == s.len() || s[line - 1] == NEWLINE,
    ensures
        ({
            let e = block_end(s, line, min);
            e == 0 || e == s.len() || s[e - 1] == NEWLINE
        }),
    decreases s.len() - line,
{
    block_end_bounds(s, line, min);
    if line < s.len() {
        next_line_bounds(s, line);
        if !(!is_blank(s, line) && content_start(s, line) - line <= min) {
            blocks_end_at_lines(s, next_line(s, line), min);
        }
    }
}

#[verifier::spinoff_prover]
proof fn colon_is_tidy(
    d: Input,
    end: int,
    region: Region,
    nodes: Seq<Tree>,
    pos: int,
    tag: NotaTag,
    dynamic: Seq<Tree>,
    props: Seq<Tree>,
    c: int,
)
    requires
        is_readable(d, end),
        0 <= pos < end,
        pos < c < d.s.len(),
        d.s[pos] == AT_SIGN,
        stands_in(d.s, region, pos),
        is_named(d.s, tag, pos, dynamic),
        is_row(d.s, Row::Props, props, pos, c),
    ensures
        adds_form(
            d,
            nodes,
            colon_element(d, end, region, nodes, pos, tag, dynamic, props, c),
            pos,
        ),
    decreases d.s.len() + 2 - c, 10int,
{
    let s = d.s;
    let mode = region_mode(region);
    let extent = colon_extent(s, c + 1, indent_of(s, pos), mode == BodyMode::Body);
    let stop = clip(mode, extent.1);
    colon_extent_bounds(s, c + 1, indent_of(s, pos), mode == BodyMode::Body);
    colon_stops_are_tight(s, mode, c + 1, indent_of(s, pos));
    assert(pos < stop || (mode matches BodyMode::Bounded { end: e } && stop == e));
    next_line_bounds(s, extent.0);
    let first = next_line(s, extent.0);
    let from = past(s, c, first);
    let lo = pos;
    row_reaches(s, Row::Props, props, lo, c, from);
    lines_are_tidy(d, end, props, from, stop, lo);
    let lines = prop_lines(d, end, props, from, stop);
    if lines.stop is None {
        let start = if lines.at > from {
            if at(s, lines.at - 1) == Some(NEWLINE) {
                lines.at - 1
            } else {
                lines.at
            }
        } else {
            extent.0
        };
        range_is_tidy(d, end, start, stop, past(s, c, start));
        let children = range(d, end, start, stop, past(s, c, start));
        if children.stop is None {
            row_is_children(s, Row::Props, lines.nodes, lo, lines.at);
            row_is_children(s, Row::Children, children.nodes, past(s, c, start), children.at);
            element_is_sound(
                s,
                tag,
                BodyForm::Colon,
                pos,
                stop,
                lines.nodes,
                children.nodes,
                dynamic,
            );
        }
    }
}

proof fn range_is_tidy(d: Input, end: int, start: int, stop: int, p: int)
    requires
        is_readable(d, end),
        0 <= p <= d.s.len(),
        0 <= start <= d.s.len(),
        0 <= stop <= d.s.len(),
        is_tight(d.s, BodyMode::Bounded { end: stop as u32 }),
    ensures
        is_tidy(d, Row::Children, p, range(d, end, start, stop, p), p),
    decreases d.s.len() + 2 - p, 19int,
{
    let f = Frame { mode: BodyMode::Bounded { end: stop as u32 }, start: start as u32 };
    body_is_tidy(d, end, f, p);
}

proof fn lines_are_tidy(d: Input, end: int, nodes: Seq<Tree>, line: int, stop: int, lo: int)
    requires
        is_readable(d, end),
        0 <= lo <= line <= d.s.len(),
        is_row(d.s, Row::Props, nodes, lo, line),
    ensures
        is_tidy(d, Row::Props, lo, prop_lines(d, end, nodes, line, stop), line),
    decreases d.s.len() + 2 - line, 11int,
{
    let s = d.s;
    if line < stop && line < s.len() {
        if let Some(entries_at) = prop_line(s, line) {
            content_start_bounds(s, line);
            next_line_bounds(s, line);
            let p = past(s, line, entries_at as int);
            row_reaches(s, Row::Props, nodes, lo, line, p);
            line_entries_are_tidy(d, end, nodes, p, next_line(s, line), lo);
            let r = line_entries(d, end, nodes, p, next_line(s, line));
            if r.stop is None {
                let next = past(s, line, next_line(s, line));
                row_reaches(s, Row::Props, r.nodes, lo, r.at, next);
                lines_are_tidy(d, end, r.nodes, next, stop, lo);
            }
        }
    }
}

proof fn line_entries_are_tidy(
    d: Input,
    end: int,
    nodes: Seq<Tree>,
    p: int,
    line_stop: int,
    lo: int,
)
    requires
        is_readable(d, end),
        0 <= lo <= p <= d.s.len(),
        is_row(d.s, Row::Props, nodes, lo, p),
    ensures
        is_tidy(d, Row::Props, lo, line_entries(d, end, nodes, p, line_stop), p),
    decreases d.s.len() + 2 - p, 9int,
{
    let s = d.s;
    if let Some(JsAnswer::Token { span, kind }) = ask(d, JsAsk::Token, p, end) {
        answer_answers(s, d.facts, query(JsAsk::Token, p, end), 0);
        if span.start < line_stop {
            row_reaches(s, Row::Props, nodes, lo, p, span.start as int);
            entry_is_tidy(d, end, nodes, span, kind, lo);
            let r = entry(d, end, nodes, span, kind);
            if r.stop is None {
                if let Some(JsAnswer::Token { span: next, kind: _ }) = ask(
                    d,
                    JsAsk::Token,
                    r.at,
                    end,
                ) {
                    answer_answers(s, d.facts, query(JsAsk::Token, r.at, end), 0);
                    if at(s, next.start as int) == Some(COMMA) {
                        row_reaches(s, Row::Props, r.nodes, lo, r.at, next.end as int);
                        line_entries_are_tidy(
                            d,
                            end,
                            r.nodes,
                            past(s, p, next.end as int),
                            line_stop,
                            lo,
                        );
                    }
                }
            }
        }
    }
}

#[verifier::spinoff_prover]
proof fn verbatim_is_tidy(
    d: Input,
    end: int,
    nodes: Seq<Tree>,
    pos: int,
    tag: NotaTag,
    dynamic: Seq<Tree>,
    props: Seq<Tree>,
    c: int,
)
    requires
        is_readable(d, end),
        0 <= pos < end,
        pos < c,
        d.s[pos] == AT_SIGN,
        at(d.s, c) == Some(PIPE),
        at(d.s, c + 1) == Some(LBRACE),
        is_named(d.s, tag, pos, dynamic),
        is_row(d.s, Row::Props, props, pos, c),
    ensures
        adds_form(d, nodes, verbatim_element(d, end, nodes, pos, tag, dynamic, props, c), pos),
    decreases d.s.len() + 2 - c, 10int,
{
    let s = d.s;
    let start = if at(view(d, end), c + 2) == Some(NEWLINE) {
        c + 3
    } else {
        c + 2
    };
    view_shows(d, end, c + 2);
    row_is_children(s, Row::Props, props, pos, c);
    row_of_none(s, Row::Parts, start);
    parts_are_tidy(d, end, Seq::empty(), start, start, start);
    let parts = verbatim_parts(d, end, Seq::empty(), start, start);
    if parts.stop is None {
        row_is_children(s, Row::Parts, parts.nodes, start, parts.at);
        element_is_sound(
            s,
            tag,
            BodyForm::Verbatim,
            pos,
            parts.at,
            props,
            parts.nodes,
            dynamic,
        );
    }
}

#[verifier::spinoff_prover]
proof fn parts_are_tidy(d: Input, end: int, nodes: Seq<Tree>, start: int, p: int, lo: int)
    requires
        is_readable(d, end),
        0 <= lo <= p <= d.s.len(),
        is_row(d.s, Row::Parts, nodes, lo, p),
    ensures
        is_tidy(d, Row::Parts, lo, verbatim_parts(d, end, nodes, start, p), p),
        verbatim_parts(d, end, nodes, start, p).stop is None ==> at(
            d.s,
            verbatim_parts(d, end, nodes, start, p).at - 2,
        ) == Some(RBRACE) && at(d.s, verbatim_parts(d, end, nodes, start, p).at - 1) == Some(PIPE),
    decreases d.s.len() + 2 - p, 9int,
{
    let v = view(d, end);
    let stop = verbatim_stop(v, p);
    verbatim_stop_bounds(v, p);
    if p <= stop && stop < end {
        view_shows(d, end, stop);
        view_shows(d, end, stop + 1);
        if verbatim_closes(v, stop) {
            let run_end = if stop > p && v[stop - 1] == NEWLINE {
                stop - 1
            } else {
                stop
            };
            raw_is_tidy(d, nodes, lo, p, run_end, stop + 2);
        } else {
            raw_is_tidy(d, nodes, lo, p, stop, stop + 1);
            let before = with_raw(nodes, p, stop);
            form_is_tidy(d, end, Region::Raw, before, stop + 1);
            let r = form(d, end, Region::Raw, before, stop + 1);
            if r.stop is None {
                row_grows(d.s, Row::Parts, before, lo, stop + 1, r.nodes.last(), r.at);
                parts_are_tidy(d, end, r.nodes, start, past(d.s, p, r.at), lo);
            }
        }
    }
}

#[verifier::spinoff_prover]
proof fn bounded_are_tidy(d: Input, nodes: Seq<Tree>, p: int, e: int, lo: int)
    requires
        is_readable(d, e),
        0 <= lo <= p <= e,
        is_row(d.s, Row::Parts, nodes, lo, p),
    ensures
        is_tidy(d, Row::Parts, lo, bounded_parts(d, nodes, p, e), p),
    decreases d.s.len() + 2 - p, 9int,
{
    let stop = armed_stop(d.s, p, e);
    armed_stop_bounds(d.s, p, e);
    if stop < e {
        raw_is_tidy(d, nodes, lo, p, stop, stop + 1);
        let before = with_raw(nodes, p, stop);
        form_is_tidy(d, e, Region::Raw, before, stop + 1);
        let r = form(d, e, Region::Raw, before, stop + 1);
        if r.stop is None && r.at <= e {
            row_grows(d.s, Row::Parts, before, lo, stop + 1, r.nodes.last(), r.at);
            bounded_are_tidy(d, r.nodes, past(d.s, p, r.at), e, lo);
        }
    } else {
        raw_is_tidy(d, nodes, lo, p, stop, e);
    }
}

proof fn body_is_tidy(d: Input, end: int, f: Frame, start: int)
    requires
        is_readable(d, end),
        0 <= start <= d.s.len(),
        is_tight(d.s, f.mode),
    ensures
        is_tidy(d, Row::Children, start, body(d, end, f, start), start),
        body(d, end, f, start).stop is None && body(d, end, f, start).closed ==> start < body(
            d,
            end,
            f,
            start,
        ).at && at(d.s, body(d, end, f, start).at - 1) == Some(RBRACE),
    decreases d.s.len() + 2 - start, 18int,
{
    row_of_none(d.s, Row::Children, start);
    starts_are_tidy(d, end, f, Seq::empty(), start, 0, start);
    let lead = line_starts(d, end, f, Seq::empty(), start, 0);
    if lead.stop is None {
        collect_is_tidy(d, end, f, lead.nodes, lead.at, 0, start);
    }
}

proof fn collect_is_tidy(
    d: Input,
    end: int,
    f: Frame,
    nodes: Seq<Tree>,
    pos: int,
    depth: int,
    lo: int,
)
    requires
        is_readable(d, end),
        0 <= lo <= pos <= d.s.len(),
        is_tight(d.s, f.mode),
        is_row(d.s, Row::Children, nodes, lo, pos),
    ensures
        is_tidy(d, Row::Children, lo, collect(d, end, f, nodes, pos, depth), pos),
        ({
            let r = collect(d, end, f, nodes, pos, depth);
            r.stop is None && r.closed ==> pos < r.at && at(d.s, r.at - 1) == Some(RBRACE)
        }),
    decreases d.s.len() + 2 - pos, 16int,
{
    let v = view(d, end);
    let kind = token_kind(v, pos);
    view_shows(d, end, pos);
    if pos < end && in_bound(f.mode, pos) {
        if kind == Kind::RCurly && depth == 0 && f.mode == BodyMode::Body {
            reveal(token_kind);
            row_reaches(d.s, Row::Children, nodes, lo, pos, pos + 1);
        } else {
            child_is_tidy(d, end, f, nodes, pos, depth, lo);
            let r = child(d, end, f, nodes, pos, depth);
            if r.stop is None {
                let deeper = if kind == Kind::LCurly {
                    depth + 1
                } else if kind == Kind::RCurly && depth > 0 {
                    depth - 1
                } else {
                    depth
                };
                row_reaches(d.s, Row::Children, r.nodes, lo, r.at, past(d.s, pos, r.at));
                collect_is_tidy(d, end, f, r.nodes, past(d.s, pos, r.at), deeper, lo);
            }
        }
    }
}

#[verifier::spinoff_prover]
proof fn child_is_tidy(
    d: Input,
    end: int,
    f: Frame,
    nodes: Seq<Tree>,
    pos: int,
    depth: int,
    lo: int,
)
    requires
        is_readable(d, end),
        0 <= lo <= pos < end,
        in_bound(f.mode, pos),
        is_tight(d.s, f.mode),
        is_row(d.s, Row::Children, nodes, lo, pos),
    ensures
        is_tidy(d, Row::Children, lo, child(d, end, f, nodes, pos, depth), pos),
    decreases d.s.len() + 2 - pos, 15int,
{
    let v = view(d, end);
    view_shows(d, end, pos);
    view_shows(d, end, pos + 1);
    let kind = token_kind(v, pos);
    assert(kind == Kind::At ==> d.s[pos] == AT_SIGN) by {
        reveal(token_kind);
    }
    assert(kind == Kind::LBrack ==> d.s[pos] == LBRACK) by {
        reveal(token_kind);
    }
    assert(kind == Kind::Slash ==> d.s[pos] == SLASH && (at(v, pos + 1) == Some(SLASH) || at(v, pos
        + 1)
        == Some(STAR))) by {
        reveal(token_kind);
    }
    assert(kind == Kind::LAngle ==> d.s[pos] == LESS) by {
        reveal(token_kind);
    }
    assert(kind == Kind::Amp ==> d.s[pos] == AMPERSAND) by {
        reveal(token_kind);
    }
    assert(kind == Kind::Bang ==> d.s[pos] == BANG && at(v, pos + 1) == Some(LBRACK)) by {
        reveal(token_kind);
    }
    match kind {
        Kind::NotaNewline => {
            text_is_tidy(d, nodes, lo, pos, pos, pos + 1, pos + 1);
            starts_are_tidy(d, end, f, with_text(nodes, pos, pos + 1), pos + 1, depth, lo);
        },
        Kind::At => {
            let region = Region::Markup { frame: f };
            form_is_tidy(d, end, region, nodes, pos);
            let r = form(d, end, region, nodes, pos);
            if r.stop is None {
                row_grows(d.s, Row::Children, nodes, lo, pos, r.nodes.last(), r.at);
            }
            after_is_tidy(d, end, f, r, pos, depth, lo);
            assert(child(d, end, f, nodes, pos, depth) == form_child(d, end, f, nodes, pos, depth));
        },
        Kind::LBrack => {
            let closer = f.mode == BodyMode::Body && depth == 0;
            bracket_is_tidy(d, end, f, nodes, pos, closer, lo);
            let r = bracket(d, end, f, nodes, pos, closer);
            after_is_tidy(d, end, f, r, pos, depth, lo);
            assert(child(d, end, f, nodes, pos, depth) == bracket_child(
                d,
                end,
                f,
                nodes,
                pos,
                depth,
            ));
        },
        Kind::Slash => trivia_is_tidy(d, end, f, nodes, pos, depth, lo),
        Kind::LAngle => label_is_tidy(d, end, f, nodes, pos, lo),
        Kind::Amp => refer_is_tidy(d, end, f, nodes, pos, lo),
        Kind::Bang => image_is_tidy(d, end, f, nodes, pos, lo),
        _ => inline_is_tidy(d, end, f, nodes, pos, lo),
    }
}

proof fn after_is_tidy(d: Input, end: int, f: Frame, r: Reading, pos: int, depth: int, lo: int)
    requires
        is_readable(d, end),
        0 <= lo <= pos < end,
        is_tight(d.s, f.mode),
        is_tidy(d, Row::Children, lo, r, pos),
    ensures
        is_tidy(d, Row::Children, lo, after_form(d, end, f, r, pos, depth), pos),
    decreases d.s.len() + 2 - pos, 13int,
{
    if r.stop is None && r.at > 0 && at(d.s, r.at - 1) == Some(NEWLINE) {
        let next = past(d.s, pos, r.at);
        row_reaches(d.s, Row::Children, r.nodes, lo, r.at, next);
        starts_are_tidy(d, end, f, r.nodes, next, depth, lo);
    }
}

#[verifier::spinoff_prover]
proof fn inline_is_tidy(d: Input, end: int, f: Frame, nodes: Seq<Tree>, pos: int, lo: int)
    requires
        is_readable(d, end),
        0 <= lo <= pos < end,
        in_bound(f.mode, pos),
        is_tight(d.s, f.mode),
        is_row(d.s, Row::Children, nodes, lo, pos),
    ensures
        is_tidy(d, Row::Children, lo, inline_span(d, end, f, nodes, pos), pos),
    decreases d.s.len() + 2 - pos, 14int,
{
    let v = view(d, end);
    view_shows(d, end, pos);
    view_shows(d, end, pos + 1);
    token_bounds(v, pos);
    let kind = token_kind(v, pos);
    assert(kind == Kind::Star ==> d.s[pos] == STAR) by {
        reveal(token_kind);
    }
    assert(kind == Kind::NotaUnderscore ==> d.s[pos] == UNDERSCORE) by {
        reveal(token_kind);
    }
    assert(kind == Kind::Tilde ==> d.s[pos] == TILDE) by {
        reveal(token_kind);
    }
    match kind {
        Kind::Star => emphasis_is_tidy(
            d,
            end,
            nodes,
            pos,
            STAR,
            1,
            NotaEmphasisMarker::Strong,
            lo,
        ),
        Kind::NotaUnderscore => emphasis_is_tidy(
            d,
            end,
            nodes,
            pos,
            UNDERSCORE,
            1,
            NotaEmphasisMarker::Em,
            lo,
        ),
        Kind::Tilde => emphasis_is_tidy(
            d,
            end,
            nodes,
            pos,
            TILDE,
            2,
            NotaEmphasisMarker::Strike,
            lo,
        ),
        Kind::NotaBacktick => code_is_tidy(d, end, nodes, pos, lo),
        Kind::NotaDollar => math_is_tidy(d, end, nodes, pos, lo),
        Kind::NotaBackslash => {
            let e = escape(v, pos);
            ascii_then_boundary(d.s, pos);
            if pos + 1 < end {
                char_bounds(d.s, pos + 1);
            }
            text_is_tidy(d, nodes, lo, pos, e.start as int, e.end as int, e.end as int);
        },
        _ => {
            let stop = token_end(v, pos);
            text_is_tidy(d, nodes, lo, pos, pos, clip(f.mode, stop), stop);
        },
    }
}

/// An emphasis is sound between its markers.
proof fn emphasis_is_sound(s: Seq<u8>, which: NotaEmphasisMarker, a: int, b: int, kids: Seq<Tree>)
    requires
        addressable(s),
        0 <= a <= b <= s.len(),
        all_sound(s, kids),
        are_children(kids),
        match which {
            NotaEmphasisMarker::Strong => at(s, a) == Some(STAR) && at(s, b - 1) == Some(STAR),
            NotaEmphasisMarker::Em => at(s, a) == Some(UNDERSCORE) && at(s, b - 1) == Some(UNDERSCORE),
            NotaEmphasisMarker::Strike => only(s, a, a + 2, TILDE) && only(s, b - 2, b, TILDE),
        },
    ensures
        is_sound(s, branch(NodeKind::Emphasis { marker: which }, a, b, kids)),
{
    sound_over(s, branch(NodeKind::Emphasis { marker: which }, a, b, kids));
}

/// A raw span is sound over its runs and forms.
proof fn raw_is_sound(s: Seq<u8>, kind: NodeKind, a: int, b: int, kids: Seq<Tree>)
    requires
        addressable(s),
        0 <= a <= b <= s.len(),
        all_sound(s, kids),
        forall|k: int| 0 <= k < kids.len() ==> is_part(#[trigger] kids[k]),
        match kind {
            NodeKind::Code { is_block, lang: _ } => at(s, a) == Some(BACKTICK) && (is_block ==> only(
                s,
                a,
                a + 3,
                BACKTICK,
            )),
            NodeKind::Math { is_block } => at(s, a) == Some(DOLLAR) && (is_block ==> only(
                s,
                a,
                a + 2,
                DOLLAR,
            )),
            _ => false,
        },
    ensures
        is_sound(s, branch(kind, a, b, kids)),
{
    sound_over(s, branch(kind, a, b, kids));
}

/// The runs of backticks and dollars that open blocks are long enough.
proof fn blocks_open_with_runs(d: Input, end: int, pos: int)
    requires
        is_readable(d, end),
        0 <= pos < end,
    ensures
        d.s[pos] == BACKTICK ==> (code_span(view(d, end), pos) matches CodeScan::Code {
            span,
            is_block,
            lang,
            content,
            resume,
        } ==> is_block ==> only(d.s, pos, pos + 3, BACKTICK)),
        d.s[pos] == DOLLAR ==> (math_span(view(d, end), pos) matches MathScan::Math {
            span,
            is_block,
            content,
            resume,
        } ==> is_block ==> only(d.s, pos, pos + 2, DOLLAR)),
{
    let v = view(d, end);
    run_bounds(v, pos, BACKTICK);
    run_bounds(v, pos, DOLLAR);
    assert forall|i: int| pos <= i < end implies #[trigger] at(d.s, i) == Some(v[i]) by {}
}

#[verifier::spinoff_prover]
proof fn emphasis_is_tidy(
    d: Input,
    end: int,
    nodes: Seq<Tree>,
    pos: int,
    marker: u8,
    len: int,
    which: NotaEmphasisMarker,
    lo: int,
)
    requires
        is_readable(d, end),
        0 <= lo <= pos,
        pos + len <= end,
        len == 1 || len == 2,
        is_row(d.s, Row::Children, nodes, lo, pos),
        d.s[pos] == marker,
        len == 2 ==> d.s[pos + 1] == marker,
        match which {
            NotaEmphasisMarker::Strong => marker == STAR && len == 1,
            NotaEmphasisMarker::Em => marker == UNDERSCORE && len == 1,
            NotaEmphasisMarker::Strike => marker == TILDE && len == 2,
        },
    ensures
        is_tidy(d, Row::Children, lo, emphasis(d, end, nodes, pos, marker, len, which), pos),
    decreases d.s.len() + 2 - pos, 13int,
{
    let s = d.s;
    let v = view(d, end);
    view_shows(d, end, pos);
    marker_close_bounds(v, pos + len, 0, pos + len, marker, len, line_end(v, pos));
    match span_close(v, pos, marker, len) {
        Some(close) => {
            view_shows(d, end, close);
            view_shows(d, end, close + 1);
            range_is_tidy(d, end, pos + len, close, pos + len);
            let kids = range(d, end, pos + len, close, pos + len);
            if kids.stop is None {
                let t = branch(
                    NodeKind::Emphasis { marker: which },
                    pos,
                    close + len,
                    kids.nodes,
                );
                row_is_children(s, Row::Children, kids.nodes, pos + len, kids.at);
                emphasis_is_sound(s, which, pos, close + len, kids.nodes);
                row_grows(s, Row::Children, nodes, lo, pos, t, close + len);
            }
        },
        None => {
            text_is_tidy(d, nodes, lo, pos, pos, pos + len, pos + len);
        },
    }
}

#[verifier::spinoff_prover]
proof fn code_is_tidy(d: Input, end: int, nodes: Seq<Tree>, pos: int, lo: int)
    requires
        is_readable(d, end),
        0 <= lo <= pos < end,
        is_row(d.s, Row::Children, nodes, lo, pos),
        d.s[pos] == BACKTICK,
    ensures
        is_tidy(d, Row::Children, lo, code(d, end, nodes, pos), pos),
    decreases d.s.len() + 2 - pos, 13int,
{
    let s = d.s;
    let v = view(d, end);
    view_shows(d, end, pos);
    code_span_bounds(v, pos);
    match code_span(v, pos) {
        CodeScan::Code { span, is_block, lang, content, resume } => {
            cut_is_valid(s, 0, end);
            assert(v == s.subrange(0, end));
            ascii_then_boundary(s, pos);
            code_content_boundary(v, pos);
            boundaries_of_views(s, end, content.end as int);
            let (a, e) = (content.start as int, content.end as int);
            row_of_none(s, Row::Parts, a);
            bounded_are_tidy(d, Seq::empty(), a, e, a);
            let parts = bounded_parts(d, Seq::empty(), a, e);
            if parts.stop is None {
                let t = branch(
                    NodeKind::Code { is_block, lang },
                    span.start as int,
                    span.end as int,
                    parts.nodes,
                );
                row_is_children(s, Row::Parts, parts.nodes, a, parts.at);
                blocks_open_with_runs(d, end, pos);
                raw_is_sound(s, t.kind, pos, resume as int, parts.nodes);
                row_grows(s, Row::Children, nodes, lo, pos, t, resume as int);
            }
        },
        CodeScan::Literal { resume } => {
            text_is_tidy(d, nodes, lo, pos, pos, resume as int, resume as int);
        },
    }
}

#[verifier::spinoff_prover]
proof fn math_is_tidy(d: Input, end: int, nodes: Seq<Tree>, pos: int, lo: int)
    requires
        is_readable(d, end),
        0 <= lo <= pos < end,
        is_row(d.s, Row::Children, nodes, lo, pos),
        d.s[pos] == DOLLAR,
    ensures
        is_tidy(d, Row::Children, lo, math(d, end, nodes, pos), pos),
    decreases d.s.len() + 2 - pos, 13int,
{
    let s = d.s;
    let v = view(d, end);
    view_shows(d, end, pos);
    math_span_bounds(v, pos);
    match math_span(v, pos) {
        MathScan::Math { span, is_block, content, resume } => {
            cut_is_valid(s, 0, end);
            assert(v == s.subrange(0, end));
            ascii_then_boundary(s, pos);
            math_content_boundary(v, pos);
            boundaries_of_views(s, end, content.end as int);
            let (a, e) = (content.start as int, content.end as int);
            row_of_none(s, Row::Parts, a);
            bounded_are_tidy(d, Seq::empty(), a, e, a);
            let parts = bounded_parts(d, Seq::empty(), a, e);
            if parts.stop is None {
                let t = branch(
                    NodeKind::Math { is_block },
                    span.start as int,
                    span.end as int,
                    parts.nodes,
                );
                row_is_children(s, Row::Parts, parts.nodes, a, parts.at);
                blocks_open_with_runs(d, end, pos);
                raw_is_sound(s, t.kind, pos, resume as int, parts.nodes);
                row_grows(s, Row::Children, nodes, lo, pos, t, resume as int);
            }
        },
        MathScan::Literal { resume } => {
            text_is_tidy(d, nodes, lo, pos, pos, resume as int, resume as int);
        },
    }
}

/// A boundary of the source's start is one of the source.
proof fn boundaries_of_views(s: Seq<u8>, end: int, p: int)
    requires
        0 <= p <= end <= s.len(),
        boundary(s, end),
        boundary(s.subrange(0, end), p),
    ensures
        boundary(s, p),
{
}

#[verifier::spinoff_prover]
proof fn label_is_tidy(d: Input, end: int, f: Frame, nodes: Seq<Tree>, pos: int, lo: int)
    requires
        is_readable(d, end),
        0 <= lo <= pos < end,
        is_row(d.s, Row::Children, nodes, lo, pos),
        d.s[pos] == LESS,
    ensures
        is_tidy(d, Row::Children, lo, label(d, end, f, nodes, pos), pos),
{
    reveal(label);
    let v = view(d, end);
    let limit = clip(f.mode, end);
    text_is_tidy(d, nodes, lo, pos, pos, pos + 1, pos + 1);
    if let Some(name) = closed_label(v, pos + 1, limit, GREATER) {
        labels_lie_inside(v, pos + 1, limit);
        view_shows(d, end, name.end as int);
        let t = leaf(
            NodeKind::DocState { sugar: NotaDocStateKind::Label, label: name },
            pos,
            name.end + 1,
        );
        assert(all_sound(d.s, t.kids));
        sound_over(d.s, t);
        row_grows(d.s, Row::Children, nodes, lo, pos, t, name.end + 1);
    }
}

proof fn labels_lie_inside(v: Seq<u8>, start: int, limit: int)
    requires
        0 <= start,
    ensures
        label_end(v, start, limit) matches Some(e) ==> start < e <= limit && e <= v.len(),
{
    if label_end(v, start, limit) is Some {
        skip_bounds(v, start + 1, ByteClass::Label);
    }
}

#[verifier::spinoff_prover]
proof fn refer_is_tidy(d: Input, end: int, f: Frame, nodes: Seq<Tree>, pos: int, lo: int)
    requires
        is_readable(d, end),
        0 <= lo <= pos < end,
        is_row(d.s, Row::Children, nodes, lo, pos),
        d.s[pos] == AMPERSAND,
    ensures
        is_tidy(d, Row::Children, lo, refer(d, end, f, nodes, pos), pos),
    decreases d.s.len() + 2 - pos, 14int,
{
    let s = d.s;
    let v = view(d, end);
    view_shows(d, end, pos);
    let limit = clip(f.mode, end);
    text_is_tidy(d, nodes, lo, pos, pos, pos + 1, pos + 1);
    if let Some(name) = reference(v, pos, limit) {
        labels_lie_inside(v, pos + 1, limit);
        let t = leaf(
            NodeKind::DocState { sugar: NotaDocStateKind::Ref, label: name },
            pos,
            name.end as int,
        );
        assert(all_sound(s, t.kids));
        sound_over(s, t);
        row_grows(s, Row::Children, nodes, lo, pos, t, name.end as int);
        postfix_is_tidy(d, end, nodes, pos, name, lo);
    }
}

proof fn doc_state_is_sound(
    s: Seq<u8>,
    sugar: NotaDocStateKind,
    label: Span,
    a: int,
    b: int,
    props: Seq<Tree>,
    children: Seq<Tree>,
)
    requires
        addressable(s),
        0 <= a <= b <= s.len(),
        all_sound(s, props),
        forall|k: int| 0 <= k < props.len() ==> is_prop(#[trigger] props[k]),
        all_sound(s, children),
        are_children(children),
        match sugar {
            NotaDocStateKind::Ref => at(s, a) == Some(AMPERSAND) && label.start == a + 1,
            NotaDocStateKind::FootnoteText => at(s, a) == Some(LBRACK) && at(s, a + 1) == Some(CARET)
                && label.start == a + 2 && at(s, label.end as int) == Some(RBRACK) && at(
                s,
                label.end + 1,
            ) == Some(COLON),
            _ => false,
        },
        lies_between(label, a, b),
    ensures
        is_sound(s, doc_state_tree(sugar, label, a, b, props, children)),
{
    let t = doc_state_tree(sugar, label, a, b, props, children);
    sound_over(s, t.kids[0]);
    sound_over(s, t.kids[1]);
    assert(all_sound(s, t.kids));
    sound_over(s, t);
}

#[verifier::spinoff_prover]
proof fn postfix_is_tidy(d: Input, end: int, nodes: Seq<Tree>, pos: int, name: Span, lo: int)
    requires
        is_readable(d, end),
        0 <= lo <= pos < end,
        is_row(d.s, Row::Children, nodes, lo, pos),
        d.s[pos] == AMPERSAND,
        name.start == pos + 1,
        pos + 1 < name.end <= d.s.len(),
    ensures
        is_tidy(d, Row::Children, lo, postfix(d, end, nodes, pos, name), pos),
    decreases d.s.len() + 2 - pos, 13int,
{
    let s = d.s;
    let c = name.end as int;
    let sugar = NotaDocStateKind::Ref;
    row_of_none(s, Row::Props, c);
    groups_are_tidy(d, end, Seq::empty(), c, c);
    let groups = prop_groups(d, end, Seq::empty(), c);
    if groups.stop is None {
        let b = groups.at;
        row_is_children(s, Row::Props, groups.nodes, c, groups.at);
        if at(s, b) == Some(LBRACE) {
            braced_is_tidy(d, end, b);
            let body = braced(d, end, b);
            if body.stop is None {
                row_is_children(s, Row::Children, body.nodes, b + 1, body.at);
                doc_state_is_sound(s, sugar, name, pos, body.at, groups.nodes, body.nodes);
                let t = doc_state_tree(sugar, name, pos, body.at, groups.nodes, body.nodes);
                row_grows(s, Row::Children, nodes, lo, pos, t, body.at);
            }
        } else {
            doc_state_is_sound(s, sugar, name, pos, b, groups.nodes, Seq::empty());
            let t = doc_state_tree(sugar, name, pos, b, groups.nodes, Seq::empty());
            row_grows(s, Row::Children, nodes, lo, pos, t, b);
        }
    }
}

#[verifier::spinoff_prover]
proof fn bracket_is_tidy(
    d: Input,
    end: int,
    f: Frame,
    nodes: Seq<Tree>,
    pos: int,
    closer: bool,
    lo: int,
)
    requires
        is_readable(d, end),
        0 <= lo <= pos < end,
        in_bound(f.mode, pos),
        is_tight(d.s, f.mode),
        is_row(d.s, Row::Children, nodes, lo, pos),
        d.s[pos] == LBRACK,
    ensures
        is_tidy(d, Row::Children, lo, bracket(d, end, f, nodes, pos, closer), pos),
    decreases d.s.len() + 2 - pos, 13int,
{
    let s = d.s;
    let v = view(d, end);
    let limit = clip(f.mode, end);
    view_shows(d, end, pos);
    view_shows(d, end, pos + 1);
    text_is_tidy(d, nodes, lo, pos, pos, pos + 1, pos + 1);
    match footnote(v, pos, limit) {
        Some(name) => {
            labels_lie_inside(v, pos + 2, limit);
            view_shows(d, end, name.end as int);
            if name.end + 1 < limit && at(s, name.end + 1) == Some(COLON)
                && leads_line(s, pos, f.start as int) {
                note_is_tidy(d, end, f, nodes, pos, name, lo);
            } else {
                let t = leaf(
                    NodeKind::DocState { sugar: NotaDocStateKind::FootnoteMark, label: name },
                    pos,
                    name.end + 1,
                );
                assert(all_sound(s, t.kids));
                sound_over(s, t);
                row_grows(s, Row::Children, nodes, lo, pos, t, name.end + 1);
            }
        },
        None => match link_span(v, pos, limit) {
            Some(link) => {
                links_are_shaped(v, pos, limit);
                view_shows(d, end, link.text.end as int);
                view_shows(d, end, link.text.end + 1);
                view_shows(d, end, link.url.end as int);
                let (a, b) = (link.text.start as int, link.text.end as int);
                range_is_tidy(d, end, a, b, a);
                let kids = range(d, end, a, b, a);
                if kids.stop is None {
                    let t = branch(
                        NodeKind::Link { url: link.url },
                        pos,
                        link.resume as int,
                        kids.nodes,
                    );
                    row_is_children(s, Row::Children, kids.nodes, a, kids.at);
                    sound_over(s, t);
                    row_grows(s, Row::Children, nodes, lo, pos, t, link.resume as int);
                }
            },
            None => {
                row_of_none(s, Row::Props, pos);
                row_reaches(s, Row::Props, Seq::empty(), pos, pos, pos + 1);
                entries_are_tidy(d, end, Seq::empty(), pos, pos + 1, pos);
                let r = entries(d, end, Seq::empty(), pos, pos + 1);
                if r.stop is None {
                    let t = branch(NodeKind::Attrs, pos, r.at, r.nodes);
                    row_is_children(s, Row::Props, r.nodes, pos, r.at);
                    sound_over(s, t);
                    row_grows(s, Row::Children, nodes, lo, pos, t, r.at);
                }
                assert(attrs(d, end, nodes, pos) == with_nodes(
                    r,
                    nodes.push(branch(NodeKind::Attrs, pos, r.at, r.nodes)),
                ));
            },
        },
    }
}

/// Does a link text close with `]`, wherever its scan starts?
proof fn texts_close(s: Seq<u8>, i: int, bracket: int, brace: int, bound: int)
    requires
        0 <= i,
    ensures
        link_text_end(s, i, bracket, brace, bound) matches Some(e) ==> at(s, e) == Some(RBRACK),
    decreases s.len() + 2 - i,
{
    if i < bound && i < s.len() {
        if s[i] == BACKSLASH {
            texts_close(s, i + 2, bracket, brace, bound);
        } else if s[i] == LBRACK {
            texts_close(s, i + 1, bracket + 1, brace, bound);
        } else if s[i] == RBRACK {
            if bracket != 0 {
                texts_close(s, i + 1, bracket - 1, brace, bound);
            }
        } else if s[i] == LBRACE {
            texts_close(s, i + 1, bracket, brace + 1, bound);
        } else if s[i] == RBRACE {
            if brace != 0 {
                texts_close(s, i + 1, bracket, brace - 1, bound);
            }
        } else if s[i] == BACKTICK || s[i] == DOLLAR || (s[i] == PIPE && at(s, i + 1) == Some(LBRACE)) {
            raw_span_bounds(s, i);
            texts_close(s, raw_span_end(s, i), bracket, brace, bound);
        } else if s[i] == AT_SIGN {
            at_form_bounds(s, i);
            texts_close(s, at_form_end(s, i), bracket, brace, bound);
        } else if s[i] == SLASH && at(s, i + 1) == Some(SLASH) {
        } else if s[i] == SLASH && at(s, i + 1) == Some(STAR) {
            block_comment_bounds(s, i + 2, 1, 0, s.len() as int);
            texts_close(s, markup_comment_end(s, i), bracket, brace, bound);
        } else {
            texts_close(s, i + 1, bracket, brace, bound);
        }
    }
}

/// Does a url close with `)`, wherever its scan starts?
proof fn urls_close(s: Seq<u8>, i: int, paren: int, brace: int, bound: int)
    requires
        0 <= i,
    ensures
        link_url_end(s, i, paren, brace, bound) matches Some(e) ==> at(s, e) == Some(RPAREN),
    decreases s.len() + 2 - i,
{
    if i < bound && i < s.len() {
        if s[i] == BACKSLASH {
            urls_close(s, i + 2, paren, brace, bound);
        } else if s[i] == LPAREN {
            urls_close(s, i + 1, paren + 1, brace, bound);
        } else if s[i] == RPAREN {
            if paren != 0 {
                urls_close(s, i + 1, paren - 1, brace, bound);
            }
        } else if s[i] == LBRACE {
            urls_close(s, i + 1, paren, brace + 1, bound);
        } else if s[i] == RBRACE {
            if brace != 0 {
                urls_close(s, i + 1, paren, brace - 1, bound);
            }
        } else {
            urls_close(s, i + 1, paren, brace, bound);
        }
    }
}

/// A link's brackets stand where they are said to.
proof fn links_are_shaped(v: Seq<u8>, lbrack: int, limit: int)
    requires
        addressable(v),
        0 <= lbrack <= v.len(),
    ensures
        link_span(v, lbrack, limit) matches Some(link) ==> link.text.start == lbrack + 1
            && link.text.start <= link.text.end && link.url.start == link.text.end + 2
            && link.url.start <= link.url.end < v.len() && link.resume == link.url.end + 1 && at(
            v,
            link.text.end as int,
        ) == Some(RBRACK) && at(v, link.text.end + 1) == Some(LPAREN) && at(v, link.url.end as int)
            == Some(RPAREN),
{
    link_on_one_line(v, lbrack, limit);
    let bound = link_bound(v, lbrack, limit);
    link_text_bounds(v, lbrack + 1, 0, 0, bound);
    texts_close(v, lbrack + 1, 0, 0, bound);
    if let Some(text_end) = link_text_end(v, lbrack + 1, 0, 0, bound) {
        link_url_bounds(v, text_end + 2, 0, 0, bound);
        urls_close(v, text_end + 2, 0, 0, bound);
    }
}

#[verifier::spinoff_prover]
proof fn note_is_tidy(
    d: Input,
    end: int,
    f: Frame,
    nodes: Seq<Tree>,
    pos: int,
    name: Span,
    lo: int,
)
    requires
        is_readable(d, end),
        0 <= lo <= pos < end,
        in_bound(f.mode, pos),
        is_tight(d.s, f.mode),
        is_row(d.s, Row::Children, nodes, lo, pos),
        d.s[pos] == LBRACK,
        at(d.s, pos + 1) == Some(CARET),
        name.start == pos + 2,
        name.start < name.end,
        name.end + 1 < end,
        in_bound(f.mode, name.end + 1),
        at(d.s, name.end as int) == Some(RBRACK),
        at(d.s, name.end + 1) == Some(COLON),
    ensures
        is_tidy(d, Row::Children, lo, footnote_text(d, end, f, nodes, pos, name), pos),
    decreases d.s.len() + 2 - pos, 12int,
{
    let s = d.s;
    let sugar = NotaDocStateKind::FootnoteText;
    let body = f.mode == BodyMode::Body;
    let extent = colon_extent(s, name.end + 2, indent_of(s, pos), body);
    let stop = clip(f.mode, extent.1);
    let start = smaller(extent.0, stop);
    colon_extent_bounds(s, name.end + 2, indent_of(s, pos), body);
    colon_stops_are_tight(s, f.mode, name.end + 2, indent_of(s, pos));
    range_is_tidy(d, end, start, stop, past(s, pos, start));
    let kids = range(d, end, start, stop, past(s, pos, start));
    if kids.stop is None {
        row_is_children(s, Row::Children, kids.nodes, past(s, pos, start), kids.at);
        doc_state_is_sound(s, sugar, name, pos, stop, Seq::empty(), kids.nodes);
        let t = doc_state_tree(sugar, name, pos, stop, Seq::empty(), kids.nodes);
        row_grows(s, Row::Children, nodes, lo, pos, t, stop);
    }
}

#[verifier::spinoff_prover]
proof fn image_is_tidy(d: Input, end: int, f: Frame, nodes: Seq<Tree>, pos: int, lo: int)
    requires
        is_readable(d, end),
        0 <= lo <= pos < end,
        is_row(d.s, Row::Children, nodes, lo, pos),
        d.s[pos] == BANG,
        at(view(d, end), pos + 1) == Some(LBRACK),
    ensures
        is_tidy(d, Row::Children, lo, image(d, end, f, nodes, pos), pos),
{
    reveal(image);
    let s = d.s;
    let v = view(d, end);
    let limit = clip(f.mode, end);
    text_is_tidy(d, nodes, lo, pos, pos, pos + 1, pos + 1);
    view_shows(d, end, pos + 1);
    if let Some(link) = link_span(v, pos + 1, limit) {
        links_are_shaped(v, pos + 1, limit);
        view_shows(d, end, link.text.end as int);
        view_shows(d, end, link.text.end + 1);
        view_shows(d, end, link.url.end as int);
        let t = leaf(
            NodeKind::Image { alt: link.text, src: link.url },
            pos,
            link.resume as int,
        );
        assert(all_sound(s, t.kids));
        sound_over(s, t);
        row_grows(s, Row::Children, nodes, lo, pos, t, link.resume as int);
    }
}

/// A comment is one node over the comment, and nothing else: no text of it is read. What is behind
/// it is read next, on the same line or, where the comment stood alone, on the next.
#[verifier::spinoff_prover]
pub proof fn comments_are_one_node(
    d: Input,
    end: int,
    f: Frame,
    nodes: Seq<Tree>,
    pos: int,
    depth: int,
)
    requires
        is_readable(d, end),
        0 <= pos,
        pos + 1 < end,
        at(d.s, pos) == Some(SLASH),
        at(d.s, pos + 1) == Some(SLASH) || at(d.s, pos + 1) == Some(STAR),
        in_bound(f.mode, pos),
        comment(view(d, end), pos, clip(f.mode, end)).terminated,
    ensures
        ({
            let e = comment(view(d, end), pos, clip(f.mode, end)).end as int;
            let t = leaf(NodeKind::Comment { block: d.s[pos + 1] == STAR }, pos, e);
            let line = line_end(d.s, e);
            let r = trivia(d, end, f, nodes, pos, depth);
            &&& pos < e <= end
            &&& is_sound(d.s, t)
            &&& r == go(nodes.push(t), e) || r == line_starts(
                d,
                end,
                f,
                nodes.push(t),
                line + 1,
                depth,
            )
        }),
{
    let limit = clip(f.mode, end);
    comments_lie_inside(d, end, limit, pos);
    let scan = comment(view(d, end), pos, limit);
    next_line_bounds(d.s, scan.end as int);
    trivia_goes_on(d, end, f, nodes, pos, depth);
}

proof fn trivia_goes_on(d: Input, end: int, f: Frame, nodes: Seq<Tree>, pos: int, depth: int)
    requires
        0 <= pos < d.s.len(),
        comment(view(d, end), pos, clip(f.mode, end)).terminated,
        pos < comment(view(d, end), pos, clip(f.mode, end)).end <= d.s.len(),
    ensures
        ({
            let scan = comment(view(d, end), pos, clip(f.mode, end));
            let with = nodes.push(
                leaf(NodeKind::Comment { block: scan.block }, pos, scan.end as int),
            );
            let line = line_end(d.s, scan.end as int);
            let r = trivia(d, end, f, nodes, pos, depth);
            r == go(with, scan.end as int) || r == line_starts(d, end, f, with, line + 1, depth)
        }),
{
    let scan = comment(view(d, end), pos, clip(f.mode, end));
    next_line_bounds(d.s, scan.end as int);
}

/// A comment stands inside its limit and looks like one.
proof fn comments_lie_inside(d: Input, end: int, limit: int, pos: int)
    requires
        is_readable(d, end),
        0 <= pos,
        pos + 1 < end,
        pos < limit <= end,
        at(d.s, pos) == Some(SLASH),
        at(d.s, pos + 1) == Some(SLASH) || at(d.s, pos + 1) == Some(STAR),
    ensures
        ({
            let scan = comment(view(d, end), pos, limit);
            let t = leaf(NodeKind::Comment { block: scan.block }, pos, scan.end as int);
            &&& pos < scan.end <= limit
            &&& scan.block == (d.s[pos + 1] == STAR)
            &&& !scan.block || scan.terminated ==> is_sound(d.s, t)
        }),
{
    let s = d.s;
    let v = view(d, end);
    view_shows(d, end, pos);
    view_shows(d, end, pos + 1);
    let scan = comment(v, pos, limit);
    let t = leaf(NodeKind::Comment { block: scan.block }, pos, scan.end as int);
    if at(v, pos + 1) == Some(SLASH) {
        next_line_bounds(v, pos);
        assert forall|i: int| pos <= i < scan.end implies #[trigger] at(s, i) != Some(NEWLINE) by {
            view_shows(d, end, i);
            assert(v[i] != NEWLINE);
        }
    } else {
        block_comment_bounds(v, pos + 2, 1, 0, limit);
        block_comments_close(v, pos + 2, 1, 0, limit);
        if let Some(e) = block_comment_end(v, pos + 2, 1, 0, limit) {
            view_shows(d, end, e - 1);
        }
    }
    if !scan.block || scan.terminated {
        assert(all_sound(s, t.kids));
        sound_over(s, t);
    }
}

proof fn block_comments_close(v: Seq<u8>, i: int, depth: int, prev: u8, limit: int)
    requires
        limit <= v.len(),
    ensures
        block_comment_end(v, i, depth, prev, limit) matches Some(e) ==> v[e - 1] == SLASH,
    decreases limit - i,
{
    if 0 <= i < limit {
        if prev == STAR && v[i] == SLASH {
            if depth > 1 {
                block_comments_close(v, i + 1, depth - 1, 0, limit);
            }
        } else if prev == SLASH && v[i] == STAR {
            block_comments_close(v, i + 1, depth + 1, 0, limit);
        } else {
            block_comments_close(v, i + 1, depth, v[i], limit);
        }
    }
}

#[verifier::spinoff_prover]
proof fn trivia_is_tidy(
    d: Input,
    end: int,
    f: Frame,
    nodes: Seq<Tree>,
    pos: int,
    depth: int,
    lo: int,
)
    requires
        is_readable(d, end),
        0 <= lo <= pos < end,
        in_bound(f.mode, pos),
        is_tight(d.s, f.mode),
        is_row(d.s, Row::Children, nodes, lo, pos),
        d.s[pos] == SLASH,
        at(view(d, end), pos + 1) == Some(SLASH) || at(view(d, end), pos + 1) == Some(STAR),
    ensures
        is_tidy(d, Row::Children, lo, trivia(d, end, f, nodes, pos, depth), pos),
    decreases d.s.len() + 2 - pos, 13int,
{
    let s = d.s;
    let v = view(d, end);
    view_shows(d, end, pos + 1);
    let limit = clip(f.mode, end);
    let scan = comment(v, pos, limit);
    comments_lie_inside(d, end, limit, pos);
    let line = line_end(s, scan.end as int);
    next_line_bounds(s, scan.end as int);
    if !scan.block || scan.terminated {
        let t = leaf(NodeKind::Comment { block: scan.block }, pos, scan.end as int);
        row_grows(s, Row::Children, nodes, lo, pos, t, scan.end as int);
        let kept = nodes.push(t);
        if line < limit && at(s, line) == Some(NEWLINE) {
            row_reaches(s, Row::Children, kept, lo, scan.end as int, line + 1);
            starts_are_tidy(d, end, f, kept, line + 1, depth, lo);
        }
    }
}

/// A line start's construct ends inside the source, and not among spaces.
proof fn sugar_ends_are_tight(s: Seq<u8>, p: int, mode: BodyMode)
    requires
        addressable(s),
        is_tight(s, mode),
        0 <= p < s.len(),
        in_bound(mode, p),
    ensures
        ({
            let stop = sugar_end(s, p, mode);
            &&& p <= stop <= line_end(s, p) <= s.len()
            &&& is_tight(s, BodyMode::Bounded { end: stop as u32 })
            &&& content_start(s, p) <= stop
        }),
{
    next_line_bounds(s, p);
    content_start_bounds(s, p);
    brace_clip_bounds(s, p, 0, line_end(s, p));
    brace_clip_past_space(s, p, 0, line_end(s, p));
    skip_bounds(s, p, ByteClass::InlineSpace);
    if let BodyMode::Bounded { end } = mode {
        if end < content_start(s, p) {
            assert(in_class(ByteClass::InlineSpace, s[end as int]));
            assert(in_class(ByteClass::InlineSpace, s[end - 1]));
        }
    }
}

/// The children of a heading or a list item are sound with the attributes put first.
proof fn hoisted_is_sound(s: Seq<u8>, kids: Seq<Tree>, lo: int, hi: int)
    requires
        is_row(s, Row::Children, kids, lo, hi),
    ensures
        all_sound(s, hoisted(s, kids)),
        are_children(hoisted(s, kids).skip(first_child(hoisted(s, kids)))),
{
    row_is_children(s, Row::Children, kids, lo, hi);
    let all = hoisted(s, kids);
    let n = kids.len() as int;
    last_content_lies_inside(s, kids, n);
    match last_content(s, kids, n) {
        Some(i) if kids[i].kind == NodeKind::Attrs => {
            let own = Tree { kind: NodeKind::Props, span: kids[i].span, kids: kids[i].kids };
            sound_inside(s, kids[i]);
            sound_over(s, own);
            let rest = kids.remove(i);
            assert(all[0] == own);
            assert(all.skip(1) =~= rest);
            assert forall|k: int| 0 <= k < all.len() implies is_sound(s, #[trigger] all[k]) by {
                if k > 0 {
                    assert(all[k] == rest[k - 1]);
                    assert(rest[k - 1] == if k - 1 < i {
                        kids[k - 1]
                    } else {
                        kids[k]
                    });
                }
            }
            assert forall|k: int| 0 <= k < rest.len() implies is_child(#[trigger] rest[k]) by {
                assert(rest[k] == if k < i {
                    kids[k]
                } else {
                    kids[k + 1]
                });
            }
            assert forall|a: int, b: int| 0 <= a < b < rest.len() implies (
            #[trigger] rest[a]).span.end <= (#[trigger] rest[b]).span.start by {
                let x = if a < i {
                    a
                } else {
                    a + 1
                };
                let y = if b < i {
                    b
                } else {
                    b + 1
                };
                assert(rest[a] == kids[x] && rest[b] == kids[y]);
            }
        },
        _ => {
            assert(all == kids);
            if kids.len() > 0 {
                assert(is_child(kids[0]));
            }
            assert(kids.skip(0) =~= kids);
        },
    }
}

proof fn last_content_lies_inside(s: Seq<u8>, kids: Seq<Tree>, n: int)
    ensures
        last_content(s, kids, n) matches Some(i) ==> 0 <= i < kids.len(),
    decreases n,
{
    if 0 < n <= kids.len() && is_filler(s, kids[n - 1]) {
        last_content_lies_inside(s, kids, n - 1);
    }
}

#[verifier::spinoff_prover]
#[verifier::rlimit(40)]
proof fn starts_are_tidy(
    d: Input,
    end: int,
    f: Frame,
    nodes: Seq<Tree>,
    p: int,
    depth: int,
    lo: int,
)
    requires
        is_readable(d, end),
        0 <= lo <= p <= d.s.len(),
        is_tight(d.s, f.mode),
        is_row(d.s, Row::Children, nodes, lo, p),
    ensures
        is_tidy(d, Row::Children, lo, line_starts(d, end, f, nodes, p, depth), p),
    decreases d.s.len() + 2 - p, 17int,
{
    let s = d.s;
    let open = depth == 0 && in_bound(f.mode, p);
    let stop = sugar_end(s, p, f.mode);
    if p < s.len() {
        if open {
            sugar_ends_are_tight(s, p, f.mode);
        }
        if reads_statements(f.mode) && opens_statement(s, p) {
            statements_are_tidy(d, nodes, p, lo);
            let r = statements(d, nodes, p);
            if r.stop is None {
                let next = past(s, p, r.at);
                row_reaches(s, Row::Children, r.nodes, lo, r.at, next);
                starts_are_tidy(d, end, f, r.nodes, next, depth, lo);
            }
        } else if open && list_marker(s, p) is Some {
            let base = list_marker(s, p)->0.indent as int;
            list_is_tidy(d, end, f, nodes, base, p, lo);
            let r = list(d, end, f, nodes, base, p);
            if r.stop is None {
                let next = past(s, p, r.at);
                row_reaches(s, Row::Children, r.nodes, lo, r.at, next);
                starts_are_tidy(d, end, f, r.nodes, next, depth, lo);
            }
        } else if open && thematic_break(s, p, stop) is Some {
            let dash = thematic_break(s, p, stop)->0;
            content_start_bounds(s, p);
            run_bounds(s, content_start(s, p), HYPHEN);
            let t = leaf(NodeKind::ThematicBreak, dash.start as int, dash.end as int);
            assert(all_sound(s, t.kids));
            sound_over(s, t);
            let next = past(s, p, stop);
            row_grows(s, Row::Children, nodes, lo, p, t, next);
            starts_are_tidy(d, end, f, nodes.push(t), next, depth, lo);
        } else if open && heading(s, p) is Some {
            let h = heading(s, p)->0;
            content_start_bounds(s, p);
            run_bounds(s, content_start(s, p), HASH);
            let start = smaller(h.1 as int, stop);
            let from = past(s, p, start);
            range_is_tidy(d, end, start, stop, from);
            let kids = range(d, end, start, stop, from);
            if kids.stop is None {
                hoisted_is_sound(s, kids.nodes, from, kids.at);
                let t = branch(
                    NodeKind::Heading { level: h.0 },
                    p,
                    stop,
                    hoisted(s, kids.nodes),
                );
                sound_over(s, t);
                row_grows(s, Row::Children, nodes, lo, p, t, stop);
            }
        }
    }
}

#[verifier::spinoff_prover]
proof fn list_is_tidy(
    d: Input,
    end: int,
    f: Frame,
    nodes: Seq<Tree>,
    base: int,
    p: int,
    lo: int,
)
    requires
        is_readable(d, end),
        0 <= lo <= p <= d.s.len(),
        is_tight(d.s, f.mode),
        is_row(d.s, Row::Children, nodes, lo, p),
    ensures
        is_tidy(d, Row::Children, lo, list(d, end, f, nodes, base, p), p),
    decreases d.s.len() + 2 - p, 13int,
{
    let s = d.s;
    if let Some(m) = list_marker(s, p) {
        if p < s.len() && in_bound(f.mode, p) && m.indent >= base {
            sugar_ends_are_tight(s, p, f.mode);
            content_start_bounds(s, p);
            let c = content_start(s, p);
            skip_bounds(s, c, ByteClass::Digit);
            let full = line_end(s, p);
            let line = smaller(full, sugar_end(s, p, f.mode));
            let start = smaller(m.body_col as int, line);
            next_line_bounds(s, p);
            next_line_bounds(s, line);
            block_end_bounds(s, next_line(s, line), m.indent as int);
            blocks_end_at_lines(s, next_line(s, line), m.indent as int);
            let stop = if line < full {
                line
            } else {
                clip(f.mode, block_end(s, next_line(s, line), m.indent as int))
            };
            let from = past(s, p, start);
            range_is_tidy(d, end, start, stop, from);
            let kids = range(d, end, start, stop, from);
            if kids.stop is None {
                hoisted_is_sound(s, kids.nodes, from, kids.at);
                let which = if m.ordered {
                    NotaListKind::Ordered
                } else {
                    NotaListKind::Unordered
                };
                let t = branch(
                    NodeKind::ListItem { list: which },
                    m.offset as int,
                    stop,
                    hoisted(s, kids.nodes),
                );
                assert(content_start(s, c) == c);
                sound_over(s, t);
                let next = past(s, p, stop);
                row_grows(s, Row::Children, nodes, lo, p, t, next);
                list_is_tidy(d, end, f, nodes.push(t), base, next, lo);
            }
        }
    }
}

proof fn statements_are_tidy(d: Input, nodes: Seq<Tree>, p: int, lo: int)
    requires
        is_readable(d, d.s.len() as int),
        0 <= lo <= p <= d.s.len(),
        is_row(d.s, Row::Children, nodes, lo, p),
    ensures
        is_tidy(d, Row::Children, lo, statements(d, nodes, p), p),
    decreases d.s.len() + 2 - p, 13int,
{
    let s = d.s;
    if p < s.len() && opens_statement(s, p) {
        statement_line_is_tidy(d, nodes, p, lo);
        let r = statement_line(d, nodes, p);
        if r.stop is None {
            let next = past(s, p, r.at);
            row_reaches(s, Row::Children, r.nodes, lo, r.at, next);
            if opens_statement(s, next) {
                statements_are_tidy(d, r.nodes, next, lo);
            }
        }
    }
}

#[verifier::spinoff_prover]
proof fn statement_line_is_tidy(d: Input, nodes: Seq<Tree>, p: int, lo: int)
    requires
        is_readable(d, d.s.len() as int),
        0 <= lo <= p < d.s.len(),
        is_row(d.s, Row::Children, nodes, lo, p),
        opens_statement(d.s, p),
    ensures
        is_tidy(d, Row::Children, lo, statement_line(d, nodes, p), p),
    decreases d.s.len() + 2 - p, 12int,
{
    let s = d.s;
    let content = content_start(s, p) + 1;
    content_start_bounds(s, p);
    next_line_bounds(s, p);
    next_line_bounds(s, content);
    if is_fence(s, p) {
        fence_close_bounds(s, next_line(s, p));
        let close = fence_close(s, next_line(s, p));
        line_starts_are_boundaries(s, close.0);
        row_reaches(s, Row::Children, nodes, lo, p, next_line(s, p));
        fence_is_tidy(d, nodes, next_line(s, p), close.0, lo);
        let r = fence_statements(d, nodes, next_line(s, p), close.0);
        if r.stop is None {
            row_reaches(s, Row::Children, r.nodes, lo, r.at, close.1);
        }
    } else if empty_statement(s, content) {
        row_reaches(s, Row::Children, nodes, lo, p, next_line(s, content));
    } else {
        statement_stop_bounds(s, next_line(s, content));
        let bound = statement_stop(s, next_line(s, content));
        line_starts_are_boundaries(s, bound);
        row_reaches(s, Row::Children, nodes, lo, p, content);
        line_is_tidy(d, nodes, content, bound, lo);
        let r = line_statements(d, nodes, content, bound);
        if r.stop is None {
            next_line_bounds(s, r.at);
            row_reaches(s, Row::Children, r.nodes, lo, r.at, next_line(s, r.at));
        }
    }
}

proof fn line_starts_are_boundaries(s: Seq<u8>, i: int)
    requires
        valid_utf8(s),
        starts_line(s, i),
        0 <= i <= s.len(),
        boundary(s, s.len() as int),
    ensures
        boundary(s, i),
{
    line_start_boundary(s, i);
}

proof fn line_is_tidy(d: Input, nodes: Seq<Tree>, p: int, bound: int, lo: int)
    requires
        is_readable(d, bound),
        0 <= lo <= p <= d.s.len(),
        is_row(d.s, Row::Children, nodes, lo, p),
    ensures
        is_tidy(d, Row::Children, lo, line_statements(d, nodes, p, bound), p),
        line_statements(d, nodes, p, bound).stop is None ==> line_statements(d, nodes, p, bound).at
            <= bound,
    decreases d.s.len() + 2 - p, 10int,
{
    let s = d.s;
    statement_is_tidy(d, nodes, p, bound, lo);
    let one = statement(d, nodes, p, bound);
    if one.stop is None {
        if let Follower::Statement { at } = follower(d, one.at, bound) {
            answer_answers(s, d.facts, query(JsAsk::Token, one.at, bound), 0);
            row_reaches(s, Row::Children, one.nodes, lo, one.at, at as int);
            line_is_tidy(d, one.nodes, past(s, p, at as int), bound, lo);
        }
    }
}

proof fn fence_is_tidy(d: Input, nodes: Seq<Tree>, p: int, bound: int, lo: int)
    requires
        is_readable(d, bound),
        0 <= lo <= p <= bound,
        is_row(d.s, Row::Children, nodes, lo, p),
    ensures
        is_tidy(d, Row::Children, lo, fence_statements(d, nodes, p, bound), p),
        fence_statements(d, nodes, p, bound).stop is None ==> fence_statements(
            d,
            nodes,
            p,
            bound,
        ).at <= bound,
    decreases d.s.len() + 2 - p, 11int,
{
    let s = d.s;
    match ask(d, JsAsk::Token, p, bound) {
        Some(JsAnswer::Token { span, kind: _ }) => {
            answer_answers(s, d.facts, query(JsAsk::Token, p, bound), 0);
            row_reaches(s, Row::Children, nodes, lo, p, span.start as int);
            statement_is_tidy(d, nodes, span.start as int, bound, lo);
            let one = statement(d, nodes, span.start as int, bound);
            if one.stop is None {
                fence_is_tidy(d, one.nodes, past(s, p, one.at), bound, lo);
            }
        },
        _ => {
            row_reaches(s, Row::Children, nodes, lo, p, bound);
        },
    }
}

#[verifier::spinoff_prover]
proof fn statement_is_tidy(d: Input, nodes: Seq<Tree>, p: int, bound: int, lo: int)
    requires
        is_readable(d, bound),
        0 <= lo <= p <= d.s.len(),
        is_row(d.s, Row::Children, nodes, lo, p),
    ensures
        is_tidy(d, Row::Children, lo, statement(d, nodes, p, bound), p),
        statement(d, nodes, p, bound).stop is None ==> p < statement(d, nodes, p, bound).at
            <= bound,
    decreases d.s.len() + 2 - p, 9int,
{
    if let Some(JsAnswer::Statement { span, class, attach }) = ask(
        d,
        JsAsk::Statement,
        p,
        bound,
    ) {
        answer_answers(d.s, d.facts, query(JsAsk::Statement, p, bound), 0);
        let (a, b) = (span.start as int, span.end as int);
        row_of_none(d.s, Row::Names, 0);
        bindings_are_tidy(d, Seq::empty(), a, b);
        let names = bindings(d, Seq::empty(), a, b);
        row_reaches(d.s, Row::Names, names.nodes, 0, 0, a);
        islands_are_tidy(d, bound, Row::Names, names.nodes, a, b, 0);
        let forms = islands(d, bound, names.nodes, a, b);
        if names.stop is None && forms.stop is None {
            let hi = choose|hi: int| #[trigger] is_row(d.s, Row::Names, forms.nodes, 0, hi);
            row_is_children(d.s, Row::Names, forms.nodes, 0, hi);
            let t = branch(NodeKind::Statement { class, attach }, a, b, forms.nodes);
            sound_over(d.s, t);
            row_grows(d.s, Row::Children, nodes, lo, p, t, b);
        }
    }
}

/// A source that can be read is read into children that stand one behind the other, with no
/// overlap, and every tree of it stands over source that looks like it: a heading over its `#`s, an
/// emphasis between its markers, a comment over a comment, and so on.
pub proof fn documents_are_sound(d: Input)
    requires
        addressable(d.s),
        valid_utf8(d.s),
        document(d).stop is None,
    ensures
        all_sound(d.s, document(d).nodes),
        are_children(document(d).nodes),
{
    let start = document_start(d.s);
    let f = document_frame(d.s);
    ends_are_boundaries(d.s);
    body_is_tidy(d, d.s.len() as int, f, start);
    row_is_children(d.s, Row::Children, document(d).nodes, start, document(d).at);
}

proof fn ends_are_boundaries(s: Seq<u8>)
    requires
        valid_utf8(s),
    ensures
        boundary(s, s.len() as int),
{
}

} // verus!
