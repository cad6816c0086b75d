//! The statements of a document: which lines they share, and what those at its start bind.

use vstd::prelude::*;
use vstd::utf8::valid_utf8;
use crate::ascii::{
    AT_SIGN, HASH, HYPHEN, LBRACE, LOWER_L, LOWER_P, LOWER_X, NEWLINE, PERCENT, RBRACE,
};
use crate::bytes::{
    addressable, at, next_byte, next_byte_unique, run_end, skip, utf8, ByteClass, Span,
};
use crate::grammar::{
    after_form, ask, bindings, braced, child, clip, collect, document, document_frame,
    document_start, element, fence_statements, first_lines, follower, form, form_child, go,
    head_start, hoisted, in_bound, inline_span, islands, line_starts, line_statements, list,
    named_form, past, prop_groups, query, range, reads_statements, smaller, statement,
    statement_line, statements, sugar_end, triggered, view, with_text, BodyMode, Follower, Frame,
    HeadStart, Input, Reading, Region,
};
use crate::heads::hyphen_tail;
use crate::js::{answer_answers, code_start, code_starts_with_code, JsAnswer, JsAsk};
use crate::lines::{block_end, content_start, line_end, next_line};
use crate::names::{binds_reserved, collisions, collisions_spelled, is_clean};
use crate::output::slice;
use crate::statements::{
    empty_statement, fence_close, heading, is_fence, list_marker, opens_statement, statement_stop,
    thematic_break,
};
use crate::token::{text_end, token_end, token_kind, Kind};
use crate::tree::{
    branch, keeps_first, leaf, ExprTier, NodeKind, NotaListKind, NotaTag, StatementClass, Tree,
};
use crate::unicode::{ascii_char, char_from, identifier_end};

verus! {

/// Does `b` start on the line on which `a` ends?
pub open spec fn shares_line(s: Seq<u8>, a: Tree, b: Tree) -> bool {
    a.span.end <= b.span.start <= next_byte(s, a.span.end as int, NEWLINE)
}

/// Does each tree start on the line on which the one before it ends?
pub open spec fn share_lines(s: Seq<u8>, nodes: Seq<Tree>) -> bool {
    forall|i: int| 0 < i < nodes.len() ==> shares_line(s, nodes[i - 1], #[trigger] nodes[i])
}

/// A statement ends past its start, and starts with code.
proof fn statement_spans(d: Input, nodes: Seq<Tree>, p: int, bound: int)
    ensures
        ({
            let r = statement(d, nodes, p, bound);
            &&& r.nodes == nodes || (r.nodes.len() == nodes.len() + 1 && r.nodes.drop_last()
                == nodes && r.nodes.last().kind is Statement && r.nodes.last().span.start
                == code_start(d.s, p))
            &&& r.stop is None ==> r.nodes.len() == nodes.len() + 1 && r.at
                == r.nodes.last().span.end && p < r.at <= bound && bound <= d.s.len()
        }),
{
    answer_answers(d.s, d.facts, query(JsAsk::Statement, p, bound), 0);
    if let Some(JsAnswer::Statement { span, class, attach }) = ask(
        d,
        JsAsk::Statement,
        p,
        bound,
    ) {
        let r = statement(d, nodes, p, bound);
        if r.nodes.len() == nodes.len() + 1 {
            assert(r.nodes.drop_last() =~= nodes);
        }
    }
}

proof fn later_statements_share_lines(d: Input, nodes: Seq<Tree>, p: int, bound: int)
    requires
        0 <= p,
        share_lines(d.s, nodes),
        nodes.len() > 0 ==> code_start(d.s, p) == p && nodes.last().span.end <= p <= next_byte(
            d.s,
            nodes.last().span.end as int,
            NEWLINE,
        ),
    ensures
        share_lines(d.s, line_statements(d, nodes, p, bound).nodes),
    decreases d.s.len() + 2 - p,
{
    let s = d.s;
    let one = statement(d, nodes, p, bound);
    statement_spans(d, nodes, p, bound);
    if one.nodes.len() == nodes.len() + 1 {
        assert forall|i: int| 0 < i < one.nodes.len() implies shares_line(
            s,
            one.nodes[i - 1],
            #[trigger] one.nodes[i],
        ) by {
            let before = one.nodes.drop_last();
            assert(before[i - 1] == one.nodes[i - 1]);
            if i < nodes.len() {
                assert(before[i] == one.nodes[i]);
                assert(shares_line(s, nodes[i - 1], nodes[i]));
            }
        }
    }
    if one.stop is None && 0 <= p < s.len() {
        answer_answers(s, d.facts, query(JsAsk::Token, one.at, bound), 0);
        if let Follower::Statement { at } = follower(d, one.at, bound) {
            code_starts_with_code(s, one.at);
            assert(past(s, p, at as int) == at);
            later_statements_share_lines(d, one.nodes, past(s, p, at as int), bound);
        }
    }
}

/// A further statement of a `%` line stands on the line on which the one before it ended: the next
/// line is markup again.
pub proof fn statements_share_their_line(d: Input, p: int, bound: int)
    requires
        0 <= p,
    ensures
        share_lines(d.s, line_statements(d, Seq::empty(), p, bound).nodes),
{
    later_statements_share_lines(d, Seq::empty(), p, bound);
}

/// Are the trees of `before` the first of `after`?
pub open spec fn grows(before: Seq<Tree>, after: Seq<Tree>) -> bool {
    before.len() <= after.len() && after.take(before.len() as int) == before
}

proof fn grows_on(a: Seq<Tree>, t: Tree, c: Seq<Tree>)
    requires
        grows(a.push(t), c),
    ensures
        grows(a, c),
{
    assert(c.take(a.len() as int) =~= c.take(a.len() as int + 1).take(a.len() as int));
    assert(a.push(t).take(a.len() as int) =~= a);
}

/// Reading the names that a statement binds keeps what was there.
proof fn bindings_grow(d: Input, nodes: Seq<Tree>, p: int, e: int)
    ensures
        grows(nodes, bindings(d, nodes, p, e).nodes),
    decreases d.s.len() + 2 - p,
{
    if let Some(JsAnswer::Binding { span }) = ask(d, JsAsk::Binding, p, e) {
        answer_answers(d.s, d.facts, query(JsAsk::Binding, p, e), 0);
        let one = leaf(NodeKind::Binding, span.start as int, span.end as int);
        bindings_grow(d, nodes.push(one), past(d.s, p, span.end as int), e);
        grows_on(nodes, one, bindings(d, nodes, p, e).nodes);
    } else {
        assert(nodes.take(nodes.len() as int) =~= nodes);
    }
}

/// Reading the forms inside a statement keeps what was there.
proof fn islands_grow(d: Input, end: int, nodes: Seq<Tree>, p: int, e: int)
    ensures
        grows(nodes, islands(d, end, nodes, p, e).nodes),
    decreases d.s.len() + 2 - p,
{
    assert(nodes.take(nodes.len() as int) =~= nodes);
    if let Some(JsAnswer::Form { at }) = ask(d, JsAsk::Form, p, e) {
        answer_answers(d.s, d.facts, query(JsAsk::Form, p, e), 0);
        let r = form(d, end, Region::Js, Seq::empty(), at as int);
        let one = branch(NodeKind::Markup, at as int, r.at, r.nodes);
        let more = nodes.push(one);
        if r.stop is None {
            islands_grow(d, end, more, past(d.s, at as int, r.at), e);
            grows_on(nodes, one, islands(d, end, nodes, p, e).nodes);
        } else {
            assert(more.take(nodes.len() as int) =~= nodes);
        }
    }
}

/// Reading further statements of a line keeps the first tree.
proof fn line_statements_keep(d: Input, nodes: Seq<Tree>, p: int, bound: int)
    requires
        0 <= p,
    ensures
        keeps_first(nodes, line_statements(d, nodes, p, bound).nodes),
    decreases d.s.len() + 2 - p,
{
    let one = statement(d, nodes, p, bound);
    statement_spans(d, nodes, p, bound);
    first_of_more(nodes, one.nodes);
    if one.stop is None && p < d.s.len() {
        if let Follower::Statement { at } = follower(d, one.at, bound) {
            line_statements_keep(d, one.nodes, past(d.s, p, at as int), bound);
        }
    }
}

proof fn first_of_more(nodes: Seq<Tree>, more: Seq<Tree>)
    requires
        more == nodes || (more.len() == nodes.len() + 1 && more.drop_last() == nodes),
    ensures
        keeps_first(nodes, more),
{
    if more != nodes && nodes.len() > 0 {
        assert(more.drop_last()[0] == more[0]);
    }
}

/// Reading the statements of a fence keeps the first tree.
proof fn fence_statements_keep(d: Input, nodes: Seq<Tree>, p: int, bound: int)
    requires
        0 <= p,
    ensures
        keeps_first(nodes, fence_statements(d, nodes, p, bound).nodes),
    decreases d.s.len() + 2 - p,
{
    if let Some(JsAnswer::Token { span, kind }) = ask(d, JsAsk::Token, p, bound) {
        answer_answers(d.s, d.facts, query(JsAsk::Token, p, bound), 0);
        let one = statement(d, nodes, span.start as int, bound);
        statement_spans(d, nodes, span.start as int, bound);
        first_of_more(nodes, one.nodes);
        if one.stop is None {
            fence_statements_keep(d, one.nodes, past(d.s, p, one.at), bound);
        }
    }
}

/// Reading a statement line or a fence keeps the first tree.
proof fn statement_line_keeps(d: Input, nodes: Seq<Tree>, p: int)
    requires
        0 <= p,
    ensures
        keeps_first(nodes, statement_line(d, nodes, p).nodes),
{
    let s = d.s;
    if p < s.len() {
        let content = content_start(s, p) + 1;
        if is_fence(s, p) {
            let close = fence_close(s, next_line(s, p));
            fence_statements_keep(d, nodes, past(s, p, next_line(s, p)), close.0);
        } else if !empty_statement(s, content) {
            let bound = statement_stop(s, next_line(s, content));
            line_statements_keep(d, nodes, past(s, p, content), bound);
        }
    }
}

/// Reading statement lines keeps the first tree.
proof fn statements_keep(d: Input, nodes: Seq<Tree>, p: int)
    requires
        0 <= p,
    ensures
        keeps_first(nodes, statements(d, nodes, p).nodes),
    decreases d.s.len() + 2 - p,
{
    if p < d.s.len() && opens_statement(d.s, p) {
        let r = statement_line(d, nodes, p);
        statement_line_keeps(d, nodes, p);
        if r.stop is None && opens_statement(d.s, past(d.s, p, r.at)) {
            statements_keep(d, r.nodes, past(d.s, p, r.at));
        }
    }
}

/// Reading list items keeps the first tree.
proof fn list_keeps(d: Input, end: int, f: Frame, nodes: Seq<Tree>, base: int, p: int)
    requires
        0 <= p,
    ensures
        keeps_first(nodes, list(d, end, f, nodes, base, p).nodes),
    decreases d.s.len() + 2 - p,
{
    let s = d.s;
    if let Some(m) = list_marker(s, p) {
        if p < s.len() && m.indent >= base {
            let full = line_end(s, p);
            let line = smaller(full, sugar_end(s, p, f.mode));
            let start = smaller(m.body_col as int, line);
            let stop = if line < full {
                line
            } else {
                clip(
                    f.mode,
                    block_end(s, next_line(s, line), m.indent as int),
                )
            };
            let kids = range(d, end, start, stop, past(s, p, start));
            if kids.stop is None {
                let which = if m.ordered {
                    NotaListKind::Ordered
                } else {
                    NotaListKind::Unordered
                };
                let more = nodes.push(
                    branch(
                        NodeKind::ListItem { list: which },
                        m.offset as int,
                        stop,
                        hoisted(s, kids.nodes),
                    ),
                );
                list_keeps(d, end, f, more, base, past(s, p, stop));
            }
        }
    }
}

/// Reading what stands at line starts keeps the first tree.
proof fn line_starts_keep(d: Input, end: int, f: Frame, nodes: Seq<Tree>, p: int, depth: int)
    requires
        0 <= p,
    ensures
        keeps_first(nodes, line_starts(d, end, f, nodes, p, depth).nodes),
    decreases d.s.len() + 2 - p,
{
    let s = d.s;
    let stop = sugar_end(s, p, f.mode);
    if p < s.len() {
        if reads_statements(f.mode) && opens_statement(s, p) {
            let r = statements(d, nodes, p);
            statements_keep(d, nodes, p);
            if r.stop is None {
                line_starts_keep(d, end, f, r.nodes, past(s, p, r.at), depth);
            }
        } else if depth == 0 && in_bound(f.mode, p) {
            if let Some(m) = list_marker(s, p) {
                let r = list(d, end, f, nodes, m.indent as int, p);
                list_keeps(d, end, f, nodes, m.indent as int, p);
                if r.stop is None {
                    line_starts_keep(d, end, f, r.nodes, past(s, p, r.at), depth);
                }
            } else if let Some(dash) = thematic_break(s, p, stop) {
                line_starts_keep(
                    d,
                    end,
                    f,
                    nodes.push(leaf(NodeKind::ThematicBreak, dash.start as int, dash.end as int)),
                    past(s, p, stop),
                    depth,
                );
            }
        }
    }
}

/// Where the code of the statement line at the start of a document stands, and where it ends at
/// the latest.
pub open spec fn first_code(s: Seq<u8>) -> (int, int) {
    let p = document_start(s);
    let content = content_start(s, p) + 1;
    (past(s, p, content), statement_stop(s, next_line(s, content)))
}

/// Does a document open with a `%` line?
pub open spec fn opens_with_statement(s: Seq<u8>) -> bool {
    let p = document_start(s);
    p < s.len() && opens_statement(s, p) && !is_fence(s, p) && !empty_statement(
        s,
        content_start(s, p) + 1,
    )
}

/// Does a document open with a `%` line whose statement binds first what stands at `name`?
pub open spec fn opens_by_binding(d: Input, name: Span) -> bool {
    let (p, bound) = first_code(d.s);
    opens_with_statement(d.s) && (ask(d, JsAsk::Statement, p, bound) matches Some(
        JsAnswer::Statement { span, class: _, attach: _ },
    ) && ask(d, JsAsk::Binding, span.start as int, span.end as int) == Some(
        JsAnswer::Binding { span: name },
    ))
}

/// The first name of the statement at `p` is the first below it.
proof fn first_name_is_first(d: Input, name: Span)
    requires
        opens_by_binding(d, name),
    ensures
        ({
            let (p, bound) = first_code(d.s);
            let r = statement(d, Seq::empty(), p, bound);
            r.stop is None ==> r.nodes.len() == 1 && r.nodes[0].kind is Statement
                && r.nodes[0].kids.len() > 0 && r.nodes[0].kids[0] == leaf(
                NodeKind::Binding,
                name.start as int,
                name.end as int,
            )
        }),
{
    let (p, bound) = first_code(d.s);
    if let Some(JsAnswer::Statement { span, class, attach }) = ask(
        d,
        JsAsk::Statement,
        p,
        bound,
    ) {
        let (a, e) = (span.start as int, span.end as int);
        let one = leaf(NodeKind::Binding, name.start as int, name.end as int);
        let names = bindings(d, Seq::empty(), a, e);
        let q = past(d.s, a, name.end as int);
        bindings_grow(d, Seq::<Tree>::empty().push(one), q, e);
        answer_answers(d.s, d.facts, query(JsAsk::Binding, a, e), 0);
        assert(names == bindings(d, Seq::<Tree>::empty().push(one), q, e));
        assert(names.nodes.take(1)[0] == names.nodes[0]);
        let forms = islands(d, bound, names.nodes, a, e);
        islands_grow(d, bound, names.nodes, a, e);
        assert(forms.nodes.take(names.nodes.len() as int)[0] == forms.nodes[0]);
    }
}

/// Where the first line of a document binds a name, the first tree of what is read is a statement
/// that binds it.
pub proof fn first_binding_is_read(d: Input, name: Span)
    requires
        opens_by_binding(d, name),
    ensures
        ({
            let r = first_lines(d);
            r.stop is None ==> r.nodes.len() > 0 && r.nodes[0].kind is Statement
                && r.nodes[0].kids.len() > 0 && r.nodes[0].kids[0] == leaf(
                NodeKind::Binding,
                name.start as int,
                name.end as int,
            )
        }),
{
    let s = d.s;
    let p = document_start(s);
    let (code, bound) = first_code(s);
    let none = Seq::<Tree>::empty();
    first_name_is_first(d, name);
    let one = statement(d, none, code, bound);
    statement_spans(d, none, code, bound);
    if one.stop is None && code < s.len() {
        if let Follower::Statement { at } = follower(d, one.at, bound) {
            line_statements_keep(d, one.nodes, past(s, code, at as int), bound);
        }
    }
    let line = statement_line(d, none, p);
    if line.stop is None && opens_statement(s, past(s, p, line.at)) {
        statements_keep(d, line.nodes, past(s, p, line.at));
    }
    let all = statements(d, none, p);
    if all.stop is None {
        line_starts_keep(d, s.len() as int, document_frame(s), all.nodes, past(s, p, all.at), 0);
    }
}

/// A document that starts with `%let name = 1` opens by binding `name`, where the table of facts
/// says what a JavaScript parser says of such a line.
pub proof fn let_lines_bind(d: Input, name: Seq<u8>, rest: Seq<u8>)
    requires
        addressable(d.s),
        d.s == utf8("%let ") + name + utf8(" = 1\n") + rest,
        ask(d, JsAsk::Statement, 1, first_code(d.s).1) matches Some(
            JsAnswer::Statement { span, class: _, attach: _ },
        ) && ask(d, JsAsk::Binding, span.start as int, span.end as int) == Some(
            JsAnswer::Binding { span: Span { start: 5, end: (5 + name.len()) as u32 } },
        ),
    ensures
        opens_by_binding(d, Span { start: 5, end: (5 + name.len()) as u32 }),
        slice(d.s, Span { start: 5, end: (5 + name.len()) as u32 }) == name,
{
    let s = d.s;
    if let Some(JsAnswer::Statement { span, class, attach }) = ask(
        d,
        JsAsk::Statement,
        1,
        first_code(s).1,
    ) {
        let asked = query(JsAsk::Binding, span.start as int, span.end as int);
        answer_answers(s, d.facts, asked, 0);
    }
    reveal_strlit("%let ");
    vstd::string::is_ascii_spec_bytes("%let ");
    reveal_strlit(" = 1\n");
    vstd::string::is_ascii_spec_bytes(" = 1\n");
    assert(s[0] == PERCENT && s[1] == LOWER_L);
    reveal_with_fuel(run_end, 3);
    reveal_with_fuel(skip, 2);
    assert(content_start(s, 0) == 0);
    assert(content_start(s, 1) == 1);
    assert(run_end(s, 0, PERCENT) == 1);
    assert(s.subrange(5, 5 + name.len() as int) =~= name);
}

/// A document whose first line binds one of `names` is not clean.
pub proof fn first_binding_collides(
    d: Input,
    names: Seq<Seq<u8>>,
    nodes: Seq<Tree>,
    name: Span,
)
    requires
        opens_by_binding(d, name),
        names.contains(slice(d.s, name)),
        first_lines(d).stop is None,
        keeps_first(first_lines(d).nodes, nodes),
    ensures
        nodes.len() > 0 && !is_clean(d.s, names, nodes[0]),
{
    first_binding_is_read(d, name);
    assert(binds_reserved(d.s, names, nodes[0].kids[0]));
}

/// Does the source end with the line `@p{x}`, which starts at `l`?
spec fn ends_small(s: Seq<u8>, l: int) -> bool {
    &&& 0 < l
    &&& s.len() == l + 6
    &&& s[l] == AT_SIGN && s[l + 1] == LOWER_P && s[l + 2] == LBRACE
    &&& s[l + 3] == LOWER_X && s[l + 4] == RBRACE && s[l + 5] == NEWLINE
}

/// A line that starts with a letter or an `@` opens no construct.
proof fn plain_line(d: Input, f: Frame, nodes: Seq<Tree>, p: int)
    requires
        0 <= p < d.s.len(),
        d.s[p] == AT_SIGN || d.s[p] == LOWER_X,
        f.mode == BodyMode::Body || f.mode == BodyMode::Document,
    ensures
        line_starts(d, d.s.len() as int, f, nodes, p, 0) == go(nodes, p),
{
    let s = d.s;
    assert(content_start(s, p) == p);
    assert(skip(s, p, ByteClass::Digit) == p);
    assert(run_end(s, p, HYPHEN) == p);
    assert(run_end(s, p, HASH) == p);
    assert(list_marker(s, p) is None);
    assert(heading(s, p) is None);
    assert(thematic_break(s, p, sugar_end(s, p, f.mode)) is None);
}

/// `{x}` is a body of one text.
proof fn small_body(d: Input, l: int)
    requires
        ends_small(d.s, l),
        addressable(d.s),
    ensures
        braced(d, d.s.len() as int, l + 2) == go(
            seq![leaf(NodeKind::Text, l + 3, l + 4)],
            l + 5,
        ),
{
    let s = d.s;
    let len = s.len() as int;
    let f = Frame { mode: BodyMode::Body, start: (l + 3) as u32 };
    let none = Seq::<Tree>::empty();
    let text = leaf(NodeKind::Text, l + 3, l + 4);
    assert(view(d, len) =~= s);
    reveal(token_kind);
    reveal(token_end);
    plain_line(d, f, none, l + 3);
    assert(text_end(s, l + 4) == l + 4);
    assert(text_end(s, l + 3) == l + 4);
    assert(token_kind(s, l + 3) == Kind::MarkupText);
    assert(inline_span(d, len, f, none, l + 3).nodes =~= seq![text]);
    assert(child(d, len, f, none, l + 3, 0) == inline_span(d, len, f, none, l + 3));
    assert(token_kind(s, l + 4) == Kind::RCurly);
    assert(collect(d, len, f, seq![text], l + 4, 0) == (Reading {
        nodes: seq![text],
        at: l + 5,
        closed: true,
        stop: None,
    }));
    assert(collect(d, len, f, none, l + 3, 0) == collect(d, len, f, seq![text], l + 4, 0));
}

/// `@p{x}` is an element.
proof fn small_form(d: Input, f: Frame, nodes: Seq<Tree>, l: int)
    requires
        ends_small(d.s, l),
        addressable(d.s),
        valid_utf8(d.s),
    ensures
        ({
            let r = form(d, d.s.len() as int, Region::Markup { frame: f }, nodes, l);
            &&& r.stop is None
            &&& r.at == l + 5
            &&& r.nodes.len() == nodes.len() + 1
            &&& r.nodes.drop_last() == nodes
            &&& r.nodes.last().kind is Element
        }),
{
    let s = d.s;
    let len = s.len() as int;
    let region = Region::Markup { frame: f };
    let name = Span { start: (l + 1) as u32, end: (l + 2) as u32 };
    assert(view(d, len) =~= s);
    ascii_char(s, l + 1);
    ascii_char(s, l + 2);
    assert(char_from(s, l + 1) == Some('p'));
    assert(char_from(s, l + 2) == Some('{'));
    assert(identifier_end(s, l + 2) == l + 2);
    assert(identifier_end(s, l + 1) == l + 2);
    assert(head_start(d, len, l + 1) == HeadStart::Name { span: name });
    assert(hyphen_tail(s, l + 2) == l + 2);
    small_body(d, l);
    let tag = NotaTag::Host { name };
    let none = Seq::<Tree>::empty();
    assert(prop_groups(d, len, none, l + 2) == go(none, l + 2));
    let r = element(d, len, region, nodes, l, tag, none, l + 2);
    assert(r.nodes.drop_last() =~= nodes);
    let head = seq![leaf(NodeKind::Js { tier: ExprTier::Primary }, l + 1, l + 2)];
    assert(triggered(d, len, region, nodes, l, tag, head, l + 2) == r);
    assert(named_form(d, len, region, nodes, l, name) == r);
    assert(form(d, len, region, nodes, l) == r);
}

/// A document that ends with the line `@p{x}`, read from there.
proof fn small_rest(d: Input, f: Frame, nodes: Seq<Tree>, l: int)
    requires
        ends_small(d.s, l),
        addressable(d.s),
        valid_utf8(d.s),
        f.mode == BodyMode::Document,
    ensures
        ({
            let r = collect(d, d.s.len() as int, f, nodes, l, 0);
            &&& r.stop is None
            &&& r.nodes.len() == nodes.len() + 2
            &&& r.nodes.take(nodes.len() as int) == nodes
            &&& r.nodes[nodes.len() as int].kind is Element
            &&& r.nodes[nodes.len() as int + 1].kind is Text
        }),
{
    let s = d.s;
    let len = s.len() as int;
    assert(view(d, len) =~= s);
    reveal(token_kind);
    small_form(d, f, nodes, l);
    let r = form(d, len, Region::Markup { frame: f }, nodes, l);
    assert(token_kind(s, l) == Kind::At);
    assert(after_form(d, len, f, r, l, 0) == r);
    assert(form_child(d, len, f, nodes, l, 0) == r);
    assert(child(d, len, f, nodes, l, 0) == r);
    assert(collect(d, len, f, nodes, l, 0) == collect(d, len, f, r.nodes, l + 5, 0));
    let more = with_text(r.nodes, l + 5, l + 6);
    assert(token_kind(s, l + 5) == Kind::NotaNewline);
    assert(line_starts(d, len, f, more, l + 6, 0) == go(more, l + 6));
    assert(child(d, len, f, r.nodes, l + 5, 0) == go(more, l + 6));
    assert(collect(d, len, f, more, l + 6, 0) == go(more, l + 6));
    assert(collect(d, len, f, r.nodes, l + 5, 0) == go(more, l + 6));
    assert(more.take(nodes.len() as int) =~= r.nodes.drop_last());
    assert(more[nodes.len() as int] == r.nodes.last());
}

/// Does the table of facts say what a JavaScript parser says of `%let name = 1`, the first line of a
/// document, where `name` has `n` bytes? It is one statement, it binds the name and nothing else,
/// it holds no form, and what follows it stands on another line.
pub open spec fn answers_let(d: Input, n: int) -> bool {
    let bound = first_code(d.s).1;
    &&& ask(d, JsAsk::Statement, 1, bound) == Some(
        JsAnswer::Statement {
            span: Span { start: 1, end: (9 + n) as u32 },
            class: StatementClass::Plain,
            attach: None,
        },
    )
    &&& ask(d, JsAsk::Binding, 1, 9 + n) == Some(
        JsAnswer::Binding { span: Span { start: 5, end: (5 + n) as u32 } },
    )
    &&& ask(d, JsAsk::Binding, 5 + n, 9 + n) == Some(JsAnswer::Nothing)
    &&& ask(d, JsAsk::Form, 1, 9 + n) == Some(JsAnswer::Nothing)
    &&& follower(d, 9 + n, bound) is Markup
}

/// Is `s` a document of the two lines `%let name = 1` and `@p{x}`?
pub open spec fn is_let_document(s: Seq<u8>, name: Seq<u8>) -> bool {
    s == utf8("%let ") + name + utf8(" = 1\n@p{x}\n") && !name.contains(NEWLINE)
}

/// Where the lines of such a document stand.
proof fn let_lines_stand(s: Seq<u8>, name: Seq<u8>)
    requires
        is_let_document(s, name),
    ensures
        ends_small(s, 10 + name.len() as int),
        s[0] == PERCENT,
        s[1] == LOWER_L,
        s[9 + name.len() as int] == NEWLINE,
        forall|k: int| 1 <= k < 9 + name.len() ==> #[trigger] s[k] != NEWLINE,
        s.subrange(5, 5 + name.len() as int) == name,
{
    let n = name.len() as int;
    reveal_strlit("%let ");
    vstd::string::is_ascii_spec_bytes("%let ");
    reveal_strlit(" = 1\n@p{x}\n");
    vstd::string::is_ascii_spec_bytes(" = 1\n@p{x}\n");
    let tail = utf8(" = 1\n@p{x}\n");
    assert(tail.len() == 11);
    assert forall|k: int| 0 <= k < 11 implies s[5 + n + k] == #[trigger] tail[k] by {}
    assert(s[5 + n + 4] == tail[4] && s[5 + n + 5] == tail[5] && s[5 + n + 6] == tail[6] && s[5 + n
        + 7] == tail[7] && s[5 + n + 8] == tail[8] && s[5 + n + 9] == tail[9] && s[5 + n + 10]
        == tail[10]);
    assert forall|k: int| 1 <= k < 9 + n implies #[trigger] s[k] != NEWLINE by {
        if k < 5 {
            assert(s[k] == utf8("%let ")[k]);
        } else if k < 5 + n {
            assert(s[k] == name[k - 5]);
        } else {
            assert(s[k] == tail[k - 5 - n]);
        }
    }
    assert(s.subrange(5, 5 + n) =~= name);
}

/// Its code is the rest of the first line, and nothing but the end bounds it.
proof fn let_code_stands(s: Seq<u8>, name: Seq<u8>)
    requires
        is_let_document(s, name),
    ensures
        document_start(s) == 0,
        content_start(s, 0) == 0,
        opens_statement(s, 0),
        !is_fence(s, 0),
        !empty_statement(s, 1),
        next_line(s, 1) == 10 + name.len(),
        next_line(s, 9 + name.len() as int) == 10 + name.len(),
        !opens_statement(s, 10 + name.len() as int),
        first_code(s) == (1int, s.len() as int),
{
    let n = name.len() as int;
    let l = 10 + n;
    let_lines_stand(s, name);
    reveal_with_fuel(run_end, 3);
    reveal_with_fuel(skip, 2);
    assert(content_start(s, 0) == 0);
    assert(content_start(s, 1) == 1);
    assert(run_end(s, 0, PERCENT) == 1);
    next_byte_unique(s, 1, NEWLINE, 9 + n);
    next_byte_unique(s, 9 + n, NEWLINE, 9 + n);
    next_byte_unique(s, l, NEWLINE, l + 5);
    assert(content_start(s, l) == l);
    assert(statement_stop(s, l + 6) == s.len());
    assert(statement_stop(s, l) == s.len());
}

/// The first line of such a document is a statement that binds the name.
proof fn let_statement_reads(d: Input, name: Seq<u8>) -> (stmt: Tree)
    requires
        addressable(d.s),
        is_let_document(d.s, name),
        answers_let(d, name.len() as int),
    ensures
        stmt.kind == (NodeKind::Statement { class: StatementClass::Plain, attach: None }),
        stmt.kids == seq![leaf(NodeKind::Binding, 5, 5 + name.len() as int)],
        statement_line(d, Seq::empty(), 0) == go(seq![stmt], 10 + name.len() as int),
        slice(d.s, Span { start: 5, end: (5 + name.len()) as u32 }) == name,
{
    let s = d.s;
    let n = name.len() as int;
    let len = s.len() as int;
    let q = 9 + n;
    let_lines_stand(s, name);
    let_code_stands(s, name);
    let none = Seq::<Tree>::empty();
    let bound_name = leaf(NodeKind::Binding, 5, 5 + n);
    let kids = none.push(bound_name);
    assert(past(s, 1, 5 + n) == 5 + n);
    assert(bindings(d, kids, 5 + n, q) == go(kids, q));
    assert(bindings(d, none, 1, q) == go(kids, q));
    assert(islands(d, len, kids, 1, q) == go(kids, q));
    let kind = NodeKind::Statement { class: StatementClass::Plain, attach: None };
    let stmt = branch(kind, 1, q, kids);
    let one = statement(d, none, 1, len);
    assert(one == go(none.push(stmt), q));
    assert(line_statements(d, none, 1, len) == one);
    assert(none.push(stmt) =~= seq![stmt]);
    assert(kids =~= seq![bound_name]);
    answer_answers(s, d.facts, query(JsAsk::Binding, 1, q), 0);
    stmt
}

/// A document of the two lines `%let name = 1` and `@p{x}` reads without a fault: as a statement
/// that binds the name, an element and a text.
pub proof fn let_document_reads(d: Input, name: Seq<u8>)
    requires
        addressable(d.s),
        valid_utf8(d.s),
        is_let_document(d.s, name),
        answers_let(d, name.len() as int),
    ensures
        ({
            let r = document(d);
            let span = Span { start: 5, end: (5 + name.len()) as u32 };
            &&& r.stop is None
            &&& r.nodes.len() == 3
            &&& r.nodes[0].kind == (NodeKind::Statement {
                class: StatementClass::Plain,
                attach: None,
            })
            &&& r.nodes[0].kids == seq![leaf(NodeKind::Binding, 5, 5 + name.len() as int)]
            &&& r.nodes[1].kind is Element
            &&& r.nodes[2].kind is Text
            &&& slice(d.s, span) == name
        }),
{
    let s = d.s;
    let l = 10 + name.len() as int;
    let len = s.len() as int;
    let none = Seq::<Tree>::empty();
    let_lines_stand(s, name);
    let_code_stands(s, name);
    let stmt = let_statement_reads(d, name);
    assert(statements(d, none, 0) == go(seq![stmt], l));
    let f = document_frame(s);
    plain_line(d, f, seq![stmt], l);
    assert(line_starts(d, len, f, none, 0, 0) == go(seq![stmt], l));
    small_rest(d, f, seq![stmt], l);
    let r = document(d);
    assert(r == collect(d, len, f, seq![stmt], l, 0));
    assert(r.nodes.take(1)[0] == r.nodes[0]);
}

/// The same document collides exactly if the name is among `names`.
pub proof fn let_document_collides_iff(d: Input, name: Seq<u8>, names: Seq<Seq<u8>>)
    requires
        addressable(d.s),
        valid_utf8(d.s),
        is_let_document(d.s, name),
        answers_let(d, name.len() as int),
    ensures
        collisions(d.s, names, Seq::empty(), document(d).nodes, 0).len() == 0 <==> !names.contains(
            name,
        ),
{
    let_document_reads(d, name);
    let nodes = document(d).nodes;
    collisions_spelled(d.s, names, Seq::empty(), nodes, 0);
    assert(nodes[0].kids[0] == leaf(NodeKind::Binding, 5, 5 + name.len() as int));
    assert(binds_reserved(d.s, names, nodes[0].kids[0]) == names.contains(name));
    if !names.contains(name) {
        assert forall|j: int| 0 <= j < nodes.len() implies is_clean(
            d.s,
            names,
            #[trigger] nodes[j],
        ) by {}
    } else {
        assert(!is_clean(d.s, names, nodes[0]));
    }
}

} // verus!
