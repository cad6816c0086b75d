//! The reader: markup in, document tree out.
//!
//! Each method reads one construct and appends its nodes. What it appends, where it leaves off and
//! why it stopped is what [`crate::grammar`] says of the construct.

use vstd::prelude::*;
use crate::ascii::{
    AT_SIGN, BACKTICK, COLON, COMMA, DOLLAR, DOT, LBRACE, LBRACK, LOWER_F, LOWER_I, LOWER_O,
    LOWER_R, LPAREN, NEWLINE, PIPE, RBRACK, RPAREN, STAR, TILDE, UNDERSCORE, UPPER_A, UPPER_Z,
};
use crate::blocks::{brace_clip_on_line, colon_block_extent};
use crate::bytes::{addressable, at, byte_at, get, skip_class, utf8, ByteClass, Span};
use crate::docstate::{docstate_left_guard, footnote_sugar_at, label_sugar_at, ref_sugar_at};
use crate::emphasis::{find_emphasis_close, find_strike_close, span_close_on_line};
use crate::escapes::lex_comment;
use crate::grammar::{
    after_form, ask, at_least, attrs, bare_key, bindings, body, bounded_parts, braced, bracket,
    bracket_child, child, clip, code, collect, colon_element, colon_live, control_body,
    control_head, doc_state_tree, document, element, element_tree, emphasis, entries, entry,
    fence_statements, first_lines, follower, footnote_text, for_form, for_head, for_iterable, form,
    form_child, head_start, hoisted, if_form, image, in_bound, inline_span, is_component, is_new,
    islands, js_at, label, last_content, line_entries, line_starts, line_statements, list,
    live_trigger, math, misplaced, named_form, noted, paren, past, postfix, prop_groups, prop_lines,
    prop_value, query, range, reads_statements, refer, refused, region_mode, smaller, spells2,
    spells3, statement, statement_line, statements, sugar_end, sugar_fires, triggered, trivia,
    verbatim_element, verbatim_parts, view, with_raw, with_text, BodyMode, Fault, FaultKind,
    Follower, Frame, HeadStart, Input, Reading, Region, Stop,
};
use crate::heads::{
    at_line_start_in_frame, else_after_bounds, else_peek, hyphen_tail_bounds, markup_trigger,
    scan_hyphen_tail, ElsePeek, MarkupTrigger,
};
use crate::js::{
    answer, answer_answers, answers, find_answer, JsAnswer, JsAsk, JsFact, JsQuery, JsTokenKind,
};
use crate::lines::{
    content_start_bounds, indent_of, line_content_end, line_end, line_indent_of, line_start,
    list_item_extent, next_line, next_line_bounds, next_line_start,
};
use crate::links::{attrs_group_at, lex_link_span};
use crate::raw::{
    armed_boundary, armed_stop_bounds, code_content_boundary, code_span_bounds, lex_code_span,
    lex_math_span, math_content_boundary, math_span_bounds, verbatim_boundary, verbatim_stop_bounds,
    ArmedBoundary, CodeScan, MathScan, VerbatimBoundary,
};
use crate::statements::{
    colon_prop_line_at, fence_close_bounds, find_fence_close, heading_at, is_statement_line,
    list_marker_at, opens_statement, percent_line_is_empty, statement_bound, statement_kind,
    statement_stop_bounds, thematic_break_at,
};
use crate::token::{next_nota_child, token_bounds, Kind};
use crate::tree::{
    branch, in_source, join_nodes, keeps_first, leaf, no_nodes, node, push_node, tree_whole, tree_within, trees, whole, BodyForm,
    ExprTier, Node, NodeKind, NotaDocStateKind, NotaEmphasisMarker, NotaListKind, NotaTag, Tree,
};
use crate::unicode::{
    ascii_then_boundary, boundary, boundary_is_char_boundary, char_at, escape_span,
    is_identifier_start, is_white_run, line_start_boundary, skip_identifier, utf8_valid,
};

verus! {

/// Where a reading left off.
#[derive(Clone, Copy, Debug, PartialEq, Eq, Structural)]
pub struct Ended {
    /// Where reading goes on.
    pub at: u32,
    /// Was a body closed by its own `}`?
    pub closed: bool,
    /// Why reading stopped, if it did.
    pub stop: Option<Stop>,
}

/// The reading that appended `nodes` and left off at `e`.
pub open spec fn ended(nodes: Seq<Node>, e: Ended) -> Reading {
    Reading { nodes: trees(nodes), at: e.at as int, closed: e.closed, stop: e.stop }
}

/// Reading that goes on at `at`.
fn goes(at: u32) -> (e: Ended)
    ensures
        e == (Ended { at, closed: false, stop: None }),
{
    Ended { at, closed: false, stop: None }
}

/// Reading that stopped.
fn halts(at: u32, stop: Stop) -> (e: Ended)
    ensures
        e == (Ended { at, closed: false, stop: Some(stop) }),
{
    Ended { at, closed: false, stop: Some(stop) }
}

/// A fault at what stands in the place of something else.
fn fault_at(kind: FaultKind, found: Span) -> (fault: Fault)
    ensures
        fault == misplaced(kind, found),
{
    Fault { kind, span: found, at_blank_line: false }
}

/// Reading that met a fault.
fn fails(at: u32, kind: FaultKind, start: u32, end: u32) -> (e: Ended)
    ensures
        e == (Ended {
            at,
            closed: false,
            stop: Some(Stop::Faulty { fault: misplaced(kind, Span { start, end }) }),
        }),
{
    halts(at, Stop::Faulty { fault: fault_at(kind, Span::new(start, end)) })
}

/// The same, as far as a caller is concerned.
fn reopened(e: Ended) -> (r: Ended)
    ensures
        r == (Ended { at: e.at, closed: false, stop: e.stop }),
{
    Ended { at: e.at, closed: false, stop: e.stop }
}

/// Append literal text, unless it is empty.
fn push_text(out: &mut Vec<Node>, start: u32, end: u32)
    ensures
        trees(final(out)@) == with_text(trees(old(out)@), start as int, end as int),
        forall|n: int| #[trigger]
            in_source(trees(old(out)@), n) && end <= n ==> in_source(trees(final(out)@), n),
        whole(trees(old(out)@)) ==> whole(trees(final(out)@)),
{
    proof {
        reveal(in_source);
    }
    if start < end {
        push_node(out, node(NodeKind::Text, Span::new(start, end), no_nodes()));
    }
}

/// Append a raw run, unless it is empty.
fn push_raw_run(out: &mut Vec<Node>, start: u32, end: u32)
    ensures
        trees(final(out)@) == with_raw(trees(old(out)@), start as int, end as int),
        forall|n: int| #[trigger]
            in_source(trees(old(out)@), n) && end <= n ==> in_source(trees(final(out)@), n),
        whole(trees(old(out)@)) ==> whole(trees(final(out)@)),
{
    proof {
        reveal(in_source);
    }
    if start < end {
        push_node(out, node(NodeKind::Raw, Span::new(start, end), no_nodes()));
    }
}

/// Append a node without children.
fn push_leaf(out: &mut Vec<Node>, kind: NodeKind, start: u32, end: u32)
    ensures
        trees(final(out)@) == trees(old(out)@).push(leaf(kind, start as int, end as int)),
        kind != NodeKind::Text && kind != NodeKind::Raw ==> forall|n: int| #[trigger]
            in_source(trees(old(out)@), n) && start <= n && end <= n ==> in_source(
                trees(final(out)@),
                n,
            ),
        kind != NodeKind::PropsAnchor && whole(trees(old(out)@)) ==> whole(trees(final(out)@)),
{
    proof {
        reveal(in_source);
    }
    push_node(out, node(kind, Span::new(start, end), no_nodes()));
}

/// Append a document-state sugar with properties and a body.
fn push_doc_state(
    out: &mut Vec<Node>,
    sugar: NotaDocStateKind,
    label: Span,
    span: Span,
    props: Vec<Node>,
    children: Vec<Node>,
)
    ensures
        trees(final(out)@) == trees(old(out)@).push(
            doc_state_tree(
                sugar,
                label,
                span.start as int,
                span.end as int,
                trees(props@),
                trees(children@),
            ),
        ),
        forall|n: int| #[trigger]
            in_source(trees(old(out)@), n) && span.start <= n && span.end <= n && in_source(
                trees(props@),
                n,
            ) && in_source(trees(children@), n) ==> in_source(trees(final(out)@), n),
        whole(trees(old(out)@)) && whole(trees(props@)) && whole(trees(children@)) ==> whole(
            trees(final(out)@),
        ),
{
    proof {
        reveal(in_source);
        reveal(whole);
    }
    let mut kids = no_nodes();
    let ghost (p, c) = (trees(props@), trees(children@));
    push_node(&mut kids, node(NodeKind::Props, span, props));
    push_node(&mut kids, node(NodeKind::Body, span, children));
    assert(trees(kids@) =~= seq![
        branch(NodeKind::Props, span.start as int, span.end as int, p),
        branch(NodeKind::Body, span.start as int, span.end as int, c),
    ]);
    let item = node(NodeKind::DocState { sugar, label }, span, kids);
    let ghost made = item.tree();
    push_node(out, item);
    proof {
        assert forall|n: int| #[trigger]
            in_source(trees(old(out)@), n) && span.start <= n && span.end <= n && in_source(p, n)
                && in_source(c, n) implies in_source(trees(out@), n) by {
            assert(tree_within(branch(NodeKind::Props, span.start as int, span.end as int, p), n));
            assert(tree_within(branch(NodeKind::Body, span.start as int, span.end as int, c), n));
            assert(tree_within(made, n));
        }
        if whole(p) && whole(c) {
            assert(tree_whole(branch(NodeKind::Props, span.start as int, span.end as int, p)));
            assert(tree_whole(branch(NodeKind::Body, span.start as int, span.end as int, c)));
            assert(tree_whole(made));
        }
    }
}

/// Append a node over `kids`.
fn push_branch(out: &mut Vec<Node>, kind: NodeKind, start: u32, end: u32, kids: Vec<Node>)
    ensures
        trees(final(out)@) == trees(old(out)@).push(
            branch(kind, start as int, end as int, trees(kids@)),
        ),
        kind != NodeKind::Text && kind != NodeKind::Raw ==> forall|n: int| #[trigger]
            in_source(trees(old(out)@), n) && start <= n && end <= n && in_source(trees(kids@), n)
                ==> in_source(trees(final(out)@), n),
        kind != NodeKind::PropsAnchor && whole(trees(old(out)@)) && whole(trees(kids@)) ==> whole(
            trees(final(out)@),
        ),
{
    proof {
        reveal(in_source);
        reveal(whole);
    }
    push_node(out, node(kind, Span::new(start, end), kids));
}

/// Hoisting a group leaves all nodes in the source.
proof fn hoisting_stays(all: Seq<Tree>, i: int, first: Tree, after: Seq<Tree>)
    requires
        0 <= i < all.len(),
        first.kind == NodeKind::Props,
        first.span == all[i].span,
        first.kids == all[i].kids,
        after == seq![first] + all.remove(i),
    ensures
        forall|n: int| #[trigger] in_source(all, n) ==> in_source(after, n),
        whole(all) ==> whole(after),
{
    reveal(in_source);
    reveal(whole);
    if whole(all) {
        assert(tree_whole(all[i]));
        assert(tree_whole(first));
        assert forall|k: int| 0 <= k < after.len() implies tree_whole(#[trigger] after[k]) by {
            if k > 0 {
                let j = if k - 1 < i {
                    k - 1
                } else {
                    k
                };
                assert(after[k] == all[j]);
                assert(tree_whole(all[j]));
            }
        }
    }
    assert forall|n: int| #[trigger] in_source(all, n) implies in_source(after, n) by {
        assert(tree_within(all[i], n));
        assert(tree_within(first, n));
        assert forall|k: int| 0 <= k < after.len() implies tree_within(#[trigger] after[k], n) by {
            if k > 0 {
                let j = if k - 1 < i {
                    k - 1
                } else {
                    k
                };
                assert(after[k] == all[j]);
                assert(tree_within(all[j], n));
            }
        }
    }
}

/// Append an element.
fn push_element(
    out: &mut Vec<Node>,
    tag: NotaTag,
    body: BodyForm,
    start: u32,
    end: u32,
    props: Vec<Node>,
    children: Vec<Node>,
    dynamic: Vec<Node>,
)
    ensures
        trees(final(out)@) == trees(old(out)@).push(
            element_tree(
                tag,
                body,
                start as int,
                end as int,
                trees(props@),
                trees(children@),
                trees(dynamic@),
            ),
        ),
        forall|n: int| #[trigger]
            in_source(trees(old(out)@), n) && start <= n && end <= n && in_source(trees(props@), n)
                && in_source(trees(children@), n) && in_source(trees(dynamic@), n) ==> in_source(
                trees(final(out)@),
                n,
            ),
        whole(trees(old(out)@)) && whole(trees(props@)) && whole(trees(children@)) && whole(
            trees(dynamic@),
        ) ==> whole(trees(final(out)@)),
{
    proof {
        reveal(in_source);
    }
    let mut kids = no_nodes();
    push_branch(&mut kids, NodeKind::Props, start, end, props);
    push_branch(&mut kids, NodeKind::Body, start, end, children);
    assert(trees(kids@) =~= seq![
        branch(NodeKind::Props, start as int, end as int, trees(props@)),
        branch(NodeKind::Body, start as int, end as int, trees(children@)),
    ]);
    join_nodes(&mut kids, dynamic);
    push_branch(out, NodeKind::Element { tag, body }, start, end, kids);
}

/// The smaller of two offsets.
fn min_of(a: u32, b: u32) -> (m: u32)
    ensures
        m == smaller(a as int, b as int),
{
    if a <= b {
        a
    } else {
        b
    }
}

/// Do statement lines open in this mode?
fn allows_statements(mode: BodyMode) -> (yes: bool)
    ensures
        yes == reads_statements(mode),
{
    match mode {
        BodyMode::Bounded { end: _ } => false,
        _ => true,
    }
}

/// Does `p` lie before the end of a bounded range?
fn before_bound(mode: BodyMode, p: u32) -> (yes: bool)
    ensures
        yes == in_bound(mode, p as int),
{
    match mode {
        BodyMode::Bounded { end } => p < end,
        _ => true,
    }
}

/// `p`, clipped to the end of a bounded range.
fn clip_to(mode: BodyMode, p: u32) -> (c: u32)
    ensures
        c == clip(mode, p as int),
        c <= p,
{
    match mode {
        BodyMode::Bounded { end } => min_of(p, end),
        _ => p,
    }
}

/// The mode of the body around a form.
fn mode_of(region: Region) -> (mode: BodyMode)
    ensures
        mode == region_mode(region),
{
    match region {
        Region::Markup { frame } => frame.mode,
        _ => BodyMode::Document,
    }
}

/// An indentation is no longer than the source.
proof fn indent_bounds(s: Seq<u8>, p: int)
    requires
        0 <= p <= s.len(),
    ensures
        0 <= indent_of(s, p) <= s.len(),
{
    line_start_bounds(s, p);
    content_start_bounds(s, line_start(s, p));
    next_line_bounds(s, line_start(s, p));
}

/// A line starts no later than what it holds.
proof fn line_start_bounds(s: Seq<u8>, p: int)
    requires
        0 <= p <= s.len(),
    ensures
        0 <= line_start(s, p) <= p,
    decreases p,
{
    if 0 < p && s[p - 1] != NEWLINE {
        line_start_bounds(s, p - 1);
    }
}

/// A source, the part of it that is read, and what is known of its JavaScript.
#[derive(Clone, Copy)]
pub struct Scope<'a> {
    /// The source.
    pub source: &'a str,
    /// The source up to where it is taken to end.
    pub view: &'a str,
    /// The table of facts.
    pub facts: &'a [JsFact],
}

impl<'a> Scope<'a> {
    /// What is given to the reader.
    pub open spec fn input(&self) -> Input {
        Input { s: utf8(self.source), facts: self.facts@ }
    }

    /// Where the source is taken to end.
    pub open spec fn end(&self) -> int {
        utf8(self.view).len() as int
    }

    /// The view is the source up to a character boundary.
    pub open spec fn wf(&self) -> bool {
        &&& addressable(utf8(self.source))
        &&& self.end() <= utf8(self.source).len()
        &&& utf8(self.view) == utf8(self.source).subrange(0, self.end())
        &&& boundary(utf8(self.source), self.end())
    }

    /// Read all of a source.
    pub fn whole(source: &'a str, facts: &'a [JsFact]) -> (scope: Scope<'a>)
        requires
            addressable(utf8(source)),
        ensures
            scope.wf(),
            scope.input() == (Input { s: utf8(source), facts: facts@ }),
            scope.end() == utf8(source).len(),
    {
        assert(utf8(source) =~= utf8(source).subrange(0, utf8(source).len() as int));
        Scope { source, view: source, facts }
    }

    /// The same source, taken to end at `end`.
    fn clamped(&self, end: u32) -> (scope: Scope<'a>)
        requires
            self.wf(),
            end <= utf8(self.source).len(),
            boundary(utf8(self.source), end as int),
        ensures
            scope.wf(),
            scope.input() == self.input(),
            scope.end() == end,
    {
        proof {
            utf8_valid(self.source);
            boundary_is_char_boundary(utf8(self.source), end as int);
        }
        let (front, _) = self.source.split_at(end as usize);
        Scope { source: self.source, view: front, facts: self.facts }
    }

    /// Where the source is taken to end.
    fn stop(&self) -> (end: u32)
        requires
            self.wf(),
        ensures
            end == self.end(),
            end <= utf8(self.source).len(),
    {
        self.view.len() as u32
    }

    /// `q` where it lies past `p` inside the source, and the byte after `p` otherwise.
    fn step(&self, p: u32, q: u32) -> (r: u32)
        requires
            self.wf(),
            p < utf8(self.source).len(),
        ensures
            r == past(utf8(self.source), p as int, q as int),
            p < r <= utf8(self.source).len(),
    {
        if p < q && q as usize <= self.source.len() {
            q
        } else {
            p + 1
        }
    }

    /// `q` where it lies at or past `p` inside the source, and `p` otherwise.
    fn not_before(&self, p: u32, q: u32) -> (r: u32)
        requires
            self.wf(),
            p <= utf8(self.source).len(),
        ensures
            r == at_least(utf8(self.source), p as int, q as int),
            p <= r <= utf8(self.source).len(),
    {
        if p <= q && q as usize <= self.source.len() {
            q
        } else {
            p
        }
    }

    /// The byte of the source at `p`.
    fn byte(&self, p: u32) -> (b: Option<u8>)
        ensures
            b == at(utf8(self.source), p as int),
    {
        get(self.source.as_bytes(), p as usize)
    }

    /// Put a question about the code from `p` to `end`.
    pub(crate) fn ask(&self, what: JsAsk, p: u32, end: u32) -> (found: Option<JsAnswer>)
        requires
            self.wf(),
        ensures
            found == ask(self.input(), what, p as int, end as int),
            found matches Some(a) ==> answers(
                utf8(self.source),
                query(what, p as int, end as int),
                a,
            ),
            found is None ==> answer(
                utf8(self.source),
                self.facts@,
                query(what, p as int, end as int),
            ) is None,
            found matches Some(JsAnswer::Token { span, kind }) ==> p <= span.start < span.end <= end
                && end <= utf8(self.source).len(),
            found matches Some(JsAnswer::Extent { span, tier }) ==> p <= span.start < span.end <= end
                && end <= utf8(self.source).len(),
            found matches Some(JsAnswer::Binding { span }) ==> p <= span.start < span.end <= end
                && end <= utf8(self.source).len(),
            found matches Some(JsAnswer::Statement { span, class, attach }) ==> p <= span.start
                < span.end <= end && end <= utf8(self.source).len(),
            found matches Some(JsAnswer::Form { at }) ==> p <= at < end && end <= utf8(
                self.source,
            ).len(),
            found matches Some(JsAnswer::Lexeme { span, what }) ==> p <= span.start < span.end
                <= end && end <= utf8(self.source).len(),
    {
        proof {
            answer_answers(utf8(self.source), self.facts@, query(what, p as int, end as int), 0);
        }
        if p <= end && end as usize <= self.source.len() {
            find_answer(self.source, self.facts, JsQuery { ask: what, at: p, end })
        } else {
            None
        }
    }

    /// Why reading stops at a question that was not answered as needed.
    fn refusal(&self, what: JsAsk, p: u32, end: u32) -> (stop: Stop)
        requires
            self.wf(),
        ensures
            stop == refused(self.input(), what, p as int, end as int),
            ask(self.input(), what, p as int, end as int) is None ==> is_new(
                self.input(),
                Some(stop),
            ),
            ask(self.input(), what, p as int, end as int) is Some
                && ask(self.input(), what, p as int, end as int)->0 is Invalid ==> is_new(
                self.input(),
                Some(stop),
            ),
    {
        match self.ask(what, p, end) {
            Some(JsAnswer::Invalid { at, reason }) => Stop::Faulty {
                fault: Fault {
                    kind: FaultKind::InvalidJs { reason },
                    span: Span::new(at, at),
                    at_blank_line: false,
                },
            },
            _ => Stop::Ask { query: JsQuery { ask: what, at: p, end } },
        }
    }

    /// Is a `:` glued to the head of the form at `pos` a trigger?
    fn colon_trigger_live(&self, region: Region, pos: u32) -> (live: bool)
        ensures
            live == colon_live(utf8(self.source), region, pos as int),
    {
        match region {
            Region::Markup { frame } => at_line_start_in_frame(self.source, pos, frame.start),
            _ => false,
        }
    }

    /// The trigger at `p`, a dead colon taken for none.
    fn effective_trigger(&self, p: u32, live: bool) -> (kind: MarkupTrigger)
        requires
            self.wf(),
        ensures
            kind == live_trigger(utf8(self.source), p as int, live),
    {
        match markup_trigger(self.source, p) {
            MarkupTrigger::Colon => if live {
                MarkupTrigger::Colon
            } else {
                MarkupTrigger::Bare
            },
            kind => kind,
        }
    }

    /// Is the name at `p` a component's?
    fn is_component_name(&self, p: u32) -> (yes: bool)
        ensures
            yes == is_component(utf8(self.source), p as int),
    {
        match self.byte(p) {
            Some(b) => UPPER_A <= b && b <= UPPER_Z,
            None => false,
        }
    }

    /// Are the bytes of `span` exactly `a`, `b`?
    fn is_spelled2(&self, span: Span, a: u8, b: u8) -> (yes: bool)
        requires
            self.wf(),
        ensures
            yes == spells2(utf8(self.source), span, a, b),
    {
        let s = self.source.as_bytes();
        span.start <= span.end && span.end - span.start == 2 && get(s, span.start as usize) == Some(
            a,
        ) && get(s, span.start as usize + 1) == Some(b)
    }

    /// Are the bytes of `span` exactly `a`, `b`, `c`?
    fn is_spelled3(&self, span: Span, a: u8, b: u8, c: u8) -> (yes: bool)
        requires
            self.wf(),
        ensures
            yes == spells3(utf8(self.source), span, a, b, c),
    {
        let s = self.source.as_bytes();
        span.start <= span.end && span.end - span.start == 3 && get(s, span.start as usize) == Some(
            a,
        ) && get(s, span.start as usize + 1) == Some(b) && get(s, span.start as usize + 2) == Some(
            c,
        )
    }

    /// The end of the first line of a line-start construct at `p`.
    fn sugar_line_end(&self, p: u32, mode: BodyMode) -> (end: u32)
        requires
            self.wf(),
            p <= utf8(self.source).len(),
        ensures
            end == sugar_end(utf8(self.source), p as int, mode),
            end <= line_end(utf8(self.source), p as int),
            end <= utf8(self.source).len(),
    {
        let line: u32 = line_content_end(self.source, p);
        let clipped: u32 = match brace_clip_on_line(self.source, p) {
            Some(brace) => if mode == BodyMode::Body {
                min_of(line, brace)
            } else {
                line
            },
            None => line,
        };
        clip_to(mode, clipped)
    }

    /// How the head after an `@`, at `p`, starts.
    fn next_nota_head(&self, p: u32) -> (start: HeadStart)
        requires
            self.wf(),
        ensures
            start == head_start(self.input(), self.end(), p as int),
            start matches HeadStart::Name { span } ==> span.start <= span.end <= utf8(
                self.source,
            ).len(),
            start matches HeadStart::Refused { stop } ==> is_new(self.input(), Some(stop)),
    {
        let end: u32 = self.stop();
        let v = self.view.as_bytes();
        if let Some(c) = char_at(self.view, p as usize) {
            if is_identifier_start(c) {
                let name_end: u32 = skip_identifier(self.view, p);
                return HeadStart::Name { span: Span::new(p, name_end) };
            }
        }
        if get(v, p as usize) == Some(LBRACE) {
            return HeadStart::Brace { at: p };
        }
        if get(v, p as usize) == Some(LPAREN) {
            return HeadStart::Paren { at: p };
        }
        match self.ask(JsAsk::Token, p, end) {
            Some(JsAnswer::Token { span, kind }) => {
                if kind == JsTokenKind::Name {
                    HeadStart::Name { span }
                } else if self.byte(span.start) == Some(LBRACE) {
                    HeadStart::Brace { at: span.start }
                } else if self.byte(span.start) == Some(LPAREN) {
                    HeadStart::Paren { at: span.start }
                } else {
                    HeadStart::Nothing { fault: fault_at(FaultKind::UnexpectedHead, span) }
                }
            },
            Some(JsAnswer::Nothing) => HeadStart::Nothing {
                fault: fault_at(FaultKind::UnexpectedHead, Span::new(end, end)),
            },
            Some(JsAnswer::Invalid { at, reason }) => HeadStart::Nothing {
                fault: fault_at(FaultKind::InvalidJs { reason }, Span::new(at, at)),
            },
            _ => HeadStart::Refused { stop: self.refusal(JsAsk::Token, p, end) },
        }
    }
}

impl<'a> Scope<'a> {
    /// Read the `@`-form whose `@` stands at `pos`.
    fn nota_form(&self, region: Region, out: &mut Vec<Node>, pos: u32) -> (r: Ended)
        requires
            self.wf(),
            pos < utf8(self.source).len(),
        ensures
            ended(final(out)@, r) == form(
                self.input(),
                self.end(),
                region,
                trees(old(out)@),
                pos as int,
            ),
            is_new(self.input(), r.stop),
            in_source(trees(old(out)@), utf8(self.source).len() as int) ==> in_source(
                trees(final(out)@),
                utf8(self.source).len() as int,
            ),
            r.stop is None && whole(trees(old(out)@)) ==> whole(trees(final(out)@)),
            keeps_first(trees(old(out)@), trees(final(out)@)),
            r.at <= utf8(self.source).len(),
        decreases utf8(self.source).len() + 2 - pos, 3int,
    {
        match self.next_nota_head(pos + 1) {
            HeadStart::Name { span } => {
                if self.is_spelled2(span, LOWER_I, LOWER_F) {
                    self.parse_nota_if(out, pos, self.step(pos, span.end))
                } else if self.is_spelled3(span, LOWER_F, LOWER_O, LOWER_R) {
                    self.parse_nota_for(out, pos, self.step(pos, span.end))
                } else {
                    self.parse_nota_head(region, out, pos, span)
                }
            },
            HeadStart::Brace { at } => {
                let (kids, r) = self.parse_braced_body(self.step(pos, at));
                push_branch(out, NodeKind::Fragment, pos, r.at, kids);
                reopened(r)
            },
            HeadStart::Paren { at } => {
                let (head, r) = self.parse_paren(self.step(pos, at));
                if r.stop.is_some() {
                    push_branch(out, NodeKind::Interpolation, pos, r.at, head);
                    reopened(r)
                } else {
                    self.parse_triggered(
                        region,
                        out,
                        pos,
                        NotaTag::Dynamic,
                        head,
                        self.step(pos, r.at),
                    )
                }
            },
            HeadStart::Nothing { fault } => {
                push_leaf(out, NodeKind::Fragment, pos, pos + 1);
                halts(pos + 1, Stop::Faulty { fault })
            },
            HeadStart::Refused { stop } => halts(pos + 1, stop),
        }
    }

    /// Read the form at `pos` whose head is the name `name`.
    fn parse_nota_head(&self, region: Region, out: &mut Vec<Node>, pos: u32, name: Span) -> (r: Ended)
        requires
            self.wf(),
            pos < utf8(self.source).len(),
            name.end <= utf8(self.source).len(),
            name.start <= name.end,
        ensures
            ended(final(out)@, r) == named_form(
                self.input(),
                self.end(),
                region,
                trees(old(out)@),
                pos as int,
                name,
            ),
            is_new(self.input(), r.stop),
            in_source(trees(old(out)@), utf8(self.source).len() as int) ==> in_source(
                trees(final(out)@),
                utf8(self.source).len() as int,
            ),
            r.stop is None && whole(trees(old(out)@)) ==> whole(trees(final(out)@)),
            keeps_first(trees(old(out)@), trees(final(out)@)),
            r.at <= utf8(self.source).len(),
        decreases utf8(self.source).len() + 2 - pos, 2int,
    {
        let live = self.colon_trigger_live(region, pos);
        let component = self.is_component_name(name.start);
        proof {
            hyphen_tail_bounds(utf8(self.source), name.end as int);
        }
        let full: Span = match scan_hyphen_tail(self.source, name.end) {
            Some(tail) => if !component && self.effective_trigger(tail, live)
                != MarkupTrigger::Bare {
                Span::new(name.start, tail)
            } else {
                name
            },
            None => name,
        };
        let tag = if component {
            NotaTag::Component { name: full }
        } else {
            NotaTag::Host { name: full }
        };
        let mut head = no_nodes();
        assert(in_source(trees(head@), utf8(self.source).len() as int));
        push_leaf(&mut head, NodeKind::Js { tier: ExprTier::Primary }, full.start, full.end);
        assert(trees(head@) =~= seq![
            leaf(
                NodeKind::Js { tier: ExprTier::Primary },
                full.start as int,
                full.end as int,
            ),
        ]);
        self.parse_triggered(region, out, pos, tag, head, self.step(pos, full.end))
    }

    /// Read the rest of the form at `pos` whose head ends at `c`.
    fn parse_triggered(
        &self,
        region: Region,
        out: &mut Vec<Node>,
        pos: u32,
        tag: NotaTag,
        head: Vec<Node>,
        c: u32,
    ) -> (r: Ended)
        requires
            self.wf(),
            pos < utf8(self.source).len(),
            c <= utf8(self.source).len(),
            head@.len() > 0,
            in_source(trees(head@), utf8(self.source).len() as int),
            whole(trees(head@)),
        ensures
            ended(final(out)@, r) == triggered(
                self.input(),
                self.end(),
                region,
                trees(old(out)@),
                pos as int,
                tag,
                trees(head@),
                c as int,
            ),
            is_new(self.input(), r.stop),
            in_source(trees(old(out)@), utf8(self.source).len() as int) ==> in_source(
                trees(final(out)@),
                utf8(self.source).len() as int,
            ),
            r.stop is None && whole(trees(old(out)@)) ==> whole(trees(final(out)@)),
            keeps_first(trees(old(out)@), trees(final(out)@)),
            r.at <= utf8(self.source).len(),
        decreases utf8(self.source).len() + 2 - c, 12int,
    {
        let live = self.colon_trigger_live(region, pos);
        let kind = self.effective_trigger(c, live);
        if kind == MarkupTrigger::Bare {
            let span = head[0].span;
            assert(tree_within(trees(head@)[0], utf8(self.source).len() as int)) by {
                reveal(in_source);
            }
            push_branch(out, NodeKind::Interpolation, span.start, span.end, head);
            return goes(c);
        }
        let dynamic = if tag == NotaTag::Dynamic {
            head
        } else {
            no_nodes()
        };
        match kind {
            MarkupTrigger::Colon => self.parse_colon_body(
                region,
                out,
                pos,
                tag,
                dynamic,
                no_nodes(),
                c,
            ),
            MarkupTrigger::Verbatim => self.parse_verbatim_element(
                out,
                pos,
                tag,
                dynamic,
                no_nodes(),
                c,
            ),
            _ => self.parse_element(region, out, pos, tag, dynamic, c),
        }
    }

    /// Read an element whose property groups or body start at `c`.
    fn parse_element(
        &self,
        region: Region,
        out: &mut Vec<Node>,
        pos: u32,
        tag: NotaTag,
        dynamic: Vec<Node>,
        c: u32,
    ) -> (r: Ended)
        requires
            self.wf(),
            pos < utf8(self.source).len(),
            c <= utf8(self.source).len(),
            in_source(trees(dynamic@), utf8(self.source).len() as int),
            whole(trees(dynamic@)),
        ensures
            ended(final(out)@, r) == element(
                self.input(),
                self.end(),
                region,
                trees(old(out)@),
                pos as int,
                tag,
                trees(dynamic@),
                c as int,
            ),
            is_new(self.input(), r.stop),
            in_source(trees(old(out)@), utf8(self.source).len() as int) ==> in_source(
                trees(final(out)@),
                utf8(self.source).len() as int,
            ),
            r.stop is None && whole(trees(old(out)@)) ==> whole(trees(final(out)@)),
            keeps_first(trees(old(out)@), trees(final(out)@)),
            r.at <= utf8(self.source).len(),
        decreases utf8(self.source).len() + 2 - c, 11int,
    {
        let mut props = no_nodes();
        let groups = self.parse_prop_groups(&mut props, c);
        if groups.stop.is_some() {
            push_element(
                out,
                tag,
                BodyForm::Braced,
                pos,
                groups.at,
                props,
                no_nodes(),
                dynamic,
            );
            return reopened(groups);
        }
        let b: u32 = self.not_before(c, groups.at);
        let next = self.byte(b);
        if next == Some(LBRACE) {
            let (kids, r) = self.parse_braced_body(b);
            push_element(out, tag, BodyForm::Braced, pos, r.at, props, kids, dynamic);
            reopened(r)
        } else if next == Some(PIPE) && self.byte(b + 1) == Some(LBRACE) {
            self.parse_verbatim_element(out, pos, tag, dynamic, props, b)
        } else if next == Some(COLON) && self.colon_trigger_live(region, pos) {
            self.parse_colon_body(region, out, pos, tag, dynamic, props, b)
        } else {
            push_element(out, tag, BodyForm::Braced, pos, b, props, no_nodes(), dynamic);
            goes(b)
        }
    }

    /// Read the property groups that stand side by side from `c` on.
    fn parse_prop_groups(&self, out: &mut Vec<Node>, c: u32) -> (r: Ended)
        requires
            self.wf(),
            c <= utf8(self.source).len(),
        ensures
            ended(final(out)@, r) == prop_groups(
                self.input(),
                self.end(),
                trees(old(out)@),
                c as int,
            ),
            is_new(self.input(), r.stop),
            in_source(trees(old(out)@), utf8(self.source).len() as int) ==> in_source(
                trees(final(out)@),
                utf8(self.source).len() as int,
            ),
            r.stop is None && whole(trees(old(out)@)) ==> whole(trees(final(out)@)),
            keeps_first(trees(old(out)@), trees(final(out)@)),
            r.at <= utf8(self.source).len(),
        decreases utf8(self.source).len() + 2 - c, 10int,
    {
        let mut p: u32 = c;
        while self.byte(p) == Some(LBRACK)
            invariant
                self.wf(),
                in_source(trees(old(out)@), utf8(self.source).len() as int) ==> in_source(
                    trees(out@),
                    utf8(self.source).len() as int,
                ),
                whole(trees(old(out)@)) ==> whole(trees(out@)),
                keeps_first(trees(old(out)@), trees(out@)),
                c <= p <= utf8(self.source).len(),
                prop_groups(self.input(), self.end(), trees(out@), p as int) == prop_groups(
                    self.input(),
                    self.end(),
                    trees(old(out)@),
                    c as int,
                ),
            decreases utf8(self.source).len() - p,
        {
            let r = self.parse_props_group(out, p);
            if r.stop.is_some() {
                return r;
            }
            p = self.step(p, r.at);
        }
        goes(p)
    }

    /// Read the entries of the property group whose `[` stands at `open`.
    fn parse_props_group(&self, out: &mut Vec<Node>, open: u32) -> (r: Ended)
        requires
            self.wf(),
            open < utf8(self.source).len(),
        ensures
            ended(final(out)@, r) == entries(
                self.input(),
                self.end(),
                trees(old(out)@),
                open as int,
                open + 1,
            ),
            is_new(self.input(), r.stop),
            in_source(trees(old(out)@), utf8(self.source).len() as int) ==> in_source(
                trees(final(out)@),
                utf8(self.source).len() as int,
            ),
            r.stop is None && whole(trees(old(out)@)) ==> whole(trees(final(out)@)),
            keeps_first(trees(old(out)@), trees(final(out)@)),
            r.at <= utf8(self.source).len(),
        decreases utf8(self.source).len() + 2 - (open + 1), 9int,
    {
        let end: u32 = self.stop();
        let mut p: u32 = open + 1;
        loop
            invariant
                self.wf(),
                in_source(trees(old(out)@), utf8(self.source).len() as int) ==> in_source(
                    trees(out@),
                    utf8(self.source).len() as int,
                ),
                whole(trees(old(out)@)) ==> whole(trees(out@)),
                keeps_first(trees(old(out)@), trees(out@)),
                end == self.end(),
                open < p <= utf8(self.source).len(),
                entries(self.input(), self.end(), trees(out@), open as int, p as int) == entries(
                    self.input(),
                    self.end(),
                    trees(old(out)@),
                    open as int,
                    open + 1,
                ),
            decreases utf8(self.source).len() - p,
        {
            match self.ask(JsAsk::Token, p, end) {
                Some(JsAnswer::Token { span, kind }) => {
                    if self.byte(span.start) == Some(RBRACK) {
                        return goes(span.end);
                    }
                    let r = self.parse_prop_or_spread(out, span, kind);
                    if r.stop.is_some() {
                        return r;
                    }
                    match self.ask(JsAsk::Token, r.at, end) {
                        Some(JsAnswer::Token { span: next, kind: _ }) => {
                            let b = self.byte(next.start);
                            if b == Some(RBRACK) {
                                return goes(next.end);
                            }
                            if b != Some(COMMA) {
                                return fails(
                                    r.at,
                                    FaultKind::ExpectedBracket,
                                    next.start,
                                    next.end,
                                );
                            }
                            p = self.step(p, next.end);
                        },
                        Some(JsAnswer::Nothing) => {
                            push_leaf(out, NodeKind::PropsAnchor, open, open + 1);
                            return fails(r.at, FaultKind::ExpectedBracket, end, end);
                        },
                        _ => {
                            return halts(r.at, self.refusal(JsAsk::Token, r.at, end));
                        },
                    }
                },
                Some(JsAnswer::Nothing) => {
                    push_leaf(out, NodeKind::PropsAnchor, open, open + 1);
                    return fails(p, FaultKind::ExpectedBracket, end, end);
                },
                _ => {
                    return halts(p, self.refusal(JsAsk::Token, p, end));
                },
            }
        }
    }

    /// Read the property entry whose first token is `key`.
    fn parse_prop_or_spread(&self, out: &mut Vec<Node>, key: Span, kind: JsTokenKind) -> (r: Ended)
        requires
            self.wf(),
            key.start < key.end <= utf8(self.source).len(),
        ensures
            ended(final(out)@, r) == entry(self.input(), self.end(), trees(old(out)@), key, kind),
            is_new(self.input(), r.stop),
            in_source(trees(old(out)@), utf8(self.source).len() as int) ==> in_source(
                trees(final(out)@),
                utf8(self.source).len() as int,
            ),
            r.stop is None && whole(trees(old(out)@)) ==> whole(trees(final(out)@)),
            keeps_first(trees(old(out)@), trees(final(out)@)),
            r.at <= utf8(self.source).len(),
        decreases utf8(self.source).len() + 2 - key.start, 8int,
    {
        let end: u32 = self.stop();
        if self.is_spelled3(key, DOT, DOT, DOT) {
            let (value, r) = self.parse_js(JsAsk::Assignment, key.end);
            push_branch(out, NodeKind::Spread, key.start, r.at, value);
            return reopened(r);
        }
        match self.ask(JsAsk::Token, key.end, end) {
            Some(JsAnswer::Token { span: colon, kind: _ }) => {
                if self.byte(colon.start) == Some(COLON) {
                    let (value, r) = self.parse_prop_value(self.step(key.start, colon.end));
                    push_branch(
                        out,
                        NodeKind::Field { key, quoted: kind == JsTokenKind::Str },
                        key.start,
                        r.at,
                        value,
                    );
                    reopened(r)
                } else {
                    self.parse_bare_key(out, key, kind, colon)
                }
            },
            Some(JsAnswer::Nothing) => self.parse_bare_key(out, key, kind, Span::new(end, end)),
            _ => halts(key.end, self.refusal(JsAsk::Token, key.end, end)),
        }
    }

    /// Read a key without a value, with `found` in place of the `:`.
    fn parse_bare_key(
        &self,
        out: &mut Vec<Node>,
        key: Span,
        kind: JsTokenKind,
        found: Span,
    ) -> (r: Ended)
        requires
            key.start <= key.end,
            key.end <= utf8(self.source).len(),
        ensures
            ended(final(out)@, r) == bare_key(trees(old(out)@), key, kind, found),
            is_new(self.input(), r.stop),
            in_source(trees(old(out)@), utf8(self.source).len() as int) ==> in_source(
                trees(final(out)@),
                utf8(self.source).len() as int,
            ),
            r.stop is None && whole(trees(old(out)@)) ==> whole(trees(final(out)@)),
            keeps_first(trees(old(out)@), trees(final(out)@)),
            r.at <= utf8(self.source).len(),
    {
        if kind == JsTokenKind::Str {
            fails(key.end, FaultKind::ExpectedColon, found.start, found.end)
        } else {
            push_leaf(out, NodeKind::Shorthand, key.start, key.end);
            goes(key.end)
        }
    }

    /// Read the value of a property from `p` on.
    fn parse_prop_value(&self, p: u32) -> (value: (Vec<Node>, Ended))
        requires
            self.wf(),
            p <= utf8(self.source).len(),
        ensures
            ended(value.0@, value.1) == prop_value(self.input(), self.end(), p as int),
            is_new(self.input(), value.1.stop),
            in_source(trees(value.0@), utf8(self.source).len() as int),
            value.1.stop is None ==> whole(trees(value.0@)),
            value.1.at <= utf8(self.source).len(),
        decreases utf8(self.source).len() + 2 - p, 7int,
    {
        let end: u32 = self.stop();
        match self.ask(JsAsk::Token, p, end) {
            Some(JsAnswer::Token { span, kind: _ }) => {
                if self.byte(span.start) == Some(AT_SIGN) {
                    let mut out = no_nodes();
                    let r = self.nota_form(Region::Js, &mut out, span.start);
                    (out, r)
                } else {
                    self.parse_js(JsAsk::Assignment, span.start)
                }
            },
            Some(JsAnswer::Nothing) => self.parse_js(JsAsk::Assignment, p),
            _ => (no_nodes(), halts(p, self.refusal(JsAsk::Token, p, end))),
        }
    }

    /// Read the JavaScript at `p`.
    fn parse_js(&self, what: JsAsk, p: u32) -> (code: (Vec<Node>, Ended))
        requires
            self.wf(),
            p <= utf8(self.source).len(),
            what == JsAsk::Expression || what == JsAsk::Assignment || what == JsAsk::Pattern,
        ensures
            ended(code.0@, code.1) == js_at(self.input(), self.end(), what, p as int),
            is_new(self.input(), code.1.stop),
            in_source(trees(code.0@), utf8(self.source).len() as int),
            code.1.stop is None ==> whole(trees(code.0@)),
            code.1.at <= utf8(self.source).len(),
            code.1.stop is None ==> code.0@.len() == 1 && code.1.at > p,
        decreases utf8(self.source).len() + 2 - p, 6int,
    {
        let end: u32 = self.stop();
        match self.ask(what, p, end) {
            Some(JsAnswer::Extent { span, tier }) => {
                let mut forms = no_nodes();
                let r = self.parse_islands(&mut forms, span.start, span.end);
                assert(in_source(trees(forms@), utf8(self.source).len() as int));
                let mut out = no_nodes();
                assert(in_source(trees(out@), utf8(self.source).len() as int));
                push_branch(&mut out, NodeKind::Js { tier }, span.start, span.end, forms);
                assert(trees(out@) =~= seq![
                    branch(
                        NodeKind::Js { tier },
                        span.start as int,
                        span.end as int,
                        trees(forms@),
                    ),
                ]);
                assert(out@.len() == trees(out@).len());
                (out, Ended { at: span.end, closed: false, stop: r.stop })
            },
            _ => (no_nodes(), halts(p, self.refusal(what, p, end))),
        }
    }

    /// Read the forms inside the JavaScript from `from` to `e`.
    fn parse_islands(&self, out: &mut Vec<Node>, from: u32, e: u32) -> (r: Ended)
        requires
            self.wf(),
            from <= utf8(self.source).len(),
            e <= utf8(self.source).len(),
        ensures
            ended(final(out)@, r) == islands(
                self.input(),
                self.end(),
                trees(old(out)@),
                from as int,
                e as int,
            ),
            is_new(self.input(), r.stop),
            in_source(trees(old(out)@), utf8(self.source).len() as int) ==> in_source(
                trees(final(out)@),
                utf8(self.source).len() as int,
            ),
            r.stop is None && whole(trees(old(out)@)) ==> whole(trees(final(out)@)),
            keeps_first(trees(old(out)@), trees(final(out)@)),
            r.at <= utf8(self.source).len(),
        decreases utf8(self.source).len() + 2 - from, 5int,
    {
        let mut p: u32 = from;
        loop
            invariant
                self.wf(),
                in_source(trees(old(out)@), utf8(self.source).len() as int) ==> in_source(
                    trees(out@),
                    utf8(self.source).len() as int,
                ),
                whole(trees(old(out)@)) ==> whole(trees(out@)),
                keeps_first(trees(old(out)@), trees(out@)),
                from <= p <= utf8(self.source).len(),
                e <= utf8(self.source).len(),
                islands(self.input(), self.end(), trees(out@), p as int, e as int) == islands(
                    self.input(),
                    self.end(),
                    trees(old(out)@),
                    from as int,
                    e as int,
                ),
            decreases utf8(self.source).len() - p,
        {
            match self.ask(JsAsk::Form, p, e) {
                Some(JsAnswer::Form { at }) => {
                    let mut kids = no_nodes();
                    let r = self.nota_form(Region::Js, &mut kids, at);
                    push_branch(out, NodeKind::Markup, at, r.at, kids);
                    if r.stop.is_some() {
                        return reopened(r);
                    }
                    p = self.step(at, r.at);
                },
                Some(JsAnswer::Nothing) => {
                    return goes(e);
                },
                _ => {
                    return halts(p, self.refusal(JsAsk::Form, p, e));
                },
            }
        }
    }

    /// Read the names that the statement from `from` to `e` binds.
    fn parse_bindings(&self, out: &mut Vec<Node>, from: u32, e: u32) -> (r: Ended)
        requires
            self.wf(),
            from <= utf8(self.source).len(),
            e <= utf8(self.source).len(),
        ensures
            ended(final(out)@, r) == bindings(
                self.input(),
                trees(old(out)@),
                from as int,
                e as int,
            ),
            is_new(self.input(), r.stop),
            in_source(trees(old(out)@), utf8(self.source).len() as int) ==> in_source(
                trees(final(out)@),
                utf8(self.source).len() as int,
            ),
            r.stop is None && whole(trees(old(out)@)) ==> whole(trees(final(out)@)),
            keeps_first(trees(old(out)@), trees(final(out)@)),
            r.at <= utf8(self.source).len(),
    {
        let mut p: u32 = from;
        loop
            invariant
                self.wf(),
                in_source(trees(old(out)@), utf8(self.source).len() as int) ==> in_source(
                    trees(out@),
                    utf8(self.source).len() as int,
                ),
                whole(trees(old(out)@)) ==> whole(trees(out@)),
                keeps_first(trees(old(out)@), trees(out@)),
                from <= p <= utf8(self.source).len(),
                e <= utf8(self.source).len(),
                bindings(self.input(), trees(out@), p as int, e as int) == bindings(
                    self.input(),
                    trees(old(out)@),
                    from as int,
                    e as int,
                ),
            decreases utf8(self.source).len() - p,
        {
            match self.ask(JsAsk::Binding, p, e) {
                Some(JsAnswer::Binding { span }) => {
                    push_leaf(out, NodeKind::Binding, span.start, span.end);
                    p = self.step(p, span.end);
                },
                Some(JsAnswer::Nothing) => {
                    return goes(e);
                },
                _ => {
                    return halts(p, self.refusal(JsAsk::Binding, p, e));
                },
            }
        }
    }

    /// Read the parenthesised expression whose `(` stands at `open`.
    fn parse_paren(&self, open: u32) -> (code: (Vec<Node>, Ended))
        requires
            self.wf(),
            open <= utf8(self.source).len(),
        ensures
            ended(code.0@, code.1) == paren(self.input(), self.end(), open as int),
            is_new(self.input(), code.1.stop),
            in_source(trees(code.0@), utf8(self.source).len() as int),
            code.1.stop is None ==> whole(trees(code.0@)),
            code.1.at <= utf8(self.source).len(),
            code.1.stop is None ==> code.0@.len() == 1,
        decreases utf8(self.source).len() + 2 - open, 8int,
    {
        let end: u32 = self.stop();
        if open as usize >= self.source.len() {
            return (no_nodes(), fails(open, FaultKind::ExpectedParen, open, open));
        }
        let (inner, r) = self.parse_js(JsAsk::Expression, open + 1);
        if r.stop.is_some() {
            return (inner, r);
        }
        match self.ask(JsAsk::Token, r.at, end) {
            Some(JsAnswer::Token { span, kind: _ }) => {
                if self.byte(span.start) == Some(RPAREN) {
                    (inner, goes(span.end))
                } else {
                    (inner, fails(r.at, FaultKind::ExpectedParen, span.start, span.end))
                }
            },
            Some(JsAnswer::Nothing) => (inner, fails(r.at, FaultKind::ExpectedParen, end, end)),
            _ => (inner, halts(r.at, self.refusal(JsAsk::Token, r.at, end))),
        }
    }

    /// Read the children of the braced body whose `{` stands at `open`.
    fn parse_braced_body(&self, open: u32) -> (kids: (Vec<Node>, Ended))
        requires
            self.wf(),
            open <= utf8(self.source).len(),
        ensures
            ended(kids.0@, kids.1) == braced(self.input(), self.end(), open as int),
            is_new(self.input(), kids.1.stop),
            in_source(trees(kids.0@), utf8(self.source).len() as int),
            kids.1.stop is None ==> whole(trees(kids.0@)),
            kids.1.at <= utf8(self.source).len(),
        decreases utf8(self.source).len() + 2 - open, 8int,
    {
        if open as usize >= self.source.len() {
            return (no_nodes(), fails(open, FaultKind::ExpectedBrace, open, open));
        }
        let (kids, r) = self.collect_markup(
            Frame { mode: BodyMode::Body, start: open + 1 },
            open + 1,
        );
        if r.stop.is_some() {
            (kids, r)
        } else if r.closed {
            (kids, goes(r.at))
        } else {
            let end: u32 = self.stop();
            (kids, fails(r.at, FaultKind::ExpectedBrace, end, end))
        }
    }

    /// Read the braced body whose `{` is the next token from `p` on, as a fragment.
    fn parse_branch_fragment(&self, start: u32, p: u32) -> (kids: (Vec<Node>, Ended))
        requires
            self.wf(),
            p <= utf8(self.source).len(),
            start <= utf8(self.source).len(),
        ensures
            ended(kids.0@, kids.1) == control_body(
                self.input(),
                self.end(),
                start as int,
                p as int,
            ),
            is_new(self.input(), kids.1.stop),
            in_source(trees(kids.0@), utf8(self.source).len() as int),
            kids.1.stop is None ==> whole(trees(kids.0@)),
            kids.1.at <= utf8(self.source).len(),
        decreases utf8(self.source).len() + 2 - p, 9int,
    {
        let end: u32 = self.stop();
        match self.ask(JsAsk::Token, p, end) {
            Some(JsAnswer::Token { span, kind: _ }) => {
                if self.byte(span.start) == Some(LBRACE) {
                    let (kids, r) = self.parse_braced_body(span.start);
                    let mut out = no_nodes();
                    assert(in_source(trees(out@), utf8(self.source).len() as int));
                    push_branch(&mut out, NodeKind::Fragment, start, r.at, kids);
                    assert(trees(out@) =~= seq![
                        branch(NodeKind::Fragment, start as int, r.at as int, trees(kids@)),
                    ]);
                    (out, reopened(r))
                } else {
                    (
                        no_nodes(),
                        fails(p, FaultKind::ControlExpectsBody, span.start, span.end),
                    )
                }
            },
            Some(JsAnswer::Nothing) => (
                no_nodes(),
                fails(p, FaultKind::ControlExpectsBody, end, end),
            ),
            _ => (no_nodes(), halts(p, self.refusal(JsAsk::Token, p, end))),
        }
    }

    /// Read the parenthesised expression whose `(` is the next token from `p` on.
    fn parse_paren_expression(&self, p: u32) -> (code: (Vec<Node>, Ended))
        requires
            self.wf(),
            p <= utf8(self.source).len(),
        ensures
            ended(code.0@, code.1) == control_head(self.input(), self.end(), p as int),
            is_new(self.input(), code.1.stop),
            in_source(trees(code.0@), utf8(self.source).len() as int),
            code.1.stop is None ==> whole(trees(code.0@)),
            code.1.at <= utf8(self.source).len(),
        decreases utf8(self.source).len() + 2 - p, 9int,
    {
        let end: u32 = self.stop();
        match self.ask(JsAsk::Token, p, end) {
            Some(JsAnswer::Token { span, kind: _ }) => {
                if self.byte(span.start) == Some(LPAREN) {
                    self.parse_paren(span.start)
                } else {
                    (
                        no_nodes(),
                        fails(p, FaultKind::ExpectedParen, span.start, span.end),
                    )
                }
            },
            Some(JsAnswer::Nothing) => (no_nodes(), fails(p, FaultKind::ExpectedParen, end, end)),
            _ => (no_nodes(), halts(p, self.refusal(JsAsk::Token, p, end))),
        }
    }

    /// Read `@if` or the `if` of `else if`, its keyword ending at `c`.
    fn parse_nota_if(&self, out: &mut Vec<Node>, pos: u32, c: u32) -> (r: Ended)
        requires
            self.wf(),
            c <= utf8(self.source).len(),
            pos <= utf8(self.source).len(),
        ensures
            ended(final(out)@, r) == if_form(
                self.input(),
                self.end(),
                trees(old(out)@),
                pos as int,
                c as int,
            ),
            is_new(self.input(), r.stop),
            in_source(trees(old(out)@), utf8(self.source).len() as int) ==> in_source(
                trees(final(out)@),
                utf8(self.source).len() as int,
            ),
            r.stop is None && whole(trees(old(out)@)) ==> whole(trees(final(out)@)),
            keeps_first(trees(old(out)@), trees(final(out)@)),
            r.at <= utf8(self.source).len(),
        decreases utf8(self.source).len() + 2 - c, 12int,
    {
        let (cond, head) = self.parse_paren_expression(c);
        if head.stop.is_some() {
            push_branch(out, NodeKind::If, pos, head.at, cond);
            return reopened(head);
        }
        let (then, r) = self.parse_branch_fragment(pos, self.not_before(c, head.at));
        let mut kids = cond;
        join_nodes(&mut kids, then);
        if r.stop.is_some() {
            push_branch(out, NodeKind::If, pos, r.at, kids);
            return reopened(r);
        }
        proof {
            else_after_bounds(utf8(self.source), r.at as int);
        }
        match else_peek(self.source, r.at) {
            ElsePeek::Ends => {
                push_branch(out, NodeKind::If, pos, r.at, kids);
                goes(r.at)
            },
            ElsePeek::ElseIf { if_offset } => {
                if c as usize >= self.source.len() {
                    return goes(c);
                }
                let e = self.parse_nota_if(&mut kids, if_offset, self.step(c, if_offset + 2));
                push_branch(out, NodeKind::If, pos, e.at, kids);
                reopened(e)
            },
            ElsePeek::Else { brace_offset } => {
                if c as usize >= self.source.len() {
                    return goes(c);
                }
                let (alt, e) = self.parse_braced_body(self.step(c, brace_offset));
                push_branch(&mut kids, NodeKind::Fragment, brace_offset, e.at, alt);
                push_branch(out, NodeKind::If, pos, e.at, kids);
                reopened(e)
            },
        }
    }

    /// Read `@for`, its keyword ending at `c`.
    fn parse_nota_for(&self, out: &mut Vec<Node>, pos: u32, c: u32) -> (r: Ended)
        requires
            self.wf(),
            c <= utf8(self.source).len(),
            pos <= utf8(self.source).len(),
        ensures
            ended(final(out)@, r) == for_form(
                self.input(),
                self.end(),
                trees(old(out)@),
                pos as int,
                c as int,
            ),
            is_new(self.input(), r.stop),
            in_source(trees(old(out)@), utf8(self.source).len() as int) ==> in_source(
                trees(final(out)@),
                utf8(self.source).len() as int,
            ),
            r.stop is None && whole(trees(old(out)@)) ==> whole(trees(final(out)@)),
            keeps_first(trees(old(out)@), trees(final(out)@)),
            r.at <= utf8(self.source).len(),
        decreases utf8(self.source).len() + 2 - c, 12int,
    {
        let (head, h) = self.parse_for_head(c);
        if h.stop.is_some() {
            push_branch(out, NodeKind::For, pos, h.at, head);
            return reopened(h);
        }
        let (body, r) = self.parse_branch_fragment(pos, self.not_before(c, h.at));
        let mut kids = head;
        join_nodes(&mut kids, body);
        push_branch(out, NodeKind::For, pos, r.at, kids);
        reopened(r)
    }

    /// Read `(pattern of iterable)` from `p` on.
    fn parse_for_head(&self, p: u32) -> (kids: (Vec<Node>, Ended))
        requires
            self.wf(),
            p <= utf8(self.source).len(),
        ensures
            ended(kids.0@, kids.1) == for_head(self.input(), self.end(), p as int),
            is_new(self.input(), kids.1.stop),
            in_source(trees(kids.0@), utf8(self.source).len() as int),
            kids.1.stop is None ==> whole(trees(kids.0@)),
            kids.1.at <= utf8(self.source).len(),
        decreases utf8(self.source).len() + 2 - p, 9int,
    {
        let end: u32 = self.stop();
        match self.ask(JsAsk::Token, p, end) {
            Some(JsAnswer::Token { span: open, kind: _ }) => {
                if self.byte(open.start) == Some(LPAREN) {
                    let (bind, b) = self.parse_js(JsAsk::Pattern, open.end);
                    if b.stop.is_some() {
                        (bind, b)
                    } else {
                        let mut kids = bind;
                        let from: u32 = self.not_before(open.end, b.at);
                        let r = self.parse_for_iterable(&mut kids, from);
                        (kids, r)
                    }
                } else {
                    (
                        no_nodes(),
                        fails(p, FaultKind::ExpectedParen, open.start, open.end),
                    )
                }
            },
            Some(JsAnswer::Nothing) => (no_nodes(), fails(p, FaultKind::ExpectedParen, end, end)),
            _ => (no_nodes(), halts(p, self.refusal(JsAsk::Token, p, end))),
        }
    }

    /// Read `of iterable)` from `p` on.
    fn parse_for_iterable(&self, kids: &mut Vec<Node>, p: u32) -> (r: Ended)
        requires
            self.wf(),
            p <= utf8(self.source).len(),
        ensures
            ended(final(kids)@, r) == for_iterable(
                self.input(),
                self.end(),
                trees(old(kids)@),
                p as int,
            ),
            is_new(self.input(), r.stop),
            in_source(trees(old(kids)@), utf8(self.source).len() as int) ==> in_source(
                trees(final(kids)@),
                utf8(self.source).len() as int,
            ),
            r.stop is None && whole(trees(old(kids)@)) ==> whole(trees(final(kids)@)),
            r.at <= utf8(self.source).len(),
        decreases utf8(self.source).len() + 2 - p, 8int,
    {
        let end: u32 = self.stop();
        match self.ask(JsAsk::Token, p, end) {
            Some(JsAnswer::Token { span: of, kind: _ }) => {
                if !self.is_spelled2(of, LOWER_O, LOWER_F) {
                    return fails(p, FaultKind::ForExpectsOf, of.start, of.end);
                }
                let (iter, i) = self.parse_js(JsAsk::Assignment, of.end);
                join_nodes(kids, iter);
                if i.stop.is_some() {
                    return reopened(i);
                }
                match self.ask(JsAsk::Token, i.at, end) {
                    Some(JsAnswer::Token { span: close, kind: _ }) => {
                        if self.byte(close.start) == Some(RPAREN) {
                            goes(close.end)
                        } else {
                            fails(i.at, FaultKind::ExpectedParen, close.start, close.end)
                        }
                    },
                    Some(JsAnswer::Nothing) => fails(i.at, FaultKind::ExpectedParen, end, end),
                    _ => halts(i.at, self.refusal(JsAsk::Token, i.at, end)),
                }
            },
            Some(JsAnswer::Nothing) => fails(p, FaultKind::ForExpectsOf, end, end),
            _ => halts(p, self.refusal(JsAsk::Token, p, end)),
        }
    }

    /// Read `@head: …`, its `:` at `c`.
    fn parse_colon_body(
        &self,
        region: Region,
        out: &mut Vec<Node>,
        pos: u32,
        tag: NotaTag,
        dynamic: Vec<Node>,
        props: Vec<Node>,
        c: u32,
    ) -> (r: Ended)
        requires
            self.wf(),
            pos < utf8(self.source).len(),
            c <= utf8(self.source).len(),
            in_source(trees(dynamic@), utf8(self.source).len() as int),
            whole(trees(dynamic@)),
            in_source(trees(props@), utf8(self.source).len() as int),
            whole(trees(props@)),
        ensures
            ended(final(out)@, r) == colon_element(
                self.input(),
                self.end(),
                region,
                trees(old(out)@),
                pos as int,
                tag,
                trees(dynamic@),
                trees(props@),
                c as int,
            ),
            is_new(self.input(), r.stop),
            in_source(trees(old(out)@), utf8(self.source).len() as int) ==> in_source(
                trees(final(out)@),
                utf8(self.source).len() as int,
            ),
            r.stop is None && whole(trees(old(out)@)) ==> whole(trees(final(out)@)),
            keeps_first(trees(old(out)@), trees(final(out)@)),
            r.at <= utf8(self.source).len(),
        decreases utf8(self.source).len() + 2 - c, 10int,
    {
        if c as usize >= self.source.len() {
            return goes(c);
        }
        let mode = mode_of(region);
        let indent: usize = line_indent_of(self.source, pos);
        proof {
            indent_bounds(utf8(self.source), pos as int);
        }
        let (start, full) = colon_block_extent(
            self.source,
            c + 1,
            indent,
            mode == BodyMode::Body,
        );
        let stop: u32 = clip_to(mode, full);
        let first: u32 = self.step(c, next_line_start(self.source, start));
        let mut all = props;
        let lines = self.collect_prop_lines(&mut all, first, stop);
        if lines.stop.is_some() {
            push_element(out, tag, BodyForm::Colon, pos, stop, all, no_nodes(), dynamic);
            return reopened(lines);
        }
        let from: u32 = if lines.at > first {
            if self.byte(lines.at - 1) == Some(NEWLINE) {
                lines.at - 1
            } else {
                lines.at
            }
        } else {
            start
        };
        let (kids, r) = self.collect_markup_range(from, stop, self.step(c, from));
        push_element(out, tag, BodyForm::Colon, pos, stop, all, kids, dynamic);
        Ended { at: stop, closed: false, stop: r.stop }
    }

    /// Read the children of the range from `start` to `stop`.
    fn collect_markup_range(&self, start: u32, stop: u32, p: u32) -> (kids: (Vec<Node>, Ended))
        requires
            self.wf(),
            p <= utf8(self.source).len(),
        ensures
            ended(kids.0@, kids.1) == range(
                self.input(),
                self.end(),
                start as int,
                stop as int,
                p as int,
            ),
            is_new(self.input(), kids.1.stop),
            in_source(trees(kids.0@), utf8(self.source).len() as int),
            kids.1.stop is None ==> whole(trees(kids.0@)),
            kids.1.at <= utf8(self.source).len(),
        decreases utf8(self.source).len() + 2 - p, 19int,
    {
        self.collect_markup(Frame { mode: BodyMode::Bounded { end: stop }, start }, p)
    }

    /// Read the properties on the `|` lines from `from` on, before `stop`.
    fn collect_prop_lines(&self, out: &mut Vec<Node>, from: u32, stop: u32) -> (r: Ended)
        requires
            self.wf(),
            from <= utf8(self.source).len(),
        ensures
            ended(final(out)@, r) == prop_lines(
                self.input(),
                self.end(),
                trees(old(out)@),
                from as int,
                stop as int,
            ),
            is_new(self.input(), r.stop),
            in_source(trees(old(out)@), utf8(self.source).len() as int) ==> in_source(
                trees(final(out)@),
                utf8(self.source).len() as int,
            ),
            r.stop is None && whole(trees(old(out)@)) ==> whole(trees(final(out)@)),
            keeps_first(trees(old(out)@), trees(final(out)@)),
            r.at <= utf8(self.source).len(),
        decreases utf8(self.source).len() + 2 - from, 11int,
    {
        let mut line: u32 = from;
        while line < stop && (line as usize) < self.source.len()
            invariant
                self.wf(),
                in_source(trees(old(out)@), utf8(self.source).len() as int) ==> in_source(
                    trees(out@),
                    utf8(self.source).len() as int,
                ),
                whole(trees(old(out)@)) ==> whole(trees(out@)),
                keeps_first(trees(old(out)@), trees(out@)),
                from <= line <= utf8(self.source).len(),
                prop_lines(self.input(), self.end(), trees(out@), line as int, stop as int)
                    == prop_lines(
                    self.input(),
                    self.end(),
                    trees(old(out)@),
                    from as int,
                    stop as int,
                ),
            decreases utf8(self.source).len() - line,
        {
            match colon_prop_line_at(self.source, line) {
                Some(first) => {
                    let next: u32 = next_line_start(self.source, line);
                    let r = self.parse_pipe_prop_line(out, self.step(line, first), next);
                    if r.stop.is_some() {
                        return r;
                    }
                    line = self.step(line, next);
                },
                None => {
                    return goes(line);
                },
            }
        }
        goes(line)
    }

    /// Read the property entries from `from` on that start before `line_stop`.
    fn parse_pipe_prop_line(&self, out: &mut Vec<Node>, from: u32, line_stop: u32) -> (r: Ended)
        requires
            self.wf(),
            from <= utf8(self.source).len(),
        ensures
            ended(final(out)@, r) == line_entries(
                self.input(),
                self.end(),
                trees(old(out)@),
                from as int,
                line_stop as int,
            ),
            is_new(self.input(), r.stop),
            in_source(trees(old(out)@), utf8(self.source).len() as int) ==> in_source(
                trees(final(out)@),
                utf8(self.source).len() as int,
            ),
            r.stop is None && whole(trees(old(out)@)) ==> whole(trees(final(out)@)),
            keeps_first(trees(old(out)@), trees(final(out)@)),
            r.at <= utf8(self.source).len(),
        decreases utf8(self.source).len() + 2 - from, 9int,
    {
        let end: u32 = self.stop();
        let mut p: u32 = from;
        loop
            invariant
                self.wf(),
                in_source(trees(old(out)@), utf8(self.source).len() as int) ==> in_source(
                    trees(out@),
                    utf8(self.source).len() as int,
                ),
                whole(trees(old(out)@)) ==> whole(trees(out@)),
                keeps_first(trees(old(out)@), trees(out@)),
                end == self.end(),
                from <= p <= utf8(self.source).len(),
                line_entries(self.input(), self.end(), trees(out@), p as int, line_stop as int)
                    == line_entries(
                    self.input(),
                    self.end(),
                    trees(old(out)@),
                    from as int,
                    line_stop as int,
                ),
            decreases utf8(self.source).len() - p,
        {
            match self.ask(JsAsk::Token, p, end) {
                Some(JsAnswer::Token { span, kind }) => {
                    if span.start >= line_stop {
                        return goes(p);
                    }
                    let r = self.parse_prop_or_spread(out, span, kind);
                    if r.stop.is_some() {
                        return r;
                    }
                    match self.ask(JsAsk::Token, r.at, end) {
                        Some(JsAnswer::Token { span: next, kind: _ }) => {
                            if self.byte(next.start) != Some(COMMA) {
                                return goes(r.at);
                            }
                            p = self.step(p, next.end);
                        },
                        Some(JsAnswer::Nothing) => {
                            return goes(r.at);
                        },
                        _ => {
                            return halts(r.at, self.refusal(JsAsk::Token, r.at, end));
                        },
                    }
                },
                Some(JsAnswer::Nothing) => {
                    return goes(p);
                },
                _ => {
                    return halts(p, self.refusal(JsAsk::Token, p, end));
                },
            }
        }
    }
}

impl<'a> Scope<'a> {
    /// Read `@head|{…}|`, its `|` at `c`.
    fn parse_verbatim_element(
        &self,
        out: &mut Vec<Node>,
        pos: u32,
        tag: NotaTag,
        dynamic: Vec<Node>,
        props: Vec<Node>,
        c: u32,
    ) -> (r: Ended)
        requires
            self.wf(),
            c <= utf8(self.source).len(),
            pos <= utf8(self.source).len(),
            in_source(trees(dynamic@), utf8(self.source).len() as int),
            whole(trees(dynamic@)),
            in_source(trees(props@), utf8(self.source).len() as int),
            whole(trees(props@)),
        ensures
            ended(final(out)@, r) == verbatim_element(
                self.input(),
                self.end(),
                trees(old(out)@),
                pos as int,
                tag,
                trees(dynamic@),
                trees(props@),
                c as int,
            ),
            is_new(self.input(), r.stop),
            in_source(trees(old(out)@), utf8(self.source).len() as int) ==> in_source(
                trees(final(out)@),
                utf8(self.source).len() as int,
            ),
            r.stop is None && whole(trees(old(out)@)) ==> whole(trees(final(out)@)),
            keeps_first(trees(old(out)@), trees(final(out)@)),
            r.at <= utf8(self.source).len(),
        decreases utf8(self.source).len() + 2 - c, 10int,
    {
        if c as usize + 2 > self.source.len() {
            return goes(c);
        }
        let start: u32 = if get(self.view.as_bytes(), c as usize + 2) == Some(NEWLINE) {
            c + 3
        } else {
            c + 2
        };
        let (parts, r) = self.collect_verbatim_body(start, self.step(c, start));
        push_element(out, tag, BodyForm::Verbatim, pos, r.at, props, parts, dynamic);
        reopened(r)
    }

    /// Read the raw runs and armed forms of a verbatim body.
    fn collect_verbatim_body(&self, start: u32, from: u32) -> (parts: (Vec<Node>, Ended))
        requires
            self.wf(),
            from <= utf8(self.source).len(),
        ensures
            ended(parts.0@, parts.1) == verbatim_parts(
                self.input(),
                self.end(),
                Seq::empty(),
                start as int,
                from as int,
            ),
            is_new(self.input(), parts.1.stop),
            in_source(trees(parts.0@), utf8(self.source).len() as int),
            parts.1.stop is None ==> whole(trees(parts.0@)),
            parts.1.at <= utf8(self.source).len(),
        decreases utf8(self.source).len() + 2 - from, 9int,
    {
        let ghost s = utf8(self.source);
        let mut out = no_nodes();
        let mut p: u32 = from;
        loop
            invariant
                self.wf(),
                in_source(trees(out@), utf8(self.source).len() as int),
                whole(trees(out@)),
                s == utf8(self.source),
                from <= p <= s.len(),
                verbatim_parts(self.input(), self.end(), trees(out@), start as int, p as int)
                    == verbatim_parts(
                    self.input(),
                    self.end(),
                    Seq::empty(),
                    start as int,
                    from as int,
                ),
            decreases s.len() - p,
        {
            proof {
                verbatim_stop_bounds(utf8(self.view), p as int);
            }
            let (run_end, boundary) = verbatim_boundary(self.view, p);
            push_raw_run(&mut out, p, run_end);
            match boundary {
                VerbatimBoundary::Close { after } => {
                    return (out, goes(after));
                },
                VerbatimBoundary::ArmedAt { at } => {
                    let r = self.nota_form(Region::Raw, &mut out, at);
                    if r.stop.is_some() {
                        return (out, r);
                    }
                    p = self.step(p, r.at);
                },
                VerbatimBoundary::Eof => {
                    return (
                        out,
                        fails(run_end, FaultKind::UnterminatedVerbatim, start, run_end),
                    );
                },
            }
        }
    }

    /// Read the raw runs and armed forms between `from` and `e`.
    fn collect_bounded_armed(&self, from: u32, e: u32) -> (parts: (Vec<Node>, Ended))
        requires
            self.wf(),
            from <= utf8(self.source).len(),
            e <= utf8(self.source).len(),
            boundary(utf8(self.source), e as int),
        ensures
            ended(parts.0@, parts.1) == bounded_parts(
                self.input(),
                Seq::empty(),
                from as int,
                e as int,
            ),
            is_new(self.input(), parts.1.stop),
            in_source(trees(parts.0@), utf8(self.source).len() as int),
            parts.1.stop is None ==> whole(trees(parts.0@)),
            parts.1.at <= utf8(self.source).len(),
        decreases utf8(self.source).len() + 2 - from, 9int,
    {
        let ghost s = utf8(self.source);
        let inner = self.clamped(e);
        let mut out = no_nodes();
        let mut p: u32 = from;
        loop
            invariant
                self.wf(),
                in_source(trees(out@), utf8(self.source).len() as int),
                whole(trees(out@)),
                inner.wf(),
                inner.input() == self.input(),
                inner.end() == e,
                s == utf8(self.source),
                s == utf8(inner.source),
                from <= p <= s.len(),
                e <= s.len(),
                bounded_parts(self.input(), trees(out@), p as int, e as int) == bounded_parts(
                    self.input(),
                    Seq::empty(),
                    from as int,
                    e as int,
                ),
            decreases s.len() - p,
        {
            proof {
                armed_stop_bounds(s, p as int, e as int);
            }
            let (run_end, boundary) = armed_boundary(self.source, p, e);
            push_raw_run(&mut out, p, run_end);
            match boundary {
                ArmedBoundary::Bound => {
                    return (out, goes(e));
                },
                ArmedBoundary::ArmedAt { at } => {
                    let r = inner.nota_form(Region::Raw, &mut out, at);
                    if r.stop.is_some() {
                        return (out, r);
                    }
                    if r.at > e {
                        return (
                            out,
                            fails(r.at, FaultKind::ArmedFormOverruns, run_end, r.at),
                        );
                    }
                    p = self.step(p, r.at);
                },
            }
        }
    }

    /// Read the children of a markup body from `start` on.
    fn collect_markup(&self, f: Frame, start: u32) -> (kids: (Vec<Node>, Ended))
        requires
            self.wf(),
            start <= utf8(self.source).len(),
        ensures
            ended(kids.0@, kids.1) == body(self.input(), self.end(), f, start as int),
            is_new(self.input(), kids.1.stop),
            in_source(trees(kids.0@), utf8(self.source).len() as int),
            kids.1.stop is None ==> whole(trees(kids.0@)),
            keeps_first(
                line_starts(self.input(), self.end(), f, Seq::empty(), start as int, 0).nodes,
                trees(kids.0@),
            ),
            kids.1.at <= utf8(self.source).len(),
        decreases utf8(self.source).len() + 2 - start, 18int,
    {
        let mut out = no_nodes();
        let lead = self.consume_line_start_constructs(f, &mut out, start, 0);
        if lead.stop.is_some() {
            return (out, lead);
        }
        let r = self.collect_markup_inner(f, &mut out, self.not_before(start, lead.at));
        (out, r)
    }

    /// Read the children of a markup body from `start` on, past its line start: the loop shared by
    /// braced bodies, the document and bounded ranges. Balanced braces are literal text, and `\n`
    /// stays in the text.
    fn collect_markup_inner(&self, f: Frame, out: &mut Vec<Node>, start: u32) -> (r: Ended)
        requires
            self.wf(),
            start <= utf8(self.source).len(),
        ensures
            ended(final(out)@, r) == collect(
                self.input(),
                self.end(),
                f,
                trees(old(out)@),
                start as int,
                0,
            ),
            is_new(self.input(), r.stop),
            in_source(trees(old(out)@), utf8(self.source).len() as int) ==> in_source(
                trees(final(out)@),
                utf8(self.source).len() as int,
            ),
            r.stop is None && whole(trees(old(out)@)) ==> whole(trees(final(out)@)),
            keeps_first(trees(old(out)@), trees(final(out)@)),
            r.at <= utf8(self.source).len(),
        decreases utf8(self.source).len() + 2 - start, 16int,
    {
        let end: u32 = self.stop();
        let mut pos: u32 = start;
        let mut depth: u32 = 0;
        while pos < end && before_bound(f.mode, pos)
            invariant
                self.wf(),
                in_source(trees(old(out)@), utf8(self.source).len() as int) ==> in_source(
                    trees(out@),
                    utf8(self.source).len() as int,
                ),
                whole(trees(old(out)@)) ==> whole(trees(out@)),
                keeps_first(trees(old(out)@), trees(out@)),
                end == self.end(),
                start <= pos <= utf8(self.source).len(),
                depth <= pos - start,
                collect(self.input(), self.end(), f, trees(out@), pos as int, depth as int)
                    == collect(
                    self.input(),
                    self.end(),
                    f,
                    trees(old(out)@),
                    start as int,
                    0,
                ),
            decreases utf8(self.source).len() - pos,
        {
            let kind = next_nota_child(self.view, pos).kind;
            if kind == Kind::RCurly && depth == 0 && f.mode == BodyMode::Body {
                return Ended { at: pos + 1, closed: true, stop: None };
            }
            let r = self.parse_child(f, out, pos, depth);
            if r.stop.is_some() {
                return r;
            }
            if kind == Kind::LCurly {
                depth = depth + 1;
            } else if kind == Kind::RCurly && depth > 0 {
                depth = depth - 1;
            }
            pos = self.step(pos, r.at);
        }
        goes(pos)
    }

    /// Read the child of a markup body at `pos`.
    fn parse_child(&self, f: Frame, out: &mut Vec<Node>, pos: u32, depth: u32) -> (r: Ended)
        requires
            self.wf(),
            pos < self.end(),
        ensures
            ended(final(out)@, r) == child(
                self.input(),
                self.end(),
                f,
                trees(old(out)@),
                pos as int,
                depth as int,
            ),
            is_new(self.input(), r.stop),
            in_source(trees(old(out)@), utf8(self.source).len() as int) ==> in_source(
                trees(final(out)@),
                utf8(self.source).len() as int,
            ),
            r.stop is None && whole(trees(old(out)@)) ==> whole(trees(final(out)@)),
            keeps_first(trees(old(out)@), trees(final(out)@)),
            r.at <= utf8(self.source).len(),
        decreases utf8(self.source).len() + 2 - pos, 15int,
    {
        let ghost v = utf8(self.view);
        let token = next_nota_child(self.view, pos);
        proof {
            token_bounds(v, pos as int);
        }
        match token.kind {
            Kind::NotaNewline => {
                push_text(out, pos, pos + 1);
                self.consume_line_start_constructs(f, out, pos + 1, depth)
            },
            Kind::At => self.parse_form_child(f, out, pos, depth),
            Kind::LBrack => self.parse_bracket_child(f, out, pos, depth),
            Kind::Slash => self.parse_nota_comment(f, out, pos, depth),
            Kind::LAngle => self.parse_label_sugar(f, out, pos),
            Kind::Amp => self.parse_ref_sugar(f, out, pos),
            Kind::Bang => self.parse_image_or_literal(f, out, pos),
            _ => self.parse_inline(f, out, pos),
        }
    }

    /// Read the `@`-form at `pos`, and what opens at the line start it may end at.
    fn parse_form_child(&self, f: Frame, out: &mut Vec<Node>, pos: u32, depth: u32) -> (r: Ended)
        requires
            self.wf(),
            pos < self.end(),
        ensures
            ended(final(out)@, r) == form_child(
                self.input(),
                self.end(),
                f,
                trees(old(out)@),
                pos as int,
                depth as int,
            ),
            is_new(self.input(), r.stop),
            in_source(trees(old(out)@), utf8(self.source).len() as int) ==> in_source(
                trees(final(out)@),
                utf8(self.source).len() as int,
            ),
            r.stop is None && whole(trees(old(out)@)) ==> whole(trees(final(out)@)),
            keeps_first(trees(old(out)@), trees(final(out)@)),
            r.at <= utf8(self.source).len(),
        decreases utf8(self.source).len() + 2 - pos, 14int,
    {
        let r = self.nota_form(Region::Markup { frame: f }, out, pos);
        self.consume_line_start_after_form(f, out, r, pos, depth)
    }

    /// Read the `[` at `pos`, and what opens at the line start it may end at.
    fn parse_bracket_child(&self, f: Frame, out: &mut Vec<Node>, pos: u32, depth: u32) -> (r: Ended)
        requires
            self.wf(),
            pos < self.end(),
        ensures
            ended(final(out)@, r) == bracket_child(
                self.input(),
                self.end(),
                f,
                trees(old(out)@),
                pos as int,
                depth as int,
            ),
            is_new(self.input(), r.stop),
            in_source(trees(old(out)@), utf8(self.source).len() as int) ==> in_source(
                trees(final(out)@),
                utf8(self.source).len() as int,
            ),
            r.stop is None && whole(trees(old(out)@)) ==> whole(trees(final(out)@)),
            keeps_first(trees(old(out)@), trees(final(out)@)),
            r.at <= utf8(self.source).len(),
        decreases utf8(self.source).len() + 2 - pos, 14int,
    {
        let r = self.parse_bracket_sugar(f, out, pos, f.mode == BodyMode::Body && depth == 0);
        self.consume_line_start_after_form(f, out, r, pos, depth)
    }

    /// Read the emphasis, raw span, escape or literal text at `pos`.
    fn parse_inline(&self, f: Frame, out: &mut Vec<Node>, pos: u32) -> (r: Ended)
        requires
            self.wf(),
            pos < self.end(),
        ensures
            ended(final(out)@, r) == inline_span(
                self.input(),
                self.end(),
                f,
                trees(old(out)@),
                pos as int,
            ),
            is_new(self.input(), r.stop),
            in_source(trees(old(out)@), utf8(self.source).len() as int) ==> in_source(
                trees(final(out)@),
                utf8(self.source).len() as int,
            ),
            r.stop is None && whole(trees(old(out)@)) ==> whole(trees(final(out)@)),
            keeps_first(trees(old(out)@), trees(final(out)@)),
            r.at <= utf8(self.source).len(),
        decreases utf8(self.source).len() + 2 - pos, 14int,
    {
        let ghost v = utf8(self.view);
        let token = next_nota_child(self.view, pos);
        proof {
            token_bounds(v, pos as int);
        }
        match token.kind {
            Kind::Star => self.parse_emphasis(out, pos, STAR, NotaEmphasisMarker::Strong),
            Kind::NotaUnderscore => self.parse_emphasis(out, pos, UNDERSCORE, NotaEmphasisMarker::Em),
            Kind::Tilde => self.parse_strike(out, pos),
            Kind::NotaBacktick => self.parse_code_or_literal(out, pos),
            Kind::NotaDollar => self.parse_math_or_literal(out, pos),
            Kind::NotaBackslash => {
                proof {
                    utf8_valid(self.view);
                    ascii_then_boundary(v, pos as int);
                }
                let span = escape_span(self.view, pos);
                push_text(out, span.start, span.end);
                goes(span.end)
            },
            _ => {
                push_text(out, pos, clip_to(f.mode, token.end));
                goes(token.end)
            },
        }
    }

    /// After a form that ended where a line starts, read the constructs of that line start.
    fn consume_line_start_after_form(
        &self,
        f: Frame,
        out: &mut Vec<Node>,
        r: Ended,
        pos: u32,
        depth: u32,
    ) -> (after: Ended)
        requires
            self.wf(),
            pos < utf8(self.source).len(),
            r.at <= utf8(self.source).len(),
        ensures
            ended(final(out)@, after) == after_form(
                self.input(),
                self.end(),
                f,
                ended(old(out)@, r),
                pos as int,
                depth as int,
            ),
            is_new(self.input(), r.stop) ==> is_new(self.input(), after.stop),
            in_source(trees(old(out)@), utf8(self.source).len() as int) ==> in_source(
                trees(final(out)@),
                utf8(self.source).len() as int,
            ),
            after.stop is None && whole(trees(old(out)@)) ==> whole(trees(final(out)@)),
            keeps_first(trees(old(out)@), trees(final(out)@)),
            after.at <= utf8(self.source).len(),
        decreases utf8(self.source).len() + 2 - pos, 13int,
    {
        if r.stop.is_none() && r.at > 0 && self.byte(r.at - 1) == Some(NEWLINE) {
            self.consume_line_start_constructs(f, out, self.step(pos, r.at), depth)
        } else {
            r
        }
    }

    /// Read emphasis opened by the `*` or `_` at `pos`; without a close the marker is text.
    fn parse_emphasis(
        &self,
        out: &mut Vec<Node>,
        pos: u32,
        marker: u8,
        which: NotaEmphasisMarker,
    ) -> (r: Ended)
        requires
            self.wf(),
            pos < self.end(),
        ensures
            ended(final(out)@, r) == emphasis(
                self.input(),
                self.end(),
                trees(old(out)@),
                pos as int,
                marker,
                1,
                which,
            ),
            is_new(self.input(), r.stop),
            in_source(trees(old(out)@), utf8(self.source).len() as int) ==> in_source(
                trees(final(out)@),
                utf8(self.source).len() as int,
            ),
            r.stop is None && whole(trees(old(out)@)) ==> whole(trees(final(out)@)),
            keeps_first(trees(old(out)@), trees(final(out)@)),
            r.at <= utf8(self.source).len(),
        decreases utf8(self.source).len() + 2 - pos, 13int,
    {
        proof {
            span_close_on_line(utf8(self.view), pos as int, marker, 1);
            next_line_bounds(utf8(self.view), pos as int);
        }
        match find_emphasis_close(self.view, pos, marker) {
            Some(close) => {
                let (kids, r) = self.collect_markup_range(
                    pos + 1,
                    close,
                    self.step(pos, pos + 1),
                );
                push_branch(out, NodeKind::Emphasis { marker: which }, pos, close + 1, kids);
                Ended { at: close + 1, closed: false, stop: r.stop }
            },
            None => {
                push_text(out, pos, pos + 1);
                goes(pos + 1)
            },
        }
    }

    /// Read strikethrough opened by the `~~` at `pos`; without a close both bytes are text.
    fn parse_strike(&self, out: &mut Vec<Node>, pos: u32) -> (r: Ended)
        requires
            self.wf(),
            pos + 1 < self.end(),
            utf8(self.view)[pos + 1] == TILDE,
        ensures
            ended(final(out)@, r) == emphasis(
                self.input(),
                self.end(),
                trees(old(out)@),
                pos as int,
                TILDE,
                2,
                NotaEmphasisMarker::Strike,
            ),
            is_new(self.input(), r.stop),
            in_source(trees(old(out)@), utf8(self.source).len() as int) ==> in_source(
                trees(final(out)@),
                utf8(self.source).len() as int,
            ),
            r.stop is None && whole(trees(old(out)@)) ==> whole(trees(final(out)@)),
            keeps_first(trees(old(out)@), trees(final(out)@)),
            r.at <= utf8(self.source).len(),
        decreases utf8(self.source).len() + 2 - pos, 13int,
    {
        proof {
            span_close_on_line(utf8(self.view), pos as int, TILDE, 2);
            next_line_bounds(utf8(self.view), pos as int);
            crate::emphasis::marker_close_bounds(
                utf8(self.view),
                pos + 2,
                0,
                pos + 2,
                TILDE,
                2,
                line_end(utf8(self.view), pos as int),
            );
        }
        match find_strike_close(self.view, pos) {
            Some(close) => {
                let (kids, r) = self.collect_markup_range(
                    pos + 2,
                    close,
                    self.step(pos, pos + 2),
                );
                push_branch(
                    out,
                    NodeKind::Emphasis { marker: NotaEmphasisMarker::Strike },
                    pos,
                    close + 2,
                    kids,
                );
                Ended { at: close + 2, closed: false, stop: r.stop }
            },
            None => {
                push_text(out, pos, pos + 2);
                goes(pos + 2)
            },
        }
    }

    /// Read a code span opened at `pos`; without a close its backticks are text.
    fn parse_code_or_literal(&self, out: &mut Vec<Node>, pos: u32) -> (r: Ended)
        requires
            self.wf(),
            pos < self.end(),
            utf8(self.view)[pos as int] == BACKTICK,
        ensures
            ended(final(out)@, r) == code(
                self.input(),
                self.end(),
                trees(old(out)@),
                pos as int,
            ),
            is_new(self.input(), r.stop),
            in_source(trees(old(out)@), utf8(self.source).len() as int) ==> in_source(
                trees(final(out)@),
                utf8(self.source).len() as int,
            ),
            r.stop is None && whole(trees(old(out)@)) ==> whole(trees(final(out)@)),
            keeps_first(trees(old(out)@), trees(final(out)@)),
            r.at <= utf8(self.source).len(),
        decreases utf8(self.source).len() + 2 - pos, 13int,
    {
        proof {
            utf8_valid(self.view);
            code_span_bounds(utf8(self.view), pos as int);
            code_content_boundary(utf8(self.view), pos as int);
        }
        match lex_code_span(self.view, pos) {
            CodeScan::Code { span, is_block, lang, content, resume } => {
                let (parts, r) = self.collect_bounded_armed(
                    self.step(pos, content.start),
                    content.end,
                );
                push_branch(
                    out,
                    NodeKind::Code { is_block, lang },
                    span.start,
                    span.end,
                    parts,
                );
                Ended { at: resume, closed: false, stop: r.stop }
            },
            CodeScan::Literal { resume } => {
                push_text(out, pos, resume);
                goes(resume)
            },
        }
    }

    /// Read a math span opened at `pos`; without a close its dollars are text.
    fn parse_math_or_literal(&self, out: &mut Vec<Node>, pos: u32) -> (r: Ended)
        requires
            self.wf(),
            pos < self.end(),
            utf8(self.view)[pos as int] == DOLLAR,
        ensures
            ended(final(out)@, r) == math(
                self.input(),
                self.end(),
                trees(old(out)@),
                pos as int,
            ),
            is_new(self.input(), r.stop),
            in_source(trees(old(out)@), utf8(self.source).len() as int) ==> in_source(
                trees(final(out)@),
                utf8(self.source).len() as int,
            ),
            r.stop is None && whole(trees(old(out)@)) ==> whole(trees(final(out)@)),
            keeps_first(trees(old(out)@), trees(final(out)@)),
            r.at <= utf8(self.source).len(),
        decreases utf8(self.source).len() + 2 - pos, 13int,
    {
        proof {
            utf8_valid(self.view);
            math_span_bounds(utf8(self.view), pos as int);
            math_content_boundary(utf8(self.view), pos as int);
        }
        match lex_math_span(self.view, pos) {
            MathScan::Math { span, is_block, content, resume } => {
                let (parts, r) = self.collect_bounded_armed(
                    self.step(pos, content.start),
                    content.end,
                );
                push_branch(out, NodeKind::Math { is_block }, span.start, span.end, parts);
                Ended { at: resume, closed: false, stop: r.stop }
            },
            MathScan::Literal { resume } => {
                push_text(out, pos, resume);
                goes(resume)
            },
        }
    }

    /// May `<` or `&` at `pos` fire?
    fn docstate_guard_ok(&self, f: Frame, pos: u32) -> (yes: bool)
        ensures
            yes == sugar_fires(utf8(self.source), f, pos as int),
    {
        pos == f.start || docstate_left_guard(self.source, pos)
    }

    /// Read `<label>` at `pos`, or a literal `<`.
    fn parse_label_sugar(&self, f: Frame, out: &mut Vec<Node>, pos: u32) -> (r: Ended)
        requires
            self.wf(),
            pos < self.end(),
        ensures
            ended(final(out)@, r) == label(
                self.input(),
                self.end(),
                f,
                trees(old(out)@),
                pos as int,
            ),
            is_new(self.input(), r.stop),
            in_source(trees(old(out)@), utf8(self.source).len() as int) ==> in_source(
                trees(final(out)@),
                utf8(self.source).len() as int,
            ),
            r.stop is None && whole(trees(old(out)@)) ==> whole(trees(final(out)@)),
            keeps_first(trees(old(out)@), trees(final(out)@)),
            r.at <= utf8(self.source).len(),
    {
        proof {
            reveal(label);
        }
        let limit: u32 = clip_to(f.mode, self.stop());
        if self.docstate_guard_ok(f, pos) {
            if let Some(name) = label_sugar_at(self.view, pos, limit) {
                push_leaf(
                    out,
                    NodeKind::DocState { sugar: NotaDocStateKind::Label, label: name },
                    pos,
                    name.end + 1,
                );
                return goes(name.end + 1);
            }
        }
        push_text(out, pos, pos + 1);
        goes(pos + 1)
    }

    /// Read `&ref` at `pos`, or a literal `&`.
    fn parse_ref_sugar(&self, f: Frame, out: &mut Vec<Node>, pos: u32) -> (r: Ended)
        requires
            self.wf(),
            pos < self.end(),
        ensures
            ended(final(out)@, r) == refer(
                self.input(),
                self.end(),
                f,
                trees(old(out)@),
                pos as int,
            ),
            is_new(self.input(), r.stop),
            in_source(trees(old(out)@), utf8(self.source).len() as int) ==> in_source(
                trees(final(out)@),
                utf8(self.source).len() as int,
            ),
            r.stop is None && whole(trees(old(out)@)) ==> whole(trees(final(out)@)),
            keeps_first(trees(old(out)@), trees(final(out)@)),
            r.at <= utf8(self.source).len(),
        decreases utf8(self.source).len() + 2 - pos, 14int,
    {
        let limit: u32 = clip_to(f.mode, self.stop());
        if self.docstate_guard_ok(f, pos) {
            if let Some(name) = ref_sugar_at(self.view, pos, limit) {
                let glued = self.byte(name.end);
                if name.end < limit && (glued == Some(LBRACK) || glued == Some(LBRACE)) {
                    return self.parse_ref_postfix(out, pos, name);
                }
                push_leaf(
                    out,
                    NodeKind::DocState { sugar: NotaDocStateKind::Ref, label: name },
                    pos,
                    name.end,
                );
                return goes(name.end);
            }
        }
        push_text(out, pos, pos + 1);
        goes(pos + 1)
    }

    /// Read a `[` at `pos`: a footnote, a link, or a literal `[`.
    fn parse_bracket_sugar(&self, f: Frame, out: &mut Vec<Node>, pos: u32, closer: bool) -> (r: Ended)
        requires
            self.wf(),
            pos < self.end(),
        ensures
            ended(final(out)@, r) == bracket(
                self.input(),
                self.end(),
                f,
                trees(old(out)@),
                pos as int,
                closer,
            ),
            is_new(self.input(), r.stop),
            in_source(trees(old(out)@), utf8(self.source).len() as int) ==> in_source(
                trees(final(out)@),
                utf8(self.source).len() as int,
            ),
            r.stop is None && whole(trees(old(out)@)) ==> whole(trees(final(out)@)),
            keeps_first(trees(old(out)@), trees(final(out)@)),
            r.at <= utf8(self.source).len(),
        decreases utf8(self.source).len() + 2 - pos, 13int,
    {
        let limit: u32 = clip_to(f.mode, self.stop());
        if let Some(name) = footnote_sugar_at(self.view, pos, limit) {
            let after: u32 = name.end + 1;
            if after < limit && self.byte(after) == Some(COLON) && at_line_start_in_frame(
                self.source,
                pos,
                f.start,
            ) {
                return self.parse_footnote_text(f, out, pos, name);
            }
            push_leaf(
                out,
                NodeKind::DocState { sugar: NotaDocStateKind::FootnoteMark, label: name },
                pos,
                after,
            );
            return goes(after);
        }
        match lex_link_span(self.view, pos, limit) {
            Some(link) => {
                let (kids, r) = self.collect_markup_range(
                    link.text.start,
                    link.text.end,
                    self.step(pos, link.text.start),
                );
                push_branch(out, NodeKind::Link { url: link.url }, pos, link.resume, kids);
                Ended { at: link.resume, closed: false, stop: r.stop }
            },
            None => {
                if byte_at(self.view, pos) == Some(LBRACK) && attrs_group_at(self.view, pos, limit, closer)
                    .is_some() {
                    self.parse_attrs(out, pos)
                } else {
                    push_text(out, pos, pos + 1);
                    goes(pos + 1)
                }
            },
        }
    }

    /// Read the property groups and the body glued to the reference at `pos`.
    fn parse_ref_postfix(&self, out: &mut Vec<Node>, pos: u32, name: Span) -> (r: Ended)
        requires
            self.wf(),
            pos < utf8(self.source).len(),
        ensures
            ended(final(out)@, r) == postfix(
                self.input(),
                self.end(),
                trees(old(out)@),
                pos as int,
                name,
            ),
            is_new(self.input(), r.stop),
            in_source(trees(old(out)@), utf8(self.source).len() as int) ==> in_source(
                trees(final(out)@),
                utf8(self.source).len() as int,
            ),
            r.stop is None && whole(trees(old(out)@)) ==> whole(trees(final(out)@)),
            keeps_first(trees(old(out)@), trees(final(out)@)),
            r.at <= utf8(self.source).len(),
        decreases utf8(self.source).len() + 2 - pos, 13int,
    {
        let c: u32 = self.step(pos, name.end);
        let mut props = no_nodes();
        let groups = self.parse_prop_groups(&mut props, c);
        if groups.stop.is_some() {
            push_doc_state(
                out,
                NotaDocStateKind::Ref,
                name,
                Span::new(pos, groups.at),
                props,
                no_nodes(),
            );
            return reopened(groups);
        }
        let b: u32 = self.not_before(c, groups.at);
        if self.byte(b) == Some(LBRACE) {
            let (kids, body) = self.parse_braced_body(b);
            push_doc_state(
                out,
                NotaDocStateKind::Ref,
                name,
                Span::new(pos, body.at),
                props,
                kids,
            );
            return reopened(body);
        }
        push_doc_state(out, NotaDocStateKind::Ref, name, Span::new(pos, b), props, no_nodes());
        goes(b)
    }

    /// Read the attributes group whose `[` stands at `pos`.
    fn parse_attrs(&self, out: &mut Vec<Node>, pos: u32) -> (r: Ended)
        requires
            self.wf(),
            pos < utf8(self.source).len(),
        ensures
            ended(final(out)@, r) == attrs(
                self.input(),
                self.end(),
                trees(old(out)@),
                pos as int,
            ),
            is_new(self.input(), r.stop),
            in_source(trees(old(out)@), utf8(self.source).len() as int) ==> in_source(
                trees(final(out)@),
                utf8(self.source).len() as int,
            ),
            r.stop is None && whole(trees(old(out)@)) ==> whole(trees(final(out)@)),
            keeps_first(trees(old(out)@), trees(final(out)@)),
            r.at <= utf8(self.source).len(),
        decreases utf8(self.source).len() + 2 - pos, 12int,
    {
        let mut kids = no_nodes();
        let r = self.parse_props_group(&mut kids, pos);
        push_branch(out, NodeKind::Attrs, pos, r.at, kids);
        reopened(r)
    }

    /// Put an attributes group that trails the children first, as properties.
    fn take_trailing_attrs(&self, kids: &mut Vec<Node>)
        ensures
            trees(final(kids)@) == hoisted(utf8(self.source), trees(old(kids)@)),
            forall|n: int| #[trigger]
                in_source(trees(old(kids)@), n) ==> in_source(trees(final(kids)@), n),
            whole(trees(old(kids)@)) ==> whole(trees(final(kids)@)),
    {
        let ghost all = trees(kids@);
        let mut n: usize = kids.len();
        while n > 0
            invariant
                n <= kids@.len(),
                all == trees(kids@),
                kids@ == old(kids)@,
                last_content(utf8(self.source), all, n as int) == last_content(
                    utf8(self.source),
                    all,
                    all.len() as int,
                ),
            decreases n,
        {
            assert(all[n - 1] == kids@[n - 1].tree());
            let filler = match kids[n - 1].kind {
                NodeKind::Comment { block: _ } => true,
                NodeKind::Text => is_white_run(
                    self.source,
                    kids[n - 1].span.start,
                    kids[n - 1].span.end,
                ),
                _ => false,
            };
            if !filler {
                if kids[n - 1].kind == NodeKind::Attrs {
                    let group = kids.remove(n - 1);
                    let ghost rest = kids@;
                    let hoisted = node(NodeKind::Props, group.span, group.kids);
                    kids.insert(0, hoisted);
                    assert(trees(kids@) =~= seq![hoisted.tree()] + all.remove(n - 1));
                    proof {
                        hoisting_stays(all, n - 1, hoisted.tree(), trees(kids@));
                    }
                }
                return ;
            }
            n = n - 1;
        }
    }

    /// Read `[^name]: …` at `pos`.
    fn parse_footnote_text(&self, f: Frame, out: &mut Vec<Node>, pos: u32, name: Span) -> (r: Ended)
        requires
            self.wf(),
            pos < utf8(self.source).len(),
            name.end + 2 <= utf8(self.source).len(),
        ensures
            ended(final(out)@, r) == footnote_text(
                self.input(),
                self.end(),
                f,
                trees(old(out)@),
                pos as int,
                name,
            ),
            is_new(self.input(), r.stop),
            in_source(trees(old(out)@), utf8(self.source).len() as int) ==> in_source(
                trees(final(out)@),
                utf8(self.source).len() as int,
            ),
            r.stop is None && whole(trees(old(out)@)) ==> whole(trees(final(out)@)),
            keeps_first(trees(old(out)@), trees(final(out)@)),
            r.at <= utf8(self.source).len(),
        decreases utf8(self.source).len() + 2 - pos, 12int,
    {
        let indent: usize = line_indent_of(self.source, pos);
        proof {
            indent_bounds(utf8(self.source), pos as int);
        }
        let (from, full) = colon_block_extent(
            self.source,
            name.end + 2,
            indent,
            f.mode == BodyMode::Body,
        );
        let stop: u32 = clip_to(f.mode, full);
        let start: u32 = min_of(from, stop);
        let (kids, r) = self.collect_markup_range(start, stop, self.step(pos, start));
        push_doc_state(
            out,
            NotaDocStateKind::FootnoteText,
            name,
            Span::new(pos, stop),
            no_nodes(),
            kids,
        );
        Ended { at: stop, closed: false, stop: r.stop }
    }

    /// Read `![alt](src)` whose `!` stands at `pos`, or a literal `!`.
    fn parse_image_or_literal(&self, f: Frame, out: &mut Vec<Node>, pos: u32) -> (r: Ended)
        requires
            self.wf(),
            pos < self.end(),
        ensures
            ended(final(out)@, r) == image(
                self.input(),
                self.end(),
                f,
                trees(old(out)@),
                pos as int,
            ),
            is_new(self.input(), r.stop),
            in_source(trees(old(out)@), utf8(self.source).len() as int) ==> in_source(
                trees(final(out)@),
                utf8(self.source).len() as int,
            ),
            r.stop is None && whole(trees(old(out)@)) ==> whole(trees(final(out)@)),
            keeps_first(trees(old(out)@), trees(final(out)@)),
            r.at <= utf8(self.source).len(),
    {
        proof {
            reveal(image);
        }
        let limit: u32 = clip_to(f.mode, self.stop());
        match lex_link_span(self.view, pos + 1, limit) {
            Some(link) => {
                push_leaf(
                    out,
                    NodeKind::Image { alt: link.text, src: link.url },
                    pos,
                    link.resume,
                );
                goes(link.resume)
            },
            None => {
                push_text(out, pos, pos + 1);
                goes(pos + 1)
            },
        }
    }

    /// Read the comment whose `/` stands at `pos`. One that has its lines to itself takes the `\n`
    /// after it along.
    fn parse_nota_comment(&self, f: Frame, out: &mut Vec<Node>, pos: u32, depth: u32) -> (r: Ended)
        requires
            self.wf(),
            pos < self.end(),
        ensures
            ended(final(out)@, r) == trivia(
                self.input(),
                self.end(),
                f,
                trees(old(out)@),
                pos as int,
                depth as int,
            ),
            is_new(self.input(), r.stop),
            in_source(trees(old(out)@), utf8(self.source).len() as int) ==> in_source(
                trees(final(out)@),
                utf8(self.source).len() as int,
            ),
            r.stop is None && whole(trees(old(out)@)) ==> whole(trees(final(out)@)),
            keeps_first(trees(old(out)@), trees(final(out)@)),
            r.at <= utf8(self.source).len(),
        decreases utf8(self.source).len() + 2 - pos, 13int,
    {
        let limit: u32 = clip_to(f.mode, self.stop());
        let scan = lex_comment(self.view, pos, limit);
        if scan.block && !scan.terminated {
            return fails(scan.end, FaultKind::UnterminatedComment, pos, scan.end);
        }
        push_leaf(out, NodeKind::Comment { block: scan.block }, pos, scan.end);
        let line: u32 = line_content_end(self.source, scan.end);
        let tail: usize = skip_class(
            self.source.as_bytes(),
            scan.end as usize,
            ByteClass::LineTail,
        );
        if at_line_start_in_frame(self.source, pos, f.start) && tail >= line as usize && line
            < limit && self.byte(line) == Some(NEWLINE) {
            self.consume_line_start_constructs(f, out, self.step(pos, line + 1), depth)
        } else {
            goes(scan.end)
        }
    }

    /// Read the constructs that open at the line start `from`.
    fn consume_line_start_constructs(
        &self,
        f: Frame,
        out: &mut Vec<Node>,
        from: u32,
        depth: u32,
    ) -> (r: Ended)
        requires
            self.wf(),
            from <= utf8(self.source).len(),
        ensures
            ended(final(out)@, r) == line_starts(
                self.input(),
                self.end(),
                f,
                trees(old(out)@),
                from as int,
                depth as int,
            ),
            is_new(self.input(), r.stop),
            in_source(trees(old(out)@), utf8(self.source).len() as int) ==> in_source(
                trees(final(out)@),
                utf8(self.source).len() as int,
            ),
            r.stop is None && whole(trees(old(out)@)) ==> whole(trees(final(out)@)),
            keeps_first(trees(old(out)@), trees(final(out)@)),
            r.at <= utf8(self.source).len(),
        decreases utf8(self.source).len() + 2 - from, 17int,
    {
        let mut p: u32 = from;
        while (p as usize) < self.source.len()
            invariant
                self.wf(),
                in_source(trees(old(out)@), utf8(self.source).len() as int) ==> in_source(
                    trees(out@),
                    utf8(self.source).len() as int,
                ),
                whole(trees(old(out)@)) ==> whole(trees(out@)),
                keeps_first(trees(old(out)@), trees(out@)),
                from <= p <= utf8(self.source).len(),
                line_starts(self.input(), self.end(), f, trees(out@), p as int, depth as int)
                    == line_starts(
                    self.input(),
                    self.end(),
                    f,
                    trees(old(out)@),
                    from as int,
                    depth as int,
                ),
            decreases utf8(self.source).len() - p,
        {
            if allows_statements(f.mode) && is_statement_line(self.source, p) {
                let r = self.collect_statements(out, p);
                if r.stop.is_some() {
                    return r;
                }
                p = self.step(p, r.at);
                continue ;
            }
            if depth != 0 || !before_bound(f.mode, p) {
                return goes(p);
            }
            if let Some(marker) = list_marker_at(self.source, p) {
                let r = self.parse_list(f, out, marker.indent, p);
                if r.stop.is_some() {
                    return r;
                }
                p = self.step(p, r.at);
                continue ;
            }
            let stop: u32 = self.sugar_line_end(p, f.mode);
            if let Some(dash) = thematic_break_at(self.source, p, stop) {
                push_leaf(out, NodeKind::ThematicBreak, dash.start, dash.end);
                p = self.step(p, stop);
                continue ;
            }
            match heading_at(self.source, p) {
                Some((level, body_start, _)) => {
                    let start: u32 = min_of(body_start, stop);
                    let (kids, r) = self.collect_markup_range(start, stop, self.step(p, start));
                    let mut body = kids;
                    self.take_trailing_attrs(&mut body);
                    push_branch(out, NodeKind::Heading { level }, p, stop, body);
                    return Ended { at: stop, closed: false, stop: r.stop };
                },
                None => {
                    return goes(p);
                },
            }
        }
        goes(p)
    }

    /// Read the list items from the line `from` on whose markers are indented by `base` or more.
    fn parse_list(&self, f: Frame, out: &mut Vec<Node>, base: u32, from: u32) -> (r: Ended)
        requires
            self.wf(),
            from <= utf8(self.source).len(),
        ensures
            ended(final(out)@, r) == list(
                self.input(),
                self.end(),
                f,
                trees(old(out)@),
                base as int,
                from as int,
            ),
            is_new(self.input(), r.stop),
            in_source(trees(old(out)@), utf8(self.source).len() as int) ==> in_source(
                trees(final(out)@),
                utf8(self.source).len() as int,
            ),
            r.stop is None && whole(trees(old(out)@)) ==> whole(trees(final(out)@)),
            keeps_first(trees(old(out)@), trees(final(out)@)),
            r.at <= utf8(self.source).len(),
        decreases utf8(self.source).len() + 2 - from, 13int,
    {
        let mut p: u32 = from;
        while (p as usize) < self.source.len()
            invariant
                self.wf(),
                in_source(trees(old(out)@), utf8(self.source).len() as int) ==> in_source(
                    trees(out@),
                    utf8(self.source).len() as int,
                ),
                whole(trees(old(out)@)) ==> whole(trees(out@)),
                keeps_first(trees(old(out)@), trees(out@)),
                from <= p <= utf8(self.source).len(),
                list(self.input(), self.end(), f, trees(out@), base as int, p as int) == list(
                    self.input(),
                    self.end(),
                    f,
                    trees(old(out)@),
                    base as int,
                    from as int,
                ),
            decreases utf8(self.source).len() - p,
        {
            match list_marker_at(self.source, p) {
                Some(m) => {
                    if m.indent < base || !before_bound(f.mode, p) {
                        return goes(p);
                    }
                    let full: u32 = line_content_end(self.source, p);
                    let line: u32 = min_of(full, self.sugar_line_end(p, f.mode));
                    let start: u32 = min_of(m.body_col, line);
                    let stop: u32 = if line < full {
                        line
                    } else {
                        clip_to(f.mode, list_item_extent(self.source, line, m.indent))
                    };
                    let (kids, r) = self.collect_markup_range(start, stop, self.step(p, start));
                    let which = if m.ordered {
                        NotaListKind::Ordered
                    } else {
                        NotaListKind::Unordered
                    };
                    let mut body = kids;
                    self.take_trailing_attrs(&mut body);
                    push_branch(out, NodeKind::ListItem { list: which }, m.offset, stop, body);
                    if r.stop.is_some() {
                        return reopened(r);
                    }
                    p = self.step(p, stop);
                },
                None => {
                    return goes(p);
                },
            }
        }
        goes(p)
    }

    /// Read the statement lines and fences from the line `from` on.
    fn collect_statements(&self, out: &mut Vec<Node>, from: u32) -> (r: Ended)
        requires
            self.wf(),
            from < utf8(self.source).len(),
            opens_statement(utf8(self.source), from as int),
        ensures
            ended(final(out)@, r) == statements(self.input(), trees(old(out)@), from as int),
            is_new(self.input(), r.stop),
            in_source(trees(old(out)@), utf8(self.source).len() as int) ==> in_source(
                trees(final(out)@),
                utf8(self.source).len() as int,
            ),
            r.stop is None && whole(trees(old(out)@)) ==> whole(trees(final(out)@)),
            keeps_first(trees(old(out)@), trees(final(out)@)),
            r.at <= utf8(self.source).len(),
        decreases utf8(self.source).len() + 2 - from, 13int,
    {
        let mut p: u32 = from;
        loop
            invariant
                self.wf(),
                in_source(trees(old(out)@), utf8(self.source).len() as int) ==> in_source(
                    trees(out@),
                    utf8(self.source).len() as int,
                ),
                whole(trees(old(out)@)) ==> whole(trees(out@)),
                keeps_first(trees(old(out)@), trees(out@)),
                from <= p < utf8(self.source).len(),
                opens_statement(utf8(self.source), p as int),
                statements(self.input(), trees(out@), p as int) == statements(
                    self.input(),
                    trees(old(out)@),
                    from as int,
                ),
            decreases utf8(self.source).len() - p,
        {
            let r = self.collect_statement_line(out, p);
            if r.stop.is_some() {
                return r;
            }
            let next: u32 = self.step(p, r.at);
            if !is_statement_line(self.source, next) {
                return goes(next);
            }
            proof {
                content_start_bounds(utf8(self.source), next as int);
            }
            p = next;
        }
    }

    /// Read the one statement line or fence at `p`.
    fn collect_statement_line(&self, out: &mut Vec<Node>, p: u32) -> (r: Ended)
        requires
            self.wf(),
            p < utf8(self.source).len(),
            opens_statement(utf8(self.source), p as int),
        ensures
            ended(final(out)@, r) == statement_line(self.input(), trees(old(out)@), p as int),
            is_new(self.input(), r.stop),
            in_source(trees(old(out)@), utf8(self.source).len() as int) ==> in_source(
                trees(final(out)@),
                utf8(self.source).len() as int,
            ),
            r.stop is None && whole(trees(old(out)@)) ==> whole(trees(final(out)@)),
            keeps_first(trees(old(out)@), trees(final(out)@)),
            r.at <= utf8(self.source).len(),
        decreases utf8(self.source).len() + 2 - p, 12int,
    {
        let ghost s = utf8(self.source);
        proof {
            utf8_valid(self.source);
            content_start_bounds(s, p as int);
            next_line_bounds(s, p as int);
        }
        match statement_kind(self.source, p) {
            Some((inner, true)) => {
                let (inner_end, after) = find_fence_close(self.source, inner);
                proof {
                    fence_close_bounds(s, next_line(s, p as int));
                    line_start_boundary(s, inner_end as int);
                }
                let r = self.clamped(inner_end).collect_fence_statements(
                    out,
                    self.step(p, inner),
                );
                if r.stop.is_some() {
                    r
                } else {
                    goes(after)
                }
            },
            Some((content, false)) => {
                if percent_line_is_empty(self.source, content) {
                    return goes(next_line_start(self.source, content));
                }
                let bound: u32 = statement_bound(self.source, content);
                proof {
                    next_line_bounds(s, content as int);
                    statement_stop_bounds(s, next_line(s, content as int));
                    line_start_boundary(s, bound as int);
                }
                let r = self.clamped(bound).collect_percent_statements(
                    out,
                    self.step(p, content),
                );
                match r.stop {
                    Some(stop) => Ended {
                        at: r.at,
                        closed: r.closed,
                        stop: Some(self.with_note(stop, bound)),
                    },
                    None => goes(next_line_start(self.source, r.at)),
                }
            },
            None => goes(p),
        }
    }

    /// The same stop, noting where a fault may come from code that ended at a blank line.
    fn with_note(&self, stop: Stop, bound: u32) -> (r: Stop)
        requires
            self.wf(),
            bound <= utf8(self.source).len(),
        ensures
            r == noted(utf8(self.source), stop, bound as int),
    {
        match stop {
            Stop::Faulty { fault } => Stop::Faulty {
                fault: Fault {
                    kind: fault.kind,
                    span: fault.span,
                    at_blank_line: (bound as usize) < self.source.len() && !is_statement_line(
                        self.source,
                        bound,
                    ),
                },
            },
            Stop::Ask { query: _ } => stop,
        }
    }

    /// What follows the statement of a `%` line that ends at `p`.
    fn following(&self, p: u32) -> (r: Follower)
        requires
            self.wf(),
            p <= utf8(self.source).len(),
        ensures
            r == follower(self.input(), p as int, self.end()),
            r is Unknown ==> (ask(self.input(), JsAsk::Token, p as int, self.end()) matches Some(a)
                ==> a is Invalid),
    {
        let line: u32 = line_content_end(self.source, p);
        match self.ask(JsAsk::Token, p, self.stop()) {
            Some(JsAnswer::Token { span, kind: _ }) => if line < span.start {
                Follower::Markup
            } else {
                Follower::Statement { at: span.start }
            },
            Some(JsAnswer::Nothing) => Follower::Markup,
            Some(JsAnswer::Invalid { at, reason: _ }) => if line < at {
                Follower::Markup
            } else {
                Follower::Unknown
            },
            _ => Follower::Unknown,
        }
    }

    /// Read the statements of a `%` line from `from` on, up to where the source is taken to end: the
    /// rest of the line is JavaScript, and a further statement follows only on the line on which the
    /// one before it ended. What the lines after it hold need not be JavaScript.
    fn collect_percent_statements(&self, out: &mut Vec<Node>, from: u32) -> (r: Ended)
        requires
            self.wf(),
            from <= utf8(self.source).len(),
        ensures
            ended(final(out)@, r) == line_statements(
                self.input(),
                trees(old(out)@),
                from as int,
                self.end(),
            ),
            is_new(self.input(), r.stop),
            in_source(trees(old(out)@), utf8(self.source).len() as int) ==> in_source(
                trees(final(out)@),
                utf8(self.source).len() as int,
            ),
            r.stop is None && whole(trees(old(out)@)) ==> whole(trees(final(out)@)),
            keeps_first(trees(old(out)@), trees(final(out)@)),
            r.at <= utf8(self.source).len(),
        decreases utf8(self.source).len() + 2 - from, 10int,
    {
        let bound: u32 = self.stop();
        let mut p: u32 = from;
        loop
            invariant
                self.wf(),
                in_source(trees(old(out)@), utf8(self.source).len() as int) ==> in_source(
                    trees(out@),
                    utf8(self.source).len() as int,
                ),
                whole(trees(old(out)@)) ==> whole(trees(out@)),
                keeps_first(trees(old(out)@), trees(out@)),
                bound == self.end(),
                from <= p <= utf8(self.source).len(),
                line_statements(self.input(), trees(out@), p as int, self.end())
                    == line_statements(
                    self.input(),
                    trees(old(out)@),
                    from as int,
                    self.end(),
                ),
            decreases utf8(self.source).len() - p,
        {
            let one = self.collect_statement(out, p);
            if one.stop.is_some() {
                return one;
            }
            match self.following(one.at) {
                Follower::Statement { at } => {
                    p = self.step(p, at);
                },
                Follower::Markup => {
                    return one;
                },
                Follower::Unknown => {
                    return halts(one.at, self.refusal(JsAsk::Token, one.at, bound));
                },
            }
        }
    }

    /// Read the statements of a fence from `from` on, up to where the source is taken to end.
    fn collect_fence_statements(&self, out: &mut Vec<Node>, from: u32) -> (r: Ended)
        requires
            self.wf(),
            from <= utf8(self.source).len(),
        ensures
            ended(final(out)@, r) == fence_statements(
                self.input(),
                trees(old(out)@),
                from as int,
                self.end(),
            ),
            is_new(self.input(), r.stop),
            in_source(trees(old(out)@), utf8(self.source).len() as int) ==> in_source(
                trees(final(out)@),
                utf8(self.source).len() as int,
            ),
            r.stop is None && whole(trees(old(out)@)) ==> whole(trees(final(out)@)),
            keeps_first(trees(old(out)@), trees(final(out)@)),
            r.at <= utf8(self.source).len(),
        decreases utf8(self.source).len() + 2 - from, 11int,
    {
        let bound: u32 = self.stop();
        let mut p: u32 = from;
        loop
            invariant
                self.wf(),
                in_source(trees(old(out)@), utf8(self.source).len() as int) ==> in_source(
                    trees(out@),
                    utf8(self.source).len() as int,
                ),
                whole(trees(old(out)@)) ==> whole(trees(out@)),
                keeps_first(trees(old(out)@), trees(out@)),
                bound == self.end(),
                from <= p <= utf8(self.source).len(),
                fence_statements(self.input(), trees(out@), p as int, self.end())
                    == fence_statements(
                    self.input(),
                    trees(old(out)@),
                    from as int,
                    self.end(),
                ),
            decreases utf8(self.source).len() - p,
        {
            match self.ask(JsAsk::Token, p, bound) {
                Some(JsAnswer::Token { span, kind: _ }) => {
                    let one = self.collect_statement(out, span.start);
                    if one.stop.is_some() {
                        return one;
                    }
                    p = self.step(p, one.at);
                },
                Some(JsAnswer::Nothing) => {
                    return goes(bound);
                },
                _ => {
                    if p >= bound {
                        return goes(bound);
                    }
                    return halts(p, self.refusal(JsAsk::Token, p, bound));
                },
            }
        }
    }

    /// Read the statement at `p`, in code that goes on to where the source is taken to end.
    fn collect_statement(&self, out: &mut Vec<Node>, p: u32) -> (r: Ended)
        requires
            self.wf(),
            p <= utf8(self.source).len(),
        ensures
            ended(final(out)@, r) == statement(
                self.input(),
                trees(old(out)@),
                p as int,
                self.end(),
            ),
            is_new(self.input(), r.stop),
            in_source(trees(old(out)@), utf8(self.source).len() as int) ==> in_source(
                trees(final(out)@),
                utf8(self.source).len() as int,
            ),
            r.stop is None && whole(trees(old(out)@)) ==> whole(trees(final(out)@)),
            keeps_first(trees(old(out)@), trees(final(out)@)),
            r.at <= utf8(self.source).len(),
            r.stop is None ==> p < r.at <= self.end(),
        decreases utf8(self.source).len() + 2 - p, 9int,
    {
        let bound: u32 = self.stop();
        match self.ask(JsAsk::Statement, p, bound) {
            Some(JsAnswer::Statement { span, class, attach }) => {
                let mut kids = no_nodes();
                let names = self.parse_bindings(&mut kids, span.start, span.end);
                if let Some(stop) = names.stop {
                    return halts(p, stop);
                }
                let forms = self.parse_islands(&mut kids, span.start, span.end);
                push_branch(
                    out,
                    NodeKind::Statement { class, attach },
                    span.start,
                    span.end,
                    kids,
                );
                Ended { at: span.end, closed: false, stop: forms.stop }
            },
            _ => halts(p, self.refusal(JsAsk::Statement, p, bound)),
        }
    }

    /// Read a whole document. Where the source is faulty, the nodes are what could be read up to
    /// the fault. Every node lies in the source, and no text is empty. A question that stops the
    /// reading is one that the table of facts does not answer, so that a caller that answers each
    /// question is never asked the same one twice.
    pub fn parse_document_body(&self) -> (document: (Vec<Node>, Ended))
        requires
            self.wf(),
            self.end() == utf8(self.source).len(),
        ensures
            ended(document.0@, document.1) == crate::grammar::document(self.input()),
            is_new(self.input(), document.1.stop),
            in_source(trees(document.0@), utf8(self.source).len() as int),
            document.1.stop is None ==> whole(trees(document.0@)),
            keeps_first(first_lines(self.input()).nodes, trees(document.0@)),
    {
        let s = self.source.as_bytes();
        let start: u32 = if get(s, 0) == Some(0xefu8) && get(s, 1) == Some(0xbbu8) && get(s, 2)
            == Some(0xbfu8) {
            3
        } else {
            0
        };
        self.collect_markup(Frame { mode: BodyMode::Document, start }, start)
    }

    /// Read the one `@`-form at `pos`, as it stands in JavaScript. A JavaScript parser measures the
    /// forms that it meets with this.
    pub fn parse_nota_form(&self, pos: u32) -> (read: (Vec<Node>, Ended))
        requires
            self.wf(),
            pos < utf8(self.source).len(),
        ensures
            ended(read.0@, read.1) == form(
                self.input(),
                self.end(),
                Region::Js,
                Seq::empty(),
                pos as int,
            ),
            is_new(self.input(), read.1.stop),
            in_source(trees(read.0@), utf8(self.source).len() as int),
            read.1.stop is None ==> whole(trees(read.0@)),
            read.1.at <= utf8(self.source).len(),
    {
        let mut out = no_nodes();
        let r = self.nota_form(Region::Js, &mut out, pos);
        (out, r)
    }
}

} // verus!
