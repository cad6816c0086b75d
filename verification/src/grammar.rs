//! The grammar: what a source reads as.
//!
//! Each function says what one construct, standing at an offset, adds to the trees read so far,
//! where reading goes on after it, and whether it stopped. The reader computes exactly this.

use vstd::prelude::*;
use crate::ascii::{
    AT_SIGN, COLON, COMMA, DOT, GREATER, LBRACE, LBRACK, LOWER_F, LOWER_I, LOWER_O, LOWER_R,
    LPAREN, NEWLINE, PIPE, RBRACK, RPAREN, STAR, TILDE, UNDERSCORE, UPPER_A, UPPER_Z,
};
use crate::blocks::{colon_extent, line_clip};
use crate::bytes::{addressable, at, next_byte, skip, ByteClass, Span};
use crate::docstate::{closed_label, footnote, left_guard, reference};
use crate::emphasis::span_close;
use crate::escapes::comment;
use crate::heads::{else_after, head_trigger, hyphen_tail, leads_line, ElsePeek, MarkupTrigger};
use crate::js::{answer, answer_answers, JsAnswer, JsAsk, JsFact, JsQuery, JsTokenKind};
use crate::lines::{block_end, content_start, indent_of, line_end, next_line};
use crate::links::{attrs_group, link_span};
use crate::raw::{
    armed_stop, code_span, math_span, verbatim_closes, verbatim_stop, CodeScan, MathScan,
};
use crate::statements::{
    empty_statement, fence_close, heading, is_fence, list_marker, opens_statement, prop_line,
    statement_stop, thematic_break,
};
use crate::token::{token_end, token_kind, Kind};
use crate::tree::{
    branch, leaf, BodyForm, ExprTier, NodeKind, NotaDocStateKind, NotaEmphasisMarker, NotaListKind,
    NotaTag, Tree,
};
use crate::unicode::{char_from, escape, identifier_end, identifier_start, skip_white};

verus! {

/// How a markup body is collected.
#[derive(Clone, Copy, Debug, PartialEq, Eq, Structural)]
pub enum BodyMode {
    /// A braced body: its own `}` closes it, and statement lines are read.
    Body,
    /// The whole file: a `}` is literal, and statement lines are read.
    Document,
    /// A range of the source: a `}` is literal, and there are no statement lines.
    Bounded {
        /// The end of the range.
        end: u32,
    },
}

/// A markup body under way.
#[derive(Clone, Copy, Debug, PartialEq, Eq, Structural)]
pub struct Frame {
    /// How it is collected.
    pub mode: BodyMode,
    /// Where its content starts, which counts as a line start.
    pub start: u32,
}

/// What stands around an `@`-form.
#[derive(Clone, Copy, Debug, PartialEq, Eq, Structural)]
pub enum Region {
    /// A markup body.
    Markup {
        /// The body.
        frame: Frame,
    },
    /// Embedded JavaScript.
    Js,
    /// A raw span, for an armed form.
    Raw,
}

/// What is wrong with a source.
#[derive(Clone, Copy, Debug, PartialEq, Eq, Structural)]
pub enum FaultKind {
    /// `@` without a head.
    UnexpectedHead,
    /// A braced body without its `}`.
    ExpectedBrace,
    /// A property group without its `]`.
    ExpectedBracket,
    /// A `(` or a `)` is missing.
    ExpectedParen,
    /// A quoted key without its `:`.
    ExpectedColon,
    /// `@if`, `else` or `@for` without a braced body.
    ControlExpectsBody,
    /// `@for` without `of`.
    ForExpectsOf,
    /// A verbatim body without its `}|`.
    UnterminatedVerbatim,
    /// A block comment without its `*/`.
    UnterminatedComment,
    /// An armed form that runs past the raw span it stands in.
    ArmedFormOverruns,
    /// The embedded code is not JavaScript.
    InvalidJs {
        /// Which of the reasons of the JavaScript parser says why.
        reason: u32,
    },
}

/// A fault and where it is.
#[derive(Clone, Copy, Debug, PartialEq, Eq, Structural)]
pub struct Fault {
    /// What is wrong.
    pub kind: FaultKind,
    /// Where.
    pub span: Span,
    /// The code ended at a blank line, which may be why it is wrong.
    pub at_blank_line: bool,
}

/// Why reading stopped.
#[derive(Clone, Copy, Debug, PartialEq, Eq, Structural)]
pub enum Stop {
    /// A question has no answer in the table of facts.
    Ask {
        /// The question.
        query: JsQuery,
    },
    /// The source is faulty.
    Faulty {
        /// The fault.
        fault: Fault,
    },
}

/// What is given to the reader.
pub struct Input {
    /// The bytes of the source.
    pub s: Seq<u8>,
    /// The table of facts.
    pub facts: Seq<JsFact>,
}

/// What reading a construct comes to.
pub struct Reading {
    /// The trees read so far.
    pub nodes: Seq<Tree>,
    /// Where reading goes on.
    pub at: int,
    /// Was a body closed by its own `}`?
    pub closed: bool,
    /// Why reading stopped, if it did.
    pub stop: Option<Stop>,
}

/// Reading that goes on at `at`.
pub open spec fn go(nodes: Seq<Tree>, at: int) -> Reading {
    Reading { nodes, at, closed: false, stop: None }
}

/// Reading that stopped.
pub open spec fn halt(nodes: Seq<Tree>, at: int, stop: Stop) -> Reading {
    Reading { nodes, at, closed: false, stop: Some(stop) }
}

/// A fault at what stands in the place of something else.
pub open spec fn misplaced(kind: FaultKind, found: Span) -> Fault {
    Fault { kind, span: found, at_blank_line: false }
}

/// What is found where the source ends.
pub open spec fn nothing_at(end: int) -> Span {
    Span { start: end as u32, end: end as u32 }
}

/// Reading that met a fault between `start` and `end`.
pub open spec fn fail(nodes: Seq<Tree>, at: int, kind: FaultKind, start: int, end: int) -> Reading {
    missed(nodes, at, kind, Span { start: start as u32, end: end as u32 })
}

/// Reading that found something in the place of something else.
pub open spec fn missed(nodes: Seq<Tree>, at: int, kind: FaultKind, found: Span) -> Reading {
    halt(nodes, at, Stop::Faulty { fault: misplaced(kind, found) })
}

/// The same reading with other trees.
pub open spec fn with_nodes(r: Reading, nodes: Seq<Tree>) -> Reading {
    Reading { nodes, at: r.at, closed: false, stop: r.stop }
}

/// `q` where it lies past `p` inside the source, and the byte after `p` otherwise: reading always
/// moves on.
pub open spec fn past(s: Seq<u8>, p: int, q: int) -> int {
    if p < q <= s.len() {
        q
    } else {
        p + 1
    }
}

/// `q` where it lies at or past `p` inside the source, and `p` otherwise.
pub open spec fn at_least(s: Seq<u8>, p: int, q: int) -> int {
    if p <= q <= s.len() {
        q
    } else {
        p
    }
}

/// The smaller of two offsets.
pub open spec fn smaller(a: int, b: int) -> int {
    if a <= b {
        a
    } else {
        b
    }
}

/// The source up to `end`.
pub open spec fn view(d: Input, end: int) -> Seq<u8> {
    d.s.subrange(0, end)
}

/// Does the table answer for these offsets at all?
pub open spec fn askable(d: Input, p: int, end: int) -> bool {
    addressable(d.s) && 0 <= p <= end <= d.s.len()
}

/// A question.
pub open spec fn query(what: JsAsk, p: int, end: int) -> JsQuery {
    JsQuery { ask: what, at: p as u32, end: end as u32 }
}

/// The answer to a question.
pub open spec fn ask(d: Input, what: JsAsk, p: int, end: int) -> Option<JsAnswer> {
    if askable(d, p, end) {
        answer(d.s, d.facts, query(what, p, end))
    } else {
        None
    }
}

/// Does a stop ask nothing that the table of facts answers?
pub open spec fn is_new(d: Input, stop: Option<Stop>) -> bool {
    stop matches Some(Stop::Ask { query }) ==> answer(d.s, d.facts, query) is None
}

/// Why reading stops at a question that was not answered as needed.
pub open spec fn refused(d: Input, what: JsAsk, p: int, end: int) -> Stop {
    match ask(d, what, p, end) {
        Some(JsAnswer::Invalid { at, reason }) => Stop::Faulty {
            fault: Fault {
                kind: FaultKind::InvalidJs { reason },
                span: Span { start: at, end: at },
                at_blank_line: false,
            },
        },
        _ => Stop::Ask { query: query(what, p, end) },
    }
}

/// Literal text from `start` to `end` added to `nodes`, unless it is empty.
pub open spec fn with_text(nodes: Seq<Tree>, start: int, end: int) -> Seq<Tree> {
    if start < end {
        nodes.push(leaf(NodeKind::Text, start, end))
    } else {
        nodes
    }
}

/// Raw text from `start` to `end` added to `nodes`, unless it is empty.
pub open spec fn with_raw(nodes: Seq<Tree>, start: int, end: int) -> Seq<Tree> {
    if start < end {
        nodes.push(leaf(NodeKind::Raw, start, end))
    } else {
        nodes
    }
}

/// A document-state sugar with properties and a body.
pub open spec fn doc_state_tree(
    sugar: NotaDocStateKind,
    label: Span,
    start: int,
    end: int,
    props: Seq<Tree>,
    children: Seq<Tree>,
) -> Tree {
    branch(
        NodeKind::DocState { sugar, label },
        start,
        end,
        seq![
            branch(NodeKind::Props, start, end, props),
            branch(NodeKind::Body, start, end, children),
        ],
    )
}

/// Is a child nothing to the layout of its parent: a comment, or text of white space?
pub open spec fn is_filler(s: Seq<u8>, t: Tree) -> bool {
    t.kind is Comment || (t.kind == NodeKind::Text && skip_white(
        s,
        t.span.start as int,
        t.span.end as int,
    ) >= t.span.end)
}

/// The last of the first `n` children that is not filler.
pub open spec fn last_content(s: Seq<u8>, kids: Seq<Tree>, n: int) -> Option<int>
    decreases n,
{
    if 0 < n <= kids.len() {
        if is_filler(s, kids[n - 1]) {
            last_content(s, kids, n - 1)
        } else {
            Some(n - 1)
        }
    } else {
        None
    }
}

/// The children of a heading or a list item, with an attributes group that trails them put first, as
/// the properties of the heading or item itself.
pub open spec fn hoisted(s: Seq<u8>, kids: Seq<Tree>) -> Seq<Tree> {
    match last_content(s, kids, kids.len() as int) {
        Some(i) => if kids[i].kind == NodeKind::Attrs {
            seq![Tree { kind: NodeKind::Props, span: kids[i].span, kids: kids[i].kids }]
                + kids.remove(i)
        } else {
            kids
        },
        None => kids,
    }
}

/// An element.
pub open spec fn element_tree(
    tag: NotaTag,
    body: BodyForm,
    start: int,
    end: int,
    props: Seq<Tree>,
    children: Seq<Tree>,
    dynamic: Seq<Tree>,
) -> Tree {
    branch(
        NodeKind::Element { tag, body },
        start,
        end,
        seq![
            branch(NodeKind::Props, start, end, props),
            branch(NodeKind::Body, start, end, children),
        ] + dynamic,
    )
}

/// Do statement lines open in this mode?
pub open spec fn reads_statements(mode: BodyMode) -> bool {
    mode == BodyMode::Body || mode == BodyMode::Document
}

/// Does `p` lie before the end of a bounded range?
pub open spec fn in_bound(mode: BodyMode, p: int) -> bool {
    mode matches BodyMode::Bounded { end } ==> p < end
}

/// `p`, clipped to the end of a bounded range.
pub open spec fn clip(mode: BodyMode, p: int) -> int {
    match mode {
        BodyMode::Bounded { end } => smaller(p, end as int),
        _ => p,
    }
}

/// The end of the first line of a line-start construct at `p`: the line's end, the `}` of the
/// enclosing braced body, or the end of a bounded range.
pub open spec fn sugar_end(s: Seq<u8>, p: int, mode: BodyMode) -> int {
    let line = match line_clip(s, p) {
        Some(brace) => if mode == BodyMode::Body {
            smaller(line_end(s, p), brace)
        } else {
            line_end(s, p)
        },
        None => line_end(s, p),
    };
    clip(mode, line)
}

/// Is a `:` glued to the head of the form at `pos` a trigger: does the form lead a line of a markup
/// body?
pub open spec fn colon_live(s: Seq<u8>, region: Region, pos: int) -> bool {
    match region {
        Region::Markup { frame } => leads_line(s, pos, frame.start as int),
        _ => false,
    }
}

/// The trigger at `p`, a dead colon taken for none.
pub open spec fn live_trigger(s: Seq<u8>, p: int, live: bool) -> MarkupTrigger {
    if head_trigger(s, p) == MarkupTrigger::Colon && !live {
        MarkupTrigger::Bare
    } else {
        head_trigger(s, p)
    }
}

/// Is the name at `p` a component's: does it start with an upper-case letter?
pub open spec fn is_component(s: Seq<u8>, p: int) -> bool {
    at(s, p) matches Some(b) && UPPER_A <= b <= UPPER_Z
}

/// Are the bytes of `span` exactly `a`, `b`?
pub open spec fn spells2(s: Seq<u8>, span: Span, a: u8, b: u8) -> bool {
    span.end - span.start == 2 && at(s, span.start as int) == Some(a) && at(s, span.start + 1)
        == Some(b)
}

/// Are the bytes of `span` exactly `a`, `b`, `c`?
pub open spec fn spells3(s: Seq<u8>, span: Span, a: u8, b: u8, c: u8) -> bool {
    span.end - span.start == 3 && at(s, span.start as int) == Some(a) && at(s, span.start + 1)
        == Some(b) && at(s, span.start + 2) == Some(c)
}

/// How the head of an `@`-form starts.
pub enum HeadStart {
    /// A name.
    Name {
        /// Where it stands.
        span: Span,
    },
    /// The `{` of a fragment.
    Brace {
        /// Its offset.
        at: u32,
    },
    /// The `(` of an expression.
    Paren {
        /// Its offset.
        at: u32,
    },
    /// Nothing that can be a head.
    Nothing {
        /// What is wrong with it.
        fault: Fault,
    },
    /// A token is wanted.
    Refused {
        /// Why reading stops.
        stop: Stop,
    },
}

/// The head after an `@`, at `p`. A name is read by the notation's own rule, in which a `\` ends it;
/// anything but a name, a `{` or a `(` right there is up to the JavaScript token.
pub open spec fn head_start(d: Input, end: int, p: int) -> HeadStart {
    let v = view(d, end);
    if char_from(v, p) matches Some(c) && identifier_start(c) {
        HeadStart::Name { span: Span { start: p as u32, end: identifier_end(v, p) as u32 } }
    } else if at(v, p) == Some(LBRACE) {
        HeadStart::Brace { at: p as u32 }
    } else if at(v, p) == Some(LPAREN) {
        HeadStart::Paren { at: p as u32 }
    } else {
        match ask(d, JsAsk::Token, p, end) {
            Some(JsAnswer::Token { span, kind }) => if kind == JsTokenKind::Name {
                HeadStart::Name { span }
            } else if at(d.s, span.start as int) == Some(LBRACE) {
                HeadStart::Brace { at: span.start }
            } else if at(d.s, span.start as int) == Some(LPAREN) {
                HeadStart::Paren { at: span.start }
            } else {
                HeadStart::Nothing { fault: misplaced(FaultKind::UnexpectedHead, span) }
            },
            Some(JsAnswer::Nothing) => HeadStart::Nothing {
                fault: misplaced(FaultKind::UnexpectedHead, nothing_at(end)),
            },
            Some(JsAnswer::Invalid { at, reason }) => HeadStart::Nothing {
                fault: misplaced(FaultKind::InvalidJs { reason }, Span { start: at, end: at }),
            },
            _ => HeadStart::Refused { stop: refused(d, JsAsk::Token, p, end) },
        }
    }
}

/// The `@`-form whose `@` stands at `pos`.
pub open spec fn form(d: Input, end: int, region: Region, nodes: Seq<Tree>, pos: int) -> Reading
    decreases d.s.len() + 2 - pos, 3int,
{
    if 0 <= pos < d.s.len() {
        let s = d.s;
        match head_start(d, end, pos + 1) {
            HeadStart::Name { span } => if spells2(s, span, LOWER_I, LOWER_F) {
                if_form(d, end, nodes, pos, past(s, pos, span.end as int))
            } else if spells3(s, span, LOWER_F, LOWER_O, LOWER_R) {
                for_form(d, end, nodes, pos, past(s, pos, span.end as int))
            } else {
                named_form(d, end, region, nodes, pos, span)
            },
            HeadStart::Brace { at } => {
                let body = braced(d, end, past(s, pos, at as int));
                with_nodes(
                    body,
                    nodes.push(branch(NodeKind::Fragment, pos, body.at, body.nodes)),
                )
            },
            HeadStart::Paren { at } => {
                let head = paren(d, end, past(s, pos, at as int));
                if head.stop is Some {
                    with_nodes(
                        head,
                        nodes.push(branch(NodeKind::Interpolation, pos, head.at, head.nodes)),
                    )
                } else {
                    triggered(
                        d,
                        end,
                        region,
                        nodes,
                        pos,
                        NotaTag::Dynamic,
                        head.nodes,
                        past(s, pos, head.at),
                    )
                }
            },
            HeadStart::Nothing { fault } => halt(
                nodes.push(leaf(NodeKind::Fragment, pos, pos + 1)),
                pos + 1,
                Stop::Faulty { fault },
            ),
            HeadStart::Refused { stop } => halt(nodes, pos + 1, stop),
        }
    } else {
        go(nodes, pos)
    }
}

/// The form at `pos` whose head is the name `name`. A lower-case name goes on over `-`-joined words
/// where a trigger follows the whole of it.
pub open spec fn named_form(
    d: Input,
    end: int,
    region: Region,
    nodes: Seq<Tree>,
    pos: int,
    name: Span,
) -> Reading
    decreases d.s.len() + 2 - pos, 2int,
{
    let s = d.s;
    let tail = hyphen_tail(s, name.end as int);
    let component = is_component(s, name.start as int);
    let full = if !component && tail > name.end && live_trigger(s, tail, colon_live(s, region, pos))
        != MarkupTrigger::Bare {
        Span { start: name.start, end: tail as u32 }
    } else {
        name
    };
    let tag = if component {
        NotaTag::Component { name: full }
    } else {
        NotaTag::Host { name: full }
    };
    if 0 <= pos < s.len() {
        triggered(
            d,
            end,
            region,
            nodes,
            pos,
            tag,
            seq![
                leaf(
                    NodeKind::Js { tier: ExprTier::Primary },
                    full.start as int,
                    full.end as int,
                ),
            ],
            past(s, pos, full.end as int),
        )
    } else {
        go(nodes, pos)
    }
}

/// The form at `pos` whose head ends at `c`: an element where a trigger is glued to the head, an
/// interpolation of the head's expression otherwise.
pub open spec fn triggered(
    d: Input,
    end: int,
    region: Region,
    nodes: Seq<Tree>,
    pos: int,
    tag: NotaTag,
    head: Seq<Tree>,
    c: int,
) -> Reading
    decreases d.s.len() + 2 - c, 12int,
{
    let s = d.s;
    let dynamic = if tag == NotaTag::Dynamic {
        head
    } else {
        Seq::<Tree>::empty()
    };
    if 0 <= c <= s.len() {
        match live_trigger(s, c, colon_live(s, region, pos)) {
            MarkupTrigger::Brace => element(d, end, region, nodes, pos, tag, dynamic, c),
            MarkupTrigger::Bracket => element(d, end, region, nodes, pos, tag, dynamic, c),
            MarkupTrigger::Colon => colon_element(
                d,
                end,
                region,
                nodes,
                pos,
                tag,
                dynamic,
                Seq::empty(),
                c,
            ),
            MarkupTrigger::Verbatim => verbatim_element(
                d,
                end,
                nodes,
                pos,
                tag,
                dynamic,
                Seq::empty(),
                c,
            ),
            MarkupTrigger::Bare => go(
                nodes.push(
                    branch(
                        NodeKind::Interpolation,
                        head[0].span.start as int,
                        head[0].span.end as int,
                        head,
                    ),
                ),
                c,
            ),
        }
    } else {
        go(nodes, c)
    }
}

/// An element whose property groups or body start at `c`. After the groups a `{`, a `|{` or a live
/// `:` opens its body; anything else leaves it without one.
pub open spec fn element(
    d: Input,
    end: int,
    region: Region,
    nodes: Seq<Tree>,
    pos: int,
    tag: NotaTag,
    dynamic: Seq<Tree>,
    c: int,
) -> Reading
    decreases d.s.len() + 2 - c, 11int,
{
    let s = d.s;
    let groups = prop_groups(d, end, Seq::empty(), c);
    let b = at_least(s, c, groups.at);
    if groups.stop is Some {
        with_nodes(
            groups,
            nodes.push(
                element_tree(
                    tag,
                    BodyForm::Braced,
                    pos,
                    groups.at,
                    groups.nodes,
                    Seq::empty(),
                    dynamic,
                ),
            ),
        )
    } else if at(s, b) == Some(LBRACE) {
        let body = braced(d, end, b);
        with_nodes(
            body,
            nodes.push(
                element_tree(
                    tag,
                    BodyForm::Braced,
                    pos,
                    body.at,
                    groups.nodes,
                    body.nodes,
                    dynamic,
                ),
            ),
        )
    } else if at(s, b) == Some(PIPE) && at(s, b + 1) == Some(LBRACE) {
        verbatim_element(d, end, nodes, pos, tag, dynamic, groups.nodes, b)
    } else if at(s, b) == Some(COLON) && colon_live(s, region, pos) {
        colon_element(d, end, region, nodes, pos, tag, dynamic, groups.nodes, b)
    } else {
        go(
            nodes.push(
                element_tree(
                    tag,
                    BodyForm::Braced,
                    pos,
                    b,
                    groups.nodes,
                    Seq::empty(),
                    dynamic,
                ),
            ),
            b,
        )
    }
}

/// The property groups that stand side by side from `c` on.
pub open spec fn prop_groups(d: Input, end: int, nodes: Seq<Tree>, c: int) -> Reading
    decreases d.s.len() + 2 - c, 10int,
{
    if 0 <= c < d.s.len() && d.s[c] == LBRACK {
        let r = entries(d, end, nodes, c, c + 1);
        if r.stop is Some {
            r
        } else {
            prop_groups(d, end, r.nodes, past(d.s, c, r.at))
        }
    } else {
        go(nodes, c)
    }
}

/// The entries of the property group whose `[` stands at `open`, from `p` up to its `]`.
pub open spec fn entries(d: Input, end: int, nodes: Seq<Tree>, open: int, p: int) -> Reading
    decreases d.s.len() + 2 - p, 9int,
{
    let s = d.s;
    match ask(d, JsAsk::Token, p, end) {
        Some(JsAnswer::Token { span, kind }) => {
            proof {
                answer_answers(s, d.facts, query(JsAsk::Token, p, end), 0);
            }
            if at(s, span.start as int) == Some(RBRACK) {
                go(nodes, span.end as int)
            } else {
                let r = entry(d, end, nodes, span, kind);
                if r.stop is Some {
                    r
                } else {
                    match ask(d, JsAsk::Token, r.at, end) {
                        Some(JsAnswer::Token { span: next, kind: _ }) => if at(
                            s,
                            next.start as int,
                        ) == Some(COMMA) {
                            entries(d, end, r.nodes, open, past(s, p, next.end as int))
                        } else if at(s, next.start as int) == Some(RBRACK) {
                            go(r.nodes, next.end as int)
                        } else {
                            missed(r.nodes, r.at, FaultKind::ExpectedBracket, next)
                        },
                        Some(JsAnswer::Nothing) => missed(
                            r.nodes.push(leaf(NodeKind::PropsAnchor, open, open + 1)),
                            r.at,
                            FaultKind::ExpectedBracket,
                            nothing_at(end),
                        ),
                        _ => halt(r.nodes, r.at, refused(d, JsAsk::Token, r.at, end)),
                    }
                }
            }
        },
        Some(JsAnswer::Nothing) => missed(
            nodes.push(leaf(NodeKind::PropsAnchor, open, open + 1)),
            p,
            FaultKind::ExpectedBracket,
            nothing_at(end),
        ),
        _ => halt(nodes, p, refused(d, JsAsk::Token, p, end)),
    }
}

/// The property entry whose first token is `key`: a spread, `key: value`, or a bare key.
pub open spec fn entry(d: Input, end: int, nodes: Seq<Tree>, key: Span, kind: JsTokenKind) -> Reading
    decreases d.s.len() + 2 - key.start, 8int,
{
    let s = d.s;
    if !(key.start < key.end <= s.len()) {
        go(nodes, key.end as int)
    } else if spells3(s, key, DOT, DOT, DOT) {
        let value = js_at(d, end, JsAsk::Assignment, key.end as int);
        with_nodes(
            value,
            nodes.push(branch(NodeKind::Spread, key.start as int, value.at, value.nodes)),
        )
    } else {
        match ask(d, JsAsk::Token, key.end as int, end) {
            Some(JsAnswer::Token { span: colon, kind: _ }) => if at(s, colon.start as int) == Some(
                COLON,
            ) {
                let value = prop_value(d, end, past(s, key.start as int, colon.end as int));
                with_nodes(
                    value,
                    nodes.push(
                        branch(
                            NodeKind::Field { key, quoted: kind == JsTokenKind::Str },
                            key.start as int,
                            value.at,
                            value.nodes,
                        ),
                    ),
                )
            } else {
                bare_key(nodes, key, kind, colon)
            },
            Some(JsAnswer::Nothing) => bare_key(nodes, key, kind, nothing_at(end)),
            _ => halt(nodes, key.end as int, refused(d, JsAsk::Token, key.end as int, end)),
        }
    }
}

/// A key without a value, with `found` in place of the `:`: a shorthand, which a string literal
/// cannot be.
pub open spec fn bare_key(nodes: Seq<Tree>, key: Span, kind: JsTokenKind, found: Span) -> Reading {
    if kind == JsTokenKind::Str {
        missed(nodes, key.end as int, FaultKind::ExpectedColon, found)
    } else {
        go(
            nodes.push(leaf(NodeKind::Shorthand, key.start as int, key.end as int)),
            key.end as int,
        )
    }
}

/// The value of a property, from `p` on: an `@`-form, or JavaScript.
pub open spec fn prop_value(d: Input, end: int, p: int) -> Reading
    decreases d.s.len() + 2 - p, 7int,
{
    match ask(d, JsAsk::Token, p, end) {
        Some(JsAnswer::Token { span, kind: _ }) => {
            proof {
                answer_answers(d.s, d.facts, query(JsAsk::Token, p, end), 0);
            }
            if at(d.s, span.start as int) == Some(AT_SIGN) {
                form(d, end, Region::Js, Seq::empty(), span.start as int)
            } else {
                js_at(d, end, JsAsk::Assignment, span.start as int)
            }
        },
        Some(JsAnswer::Nothing) => js_at(d, end, JsAsk::Assignment, p),
        _ => halt(Seq::empty(), p, refused(d, JsAsk::Token, p, end)),
    }
}

/// The JavaScript at `p`, as one node over the forms inside it.
pub open spec fn js_at(d: Input, end: int, what: JsAsk, p: int) -> Reading
    decreases d.s.len() + 2 - p, 6int,
{
    match ask(d, what, p, end) {
        Some(JsAnswer::Extent { span, tier }) => {
            proof {
                answer_answers(d.s, d.facts, query(what, p, end), 0);
            }
            let forms = islands(d, end, Seq::empty(), span.start as int, span.end as int);
            Reading {
                nodes: seq![
                    branch(
                        NodeKind::Js { tier },
                        span.start as int,
                        span.end as int,
                        forms.nodes,
                    ),
                ],
                at: span.end as int,
                closed: false,
                stop: forms.stop,
            }
        },
        _ => halt(Seq::empty(), p, refused(d, what, p, end)),
    }
}

/// The forms inside the JavaScript from `p` to `e`.
pub open spec fn islands(d: Input, end: int, nodes: Seq<Tree>, p: int, e: int) -> Reading
    decreases d.s.len() + 2 - p, 5int,
{
    match ask(d, JsAsk::Form, p, e) {
        Some(JsAnswer::Form { at }) => {
            proof {
                answer_answers(d.s, d.facts, query(JsAsk::Form, p, e), 0);
            }
            let r = form(d, end, Region::Js, Seq::empty(), at as int);
            let more = nodes.push(branch(NodeKind::Markup, at as int, r.at, r.nodes));
            if r.stop is Some {
                with_nodes(r, more)
            } else {
                islands(d, end, more, past(d.s, at as int, r.at), e)
            }
        },
        Some(JsAnswer::Nothing) => go(nodes, e),
        _ => halt(nodes, p, refused(d, JsAsk::Form, p, e)),
    }
}

/// The names that the statement from `p` to `e` binds.
pub open spec fn bindings(d: Input, nodes: Seq<Tree>, p: int, e: int) -> Reading
    decreases d.s.len() + 2 - p,
{
    match ask(d, JsAsk::Binding, p, e) {
        Some(JsAnswer::Binding { span }) => {
            proof {
                answer_answers(d.s, d.facts, query(JsAsk::Binding, p, e), 0);
            }
            bindings(
                d,
                nodes.push(leaf(NodeKind::Binding, span.start as int, span.end as int)),
                past(d.s, p, span.end as int),
                e,
            )
        },
        Some(JsAnswer::Nothing) => go(nodes, e),
        _ => halt(nodes, p, refused(d, JsAsk::Binding, p, e)),
    }
}

/// The parenthesised expression whose `(` stands at `open`.
pub open spec fn paren(d: Input, end: int, open: int) -> Reading
    decreases d.s.len() + 2 - open, 8int,
{
    if 0 <= open < d.s.len() {
        let inner = js_at(d, end, JsAsk::Expression, open + 1);
        if inner.stop is Some {
            inner
        } else {
            match ask(d, JsAsk::Token, inner.at, end) {
                Some(JsAnswer::Token { span, kind: _ }) => if at(d.s, span.start as int) == Some(
                    RPAREN,
                ) {
                    go(inner.nodes, span.end as int)
                } else {
                    missed(inner.nodes, inner.at, FaultKind::ExpectedParen, span)
                },
                Some(JsAnswer::Nothing) => missed(
                    inner.nodes,
                    inner.at,
                    FaultKind::ExpectedParen,
                    nothing_at(end),
                ),
                _ => halt(inner.nodes, inner.at, refused(d, JsAsk::Token, inner.at, end)),
            }
        }
    } else {
        fail(Seq::empty(), open, FaultKind::ExpectedParen, open, open)
    }
}

/// The children of the braced body whose `{` stands at `open`.
pub open spec fn braced(d: Input, end: int, open: int) -> Reading
    decreases d.s.len() + 2 - open, 8int,
{
    if 0 <= open < d.s.len() {
        let r = body(
            d,
            end,
            Frame { mode: BodyMode::Body, start: (open + 1) as u32 },
            open + 1,
        );
        if r.stop is Some {
            r
        } else if r.closed {
            go(r.nodes, r.at)
        } else {
            missed(r.nodes, r.at, FaultKind::ExpectedBrace, nothing_at(end))
        }
    } else {
        fail(Seq::empty(), open, FaultKind::ExpectedBrace, open, open)
    }
}

/// The braced body whose `{` is the next token from `p` on, as a fragment that starts at `start`.
pub open spec fn control_body(d: Input, end: int, start: int, p: int) -> Reading
    decreases d.s.len() + 2 - p, 9int,
{
    match ask(d, JsAsk::Token, p, end) {
        Some(JsAnswer::Token { span, kind: _ }) => {
            proof {
                answer_answers(d.s, d.facts, query(JsAsk::Token, p, end), 0);
            }
            if at(d.s, span.start as int) == Some(LBRACE) {
                let r = braced(d, end, span.start as int);
                with_nodes(r, seq![branch(NodeKind::Fragment, start, r.at, r.nodes)])
            } else {
                missed(Seq::empty(), p, FaultKind::ControlExpectsBody, span)
            }
        },
        Some(JsAnswer::Nothing) => missed(
            Seq::empty(),
            p,
            FaultKind::ControlExpectsBody,
            nothing_at(end),
        ),
        _ => halt(Seq::empty(), p, refused(d, JsAsk::Token, p, end)),
    }
}

/// The parenthesised expression whose `(` is the next token from `p` on.
pub open spec fn control_head(d: Input, end: int, p: int) -> Reading
    decreases d.s.len() + 2 - p, 9int,
{
    match ask(d, JsAsk::Token, p, end) {
        Some(JsAnswer::Token { span, kind: _ }) => {
            proof {
                answer_answers(d.s, d.facts, query(JsAsk::Token, p, end), 0);
            }
            if at(d.s, span.start as int) == Some(LPAREN) {
                paren(d, end, span.start as int)
            } else {
                missed(Seq::empty(), p, FaultKind::ExpectedParen, span)
            }
        },
        Some(JsAnswer::Nothing) => missed(
            Seq::empty(),
            p,
            FaultKind::ExpectedParen,
            nothing_at(end),
        ),
        _ => halt(Seq::empty(), p, refused(d, JsAsk::Token, p, end)),
    }
}

/// `@if`, its keyword ending at `c`: a condition, a branch, and what continues it.
pub open spec fn if_form(d: Input, end: int, nodes: Seq<Tree>, pos: int, c: int) -> Reading
    decreases d.s.len() + 2 - c, 12int,
{
    let s = d.s;
    let cond = control_head(d, end, c);
    if cond.stop is Some {
        with_nodes(cond, nodes.push(branch(NodeKind::If, pos, cond.at, cond.nodes)))
    } else {
        let then = control_body(d, end, pos, at_least(s, c, cond.at));
        let kids = cond.nodes + then.nodes;
        if then.stop is Some {
            with_nodes(then, nodes.push(branch(NodeKind::If, pos, then.at, kids)))
        } else {
            match else_after(s, then.at) {
                ElsePeek::Ends => go(nodes.push(branch(NodeKind::If, pos, then.at, kids)), then.at),
                ElsePeek::ElseIf { if_offset } => if 0 <= c < s.len() {
                    let r = if_form(
                        d,
                        end,
                        kids,
                        if_offset as int,
                        past(s, c, if_offset + 2),
                    );
                    with_nodes(r, nodes.push(branch(NodeKind::If, pos, r.at, r.nodes)))
                } else {
                    go(nodes, c)
                },
                ElsePeek::Else { brace_offset } => if 0 <= c < s.len() {
                    let r = braced(d, end, past(s, c, brace_offset as int));
                    with_nodes(
                        r,
                        nodes.push(
                            branch(
                                NodeKind::If,
                                pos,
                                r.at,
                                kids.push(
                                    branch(NodeKind::Fragment, brace_offset as int, r.at, r.nodes),
                                ),
                            ),
                        ),
                    )
                } else {
                    go(nodes, c)
                },
            }
        }
    }
}

/// `@for`, its keyword ending at `c`: `(pattern of iterable)` and a body.
pub open spec fn for_form(d: Input, end: int, nodes: Seq<Tree>, pos: int, c: int) -> Reading
    decreases d.s.len() + 2 - c, 12int,
{
    let s = d.s;
    let head = for_head(d, end, c);
    if head.stop is Some {
        with_nodes(head, nodes.push(branch(NodeKind::For, pos, head.at, head.nodes)))
    } else {
        let body = control_body(d, end, pos, at_least(s, c, head.at));
        with_nodes(
            body,
            nodes.push(branch(NodeKind::For, pos, body.at, head.nodes + body.nodes)),
        )
    }
}

/// `(pattern of iterable)` from `p` on.
pub open spec fn for_head(d: Input, end: int, p: int) -> Reading
    decreases d.s.len() + 2 - p, 9int,
{
    let s = d.s;
    match ask(d, JsAsk::Token, p, end) {
        Some(JsAnswer::Token { span: open, kind: _ }) => {
            proof {
                answer_answers(s, d.facts, query(JsAsk::Token, p, end), 0);
            }
            if at(s, open.start as int) == Some(LPAREN) {
                let bind = js_at(d, end, JsAsk::Pattern, open.end as int);
                if bind.stop is Some {
                    bind
                } else {
                    for_iterable(d, end, bind.nodes, at_least(s, open.end as int, bind.at))
                }
            } else {
                missed(Seq::empty(), p, FaultKind::ExpectedParen, open)
            }
        },
        Some(JsAnswer::Nothing) => missed(
            Seq::empty(),
            p,
            FaultKind::ExpectedParen,
            nothing_at(end),
        ),
        _ => halt(Seq::empty(), p, refused(d, JsAsk::Token, p, end)),
    }
}

/// `of iterable)` from `p` on, after the pattern in `nodes`.
pub open spec fn for_iterable(d: Input, end: int, nodes: Seq<Tree>, p: int) -> Reading
    decreases d.s.len() + 2 - p, 8int,
{
    let s = d.s;
    match ask(d, JsAsk::Token, p, end) {
        Some(JsAnswer::Token { span: of, kind: _ }) => {
            proof {
                answer_answers(s, d.facts, query(JsAsk::Token, p, end), 0);
            }
            if spells2(s, of, LOWER_O, LOWER_F) {
                let iter = js_at(d, end, JsAsk::Assignment, of.end as int);
                let kids = nodes + iter.nodes;
                if iter.stop is Some {
                    with_nodes(iter, kids)
                } else {
                    match ask(d, JsAsk::Token, iter.at, end) {
                        Some(JsAnswer::Token { span: close, kind: _ }) => if at(
                            s,
                            close.start as int,
                        ) == Some(RPAREN) {
                            go(kids, close.end as int)
                        } else {
                            missed(kids, iter.at, FaultKind::ExpectedParen, close)
                        },
                        Some(JsAnswer::Nothing) => missed(
                            kids,
                            iter.at,
                            FaultKind::ExpectedParen,
                            nothing_at(end),
                        ),
                        _ => halt(kids, iter.at, refused(d, JsAsk::Token, iter.at, end)),
                    }
                }
            } else {
                missed(nodes, p, FaultKind::ForExpectsOf, of)
            }
        },
        Some(JsAnswer::Nothing) => missed(nodes, p, FaultKind::ForExpectsOf, nothing_at(end)),
        _ => halt(nodes, p, refused(d, JsAsk::Token, p, end)),
    }
}

/// `@head: …`, its `:` at `c`. The body is the rest of the line and the lines indented past the
/// head's; leading lines of it that start with `|` hold properties.
pub open spec fn colon_element(
    d: Input,
    end: int,
    region: Region,
    nodes: Seq<Tree>,
    pos: int,
    tag: NotaTag,
    dynamic: Seq<Tree>,
    props: Seq<Tree>,
    c: int,
) -> Reading
    decreases d.s.len() + 2 - c, 10int,
{
    let s = d.s;
    let mode = region_mode(region);
    let extent = colon_extent(s, c + 1, indent_of(s, pos), mode == BodyMode::Body);
    let stop = clip(mode, extent.1);
    if 0 <= c < s.len() {
        let first = next_line(s, extent.0);
        let lines = prop_lines(d, end, props, past(s, c, first), stop);
        if lines.stop is Some {
            with_nodes(
                lines,
                nodes.push(
                    element_tree(tag, BodyForm::Colon, pos, stop, lines.nodes, Seq::empty(), dynamic),
                ),
            )
        } else {
            let start = if lines.at > past(s, c, first) {
                if at(s, lines.at - 1) == Some(NEWLINE) {
                    lines.at - 1
                } else {
                    lines.at
                }
            } else {
                extent.0
            };
            let children = range(d, end, start, stop, past(s, c, start));
            Reading {
                nodes: nodes.push(
                    element_tree(
                        tag,
                        BodyForm::Colon,
                        pos,
                        stop,
                        lines.nodes,
                        children.nodes,
                        dynamic,
                    ),
                ),
                at: stop,
                closed: false,
                stop: children.stop,
            }
        }
    } else {
        go(nodes, c)
    }
}

/// The mode of the body around a form; outside markup, that of a document.
pub open spec fn region_mode(region: Region) -> BodyMode {
    match region {
        Region::Markup { frame } => frame.mode,
        _ => BodyMode::Document,
    }
}

/// The children of the range from `start` to `stop`, read from `p` on.
pub open spec fn range(d: Input, end: int, start: int, stop: int, p: int) -> Reading
    decreases d.s.len() + 2 - p, 19int,
{
    body(
        d,
        end,
        Frame { mode: BodyMode::Bounded { end: stop as u32 }, start: start as u32 },
        p,
    )
}

/// The properties on the `|` lines from `line` on, before `stop`.
pub open spec fn prop_lines(d: Input, end: int, nodes: Seq<Tree>, line: int, stop: int) -> Reading
    decreases d.s.len() + 2 - line, 11int,
{
    let s = d.s;
    if 0 <= line < stop && line < s.len() {
        match prop_line(s, line) {
            Some(entries_at) => {
                let r = line_entries(
                    d,
                    end,
                    nodes,
                    past(s, line, entries_at as int),
                    next_line(s, line),
                );
                if r.stop is Some {
                    r
                } else {
                    prop_lines(d, end, r.nodes, past(s, line, next_line(s, line)), stop)
                }
            },
            None => go(nodes, line),
        }
    } else {
        go(nodes, line)
    }
}

/// The property entries from `p` on that start before `line_stop`.
pub open spec fn line_entries(d: Input, end: int, nodes: Seq<Tree>, p: int, line_stop: int) -> Reading
    decreases d.s.len() + 2 - p, 9int,
{
    let s = d.s;
    match ask(d, JsAsk::Token, p, end) {
        Some(JsAnswer::Token { span, kind }) => {
            proof {
                answer_answers(s, d.facts, query(JsAsk::Token, p, end), 0);
            }
            if span.start < line_stop {
                let r = entry(d, end, nodes, span, kind);
                if r.stop is Some {
                    r
                } else {
                    match ask(d, JsAsk::Token, r.at, end) {
                        Some(JsAnswer::Token { span: next, kind: _ }) => if at(
                            s,
                            next.start as int,
                        ) == Some(COMMA) {
                            line_entries(d, end, r.nodes, past(s, p, next.end as int), line_stop)
                        } else {
                            go(r.nodes, r.at)
                        },
                        Some(JsAnswer::Nothing) => go(r.nodes, r.at),
                        _ => halt(r.nodes, r.at, refused(d, JsAsk::Token, r.at, end)),
                    }
                }
            } else {
                go(nodes, p)
            }
        },
        Some(JsAnswer::Nothing) => go(nodes, p),
        _ => halt(nodes, p, refused(d, JsAsk::Token, p, end)),
    }
}

/// `@head|{…}|`, its `|` at `c`. One `\n` right after the `|{` is dropped.
pub open spec fn verbatim_element(
    d: Input,
    end: int,
    nodes: Seq<Tree>,
    pos: int,
    tag: NotaTag,
    dynamic: Seq<Tree>,
    props: Seq<Tree>,
    c: int,
) -> Reading
    decreases d.s.len() + 2 - c, 10int,
{
    if 0 <= c && c + 2 <= d.s.len() {
        let start = if at(view(d, end), c + 2) == Some(NEWLINE) {
            c + 3
        } else {
            c + 2
        };
        let parts = verbatim_parts(d, end, Seq::empty(), start, past(d.s, c, start));
        with_nodes(
            parts,
            nodes.push(
                element_tree(
                    tag,
                    BodyForm::Verbatim,
                    pos,
                    parts.at,
                    props,
                    parts.nodes,
                    dynamic,
                ),
            ),
        )
    } else {
        go(nodes, c)
    }
}

/// The raw runs and armed forms of the verbatim body that starts at `start`, from `p` on.
pub open spec fn verbatim_parts(d: Input, end: int, nodes: Seq<Tree>, start: int, p: int) -> Reading
    decreases d.s.len() + 2 - p, 9int,
{
    let v = view(d, end);
    let stop = verbatim_stop(v, p);
    if 0 <= p <= stop && stop < end && end <= d.s.len() {
        if verbatim_closes(v, stop) {
            let run_end = if stop > p && v[stop - 1] == NEWLINE {
                stop - 1
            } else {
                stop
            };
            go(with_raw(nodes, p, run_end), stop + 2)
        } else {
            let r = form(d, end, Region::Raw, with_raw(nodes, p, stop), stop + 1);
            if r.stop is Some {
                r
            } else {
                verbatim_parts(d, end, r.nodes, start, past(d.s, p, r.at))
            }
        }
    } else {
        fail(
            with_raw(nodes, p, stop),
            stop,
            FaultKind::UnterminatedVerbatim,
            start,
            stop,
        )
    }
}

/// The raw runs and armed forms between `p` and `e`. An armed form is read as if the source ended at
/// `e`, and may not run past it.
pub open spec fn bounded_parts(d: Input, nodes: Seq<Tree>, p: int, e: int) -> Reading
    decreases d.s.len() + 2 - p, 9int,
{
    let stop = armed_stop(d.s, p, e);
    if 0 <= p <= stop && stop < e && e <= d.s.len() {
        let r = form(d, e, Region::Raw, with_raw(nodes, p, stop), stop + 1);
        if r.stop is Some {
            r
        } else if r.at > e {
            fail(r.nodes, r.at, FaultKind::ArmedFormOverruns, stop, r.at)
        } else {
            bounded_parts(d, r.nodes, past(d.s, p, r.at), e)
        }
    } else {
        go(with_raw(nodes, p, stop), e)
    }
}

/// The children of a markup body from `start` on. The start of a body is a line start.
pub open spec fn body(d: Input, end: int, f: Frame, start: int) -> Reading
    decreases d.s.len() + 2 - start, 18int,
{
    let lead = line_starts(d, end, f, Seq::empty(), start, 0);
    if lead.stop is Some {
        lead
    } else {
        collect(d, end, f, lead.nodes, at_least(d.s, start, lead.at), 0)
    }
}

/// The children of a markup body from `pos` on, with `depth` literal braces open.
pub open spec fn collect(d: Input, end: int, f: Frame, nodes: Seq<Tree>, pos: int, depth: int) -> Reading
    decreases d.s.len() + 2 - pos, 16int,
{
    let v = view(d, end);
    let kind = token_kind(v, pos);
    if !(0 <= pos < end && end <= d.s.len()) || !in_bound(f.mode, pos) {
        go(nodes, pos)
    } else if kind == Kind::RCurly && depth == 0 && f.mode == BodyMode::Body {
        Reading { nodes, at: pos + 1, closed: true, stop: None }
    } else {
        let r = child(d, end, f, nodes, pos, depth);
        let deeper = if kind == Kind::LCurly {
            depth + 1
        } else if kind == Kind::RCurly && depth > 0 {
            depth - 1
        } else {
            depth
        };
        if r.stop is Some {
            r
        } else {
            collect(d, end, f, r.nodes, past(d.s, pos, r.at), deeper)
        }
    }
}

/// The child of a markup body at `pos`.
pub open spec fn child(d: Input, end: int, f: Frame, nodes: Seq<Tree>, pos: int, depth: int) -> Reading
    decreases d.s.len() + 2 - pos, 15int,
{
    let s = d.s;
    let v = view(d, end);
    let limit = clip(f.mode, end);
    if !(0 <= pos < end && end <= s.len()) {
        go(nodes, pos)
    } else {
        match token_kind(v, pos) {
            Kind::NotaNewline => line_starts(
                d,
                end,
                f,
                with_text(nodes, pos, pos + 1),
                pos + 1,
                depth,
            ),
            Kind::At => form_child(d, end, f, nodes, pos, depth),
            Kind::LBrack => bracket_child(d, end, f, nodes, pos, depth),
            Kind::Slash => trivia(d, end, f, nodes, pos, depth),
            Kind::LAngle => label(d, end, f, nodes, pos),
            Kind::Amp => refer(d, end, f, nodes, pos),
            Kind::Bang => image(d, end, f, nodes, pos),
            _ => inline_span(d, end, f, nodes, pos),
        }
    }
}

/// The `@`-form at `pos`, and what opens at the line start it may end at.
pub open spec fn form_child(
    d: Input,
    end: int,
    f: Frame,
    nodes: Seq<Tree>,
    pos: int,
    depth: int,
) -> Reading
    decreases d.s.len() + 2 - pos, 14int,
{
    let r = form(d, end, Region::Markup { frame: f }, nodes, pos);
    after_form(d, end, f, r, pos, depth)
}

/// The `[` at `pos`, and what opens at the line start it may end at.
pub open spec fn bracket_child(
    d: Input,
    end: int,
    f: Frame,
    nodes: Seq<Tree>,
    pos: int,
    depth: int,
) -> Reading
    decreases d.s.len() + 2 - pos, 14int,
{
    let r = bracket(d, end, f, nodes, pos, f.mode == BodyMode::Body && depth == 0);
    after_form(d, end, f, r, pos, depth)
}

/// The emphasis, raw span, escape or literal text at `pos`.
pub open spec fn inline_span(d: Input, end: int, f: Frame, nodes: Seq<Tree>, pos: int) -> Reading
    decreases d.s.len() + 2 - pos, 14int,
{
    let v = view(d, end);
    match token_kind(v, pos) {
        Kind::Star => emphasis(d, end, nodes, pos, STAR, 1, NotaEmphasisMarker::Strong),
        Kind::NotaUnderscore => emphasis(d, end, nodes, pos, UNDERSCORE, 1, NotaEmphasisMarker::Em),
        Kind::Tilde => emphasis(d, end, nodes, pos, TILDE, 2, NotaEmphasisMarker::Strike),
        Kind::NotaBacktick => code(d, end, nodes, pos),
        Kind::NotaDollar => math(d, end, nodes, pos),
        Kind::NotaBackslash => go(
            with_text(nodes, escape(v, pos).start as int, escape(v, pos).end as int),
            escape(v, pos).end as int,
        ),
        _ => go(with_text(nodes, pos, clip(f.mode, token_end(v, pos))), token_end(v, pos)),
    }
}

/// After a form that ended where a line starts, the constructs of that line start.
pub open spec fn after_form(d: Input, end: int, f: Frame, r: Reading, pos: int, depth: int) -> Reading
    decreases d.s.len() + 2 - pos, 13int,
{
    if r.stop is None && 0 <= pos < d.s.len() && r.at > 0 && at(d.s, r.at - 1) == Some(NEWLINE) {
        line_starts(d, end, f, r.nodes, past(d.s, pos, r.at), depth)
    } else {
        r
    }
}

/// Emphasis opened by the marker of `len` bytes at `pos`, or the marker as text.
pub open spec fn emphasis(
    d: Input,
    end: int,
    nodes: Seq<Tree>,
    pos: int,
    marker: u8,
    len: int,
    which: NotaEmphasisMarker,
) -> Reading
    decreases d.s.len() + 2 - pos, 13int,
{
    match span_close(view(d, end), pos, marker, len) {
        Some(close) => if 0 <= pos && 1 <= len <= 2 && pos < d.s.len() {
            let kids = range(d, end, pos + len, close, past(d.s, pos, pos + len));
            Reading {
                nodes: nodes.push(
                    branch(NodeKind::Emphasis { marker: which }, pos, close + len, kids.nodes),
                ),
                at: close + len,
                closed: false,
                stop: kids.stop,
            }
        } else {
            go(nodes, pos)
        },
        None => go(with_text(nodes, pos, pos + len), pos + len),
    }
}

/// A code span opened at `pos`, or its backticks as text.
pub open spec fn code(d: Input, end: int, nodes: Seq<Tree>, pos: int) -> Reading
    decreases d.s.len() + 2 - pos, 13int,
{
    match code_span(view(d, end), pos) {
        CodeScan::Code { span, is_block, lang, content, resume } => if 0 <= pos < d.s.len() {
            let parts = bounded_parts(
                d,
                Seq::empty(),
                past(d.s, pos, content.start as int),
                content.end as int,
            );
            Reading {
                nodes: nodes.push(
                    branch(
                        NodeKind::Code { is_block, lang },
                        span.start as int,
                        span.end as int,
                        parts.nodes,
                    ),
                ),
                at: resume as int,
                closed: false,
                stop: parts.stop,
            }
        } else {
            go(nodes, pos)
        },
        CodeScan::Literal { resume } => go(with_text(nodes, pos, resume as int), resume as int),
    }
}

/// A math span opened at `pos`, or its dollars as text.
pub open spec fn math(d: Input, end: int, nodes: Seq<Tree>, pos: int) -> Reading
    decreases d.s.len() + 2 - pos, 13int,
{
    match math_span(view(d, end), pos) {
        MathScan::Math { span, is_block, content, resume } => if 0 <= pos < d.s.len() {
            let parts = bounded_parts(
                d,
                Seq::empty(),
                past(d.s, pos, content.start as int),
                content.end as int,
            );
            Reading {
                nodes: nodes.push(
                    branch(
                        NodeKind::Math { is_block },
                        span.start as int,
                        span.end as int,
                        parts.nodes,
                    ),
                ),
                at: resume as int,
                closed: false,
                stop: parts.stop,
            }
        } else {
            go(nodes, pos)
        },
        MathScan::Literal { resume } => go(with_text(nodes, pos, resume as int), resume as int),
    }
}

/// May `<` or `&` at `pos` fire: at the start of its body, or after what the left guard allows?
pub open spec fn sugar_fires(s: Seq<u8>, f: Frame, pos: int) -> bool {
    pos == f.start || left_guard(s, pos)
}

/// `<label>` at `pos`, or a literal `<`.
#[verifier::opaque]
pub open spec fn label(d: Input, end: int, f: Frame, nodes: Seq<Tree>, pos: int) -> Reading {
    match closed_label(view(d, end), pos + 1, clip(f.mode, end), GREATER) {
        Some(name) => if sugar_fires(d.s, f, pos) {
            go(
                nodes.push(
                    leaf(
                        NodeKind::DocState { sugar: NotaDocStateKind::Label, label: name },
                        pos,
                        name.end + 1,
                    ),
                ),
                name.end + 1,
            )
        } else {
            go(with_text(nodes, pos, pos + 1), pos + 1)
        },
        None => go(with_text(nodes, pos, pos + 1), pos + 1),
    }
}

/// `&ref` at `pos`, or a literal `&`.
pub open spec fn refer(d: Input, end: int, f: Frame, nodes: Seq<Tree>, pos: int) -> Reading
    decreases d.s.len() + 2 - pos, 14int,
{
    let limit = clip(f.mode, end);
    match reference(view(d, end), pos, limit) {
        Some(name) => if sugar_fires(d.s, f, pos) {
            if name.end < limit && 0 <= pos < d.s.len() && (at(d.s, name.end as int) == Some(LBRACK)
                || at(d.s, name.end as int) == Some(LBRACE)) {
                postfix(d, end, nodes, pos, name)
            } else {
                go(
                    nodes.push(
                        leaf(
                            NodeKind::DocState { sugar: NotaDocStateKind::Ref, label: name },
                            pos,
                            name.end as int,
                        ),
                    ),
                    name.end as int,
                )
            }
        } else {
            go(with_text(nodes, pos, pos + 1), pos + 1)
        },
        None => go(with_text(nodes, pos, pos + 1), pos + 1),
    }
}

/// The property groups and the body that are glued to the reference at `pos`, after its name.
pub open spec fn postfix(d: Input, end: int, nodes: Seq<Tree>, pos: int, name: Span) -> Reading
    decreases d.s.len() + 2 - pos, 13int,
{
    if 0 <= pos < d.s.len() {
        let c = past(d.s, pos, name.end as int);
        let groups = prop_groups(d, end, Seq::empty(), c);
        let b = at_least(d.s, c, groups.at);
        if groups.stop is Some {
            with_nodes(
                groups,
                nodes.push(
                    doc_state_tree(
                        NotaDocStateKind::Ref,
                        name,
                        pos,
                        groups.at,
                        groups.nodes,
                        Seq::empty(),
                    ),
                ),
            )
        } else if at(d.s, b) == Some(LBRACE) {
            let body = braced(d, end, b);
            with_nodes(
                body,
                nodes.push(
                    doc_state_tree(
                        NotaDocStateKind::Ref,
                        name,
                        pos,
                        body.at,
                        groups.nodes,
                        body.nodes,
                    ),
                ),
            )
        } else {
            go(
                nodes.push(
                    doc_state_tree(
                        NotaDocStateKind::Ref,
                        name,
                        pos,
                        b,
                        groups.nodes,
                        Seq::empty(),
                    ),
                ),
                b,
            )
        }
    } else {
        go(nodes, pos)
    }
}

/// A `[` at `pos`: a footnote, a link, or a literal `[`, in this order.
pub open spec fn bracket(
    d: Input,
    end: int,
    f: Frame,
    nodes: Seq<Tree>,
    pos: int,
    closer: bool,
) -> Reading
    decreases d.s.len() + 2 - pos, 13int,
{
    let limit = clip(f.mode, end);
    match footnote(view(d, end), pos, limit) {
        Some(name) => if name.end + 1 < limit && at(d.s, name.end + 1) == Some(COLON) && leads_line(
            d.s,
            pos,
            f.start as int,
        ) {
            footnote_text(d, end, f, nodes, pos, name)
        } else {
            go(
                nodes.push(
                    leaf(
                        NodeKind::DocState { sugar: NotaDocStateKind::FootnoteMark, label: name },
                        pos,
                        name.end + 1,
                    ),
                ),
                name.end + 1,
            )
        },
        None => match link_span(view(d, end), pos, limit) {
            Some(link) => if 0 <= pos < d.s.len() {
                let kids = range(
                    d,
                    end,
                    link.text.start as int,
                    link.text.end as int,
                    past(d.s, pos, link.text.start as int),
                );
                Reading {
                    nodes: nodes.push(
                        branch(
                            NodeKind::Link { url: link.url },
                            pos,
                            link.resume as int,
                            kids.nodes,
                        ),
                    ),
                    at: link.resume as int,
                    closed: false,
                    stop: kids.stop,
                }
            } else {
                go(nodes, pos)
            },
            None => if at(view(d, end), pos) == Some(LBRACK) && attrs_group(
                view(d, end),
                pos,
                limit,
                closer,
            ) is Some {
                attrs(d, end, nodes, pos)
            } else {
                go(with_text(nodes, pos, pos + 1), pos + 1)
            },
        },
    }
}

/// The attributes group whose `[` stands at `pos`.
pub open spec fn attrs(d: Input, end: int, nodes: Seq<Tree>, pos: int) -> Reading
    decreases d.s.len() + 2 - pos, 12int,
{
    if 0 <= pos < d.s.len() {
        let r = entries(d, end, Seq::empty(), pos, pos + 1);
        with_nodes(r, nodes.push(branch(NodeKind::Attrs, pos, r.at, r.nodes)))
    } else {
        go(nodes, pos)
    }
}

/// `[^name]: …` at `pos`: a body as colon sugar has it.
pub open spec fn footnote_text(
    d: Input,
    end: int,
    f: Frame,
    nodes: Seq<Tree>,
    pos: int,
    name: Span,
) -> Reading
    decreases d.s.len() + 2 - pos, 12int,
{
    let s = d.s;
    let extent = colon_extent(s, name.end + 2, indent_of(s, pos), f.mode == BodyMode::Body);
    let stop = clip(f.mode, extent.1);
    let start = smaller(extent.0, stop);
    if 0 <= pos < s.len() {
        let kids = range(d, end, start, stop, past(s, pos, start));
        Reading {
            nodes: nodes.push(
                doc_state_tree(
                    NotaDocStateKind::FootnoteText,
                    name,
                    pos,
                    stop,
                    Seq::empty(),
                    kids.nodes,
                ),
            ),
            at: stop,
            closed: false,
            stop: kids.stop,
        }
    } else {
        go(nodes, pos)
    }
}

/// `![alt](src)` whose `!` stands at `pos`, or a literal `!`.
#[verifier::opaque]
pub open spec fn image(d: Input, end: int, f: Frame, nodes: Seq<Tree>, pos: int) -> Reading {
    match link_span(view(d, end), pos + 1, clip(f.mode, end)) {
        Some(link) => go(
            nodes.push(
                leaf(NodeKind::Image { alt: link.text, src: link.url }, pos, link.resume as int),
            ),
            link.resume as int,
        ),
        None => go(with_text(nodes, pos, pos + 1), pos + 1),
    }
}

/// The comment whose `/` stands at `pos`. A comment alone on its lines takes the `\n` after it along,
/// so that it leaves no break behind.
pub open spec fn trivia(d: Input, end: int, f: Frame, nodes: Seq<Tree>, pos: int, depth: int) -> Reading
    decreases d.s.len() + 2 - pos, 13int,
{
    let s = d.s;
    let limit = clip(f.mode, end);
    let scan = comment(view(d, end), pos, limit);
    let line = line_end(s, scan.end as int);
    let kept = nodes.push(leaf(NodeKind::Comment { block: scan.block }, pos, scan.end as int));
    if scan.block && !scan.terminated {
        fail(nodes, scan.end as int, FaultKind::UnterminatedComment, pos, scan.end as int)
    } else if 0 <= pos < s.len() && leads_line(s, pos, f.start as int) && skip(
        s,
        scan.end as int,
        ByteClass::LineTail,
    ) >= line && line < limit && at(s, line) == Some(NEWLINE) {
        line_starts(d, end, f, kept, past(s, pos, line + 1), depth)
    } else {
        go(kept, scan.end as int)
    }
}

/// The constructs that open at the line start `p`: statements, lists and thematic breaks, one after
/// the other, and a heading after them. All but statements need literal braces to be closed.
pub open spec fn line_starts(
    d: Input,
    end: int,
    f: Frame,
    nodes: Seq<Tree>,
    p: int,
    depth: int,
) -> Reading
    decreases d.s.len() + 2 - p, 17int,
{
    let s = d.s;
    let open = depth == 0 && in_bound(f.mode, p);
    let stop = sugar_end(s, p, f.mode);
    if !(0 <= p < s.len()) {
        go(nodes, p)
    } else if reads_statements(f.mode) && opens_statement(s, p) {
        let r = statements(d, nodes, p);
        if r.stop is Some {
            r
        } else {
            line_starts(d, end, f, r.nodes, past(s, p, r.at), depth)
        }
    } else if open && list_marker(s, p) is Some {
        let r = list(d, end, f, nodes, list_marker(s, p)->0.indent as int, p);
        if r.stop is Some {
            r
        } else {
            line_starts(d, end, f, r.nodes, past(s, p, r.at), depth)
        }
    } else if open && thematic_break(s, p, stop) is Some {
        let dash = thematic_break(s, p, stop)->0;
        line_starts(
            d,
            end,
            f,
            nodes.push(leaf(NodeKind::ThematicBreak, dash.start as int, dash.end as int)),
            past(s, p, stop),
            depth,
        )
    } else if open && heading(s, p) is Some {
        let h = heading(s, p)->0;
        let start = smaller(h.1 as int, stop);
        let kids = range(d, end, start, stop, past(s, p, start));
        Reading {
            nodes: nodes.push(
                branch(NodeKind::Heading { level: h.0 }, p, stop, hoisted(s, kids.nodes)),
            ),
            at: stop,
            closed: false,
            stop: kids.stop,
        }
    } else {
        go(nodes, p)
    }
}

/// The list items from the line `p` on whose markers are indented by `base` or more, up to the end
/// of a bounded range.
pub open spec fn list(d: Input, end: int, f: Frame, nodes: Seq<Tree>, base: int, p: int) -> Reading
    decreases d.s.len() + 2 - p, 13int,
{
    let s = d.s;
    match list_marker(s, p) {
        Some(m) => if 0 <= p < s.len() && in_bound(f.mode, p) && m.indent >= base {
            let full = line_end(s, p);
            let line = smaller(full, sugar_end(s, p, f.mode));
            let start = smaller(m.body_col as int, line);
            let stop = if line < full {
                line
            } else {
                clip(f.mode, block_end(s, next_line(s, line), m.indent as int))
            };
            let kids = range(d, end, start, stop, past(s, p, start));
            let body = hoisted(s, kids.nodes);
            let which = if m.ordered {
                NotaListKind::Ordered
            } else {
                NotaListKind::Unordered
            };
            let more = nodes.push(
                branch(NodeKind::ListItem { list: which }, m.offset as int, stop, body),
            );
            if kids.stop is Some {
                with_nodes(kids, more)
            } else {
                list(d, end, f, more, base, past(s, p, stop))
            }
        } else {
            go(nodes, p)
        },
        None => go(nodes, p),
    }
}

/// The statement lines and fences from the line `p` on.
pub open spec fn statements(d: Input, nodes: Seq<Tree>, p: int) -> Reading
    decreases d.s.len() + 2 - p, 13int,
{
    let s = d.s;
    if 0 <= p < s.len() && opens_statement(s, p) {
        let r = statement_line(d, nodes, p);
        if r.stop is Some {
            r
        } else if opens_statement(s, past(s, p, r.at)) {
            statements(d, r.nodes, past(s, p, r.at))
        } else {
            go(r.nodes, past(s, p, r.at))
        }
    } else {
        go(nodes, p)
    }
}

/// The one statement line or fence at `p`, up to the line after it.
pub open spec fn statement_line(d: Input, nodes: Seq<Tree>, p: int) -> Reading
    decreases d.s.len() + 2 - p, 12int,
{
    let s = d.s;
    let content = content_start(s, p) + 1;
    if !(0 <= p < s.len()) {
        go(nodes, p)
    } else if is_fence(s, p) {
        let close = fence_close(s, next_line(s, p));
        let r = fence_statements(d, nodes, past(s, p, next_line(s, p)), close.0);
        if r.stop is Some {
            r
        } else {
            go(r.nodes, close.1)
        }
    } else if empty_statement(s, content) {
        go(nodes, next_line(s, content))
    } else {
        let bound = statement_stop(s, next_line(s, content));
        let r = line_statements(d, nodes, past(s, p, content), bound);
        if r.stop is Some {
            Reading { stop: Some(noted(s, r.stop->0, bound)), ..r }
        } else {
            go(r.nodes, next_line(s, r.at))
        }
    }
}

/// The same stop, noting where a fault may come from code that ended at a blank line.
pub open spec fn noted(s: Seq<u8>, stop: Stop, bound: int) -> Stop {
    match stop {
        Stop::Faulty { fault } => Stop::Faulty {
            fault: Fault {
                kind: fault.kind,
                span: fault.span,
                at_blank_line: bound < s.len() && !opens_statement(s, bound),
            },
        },
        Stop::Ask { query } => stop,
    }
}

/// What follows a statement of a `%` line.
#[derive(Clone, Copy, Debug, PartialEq, Eq, Structural)]
pub enum Follower {
    /// Another statement, on the same line.
    Statement {
        /// Where it starts.
        at: u32,
    },
    /// Markup, on the next line.
    Markup,
    /// What the table of facts does not say, or what is not JavaScript on the same line.
    Unknown,
}

/// What follows the statement that ends at `p`, in code that ends at `bound`. The lines after it are
/// markup again, whether they hold JavaScript or not.
pub open spec fn follower(d: Input, p: int, bound: int) -> Follower {
    let line = next_byte(d.s, p, NEWLINE);
    match ask(d, JsAsk::Token, p, bound) {
        Some(JsAnswer::Token { span, kind: _ }) => if line < span.start {
            Follower::Markup
        } else {
            Follower::Statement { at: span.start }
        },
        Some(JsAnswer::Nothing) => Follower::Markup,
        Some(JsAnswer::Invalid { at, reason: _ }) => if line < at {
            Follower::Markup
        } else {
            Follower::Unknown
        },
        _ => Follower::Unknown,
    }
}

/// The statements of a `%` line from `p` on, in code that ends at `bound`: one, and the next where it
/// starts on the line on which the one before it ended.
pub open spec fn line_statements(d: Input, nodes: Seq<Tree>, p: int, bound: int) -> Reading
    decreases d.s.len() + 2 - p, 10int,
{
    let s = d.s;
    let one = statement(d, nodes, p, bound);
    if one.stop is Some {
        one
    } else {
        match follower(d, one.at, bound) {
            Follower::Statement { at } => if 0 <= p < s.len() {
                line_statements(d, one.nodes, past(s, p, at as int), bound)
            } else {
                one
            },
            Follower::Markup => one,
            Follower::Unknown => halt(one.nodes, one.at, refused(d, JsAsk::Token, one.at, bound)),
        }
    }
}

/// The statements of a fence from `p` on, in code that ends at `bound`.
pub open spec fn fence_statements(d: Input, nodes: Seq<Tree>, p: int, bound: int) -> Reading
    decreases d.s.len() + 2 - p, 11int,
{
    let s = d.s;
    match ask(d, JsAsk::Token, p, bound) {
        Some(JsAnswer::Token { span, kind: _ }) => {
            proof {
                answer_answers(s, d.facts, query(JsAsk::Token, p, bound), 0);
            }
            let one = statement(d, nodes, span.start as int, bound);
            if one.stop is Some {
                one
            } else {
                fence_statements(d, one.nodes, past(s, p, one.at), bound)
            }
        },
        Some(JsAnswer::Nothing) => go(nodes, bound),
        _ => if p >= bound {
            go(nodes, bound)
        } else {
            halt(nodes, p, refused(d, JsAsk::Token, p, bound))
        },
    }
}

/// The statement at `p`, in code that ends at `bound`.
pub open spec fn statement(d: Input, nodes: Seq<Tree>, p: int, bound: int) -> Reading
    decreases d.s.len() + 2 - p, 9int,
{
    match ask(d, JsAsk::Statement, p, bound) {
        Some(JsAnswer::Statement { span, class, attach }) => {
            proof {
                answer_answers(d.s, d.facts, query(JsAsk::Statement, p, bound), 0);
            }
            let names = bindings(d, Seq::empty(), span.start as int, span.end as int);
            let forms = islands(d, bound, names.nodes, span.start as int, span.end as int);
            if names.stop is Some {
                halt(nodes, p, names.stop->0)
            } else {
                Reading {
                    nodes: nodes.push(
                        branch(
                            NodeKind::Statement { class, attach },
                            span.start as int,
                            span.end as int,
                            forms.nodes,
                        ),
                    ),
                    at: span.end as int,
                    closed: false,
                    stop: forms.stop,
                }
            }
        },
        _ => halt(nodes, p, refused(d, JsAsk::Statement, p, bound)),
    }
}

/// Where the text of a document starts: past a byte order mark.
pub open spec fn document_start(s: Seq<u8>) -> int {
    if at(s, 0) == Some(0xefu8) && at(s, 1) == Some(0xbbu8) && at(s, 2) == Some(0xbfu8) {
        3
    } else {
        0
    }
}

/// The frame of a whole document.
pub open spec fn document_frame(s: Seq<u8>) -> Frame {
    Frame { mode: BodyMode::Document, start: document_start(s) as u32 }
}

/// What the lines at the start of a document come to, up to the first that is markup text.
pub open spec fn first_lines(d: Input) -> Reading {
    line_starts(
        d,
        d.s.len() as int,
        document_frame(d.s),
        Seq::empty(),
        document_start(d.s),
        0,
    )
}

/// A whole document.
pub open spec fn document(d: Input) -> Reading {
    body(d, d.s.len() as int, document_frame(d.s), document_start(d.s))
}

} // verus!
