//! What each construct of the notation is read as: which node the bytes at a place make, over which
//! extent, and where reading goes on.

use vstd::prelude::*;
use crate::ascii::{
    AMPERSAND, AT_SIGN, BACKSLASH, BACKTICK, BANG, COLON, DOLLAR, GREATER, LBRACE, LBRACK, LESS,
    LOWER_F, LOWER_I, LOWER_O, LOWER_R, NEWLINE, PIPE, RBRACE, SLASH, STAR, TILDE, UNDERSCORE,
};
use crate::anatomy::is_upper;
use crate::blocks::colon_extent;
use crate::bytes::{at, is_space, Span};
use crate::docstate::{closed_label, footnote, label_opens, left_guard, reference};
use crate::emphasis::{emphasis_opens, intra_word, span_close, strike_opens};
use crate::escapes::escaped;
use crate::grammar::{
    after_form, ask, at_least, attrs, bindings, bounded_parts, braced, child, clip, control_body, control_head,
    colon_element, element, entries, footnote_text, for_form, for_head, form, go, head_start,
    hoisted, if_form, image, in_bound, is_filler, islands, js_at, label, last_content, line_starts,
    list, named_form, past, postfix, prop_groups, prop_lines, range, reads_statements, region_mode,
    smaller, spells2, spells3, statement, statements, sugar_end, triggered, view, BodyMode, Frame, HeadStart, Input, Reading, Region,
};
use crate::heads::{else_after, head_trigger, hyphen_tail, leads_line, ElsePeek};
use crate::js::{JsAnswer, JsAsk};
use crate::lines::{block_end, indent_of, line_end, next_line};
use crate::links::{attrs_group, link_span};
use crate::raw::{armed_stop, code_span, math_span, CodeScan, MathScan};
use crate::statements::{heading, list_marker, opens_statement, thematic_break};
use crate::token::{is_sigil, token_end, token_kind};
use crate::tree::{
    branch, leaf, BodyForm, ExprTier, NameAttach, NodeKind, NotaDocStateKind, NotaEmphasisMarker,
    NotaListKind, NotaTag, StatementClass, Tree,
};
use crate::unicode::escape;

verus! {

/// Does a reading add one node to `nodes`, go on at `to`, and stop where the reading of what stands
/// inside the node stops?
pub open spec fn adds(r: Reading, nodes: Seq<Tree>, t: Tree, to: int, inner: Reading) -> bool {
    r.nodes == nodes.push(t) && r.at == to && r.stop == inner.stop
}

/// Does a reading add text from `a` to `b` to `nodes`, and go on behind it?
pub open spec fn adds_text(r: Reading, nodes: Seq<Tree>, a: int, b: int) -> bool {
    r == go(nodes.push(leaf(NodeKind::Text, a, b)), b)
}

/// The byte of an emphasis marker, and how many of them make it.
pub open spec fn marker_bytes(marker: NotaEmphasisMarker) -> (u8, int) {
    match marker {
        NotaEmphasisMarker::Strong => (STAR, 1),
        NotaEmphasisMarker::Em => (UNDERSCORE, 1),
        NotaEmphasisMarker::Strike => (TILDE, 2),
    }
}

/// `*strong*`, `_emphasis_` and `~~struck~~` are emphasis of their kind, from the marker that opens
/// it to the one that closes it, over what is read between the two. A marker that nothing closes is
/// text.
pub proof fn emphasis_is_read(
    d: Input,
    end: int,
    f: Frame,
    nodes: Seq<Tree>,
    pos: int,
    depth: int,
    marker: NotaEmphasisMarker,
)
    requires
        0 <= pos < end <= d.s.len(),
        at(d.s, pos) == Some(marker_bytes(marker).0),
        marker is Strike ==> strike_opens(view(d, end), pos),
        !(marker is Strike) ==> emphasis_opens(view(d, end), pos, marker_bytes(marker).0),
    ensures
        ({
            let (b, len) = marker_bytes(marker);
            let r = child(d, end, f, nodes, pos, depth);
            match span_close(view(d, end), pos, b, len) {
                Some(close) => {
                    let kids = range(d, end, pos + len, close, past(d.s, pos, pos + len));
                    let t = branch(NodeKind::Emphasis { marker }, pos, close + len, kids.nodes);
                    adds(r, nodes, t, close + len, kids)
                },
                None => adds_text(r, nodes, pos, pos + len),
            }
        }),
{
    reveal(token_kind);
    assert(view(d, end)[pos] == d.s[pos]);
}

/// A sigil that is escaped, an emphasis marker inside a word, and one with white space or nothing
/// behind it open nothing: they are text.
pub proof fn sigils_that_open_nothing_are_text(
    d: Input,
    end: int,
    f: Frame,
    nodes: Seq<Tree>,
    pos: int,
    depth: int,
)
    requires
        0 <= pos < end <= d.s.len(),
        in_bound(f.mode, pos),
        ({
            let v = view(d, end);
            let b = d.s[pos];
            let marks = b == STAR || b == UNDERSCORE;
            ||| escaped(v, pos) && (marks || b == TILDE || b == LESS || b == AMPERSAND || b == LBRACK || b
                == BANG || b == SLASH)
            ||| marks && intra_word(v, pos, 1)
            ||| marks && (at(v, pos + 1) matches Some(c) ==> is_space(c))
            ||| b == TILDE && at(v, pos + 1) != Some(TILDE)
            ||| b == BANG && at(v, pos + 1) != Some(LBRACK)
            ||| b == SLASH && at(v, pos + 1) != Some(SLASH) && at(v, pos + 1) != Some(STAR)
        }),
    ensures
        adds_text(child(d, end, f, nodes, pos, depth), nodes, pos, pos + 1),
{
    reveal(token_kind);
    reveal(token_end);
    assert(view(d, end)[pos] == d.s[pos]);
}

/// Backticks and dollars make code and math over the parts of their content. Those that nothing
/// closes are text.
pub proof fn raw_spans_are_read(
    d: Input,
    end: int,
    f: Frame,
    nodes: Seq<Tree>,
    pos: int,
    depth: int,
)
    requires
        0 <= pos < end <= d.s.len(),
    ensures
        at(d.s, pos) == Some(BACKTICK) ==> ({
            let r = child(d, end, f, nodes, pos, depth);
            match code_span(view(d, end), pos) {
                CodeScan::Code { span, is_block, lang, content, resume } => {
                    let inner = bounded_parts(
                        d,
                        Seq::empty(),
                        past(d.s, pos, content.start as int),
                        content.end as int,
                    );
                    let kind = NodeKind::Code { is_block, lang };
                    adds(r, nodes, Tree { kind, span, kids: inner.nodes }, resume as int, inner)
                },
                CodeScan::Literal { resume } => pos < resume ==> adds_text(
                    r,
                    nodes,
                    pos,
                    resume as int,
                ),
            }
        }),
        at(d.s, pos) == Some(DOLLAR) ==> ({
            let r = child(d, end, f, nodes, pos, depth);
            match math_span(view(d, end), pos) {
                MathScan::Math { span, is_block, content, resume } => {
                    let inner = bounded_parts(
                        d,
                        Seq::empty(),
                        past(d.s, pos, content.start as int),
                        content.end as int,
                    );
                    let kind = NodeKind::Math { is_block };
                    adds(r, nodes, Tree { kind, span, kids: inner.nodes }, resume as int, inner)
                },
                MathScan::Literal { resume } => pos < resume ==> adds_text(
                    r,
                    nodes,
                    pos,
                    resume as int,
                ),
            }
        }),
{
    reveal(token_kind);
    assert(view(d, end)[pos] == d.s[pos]);
}

/// A backslash is left out, and what it escapes is text.
pub proof fn escapes_are_text(
    d: Input,
    end: int,
    f: Frame,
    nodes: Seq<Tree>,
    pos: int,
    depth: int,
)
    requires
        0 <= pos < end <= d.s.len(),
        at(d.s, pos) == Some(BACKSLASH),
        escape(view(d, end), pos).start < escape(view(d, end), pos).end,
    ensures
        adds_text(
            child(d, end, f, nodes, pos, depth),
            nodes,
            escape(view(d, end), pos).start as int,
            escape(view(d, end), pos).end as int,
        ),
{
    reveal(token_kind);
    assert(view(d, end)[pos] == d.s[pos]);
}

/// Braces, bars and whatever opens nothing are text.
pub proof fn other_bytes_are_text(
    d: Input,
    end: int,
    f: Frame,
    nodes: Seq<Tree>,
    pos: int,
    depth: int,
)
    requires
        0 <= pos < end <= d.s.len(),
        in_bound(f.mode, pos),
        !is_sigil(d.s[pos]) || d.s[pos] == LBRACE || d.s[pos] == RBRACE || d.s[pos] == PIPE,
        pos < token_end(view(d, end), pos),
    ensures
        ({
            let r = child(d, end, f, nodes, pos, depth);
            let e = token_end(view(d, end), pos);
            &&& r.at == e
            &&& r.stop is None
            &&& pos < clip(f.mode, e) ==> r.nodes == nodes.push(
                leaf(NodeKind::Text, pos, clip(f.mode, e)),
            )
        }),
{
    reveal(token_kind);
    assert(view(d, end)[pos] == d.s[pos]);
}

/// A line break is text, and behind it the constructs that open a line are read.
pub proof fn breaks_are_text(
    d: Input,
    end: int,
    f: Frame,
    nodes: Seq<Tree>,
    pos: int,
    depth: int,
)
    requires
        0 <= pos < end <= d.s.len(),
        at(d.s, pos) == Some(NEWLINE),
    ensures
        child(d, end, f, nodes, pos, depth) == line_starts(
            d,
            end,
            f,
            nodes.push(leaf(NodeKind::Text, pos, pos + 1)),
            pos + 1,
            depth,
        ),
{
    reveal(token_kind);
    assert(view(d, end)[pos] == d.s[pos]);
}

/// `<name>` is a label and `&name` a reference, where nothing glued to their left forbids it; other
/// `<` and `&` are text.
pub proof fn labels_and_references_are_read(
    d: Input,
    end: int,
    f: Frame,
    nodes: Seq<Tree>,
    pos: int,
    depth: int,
)
    requires
        0 <= pos < end <= d.s.len(),
        label_opens(view(d, end), pos),
    ensures
        at(d.s, pos) == Some(LESS) ==> ({
            let r = child(d, end, f, nodes, pos, depth);
            let free = pos == f.start || left_guard(d.s, pos);
            match closed_label(view(d, end), pos + 1, clip(f.mode, end), GREATER) {
                Some(name) if free => r == go(
                    nodes.push(
                        leaf(
                            NodeKind::DocState { sugar: NotaDocStateKind::Label, label: name },
                            pos,
                            name.end + 1,
                        ),
                    ),
                    name.end + 1,
                ),
                _ => adds_text(r, nodes, pos, pos + 1),
            }
        }),
        at(d.s, pos) == Some(AMPERSAND) ==> ({
            let r = child(d, end, f, nodes, pos, depth);
            let free = pos == f.start || left_guard(d.s, pos);
            match reference(view(d, end), pos, clip(f.mode, end)) {
                Some(name) if free => if name.end < clip(f.mode, end) && (at(
                    d.s,
                    name.end as int,
                ) == Some(LBRACK) || at(d.s, name.end as int) == Some(LBRACE)) {
                    r == postfix(d, end, nodes, pos, name)
                } else {
                    r == go(
                        nodes.push(
                            leaf(
                                NodeKind::DocState { sugar: NotaDocStateKind::Ref, label: name },
                                pos,
                                name.end as int,
                            ),
                        ),
                        name.end as int,
                    )
                },
                _ => adds_text(r, nodes, pos, pos + 1),
            }
        }),
{
    reveal(token_kind);
    reveal(label);
    assert(view(d, end)[pos] == d.s[pos]);
}

/// `![alt](src)` is an image; another `!` is text.
pub proof fn images_are_read(
    d: Input,
    end: int,
    f: Frame,
    nodes: Seq<Tree>,
    pos: int,
    depth: int,
)
    requires
        0 <= pos < end <= d.s.len(),
        at(d.s, pos) == Some(BANG),
        at(view(d, end), pos + 1) == Some(LBRACK),
        !escaped(view(d, end), pos),
    ensures
        ({
            let r = child(d, end, f, nodes, pos, depth);
            match link_span(view(d, end), pos + 1, clip(f.mode, end)) {
                Some(link) => r == go(
                    nodes.push(
                        leaf(
                            NodeKind::Image { alt: link.text, src: link.url },
                            pos,
                            link.resume as int,
                        ),
                    ),
                    link.resume as int,
                ),
                None => adds_text(r, nodes, pos, pos + 1),
            }
        }),
{
    reveal(token_kind);
    reveal(image);
    assert(view(d, end)[pos] == d.s[pos]);
}

/// `[^name]: ...` at the start of a line is the text of a footnote and `[^name]` elsewhere its mark;
/// `[text](url)` is a link over what is read between its brackets; a group of attributes is one; and
/// another `[` is text. After each, a line that starts there is read as one.
pub proof fn brackets_are_read(
    d: Input,
    end: int,
    f: Frame,
    nodes: Seq<Tree>,
    pos: int,
    depth: int,
)
    requires
        0 <= pos < end <= d.s.len(),
        at(d.s, pos) == Some(LBRACK),
        !escaped(view(d, end), pos),
    ensures
        ({
            let limit = clip(f.mode, end);
            let r = child(d, end, f, nodes, pos, depth);
            match footnote(view(d, end), pos, limit) {
                Some(name) => if name.end + 1 < limit && at(d.s, name.end + 1) == Some(COLON)
                    && leads_line(d.s, pos, f.start as int) {
                    r == after_form(
                        d,
                        end,
                        f,
                        footnote_text(d, end, f, nodes, pos, name),
                        pos,
                        depth,
                    )
                } else {
                    let kind = NodeKind::DocState {
                        sugar: NotaDocStateKind::FootnoteMark,
                        label: name,
                    };
                    r == after_form(
                        d,
                        end,
                        f,
                        go(nodes.push(leaf(kind, pos, name.end + 1)), name.end + 1),
                        pos,
                        depth,
                    )
                },
                None => match link_span(view(d, end), pos, limit) {
                    Some(link) => {
                        let kids = range(
                            d,
                            end,
                            link.text.start as int,
                            link.text.end as int,
                            past(d.s, pos, link.text.start as int),
                        );
                        let kind = NodeKind::Link { url: link.url };
                        let made = nodes.push(branch(kind, pos, link.resume as int, kids.nodes));
                        r == after_form(
                            d,
                            end,
                            f,
                            (Reading {
                                nodes: made,
                                at: link.resume as int,
                                closed: false,
                                stop: kids.stop,
                            }),
                            pos,
                            depth,
                        )
                    },
                    None => {
                        let closer = f.mode == BodyMode::Body && depth == 0;
                        let read = if attrs_group(view(d, end), pos, limit, closer) is Some {
                            attrs(d, end, nodes, pos)
                        } else {
                            go(nodes.push(leaf(NodeKind::Text, pos, pos + 1)), pos + 1)
                        };
                        r == after_form(d, end, f, read, pos, depth)
                    },
                },
            }
        }),
{
    reveal(token_kind);
    assert(view(d, end)[pos] == d.s[pos]);
}

/// A group of attributes is a node from its `[` on, over its entries.
pub proof fn attributes_are_read(d: Input, end: int, nodes: Seq<Tree>, pos: int)
    requires
        0 <= pos < d.s.len(),
    ensures
        ({
            let inner = entries(d, end, Seq::empty(), pos, pos + 1);
            let t = branch(NodeKind::Attrs, pos, inner.at, inner.nodes);
            adds(attrs(d, end, nodes, pos), nodes, t, inner.at, inner)
        }),
{
}

/// `---` on a line of its own is a thematic break, `#`s and a space make the rest of their line a
/// heading of their number, list markers open a list, and a line that opens statements holds them.
/// Statements come before all, and the others wait for open braces to close. Nothing is read of a
/// line that opens none of these.
pub proof fn line_starts_are_read(
    d: Input,
    end: int,
    f: Frame,
    nodes: Seq<Tree>,
    p: int,
    depth: int,
)
    requires
        0 <= p < d.s.len(),
    ensures
        ({
            let s = d.s;
            let r = line_starts(d, end, f, nodes, p, depth);
            let stop = sugar_end(s, p, f.mode);
            let held = reads_statements(f.mode) && opens_statement(s, p);
            let open = !held && depth == 0 && in_bound(f.mode, p);
            &&& held ==> ({
                let read = statements(d, nodes, p);
                if read.stop is Some {
                    r == read
                } else {
                    r == line_starts(d, end, f, read.nodes, past(s, p, read.at), depth)
                }
            })
            &&& open && list_marker(s, p) is Some ==> ({
                let read = list(d, end, f, nodes, list_marker(s, p)->0.indent as int, p);
                if read.stop is Some {
                    r == read
                } else {
                    r == line_starts(d, end, f, read.nodes, past(s, p, read.at), depth)
                }
            })
            &&& open && list_marker(s, p) is None && thematic_break(s, p, stop) is Some ==> ({
                let dash = thematic_break(s, p, stop)->0;
                r == line_starts(
                    d,
                    end,
                    f,
                    nodes.push(
                        leaf(NodeKind::ThematicBreak, dash.start as int, dash.end as int),
                    ),
                    past(s, p, stop),
                    depth,
                )
            })
            &&& open && list_marker(s, p) is None && thematic_break(s, p, stop) is None
                && heading(s, p) is Some ==> ({
                let (level, from, _) = heading(s, p)->0;
                let start = smaller(from as int, stop);
                let kids = range(d, end, start, stop, past(s, p, start));
                let t = branch(NodeKind::Heading { level }, p, stop, hoisted(s, kids.nodes));
                adds(r, nodes, t, stop, kids)
            })
            &&& !held && (!open || (list_marker(s, p) is None && thematic_break(s, p, stop) is None
                && heading(s, p) is None)) ==> r == go(nodes, p)
        }),
{
}

/// Each list marker that is indented far enough makes an item, numbered or not as the marker says,
/// over the rest of its line and the lines indented past it. The list goes on behind it.
pub proof fn items_are_read(d: Input, end: int, f: Frame, nodes: Seq<Tree>, base: int, p: int)
    requires
        0 <= p < d.s.len(),
        in_bound(f.mode, p),
        list_marker(d.s, p) is Some,
        list_marker(d.s, p)->0.indent >= base,
    ensures
        ({
            let s = d.s;
            let m = list_marker(s, p)->0;
            let line = smaller(line_end(s, p), sugar_end(s, p, f.mode));
            let start = smaller(m.body_col as int, line);
            let stop = if line < line_end(s, p) {
                line
            } else {
                clip(f.mode, block_end(s, next_line(s, line), m.indent as int))
            };
            let kids = range(d, end, start, stop, past(s, p, start));
            let kind = NodeKind::ListItem {
                list: if m.ordered {
                    NotaListKind::Ordered
                } else {
                    NotaListKind::Unordered
                },
            };
            let t = branch(kind, m.offset as int, stop, hoisted(s, kids.nodes));
            let r = list(d, end, f, nodes, base, p);
            if kids.stop is Some {
                adds(r, nodes, t, kids.at, kids)
            } else {
                r == list(d, end, f, nodes.push(t), base, past(s, p, stop))
            }
        }),
{
}

/// Attributes that trail the children of a heading or an item become its own properties, in front,
/// and every other child stays where it was; without such attributes nothing moves.
pub proof fn trailing_attributes_are_hoisted(s: Seq<u8>, kids: Seq<Tree>, i: int)
    requires
        0 <= i < kids.len(),
        !is_filler(s, kids[i]),
        forall|k: int| i < k < kids.len() ==> is_filler(s, #[trigger] kids[k]),
    ensures
        kids[i].kind != NodeKind::Attrs ==> hoisted(s, kids) == kids,
        kids[i].kind == NodeKind::Attrs ==> ({
            let h = hoisted(s, kids);
            &&& h.len() == kids.len()
            &&& h[0].kind == NodeKind::Props
            &&& h[0].span == kids[i].span
            &&& h[0].kids == kids[i].kids
            &&& forall|k: int| 0 <= k < i ==> #[trigger] h[k + 1] == kids[k]
            &&& forall|k: int| i < k < kids.len() ==> #[trigger] h[k] == kids[k]
        }),
{
    last_content_is(s, kids, i, kids.len() as int);
}

/// The last content of children is the last that is no filler.
proof fn last_content_is(s: Seq<u8>, kids: Seq<Tree>, i: int, n: int)
    requires
        0 <= i < n <= kids.len(),
        !is_filler(s, kids[i]),
        forall|k: int| i < k < n ==> is_filler(s, #[trigger] kids[k]),
    ensures
        last_content(s, kids, n) == Some(i),
    decreases n,
{
    if i < n - 1 {
        assert(is_filler(s, kids[n - 1]));
        last_content_is(s, kids, i, n - 1);
    }
}

/// The word `if` behind an `@` makes a conditional: its condition, its branch and, where an `else`
/// follows, the conditional or the fragment behind that.
pub proof fn conditionals_are_read(d: Input, end: int, region: Region, nodes: Seq<Tree>, pos: int)
    requires
        0 <= pos < d.s.len(),
        head_start(d, end, pos + 1) matches HeadStart::Name { span } && spells2(
            d.s,
            span,
            LOWER_I,
            LOWER_F,
        ),
    ensures
        ({
            let s = d.s;
            let c = past(s, pos, head_start(d, end, pos + 1)->span.end as int);
            let cond = control_head(d, end, c);
            let then = control_body(d, end, pos, at_least(s, c, cond.at));
            let r = form(d, end, region, nodes, pos);
            cond.stop is None && then.stop is None && c < s.len() ==> match else_after(s, then.at) {
                ElsePeek::Ends => {
                    let t = branch(NodeKind::If, pos, then.at, cond.nodes + then.nodes);
                    adds(r, nodes, t, then.at, then)
                },
                ElsePeek::ElseIf { if_offset } => {
                    let other = if_form(
                        d,
                        end,
                        cond.nodes + then.nodes,
                        if_offset as int,
                        past(s, c, if_offset + 2),
                    );
                    let t = branch(NodeKind::If, pos, other.at, other.nodes);
                    adds(r, nodes, t, other.at, other)
                },
                ElsePeek::Else { brace_offset } => {
                    let other = braced(d, end, past(s, c, brace_offset as int));
                    let fallback = branch(
                        NodeKind::Fragment,
                        brace_offset as int,
                        other.at,
                        other.nodes,
                    );
                    let kids = cond.nodes + then.nodes + seq![fallback];
                    adds(r, nodes, branch(NodeKind::If, pos, other.at, kids), other.at, other)
                },
            }
        }),
{
    let c = past(d.s, pos, head_start(d, end, pos + 1)->span.end as int);
    let cond = control_head(d, end, c);
    let then = control_body(d, end, pos, at_least(d.s, c, cond.at));
    assert(form(d, end, region, nodes, pos) == if_form(d, end, nodes, pos, c));
    if let ElsePeek::Else { brace_offset } = else_after(d.s, then.at) {
        let other = braced(d, end, past(d.s, c, brace_offset as int));
        let fallback = branch(NodeKind::Fragment, brace_offset as int, other.at, other.nodes);
        assert((cond.nodes + then.nodes).push(fallback) =~= cond.nodes + then.nodes + seq![
            fallback,
        ]);
    }
}

/// The word `for` behind an `@` makes a loop: its pattern and its iterable, then its body.
pub proof fn loops_are_read(d: Input, end: int, region: Region, nodes: Seq<Tree>, pos: int)
    requires
        0 <= pos < d.s.len(),
        head_start(d, end, pos + 1) matches HeadStart::Name { span } && spells3(
            d.s,
            span,
            LOWER_F,
            LOWER_O,
            LOWER_R,
        ),
    ensures
        ({
            let s = d.s;
            let c = past(s, pos, head_start(d, end, pos + 1)->span.end as int);
            let head = for_head(d, end, c);
            let inner = control_body(d, end, pos, at_least(s, c, head.at));
            let t = branch(NodeKind::For, pos, inner.at, head.nodes + inner.nodes);
            head.stop is None ==> adds(form(d, end, region, nodes, pos), nodes, t, inner.at, inner)
        }),
{
    let c = past(d.s, pos, head_start(d, end, pos + 1)->span.end as int);
    assert(form(d, end, region, nodes, pos) == for_form(d, end, nodes, pos, c));
}

/// `@{...}` is a fragment over what its braces hold.
pub proof fn fragments_are_read(d: Input, end: int, region: Region, nodes: Seq<Tree>, pos: int)
    requires
        0 <= pos,
        pos + 1 < end <= d.s.len(),
        at(d.s, pos + 1) == Some(LBRACE),
        head_start(d, end, pos + 1) is Brace,
    ensures
        ({
            let o = head_start(d, end, pos + 1)->Brace_at as int;
            let inner = braced(d, end, past(d.s, pos, o));
            let t = branch(NodeKind::Fragment, pos, inner.at, inner.nodes);
            adds(form(d, end, region, nodes, pos), nodes, t, inner.at, inner)
        }),
{
}

/// A name behind an `@` that nothing is glued to is an interpolation of the name itself.
pub proof fn bare_names_are_interpolated(
    d: Input,
    end: int,
    region: Region,
    nodes: Seq<Tree>,
    pos: int,
)
    requires
        0 <= pos < d.s.len(),
        head_start(d, end, pos + 1) matches HeadStart::Name { span } && !spells2(
            d.s,
            span,
            LOWER_I,
            LOWER_F,
        ) && !spells3(d.s, span, LOWER_F, LOWER_O, LOWER_R) && pos < span.end <= d.s.len() && hyphen_tail(
            d.s,
            span.end as int,
        ) <= span.end && head_trigger(d.s, span.end as int) is Bare,
    ensures
        ({
            let span = head_start(d, end, pos + 1)->span;
            let name = Tree {
                kind: NodeKind::Js { tier: ExprTier::Primary },
                span,
                kids: Seq::empty(),
            };
            let t = Tree { kind: NodeKind::Interpolation, span, kids: seq![name] };
            form(d, end, region, nodes, pos) == go(nodes.push(t), span.end as int)
        }),
{
    let span = head_start(d, end, pos + 1)->span;
    assert(form(d, end, region, nodes, pos) == named_form(d, end, region, nodes, pos, span));
}

/// An element holds the properties of the groups behind its head, and what the braces behind these
/// hold; where no body opens there, it holds the properties alone.
#[verifier::spinoff_prover]
pub proof fn elements_are_read(
    d: Input,
    end: int,
    region: Region,
    nodes: Seq<Tree>,
    pos: int,
    tag: NotaTag,
    dynamic: Seq<Tree>,
    c: int,
)
    requires
        0 <= c <= d.s.len(),
        prop_groups(d, end, Seq::empty(), c).stop is None,
    ensures
        ({
            let groups = prop_groups(d, end, Seq::empty(), c);
            let b = at_least(d.s, c, groups.at);
            let r = element(d, end, region, nodes, pos, tag, dynamic, c);
            let kind = NodeKind::Element { tag, body: BodyForm::Braced };
            &&& at(d.s, b) == Some(LBRACE) ==> ({
                let inner = braced(d, end, b);
                let kids = seq![
                    branch(NodeKind::Props, pos, inner.at, groups.nodes),
                    branch(NodeKind::Body, pos, inner.at, inner.nodes),
                ];
                adds(r, nodes, branch(kind, pos, inner.at, kids + dynamic), inner.at, inner)
            })
            &&& at(d.s, b) != Some(LBRACE) && at(d.s, b) != Some(PIPE) && at(d.s, b) != Some(COLON)
                ==> ({
                let kids = seq![
                    branch(NodeKind::Props, pos, b, groups.nodes),
                    branch(NodeKind::Body, pos, b, Seq::empty()),
                ];
                r == go(nodes.push(branch(kind, pos, b, kids + dynamic)), b)
            })
        }),
{
}

/// A name behind an `@` with a `{` or a `[` glued to it heads an element of that name, a component's
/// where the name starts with an upper-case letter.
#[verifier::spinoff_prover]
pub proof fn names_head_elements(
    d: Input,
    end: int,
    region: Region,
    nodes: Seq<Tree>,
    pos: int,
)
    requires
        0 <= pos < d.s.len(),
        head_start(d, end, pos + 1) matches HeadStart::Name { span } && !spells2(
            d.s,
            span,
            LOWER_I,
            LOWER_F,
        ) && !spells3(d.s, span, LOWER_F, LOWER_O, LOWER_R) && pos < span.end < d.s.len() && hyphen_tail(
            d.s,
            span.end as int,
        ) <= span.end && (at(d.s, span.end as int) == Some(LBRACE) || at(d.s, span.end as int)
            == Some(LBRACK)),
    ensures
        ({
            let name = head_start(d, end, pos + 1)->span;
            let tag = if is_upper(d.s, name.start as int) {
                NotaTag::Component { name }
            } else {
                NotaTag::Host { name }
            };
            form(d, end, region, nodes, pos) == element(
                d,
                end,
                region,
                nodes,
                pos,
                tag,
                Seq::empty(),
                name.end as int,
            )
        }),
{
    let name = head_start(d, end, pos + 1)->span;
    let tag = if is_upper(d.s, name.start as int) {
        NotaTag::Component { name }
    } else {
        NotaTag::Host { name }
    };
    let head = seq![
        leaf(NodeKind::Js { tier: ExprTier::Primary }, name.start as int, name.end as int),
    ];
    assert(form(d, end, region, nodes, pos) == named_form(d, end, region, nodes, pos, name));
    assert(named_form(d, end, region, nodes, pos, name) == triggered(
        d,
        end,
        region,
        nodes,
        pos,
        tag,
        head,
        name.end as int,
    ));
}

/// Raw text without an armed form, a `|@`, is one raw run.
pub proof fn raw_text_is_one_run(d: Input, nodes: Seq<Tree>, p: int, e: int)
    requires
        0 <= p < e <= d.s.len(),
        forall|i: int| p <= i && i + 1 < e ==> !(#[trigger] d.s[i] == PIPE && d.s[i + 1] == AT_SIGN),
    ensures
        bounded_parts(d, nodes, p, e) == go(nodes.push(leaf(NodeKind::Raw, p, e)), e),
{
    unarmed(d.s, p, e);
}

/// Nothing is armed where no `|@` stands.
proof fn unarmed(s: Seq<u8>, i: int, e: int)
    requires
        0 <= i <= e <= s.len(),
        forall|k: int| i <= k && k + 1 < e ==> !(#[trigger] s[k] == PIPE && s[k + 1] == AT_SIGN),
    ensures
        armed_stop(s, i, e) == e,
    decreases e - i,
{
    if i + 1 < e {
        assert(!(s[i] == PIPE && s[i + 1] == AT_SIGN));
        unarmed(s, i + 1, e);
    }
}

/// An armed form ends a raw run and is read as a form; behind it the raw text goes on.
pub proof fn armed_forms_are_read(d: Input, nodes: Seq<Tree>, p: int, i: int, e: int)
    requires
        0 <= p < i,
        i + 1 < e <= d.s.len(),
        d.s[i] == PIPE,
        d.s[i + 1] == AT_SIGN,
        forall|k: int| p <= k < i ==> !(#[trigger] d.s[k] == PIPE && d.s[k + 1] == AT_SIGN),
    ensures
        ({
            let read = form(d, e, Region::Raw, nodes.push(leaf(NodeKind::Raw, p, i)), i + 1);
            read.stop is None && read.at <= e ==> bounded_parts(d, nodes, p, e) == bounded_parts(
                d,
                read.nodes,
                past(d.s, p, read.at),
                e,
            )
        }),
{
    armed_at(d.s, p, i, e);
}

/// The first `|@` is where the run ends.
proof fn armed_at(s: Seq<u8>, p: int, i: int, e: int)
    requires
        0 <= p <= i,
        i + 1 < e <= s.len(),
        s[i] == PIPE,
        s[i + 1] == AT_SIGN,
        forall|k: int| p <= k < i ==> !(#[trigger] s[k] == PIPE && s[k + 1] == AT_SIGN),
    ensures
        armed_stop(s, p, e) == i,
    decreases i - p,
{
    if p < i {
        assert(!(s[p] == PIPE && s[p + 1] == AT_SIGN));
        armed_at(s, p + 1, i, e);
    }
}

/// A statement is one node over its code, placed as its class says.
pub proof fn statements_are_one_node(
    d: Input,
    nodes: Seq<Tree>,
    p: int,
    bound: int,
    span: Span,
    class: StatementClass,
    attach: Option<NameAttach>,
)
    requires
        ask(d, JsAsk::Statement, p, bound) == Some(JsAnswer::Statement { span, class, attach }),
    ensures
        ({
            let r = statement(d, nodes, p, bound);
            let names = bindings(d, Seq::empty(), span.start as int, span.end as int);
            let forms = islands(d, bound, names.nodes, span.start as int, span.end as int);
            let t = Tree {
                kind: NodeKind::Statement { class, attach },
                span,
                kids: forms.nodes,
            };
            names.stop is None ==> adds(r, nodes, t, span.end as int, forms)
        }),
{
}

/// JavaScript is one node over its extent, with the forms inside it below.
pub proof fn code_is_one_node(
    d: Input,
    end: int,
    what: JsAsk,
    p: int,
    span: Span,
    tier: ExprTier,
)
    requires
        ask(d, what, p, end) == Some(JsAnswer::Extent { span, tier }),
    ensures
        ({
            let forms = islands(d, end, Seq::empty(), span.start as int, span.end as int);
            let t = Tree { kind: NodeKind::Js { tier }, span, kids: forms.nodes };
            adds(js_at(d, end, what, p), Seq::empty(), t, span.end as int, forms)
        }),
{
    let forms = islands(d, end, Seq::empty(), span.start as int, span.end as int);
    let t = branch(NodeKind::Js { tier }, span.start as int, span.end as int, forms.nodes);
    assert(seq![t] =~= Seq::<Tree>::empty().push(t));
}

/// The body of `@head: ...` is the rest of its line and the lines indented past that of the head,
/// unless a brace or a bound ends it before; the properties it was given stay.
#[verifier::spinoff_prover]
pub proof fn colon_bodies_are_read(
    d: Input,
    end: int,
    region: Region,
    nodes: Seq<Tree>,
    pos: int,
    tag: NotaTag,
    dynamic: Seq<Tree>,
    props: Seq<Tree>,
    c: int,
)
    requires
        0 <= c < d.s.len(),
    ensures
        ({
            let s = d.s;
            let mode = region_mode(region);
            let extent = colon_extent(s, c + 1, indent_of(s, pos), mode == BodyMode::Body);
            let stop = clip(mode, extent.1);
            let first = past(s, c, next_line(s, extent.0));
            let inner = range(d, end, extent.0, stop, past(s, c, extent.0));
            let kids = seq![
                branch(NodeKind::Props, pos, stop, props),
                branch(NodeKind::Body, pos, stop, inner.nodes),
            ];
            let kind = NodeKind::Element { tag, body: BodyForm::Colon };
            prop_lines(d, end, props, first, stop) == go(props, first) ==> adds(
                colon_element(d, end, region, nodes, pos, tag, dynamic, props, c),
                nodes,
                branch(kind, pos, stop, kids + dynamic),
                stop,
                inner,
            )
        }),
{
}

} // verus!
