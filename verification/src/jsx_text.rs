//! What JSX a document is written as, construct by construct.
//!
//! What is written for a node does not depend on what was written before it, so that each construct
//! has a text of its own; the laws here say what that text is.

use vstd::prelude::*;
use crate::ascii::{AMPERSAND, DIGIT_0, DQUOTE, GREATER, LESS, SEMICOLON};
use crate::bytes::{utf8, Span};
use crate::hyper::{is_hoisted, rank};
use crate::jsx::{
    anchored, argument, attr, attr_value, attrs, child, children, document, each, element,
    element_body, enclosed, enclosed_raw, flushed, fragment, held_with, is_dropped, is_flow,
    is_loose, item, item_element, items, markup, node, none_kept, opened_body, part_text, parts,
    routed, show, slot, splice, statement, statements, table_items, tag_text, text_attr,
};
use crate::literals::literal;
use crate::lowering::{
    breaks_template, child_pieces, child_text, first_child, interpolates_element, is_host, is_row,
        is_statement,
    is_white_piece, key_text, refuses_text, rows_end, rows_end_bounds, statements_end,
    statements_end_bounds, url_text,
};
use crate::names::flow_names;
use crate::output::{
    blank, escape_byte, escaped_after, put, put_anchor, put_quoted, put_source, slice, Written,
};
use crate::scribble::Piece;
use crate::tree::{
    BodyForm, ExprTier, NodeKind, NotaDocStateKind, NotaEmphasisMarker, NotaListKind, NotaTag,
    StatementClass, Tree,
};
use crate::unicode::boundary;

verus! {

/// Is a text what stood there, and more behind it?
pub open spec fn follows(text: Seq<u8>, before: Seq<u8>, more: Seq<u8>) -> bool {
    text == before + more
}

/// Is what was written what stood there, and `more` behind it?
#[verifier::opaque]
pub open spec fn grows(before: Written, after: Written, more: Seq<u8>) -> bool {
    after.code == before.code + more
}

/// Was the same written after `w`, up to `a`, as after nothing, up to `b`?
#[verifier::opaque]
pub open spec fn alike(w: Written, a: Written, b: Written) -> bool {
    a.code == w.code + b.code
}

/// Before anything is written, nothing differs.
pub proof fn alike_at_first(w: Written)
    ensures
        alike(w, w, blank()),
{
    reveal(alike);
    assert(w.code + Seq::<u8>::empty() =~= w.code);
}

/// What was written alike adds to what stood there what it is on its own.
pub proof fn alike_at_last(w: Written, a: Written, b: Written)
    requires
        alike(w, a, b),
    ensures
        grows(w, a, b.code),
{
    reveal(alike);
    reveal(grows);
}

/// The same text behind what was written alike leaves it so.
pub broadcast proof fn alike_by_put(w: Written, a: Written, b: Written, t: Seq<u8>)
    requires
        #[trigger] alike(w, a, b),
    ensures
        alike(w, #[trigger] put(a, t), #[trigger] put(b, t)),
{
    reveal(alike);
    assert(put(a, t).code =~= w.code + put(b, t).code);
}

/// A step that adds what it is on its own leaves what was written alike so.
pub broadcast proof fn alike_by_step(
    w: Written,
    a: Written,
    b: Written,
    p: Written,
    q: Written,
    more: Seq<u8>,
)
    requires
        #[trigger] alike(w, a, b),
        #[trigger] grows(a, p, more),
        #[trigger] grows(b, q, more),
    ensures
        alike(w, p, q),
{
    reveal(alike);
    reveal(grows);
    assert(p.code =~= w.code + q.code);
}

/// The same source behind what was written alike leaves it so.
pub broadcast proof fn alike_by_source(
    w: Written,
    a: Written,
    b: Written,
    s: Seq<u8>,
    from: int,
    to: int,
)
    requires
        #[trigger] alike(w, a, b),
    ensures
        alike(w, #[trigger] put_source(a, s, from, to), #[trigger] put_source(b, s, from, to)),
{
    reveal(alike);
    assert(put_source(a, s, from, to).code =~= w.code + put_source(b, s, from, to).code);
}

/// An anchor behind what was written alike leaves it so.
pub broadcast proof fn alike_by_anchor(w: Written, a: Written, b: Written, span: Span)
    requires
        #[trigger] alike(w, a, b),
    ensures
        alike(w, #[trigger] put_anchor(a, span), #[trigger] put_anchor(b, span)),
{
    reveal(alike);
}

/// Does a text read like this?
pub open spec fn reads(text: Seq<u8>, like: Seq<u8>) -> bool {
    text == like
}

/// Texts join the same way, whichever two are joined first.
pub broadcast proof fn joined(a: Seq<u8>, b: Seq<u8>, c: Seq<u8>)
    ensures
        #[trigger] ((a + b) + c) == a + (b + c),
{
    assert((a + b) + c =~= a + (b + c));
}

/// Nothing before a text is the text.
pub broadcast proof fn joined_to_nothing(a: Seq<u8>)
    ensures
        #[trigger] (Seq::<u8>::empty() + a) == a,
{
    assert(Seq::<u8>::empty() + a =~= a);
}

/// The escaped text of a literal does not depend on what stands before it.
pub proof fn escaped_adds(code: Seq<u8>, t: Seq<u8>, i: int)
    ensures
        follows(escaped_after(code, t, i), code, escaped_after(Seq::empty(), t, i)),
    decreases t.len() - i,
{
    broadcast use joined, joined_to_nothing;

    if 0 <= i < t.len() {
        let b = escape_byte(t[i]);
        escaped_adds(code + b, t, i + 1);
        escaped_adds(Seq::<u8>::empty() + b, t, i + 1);
    } else {
        assert(code + Seq::<u8>::empty() =~= code);
    }
}

/// A string literal is written after what is there.
pub proof fn quoted_adds(w: Written, t: Seq<u8>)
    ensures
        grows(w, put_quoted(w, t), put_quoted(blank(), t).code),
{
    broadcast use joined, joined_to_nothing;

    reveal(grows);
    escaped_adds(w.code + utf8("\""), t, 0);
    escaped_adds(Seq::<u8>::empty() + utf8("\""), t, 0);
}

/// What `flushed` writes does not depend on what stands before it.
proof fn flushed_adds(w: Written, held: Option<Seq<u8>>)
    ensures
        grows(w, flushed(w, held), flushed(blank(), held).code),
{
    broadcast use joined, joined_to_nothing;

    reveal(grows);
    if let Some(t) = held {
        quoted_adds(put(w, utf8("{")), t);
        quoted_adds(put(blank(), utf8("{")), t);
    } else {
        assert(w.code + Seq::<u8>::empty() =~= w.code);
    }
}

/// What `text_attr` writes does not depend on what stands before it.
proof fn text_attr_adds(w: Written, name: Seq<u8>, t: Seq<u8>)
    ensures
        grows(w, text_attr(w, name, t), text_attr(blank(), name, t).code),
{
    broadcast use joined, joined_to_nothing;

    reveal(grows);
    quoted_adds(put(put(w, name), utf8("{")), t);
    quoted_adds(put(put(blank(), name), utf8("{")), t);
}

/// What `node` writes does not depend on what stands before it.
proof fn node_adds(s: Seq<u8>, w: Written, t: Tree)
    ensures
        grows(w, node(s, w, t), node(s, blank(), t).code),
    decreases t, 0int, 20int, 0int,
{
    broadcast use alike_by_put, alike_by_step, alike_by_source, alike_by_anchor;

    alike_at_first(w);
    {
        let kids = t.kids;
        match t.kind {
            NodeKind::Element { tag, body } => element_adds(s, w, t, tag, body),
            NodeKind::Fragment => fragment_adds(s, w, t, true),
            NodeKind::Interpolation => if kids.len() > 0 {
                argument_adds(s, w, kids[0]);
            },
            NodeKind::Js { tier: _ } => argument_adds(s, w, t),
            NodeKind::Markup => if kids.len() > 0 {
                node_adds(s, w, kids[0]);
            },
            NodeKind::If => show_adds(s, w, t),
            NodeKind::For => each_adds(s, w, t),
            NodeKind::Emphasis { marker } => match marker {
                NotaEmphasisMarker::Strong => enclosed_adds(
                    s,
                    put(w, utf8("<strong")),
                    kids,
                    0,
                    true,
                    utf8("strong"),
                ),
                NotaEmphasisMarker::Em => enclosed_adds(s, put(w, utf8("<em")), kids, 0, true,
                    utf8("em")),
                NotaEmphasisMarker::Strike => enclosed_adds(
                    s,
                    put(w, utf8("<s")),
                    kids,
                    0,
                    true,
                    utf8("s"),
                ),
            },
            NodeKind::Heading { level } => item_element_adds(
                s,
                put(put(put(w, utf8("<Heading rank={")), rank(level)), utf8("}")),
                t,
                utf8("Heading"),
            ),
            NodeKind::ListItem { list } => match list {
                NotaListKind::Unordered => item_element_adds(s, put(w, utf8("<UlLi")), t,
                    utf8("UlLi")),
                NotaListKind::Ordered => item_element_adds(s, put(w, utf8("<OlLi")), t,
                    utf8("OlLi")),
            },
            NodeKind::Attrs => attrs_adds(s, put(w, utf8("<Attrs")), kids, 0),
            NodeKind::DocState { sugar, label } => doc_state_adds(s, w, t, sugar, label),
            NodeKind::Link { url } => {
                let open = put(w, utf8("<a"));
                text_attr_adds(open, utf8(" href="), url_text(slice(s, url)));
                let given = text_attr(open, utf8(" href="), url_text(slice(s, url)));
                enclosed_adds(s, given, kids, 0, true, utf8("a"));
            },
            NodeKind::Image { alt, src } => {
                let open = put(w, utf8("<img"));
                text_attr_adds(open, utf8(" src="), url_text(slice(s, src)));
                let given = text_attr(open, utf8(" src="), url_text(slice(s, src)));
                text_attr_adds(given, utf8(" alt="), url_text(slice(s, alt)));
            },
            NodeKind::Code { is_block, lang } => if !is_block {
                enclosed_raw_adds(s, put(w, utf8("<CodeInline")), kids, false, utf8("CodeInline"));
            } else {
                match lang {
                    Some(tag) => {
                        let open = put(w, utf8("<CodeBlock"));
                        text_attr_adds(open, utf8(" lang="), slice(s, tag));
                        let given = text_attr(open, utf8(" lang="), slice(s, tag));
                        enclosed_raw_adds(s, given, kids, false, utf8("CodeBlock"));
                    },
                    None => enclosed_raw_adds(
                        s,
                        put(w, utf8("<CodeBlock")),
                        kids,
                        false,
                        utf8("CodeBlock"),
                    ),
                }
            },
            NodeKind::Math { is_block } => if is_block {
                enclosed_raw_adds(s, put(w, utf8("<Tex display")), kids, false, utf8("Tex"));
            } else {
                enclosed_raw_adds(s, put(w, utf8("<Tex")), kids, false, utf8("Tex"));
            },
            _ => {},
        }
    }
    {
        let kids = t.kids;
        match t.kind {
            NodeKind::Element { tag, body } => element_adds(s, blank(), t, tag, body),
            NodeKind::Fragment => fragment_adds(s, blank(), t, true),
            NodeKind::Interpolation => if kids.len() > 0 {
                argument_adds(s, blank(), kids[0]);
            },
            NodeKind::Js { tier: _ } => argument_adds(s, blank(), t),
            NodeKind::Markup => if kids.len() > 0 {
                node_adds(s, blank(), kids[0]);
            },
            NodeKind::If => show_adds(s, blank(), t),
            NodeKind::For => each_adds(s, blank(), t),
            NodeKind::Emphasis { marker } => match marker {
                NotaEmphasisMarker::Strong => enclosed_adds(
                    s,
                    put(blank(), utf8("<strong")),
                    kids,
                    0,
                    true,
                    utf8("strong"),
                ),
                NotaEmphasisMarker::Em => enclosed_adds(s, put(blank(), utf8("<em")), kids, 0,
                    true, utf8("em")),
                NotaEmphasisMarker::Strike => enclosed_adds(
                    s,
                    put(blank(), utf8("<s")),
                    kids,
                    0,
                    true,
                    utf8("s"),
                ),
            },
            NodeKind::Heading { level } => item_element_adds(
                s,
                put(put(put(blank(), utf8("<Heading rank={")), rank(level)), utf8("}")),
                t,
                utf8("Heading"),
            ),
            NodeKind::ListItem { list } => match list {
                NotaListKind::Unordered => item_element_adds(s, put(blank(), utf8("<UlLi")), t,
                    utf8("UlLi")),
                NotaListKind::Ordered => item_element_adds(s, put(blank(), utf8("<OlLi")), t,
                    utf8("OlLi")),
            },
            NodeKind::Attrs => attrs_adds(s, put(blank(), utf8("<Attrs")), kids, 0),
            NodeKind::DocState { sugar, label } => doc_state_adds(s, blank(), t, sugar, label),
            NodeKind::Link { url } => {
                let open = put(blank(), utf8("<a"));
                text_attr_adds(open, utf8(" href="), url_text(slice(s, url)));
                let given = text_attr(open, utf8(" href="), url_text(slice(s, url)));
                enclosed_adds(s, given, kids, 0, true, utf8("a"));
            },
            NodeKind::Image { alt, src } => {
                let open = put(blank(), utf8("<img"));
                text_attr_adds(open, utf8(" src="), url_text(slice(s, src)));
                let given = text_attr(open, utf8(" src="), url_text(slice(s, src)));
                text_attr_adds(given, utf8(" alt="), url_text(slice(s, alt)));
            },
            NodeKind::Code { is_block, lang } => if !is_block {
                enclosed_raw_adds(s, put(blank(), utf8("<CodeInline")), kids, false,
                    utf8("CodeInline"));
            } else {
                match lang {
                    Some(tag) => {
                        let open = put(blank(), utf8("<CodeBlock"));
                        text_attr_adds(open, utf8(" lang="), slice(s, tag));
                        let given = text_attr(open, utf8(" lang="), slice(s, tag));
                        enclosed_raw_adds(s, given, kids, false, utf8("CodeBlock"));
                    },
                    None => enclosed_raw_adds(
                        s,
                        put(blank(), utf8("<CodeBlock")),
                        kids,
                        false,
                        utf8("CodeBlock"),
                    ),
                }
            },
            NodeKind::Math { is_block } => if is_block {
                enclosed_raw_adds(s, put(blank(), utf8("<Tex display")), kids, false, utf8("Tex"));
            } else {
                enclosed_raw_adds(s, put(blank(), utf8("<Tex")), kids, false, utf8("Tex"));
            },
            _ => {},
        }
    }
    alike_at_last(w, node(s, w, t), node(s, blank(), t));
}

/// What `item_element` writes does not depend on what stands before it.
proof fn item_element_adds(s: Seq<u8>, w: Written, t: Tree, name: Seq<u8>)
    ensures
        grows(w, item_element(s, w, t, name), item_element(s, blank(), t, name).code),
    decreases t, 0int, 19int, 0int,
{
    broadcast use alike_by_put, alike_by_step, alike_by_source, alike_by_anchor;

    alike_at_first(w);
    {
        let from = first_child(t.kids);
        let given = if from == 1 {
            attrs(s, w, t.kids[0].kids, 0)
        } else {
            w
        };
        if from == 1 {
            attrs_adds(s, w, t.kids[0].kids, 0);
        }
        enclosed_adds(s, given, t.kids, from, false, name);
    }
    {
        let from = first_child(t.kids);
        let given = if from == 1 {
            attrs(s, blank(), t.kids[0].kids, 0)
        } else {
            blank()
        };
        if from == 1 {
            attrs_adds(s, blank(), t.kids[0].kids, 0);
        }
        enclosed_adds(s, given, t.kids, from, false, name);
    }
    alike_at_last(w, item_element(s, w, t, name), item_element(s, blank(), t, name));
}

/// What `slot` writes does not depend on what stands before it.
proof fn slot_adds(s: Seq<u8>, w: Written, t: Tree, name: Seq<u8>)
    ensures
        grows(w, slot(s, w, t, name), slot(s, blank(), t, name).code),
    decreases t, 0int, 19int, 0int,
{
    broadcast use alike_by_put, alike_by_step, alike_by_source, alike_by_anchor;

    alike_at_first(w);
    {
        if t.kids.len() >= 2 {
            attrs_adds(s, w, t.kids[0].kids, 0);
            let given = attrs(s, w, t.kids[0].kids, 0);
            enclosed_adds(s, given, t.kids[1].kids, 0, false, name);
        }
    }
    {
        if t.kids.len() >= 2 {
            attrs_adds(s, blank(), t.kids[0].kids, 0);
            let given = attrs(s, blank(), t.kids[0].kids, 0);
            enclosed_adds(s, given, t.kids[1].kids, 0, false, name);
        }
    }
    alike_at_last(w, slot(s, w, t, name), slot(s, blank(), t, name));
}

/// What `enclosed` writes does not depend on what stands before it.
proof fn enclosed_adds(
    s: Seq<u8>,
    w: Written,
    kids: Seq<Tree>,
    from: int,
    braced: bool,
    name: Seq<u8>,
)
    ensures
        grows(w, enclosed(s, w, kids, from, braced, name), enclosed(s, blank(), kids, from, braced,
            name).code),
    decreases kids, kids.len() - from, 8int, 0int,
{
    broadcast use alike_by_put, alike_by_step, alike_by_source, alike_by_anchor;

    alike_at_first(w);
    {
        let ps = child_pieces(s, kids, from, false, braced);
        let n = ps.len() as int;
        if n > 0 {
            items_adds(s, put(w, utf8(">")), kids, from, braced, ps, 0, n, false, None);
        }
    }
    {
        let ps = child_pieces(s, kids, from, false, braced);
        let n = ps.len() as int;
        if n > 0 {
            items_adds(s, put(blank(), utf8(">")), kids, from, braced, ps, 0, n, false, None);
        }
    }
    alike_at_last(w, enclosed(s, w, kids, from, braced, name), enclosed(s, blank(), kids, from,
        braced, name));
}

/// What `enclosed_raw` writes does not depend on what stands before it.
proof fn enclosed_raw_adds(s: Seq<u8>, w: Written, kids: Seq<Tree>, flow: bool, name: Seq<u8>)
    ensures
        grows(w, enclosed_raw(s, w, kids, flow, name), enclosed_raw(s, blank(), kids, flow,
            name).code),
    decreases kids, kids.len() as int, 8int, 0int,
{
    broadcast use alike_by_put, alike_by_step, alike_by_source, alike_by_anchor;

    alike_at_first(w);
    {
        if kids.len() > 0 {
            parts_adds(s, opened_body(w, flow), kids, 0, None);
        }
    }
    {
        if kids.len() > 0 {
            parts_adds(s, opened_body(blank(), flow), kids, 0, None);
        }
    }
    alike_at_last(w, enclosed_raw(s, w, kids, flow, name), enclosed_raw(s, blank(), kids, flow,
        name));
}

/// What `element` writes does not depend on what stands before it.
proof fn element_adds(s: Seq<u8>, w: Written, t: Tree, tag: NotaTag, body: BodyForm)
    ensures
        grows(w, element(s, w, t, tag, body), element(s, blank(), t, tag, body).code),
    decreases t, 0int, 19int, 0int,
{
    broadcast use alike_by_put, alike_by_step, alike_by_source, alike_by_anchor;

    alike_at_first(w);
    {
        if t.kids.len() >= 2 {
            let start = put(anchored(w, t.kids[0].kids), utf8("<"));
            let named = match tag {
                NotaTag::Host { name } => put(start, slice(s, name)),
                NotaTag::Component { name } => put_source(start, s, name.start as int,
                    name.end as int),
                NotaTag::Dynamic => if t.kids.len() >= 3 {
                    attr_value(s, put(start, utf8("Dynamic component=")), t.kids[2])
                } else {
                    put(start, utf8("Dynamic"))
                },
            };
            if tag == NotaTag::Dynamic && t.kids.len() >= 3 {
                attr_value_adds(s, put(start, utf8("Dynamic component=")), t.kids[2]);
            }
            attrs_adds(s, named, t.kids[0].kids, 0);
            let given = attrs(s, named, t.kids[0].kids, 0);
            element_body_adds(s, given, t.kids[1], tag, body);
        }
    }
    {
        if t.kids.len() >= 2 {
            let start = put(anchored(blank(), t.kids[0].kids), utf8("<"));
            let named = match tag {
                NotaTag::Host { name } => put(start, slice(s, name)),
                NotaTag::Component { name } => put_source(start, s, name.start as int,
                    name.end as int),
                NotaTag::Dynamic => if t.kids.len() >= 3 {
                    attr_value(s, put(start, utf8("Dynamic component=")), t.kids[2])
                } else {
                    put(start, utf8("Dynamic"))
                },
            };
            if tag == NotaTag::Dynamic && t.kids.len() >= 3 {
                attr_value_adds(s, put(start, utf8("Dynamic component=")), t.kids[2]);
            }
            attrs_adds(s, named, t.kids[0].kids, 0);
            let given = attrs(s, named, t.kids[0].kids, 0);
            element_body_adds(s, given, t.kids[1], tag, body);
        }
    }
    alike_at_last(w, element(s, w, t, tag, body), element(s, blank(), t, tag, body));
}

/// What `element_body` writes does not depend on what stands before it.
proof fn element_body_adds(s: Seq<u8>, w: Written, g: Tree, tag: NotaTag, body: BodyForm)
    ensures
        grows(w, element_body(s, w, g, tag, body), element_body(s, blank(), g, tag, body).code),
    decreases g, 0int, 18int, 0int,
{
    broadcast use alike_by_put, alike_by_step, alike_by_source, alike_by_anchor;

    alike_at_first(w);
    {
        let flow = is_flow(s, tag);
        if body == BodyForm::Verbatim {
            enclosed_raw_adds(s, w, g.kids, flow, tag_text(s, tag));
        } else {
            let braced = body == BodyForm::Braced;
            let bare = refuses_text(s, tag);
            let ps = child_pieces(s, g.kids, 0, false, braced);
            let n = ps.len() as int;
            let open = opened_body(w, flow);
            if is_host(s, tag, utf8("table")) {
                table_items_adds(s, open, g.kids, braced, ps, 0, None);
            } else {
                items_adds(s, open, g.kids, 0, braced, ps, 0, n, bare, None);
            }
        }
    }
    {
        let flow = is_flow(s, tag);
        if body == BodyForm::Verbatim {
            enclosed_raw_adds(s, blank(), g.kids, flow, tag_text(s, tag));
        } else {
            let braced = body == BodyForm::Braced;
            let bare = refuses_text(s, tag);
            let ps = child_pieces(s, g.kids, 0, false, braced);
            let n = ps.len() as int;
            let open = opened_body(blank(), flow);
            if is_host(s, tag, utf8("table")) {
                table_items_adds(s, open, g.kids, braced, ps, 0, None);
            } else {
                items_adds(s, open, g.kids, 0, braced, ps, 0, n, bare, None);
            }
        }
    }
    alike_at_last(w, element_body(s, w, g, tag, body), element_body(s, blank(), g, tag, body));
}

/// What `attrs` writes does not depend on what stands before it.
proof fn attrs_adds(s: Seq<u8>, w: Written, kids: Seq<Tree>, k: int)
    ensures
        grows(w, attrs(s, w, kids, k), attrs(s, blank(), kids, k).code),
    decreases kids, kids.len() - k, 5int, 0int,
{
    broadcast use alike_by_put, alike_by_step, alike_by_source, alike_by_anchor;

    alike_at_first(w);
    {
        if 0 <= k < kids.len() {
            attr_adds(s, w, kids[k]);
            attrs_adds(s, attr(s, w, kids[k]), kids, k + 1);
        }
    }
    {
        if 0 <= k < kids.len() {
            attr_adds(s, blank(), kids[k]);
            attrs_adds(s, attr(s, blank(), kids[k]), kids, k + 1);
        }
    }
    alike_at_last(w, attrs(s, w, kids, k), attrs(s, blank(), kids, k));
}

/// What `attr` writes does not depend on what stands before it.
proof fn attr_adds(s: Seq<u8>, w: Written, p: Tree)
    ensures
        grows(w, attr(s, w, p), attr(s, blank(), p).code),
    decreases p, 0int, 10int, 0int,
{
    broadcast use alike_by_put, alike_by_step, alike_by_source, alike_by_anchor;

    alike_at_first(w);
    {
        match p.kind {
            NodeKind::Field { key, quoted } => if p.kids.len() > 0 {
                let named = put(put(put(w, utf8(" ")), key_text(s, key, quoted)), utf8("="));
                match p.kids[0].kind {
                    NodeKind::Js { tier } => attr_value_adds(s, named, p.kids[0]),
                    NodeKind::Interpolation if p.kids[0].kids.len() > 0 => attr_value_adds(
                        s,
                        named,
                        p.kids[0].kids[0],
                    ),
                    _ => node_adds(s, put(named, utf8("{")), p.kids[0]),
                }
            },
            NodeKind::Spread => if p.kids.len() > 0 {
                node_adds(s, put(w, utf8(" {...")), p.kids[0]);
            },
            _ => {},
        }
    }
    {
        match p.kind {
            NodeKind::Field { key, quoted } => if p.kids.len() > 0 {
                let named = put(put(put(blank(), utf8(" ")), key_text(s, key, quoted)), utf8("="));
                match p.kids[0].kind {
                    NodeKind::Js { tier } => attr_value_adds(s, named, p.kids[0]),
                    NodeKind::Interpolation if p.kids[0].kids.len() > 0 => attr_value_adds(
                        s,
                        named,
                        p.kids[0].kids[0],
                    ),
                    _ => node_adds(s, put(named, utf8("{")), p.kids[0]),
                }
            },
            NodeKind::Spread => if p.kids.len() > 0 {
                node_adds(s, put(blank(), utf8(" {...")), p.kids[0]);
            },
            _ => {},
        }
    }
    alike_at_last(w, attr(s, w, p), attr(s, blank(), p));
}

/// What `attr_value` writes does not depend on what stands before it.
proof fn attr_value_adds(s: Seq<u8>, w: Written, t: Tree)
    ensures
        grows(w, attr_value(s, w, t), attr_value(s, blank(), t).code),
    decreases t, 0int, 18int, 0int,
{
    broadcast use alike_by_put, alike_by_step, alike_by_source, alike_by_anchor;

    alike_at_first(w);
    {
        argument_adds(s, put(w, utf8("{")), t);
    }
    {
        argument_adds(s, put(blank(), utf8("{")), t);
    }
    alike_at_last(w, attr_value(s, w, t), attr_value(s, blank(), t));
}

/// What `fragment` writes does not depend on what stands before it.
proof fn fragment_adds(s: Seq<u8>, w: Written, t: Tree, braced: bool)
    ensures
        grows(w, fragment(s, w, t, braced), fragment(s, blank(), t, braced).code),
    decreases t, 0int, 19int, 0int,
{
    broadcast use alike_by_put, alike_by_step, alike_by_source, alike_by_anchor;

    alike_at_first(w);
    {
        children_adds(s, put(w, utf8("<>")), t.kids, 0, braced);
    }
    {
        children_adds(s, put(blank(), utf8("<>")), t.kids, 0, braced);
    }
    alike_at_last(w, fragment(s, w, t, braced), fragment(s, blank(), t, braced));
}

/// What `children` writes does not depend on what stands before it.
proof fn children_adds(s: Seq<u8>, w: Written, kids: Seq<Tree>, from: int, braced: bool)
    ensures
        grows(w, children(s, w, kids, from, braced), children(s, blank(), kids, from, braced).code),
    decreases kids, kids.len() - from, 6int, 0int,
{
    broadcast use alike_by_put, alike_by_step, alike_by_source, alike_by_anchor;

    alike_at_first(w);
    {
        let ps = child_pieces(s, kids, from, false, braced);
        items_adds(s, w, kids, from, braced, ps, 0, ps.len() as int, false, None);
    }
    {
        let ps = child_pieces(s, kids, from, false, braced);
        items_adds(s, blank(), kids, from, braced, ps, 0, ps.len() as int, false, None);
    }
    alike_at_last(w, children(s, w, kids, from, braced), children(s, blank(), kids, from, braced));
}

/// What `items` writes does not depend on what stands before it.
proof fn items_adds(
    s: Seq<u8>,
    w: Written,
    kids: Seq<Tree>,
    from: int,
    braced: bool,
    ps: Seq<Piece<usize>>,
    k: int,
    n: int,
    bare: bool,
    held: Option<Seq<u8>>,
)
    ensures
        grows(w, items(s, w, kids, from, braced, ps, k, n, bare, held), items(s, blank(), kids,
            from, braced, ps, k, n, bare, held).code),
    decreases kids, kids.len() - from, 4int, n - k,
{
    broadcast use alike_by_put, alike_by_step, alike_by_source, alike_by_anchor;

    alike_at_first(w);
    {
        flushed_adds(w, held);
        if 0 <= k < n && n <= ps.len() {
            if bare && is_white_piece(s, kids, ps[k]) {
                items_adds(s, w, kids, from, braced, ps, k + 1, n, bare, held);
            } else {
                match child_text(s, kids, ps[k]) {
                    Some(t) => {
                        let more = held_with(held, t);
                        items_adds(s, w, kids, from, braced, ps, k + 1, n, bare, more);
                    },
                    None => {
                        let before = flushed(w, held);
                        item_adds(s, before, kids, from, braced, ps[k]);
                        let next = item(s, before, kids, from, braced, ps[k]);
                        items_adds(s, next, kids, from, braced, ps, k + 1, n, bare, None);
                    },
                }
            }
        }
    }
    {
        flushed_adds(blank(), held);
        if 0 <= k < n && n <= ps.len() {
            if bare && is_white_piece(s, kids, ps[k]) {
                items_adds(s, blank(), kids, from, braced, ps, k + 1, n, bare, held);
            } else {
                match child_text(s, kids, ps[k]) {
                    Some(t) => {
                        let more = held_with(held, t);
                        items_adds(s, blank(), kids, from, braced, ps, k + 1, n, bare, more);
                    },
                    None => {
                        let before = flushed(blank(), held);
                        item_adds(s, before, kids, from, braced, ps[k]);
                        let next = item(s, before, kids, from, braced, ps[k]);
                        items_adds(s, next, kids, from, braced, ps, k + 1, n, bare, None);
                    },
                }
            }
        }
    }
    alike_at_last(w, items(s, w, kids, from, braced, ps, k, n, bare, held), items(s, blank(), kids,
        from, braced, ps, k, n, bare, held));
}

/// What `item` writes does not depend on what stands before it.
proof fn item_adds(
    s: Seq<u8>,
    w: Written,
    kids: Seq<Tree>,
    from: int,
    braced: bool,
    p: Piece<usize>,
)
    ensures
        grows(w, item(s, w, kids, from, braced, p), item(s, blank(), kids, from, braced, p).code),
    decreases kids, kids.len() - from, 3int, 0int,
{
    broadcast use alike_by_put, alike_by_step, alike_by_source, alike_by_anchor;

    alike_at_first(w);
    {
        if let Piece::Elem(i) = p {
            if 0 <= from <= i && i < kids.len() {
                if is_statement(kids[i as int]) {
                    let opened = put(w, utf8("{(() => { "));
                    let j = statements_end(kids, i as int);
                    statements_end_bounds(kids, i as int);
                    statements_adds(s, opened, kids, i as int, j);
                    let run = statements(s, opened, kids, i as int, j);
                    children_adds(s, put(run, utf8("return <>")), kids, j, braced);
                } else {
                    child_adds(s, w, kids[i as int]);
                }
            }
        }
    }
    {
        if let Piece::Elem(i) = p {
            if 0 <= from <= i && i < kids.len() {
                if is_statement(kids[i as int]) {
                    let opened = put(blank(), utf8("{(() => { "));
                    let j = statements_end(kids, i as int);
                    statements_end_bounds(kids, i as int);
                    statements_adds(s, opened, kids, i as int, j);
                    let run = statements(s, opened, kids, i as int, j);
                    children_adds(s, put(run, utf8("return <>")), kids, j, braced);
                } else {
                    child_adds(s, blank(), kids[i as int]);
                }
            }
        }
    }
    alike_at_last(w, item(s, w, kids, from, braced, p), item(s, blank(), kids, from, braced, p));
}

/// What `child` writes does not depend on what stands before it.
proof fn child_adds(s: Seq<u8>, w: Written, t: Tree)
    ensures
        grows(w, child(s, w, t), child(s, blank(), t).code),
    decreases t, 0int, 21int, 0int,
{
    broadcast use alike_by_put, alike_by_step, alike_by_source, alike_by_anchor;

    alike_at_first(w);
    {
        if t.kind == NodeKind::Interpolation && !interpolates_element(t) {
            node_adds(s, put(w, utf8("{")), t);
        } else {
            node_adds(s, w, t);
        }
    }
    {
        if t.kind == NodeKind::Interpolation && !interpolates_element(t) {
            node_adds(s, put(blank(), utf8("{")), t);
        } else {
            node_adds(s, blank(), t);
        }
    }
    alike_at_last(w, child(s, w, t), child(s, blank(), t));
}

/// What `table_items` writes does not depend on what stands before it.
proof fn table_items_adds(
    s: Seq<u8>,
    w: Written,
    kids: Seq<Tree>,
    braced: bool,
    ps: Seq<Piece<usize>>,
    k: int,
    held: Option<Seq<u8>>,
)
    ensures
        grows(w, table_items(s, w, kids, braced, ps, k, held), table_items(s, blank(), kids,
            braced, ps, k, held).code),
    decreases kids, kids.len() as int, 5int, ps.len() - k,
{
    broadcast use alike_by_put, alike_by_step, alike_by_source, alike_by_anchor;

    alike_at_first(w);
    {
        flushed_adds(w, held);
        let before = flushed(w, held);
        if 0 <= k < ps.len() {
            if is_white_piece(s, kids, ps[k]) {
                table_items_adds(s, w, kids, braced, ps, k + 1, held);
            } else if is_row(s, kids, ps[k]) {
                let e = rows_end(s, kids, ps, k);
                rows_end_bounds(s, kids, ps, k);
                let open = put(before, utf8("<tbody>"));
                items_adds(s, open, kids, 0, braced, ps, k, e, true, None);
                let rows = items(s, open, kids, 0, braced, ps, k, e, true, None);
                table_items_adds(s, put(rows, utf8("</tbody>")), kids, braced, ps, e, None);
            } else {
                match child_text(s, kids, ps[k]) {
                    Some(t) => {
                        table_items_adds(s, w, kids, braced, ps, k + 1, held_with(held, t));
                    },
                    None => {
                        item_adds(s, before, kids, 0, braced, ps[k]);
                        let next = item(s, before, kids, 0, braced, ps[k]);
                        table_items_adds(s, next, kids, braced, ps, k + 1, None);
                    },
                }
            }
        }
    }
    {
        flushed_adds(blank(), held);
        let before = flushed(blank(), held);
        if 0 <= k < ps.len() {
            if is_white_piece(s, kids, ps[k]) {
                table_items_adds(s, blank(), kids, braced, ps, k + 1, held);
            } else if is_row(s, kids, ps[k]) {
                let e = rows_end(s, kids, ps, k);
                rows_end_bounds(s, kids, ps, k);
                let open = put(before, utf8("<tbody>"));
                items_adds(s, open, kids, 0, braced, ps, k, e, true, None);
                let rows = items(s, open, kids, 0, braced, ps, k, e, true, None);
                table_items_adds(s, put(rows, utf8("</tbody>")), kids, braced, ps, e, None);
            } else {
                match child_text(s, kids, ps[k]) {
                    Some(t) => {
                        table_items_adds(s, blank(), kids, braced, ps, k + 1, held_with(held, t));
                    },
                    None => {
                        item_adds(s, before, kids, 0, braced, ps[k]);
                        let next = item(s, before, kids, 0, braced, ps[k]);
                        table_items_adds(s, next, kids, braced, ps, k + 1, None);
                    },
                }
            }
        }
    }
    alike_at_last(w, table_items(s, w, kids, braced, ps, k, held), table_items(s, blank(), kids,
        braced, ps, k, held));
}

/// What `parts` writes does not depend on what stands before it.
proof fn parts_adds(s: Seq<u8>, w: Written, kids: Seq<Tree>, k: int, held: Option<Seq<u8>>)
    ensures
        grows(w, parts(s, w, kids, k, held), parts(s, blank(), kids, k, held).code),
    decreases kids, kids.len() - k, 5int, 0int,
{
    broadcast use alike_by_put, alike_by_step, alike_by_source, alike_by_anchor;

    alike_at_first(w);
    {
        flushed_adds(w, held);
        let before = flushed(w, held);
        if 0 <= k < kids.len() {
            match part_text(s, kids[k]) {
                Some(t) => parts_adds(s, w, kids, k + 1, held_with(held, t)),
                None => if kids[k].kind == NodeKind::Raw {
                    let raw = put(put(before, utf8("{String.raw`")), slice(s, kids[k].span));
                    parts_adds(s, put(raw, utf8("`}")), kids, k + 1, None);
                } else {
                    child_adds(s, before, kids[k]);
                    parts_adds(s, child(s, before, kids[k]), kids, k + 1, None);
                },
            }
        }
    }
    {
        flushed_adds(blank(), held);
        let before = flushed(blank(), held);
        if 0 <= k < kids.len() {
            match part_text(s, kids[k]) {
                Some(t) => parts_adds(s, blank(), kids, k + 1, held_with(held, t)),
                None => if kids[k].kind == NodeKind::Raw {
                    let raw = put(put(before, utf8("{String.raw`")), slice(s, kids[k].span));
                    parts_adds(s, put(raw, utf8("`}")), kids, k + 1, None);
                } else {
                    child_adds(s, before, kids[k]);
                    parts_adds(s, child(s, before, kids[k]), kids, k + 1, None);
                },
            }
        }
    }
    alike_at_last(w, parts(s, w, kids, k, held), parts(s, blank(), kids, k, held));
}

/// What `argument` writes does not depend on what stands before it.
proof fn argument_adds(s: Seq<u8>, w: Written, t: Tree)
    ensures
        grows(w, argument(s, w, t), argument(s, blank(), t).code),
    decreases t, 0int, 17int, 0int,
{
    broadcast use alike_by_put, alike_by_step, alike_by_source, alike_by_anchor;

    alike_at_first(w);
    {
        let (a, b) = (t.span.start as int, t.span.end as int);
        if t.kind == (NodeKind::Js { tier: ExprTier::Sequence }) {
            splice_adds(s, put(w, utf8("(")), t.kids, 0, a, b);
        } else {
            splice_adds(s, w, t.kids, 0, a, b);
        }
    }
    {
        let (a, b) = (t.span.start as int, t.span.end as int);
        if t.kind == (NodeKind::Js { tier: ExprTier::Sequence }) {
            splice_adds(s, put(blank(), utf8("(")), t.kids, 0, a, b);
        } else {
            splice_adds(s, blank(), t.kids, 0, a, b);
        }
    }
    alike_at_last(w, argument(s, w, t), argument(s, blank(), t));
}

/// What `splice` writes does not depend on what stands before it.
proof fn splice_adds(s: Seq<u8>, w: Written, kids: Seq<Tree>, k: int, p: int, e: int)
    ensures
        grows(w, splice(s, w, kids, k, p, e), splice(s, blank(), kids, k, p, e).code),
    decreases kids, kids.len() - k, 5int, 0int,
{
    broadcast use alike_by_put, alike_by_step, alike_by_source, alike_by_anchor;

    alike_at_first(w);
    {
        if 0 <= k < kids.len() {
            let m = kids[k];
            if m.kind == NodeKind::Markup && p <= m.span.start && m.span.end <= e {
                let before = put_source(w, s, p, m.span.start as int);
                markup_adds(s, before, m);
                splice_adds(s, markup(s, before, m), kids, k + 1, m.span.end as int, e);
            } else {
                splice_adds(s, w, kids, k + 1, p, e);
            }
        }
    }
    {
        if 0 <= k < kids.len() {
            let m = kids[k];
            if m.kind == NodeKind::Markup && p <= m.span.start && m.span.end <= e {
                let before = put_source(blank(), s, p, m.span.start as int);
                markup_adds(s, before, m);
                splice_adds(s, markup(s, before, m), kids, k + 1, m.span.end as int, e);
            } else {
                splice_adds(s, blank(), kids, k + 1, p, e);
            }
        }
    }
    alike_at_last(w, splice(s, w, kids, k, p, e), splice(s, blank(), kids, k, p, e));
}

/// What `markup` writes does not depend on what stands before it.
proof fn markup_adds(s: Seq<u8>, w: Written, m: Tree)
    ensures
        grows(w, markup(s, w, m), markup(s, blank(), m).code),
    decreases m, 0int, 10int, 0int,
{
    broadcast use alike_by_put, alike_by_step, alike_by_source, alike_by_anchor;

    alike_at_first(w);
    {
        if m.kids.len() > 0 {
            if is_loose(m.kids[0]) {
                node_adds(s, put(w, utf8("(")), m.kids[0]);
            } else {
                node_adds(s, w, m.kids[0]);
            }
        }
    }
    {
        if m.kids.len() > 0 {
            if is_loose(m.kids[0]) {
                node_adds(s, put(blank(), utf8("(")), m.kids[0]);
            } else {
                node_adds(s, blank(), m.kids[0]);
            }
        }
    }
    alike_at_last(w, markup(s, w, m), markup(s, blank(), m));
}

/// What `show` writes does not depend on what stands before it.
proof fn show_adds(s: Seq<u8>, w: Written, t: Tree)
    ensures
        grows(w, show(s, w, t), show(s, blank(), t).code),
    decreases t, 0int, 19int, 0int,
{
    broadcast use alike_by_put, alike_by_step, alike_by_source, alike_by_anchor;

    alike_at_first(w);
    {
        if t.kids.len() >= 2 {
            let first = put(w, utf8("<Show when="));
            attr_value_adds(s, first, t.kids[0]);
            let test = attr_value(s, first, t.kids[0]);
            let open = put(test, utf8(" fallback={"));
            if t.kids.len() < 3 {
                fragment_adds(s, put(test, utf8(">")), t.kids[1], false);
            } else if t.kids[2].kind == NodeKind::If {
                show_adds(s, open, t.kids[2]);
                let other = put(show(s, open, t.kids[2]), utf8("}"));
                fragment_adds(s, put(other, utf8(">")), t.kids[1], false);
            } else {
                fragment_adds(s, open, t.kids[2], false);
                let other = put(fragment(s, open, t.kids[2], false), utf8("}"));
                fragment_adds(s, put(other, utf8(">")), t.kids[1], false);
            }
        }
    }
    {
        if t.kids.len() >= 2 {
            let first = put(blank(), utf8("<Show when="));
            attr_value_adds(s, first, t.kids[0]);
            let test = attr_value(s, first, t.kids[0]);
            let open = put(test, utf8(" fallback={"));
            if t.kids.len() < 3 {
                fragment_adds(s, put(test, utf8(">")), t.kids[1], false);
            } else if t.kids[2].kind == NodeKind::If {
                show_adds(s, open, t.kids[2]);
                let other = put(show(s, open, t.kids[2]), utf8("}"));
                fragment_adds(s, put(other, utf8(">")), t.kids[1], false);
            } else {
                fragment_adds(s, open, t.kids[2], false);
                let other = put(fragment(s, open, t.kids[2], false), utf8("}"));
                fragment_adds(s, put(other, utf8(">")), t.kids[1], false);
            }
        }
    }
    alike_at_last(w, show(s, w, t), show(s, blank(), t));
}

/// What `each` writes does not depend on what stands before it.
proof fn each_adds(s: Seq<u8>, w: Written, t: Tree)
    ensures
        grows(w, each(s, w, t), each(s, blank(), t).code),
    decreases t, 0int, 19int, 0int,
{
    broadcast use alike_by_put, alike_by_step, alike_by_source, alike_by_anchor;

    alike_at_first(w);
    {
        if t.kids.len() >= 3 {
            attr_value_adds(s, put(w, utf8("<For each=")), t.kids[1]);
            let iter = attr_value(s, put(w, utf8("<For each=")), t.kids[1]);
            argument_adds(s, put(iter, utf8(">{(")), t.kids[0]);
            let bind = argument(s, put(iter, utf8(">{(")), t.kids[0]);
            fragment_adds(s, put(bind, utf8(") => ")), t.kids[2], false);
        }
    }
    {
        if t.kids.len() >= 3 {
            attr_value_adds(s, put(blank(), utf8("<For each=")), t.kids[1]);
            let iter = attr_value(s, put(blank(), utf8("<For each=")), t.kids[1]);
            argument_adds(s, put(iter, utf8(">{(")), t.kids[0]);
            let bind = argument(s, put(iter, utf8(">{(")), t.kids[0]);
            fragment_adds(s, put(bind, utf8(") => ")), t.kids[2], false);
        }
    }
    alike_at_last(w, each(s, w, t), each(s, blank(), t));
}

/// What `statements` writes does not depend on what stands before it.
proof fn statements_adds(s: Seq<u8>, w: Written, kids: Seq<Tree>, i: int, j: int)
    ensures
        grows(w, statements(s, w, kids, i, j), statements(s, blank(), kids, i, j).code),
    decreases kids, kids.len() - i, 2int, 0int,
{
    broadcast use alike_by_put, alike_by_step, alike_by_source, alike_by_anchor;

    alike_at_first(w);
    {
        if 0 <= i < j && i < kids.len() {
            statement_adds(s, w, kids[i]);
            statements_adds(s, put(statement(s, w, kids[i]), utf8(" ")), kids, i + 1, j);
        }
    }
    {
        if 0 <= i < j && i < kids.len() {
            statement_adds(s, blank(), kids[i]);
            statements_adds(s, put(statement(s, blank(), kids[i]), utf8(" ")), kids, i + 1, j);
        }
    }
    alike_at_last(w, statements(s, w, kids, i, j), statements(s, blank(), kids, i, j));
}

/// What `statement` writes does not depend on what stands before it.
proof fn statement_adds(s: Seq<u8>, w: Written, t: Tree)
    ensures
        grows(w, statement(s, w, t), statement(s, blank(), t).code),
    decreases t, 0int, 10int, 0int,
{
    broadcast use alike_by_put, alike_by_step, alike_by_source, alike_by_anchor;

    alike_at_first(w);
    {
        splice_adds(s, w, t.kids, 0, t.span.start as int, t.span.end as int);
    }
    {
        splice_adds(s, blank(), t.kids, 0, t.span.start as int, t.span.end as int);
    }
    alike_at_last(w, statement(s, w, t), statement(s, blank(), t));
}

/// What `doc_state` writes does not depend on what stands before it.
proof fn doc_state_adds(s: Seq<u8>, w: Written, t: Tree, sugar: NotaDocStateKind, label: Span)
    requires
        t.kind == (NodeKind::DocState { sugar, label }),
    ensures
        grows(w, node(s, w, t), node(s, blank(), t).code),
    decreases t, 0int, 19int, 5int,
{
    broadcast use alike_by_put, alike_by_step, alike_by_source, alike_by_anchor;

    alike_at_first(w);
    let name = slice(s, label);
    match sugar {
        NotaDocStateKind::Label => {
            let open = put(w, utf8("<Label"));
            text_attr_adds(open, utf8(" id="), name);
            slot_adds(s, text_attr(open, utf8(" id="), name), t, utf8("Label"));
        },
        NotaDocStateKind::Ref => {
            let open = put(w, utf8("<Ref"));
            text_attr_adds(open, utf8(" id="), name);
            slot_adds(s, text_attr(open, utf8(" id="), name), t, utf8("Ref"));
        },
        NotaDocStateKind::FootnoteMark => {
            let open = put(w, utf8("<FootnoteMark"));
            text_attr_adds(open, utf8(" label="), name);
            slot_adds(s, text_attr(open, utf8(" label="), name), t, utf8("FootnoteMark"));
        },
        NotaDocStateKind::FootnoteText => {
            let open = put(w, utf8("<FootnoteText"));
            text_attr_adds(open, utf8(" label="), name);
            slot_adds(s, text_attr(open, utf8(" label="), name), t, utf8("FootnoteText"));
        },
    }
    match sugar {
        NotaDocStateKind::Label => {
            let open = put(blank(), utf8("<Label"));
            text_attr_adds(open, utf8(" id="), name);
            slot_adds(s, text_attr(open, utf8(" id="), name), t, utf8("Label"));
        },
        NotaDocStateKind::Ref => {
            let open = put(blank(), utf8("<Ref"));
            text_attr_adds(open, utf8(" id="), name);
            slot_adds(s, text_attr(open, utf8(" id="), name), t, utf8("Ref"));
        },
        NotaDocStateKind::FootnoteMark => {
            let open = put(blank(), utf8("<FootnoteMark"));
            text_attr_adds(open, utf8(" label="), name);
            slot_adds(s, text_attr(open, utf8(" label="), name), t, utf8("FootnoteMark"));
        },
        NotaDocStateKind::FootnoteText => {
            let open = put(blank(), utf8("<FootnoteText"));
            text_attr_adds(open, utf8(" label="), name);
            slot_adds(s, text_attr(open, utf8(" label="), name), t, utf8("FootnoteText"));
        },
    }
    alike_at_last(w, node(s, w, t), node(s, blank(), t));
}

/// The text of a form or a sugar.
pub open spec fn written(s: Seq<u8>, t: Tree) -> Seq<u8> {
    node(s, blank(), t).code
}

/// The text of embedded code.
pub open spec fn code_written(s: Seq<u8>, t: Tree) -> Seq<u8> {
    argument(s, blank(), t).code
}

/// The text of embedded code as the value of an attribute.
pub open spec fn value_written(s: Seq<u8>, t: Tree) -> Seq<u8> {
    attr_value(s, blank(), t).code
}

/// The text of the attributes from `k` on.
pub open spec fn attrs_written(s: Seq<u8>, kids: Seq<Tree>, k: int) -> Seq<u8> {
    attrs(s, blank(), kids, k).code
}

/// The text of the children from `from` on.
pub open spec fn children_written(s: Seq<u8>, kids: Seq<Tree>, from: int, braced: bool) -> Seq<u8> {
    children(s, blank(), kids, from, braced).code
}

/// The text of the pieces from `k` to `n`.
pub open spec fn pieces_written(
    s: Seq<u8>,
    kids: Seq<Tree>,
    from: int,
    braced: bool,
    ps: Seq<Piece<usize>>,
    k: int,
    n: int,
) -> Seq<u8> {
    items(s, blank(), kids, from, braced, ps, k, n, false, None).code
}

/// The text of the raw runs and armed forms from `k` on.
pub open spec fn parts_written(s: Seq<u8>, kids: Seq<Tree>, k: int) -> Seq<u8> {
    parts(s, blank(), kids, k, None).code
}

/// `t` as a string literal.
pub open spec fn literal_written(t: Seq<u8>) -> Seq<u8> {
    put_quoted(blank(), t).code
}

/// The text of a statement.
pub open spec fn statement_written(s: Seq<u8>, t: Tree) -> Seq<u8> {
    statement(s, blank(), t).code
}

/// A construct is written after what is there, which stays, and as it would be if nothing were.
pub proof fn constructs_stand_alone(s: Seq<u8>, w: Written, t: Tree)
    ensures
        follows(node(s, w, t).code, w.code, written(s, t)),
{
    reveal(grows);
    node_adds(s, w, t);
}

/// A branch is written as a fragment.
proof fn branch_is_enclosed(s: Seq<u8>, w: Written, t: Tree, braced: bool)
    ensures
        reads(
            fragment(s, w, t, braced).code,
            w.code + utf8("<>") + children_written(s, t.kids, 0, braced) + utf8("</>"),
        ),
{
    reveal(grows);
    children_adds(s, put(w, utf8("<>")), t.kids, 0, braced);
}

/// `@if` shows its branch where the condition holds: the branch is the child of `<Show>`. Where
/// there is an `else` part, and only there, it is the fallback.
pub proof fn conditionals_show_their_branch(s: Seq<u8>, t: Tree)
    requires
        t.kind == NodeKind::If,
        2 <= t.kids.len() <= 3,
    ensures
        t.kids.len() == 2 ==> reads(written(s, t), utf8("<Show when=")
            + value_written(s, t.kids[0]) + utf8(">") + utf8("<>")
            + children_written(s, t.kids[1].kids, 0, false) + utf8("</>")
            + utf8("</Show>")),
        t.kids.len() == 3
            && t.kids[2].kind == NodeKind::If ==> reads(written(s, t), utf8("<Show when=")
            + value_written(s, t.kids[0]) + utf8(" fallback={") + written(s, t.kids[2]) + utf8(
            "}",
        ) + utf8(">") + utf8("<>") + children_written(s, t.kids[1].kids, 0, false) + utf8("</>")
            + utf8("</Show>")),
        t.kids.len() == 3
            && t.kids[2].kind != NodeKind::If ==> reads(written(s, t), utf8("<Show when=")
            + value_written(s, t.kids[0]) + utf8(" fallback={") + utf8("<>") + children_written(
            s,
            t.kids[2].kids,
            0,
            false,
        ) + utf8("</>") + utf8("}") + utf8(">") + utf8("<>") + children_written(
            s,
            t.kids[1].kids,
            0,
            false,
        ) + utf8("</>") + utf8("</Show>")),
{
    broadcast use joined_to_nothing;

    reveal(grows);

    let first = put(blank(), utf8("<Show when="));
    attr_value_adds(s, first, t.kids[0]);
    let test = attr_value(s, first, t.kids[0]);
    assert(node(s, blank(), t) == show(s, blank(), t));
    if t.kids.len() == 2 {
        branch_is_enclosed(s, put(test, utf8(">")), t.kids[1], false);
    } else {
        let open = put(test, utf8(" fallback={"));
        if t.kids[2].kind == NodeKind::If {
            show_adds(s, open, t.kids[2]);
            assert(node(s, blank(), t.kids[2]) == show(s, blank(), t.kids[2]));
            let other = put(show(s, open, t.kids[2]), utf8("}"));
            branch_is_enclosed(s, put(other, utf8(">")), t.kids[1], false);
        } else {
            branch_is_enclosed(s, open, t.kids[2], false);
            let other = put(fragment(s, open, t.kids[2], false), utf8("}"));
            branch_is_enclosed(s, put(other, utf8(">")), t.kids[1], false);
        }
    }
}

/// `@for` is `<For>` over the iterable, with a function of the pattern that gives the body.
pub proof fn loops_map_their_body(s: Seq<u8>, t: Tree)
    requires
        t.kind == NodeKind::For,
        t.kids.len() == 3,
    ensures
        reads(written(s, t), utf8("<For each=") + value_written(s, t.kids[1]) + utf8(">{(")
            + code_written(s, t.kids[0]) + utf8(") => ") + utf8("<>") + children_written(
            s,
            t.kids[2].kids,
            0,
            false,
        ) + utf8("</>") + utf8("}</For>")),
{
    broadcast use joined_to_nothing;

    reveal(grows);

    let first = put(blank(), utf8("<For each="));
    assert(node(s, blank(), t) == each(s, blank(), t));
    attr_value_adds(s, first, t.kids[1]);
    let iter = attr_value(s, first, t.kids[1]);
    argument_adds(s, put(iter, utf8(">{(")), t.kids[0]);
    let bind = argument(s, put(iter, utf8(">{(")), t.kids[0]);
    branch_is_enclosed(s, put(bind, utf8(") => ")), t.kids[2], false);
}

/// A fragment is `<>…</>` over its children, in which the white space of a braced body counts.
pub proof fn fragments_enclose_their_children(s: Seq<u8>, t: Tree)
    requires
        t.kind == NodeKind::Fragment,
    ensures
        reads(written(s, t), utf8("<>") + children_written(s, t.kids, 0, true) + utf8("</>")),
{
    broadcast use joined_to_nothing;


    assert(node(s, blank(), t) == fragment(s, blank(), t, true));
    branch_is_enclosed(s, blank(), t, true);
}

/// Code in which no form stands is copied, in parentheses where it is a sequence.
pub proof fn code_is_copied(s: Seq<u8>, t: Tree, tier: ExprTier)
    requires
        t.kind == (NodeKind::Js { tier }),
        t.kids.len() == 0,
        t.span.start < t.span.end <= s.len(),
        boundary(s, t.span.start as int),
        boundary(s, t.span.end as int),
    ensures
        tier != ExprTier::Sequence ==> reads(code_written(s, t), slice(s, t.span)),
        tier == ExprTier::Sequence ==> reads(code_written(s, t), utf8("(") + slice(s, t.span)
            + utf8(
            ")",
        )),
{
    broadcast use joined_to_nothing;

    reveal(grows);

    let (a, b) = (t.span.start as int, t.span.end as int);
    splice_adds(s, put(blank(), utf8("(")), t.kids, 0, a, b);
    assert(splice(s, blank(), t.kids, 0, a, b) == put_source(blank(), s, a, b));
}

/// Code with a form in it is the code before the form, the form, and the code after it; the form
/// stands in parentheses where it interpolates what needs them.
pub proof fn forms_are_lowered_in_place(
    s: Seq<u8>,
    kids: Seq<Tree>,
    k: int,
    p: int,
    e: int,
)
    requires
        0 <= k < kids.len(),
        kids[k].kind == NodeKind::Markup,
        kids[k].kids.len() == 1,
        p < kids[k].span.start,
        kids[k].span.end <= e <= s.len(),
        boundary(s, p),
        boundary(s, kids[k].span.start as int),
    ensures
        ({
            let m = kids[k];
            let before = s.subrange(p, m.span.start as int);
            let after = splice(s, blank(), kids, k + 1, m.span.end as int, e).code;
            let loose = m.kids[0].kind == NodeKind::Interpolation && m.kids[0].kids.len() > 0 && !(
            m.kids[0].kids[0].kind == (NodeKind::Js { tier: ExprTier::Primary })
                || m.kids[0].kids[0].kind == (NodeKind::Js { tier: ExprTier::Element }));
            reads(splice(s, blank(), kids, k, p, e).code, before + (if loose {
                utf8("(") + written(s, m.kids[0]) + utf8(")") + after
            } else {
                written(s, m.kids[0]) + after
            }))
        }),
{
    broadcast use joined, joined_to_nothing;

    reveal(grows);

    let m = kids[k];
    let before = put_source(blank(), s, p, m.span.start as int);
    node_adds(s, put(before, utf8("(")), m.kids[0]);
    node_adds(s, before, m.kids[0]);
    let after = markup(s, before, m);
    splice_adds(s, after, kids, k + 1, m.span.end as int, e);
    assert(splice(s, blank(), kids, k, p, e) == splice(s, after, kids, k
        + 1, m.span.end as int, e));
}

/// As the value of an attribute, a string literal without `"`, `&`, `<` and `>` is written in
/// quotes, and any other code in braces.
pub proof fn values_are_quoted_or_braced(s: Seq<u8>, t: Tree)
    ensures
        match literal(slice(s, t.span)) {
            Some(text) => if forall|i: int|
                0 <= i < text.len() ==> #[trigger] text[i] != DQUOTE && text[i] != AMPERSAND && text[i]
                    != LESS && text[i] != GREATER {
                reads(value_written(s, t), utf8("\"") + text + utf8("\""))
            } else {
                reads(value_written(s, t), utf8("{") + code_written(s, t) + utf8("}"))
            },
            None => reads(value_written(s, t), utf8("{") + code_written(s, t) + utf8("}")),
        },
{
    broadcast use joined, joined_to_nothing;

    reveal(grows);
    argument_adds(s, put(blank(), utf8("{")), t);
}

/// Attributes are written one after the other: a field as ` key=value`, a bare key with the binding
/// of its name, a spread as ` {...expr}`.
pub proof fn attributes_follow_each_other(s: Seq<u8>, kids: Seq<Tree>, k: int)
    requires
        0 <= k < kids.len(),
        boundary(s, kids[k].span.start as int),
        boundary(s, kids[k].span.end as int),
        kids[k].span.start < kids[k].span.end <= s.len(),
    ensures
        match kids[k].kind {
            NodeKind::Field { key, quoted } => kids[k].kids.len() > 0 && kids[k].kids[0].kind is Js
                ==> reads(attrs_written(s, kids, k), utf8(" ") + key_text(s, key, quoted)
                    + utf8("=")
                + value_written(s, kids[k].kids[0]) + attrs_written(s, kids, k + 1)),
            NodeKind::Shorthand => reads(attrs_written(s, kids, k), utf8(" ")
                + slice(s, kids[k].span)
                + utf8("={") + slice(s, kids[k].span) + utf8("}") + attrs_written(
                s,
                kids,
                k + 1,
            )),
            NodeKind::Spread => kids[k].kids.len() > 0 ==> reads(attrs_written(s, kids, k), utf8(
                " {...",
            ) + written(s, kids[k].kids[0]) + utf8("}") + attrs_written(s, kids, k + 1)),
            _ => true,
        },
{
    broadcast use joined_to_nothing;

    reveal(grows);

    let p = kids[k];
    let here = attr(s, blank(), p);
    attrs_adds(s, here, kids, k + 1);
    if p.kids.len() > 0 {
        node_adds(s, put(blank(), utf8(" {...")), p.kids[0]);
    }
    if let NodeKind::Field { key, quoted } = p.kind {
        let named = put(put(put(blank(), utf8(" ")), key_text(s, key, quoted)), utf8("="));
        if p.kids.len() > 0 {
            attr_value_adds(s, named, p.kids[0]);
        }
    }
}

/// A form as the value of a property stands in braces; the expression of an interpolation is the
/// value itself.
pub proof fn forms_are_values(s: Seq<u8>, p: Tree, key: Span, quoted: bool)
    requires
        p.kind == (NodeKind::Field { key, quoted }),
        p.kids.len() == 1,
        !(p.kids[0].kind is Js),
        p.kids[0].kind == NodeKind::Interpolation ==> p.kids[0].kids.len() == 1,
    ensures
        p.kids[0].kind == NodeKind::Interpolation ==> reads(attr(s, blank(), p).code, utf8(" ")
            + key_text(s, key, quoted) + utf8("=") + value_written(s, p.kids[0].kids[0])),
        p.kids[0].kind != NodeKind::Interpolation ==> reads(attr(s, blank(), p).code, utf8(" ")
            + key_text(s, key, quoted) + utf8("=") + utf8("{") + written(s, p.kids[0]) + utf8("}")),
{
    broadcast use joined, joined_to_nothing;

    reveal(grows);
    let named = put(put(put(blank(), utf8(" ")), key_text(s, key, quoted)), utf8("="));
    node_adds(s, put(named, utf8("{")), p.kids[0]);
    if p.kids[0].kind == NodeKind::Interpolation {
        attr_value_adds(s, named, p.kids[0].kids[0]);
    }
}

/// The rows of a table that stand side by side, with white space among them or not, are written in a
/// `<tbody>` of their own; what stands around them is not.
pub proof fn rows_stand_in_a_body(
    s: Seq<u8>,
    kids: Seq<Tree>,
    braced: bool,
    ps: Seq<Piece<usize>>,
    k: int,
)
    requires
        0 <= k < ps.len(),
        is_row(s, kids, ps[k]),
        !is_white_piece(s, kids, ps[k]),
    ensures
        ({
            let e = rows_end(s, kids, ps, k);
            &&& k < e <= ps.len()
            &&& forall|i: int|
                k <= i < e ==> is_row(s, kids, #[trigger] ps[i]) || is_white_piece(s, kids, ps[i])
            &&& e < ps.len() ==> !is_row(s, kids, ps[e]) && !is_white_piece(s, kids, ps[e])
            &&& reads(
                table_items(s, blank(), kids, braced, ps, k, None).code,
                utf8("<tbody>") + items(s, blank(), kids, 0, braced, ps, k, e, true, None).code
                    + utf8("</tbody>") + table_items(s, blank(), kids, braced, ps, e, None).code,
            )
        }),
{
    broadcast use joined_to_nothing;

    reveal(grows);
    let e = rows_end(s, kids, ps, k);
    rows_end_bounds(s, kids, ps, k);
    rows_are_side_by_side(s, kids, ps, k);
    let open = put(blank(), utf8("<tbody>"));
    items_adds(s, open, kids, 0, braced, ps, k, e, true, None);
    let rows = put(items(s, open, kids, 0, braced, ps, k, e, true, None), utf8("</tbody>"));
    table_items_adds(s, rows, kids, braced, ps, e, None);
}

/// A run of rows holds rows and white space, and what follows it is neither.
pub proof fn rows_are_side_by_side(s: Seq<u8>, kids: Seq<Tree>, ps: Seq<Piece<usize>>, k: int)
    requires
        0 <= k <= ps.len(),
    ensures
        ({
            let e = rows_end(s, kids, ps, k);
            &&& k <= e <= ps.len()
            &&& forall|i: int|
                k <= i < e ==> is_row(s, kids, #[trigger] ps[i]) || is_white_piece(s, kids, ps[i])
            &&& e < ps.len() ==> !is_row(s, kids, ps[e]) && !is_white_piece(s, kids, ps[e])
        }),
    decreases ps.len() - k,
{
    if k < ps.len() && (is_row(s, kids, ps[k]) || is_white_piece(s, kids, ps[k])) {
        rows_are_side_by_side(s, kids, ps, k + 1);
    }
}

/// In the structure of a table white space between its parts is left out.
pub proof fn tables_drop_white_space(
    s: Seq<u8>,
    kids: Seq<Tree>,
    braced: bool,
    ps: Seq<Piece<usize>>,
    k: int,
    n: int,
)
    requires
        0 <= k < n <= ps.len(),
        is_white_piece(s, kids, ps[k]),
    ensures
        items(s, blank(), kids, 0, braced, ps, k, n, true, None) == items(
            s,
            blank(),
            kids,
            0,
            braced,
            ps,
            k + 1,
            n,
            true,
            None,
        ),
        table_items(s, blank(), kids, braced, ps, k, None) == table_items(
            s,
            blank(),
            kids,
            braced,
            ps,
            k + 1,
            None,
        ),
{
}

/// The parts of a table's structure enclose their children without the white space between them,
/// a `table` with its rows in bodies; one without other children closes itself.
pub proof fn table_parts_enclose_their_children(
    s: Seq<u8>,
    w: Written,
    g: Tree,
    name: Span,
    body: BodyForm,
)
    requires
        body != BodyForm::Verbatim,
        refuses_text(s, NotaTag::Host { name }),
        !flow_names().contains(slice(s, name)),
    ensures
        ({
            let braced = body == BodyForm::Braced;
            let ps = child_pieces(s, g.kids, 0, false, braced);
            let empty = forall|i: int|
                0 <= i < ps.len() ==> is_white_piece(s, g.kids, #[trigger] ps[i]);
            let inner = if slice(s, name) == utf8("table") {
                table_items(s, blank(), g.kids, braced, ps, 0, None).code
            } else {
                items(s, blank(), g.kids, 0, braced, ps, 0, ps.len() as int, true, None).code
            };
            reads(
                element_body(s, w, g, NotaTag::Host { name }, body).code,
                w.code + (if empty {
                    utf8(" />")
                } else {
                    utf8(">") + inner + utf8("</") + slice(s, name) + utf8(">")
                }),
            )
        }),
{
    broadcast use joined, joined_to_nothing;

    reveal(grows);
    let tag = NotaTag::Host { name };
    let braced = body == BodyForm::Braced;
    let ps = child_pieces(s, g.kids, 0, false, braced);
    let n = ps.len() as int;
    let open = opened_body(w, false);
    assert(!is_flow(s, tag));
    if none_kept(s, g.kids, ps, true) {
        assert forall|i: int| 0 <= i < ps.len() implies is_white_piece(
            s,
            g.kids,
            #[trigger] ps[i],
        ) by {
            assert(is_dropped(s, g.kids, ps[i], true));
        }
    }
    table_items_adds(s, open, g.kids, braced, ps, 0, None);
    items_adds(s, open, g.kids, 0, braced, ps, 0, n, true, None);
}

/// The children of an element with a flow interior stand in a `<Reforest>`; an element without
/// children closes itself.
pub proof fn elements_enclose_their_children(
    s: Seq<u8>,
    t: Tree,
    tag: NotaTag,
    body: BodyForm,
)
    requires
        t.kind == (NodeKind::Element { tag, body }),
        t.kids.len() >= 2,
        body != BodyForm::Verbatim,
        tag == NotaTag::Dynamic ==> t.kids.len() == 3,
        t.kids[0].kids.len() > 0 ==> t.kids[0].kids.last().kind != NodeKind::PropsAnchor,
        !refuses_text(s, tag),
    ensures
        ({
            let braced = body == BodyForm::Braced;
            let inner = children_written(s, t.kids[1].kids, 0, braced);
            let empty = child_pieces(s, t.kids[1].kids, 0, false, braced).len() == 0;
            let name = match tag {
                NotaTag::Host { name } => slice(s, name),
                NotaTag::Component { name } => slice(s, name),
                NotaTag::Dynamic => utf8("Dynamic"),
            };
            let opening = match tag {
                NotaTag::Host { name } => slice(s, name),
                NotaTag::Component { name } => put_source(
                    blank(),
                    s,
                    name.start as int,
                    name.end as int,
                ).code,
                NotaTag::Dynamic => utf8("Dynamic component=") + value_written(s, t.kids[2]),
            };
            let start = utf8("<") + opening + attrs_written(s, t.kids[0].kids, 0);
            let flow = tag matches NotaTag::Host { name } && flow_names().contains(slice(s, name));
            reads(written(s, t), start + (if empty {
                utf8(" />")
            } else if flow {
                utf8("><Reforest>") + inner + utf8("</Reforest>") + utf8("</") + name + utf8(
                    ">",
                )
            } else {
                utf8(">") + inner + utf8("</") + name + utf8(">")
            }))
        }),
{
    broadcast use joined, joined_to_nothing;

    reveal(grows);

    let start = put(blank(), utf8("<"));
    let named = match tag {
        NotaTag::Host { name } => put(start, slice(s, name)),
        NotaTag::Component { name } => put_source(start, s, name.start as int, name.end as int),
        NotaTag::Dynamic => attr_value(s, put(start, utf8("Dynamic component=")), t.kids[2]),
    };
    if tag == NotaTag::Dynamic {
        attr_value_adds(s, put(start, utf8("Dynamic component=")), t.kids[2]);
    }
    assert(utf8("<") + Seq::<u8>::empty() =~= utf8("<"));
    attrs_adds(s, named, t.kids[0].kids, 0);
    let given = attrs(s, named, t.kids[0].kids, 0);
    let g = t.kids[1];
    let braced = body == BodyForm::Braced;
    let flow = is_flow(s, tag);
    let ps = child_pieces(s, g.kids, 0, false, braced);
    let n = ps.len() as int;
    items_adds(s, opened_body(given, flow), g.kids, 0, braced, ps, 0, n, false, None);
    assert(is_host(s, tag, utf8("table")) ==> refuses_text(s, tag));
    assert(n > 0 ==> !is_dropped(s, g.kids, ps[0], false));
    assert(node(s, blank(), t) == element(s, blank(), t, tag, body));
    assert(element(s, blank(), t, tag, body) == element_body(s, given, g, tag, body));
    assert(children(s, blank(), g.kids, 0, braced) == items(
        s,
        blank(),
        g.kids,
        0,
        braced,
        ps,
        0,
        n,
        false,
        None,
    ));
}

/// A verbatim body is its raw runs and armed forms.
pub proof fn verbatim_elements_enclose_their_parts(s: Seq<u8>, t: Tree, name: Span)
    requires
        t.kind == (NodeKind::Element { tag: NotaTag::Host { name }, body: BodyForm::Verbatim }),
        t.kids.len() == 2,
        t.kids[0].kids.len() > 0 ==> t.kids[0].kids.last().kind != NodeKind::PropsAnchor,
        !flow_names().contains(slice(s, name)),
    ensures
        reads(written(s, t), utf8("<") + slice(s, name) + attrs_written(s, t.kids[0].kids, 0) + (
        if t.kids[1].kids.len() == 0 {
            utf8(" />")
        } else {
            utf8(">") + parts_written(s, t.kids[1].kids, 0) + utf8("</") + slice(s, name)
                + utf8(">")
        })),
{
    broadcast use joined, joined_to_nothing;

    reveal(grows);

    let tag = NotaTag::Host { name };
    let named = put(put(blank(), utf8("<")), slice(s, name));
    attrs_adds(s, named, t.kids[0].kids, 0);
    let given = attrs(s, named, t.kids[0].kids, 0);
    let g = t.kids[1];
    parts_adds(s, opened_body(given, false), g.kids, 0, None);
    assert(!is_flow(s, tag));
    assert(node(s, blank(), t) == element(s, blank(), t, tag, BodyForm::Verbatim));
    assert(element(s, blank(), t, tag, BodyForm::Verbatim) == element_body(
        s,
        given,
        g,
        tag,
        BodyForm::Verbatim,
    ));
    assert(element_body(s, given, g, tag, BodyForm::Verbatim) == enclosed_raw(
        s,
        given,
        g.kids,
        false,
        slice(s, name),
    ));
}

/// A raw run is a raw template, or a string literal where a template could not hold it.
pub proof fn raw_runs_are_raw(s: Seq<u8>, kids: Seq<Tree>, k: int)
    requires
        0 <= k < kids.len(),
        kids[k].kind == NodeKind::Raw,
        !breaks_template(slice(s, kids[k].span)),
    ensures
        reads(parts_written(s, kids, k), utf8("{String.raw`") + slice(s, kids[k].span) + utf8("`}")
            + parts_written(s, kids, k + 1)),
{
    broadcast use joined_to_nothing;

    reveal(grows);

    let raw = put(put(put(blank(), utf8("{String.raw`")), slice(s, kids[k].span)), utf8("`}"));
    parts_adds(s, raw, kids, k + 1, None);
    assert(parts(s, blank(), kids, k, None) == parts(s, raw, kids, k + 1, None));
}

/// What encloses children opens, holds them, and closes.
proof fn children_are_enclosed(
    s: Seq<u8>,
    w: Written,
    kids: Seq<Tree>,
    from: int,
    braced: bool,
    name: Seq<u8>,
)
    requires
        child_pieces(s, kids, from, false, braced).len() > 0,
    ensures
        reads(
            enclosed(s, w, kids, from, braced, name).code,
            w.code + utf8(">") + children_written(s, kids, from, braced) + utf8("</") + name + utf8(
                ">",
            ),
        ),
{
    reveal(grows);
    let ps = child_pieces(s, kids, from, false, braced);
    let n = ps.len() as int;
    items_adds(s, put(w, utf8(">")), kids, from, braced, ps, 0, n, false, None);
    assert(children(s, blank(), kids, from, braced) == items(
        s,
        blank(),
        kids,
        from,
        braced,
        ps,
        0,
        n,
        false,
        None,
    ));
}

/// Emphasis is `<strong>`, `<em>` or `<s>`, by its marker.
pub proof fn emphasis_is_written(s: Seq<u8>, t: Tree, marker: NotaEmphasisMarker)
    requires
        t.kind == (NodeKind::Emphasis { marker }),
        child_pieces(s, t.kids, 0, false, true).len() > 0,
    ensures
        ({
            let inner = children_written(s, t.kids, 0, true);
            match marker {
                NotaEmphasisMarker::Strong => reads(written(s, t), utf8("<strong") + utf8(">")
                    + inner
                    + utf8("</") + utf8("strong") + utf8(">")),
                NotaEmphasisMarker::Em => reads(written(s, t), utf8("<em") + utf8(">") + inner
                    + utf8("</") + utf8("em") + utf8(">")),
                NotaEmphasisMarker::Strike => reads(written(s, t), utf8("<s") + utf8(">") + inner
                    + utf8("</") + utf8("s") + utf8(">")),
            }
        }),
{
    broadcast use joined_to_nothing;


    let (open, name) = match marker {
        NotaEmphasisMarker::Strong => (utf8("<strong"), utf8("strong")),
        NotaEmphasisMarker::Em => (utf8("<em"), utf8("em")),
        NotaEmphasisMarker::Strike => (utf8("<s"), utf8("s")),
    };
    children_are_enclosed(s, put(blank(), open), t.kids, 0, true, name);
    assert(node(s, blank(), t) == enclosed(s, put(blank(), open), t.kids, 0, true, name));
}

/// A heading is `<Heading rank={…}>` with its level, and a list item `<UlLi>` or `<OlLi>`; the
/// attributes that trail either are its own.
pub proof fn headings_and_items_are_written(s: Seq<u8>, t: Tree)
    requires
        t.kind is Heading || t.kind is ListItem,
        t.kind matches NodeKind::Heading { level } ==> 1 <= level <= 6,
        child_pieces(s, t.kids, first_child(t.kids), false, false).len() > 0,
    ensures
        ({
            let own = t.kids.len() > 0 && t.kids[0].kind == NodeKind::Props;
            let given = if own {
                attrs_written(s, t.kids[0].kids, 0)
            } else {
                Seq::empty()
            };
            let inner = children_written(s, t.kids, if own { 1 } else { 0 }, false);
            match t.kind {
                NodeKind::Heading { level } => reads(written(s, t), utf8("<Heading rank={") + seq![
                    (DIGIT_0 + level) as u8,
                ] + utf8("}") + given + utf8(">") + inner + utf8("</") + utf8("Heading")
                    + utf8(">")),
                NodeKind::ListItem { list } => match list {
                    NotaListKind::Unordered => reads(written(s, t), utf8("<UlLi") + given
                        + utf8(">")
                        + inner + utf8("</") + utf8("UlLi") + utf8(">")),
                    NotaListKind::Ordered => reads(written(s, t), utf8("<OlLi") + given
                        + utf8(">") + inner + utf8("</") + utf8("OlLi") + utf8(">")),
                },
                _ => true,
            }
        }),
{
    broadcast use joined_to_nothing;

    reveal(grows);
    let (first, name) = match t.kind {
        NodeKind::Heading { level } => (
            put(put(put(blank(), utf8("<Heading rank={")), rank(level)), utf8("}")),
            utf8("Heading"),
        ),
        NodeKind::ListItem { list } => match list {
            NotaListKind::Unordered => (put(blank(), utf8("<UlLi")), utf8("UlLi")),
            NotaListKind::Ordered => (put(blank(), utf8("<OlLi")), utf8("OlLi")),
        },
        _ => (blank(), utf8("")),
    };
    assert(node(s, blank(), t) == item_element(s, first, t, name));
    let from = first_child(t.kids);
    let given = if from == 1 {
        attrs(s, first, t.kids[0].kids, 0)
    } else {
        first
    };
    if from == 1 {
        attrs_adds(s, first, t.kids[0].kids, 0);
    } else {
        assert(first.code + Seq::<u8>::empty() =~= first.code);
    }
    assert(item_element(s, first, t, name) == enclosed(s, given, t.kids, from, false, name));
    children_are_enclosed(s, given, t.kids, from, false, name);
}

/// What encloses raw runs and armed forms opens, holds them, and closes.
proof fn parts_are_enclosed(s: Seq<u8>, w: Written, kids: Seq<Tree>, name: Seq<u8>)
    requires
        kids.len() > 0,
    ensures
        reads(
            enclosed_raw(s, w, kids, false, name).code,
            w.code + utf8(">") + parts_written(s, kids, 0) + utf8("</") + name + utf8(">"),
        ),
{
    reveal(grows);
    parts_adds(s, opened_body(w, false), kids, 0, None);
}

/// Code and math are their raw runs and armed forms in the elements of their kinds: a code block
/// with its language, a display with its flag.
pub proof fn raw_spans_are_written(s: Seq<u8>, t: Tree)
    requires
        t.kind is Code || t.kind is Math,
        t.kids.len() > 0,
    ensures
        ({
            let inner = parts_written(s, t.kids, 0);
            match t.kind {
                NodeKind::Code { is_block, lang } => if !is_block {
                    reads(written(s, t), utf8("<CodeInline") + utf8(">") + inner + utf8("</")
                        + utf8("CodeInline") + utf8(">"))
            } else {
                    reads(written(s, t), utf8("<CodeBlock") + (match lang {
                        Some(tag) => text_attr(blank(), utf8(" lang="), slice(s, tag)).code,
                        None => Seq::empty(),
                    }) + utf8(">") + inner + utf8("</") + utf8("CodeBlock") + utf8(">"))
            },
                NodeKind::Math { is_block } => reads(written(s, t), (if is_block {
                    utf8("<Tex display")
                } else {
                    utf8("<Tex")
                }) + utf8(">") + inner + utf8("</") + utf8("Tex") + utf8(">")),
                _ => true,
            }
        }),
{
    broadcast use joined_to_nothing;

    reveal(grows);
    match t.kind {
        NodeKind::Code { is_block, lang } => if !is_block {
            let first = put(blank(), utf8("<CodeInline"));
            parts_are_enclosed(s, first, t.kids, utf8("CodeInline"));
            assert(node(s, blank(), t) == enclosed_raw(
                s,
                first,
                t.kids,
                false,
                utf8("CodeInline"),
            ));
        } else {
            let open = put(blank(), utf8("<CodeBlock"));
            let first = match lang {
                Some(tag) => text_attr(open, utf8(" lang="), slice(s, tag)),
                None => open,
            };
            match lang {
                Some(tag) => {
                    text_attr_adds(open, utf8(" lang="), slice(s, tag));
                },
                None => {
                    assert(open.code + Seq::<u8>::empty() =~= open.code);
                },
            }
            parts_are_enclosed(s, first, t.kids, utf8("CodeBlock"));
            assert(node(s, blank(), t) == enclosed_raw(
                s,
                first,
                t.kids,
                false,
                utf8("CodeBlock"),
            ));
        },
        NodeKind::Math { is_block } => {
            let first = if is_block {
                put(blank(), utf8("<Tex display"))
            } else {
                put(blank(), utf8("<Tex"))
            };
            parts_are_enclosed(s, first, t.kids, utf8("Tex"));
            assert(node(s, blank(), t) == enclosed_raw(s, first, t.kids, false, utf8("Tex")));
        },
        _ => {},
    }
}

/// Text as an attribute is written in quotes where it is inert, and as a string literal in braces
/// where it is not.
pub proof fn text_attributes_are_written(name: Seq<u8>, t: Seq<u8>)
    ensures
        if forall|i: int|
            0 <= i < t.len() ==> #[trigger] t[i] != DQUOTE && t[i] != AMPERSAND && t[i] != LESS && t[i]
                != GREATER {
            reads(text_attr(blank(), name, t).code, name + utf8("\"") + t + utf8("\""))
            } else {
            reads(text_attr(blank(), name, t).code, name + utf8("{") + literal_written(t)
                + utf8("}"))
            },
{
    broadcast use joined, joined_to_nothing;

    reveal(grows);
    quoted_adds(put(put(blank(), name), utf8("{")), t);
}

/// A label is `<Label id=…>`, a reference `<Ref id=…>`, a footnote mark `<FootnoteMark label=…>` and
/// a footnote `<FootnoteText label=…>`, with the properties and the body that it has.
pub proof fn document_state_is_written(s: Seq<u8>, t: Tree, sugar: NotaDocStateKind, label: Span)
    requires
        t.kind == (NodeKind::DocState { sugar, label }),
        t.kids.len() == 0 || (t.kids.len() == 2 && child_pieces(
            s,
            t.kids[1].kids,
            0,
            false,
            false,
        ).len() > 0),
    ensures
        ({
            let name = slice(s, label);
            let tag = match sugar {
                NotaDocStateKind::Label => utf8("Label"),
                NotaDocStateKind::Ref => utf8("Ref"),
                NotaDocStateKind::FootnoteMark => utf8("FootnoteMark"),
                NotaDocStateKind::FootnoteText => utf8("FootnoteText"),
            };
            let open = match sugar {
                NotaDocStateKind::Label => utf8("<Label") + text_attr(
                    blank(),
                    utf8(" id="),
                    name,
                ).code,
                NotaDocStateKind::Ref => utf8("<Ref") + text_attr(blank(), utf8(" id="), name).code,
                NotaDocStateKind::FootnoteMark => utf8("<FootnoteMark") + text_attr(
                    blank(),
                    utf8(" label="),
                    name,
                ).code,
                NotaDocStateKind::FootnoteText => utf8("<FootnoteText") + text_attr(
                    blank(),
                    utf8(" label="),
                    name,
                ).code,
            };
            reads(written(s, t), open + (if t.kids.len() == 0 {
                utf8(" />")
            } else {
                attrs_written(s, t.kids[0].kids, 0) + utf8(">") + children_written(
                    s,
                    t.kids[1].kids,
                    0,
                    false,
                ) + utf8("</") + tag + utf8(">")
            }))
        }),
{
    broadcast use joined, joined_to_nothing;

    reveal(grows);
    let name = slice(s, label);
    let key = match sugar {
        NotaDocStateKind::Label => utf8(" id="),
        NotaDocStateKind::Ref => utf8(" id="),
        NotaDocStateKind::FootnoteMark => utf8(" label="),
        NotaDocStateKind::FootnoteText => utf8(" label="),
    };
    let open = match sugar {
        NotaDocStateKind::Label => put(blank(), utf8("<Label")),
        NotaDocStateKind::Ref => put(blank(), utf8("<Ref")),
        NotaDocStateKind::FootnoteMark => put(blank(), utf8("<FootnoteMark")),
        NotaDocStateKind::FootnoteText => put(blank(), utf8("<FootnoteText")),
    };
    text_attr_adds(open, key, name);
    let given = text_attr(open, key, name);
    let tag = match sugar {
        NotaDocStateKind::Label => utf8("Label"),
        NotaDocStateKind::Ref => utf8("Ref"),
        NotaDocStateKind::FootnoteMark => utf8("FootnoteMark"),
        NotaDocStateKind::FootnoteText => utf8("FootnoteText"),
    };
    assert(node(s, blank(), t) == slot(s, given, t, tag));
    if t.kids.len() == 2 {
        attrs_adds(s, given, t.kids[0].kids, 0);
        let more = attrs(s, given, t.kids[0].kids, 0);
        children_are_enclosed(s, more, t.kids[1].kids, 0, false, tag);
    }
}

/// A link is `<a href=…>` over its text, an image `<img src=… alt=… />`, a thematic break `<hr />`.
pub proof fn links_and_images_are_written(s: Seq<u8>, t: Tree)
    requires
        t.kind is Link ==> child_pieces(s, t.kids, 0, false, true).len() > 0,
    ensures
        match t.kind {
            NodeKind::Link { url } => reads(written(s, t), utf8("<a") + text_attr(
                blank(),
                utf8(" href="),
                url_text(slice(s, url)),
            ).code + utf8(">") + children_written(s, t.kids, 0, true) + utf8("</") + utf8("a")
                + utf8(">")),
            NodeKind::Image { alt, src } => reads(written(s, t), utf8("<img") + text_attr(
                blank(),
                utf8(" src="),
                url_text(slice(s, src)),
            ).code + text_attr(blank(), utf8(" alt="), url_text(slice(s, alt))).code + utf8(
                " />",
            )),
            NodeKind::ThematicBreak => reads(written(s, t), utf8("<hr />")),
            NodeKind::Attrs => reads(written(s, t), utf8("<Attrs") + attrs_written(s, t.kids, 0)
                + utf8(" />")),
            _ => true,
        },
{
    broadcast use joined_to_nothing;

    reveal(grows);
    match t.kind {
        NodeKind::Link { url } => {
            let open = put(blank(), utf8("<a"));
            text_attr_adds(open, utf8(" href="), url_text(slice(s, url)));
            let given = text_attr(open, utf8(" href="), url_text(slice(s, url)));
            children_are_enclosed(s, given, t.kids, 0, true, utf8("a"));
        },
        NodeKind::Image { alt, src } => {
            let open = put(blank(), utf8("<img"));
            text_attr_adds(open, utf8(" src="), url_text(slice(s, src)));
            let given = text_attr(open, utf8(" src="), url_text(slice(s, src)));
            text_attr_adds(given, utf8(" alt="), url_text(slice(s, alt)));
        },
        NodeKind::Attrs => {
            attrs_adds(s, put(blank(), utf8("<Attrs")), t.kids, 0);
        },
        _ => {},
    }
}

/// A text among the children is a string literal in braces; texts side by side are one.
pub proof fn texts_are_literals(
    s: Seq<u8>,
    kids: Seq<Tree>,
    from: int,
    braced: bool,
    ps: Seq<Piece<usize>>,
    k: int,
    n: int,
    text: Seq<u8>,
)
    requires
        0 <= k < n <= ps.len(),
        ps[k] == Piece::<usize>::Text(text),
    ensures
        k + 1 == n || child_text(s, kids, ps[k + 1]) is None ==> reads(pieces_written(
            s,
            kids,
            from,
            braced,
            ps,
            k,
            n,
        ), utf8("{") + literal_written(text) + utf8("}") + pieces_written(
            s,
            kids,
            from,
            braced,
            ps,
            k + 1,
            n,
        )),
        k + 1 < n ==> (ps[k + 1] matches Piece::Text(more) ==> reads(pieces_written(
            s,
            kids,
            from,
            braced,
            ps,
            k,
            n,
        ), pieces_written(
            s,
            kids,
            from,
            braced,
            ps.update(k + 1, Piece::Text(text + more)),
            k + 1,
            n,
        ))),
{
    broadcast use joined, joined_to_nothing;

    reveal(grows);
    let held = Some(text);
    quoted_adds(put(blank(), utf8("{")), text);
    let before = flushed(blank(), held);
    assert(items(s, blank(), kids, from, braced, ps, k, n, false, None) == items(
        s,
        blank(),
        kids,
        from,
        braced,
        ps,
        k + 1,
        n,
        false,
        held,
    ));
    if k + 1 < n {
        if child_text(s, kids, ps[k + 1]) is None {
            item_adds(s, before, kids, from, braced, ps[k + 1]);
            let next = item(s, before, kids, from, braced, ps[k + 1]);
            let alone = item(s, blank(), kids, from, braced, ps[k + 1]);
            items_adds(s, next, kids, from, braced, ps, k + 2, n, false, None);
            items_adds(s, alone, kids, from, braced, ps, k + 2, n, false, None);
        }
        if let Piece::Text(more) = ps[k + 1] {
            let joint = ps.update(k + 1, Piece::Text(text + more));
            assert(joint[k + 1] == Piece::<usize>::Text(text + more));
            later_pieces_alone(s, blank(), kids, from, braced, ps, joint, k + 2, n, Some(text
                + more));
        }
    } else {
        assert(pieces_written(s, kids, from, braced, ps, n, n) == Seq::<u8>::empty());
        assert(utf8("}") + Seq::<u8>::empty() =~= utf8("}"));
    }
}

/// Only the pieces from `k` on count.
proof fn later_pieces_alone(
    s: Seq<u8>,
    w: Written,
    kids: Seq<Tree>,
    from: int,
    braced: bool,
    ps: Seq<Piece<usize>>,
    qs: Seq<Piece<usize>>,
    k: int,
    n: int,
    held: Option<Seq<u8>>,
)
    requires
        0 <= k,
        ps.len() == qs.len(),
        forall|i: int| k <= i < ps.len() ==> ps[i] == qs[i],
    ensures
        items(s, w, kids, from, braced, ps, k, n, false, held) == items(
            s,
            w,
            kids,
            from,
            braced,
            qs,
            k,
            n,
            false,
            held,
        ),
    decreases n - k,
{
    if k < n && n <= ps.len() {
        assert(ps[k] == qs[k]);
        match child_text(s, kids, ps[k]) {
            Some(t) => {
                let more = held_with(held, t);
                later_pieces_alone(s, w, kids, from, braced, ps, qs, k + 1, n, more);
            },
            None => {
                let next = item(s, flushed(w, held), kids, from, braced, ps[k]);
                later_pieces_alone(s, next, kids, from, braced, ps, qs, k + 1, n, None);
            },
        }
    }
}

/// A child that is not text is written as the construct that it is; an interpolation stands in
/// braces. A statement scopes the children behind it: they are what a function returns that is
/// called on the spot.
pub proof fn children_are_written_in_turn(
    s: Seq<u8>,
    kids: Seq<Tree>,
    from: int,
    braced: bool,
    ps: Seq<Piece<usize>>,
    k: int,
    n: int,
    i: usize,
)
    requires
        0 <= k < n <= ps.len(),
        ps[k] == Piece::<usize>::Elem(i),
        0 <= from <= i < kids.len(),
        child_text(s, kids, ps[k]) is None,
    ensures
        ({
            let t = kids[i as int];
            let rest = pieces_written(s, kids, from, braced, ps, k + 1, n);
            let here = pieces_written(s, kids, from, braced, ps, k, n);
            if t.kind is Statement {
                let j = statements_end(kids, i as int);
                reads(here, utf8("{(() => { ") + statements(s, blank(), kids, i as int, j).code
                    + utf8(
                    "return <>",
                ) + children_written(s, kids, j, braced) + utf8("</>; })()}")
                    + rest)} else if t.kind == NodeKind::Interpolation && !(t.kids.len() > 0
                    && t.kids[0].kind == (
            NodeKind::Js { tier: ExprTier::Element })) {
                reads(here, utf8("{") + written(s, t) + utf8("}") + rest)} else {
                reads(here, written(s, t) + rest)}
        }),
{
    broadcast use joined_to_nothing;

    reveal(grows);
    let t = kids[i as int];
    let next = item(s, blank(), kids, from, braced, ps[k]);
    items_adds(s, next, kids, from, braced, ps, k + 1, n, false, None);
    if is_statement(t) {
        let opened = put(blank(), utf8("{(() => { "));
        let j = statements_end(kids, i as int);
        statements_adds(s, opened, kids, i as int, j);
        let run = statements(s, opened, kids, i as int, j);
        children_adds(s, put(run, utf8("return <>")), kids, j, braced);
    } else {
        node_adds(s, put(blank(), utf8("{")), t);
        assert(next == child(s, blank(), t));
    }
}

/// A statement in which no form stands is copied, and ends with `;`.
pub proof fn statements_are_copied(s: Seq<u8>, t: Tree)
    requires
        t.kind is Statement,
        forall|k: int| 0 <= k < t.kids.len() ==> (#[trigger] t.kids[k]).kind is Binding,
        t.span.start < t.span.end <= s.len(),
        boundary(s, t.span.start as int),
        boundary(s, t.span.end as int),
    ensures
        s[t.span.end - 1] == SEMICOLON ==> reads(statement_written(s, t), slice(s, t.span)),
        s[t.span.end - 1] != SEMICOLON ==> reads(statement_written(s, t), slice(s, t.span) + utf8(";")),
{
    broadcast use joined, joined_to_nothing;

    plain_code_is_copied(s, t.kids, 0, t.span);
}

proof fn plain_code_is_copied(s: Seq<u8>, kids: Seq<Tree>, k: int, span: Span)
    requires
        0 <= k,
        forall|k: int| 0 <= k < kids.len() ==> (#[trigger] kids[k]).kind is Binding,
        span.start < span.end <= s.len(),
        boundary(s, span.start as int),
        boundary(s, span.end as int),
    ensures
        reads(splice(s, blank(), kids, k, span.start as int, span.end as int).code, slice(s, span)),
    decreases kids.len() - k,
{
    broadcast use joined_to_nothing;

    if k < kids.len() {
        plain_code_is_copied(s, kids, k + 1, span);
    }
}

/// The text of the statements that stand at the top of the module.
pub open spec fn module_written(s: Seq<u8>, nodes: Seq<Tree>) -> Seq<u8> {
    routed(s, blank(), nodes, 0, true, Seq::empty()).code
}

/// The text of the statements that stand in the function of the document.
pub open spec fn prelude_written(s: Seq<u8>, nodes: Seq<Tree>) -> Seq<u8> {
    routed(s, blank(), nodes, 0, false, utf8("  ")).code
}

/// The text of what the function of the document returns.
pub open spec fn body_written(s: Seq<u8>, nodes: Seq<Tree>) -> Seq<u8> {
    let ps = child_pieces(s, nodes, 0, true, false);
    utf8("  return <NotaDoc") + ((if ps.len() == 0 {
        utf8(" />")
    } else {
        utf8(">") + pieces_written(s, nodes, 0, false, ps, 0, ps.len() as int) + utf8("</")
            + utf8("NotaDoc") + utf8(">")
    }) + utf8(";\n}\n"))
}

/// A module is its imports and exports, and a function that returns the document.
pub proof fn document_is_framed(s: Seq<u8>, nodes: Seq<Tree>)
    ensures
        reads(document(s, nodes).code, module_written(s, nodes) + utf8(
            "export default function Doc() {\n",
        ) + prelude_written(s, nodes) + body_written(s, nodes)),
{
    broadcast use joined, joined_to_nothing;

    reveal(grows);
    let none = Seq::<u8>::empty();
    let top = put(
        routed(s, blank(), nodes, 0, true, none),
        utf8("export default function Doc() {\n"),
    );
    routed_adds(s, top, nodes, 0, false, utf8("  "));
    let open = put(routed(s, top, nodes, 0, false, utf8("  ")), utf8("  return <NotaDoc"));
    let ps = child_pieces(s, nodes, 0, true, false);
    let n = ps.len() as int;
    items_adds(s, put(open, utf8(">")), nodes, 0, false, ps, 0, n, false, None);
}

/// What `routed` writes does not depend on what stands before it.
proof fn routed_adds(
    s: Seq<u8>,
    w: Written,
    nodes: Seq<Tree>,
    k: int,
    hoisted: bool,
    indent: Seq<u8>,
)
    ensures
        follows(
            routed(s, w, nodes, k, hoisted, indent).code,
            w.code,
            routed(s, blank(), nodes, k, hoisted, indent).code,
        ),
    decreases nodes.len() - k,
{
    broadcast use joined, joined_to_nothing;

    reveal(grows);
    assert(w.code + Seq::<u8>::empty() =~= w.code);
    if 0 <= k < nodes.len() {
        routed_adds(s, w, nodes, k + 1, hoisted, indent);
        statement_adds(s, put(w, indent), nodes[k]);
        statement_adds(s, put(blank(), indent), nodes[k]);
        let here = put(statement(s, put(w, indent), nodes[k]), utf8("\n"));
        let alone = put(statement(s, put(blank(), indent), nodes[k]), utf8("\n"));
        routed_adds(s, here, nodes, k + 1, hoisted, indent);
        routed_adds(s, alone, nodes, k + 1, hoisted, indent);
    }
}

/// Routing the nodes from `k` on is routing them as if they were all.
proof fn routed_from(s: Seq<u8>, nodes: Seq<Tree>, more: Seq<Tree>, k: int, j: int, hoisted: bool,
    indent: Seq<u8>)
    requires
        0 <= k <= nodes.len(),
        0 <= j <= more.len(),
        nodes.skip(k) == more.skip(j),
    ensures
        reads(
            routed(s, blank(), nodes, k, hoisted, indent).code,
            routed(s, blank(), more, j, hoisted, indent).code,
        ),
    decreases nodes.len() - k,
{
    reveal(grows);
    assert(nodes.skip(k).len() == nodes.len() - k);
    assert(more.skip(j).len() == more.len() - j);
    if k < nodes.len() {
        assert(nodes.skip(k)[0] == nodes[k]);
        assert(more.skip(j)[0] == more[j]);
        assert(nodes.skip(k + 1) =~= nodes.skip(k).skip(1));
        assert(more.skip(j + 1) =~= more.skip(j).skip(1));
        routed_from(s, nodes, more, k + 1, j + 1, hoisted, indent);
        let alone = put(statement(s, put(blank(), indent), nodes[k]), utf8("\n"));
        routed_adds(s, alone, nodes, k + 1, hoisted, indent);
        routed_adds(s, alone, more, j + 1, hoisted, indent);
    }
}

/// Routing goes through the nodes one by one: those before `m`, and those from `m` on.
proof fn routed_splits(s: Seq<u8>, nodes: Seq<Tree>, k: int, m: int, hoisted: bool, indent: Seq<u8>)
    requires
        0 <= k <= m <= nodes.len(),
    ensures
        follows(
            routed(s, blank(), nodes, k, hoisted, indent).code,
            routed(s, blank(), nodes.take(m), k, hoisted, indent).code,
            routed(s, blank(), nodes, m, hoisted, indent).code,
        ),
    decreases m - k,
{
    broadcast use joined, joined_to_nothing;

    reveal(grows);
    let before = nodes.take(m);
    if k < m {
        assert(before[k] == nodes[k]);
        routed_splits(s, nodes, k + 1, m, hoisted, indent);
        let alone = put(statement(s, put(blank(), indent), nodes[k]), utf8("\n"));
        routed_adds(s, alone, nodes, k + 1, hoisted, indent);
        routed_adds(s, alone, before, k + 1, hoisted, indent);
    }
}

/// Leaving out a node that is not routed there changes nothing.
proof fn routed_without(s: Seq<u8>, nodes: Seq<Tree>, m: int, hoisted: bool, indent: Seq<u8>)
    requires
        0 <= m < nodes.len(),
        !is_statement(nodes[m]) || is_hoisted(nodes[m]) != hoisted,
    ensures
        reads(
            routed(s, blank(), nodes, 0, hoisted, indent).code,
            routed(s, blank(), nodes.remove(m), 0, hoisted, indent).code,
        ),
{
    let rest = nodes.remove(m);
    routed_splits(s, nodes, 0, m, hoisted, indent);
    routed_splits(s, rest, 0, m, hoisted, indent);
    assert(rest.take(m) =~= nodes.take(m));
    assert(rest.skip(m) =~= nodes.skip(m + 1));
    routed_from(s, nodes, rest, m + 1, m, hoisted, indent);
}

/// Imports and exports stand at the top of the module, before the function of the document, each
/// where the source has it among them, and nowhere else.
pub proof fn imports_and_exports_are_hoisted(s: Seq<u8>, nodes: Seq<Tree>, m: int)
    requires
        0 <= m < nodes.len(),
        nodes[m].kind matches NodeKind::Statement { class, attach } && (class
            == StatementClass::Import || class == StatementClass::Export || class
            == StatementClass::ExportDefault),
    ensures
        reads(document(s, nodes).code, module_written(s, nodes.take(m)) + statement_written(
            s,
            nodes[m],
        ) + utf8("\n") + module_written(s, nodes.skip(m + 1)) + utf8(
            "export default function Doc() {\n",
        ) + prelude_written(s, nodes.remove(m)) + body_written(s, nodes)),
{
    broadcast use joined, joined_to_nothing;

    reveal(grows);
    document_is_framed(s, nodes);
    let none = Seq::<u8>::empty();
    routed_splits(s, nodes, 0, m, true, none);
    let here = put(statement(s, put(blank(), none), nodes[m]), utf8("\n"));
    assert(put(blank(), none).code =~= blank().code);
    statement_adds(s, put(blank(), none), nodes[m]);
    routed_adds(s, here, nodes, m + 1, true, none);
    assert(nodes.skip(m + 1).skip(0) =~= nodes.skip(m + 1));
    routed_from(s, nodes, nodes.skip(m + 1), m + 1, 0, true, none);
    routed_without(s, nodes, m, false, utf8("  "));
}

/// Any other statement at the top of a document stands in the function of the document, before what
/// it returns, and nowhere else.
pub proof fn plain_statements_stay_local(s: Seq<u8>, nodes: Seq<Tree>, m: int)
    requires
        0 <= m < nodes.len(),
        nodes[m].kind matches NodeKind::Statement { class, attach }
            && class == StatementClass::Plain,
    ensures
        reads(document(s, nodes).code, module_written(s, nodes.remove(m)) + utf8(
            "export default function Doc() {\n",
        ) + prelude_written(s, nodes.take(m)) + utf8("  ") + statement_written(s, nodes[m])
            + utf8("\n") + prelude_written(s, nodes.skip(m + 1)) + body_written(s, nodes)),
{
    broadcast use joined, joined_to_nothing;

    reveal(grows);
    document_is_framed(s, nodes);
    let two = utf8("  ");
    routed_splits(s, nodes, 0, m, false, two);
    let here = put(statement(s, put(blank(), two), nodes[m]), utf8("\n"));
    statement_adds(s, put(blank(), two), nodes[m]);
    routed_adds(s, here, nodes, m + 1, false, two);
    assert(nodes.skip(m + 1).skip(0) =~= nodes.skip(m + 1));
    routed_from(s, nodes, nodes.skip(m + 1), m + 1, 0, false, two);
    routed_without(s, nodes, m, true, Seq::empty());
}

} // verus!
