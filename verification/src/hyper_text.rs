//! What hyperscript a document is written as, construct by construct.
//!
//! What is written for a node does not depend on what was written before it, so that each construct
//! has a text of its own; the laws here say what that text is.

use vstd::prelude::*;
use crate::ascii::{DIGIT_0, SEMICOLON};
use crate::bytes::{at, utf8, Span};
use crate::hyper::{
    argument, children, code_open, conditional, doc_state, doc_state_open, document, element,
    element_body, form_needs_parens, fragment, grouped, heading, is_hoisted, item, items, iteration,
    list_item, loop_body, markup, more_props, node, parts, prop, prop_key, prop_list, props, rank,
    raw_text, routed, splice, statement, statements, table_items,
};
use crate::jsx_text::{
    alike_at_first, alike_at_last, alike_by_anchor, alike_by_put, alike_by_source, alike_by_step,
    follows, grows, joined, joined_to_nothing, literal_written, quoted_adds, reads,
};
use crate::lowering::{
    breaks_template, child_pieces, first_child, fresh_index, is_host, is_row, is_statement,
    is_white_piece, key_name, refuses_text, rows_end, rows_end_bounds, statements_end,
    statements_end_bounds, url_text,
};
use crate::output::{blank, put, put_quoted, put_source, slice, Written};
use crate::scribble::Piece;
use crate::tree::{
    BodyForm, ExprTier, NameAttach, NodeKind, NotaDocStateKind, NotaEmphasisMarker, NotaListKind,
    NotaTag, StatementClass, Tree,
};
use crate::unicode::boundary;

verus! {

/// What `raw_text` writes does not depend on what stands before it.
proof fn raw_text_adds(w: Written, t: Seq<u8>)
    ensures
        grows(w, raw_text(w, t), raw_text(blank(), t).code),
{
    broadcast use alike_by_put, alike_by_step, alike_by_source, alike_by_anchor;

    alike_at_first(w);
    quoted_adds(w, t);
    quoted_adds(blank(), t);
    alike_at_last(w, raw_text(w, t), raw_text(blank(), t));
}

/// Is an expression one that takes parentheses before `?`?
pub open spec fn is_wide(t: Tree) -> bool {
    t.kind == NodeKind::Js { tier: ExprTier::Assignment } || t.kind == NodeKind::Js {
        tier: ExprTier::Sequence,
    }
}

/// What `node` writes does not depend on what stands before it.
proof fn node_adds(s: Seq<u8>, w: Written, t: Tree)
    ensures
        grows(w, node(s, w, t), node(s, blank(), t).code),
    decreases t, 0int, 20int, 0int,
{
    broadcast use alike_by_put, alike_by_step, alike_by_source, alike_by_anchor;

    alike_at_first(w);
    {
        let kids = t.kids;
        match t.kind {
            NodeKind::Element { tag, body } => element_adds(s, w, t, tag, body),
            NodeKind::Fragment => fragment_adds(s, w, t, true),
            NodeKind::Interpolation => if kids.len() > 0 {
                argument_adds(s, w, kids[0]);
            },
            NodeKind::Js { tier: _ } => argument_adds(s, w, t),
            NodeKind::Markup => if kids.len() > 0 {
                node_adds(s, w, kids[0]);
            },
            NodeKind::If => conditional_adds(s, w, t),
            NodeKind::For => iteration_adds(s, w, t),
            NodeKind::Emphasis { marker } => {
                let open = match marker {
                    NotaEmphasisMarker::Strong => utf8("h(\"strong\", {}, ["),
                    NotaEmphasisMarker::Em => utf8("h(\"em\", {}, ["),
                    NotaEmphasisMarker::Strike => utf8("h(\"s\", {}, ["),
                };
                children_adds(s, put(w, open), kids, 0, true, false);
            },
            NodeKind::Heading { level } => heading_adds(s, w, t, level),
            NodeKind::ListItem { list } => list_item_adds(s, w, t, list),
            NodeKind::Attrs => props_adds(s, put(w, utf8("h(Attrs, ")), t),
            NodeKind::DocState { sugar, label } => doc_state_adds(s, w, t, sugar, label),
            NodeKind::Link { url } => {
                let first = put(w, utf8("h(\"a\", { href: "));
                quoted_adds(first, url_text(slice(s, url)));
                let open = put(put_quoted(first, url_text(slice(s, url))), utf8(" }, ["));
                children_adds(s, open, kids, 0, true, false);
            },
            NodeKind::Image { alt, src } => {
                let first = put(w, utf8("h(\"img\", { src: "));
                quoted_adds(first, url_text(slice(s, src)));
                let second = put(put_quoted(first, url_text(slice(s, src))), utf8(", alt: "));
                quoted_adds(second, url_text(slice(s, alt)));
            },
            NodeKind::Code { is_block, lang } => {
                code_open_adds(s, w, is_block, lang);
                parts_adds(s, code_open(s, w, is_block, lang), kids, 0);
            },
            NodeKind::Math { is_block } => {
                let open = if is_block {
                    utf8("h(Tex, { display: true }, [")
                } else {
                    utf8("h(Tex, {}, [")
                };
                parts_adds(s, put(w, open), kids, 0);
            },
            _ => {},
        }
    }
    {
        let kids = t.kids;
        match t.kind {
            NodeKind::Element { tag, body } => element_adds(s, blank(), t, tag, body),
            NodeKind::Fragment => fragment_adds(s, blank(), t, true),
            NodeKind::Interpolation => if kids.len() > 0 {
                argument_adds(s, blank(), kids[0]);
            },
            NodeKind::Js { tier: _ } => argument_adds(s, blank(), t),
            NodeKind::Markup => if kids.len() > 0 {
                node_adds(s, blank(), kids[0]);
            },
            NodeKind::If => conditional_adds(s, blank(), t),
            NodeKind::For => iteration_adds(s, blank(), t),
            NodeKind::Emphasis { marker } => {
                let open = match marker {
                    NotaEmphasisMarker::Strong => utf8("h(\"strong\", {}, ["),
                    NotaEmphasisMarker::Em => utf8("h(\"em\", {}, ["),
                    NotaEmphasisMarker::Strike => utf8("h(\"s\", {}, ["),
                };
                children_adds(s, put(blank(), open), kids, 0, true, false);
            },
            NodeKind::Heading { level } => heading_adds(s, blank(), t, level),
            NodeKind::ListItem { list } => list_item_adds(s, blank(), t, list),
            NodeKind::Attrs => props_adds(s, put(blank(), utf8("h(Attrs, ")), t),
            NodeKind::DocState { sugar, label } => doc_state_adds(s, blank(), t, sugar, label),
            NodeKind::Link { url } => {
                let first = put(blank(), utf8("h(\"a\", { href: "));
                quoted_adds(first, url_text(slice(s, url)));
                let open = put(put_quoted(first, url_text(slice(s, url))), utf8(" }, ["));
                children_adds(s, open, kids, 0, true, false);
            },
            NodeKind::Image { alt, src } => {
                let first = put(blank(), utf8("h(\"img\", { src: "));
                quoted_adds(first, url_text(slice(s, src)));
                let second = put(put_quoted(first, url_text(slice(s, src))), utf8(", alt: "));
                quoted_adds(second, url_text(slice(s, alt)));
            },
            NodeKind::Code { is_block, lang } => {
                code_open_adds(s, blank(), is_block, lang);
                parts_adds(s, code_open(s, blank(), is_block, lang), kids, 0);
            },
            NodeKind::Math { is_block } => {
                let open = if is_block {
                    utf8("h(Tex, { display: true }, [")
                } else {
                    utf8("h(Tex, {}, [")
                };
                parts_adds(s, put(blank(), open), kids, 0);
            },
            _ => {},
        }
    }
    alike_at_last(w, node(s, w, t), node(s, blank(), t));
}

/// What `heading` writes does not depend on what stands before it.
proof fn heading_adds(s: Seq<u8>, w: Written, t: Tree, level: u8)
    ensures
        grows(w, heading(s, w, t, level), heading(s, blank(), t, level).code),
    decreases t, 0int, 19int, 0int,
{
    broadcast use alike_by_put, alike_by_step, alike_by_source, alike_by_anchor;

    alike_at_first(w);
    {
        let from = first_child(t.kids);
        let ranked = put(put(w, utf8("h(Heading, { rank: ")), rank(level));
        let given = if from == 1 {
            more_props(s, ranked, t.kids[0].kids, 0)
        } else {
            ranked
        };
        if from == 1 {
            more_props_adds(s, ranked, t.kids[0].kids, 0);
        }
        children_adds(s, put(given, utf8(" }, [")), t.kids, from, false, false);
    }
    {
        let from = first_child(t.kids);
        let ranked = put(put(blank(), utf8("h(Heading, { rank: ")), rank(level));
        let given = if from == 1 {
            more_props(s, ranked, t.kids[0].kids, 0)
        } else {
            ranked
        };
        if from == 1 {
            more_props_adds(s, ranked, t.kids[0].kids, 0);
        }
        children_adds(s, put(given, utf8(" }, [")), t.kids, from, false, false);
    }
    alike_at_last(w, heading(s, w, t, level), heading(s, blank(), t, level));
}

/// What `list_item` writes does not depend on what stands before it.
proof fn list_item_adds(s: Seq<u8>, w: Written, t: Tree, list: NotaListKind)
    ensures
        grows(w, list_item(s, w, t, list), list_item(s, blank(), t, list).code),
    decreases t, 0int, 19int, 0int,
{
    broadcast use alike_by_put, alike_by_step, alike_by_source, alike_by_anchor;

    alike_at_first(w);
    {
        let from = first_child(t.kids);
        let open = put(
            w,
            match list {
                NotaListKind::Unordered => utf8("h(\"nota-ul-li\", "),
                NotaListKind::Ordered => utf8("h(\"nota-ol-li\", "),
            },
        );
        let given = if from == 1 {
            props(s, open, t.kids[0])
        } else {
            put(open, utf8("{}"))
        };
        if from == 1 {
            props_adds(s, open, t.kids[0]);
        }
        children_adds(s, put(given, utf8(", [")), t.kids, from, false, false);
    }
    {
        let from = first_child(t.kids);
        let open = put(
            blank(),
            match list {
                NotaListKind::Unordered => utf8("h(\"nota-ul-li\", "),
                NotaListKind::Ordered => utf8("h(\"nota-ol-li\", "),
            },
        );
        let given = if from == 1 {
            props(s, open, t.kids[0])
        } else {
            put(open, utf8("{}"))
        };
        if from == 1 {
            props_adds(s, open, t.kids[0]);
        }
        children_adds(s, put(given, utf8(", [")), t.kids, from, false, false);
    }
    alike_at_last(w, list_item(s, w, t, list), list_item(s, blank(), t, list));
}

/// What `doc_state` writes does not depend on what stands before it.
proof fn doc_state_adds(s: Seq<u8>, w: Written, t: Tree, sugar: NotaDocStateKind, label: Span)
    ensures
        grows(w, doc_state(s, w, t, sugar, label), doc_state(s, blank(), t, sugar, label).code),
    decreases t, 0int, 19int, 0int,
{
    broadcast use alike_by_put, alike_by_step, alike_by_source, alike_by_anchor;

    alike_at_first(w);
    {
        let first = put(w, doc_state_open(sugar));
        quoted_adds(first, slice(s, label));
        let named = put_quoted(first, slice(s, label));
        if t.kids.len() >= 2 {
            more_props_adds(s, named, t.kids[0].kids, 0);
            let open = put(more_props(s, named, t.kids[0].kids, 0), utf8(" }, ["));
            children_adds(s, open, t.kids[1].kids, 0, false, false);
        }
    }
    {
        let first = put(blank(), doc_state_open(sugar));
        quoted_adds(first, slice(s, label));
        let named = put_quoted(first, slice(s, label));
        if t.kids.len() >= 2 {
            more_props_adds(s, named, t.kids[0].kids, 0);
            let open = put(more_props(s, named, t.kids[0].kids, 0), utf8(" }, ["));
            children_adds(s, open, t.kids[1].kids, 0, false, false);
        }
    }
    alike_at_last(w, doc_state(s, w, t, sugar, label), doc_state(s, blank(), t, sugar, label));
}

/// What `more_props` writes does not depend on what stands before it.
proof fn more_props_adds(s: Seq<u8>, w: Written, kids: Seq<Tree>, k: int)
    ensures
        grows(w, more_props(s, w, kids, k), more_props(s, blank(), kids, k).code),
    decreases kids, kids.len() - k, 5int, 0int,
{
    broadcast use alike_by_put, alike_by_step, alike_by_source, alike_by_anchor;

    alike_at_first(w);
    {
        if 0 <= k < kids.len() {
            if kids[k].kind == NodeKind::PropsAnchor {
                more_props_adds(s, w, kids, k + 1);
            } else {
                prop_adds(s, put(w, utf8(", ")), kids[k]);
                more_props_adds(s, prop(s, put(w, utf8(", ")), kids[k]), kids, k + 1);
            }
        }
    }
    {
        if 0 <= k < kids.len() {
            if kids[k].kind == NodeKind::PropsAnchor {
                more_props_adds(s, blank(), kids, k + 1);
            } else {
                prop_adds(s, put(blank(), utf8(", ")), kids[k]);
                more_props_adds(s, prop(s, put(blank(), utf8(", ")), kids[k]), kids, k + 1);
            }
        }
    }
    alike_at_last(w, more_props(s, w, kids, k), more_props(s, blank(), kids, k));
}

/// What `code_open` writes does not depend on what stands before it.
proof fn code_open_adds(s: Seq<u8>, w: Written, is_block: bool, lang: Option<Span>)
    ensures
        grows(w, code_open(s, w, is_block, lang), code_open(s, blank(), is_block, lang).code),
{
    broadcast use alike_by_put, alike_by_step, alike_by_source, alike_by_anchor;

    alike_at_first(w);
    {
        if let Some(tag) = lang {
            quoted_adds(put(w, utf8("h(CodeBlock, { lang: ")), slice(s, tag));
        }
    }
    {
        if let Some(tag) = lang {
            quoted_adds(put(blank(), utf8("h(CodeBlock, { lang: ")), slice(s, tag));
        }
    }
    alike_at_last(w, code_open(s, w, is_block, lang), code_open(s, blank(), is_block, lang));
}

/// What `element` writes does not depend on what stands before it.
proof fn element_adds(s: Seq<u8>, w: Written, t: Tree, tag: NotaTag, body: BodyForm)
    ensures
        grows(w, element(s, w, t, tag, body), element(s, blank(), t, tag, body).code),
    decreases t, 0int, 19int, 0int,
{
    broadcast use alike_by_put, alike_by_step, alike_by_source, alike_by_anchor;

    alike_at_first(w);
    {
        if t.kids.len() >= 2 {
            let opened = put(w, utf8("h("));
            let tagged = match tag {
                NotaTag::Host { name } => put_quoted(opened, slice(s, name)),
                NotaTag::Component { name } => put_source(opened, s, name.start as int,
                    name.end as int),
                NotaTag::Dynamic => if t.kids.len() >= 3 {
                    argument(s, opened, t.kids[2])
                } else {
                    opened
                },
            };
            match tag {
                NotaTag::Host { name } => quoted_adds(opened, slice(s, name)),
                NotaTag::Component { name: _ } => {},
                NotaTag::Dynamic => if t.kids.len() >= 3 {
                    argument_adds(s, opened, t.kids[2]);
                },
            }
            props_adds(s, put(tagged, utf8(", ")), t.kids[0]);
            let attributed = put(props(s, put(tagged, utf8(", ")), t.kids[0]), utf8(", ["));
            element_body_adds(s, attributed, t.kids[1], tag, body);
        }
    }
    {
        if t.kids.len() >= 2 {
            let opened = put(blank(), utf8("h("));
            let tagged = match tag {
                NotaTag::Host { name } => put_quoted(opened, slice(s, name)),
                NotaTag::Component { name } => put_source(opened, s, name.start as int,
                    name.end as int),
                NotaTag::Dynamic => if t.kids.len() >= 3 {
                    argument(s, opened, t.kids[2])
                } else {
                    opened
                },
            };
            match tag {
                NotaTag::Host { name } => quoted_adds(opened, slice(s, name)),
                NotaTag::Component { name: _ } => {},
                NotaTag::Dynamic => if t.kids.len() >= 3 {
                    argument_adds(s, opened, t.kids[2]);
                },
            }
            props_adds(s, put(tagged, utf8(", ")), t.kids[0]);
            let attributed = put(props(s, put(tagged, utf8(", ")), t.kids[0]), utf8(", ["));
            element_body_adds(s, attributed, t.kids[1], tag, body);
        }
    }
    alike_at_last(w, element(s, w, t, tag, body), element(s, blank(), t, tag, body));
}

/// What `element_body` writes does not depend on what stands before it.
proof fn element_body_adds(s: Seq<u8>, w: Written, g: Tree, tag: NotaTag, body: BodyForm)
    ensures
        grows(w, element_body(s, w, g, tag, body), element_body(s, blank(), g, tag, body).code),
    decreases g, 0int, 18int, 0int,
{
    broadcast use alike_by_put, alike_by_step, alike_by_source, alike_by_anchor;

    alike_at_first(w);
    {
        if body == BodyForm::Verbatim {
            parts_adds(s, w, g.kids, 0);
        } else {
            let braced = body == BodyForm::Braced;
            let ps = child_pieces(s, g.kids, 0, false, braced);
            let n = ps.len() as int;
            if is_host(s, tag, utf8("table")) {
                table_items_adds(s, w, g.kids, braced, ps, 0, false);
            } else {
                items_adds(s, w, g.kids, 0, braced, ps, 0, n, refuses_text(s, tag), false);
            }
        }
    }
    {
        if body == BodyForm::Verbatim {
            parts_adds(s, blank(), g.kids, 0);
        } else {
            let braced = body == BodyForm::Braced;
            let ps = child_pieces(s, g.kids, 0, false, braced);
            let n = ps.len() as int;
            if is_host(s, tag, utf8("table")) {
                table_items_adds(s, blank(), g.kids, braced, ps, 0, false);
            } else {
                items_adds(s, blank(), g.kids, 0, braced, ps, 0, n, refuses_text(s, tag), false);
            }
        }
    }
    alike_at_last(w, element_body(s, w, g, tag, body), element_body(s, blank(), g, tag, body));
}

/// What `props` writes does not depend on what stands before it.
proof fn props_adds(s: Seq<u8>, w: Written, g: Tree)
    ensures
        grows(w, props(s, w, g), props(s, blank(), g).code),
    decreases g, 0int, 18int, 0int,
{
    broadcast use alike_by_put, alike_by_step, alike_by_source, alike_by_anchor;

    alike_at_first(w);
    {
        prop_list_adds(s, put(w, utf8("{ ")), g.kids, 0);
    }
    {
        prop_list_adds(s, put(blank(), utf8("{ ")), g.kids, 0);
    }
    alike_at_last(w, props(s, w, g), props(s, blank(), g));
}

/// What `prop_list` writes does not depend on what stands before it.
proof fn prop_list_adds(s: Seq<u8>, w: Written, kids: Seq<Tree>, k: int)
    ensures
        grows(w, prop_list(s, w, kids, k), prop_list(s, blank(), kids, k).code),
    decreases kids, kids.len() - k, 5int, 0int,
{
    broadcast use alike_by_put, alike_by_step, alike_by_source, alike_by_anchor;

    alike_at_first(w);
    {
        if 0 <= k < kids.len() {
            let sep = if k > 0 && kids[k].kind != NodeKind::PropsAnchor {
                put(w, utf8(", "))
            } else {
                w
            };
            prop_adds(s, sep, kids[k]);
            prop_list_adds(s, prop(s, sep, kids[k]), kids, k + 1);
        }
    }
    {
        if 0 <= k < kids.len() {
            let sep = if k > 0 && kids[k].kind != NodeKind::PropsAnchor {
                put(blank(), utf8(", "))
            } else {
                blank()
            };
            prop_adds(s, sep, kids[k]);
            prop_list_adds(s, prop(s, sep, kids[k]), kids, k + 1);
        }
    }
    alike_at_last(w, prop_list(s, w, kids, k), prop_list(s, blank(), kids, k));
}

/// What `prop` writes does not depend on what stands before it.
proof fn prop_adds(s: Seq<u8>, w: Written, p: Tree)
    ensures
        grows(w, prop(s, w, p), prop(s, blank(), p).code),
    decreases p, 0int, 10int, 0int,
{
    broadcast use alike_by_put, alike_by_step, alike_by_source, alike_by_anchor;

    alike_at_first(w);
    {
        match p.kind {
            NodeKind::Field { key, quoted } => if p.kids.len() > 0 {
                prop_key_adds(s, w, key, quoted);
                node_adds(s, put(prop_key(s, w, key, quoted), utf8(": ")), p.kids[0]);
            },
            NodeKind::Spread => if p.kids.len() > 0 {
                node_adds(s, put(w, utf8("...")), p.kids[0]);
            },
            _ => {},
        }
    }
    {
        match p.kind {
            NodeKind::Field { key, quoted } => if p.kids.len() > 0 {
                prop_key_adds(s, blank(), key, quoted);
                node_adds(s, put(prop_key(s, blank(), key, quoted), utf8(": ")), p.kids[0]);
            },
            NodeKind::Spread => if p.kids.len() > 0 {
                node_adds(s, put(blank(), utf8("...")), p.kids[0]);
            },
            _ => {},
        }
    }
    alike_at_last(w, prop(s, w, p), prop(s, blank(), p));
}

/// What `prop_key` writes does not depend on what stands before it.
proof fn prop_key_adds(s: Seq<u8>, w: Written, key: Span, quoted: bool)
    ensures
        grows(w, prop_key(s, w, key, quoted), prop_key(s, blank(), key, quoted).code),
{
    broadcast use alike_by_put, alike_by_step, alike_by_source, alike_by_anchor;

    alike_at_first(w);
    {
        quoted_adds(w, slice(s, key_name(key, quoted)));
    }
    {
        quoted_adds(blank(), slice(s, key_name(key, quoted)));
    }
    alike_at_last(w, prop_key(s, w, key, quoted), prop_key(s, blank(), key, quoted));
}

/// What `fragment` writes does not depend on what stands before it.
proof fn fragment_adds(s: Seq<u8>, w: Written, t: Tree, braced: bool)
    ensures
        grows(w, fragment(s, w, t, braced), fragment(s, blank(), t, braced).code),
    decreases t, 0int, 19int, 0int,
{
    broadcast use alike_by_put, alike_by_step, alike_by_source, alike_by_anchor;

    alike_at_first(w);
    {
        children_adds(s, put(w, utf8("Fragment(")), t.kids, 0, braced, false);
    }
    {
        children_adds(s, put(blank(), utf8("Fragment(")), t.kids, 0, braced, false);
    }
    alike_at_last(w, fragment(s, w, t, braced), fragment(s, blank(), t, braced));
}

/// What `children` writes does not depend on what stands before it.
proof fn children_adds(
    s: Seq<u8>,
    w: Written,
    kids: Seq<Tree>,
    from: int,
    braced: bool,
    comma: bool,
)
    ensures
        grows(w, children(s, w, kids, from, braced, comma), children(s, blank(), kids, from,
            braced, comma).code),
    decreases kids, kids.len() - from, 6int, 0int,
{
    broadcast use alike_by_put, alike_by_step, alike_by_source, alike_by_anchor;

    alike_at_first(w);
    {
        let ps = child_pieces(s, kids, from, false, braced);
        items_adds(s, w, kids, from, braced, ps, 0, ps.len() as int, false, comma);
    }
    {
        let ps = child_pieces(s, kids, from, false, braced);
        items_adds(s, blank(), kids, from, braced, ps, 0, ps.len() as int, false, comma);
    }
    alike_at_last(w, children(s, w, kids, from, braced, comma), children(s, blank(), kids, from,
        braced, comma));
}

/// What `items` writes does not depend on what stands before it.
proof fn items_adds(
    s: Seq<u8>,
    w: Written,
    kids: Seq<Tree>,
    from: int,
    braced: bool,
    ps: Seq<Piece<usize>>,
    k: int,
    n: int,
    bare: bool,
    comma: bool,
)
    ensures
        grows(w, items(s, w, kids, from, braced, ps, k, n, bare, comma), items(s, blank(), kids,
            from, braced, ps, k, n, bare, comma).code),
    decreases kids, kids.len() - from, 4int, n - k,
{
    broadcast use alike_by_put, alike_by_step, alike_by_source, alike_by_anchor;

    alike_at_first(w);
    {
        if 0 <= k < n && n <= ps.len() {
            if bare && is_white_piece(s, kids, ps[k]) {
                items_adds(s, w, kids, from, braced, ps, k + 1, n, bare, comma);
            } else {
                let sep = if comma {
                    put(w, utf8(", "))
                } else {
                    w
                };
                item_adds(s, sep, kids, from, braced, ps[k]);
                let next = item(s, sep, kids, from, braced, ps[k]);
                items_adds(s, next, kids, from, braced, ps, k + 1, n, bare, true);
            }
        }
    }
    {
        if 0 <= k < n && n <= ps.len() {
            if bare && is_white_piece(s, kids, ps[k]) {
                items_adds(s, blank(), kids, from, braced, ps, k + 1, n, bare, comma);
            } else {
                let sep = if comma {
                    put(blank(), utf8(", "))
                } else {
                    blank()
                };
                item_adds(s, sep, kids, from, braced, ps[k]);
                let next = item(s, sep, kids, from, braced, ps[k]);
                items_adds(s, next, kids, from, braced, ps, k + 1, n, bare, true);
            }
        }
    }
    alike_at_last(w, items(s, w, kids, from, braced, ps, k, n, bare, comma), items(s, blank(),
        kids, from, braced, ps, k, n, bare, comma));
}

/// What `item` writes does not depend on what stands before it.
proof fn item_adds(
    s: Seq<u8>,
    w: Written,
    kids: Seq<Tree>,
    from: int,
    braced: bool,
    p: Piece<usize>,
)
    ensures
        grows(w, item(s, w, kids, from, braced, p), item(s, blank(), kids, from, braced, p).code),
    decreases kids, kids.len() - from, 3int, 0int,
{
    broadcast use alike_by_put, alike_by_step, alike_by_source, alike_by_anchor;

    alike_at_first(w);
    {
        match p {
            Piece::Text(text) => quoted_adds(w, text),
            Piece::Elem(i) => if 0 <= from <= i && i < kids.len() {
                if is_statement(kids[i as int]) {
                    let opened = put(w, utf8("(() => { "));
                    let j = statements_end(kids, i as int);
                    statements_end_bounds(kids, i as int);
                    statements_adds(s, opened, kids, i as int, j);
                    let run = statements(s, opened, kids, i as int, j);
                    children_adds(s, put(run, utf8("return Fragment(")), kids, j, braced, false);
                } else {
                    node_adds(s, w, kids[i as int]);
                }
            },
        }
    }
    {
        match p {
            Piece::Text(text) => quoted_adds(blank(), text),
            Piece::Elem(i) => if 0 <= from <= i && i < kids.len() {
                if is_statement(kids[i as int]) {
                    let opened = put(blank(), utf8("(() => { "));
                    let j = statements_end(kids, i as int);
                    statements_end_bounds(kids, i as int);
                    statements_adds(s, opened, kids, i as int, j);
                    let run = statements(s, opened, kids, i as int, j);
                    children_adds(s, put(run, utf8("return Fragment(")), kids, j, braced, false);
                } else {
                    node_adds(s, blank(), kids[i as int]);
                }
            },
        }
    }
    alike_at_last(w, item(s, w, kids, from, braced, p), item(s, blank(), kids, from, braced, p));
}

/// What `table_items` writes does not depend on what stands before it.
proof fn table_items_adds(
    s: Seq<u8>,
    w: Written,
    kids: Seq<Tree>,
    braced: bool,
    ps: Seq<Piece<usize>>,
    k: int,
    comma: bool,
)
    ensures
        grows(w, table_items(s, w, kids, braced, ps, k, comma), table_items(s, blank(), kids,
            braced, ps, k, comma).code),
    decreases kids, kids.len() as int, 5int, ps.len() - k,
{
    broadcast use alike_by_put, alike_by_step, alike_by_source, alike_by_anchor;

    alike_at_first(w);
    {
        if 0 <= k < ps.len() {
            if is_white_piece(s, kids, ps[k]) {
                table_items_adds(s, w, kids, braced, ps, k + 1, comma);
            } else {
                let sep = if comma {
                    put(w, utf8(", "))
                } else {
                    w
                };
                if is_row(s, kids, ps[k]) {
                    let e = rows_end(s, kids, ps, k);
                    rows_end_bounds(s, kids, ps, k);
                    let open = put(sep, utf8("h(\"tbody\", {}, ["));
                    items_adds(s, open, kids, 0, braced, ps, k, e, true, false);
                    let rows = items(s, open, kids, 0, braced, ps, k, e, true, false);
                    table_items_adds(s, put(rows, utf8("])")), kids, braced, ps, e, true);
                } else {
                    item_adds(s, sep, kids, 0, braced, ps[k]);
                    let next = item(s, sep, kids, 0, braced, ps[k]);
                    table_items_adds(s, next, kids, braced, ps, k + 1, true);
                }
            }
        }
    }
    {
        if 0 <= k < ps.len() {
            if is_white_piece(s, kids, ps[k]) {
                table_items_adds(s, blank(), kids, braced, ps, k + 1, comma);
            } else {
                let sep = if comma {
                    put(blank(), utf8(", "))
                } else {
                    blank()
                };
                if is_row(s, kids, ps[k]) {
                    let e = rows_end(s, kids, ps, k);
                    rows_end_bounds(s, kids, ps, k);
                    let open = put(sep, utf8("h(\"tbody\", {}, ["));
                    items_adds(s, open, kids, 0, braced, ps, k, e, true, false);
                    let rows = items(s, open, kids, 0, braced, ps, k, e, true, false);
                    table_items_adds(s, put(rows, utf8("])")), kids, braced, ps, e, true);
                } else {
                    item_adds(s, sep, kids, 0, braced, ps[k]);
                    let next = item(s, sep, kids, 0, braced, ps[k]);
                    table_items_adds(s, next, kids, braced, ps, k + 1, true);
                }
            }
        }
    }
    alike_at_last(w, table_items(s, w, kids, braced, ps, k, comma), table_items(s, blank(), kids,
        braced, ps, k, comma));
}

/// What `parts` writes does not depend on what stands before it.
proof fn parts_adds(s: Seq<u8>, w: Written, kids: Seq<Tree>, k: int)
    ensures
        grows(w, parts(s, w, kids, k), parts(s, blank(), kids, k).code),
    decreases kids, kids.len() - k, 5int, 0int,
{
    broadcast use alike_by_put, alike_by_step, alike_by_source, alike_by_anchor;

    alike_at_first(w);
    {
        if 0 <= k < kids.len() {
            let sep = if k > 0 {
                put(w, utf8(", "))
            } else {
                w
            };
            if kids[k].kind == NodeKind::Raw {
                raw_text_adds(sep, slice(s, kids[k].span));
                parts_adds(s, raw_text(sep, slice(s, kids[k].span)), kids, k + 1);
            } else {
                node_adds(s, sep, kids[k]);
                parts_adds(s, node(s, sep, kids[k]), kids, k + 1);
            }
        }
    }
    {
        if 0 <= k < kids.len() {
            let sep = if k > 0 {
                put(blank(), utf8(", "))
            } else {
                blank()
            };
            if kids[k].kind == NodeKind::Raw {
                raw_text_adds(sep, slice(s, kids[k].span));
                parts_adds(s, raw_text(sep, slice(s, kids[k].span)), kids, k + 1);
            } else {
                node_adds(s, sep, kids[k]);
                parts_adds(s, node(s, sep, kids[k]), kids, k + 1);
            }
        }
    }
    alike_at_last(w, parts(s, w, kids, k), parts(s, blank(), kids, k));
}

/// What `argument` writes does not depend on what stands before it.
proof fn argument_adds(s: Seq<u8>, w: Written, t: Tree)
    ensures
        grows(w, argument(s, w, t), argument(s, blank(), t).code),
    decreases t, 0int, 17int, 0int,
{
    broadcast use alike_by_put, alike_by_step, alike_by_source, alike_by_anchor;

    alike_at_first(w);
    {
        grouped_adds(s, w, t, t.kind == NodeKind::Js { tier: ExprTier::Sequence });
    }
    {
        grouped_adds(s, blank(), t, t.kind == NodeKind::Js { tier: ExprTier::Sequence });
    }
    alike_at_last(w, argument(s, w, t), argument(s, blank(), t));
}

/// What `grouped` writes does not depend on what stands before it.
proof fn grouped_adds(s: Seq<u8>, w: Written, t: Tree, parens: bool)
    ensures
        grows(w, grouped(s, w, t, parens), grouped(s, blank(), t, parens).code),
    decreases t, 0int, 16int, 0int,
{
    broadcast use alike_by_put, alike_by_step, alike_by_source, alike_by_anchor;

    alike_at_first(w);
    {
        let (a, b) = (t.span.start as int, t.span.end as int);
        if parens {
            splice_adds(s, put(w, utf8("(")), t.kids, 0, a, b);
        } else {
            splice_adds(s, w, t.kids, 0, a, b);
        }
    }
    {
        let (a, b) = (t.span.start as int, t.span.end as int);
        if parens {
            splice_adds(s, put(blank(), utf8("(")), t.kids, 0, a, b);
        } else {
            splice_adds(s, blank(), t.kids, 0, a, b);
        }
    }
    alike_at_last(w, grouped(s, w, t, parens), grouped(s, blank(), t, parens));
}

/// What `splice` writes does not depend on what stands before it.
proof fn splice_adds(s: Seq<u8>, w: Written, kids: Seq<Tree>, k: int, p: int, e: int)
    ensures
        grows(w, splice(s, w, kids, k, p, e), splice(s, blank(), kids, k, p, e).code),
    decreases kids, kids.len() - k, 5int, 0int,
{
    broadcast use alike_by_put, alike_by_step, alike_by_source, alike_by_anchor;

    alike_at_first(w);
    {
        if 0 <= k < kids.len() {
            let m = kids[k];
            if m.kind == NodeKind::Markup && p <= m.span.start && m.span.end <= e {
                let before = put_source(w, s, p, m.span.start as int);
                markup_adds(s, before, m);
                splice_adds(s, markup(s, before, m), kids, k + 1, m.span.end as int, e);
            } else {
                splice_adds(s, w, kids, k + 1, p, e);
            }
        }
    }
    {
        if 0 <= k < kids.len() {
            let m = kids[k];
            if m.kind == NodeKind::Markup && p <= m.span.start && m.span.end <= e {
                let before = put_source(blank(), s, p, m.span.start as int);
                markup_adds(s, before, m);
                splice_adds(s, markup(s, before, m), kids, k + 1, m.span.end as int, e);
            } else {
                splice_adds(s, blank(), kids, k + 1, p, e);
            }
        }
    }
    alike_at_last(w, splice(s, w, kids, k, p, e), splice(s, blank(), kids, k, p, e));
}

/// What `markup` writes does not depend on what stands before it.
proof fn markup_adds(s: Seq<u8>, w: Written, m: Tree)
    ensures
        grows(w, markup(s, w, m), markup(s, blank(), m).code),
    decreases m, 0int, 10int, 0int,
{
    broadcast use alike_by_put, alike_by_step, alike_by_source, alike_by_anchor;

    alike_at_first(w);
    {
        if m.kids.len() > 0 {
            if form_needs_parens(m.kids[0]) {
                node_adds(s, put(w, utf8("(")), m.kids[0]);
            } else {
                node_adds(s, w, m.kids[0]);
            }
        }
    }
    {
        if m.kids.len() > 0 {
            if form_needs_parens(m.kids[0]) {
                node_adds(s, put(blank(), utf8("(")), m.kids[0]);
            } else {
                node_adds(s, blank(), m.kids[0]);
            }
        }
    }
    alike_at_last(w, markup(s, w, m), markup(s, blank(), m));
}

/// What `conditional` writes does not depend on what stands before it.
proof fn conditional_adds(s: Seq<u8>, w: Written, t: Tree)
    ensures
        grows(w, conditional(s, w, t), conditional(s, blank(), t).code),
    decreases t, 0int, 19int, 0int,
{
    broadcast use alike_by_put, alike_by_step, alike_by_source, alike_by_anchor;

    alike_at_first(w);
    {
        if t.kids.len() >= 2 {
            let parens = is_wide(t.kids[0]);
            grouped_adds(s, w, t.kids[0], parens);
            let test = grouped(s, w, t.kids[0], parens);
            fragment_adds(s, put(test, utf8(" ? ")), t.kids[1], false);
            let then = put(fragment(s, put(test, utf8(" ? ")), t.kids[1], false), utf8(" : "));
            if t.kids.len() >= 3 {
                if t.kids[2].kind == NodeKind::If {
                    conditional_adds(s, then, t.kids[2]);
                } else {
                    fragment_adds(s, then, t.kids[2], false);
                }
            }
        }
    }
    {
        if t.kids.len() >= 2 {
            let parens = is_wide(t.kids[0]);
            grouped_adds(s, blank(), t.kids[0], parens);
            let test = grouped(s, blank(), t.kids[0], parens);
            fragment_adds(s, put(test, utf8(" ? ")), t.kids[1], false);
            let then = put(fragment(s, put(test, utf8(" ? ")), t.kids[1], false), utf8(" : "));
            if t.kids.len() >= 3 {
                if t.kids[2].kind == NodeKind::If {
                    conditional_adds(s, then, t.kids[2]);
                } else {
                    fragment_adds(s, then, t.kids[2], false);
                }
            }
        }
    }
    alike_at_last(w, conditional(s, w, t), conditional(s, blank(), t));
}

/// What `iteration` writes does not depend on what stands before it.
proof fn iteration_adds(s: Seq<u8>, w: Written, t: Tree)
    ensures
        grows(w, iteration(s, w, t), iteration(s, blank(), t).code),
    decreases t, 0int, 19int, 0int,
{
    broadcast use alike_by_put, alike_by_step, alike_by_source, alike_by_anchor;

    alike_at_first(w);
    {
        if t.kids.len() >= 3 {
            let index = fresh_index(slice(s, t.span));
            let loose = !t.kids[1].kind.is_object();
            grouped_adds(s, w, t.kids[1], loose);
            let iterable = grouped(s, w, t.kids[1], loose);
            grouped_adds(s, put(iterable, utf8(".map((")), t.kids[0], false);
            let pattern = grouped(s, put(iterable, utf8(".map((")), t.kids[0], false);
            let params = put(put(pattern, utf8(", ")), index);
            let keyed = put(put(put(params, utf8(") => Fragment({ key: ")), index), utf8(" }"));
            loop_body_adds(s, keyed, t.kids[2]);
        }
    }
    {
        if t.kids.len() >= 3 {
            let index = fresh_index(slice(s, t.span));
            let loose = !t.kids[1].kind.is_object();
            grouped_adds(s, blank(), t.kids[1], loose);
            let iterable = grouped(s, blank(), t.kids[1], loose);
            grouped_adds(s, put(iterable, utf8(".map((")), t.kids[0], false);
            let pattern = grouped(s, put(iterable, utf8(".map((")), t.kids[0], false);
            let params = put(put(pattern, utf8(", ")), index);
            let keyed = put(put(put(params, utf8(") => Fragment({ key: ")), index), utf8(" }"));
            loop_body_adds(s, keyed, t.kids[2]);
        }
    }
    alike_at_last(w, iteration(s, w, t), iteration(s, blank(), t));
}

/// What `loop_body` writes does not depend on what stands before it.
proof fn loop_body_adds(s: Seq<u8>, w: Written, g: Tree)
    ensures
        grows(w, loop_body(s, w, g), loop_body(s, blank(), g).code),
    decreases g, 0int, 10int, 0int,
{
    broadcast use alike_by_put, alike_by_step, alike_by_source, alike_by_anchor;

    alike_at_first(w);
    {
        children_adds(s, w, g.kids, 0, false, true);
    }
    {
        children_adds(s, blank(), g.kids, 0, false, true);
    }
    alike_at_last(w, loop_body(s, w, g), loop_body(s, blank(), g));
}

/// What `statements` writes does not depend on what stands before it.
proof fn statements_adds(s: Seq<u8>, w: Written, kids: Seq<Tree>, i: int, j: int)
    ensures
        grows(w, statements(s, w, kids, i, j), statements(s, blank(), kids, i, j).code),
    decreases kids, kids.len() - i, 2int, 0int,
{
    broadcast use alike_by_put, alike_by_step, alike_by_source, alike_by_anchor;

    alike_at_first(w);
    {
        if 0 <= i < j && i < kids.len() {
            statement_adds(s, w, kids[i]);
            statements_adds(s, put(statement(s, w, kids[i]), utf8(" ")), kids, i + 1, j);
        }
    }
    {
        if 0 <= i < j && i < kids.len() {
            statement_adds(s, blank(), kids[i]);
            statements_adds(s, put(statement(s, blank(), kids[i]), utf8(" ")), kids, i + 1, j);
        }
    }
    alike_at_last(w, statements(s, w, kids, i, j), statements(s, blank(), kids, i, j));
}

/// What `statement` writes does not depend on what stands before it.
proof fn statement_adds(s: Seq<u8>, w: Written, t: Tree)
    ensures
        grows(w, statement(s, w, t), statement(s, blank(), t).code),
    decreases t, 0int, 10int, 0int,
{
    broadcast use alike_by_put, alike_by_step, alike_by_source, alike_by_anchor;

    alike_at_first(w);
    {
        let (a, b) = (t.span.start as int, t.span.end as int);
        match t.kind {
            NodeKind::Statement { class: _, attach: Some(at) } => {
                splice_adds(s, w, t.kids, 0, a, at.arg_end as int);
                let first = put(splice(s, w, t.kids, 0, a, at.arg_end as int), utf8(", "));
                quoted_adds(first, slice(s, at.name));
            },
            _ => splice_adds(s, w, t.kids, 0, a, b),
        }
    }
    {
        let (a, b) = (t.span.start as int, t.span.end as int);
        match t.kind {
            NodeKind::Statement { class: _, attach: Some(at) } => {
                splice_adds(s, blank(), t.kids, 0, a, at.arg_end as int);
                let first = put(splice(s, blank(), t.kids, 0, a, at.arg_end as int), utf8(", "));
                quoted_adds(first, slice(s, at.name));
            },
            _ => splice_adds(s, blank(), t.kids, 0, a, b),
        }
    }
    alike_at_last(w, statement(s, w, t), statement(s, blank(), t));
}

/// The text of a form or a sugar.
pub open spec fn written(s: Seq<u8>, t: Tree) -> Seq<u8> {
    node(s, blank(), t).code
}

/// The text of embedded code.
pub open spec fn code_written(s: Seq<u8>, t: Tree) -> Seq<u8> {
    argument(s, blank(), t).code
}

/// The text of the children from `from` on.
pub open spec fn children_written(s: Seq<u8>, kids: Seq<Tree>, from: int, braced: bool) -> Seq<u8> {
    children(s, blank(), kids, from, braced, false).code
}

/// The text of a statement.
pub open spec fn statement_written(s: Seq<u8>, t: Tree) -> Seq<u8> {
    statement(s, blank(), t).code
}

/// A construct is written after what is there, which stays, and as it would be if nothing were.
pub proof fn constructs_stand_alone(s: Seq<u8>, w: Written, t: Tree)
    ensures
        follows(node(s, w, t).code, w.code, written(s, t)),
{
    reveal(grows);
    node_adds(s, w, t);
}

proof fn branch_is_enclosed(s: Seq<u8>, w: Written, t: Tree, braced: bool)
    ensures
        reads(
            fragment(s, w, t, braced).code,
            w.code + utf8("Fragment(") + children_written(s, t.kids, 0, braced) + utf8(")"),
        ),
{
    reveal(grows);
    children_adds(s, put(w, utf8("Fragment(")), t.kids, 0, braced, false);
}

/// `@if` is a conditional expression: the branch where the condition holds, and the `else` part, or
/// `null` where there is none, where it does not.
pub proof fn conditionals_choose_their_branch(s: Seq<u8>, t: Tree)
    requires
        t.kind == NodeKind::If,
        2 <= t.kids.len() <= 3,
        t.kids[0].kind == (NodeKind::Js { tier: ExprTier::Primary }) || t.kids[0].kind == (
        NodeKind::Js { tier: ExprTier::Operator }),
    ensures
        ({
            let then = code_written(s, t.kids[0]) + utf8(" ? ") + utf8("Fragment(")
                + children_written(s, t.kids[1].kids, 0, false) + utf8(")") + utf8(" : ");
            &&& t.kids.len() == 2 ==> reads(written(s, t), then + utf8("null"))
            &&& t.kids.len() == 3 && t.kids[2].kind == NodeKind::If ==> reads(
                written(s, t),
                then + written(s, t.kids[2]),
            )
            &&& t.kids.len() == 3 && t.kids[2].kind != NodeKind::If ==> reads(
                written(s, t),
                then + utf8("Fragment(") + children_written(s, t.kids[2].kids, 0, false) + utf8(
                    ")",
                ),
            )
        }),
{
    broadcast use joined_to_nothing;

    reveal(grows);
    assert(node(s, blank(), t) == conditional(s, blank(), t));
    let test = grouped(s, blank(), t.kids[0], false);
    assert(argument(s, blank(), t.kids[0]) == test);
    branch_is_enclosed(s, put(test, utf8(" ? ")), t.kids[1], false);
    let then = put(fragment(s, put(test, utf8(" ? ")), t.kids[1], false), utf8(" : "));
    if t.kids.len() == 3 {
        if t.kids[2].kind == NodeKind::If {
            conditional_adds(s, then, t.kids[2]);
            assert(node(s, blank(), t.kids[2]) == conditional(s, blank(), t.kids[2]));
        } else {
            branch_is_enclosed(s, then, t.kids[2], false);
        }
    }
}

/// `@for` maps the iterable with a function of the pattern and an index, which keys the body.
pub proof fn loops_map_their_body(s: Seq<u8>, t: Tree)
    requires
        t.kind == NodeKind::For,
        t.kids.len() == 3,
        t.kids[1].kind == (NodeKind::Js { tier: ExprTier::Primary }),
        !(t.kids[0].kind == (NodeKind::Js { tier: ExprTier::Sequence })),
    ensures
        ({
            let index = fresh_index(slice(s, t.span));
            reads(
                written(s, t),
                code_written(s, t.kids[1]) + utf8(".map((") + code_written(s, t.kids[0]) + utf8(
                    ", ",
                ) + index + utf8(") => Fragment({ key: ") + index + utf8(" }") + children(
                    s,
                    blank(),
                    t.kids[2].kids,
                    0,
                    false,
                    true,
                ).code + utf8("))"),
            )
        }),
{
    broadcast use joined_to_nothing;

    reveal(grows);
    assert(node(s, blank(), t) == iteration(s, blank(), t));
    let index = fresh_index(slice(s, t.span));
    let iterable = grouped(s, blank(), t.kids[1], false);
    assert(argument(s, blank(), t.kids[1]) == iterable);
    assert(argument(s, blank(), t.kids[0]) == grouped(s, blank(), t.kids[0], false));
    grouped_adds(s, put(iterable, utf8(".map((")), t.kids[0], false);
    let pattern = grouped(s, put(iterable, utf8(".map((")), t.kids[0], false);
    let params = put(put(pattern, utf8(", ")), index);
    let keyed = put(put(put(params, utf8(") => Fragment({ key: ")), index), utf8(" }"));
    children_adds(s, keyed, t.kids[2].kids, 0, false, true);
    assert(iteration(s, blank(), t) == loop_body(s, keyed, t.kids[2]));
}

/// A fragment is a call of `Fragment` with its children.
pub proof fn fragments_enclose_their_children(s: Seq<u8>, t: Tree)
    requires
        t.kind == NodeKind::Fragment,
    ensures
        reads(
            written(s, t),
            utf8("Fragment(") + children_written(s, t.kids, 0, true) + utf8(")"),
        ),
{
    broadcast use joined_to_nothing;

    assert(node(s, blank(), t) == fragment(s, blank(), t, true));
    branch_is_enclosed(s, blank(), t, true);
}

/// Code in which no form stands is copied, in parentheses where it is a sequence.
pub proof fn code_is_copied(s: Seq<u8>, t: Tree, tier: ExprTier)
    requires
        t.kind == (NodeKind::Js { tier }),
        t.kids.len() == 0,
        t.span.start < t.span.end <= s.len(),
        boundary(s, t.span.start as int),
        boundary(s, t.span.end as int),
    ensures
        tier != ExprTier::Sequence ==> reads(code_written(s, t), slice(s, t.span)),
        tier == ExprTier::Sequence ==> reads(
            code_written(s, t),
            utf8("(") + slice(s, t.span) + utf8(")"),
        ),
{
    broadcast use joined_to_nothing;

    reveal(grows);
    let (a, b) = (t.span.start as int, t.span.end as int);
    assert(argument(s, blank(), t) == grouped(s, blank(), t, tier == ExprTier::Sequence));
    splice_adds(s, put(blank(), utf8("(")), t.kids, 0, a, b);
    assert(splice(s, blank(), t.kids, 0, a, b) == put_source(blank(), s, a, b));
}

/// An element is a call of `h` with its tag, its properties and its children.
pub proof fn elements_call_h(s: Seq<u8>, t: Tree, tag: NotaTag, body: BodyForm)
    requires
        t.kind == (NodeKind::Element { tag, body }),
        t.kids.len() >= 2,
        body != BodyForm::Verbatim,
        tag == NotaTag::Dynamic ==> t.kids.len() == 3,
        !refuses_text(s, tag),
    ensures
        ({
            let name = match tag {
                NotaTag::Host { name } => literal_written(slice(s, name)),
                NotaTag::Component { name } => put_source(
                    blank(),
                    s,
                    name.start as int,
                    name.end as int,
                ).code,
                NotaTag::Dynamic => code_written(s, t.kids[2]),
            };
            reads(
                written(s, t),
                utf8("h(") + name + utf8(", ") + props(s, blank(), t.kids[0]).code + utf8(", [")
                    + children_written(s, t.kids[1].kids, 0, body == BodyForm::Braced) + utf8("])"),
            )
        }),
{
    broadcast use joined_to_nothing;

    reveal(grows);
    let opened = put(blank(), utf8("h("));
    let tagged = match tag {
        NotaTag::Host { name } => put_quoted(opened, slice(s, name)),
        NotaTag::Component { name } => put_source(opened, s, name.start as int, name.end as int),
        NotaTag::Dynamic => argument(s, opened, t.kids[2]),
    };
    match tag {
        NotaTag::Host { name } => quoted_adds(opened, slice(s, name)),
        NotaTag::Component { name: _ } => {
            assert(opened.code + Seq::<u8>::empty() =~= opened.code);
        },
        NotaTag::Dynamic => argument_adds(s, opened, t.kids[2]),
    }
    props_adds(s, put(tagged, utf8(", ")), t.kids[0]);
    let given = put(props(s, put(tagged, utf8(", ")), t.kids[0]), utf8(", ["));
    let braced = body == BodyForm::Braced;
    let g = t.kids[1];
    let ps = child_pieces(s, g.kids, 0, false, braced);
    let n = ps.len() as int;
    assert(is_host(s, tag, utf8("table")) ==> refuses_text(s, tag));
    items_adds(s, given, g.kids, 0, braced, ps, 0, n, false, false);
    assert(node(s, blank(), t) == element(s, blank(), t, tag, body));
    assert(element(s, blank(), t, tag, body) == put(
        element_body(s, given, g, tag, body),
        utf8("])"),
    ));
    assert(children(s, blank(), g.kids, 0, braced, false) == items(
        s,
        blank(),
        g.kids,
        0,
        braced,
        ps,
        0,
        n,
        false,
        false,
    ));
}

/// The rows of a table that stand side by side, with white space among them or not, are the children
/// of one call of `h` for a `tbody`; what stands around them is not among them.
pub proof fn rows_stand_in_a_body(
    s: Seq<u8>,
    kids: Seq<Tree>,
    braced: bool,
    ps: Seq<Piece<usize>>,
    k: int,
    comma: bool,
)
    requires
        0 <= k < ps.len(),
        is_row(s, kids, ps[k]),
        !is_white_piece(s, kids, ps[k]),
    ensures
        ({
            let e = rows_end(s, kids, ps, k);
            reads(
                table_items(s, blank(), kids, braced, ps, k, comma).code,
                (if comma {
                    utf8(", ")
                } else {
                    Seq::empty()
                }) + utf8("h(\"tbody\", {}, [") + items(
                    s,
                    blank(),
                    kids,
                    0,
                    braced,
                    ps,
                    k,
                    e,
                    true,
                    false,
                ).code + utf8("])") + table_items(s, blank(), kids, braced, ps, e, true).code,
            )
        }),
{
    broadcast use joined_to_nothing;

    reveal(grows);
    let e = rows_end(s, kids, ps, k);
    rows_end_bounds(s, kids, ps, k);
    let sep = if comma {
        put(blank(), utf8(", "))
    } else {
        blank()
    };
    let open = put(sep, utf8("h(\"tbody\", {}, ["));
    items_adds(s, open, kids, 0, braced, ps, k, e, true, false);
    let rows = put(items(s, open, kids, 0, braced, ps, k, e, true, false), utf8("])"));
    table_items_adds(s, rows, kids, braced, ps, e, true);
}

/// The parts of a table's structure hold their children without the white space between them, a
/// `table` with its rows in bodies.
pub proof fn table_parts_hold_their_children(
    s: Seq<u8>,
    w: Written,
    g: Tree,
    name: Span,
    body: BodyForm,
)
    requires
        body != BodyForm::Verbatim,
        refuses_text(s, NotaTag::Host { name }),
    ensures
        ({
            let braced = body == BodyForm::Braced;
            let ps = child_pieces(s, g.kids, 0, false, braced);
            let n = ps.len() as int;
            reads(
                element_body(s, w, g, NotaTag::Host { name }, body).code,
                w.code + (if slice(s, name) == utf8("table") {
                    table_items(s, blank(), g.kids, braced, ps, 0, false).code
                } else {
                    items(s, blank(), g.kids, 0, braced, ps, 0, n, true, false).code
                }),
            )
        }),
{
    reveal(grows);
    let braced = body == BodyForm::Braced;
    let ps = child_pieces(s, g.kids, 0, false, braced);
    table_items_adds(s, w, g.kids, braced, ps, 0, false);
    items_adds(s, w, g.kids, 0, braced, ps, 0, ps.len() as int, true, false);
}

/// Properties are an object: fields with their keys, bare keys as they are, spreads.
pub proof fn properties_make_an_object(s: Seq<u8>, p: Tree)
    requires
        p.kids.len() > 0,
    ensures
        match p.kind {
            NodeKind::Field { key, quoted } => reads(
                prop(s, blank(), p).code,
                prop_key(s, blank(), key, quoted).code + utf8(": ") + written(s, p.kids[0]),
            ),
            NodeKind::Spread => reads(
                prop(s, blank(), p).code,
                utf8("...") + written(s, p.kids[0]),
            ),
            _ => true,
        },
{
    broadcast use joined_to_nothing;

    reveal(grows);
    match p.kind {
        NodeKind::Field { key, quoted } => {
            node_adds(s, put(prop_key(s, blank(), key, quoted), utf8(": ")), p.kids[0]);
        },
        NodeKind::Spread => {
            node_adds(s, put(blank(), utf8("...")), p.kids[0]);
        },
        _ => {},
    }
}

/// Properties are written one behind the other, with commas between them, in the braces of an object.
pub proof fn properties_follow_each_other(s: Seq<u8>, kids: Seq<Tree>, k: int)
    requires
        0 <= k < kids.len(),
        kids[k].kind != NodeKind::PropsAnchor,
    ensures
        ({
            let sep = if k > 0 {
                utf8(", ")
            } else {
                Seq::empty()
            };
            &&& reads(
                prop_list(s, blank(), kids, k).code,
                sep + prop(s, blank(), kids[k]).code + prop_list(s, blank(), kids, k + 1).code,
            )
            &&& reads(
                more_props(s, blank(), kids, k).code,
                utf8(", ") + prop(s, blank(), kids[k]).code + more_props(
                    s,
                    blank(),
                    kids,
                    k + 1,
                ).code,
            )
        }),
{
    broadcast use joined, joined_to_nothing;

    reveal(grows);
    let sep = if k > 0 {
        put(blank(), utf8(", "))
    } else {
        blank()
    };
    prop_adds(s, sep, kids[k]);
    prop_list_adds(s, prop(s, sep, kids[k]), kids, k + 1);
    let comma = put(blank(), utf8(", "));
    prop_adds(s, comma, kids[k]);
    more_props_adds(s, prop(s, comma, kids[k]), kids, k + 1);
}

/// The properties of an element are an object over all of them; there may be none.
pub proof fn properties_stand_in_braces(s: Seq<u8>, g: Tree)
    ensures
        g.kids.len() == 0 ==> reads(props(s, blank(), g).code, utf8("{}")),
        g.kids.len() > 0 ==> reads(
            props(s, blank(), g).code,
            utf8("{ ") + prop_list(s, blank(), g.kids, 0).code + utf8(" }"),
        ),
{
    broadcast use joined_to_nothing;

    reveal(grows);
    prop_list_adds(s, put(blank(), utf8("{ ")), g.kids, 0);
}

/// Headings and list items carry the properties that they were given.
pub proof fn headings_and_items_keep_their_properties(s: Seq<u8>, t: Tree)
    requires
        t.kids.len() > 0,
        t.kids[0].kind == NodeKind::Props,
        t.kind matches NodeKind::Heading { level } ==> 1 <= level <= 6,
    ensures
        match t.kind {
            NodeKind::Heading { level } => reads(
                written(s, t),
                utf8("h(Heading, { rank: ") + seq![(DIGIT_0 + level) as u8] + more_props(
                    s,
                    blank(),
                    t.kids[0].kids,
                    0,
                ).code + utf8(" }, [") + children_written(s, t.kids, 1, false) + utf8("])"),
            ),
            NodeKind::ListItem { list } => reads(
                written(s, t),
                (match list {
                    NotaListKind::Unordered => utf8("h(\"nota-ul-li\", "),
                    NotaListKind::Ordered => utf8("h(\"nota-ol-li\", "),
                }) + props(s, blank(), t.kids[0]).code + utf8(", [") + children_written(
                    s,
                    t.kids,
                    1,
                    false,
                ) + utf8("])"),
            ),
            _ => true,
        },
{
    broadcast use joined_to_nothing;

    reveal(grows);
    assert(first_child(t.kids) == 1);
    match t.kind {
        NodeKind::Heading { level } => {
            let ranked = put(put(blank(), utf8("h(Heading, { rank: ")), rank(level));
            more_props_adds(s, ranked, t.kids[0].kids, 0);
            let open = put(more_props(s, ranked, t.kids[0].kids, 0), utf8(" }, ["));
            children_adds(s, open, t.kids, 1, false, false);
            assert(node(s, blank(), t) == heading(s, blank(), t, level));
        },
        NodeKind::ListItem { list } => {
            let first = put(
                blank(),
                match list {
                    NotaListKind::Unordered => utf8("h(\"nota-ul-li\", "),
                    NotaListKind::Ordered => utf8("h(\"nota-ol-li\", "),
                },
            );
            props_adds(s, first, t.kids[0]);
            let open = put(props(s, first, t.kids[0]), utf8(", ["));
            children_adds(s, open, t.kids, 1, false, false);
            assert(node(s, blank(), t) == list_item(s, blank(), t, list));
        },
        _ => {},
    }
}

/// A label, a reference, a footnote mark and the text of a footnote are calls of `h` with the element
/// of their kind and their name, then the properties and the children that they were given.
pub proof fn document_state_calls_h(s: Seq<u8>, t: Tree, sugar: NotaDocStateKind, label: Span)
    requires
        t.kind == (NodeKind::DocState { sugar, label }),
    ensures
        ({
            let named = (match sugar {
                NotaDocStateKind::Label => utf8("h(Label, { id: "),
                NotaDocStateKind::Ref => utf8("h(Ref, { id: "),
                NotaDocStateKind::FootnoteMark => utf8("h(FootnoteMark, { label: "),
                NotaDocStateKind::FootnoteText => utf8("h(FootnoteText, { label: "),
            }) + literal_written(slice(s, label));
            &&& t.kids.len() < 2 ==> reads(written(s, t), named + utf8(" }, [])"))
            &&& t.kids.len() >= 2 ==> reads(
                written(s, t),
                named + more_props(s, blank(), t.kids[0].kids, 0).code + utf8(" }, [")
                    + children_written(s, t.kids[1].kids, 0, false) + utf8("])"),
            )
        }),
{
    broadcast use joined_to_nothing;

    reveal(grows);
    let first = put(blank(), doc_state_open(sugar));
    quoted_adds(first, slice(s, label));
    assert(node(s, blank(), t) == doc_state(s, blank(), t, sugar, label));
    if t.kids.len() >= 2 {
        let named = put_quoted(first, slice(s, label));
        more_props_adds(s, named, t.kids[0].kids, 0);
        let open = put(more_props(s, named, t.kids[0].kids, 0), utf8(" }, ["));
        children_adds(s, open, t.kids[1].kids, 0, false, false);
    }
}

/// Raw runs are `String.raw` templates, or literals where a template would break; armed forms stand
/// between them as they are lowered.
pub proof fn raw_runs_are_raw(s: Seq<u8>, kids: Seq<Tree>, k: int)
    requires
        0 <= k < kids.len(),
    ensures
        ({
            let t = slice(s, kids[k].span);
            let sep = if k > 0 {
                utf8(", ")
            } else {
                Seq::empty()
            };
            let here = if kids[k].kind != NodeKind::Raw {
                written(s, kids[k])
            } else if breaks_template(t) {
                literal_written(t)
            } else {
                utf8("String.raw`") + t + utf8("`")
            };
            reads(
                parts(s, blank(), kids, k).code,
                sep + here + parts(s, blank(), kids, k + 1).code,
            )
        }),
{
    broadcast use joined, joined_to_nothing;

    reveal(grows);
    let t = slice(s, kids[k].span);
    let sep = if k > 0 {
        put(blank(), utf8(", "))
    } else {
        blank()
    };
    quoted_adds(sep, t);
    node_adds(s, sep, kids[k]);
    let next = if kids[k].kind == NodeKind::Raw {
        raw_text(sep, t)
    } else {
        node(s, sep, kids[k])
    };
    parts_adds(s, next, kids, k + 1);
}

/// A verbatim element holds the raw runs and armed forms of its body.
pub proof fn verbatim_elements_hold_their_parts(s: Seq<u8>, w: Written, g: Tree, tag: NotaTag)
    ensures
        reads(
            element_body(s, w, g, tag, BodyForm::Verbatim).code,
            w.code + parts(s, blank(), g.kids, 0).code,
        ),
{
    reveal(grows);
    parts_adds(s, w, g.kids, 0);
}

/// Code with a form in it is the code before the form, the form, and the code after it; the form
/// stands in parentheses where it is a conditional or interpolates what needs them.
pub proof fn forms_are_lowered_in_place(s: Seq<u8>, kids: Seq<Tree>, k: int, p: int, e: int)
    requires
        0 <= k < kids.len(),
        kids[k].kind == NodeKind::Markup,
        kids[k].kids.len() == 1,
        p < kids[k].span.start,
        kids[k].span.end <= e <= s.len(),
        boundary(s, p),
        boundary(s, kids[k].span.start as int),
    ensures
        ({
            let m = kids[k];
            let before = s.subrange(p, m.span.start as int);
            let after = splice(s, blank(), kids, k + 1, m.span.end as int, e).code;
            let loose = m.kids[0].kind == NodeKind::If || (m.kids[0].kind == NodeKind::Interpolation
                && m.kids[0].kids.len() > 0 && !(m.kids[0].kids[0].kind == (NodeKind::Js {
                tier: ExprTier::Primary,
            }) || m.kids[0].kids[0].kind == (NodeKind::Js { tier: ExprTier::Element })));
            reads(
                splice(s, blank(), kids, k, p, e).code,
                before + (if loose {
                    utf8("(") + written(s, m.kids[0]) + utf8(")") + after
                } else {
                    written(s, m.kids[0]) + after
                }),
            )
        }),
{
    broadcast use joined, joined_to_nothing;

    reveal(grows);
    let m = kids[k];
    let before = put_source(blank(), s, p, m.span.start as int);
    node_adds(s, put(before, utf8("(")), m.kids[0]);
    node_adds(s, before, m.kids[0]);
    let after = markup(s, before, m);
    splice_adds(s, after, kids, k + 1, m.span.end as int, e);
    assert(splice(s, blank(), kids, k, p, e) == splice(s, after, kids, k + 1, m.span.end as int, e));
}

/// A statement is its code with the forms in it lowered, and ends with `;`. Where a component's name
/// is attached to it, the name follows the argument as a string.
pub proof fn statements_are_written(
    s: Seq<u8>,
    t: Tree,
    class: StatementClass,
    attach: Option<NameAttach>,
)
    requires
        t.kind == (NodeKind::Statement { class, attach }),
        t.span.start < t.span.end <= s.len(),
    ensures
        ({
            let (a, b) = (t.span.start as int, t.span.end as int);
            let end = if at(s, b - 1) == Some(SEMICOLON) {
                Seq::empty()
            } else {
                utf8(";")
            };
            match attach {
                None => reads(
                    statement_written(s, t),
                    splice(s, blank(), t.kids, 0, a, b).code + end,
                ),
                Some(name) => name.close < b && boundary(s, name.close as int) && boundary(s, b)
                    ==> reads(
                    statement_written(s, t),
                    splice(s, blank(), t.kids, 0, a, name.arg_end as int).code + utf8(", ")
                        + literal_written(slice(s, name.name)) + s.subrange(name.close as int, b)
                        + end,
                ),
            }
        }),
{
    broadcast use joined, joined_to_nothing;

    reveal(grows);
    if let Some(name) = attach {
        let before = put(
            splice(s, blank(), t.kids, 0, t.span.start as int, name.arg_end as int),
            utf8(", "),
        );
        quoted_adds(before, slice(s, name.name));
    }
    let text = statement(s, blank(), t).code;
    assert(text + Seq::<u8>::empty() =~= text);
}

/// Emphasis, headings, list items, code, math, links, images and thematic breaks are calls of `h`
/// with the elements of their kinds.
pub proof fn sugars_call_h(s: Seq<u8>, t: Tree)
    requires
        t.kind matches NodeKind::Heading { level } ==> 1 <= level <= 6,
    ensures
        match t.kind {
            NodeKind::Emphasis { marker } => reads(
                written(s, t),
                (match marker {
                    NotaEmphasisMarker::Strong => utf8("h(\"strong\", {}, ["),
                    NotaEmphasisMarker::Em => utf8("h(\"em\", {}, ["),
                    NotaEmphasisMarker::Strike => utf8("h(\"s\", {}, ["),
                }) + children_written(s, t.kids, 0, true) + utf8("])"),
            ),
            NodeKind::Heading { level } => !(t.kids.len() > 0 && t.kids[0].kind == NodeKind::Props)
                ==> reads(
                written(s, t),
                utf8("h(Heading, { rank: ") + seq![(DIGIT_0 + level) as u8] + utf8(" }, [")
                    + children_written(s, t.kids, 0, false) + utf8("])"),
            ),
            NodeKind::ListItem { list } => !(t.kids.len() > 0 && t.kids[0].kind == NodeKind::Props)
                ==> reads(
                written(s, t),
                (match list {
                    NotaListKind::Unordered => utf8("h(\"nota-ul-li\", "),
                    NotaListKind::Ordered => utf8("h(\"nota-ol-li\", "),
                }) + utf8("{}") + utf8(", [") + children_written(s, t.kids, 0, false) + utf8("])"),
            ),
            NodeKind::Link { url } => reads(
                written(s, t),
                utf8("h(\"a\", { href: ") + literal_written(url_text(slice(s, url))) + utf8(
                    " }, [",
                ) + children_written(s, t.kids, 0, true) + utf8("])"),
            ),
            NodeKind::Image { alt, src } => reads(
                written(s, t),
                utf8("h(\"img\", { src: ") + literal_written(url_text(slice(s, src))) + utf8(
                    ", alt: ",
                ) + literal_written(url_text(slice(s, alt))) + utf8(" }, [])"),
            ),
            NodeKind::ThematicBreak => reads(written(s, t), utf8("h(\"hr\", {}, [])")),
            NodeKind::Math { is_block } => reads(
                written(s, t),
                (if is_block {
                    utf8("h(Tex, { display: true }, [")
                } else {
                    utf8("h(Tex, {}, [")
                }) + parts(s, blank(), t.kids, 0).code + utf8("])"),
            ),
            NodeKind::Code { is_block, lang } => reads(
                written(s, t),
                (if !is_block {
                    utf8("h(CodeInline, {}, [")
                } else {
                    match lang {
                        Some(tag) => utf8("h(CodeBlock, { lang: ") + literal_written(slice(s, tag))
                            + utf8(" }, ["),
                        None => utf8("h(CodeBlock, {}, ["),
                    }
                }) + parts(s, blank(), t.kids, 0).code + utf8("])"),
            ),
            _ => true,
        },
{
    broadcast use joined_to_nothing;

    reveal(grows);
    match t.kind {
        NodeKind::Emphasis { marker } => {
            let open = match marker {
                NotaEmphasisMarker::Strong => utf8("h(\"strong\", {}, ["),
                NotaEmphasisMarker::Em => utf8("h(\"em\", {}, ["),
                NotaEmphasisMarker::Strike => utf8("h(\"s\", {}, ["),
            };
            children_adds(s, put(blank(), open), t.kids, 0, true, false);
        },
        NodeKind::Heading { level } => {
            assert(node(s, blank(), t) == heading(s, blank(), t, level));
            let ranked = put(put(blank(), utf8("h(Heading, { rank: ")), rank(level));
            children_adds(s, put(ranked, utf8(" }, [")), t.kids, 0, false, false);
        },
        NodeKind::ListItem { list } => {
            assert(node(s, blank(), t) == list_item(s, blank(), t, list));
            let open = put(
                blank(),
                match list {
                    NotaListKind::Unordered => utf8("h(\"nota-ul-li\", "),
                    NotaListKind::Ordered => utf8("h(\"nota-ol-li\", "),
                },
            );
            let given = put(put(open, utf8("{}")), utf8(", ["));
            children_adds(s, given, t.kids, 0, false, false);
        },
        NodeKind::Link { url } => {
            let first = put(blank(), utf8("h(\"a\", { href: "));
            quoted_adds(first, url_text(slice(s, url)));
            let open = put(put_quoted(first, url_text(slice(s, url))), utf8(" }, ["));
            children_adds(s, open, t.kids, 0, true, false);
        },
        NodeKind::Image { alt, src } => {
            let first = put(blank(), utf8("h(\"img\", { src: "));
            quoted_adds(first, url_text(slice(s, src)));
            let second = put(put_quoted(first, url_text(slice(s, src))), utf8(", alt: "));
            quoted_adds(second, url_text(slice(s, alt)));
        },
        NodeKind::Math { is_block } => {
            let open = if is_block {
                utf8("h(Tex, { display: true }, [")
            } else {
                utf8("h(Tex, {}, [")
            };
            parts_adds(s, put(blank(), open), t.kids, 0);
        },
        NodeKind::Code { is_block, lang } => {
            if let Some(tag) = lang {
                quoted_adds(put(blank(), utf8("h(CodeBlock, { lang: ")), slice(s, tag));
            }
            parts_adds(s, code_open(s, blank(), is_block, lang), t.kids, 0);
        },
        _ => {},
    }
}

/// A text among the children is a string literal; any other child is written as the construct that
/// it is; commas stand between them. A statement scopes the children behind it: they are what a
/// function returns that is called on the spot.
pub proof fn children_are_written_in_turn(
    s: Seq<u8>,
    kids: Seq<Tree>,
    from: int,
    braced: bool,
    ps: Seq<Piece<usize>>,
    k: int,
    n: int,
    comma: bool,
)
    requires
        0 <= k < n <= ps.len(),
        ps[k] matches Piece::Elem(i) ==> 0 <= from <= i < kids.len(),
    ensures
        ({
            let here = items(s, blank(), kids, from, braced, ps, k, n, false, comma).code;
            let rest = items(s, blank(), kids, from, braced, ps, k + 1, n, false, true).code;
            let sep = if comma {
                utf8(", ")
            } else {
                Seq::empty()
            };
            match ps[k] {
                Piece::Text(text) => reads(here, sep + literal_written(text) + rest),
                Piece::Elem(i) => if kids[i as int].kind is Statement {
                    let j = statements_end(kids, i as int);
                    reads(
                        here,
                        sep + utf8("(() => { ") + statements(s, blank(), kids, i as int, j).code
                            + utf8("return Fragment(") + children_written(s, kids, j, braced)
                            + utf8("); })()") + rest,
                    )
                } else {
                    reads(here, sep + written(s, kids[i as int]) + rest)
                },
            }
        }),
{
    broadcast use joined_to_nothing;

    reveal(grows);
    let first = if comma {
        put(blank(), utf8(", "))
    } else {
        blank()
    };
    let next = item(s, first, kids, from, braced, ps[k]);
    items_adds(s, next, kids, from, braced, ps, k + 1, n, false, true);
    match ps[k] {
        Piece::Text(text) => quoted_adds(first, text),
        Piece::Elem(i) => if is_statement(kids[i as int]) {
            let opened = put(first, utf8("(() => { "));
            let j = statements_end(kids, i as int);
            statements_adds(s, opened, kids, i as int, j);
            let run = statements(s, opened, kids, i as int, j);
            children_adds(s, put(run, utf8("return Fragment(")), kids, j, braced, false);
        } else {
            node_adds(s, first, kids[i as int]);
        },
    }
}

/// The text of the statements that stand at the top of the module.
pub open spec fn module_written(s: Seq<u8>, nodes: Seq<Tree>) -> Seq<u8> {
    routed(s, blank(), nodes, 0, true, Seq::empty()).code
}

/// The text of the statements that stand in the function of the document.
pub open spec fn prelude_written(s: Seq<u8>, nodes: Seq<Tree>) -> Seq<u8> {
    routed(s, blank(), nodes, 0, false, utf8("  ")).code
}

/// The text of what the function of the document returns.
pub open spec fn body_written(s: Seq<u8>, nodes: Seq<Tree>) -> Seq<u8> {
    let ps = child_pieces(s, nodes, 0, true, false);
    utf8("  return decode(Fragment(") + items(
        s,
        blank(),
        nodes,
        0,
        false,
        ps,
        0,
        ps.len() as int,
        false,
        false,
    ).code + utf8("));\n}\n")
}

/// A module is its imports and exports, and a function that returns the document.
pub proof fn document_is_framed(s: Seq<u8>, nodes: Seq<Tree>)
    ensures
        reads(
            document(s, nodes).code,
            module_written(s, nodes) + (utf8("export default function Doc() {\n") + (
            prelude_written(s, nodes) + body_written(s, nodes))),
        ),
{
    broadcast use joined, joined_to_nothing;

    reveal(grows);
    let none = Seq::<u8>::empty();
    let top = put(
        routed(s, blank(), nodes, 0, true, none),
        utf8("export default function Doc() {\n"),
    );
    routed_adds(s, top, nodes, 0, false, utf8("  "));
    let body = put(
        routed(s, top, nodes, 0, false, utf8("  ")),
        utf8("  return decode(Fragment("),
    );
    let ps = child_pieces(s, nodes, 0, true, false);
    items_adds(s, body, nodes, 0, false, ps, 0, ps.len() as int, false, false);
}

/// What `routed` writes does not depend on what stands before it.
proof fn routed_adds(
    s: Seq<u8>,
    w: Written,
    nodes: Seq<Tree>,
    k: int,
    hoisted: bool,
    indent: Seq<u8>,
)
    ensures
        follows(
            routed(s, w, nodes, k, hoisted, indent).code,
            w.code,
            routed(s, blank(), nodes, k, hoisted, indent).code,
        ),
    decreases nodes.len() - k,
{
    broadcast use joined, joined_to_nothing;

    reveal(grows);
    assert(w.code + Seq::<u8>::empty() =~= w.code);
    if 0 <= k < nodes.len() {
        routed_adds(s, w, nodes, k + 1, hoisted, indent);
        statement_adds(s, put(w, indent), nodes[k]);
        statement_adds(s, put(blank(), indent), nodes[k]);
        let here = put(statement(s, put(w, indent), nodes[k]), utf8("\n"));
        let alone = put(statement(s, put(blank(), indent), nodes[k]), utf8("\n"));
        routed_adds(s, here, nodes, k + 1, hoisted, indent);
        routed_adds(s, alone, nodes, k + 1, hoisted, indent);
    }
}

/// Routing the nodes from `k` on is routing them as if they were all.
proof fn routed_from(s: Seq<u8>, nodes: Seq<Tree>, more: Seq<Tree>, k: int, j: int, hoisted: bool,
    indent: Seq<u8>)
    requires
        0 <= k <= nodes.len(),
        0 <= j <= more.len(),
        nodes.skip(k) == more.skip(j),
    ensures
        reads(
            routed(s, blank(), nodes, k, hoisted, indent).code,
            routed(s, blank(), more, j, hoisted, indent).code,
        ),
    decreases nodes.len() - k,
{
    reveal(grows);
    assert(nodes.skip(k).len() == nodes.len() - k);
    assert(more.skip(j).len() == more.len() - j);
    if k < nodes.len() {
        assert(nodes.skip(k)[0] == nodes[k]);
        assert(more.skip(j)[0] == more[j]);
        assert(nodes.skip(k + 1) =~= nodes.skip(k).skip(1));
        assert(more.skip(j + 1) =~= more.skip(j).skip(1));
        routed_from(s, nodes, more, k + 1, j + 1, hoisted, indent);
        let alone = put(statement(s, put(blank(), indent), nodes[k]), utf8("\n"));
        routed_adds(s, alone, nodes, k + 1, hoisted, indent);
        routed_adds(s, alone, more, j + 1, hoisted, indent);
    }
}

/// Routing goes through the nodes one by one: those before `m`, and those from `m` on.
proof fn routed_splits(s: Seq<u8>, nodes: Seq<Tree>, k: int, m: int, hoisted: bool, indent: Seq<u8>)
    requires
        0 <= k <= m <= nodes.len(),
    ensures
        follows(
            routed(s, blank(), nodes, k, hoisted, indent).code,
            routed(s, blank(), nodes.take(m), k, hoisted, indent).code,
            routed(s, blank(), nodes, m, hoisted, indent).code,
        ),
    decreases m - k,
{
    broadcast use joined, joined_to_nothing;

    reveal(grows);
    let before = nodes.take(m);
    if k < m {
        assert(before[k] == nodes[k]);
        routed_splits(s, nodes, k + 1, m, hoisted, indent);
        let alone = put(statement(s, put(blank(), indent), nodes[k]), utf8("\n"));
        routed_adds(s, alone, nodes, k + 1, hoisted, indent);
        routed_adds(s, alone, before, k + 1, hoisted, indent);
    }
}

/// Leaving out a node that is not routed there changes nothing.
proof fn routed_without(s: Seq<u8>, nodes: Seq<Tree>, m: int, hoisted: bool, indent: Seq<u8>)
    requires
        0 <= m < nodes.len(),
        !is_statement(nodes[m]) || is_hoisted(nodes[m]) != hoisted,
    ensures
        reads(
            routed(s, blank(), nodes, 0, hoisted, indent).code,
            routed(s, blank(), nodes.remove(m), 0, hoisted, indent).code,
        ),
{
    let rest = nodes.remove(m);
    routed_splits(s, nodes, 0, m, hoisted, indent);
    routed_splits(s, rest, 0, m, hoisted, indent);
    assert(rest.take(m) =~= nodes.take(m));
    assert(rest.skip(m) =~= nodes.skip(m + 1));
    routed_from(s, nodes, rest, m + 1, m, hoisted, indent);
}

/// Imports and exports stand at the top of the module, before the function of the document, each
/// where the source has it among them, and nowhere else.
pub proof fn imports_and_exports_are_hoisted(s: Seq<u8>, nodes: Seq<Tree>, m: int)
    requires
        0 <= m < nodes.len(),
        nodes[m].kind matches NodeKind::Statement { class, attach } && (class
            == StatementClass::Import || class == StatementClass::Export || class
            == StatementClass::ExportDefault),
    ensures
        reads(document(s, nodes).code, module_written(s, nodes.take(m)) + statement_written(
            s,
            nodes[m],
        ) + utf8("\n") + module_written(s, nodes.skip(m + 1)) + utf8(
            "export default function Doc() {\n",
        ) + prelude_written(s, nodes.remove(m)) + body_written(s, nodes)),
{
    broadcast use joined, joined_to_nothing;

    reveal(grows);
    document_is_framed(s, nodes);
    let none = Seq::<u8>::empty();
    routed_splits(s, nodes, 0, m, true, none);
    let here = put(statement(s, put(blank(), none), nodes[m]), utf8("\n"));
    assert(put(blank(), none).code =~= blank().code);
    statement_adds(s, put(blank(), none), nodes[m]);
    routed_adds(s, here, nodes, m + 1, true, none);
    assert(nodes.skip(m + 1).skip(0) =~= nodes.skip(m + 1));
    routed_from(s, nodes, nodes.skip(m + 1), m + 1, 0, true, none);
    routed_without(s, nodes, m, false, utf8("  "));
}

/// Any other statement at the top of a document stands in the function of the document, before what
/// it returns, and nowhere else.
pub proof fn plain_statements_stay_local(s: Seq<u8>, nodes: Seq<Tree>, m: int)
    requires
        0 <= m < nodes.len(),
        nodes[m].kind matches NodeKind::Statement { class, attach }
            && class == StatementClass::Plain,
    ensures
        reads(document(s, nodes).code, module_written(s, nodes.remove(m)) + utf8(
            "export default function Doc() {\n",
        ) + prelude_written(s, nodes.take(m)) + utf8("  ") + statement_written(s, nodes[m])
            + utf8("\n") + prelude_written(s, nodes.skip(m + 1)) + body_written(s, nodes)),
{
    broadcast use joined, joined_to_nothing;

    reveal(grows);
    document_is_framed(s, nodes);
    let two = utf8("  ");
    routed_splits(s, nodes, 0, m, false, two);
    let here = put(statement(s, put(blank(), two), nodes[m]), utf8("\n"));
    statement_adds(s, put(blank(), two), nodes[m]);
    routed_adds(s, here, nodes, m + 1, false, two);
    assert(nodes.skip(m + 1).skip(0) =~= nodes.skip(m + 1));
    routed_from(s, nodes, nodes.skip(m + 1), m + 1, 0, false, two);
    routed_without(s, nodes, m, true, Seq::empty());
}

} // verus!
