//! JSX: a document lowered to elements.
//!
//! An element stays an element, a fragment is `<>…</>`, a conditional `<Show>`, a loop `<For>`, and
//! the document `export default function Doc() { return <NotaDoc>…</NotaDoc>; }`. Text is never
//! written as JSX text, whose white space JSX would change: it stands in an expression container,
//! `{"…"}`, with adjacent runs joined. Embedded JavaScript is copied as it stands, with the forms
//! inside it lowered in place.

use vstd::prelude::*;
use vstd::utf8::{valid_utf8, valid_utf8_concat};
use crate::ascii::{AMPERSAND, DQUOTE, GREATER, LESS, SEMICOLON};
use crate::bytes::{addressable, at, get, utf8, Span};
use crate::encoding::texts_are_valid;
use crate::hyper::{digit_of, is_hoisted, node_is_hoisted, rank};
use crate::literals::{literal, literal_of};
use crate::lowering::{
    breaks_template, child_pieces, child_text, cook_url, first_child, has_template_breaker,
    interpolated, interpolated_text, interpolates_element, is_foster_parenting_tag, is_host,
    is_interpolated_element, is_row, is_statement, is_table_row, is_white_piece, is_whitespace_text, key_text, node_is_statement, refuses_text,
    row_run_end, rows_end, rows_end_bounds, settled_children, start_of_children, statement_run_end,
    statements_end, statements_end_bounds, tag_is_host, text_of_key, url_text,
};
use crate::names::{flow_names, flow_tags, is_listed};
use crate::output::{
    blank, is_faithful, put, put_anchor, put_quoted, put_source, slice, slice_of, Output, Written,
};
use crate::scribble::{pieces, Child, Piece};
use crate::tree::{
    trees, BodyForm, ExprTier, Node, NodeKind, NotaDocStateKind, NotaEmphasisMarker, NotaListKind,
    NotaTag, Tree,
};
use crate::unicode::{ascii_is_valid, bytes_of_source};

verus! {

/// Can `t` stand between the quotes of a JSX attribute, which knows no escapes and decodes
/// entities?
pub open spec fn is_inert(t: Seq<u8>) -> bool {
    forall|i: int|
        0 <= i < t.len() ==> #[trigger] t[i] != DQUOTE && t[i] != AMPERSAND && t[i] != LESS && t[i] != GREATER
}

/// The text that a part of a raw span is, if it is text.
pub open spec fn part_text(s: Seq<u8>, t: Tree) -> Option<Seq<u8>> {
    if t.kind == NodeKind::Raw {
        if breaks_template(slice(s, t.span)) {
            Some(slice(s, t.span))
        } else {
            None
        }
    } else {
        interpolated_text(s, t)
    }
}

/// Text after the text held back.
pub open spec fn held_with(held: Option<Seq<u8>>, t: Seq<u8>) -> Option<Seq<u8>> {
    match held {
        Some(h) => Some(h + t),
        None => Some(t),
    }
}

/// The text held back, written as a child.
pub open spec fn flushed(w: Written, held: Option<Seq<u8>>) -> Written {
    match held {
        Some(t) => put(put_quoted(put(w, utf8("{")), t), utf8("}")),
        None => w,
    }
}

/// ` name="text"`, or ` name={"text"}` where the text is not inert; `name` brings the space and
/// the `=`.
pub open spec fn text_attr(w: Written, name: Seq<u8>, t: Seq<u8>) -> Written {
    if is_inert(t) {
        put(put(put(put(w, name), utf8("\"")), t), utf8("\""))
    } else {
        put(put_quoted(put(put(w, name), utf8("{")), t), utf8("}"))
    }
}

/// `</name>`.
pub open spec fn put_close(w: Written, name: Seq<u8>) -> Written {
    put(put(put(w, utf8("</")), name), utf8(">"))
}

/// Is `tag` a host element whose interior is flow content?
pub open spec fn is_flow(s: Seq<u8>, tag: NotaTag) -> bool {
    tag matches NotaTag::Host { name } && flow_names().contains(slice(s, name))
}

/// The name that the tag is written with.
pub open spec fn tag_text(s: Seq<u8>, tag: NotaTag) -> Seq<u8> {
    match tag {
        NotaTag::Host { name } => slice(s, name),
        NotaTag::Component { name } => slice(s, name),
        NotaTag::Dynamic => utf8("Dynamic"),
    }
}

/// `>`, and the opening of the flow interior where there is one.
pub open spec fn opened_body(w: Written, flow: bool) -> Written {
    if flow {
        put(w, utf8("><Reforest>"))
    } else {
        put(w, utf8(">"))
    }
}

/// The closing of the flow interior where there is one, and `</name>`.
pub open spec fn closed_body(w: Written, flow: bool, name: Seq<u8>) -> Written {
    if flow {
        put_close(put(w, utf8("</Reforest>")), name)
    } else {
        put_close(w, name)
    }
}

/// Is a piece white text that is dropped?
pub open spec fn is_dropped(s: Seq<u8>, kids: Seq<Tree>, p: Piece<usize>, bare: bool) -> bool {
    bare && is_white_piece(s, kids, p)
}

/// Is every one of the pieces dropped?
pub open spec fn none_kept(
    s: Seq<u8>,
    kids: Seq<Tree>,
    ps: Seq<Piece<usize>>,
    bare: bool,
) -> bool {
    forall|i: int| 0 <= i < ps.len() ==> #[trigger] is_dropped(s, kids, ps[i], bare)
}

/// Where the `[` of an unclosed property group stands, it is logged.
pub open spec fn anchored(w: Written, kids: Seq<Tree>) -> Written {
    if kids.len() > 0 && kids.last().kind == NodeKind::PropsAnchor {
        put_anchor(w, kids.last().span)
    } else {
        w
    }
}

/// A form or a sugar, as an expression.
pub open spec fn node(s: Seq<u8>, w: Written, t: Tree) -> Written
    decreases t, 0int, 20int, 0int,
{
    match t.kind {
        NodeKind::Element { tag, body } => element(s, w, t, tag, body),
        NodeKind::Fragment => fragment(s, w, t, true),
        NodeKind::Interpolation => if t.kids.len() > 0 {
            argument(s, w, t.kids[0])
        } else {
            w
        },
        NodeKind::Js { tier: _ } => argument(s, w, t),
        NodeKind::Markup => if t.kids.len() > 0 {
            node(s, w, t.kids[0])
        } else {
            w
        },
        NodeKind::If => show(s, w, t),
        NodeKind::For => each(s, w, t),
        NodeKind::Emphasis { marker } => match marker {
            NotaEmphasisMarker::Strong => enclosed(
                s,
                put(w, utf8("<strong")),
                t.kids,
                0,
                true,
                utf8("strong"),
            ),
            NotaEmphasisMarker::Em => enclosed(s, put(w, utf8("<em")), t.kids, 0, true, utf8("em")),
            NotaEmphasisMarker::Strike => enclosed(s, put(w, utf8("<s")), t.kids, 0, true, utf8("s")),
        },
        NodeKind::Heading { level } => item_element(
            s,
            put(put(put(w, utf8("<Heading rank={")), rank(level)), utf8("}")),
            t,
            utf8("Heading"),
        ),
        NodeKind::ListItem { list } => match list {
            NotaListKind::Unordered => item_element(s, put(w, utf8("<UlLi")), t, utf8("UlLi")),
            NotaListKind::Ordered => item_element(s, put(w, utf8("<OlLi")), t, utf8("OlLi")),
        },
        NodeKind::Attrs => put(attrs(s, put(w, utf8("<Attrs")), t.kids, 0), utf8(" />")),
        NodeKind::DocState { sugar, label } => match sugar {
            NotaDocStateKind::Label => slot(
                s,
                text_attr(put(w, utf8("<Label")), utf8(" id="), slice(s, label)),
                t,
                utf8("Label"),
            ),
            NotaDocStateKind::Ref => slot(
                s,
                text_attr(put(w, utf8("<Ref")), utf8(" id="), slice(s, label)),
                t,
                utf8("Ref"),
            ),
            NotaDocStateKind::FootnoteMark => slot(
                s,
                text_attr(put(w, utf8("<FootnoteMark")), utf8(" label="), slice(s, label)),
                t,
                utf8("FootnoteMark"),
            ),
            NotaDocStateKind::FootnoteText => slot(
                s,
                text_attr(put(w, utf8("<FootnoteText")), utf8(" label="), slice(s, label)),
                t,
                utf8("FootnoteText"),
            ),
        },
        NodeKind::Link { url } => enclosed(
            s,
            text_attr(put(w, utf8("<a")), utf8(" href="), url_text(slice(s, url))),
            t.kids,
            0,
            true,
            utf8("a"),
        ),
        NodeKind::Image { alt, src } => put(
            text_attr(
                text_attr(put(w, utf8("<img")), utf8(" src="), url_text(slice(s, src))),
                utf8(" alt="),
                url_text(slice(s, alt)),
            ),
            utf8(" />"),
        ),
        NodeKind::ThematicBreak => put(w, utf8("<hr />")),
        NodeKind::Code { is_block, lang } => if !is_block {
            enclosed_raw(s, put(w, utf8("<CodeInline")), t.kids, false, utf8("CodeInline"))
        } else {
            match lang {
                Some(tag) => enclosed_raw(
                    s,
                    text_attr(put(w, utf8("<CodeBlock")), utf8(" lang="), slice(s, tag)),
                    t.kids,
                    false,
                    utf8("CodeBlock"),
                ),
                None => enclosed_raw(
                    s,
                    put(w, utf8("<CodeBlock")),
                    t.kids,
                    false,
                    utf8("CodeBlock"),
                ),
            }
        },
        NodeKind::Math { is_block } => if is_block {
            enclosed_raw(s, put(w, utf8("<Tex display")), t.kids, false, utf8("Tex"))
        } else {
            enclosed_raw(s, put(w, utf8("<Tex")), t.kids, false, utf8("Tex"))
        },
        _ => w,
    }
}

/// The rest of a heading or a list item, from its own properties on.
pub open spec fn item_element(s: Seq<u8>, w: Written, t: Tree, name: Seq<u8>) -> Written
    decreases t, 0int, 19int, 0int,
{
    let from = first_child(t.kids);
    let given = if from == 1 {
        attrs(s, w, t.kids[0].kids, 0)
    } else {
        w
    };
    enclosed(s, given, t.kids, from, false, name)
}

/// The rest of a document-state sugar, from its own properties on.
pub open spec fn slot(s: Seq<u8>, w: Written, t: Tree, name: Seq<u8>) -> Written
    decreases t, 0int, 19int, 0int,
{
    if t.kids.len() < 2 {
        put(w, utf8(" />"))
    } else {
        enclosed(s, attrs(s, w, t.kids[0].kids, 0), t.kids[1].kids, 0, false, name)
    }
}

/// The rest of an element from behind its attributes: the children from `from` on and `</name>`, or
/// ` />` where there are none.
pub open spec fn enclosed(
    s: Seq<u8>,
    w: Written,
    kids: Seq<Tree>,
    from: int,
    braced: bool,
    name: Seq<u8>,
) -> Written
    decreases kids, kids.len() - from, 8int, 0int,
{
    let ps = child_pieces(s, kids, from, false, braced);
    if ps.len() == 0 {
        put(w, utf8(" />"))
    } else {
        put_close(
            items(
                s,
                put(w, utf8(">")),
                kids,
                from,
                braced,
                ps,
                0,
                ps.len() as int,
                false,
                None,
            ),
            name,
        )
    }
}

/// The same for the parts of a raw span.
pub open spec fn enclosed_raw(
    s: Seq<u8>,
    w: Written,
    kids: Seq<Tree>,
    flow: bool,
    name: Seq<u8>,
) -> Written
    decreases kids, kids.len() as int, 8int, 0int,
{
    if kids.len() == 0 {
        put(w, utf8(" />"))
    } else {
        closed_body(parts(s, opened_body(w, flow), kids, 0, None), flow, name)
    }
}

/// An element.
pub open spec fn element(s: Seq<u8>, w: Written, t: Tree, tag: NotaTag, body: BodyForm) -> Written
    decreases t, 0int, 19int, 0int,
{
    if t.kids.len() < 2 {
        w
    } else {
        let start = put(anchored(w, t.kids[0].kids), utf8("<"));
        let named = match tag {
            NotaTag::Host { name } => put(start, slice(s, name)),
            NotaTag::Component { name } => put_source(
                start,
                s,
                name.start as int,
                name.end as int,
            ),
            NotaTag::Dynamic => if t.kids.len() >= 3 {
                attr_value(s, put(start, utf8("Dynamic component=")), t.kids[2])
            } else {
                put(start, utf8("Dynamic"))
            },
        };
        element_body(s, attrs(s, named, t.kids[0].kids, 0), t.kids[1], tag, body)
    }
}

/// The rest of an element from behind its attributes.
pub open spec fn element_body(s: Seq<u8>, w: Written, g: Tree, tag: NotaTag, body: BodyForm) -> Written
    decreases g, 0int, 18int, 0int,
{
    let flow = is_flow(s, tag);
    if body == BodyForm::Verbatim {
        enclosed_raw(s, w, g.kids, flow, tag_text(s, tag))
    } else {
        let braced = body == BodyForm::Braced;
        let bare = refuses_text(s, tag);
        let ps = child_pieces(s, g.kids, 0, false, braced);
        if none_kept(s, g.kids, ps, bare) {
            put(w, utf8(" />"))
        } else {
            let inner = if is_host(s, tag, utf8("table")) {
                table_items(s, opened_body(w, flow), g.kids, braced, ps, 0, None)
            } else {
                items(
                    s,
                    opened_body(w, flow),
                    g.kids,
                    0,
                    braced,
                    ps,
                    0,
                    ps.len() as int,
                    bare,
                    None,
                )
            };
            closed_body(inner, flow, tag_text(s, tag))
        }
    }
}

/// The attributes from `k` on.
pub open spec fn attrs(s: Seq<u8>, w: Written, kids: Seq<Tree>, k: int) -> Written
    decreases kids, kids.len() - k, 5int, 0int,
{
    if 0 <= k < kids.len() {
        attrs(s, attr(s, w, kids[k]), kids, k + 1)
    } else {
        w
    }
}

/// One attribute. A bare key takes the binding of its name.
pub open spec fn attr(s: Seq<u8>, w: Written, p: Tree) -> Written
    decreases p, 0int, 10int, 0int,
{
    match p.kind {
        NodeKind::Field { key, quoted } => if p.kids.len() > 0 {
            let named = put(
                put(put(w, utf8(" ")), key_text(s, key, quoted)),
                utf8("="),
            );
            match p.kids[0].kind {
                NodeKind::Js { tier } => attr_value(s, named, p.kids[0]),
                NodeKind::Interpolation if p.kids[0].kids.len() > 0 => attr_value(
                    s,
                    named,
                    p.kids[0].kids[0],
                ),
                _ => put(node(s, put(named, utf8("{")), p.kids[0]), utf8("}")),
            }
        } else {
            w
        },
        NodeKind::Shorthand => put(
            put_source(
                put(put(put(w, utf8(" ")), slice(s, p.span)), utf8("={")),
                s,
                p.span.start as int,
                p.span.end as int,
            ),
            utf8("}"),
        ),
        NodeKind::Spread => if p.kids.len() > 0 {
            put(node(s, put(w, utf8(" {...")), p.kids[0]), utf8("}"))
        } else {
            w
        },
        _ => w,
    }
}

/// JavaScript as the value of an attribute: in quotes where it is an inert string literal.
pub open spec fn attr_value(s: Seq<u8>, w: Written, t: Tree) -> Written
    decreases t, 0int, 18int, 0int,
{
    match literal(slice(s, t.span)) {
        Some(text) => if is_inert(text) {
            put(put(put(w, utf8("\"")), text), utf8("\""))
        } else {
            put(argument(s, put(w, utf8("{")), t), utf8("}"))
        },
        None => put(argument(s, put(w, utf8("{")), t), utf8("}")),
    }
}

/// `<>…</>`.
pub open spec fn fragment(s: Seq<u8>, w: Written, t: Tree, braced: bool) -> Written
    decreases t, 0int, 19int, 0int,
{
    put(children(s, put(w, utf8("<>")), t.kids, 0, braced), utf8("</>"))
}

/// The children from `from` on.
pub open spec fn children(s: Seq<u8>, w: Written, kids: Seq<Tree>, from: int, braced: bool) -> Written
    decreases kids, kids.len() - from, 6int, 0int,
{
    let ps = child_pieces(s, kids, from, false, braced);
    items(s, w, kids, from, braced, ps, 0, ps.len() as int, false, None)
}

/// The pieces from `k` to `n` of the children from `from` on, with `held` text before them.
/// White text is dropped where the parent is `bare`.
pub open spec fn items(
    s: Seq<u8>,
    w: Written,
    kids: Seq<Tree>,
    from: int,
    braced: bool,
    ps: Seq<Piece<usize>>,
    k: int,
    n: int,
    bare: bool,
    held: Option<Seq<u8>>,
) -> Written
    decreases kids, kids.len() - from, 4int, n - k,
{
    if 0 <= k < n && n <= ps.len() {
        if bare && is_white_piece(s, kids, ps[k]) {
            items(s, w, kids, from, braced, ps, k + 1, n, bare, held)
        } else {
            match child_text(s, kids, ps[k]) {
                Some(t) => items(
                    s,
                    w,
                    kids,
                    from,
                    braced,
                    ps,
                    k + 1,
                    n,
                    bare,
                    held_with(held, t),
                ),
                None => items(
                    s,
                    item(s, flushed(w, held), kids, from, braced, ps[k]),
                    kids,
                    from,
                    braced,
                    ps,
                    k + 1,
                    n,
                    bare,
                    None,
                ),
            }
        }
    } else {
        flushed(w, held)
    }
}

/// One child that is not text. A statement scopes the children after it: they are what an
/// immediately called function returns.
pub open spec fn item(
    s: Seq<u8>,
    w: Written,
    kids: Seq<Tree>,
    from: int,
    braced: bool,
    p: Piece<usize>,
) -> Written
    decreases kids, kids.len() - from, 3int, 0int,
{
    match p {
        Piece::Text(_) => w,
        Piece::Elem(i) => if 0 <= from <= i && i < kids.len() {
            if is_statement(kids[i as int]) {
                let opened = put(w, utf8("{(() => { "));
                let j = statements_end(kids, i as int);
                let run = statements(s, opened, kids, i as int, j);
                proof {
                    statements_end_bounds(kids, i as int);
                }
                put(
                    children(s, put(run, utf8("return <>")), kids, j, braced),
                    utf8("</>; })()}"),
                )
            } else {
                child(s, w, kids[i as int])
            }
        } else {
            w
        },
    }
}

/// A form as a child: an interpolation stands in an expression container, but for that of an
/// element.
pub open spec fn child(s: Seq<u8>, w: Written, t: Tree) -> Written
    decreases t, 0int, 21int, 0int,
{
    if t.kind == NodeKind::Interpolation && !interpolates_element(t) {
        put(node(s, put(w, utf8("{")), t), utf8("}"))
    } else {
        node(s, w, t)
    }
}

/// The pieces of a table's children from `k` on: each run of bare rows in a `<tbody>`.
pub open spec fn table_items(
    s: Seq<u8>,
    w: Written,
    kids: Seq<Tree>,
    braced: bool,
    ps: Seq<Piece<usize>>,
    k: int,
    held: Option<Seq<u8>>,
) -> Written
    decreases kids, kids.len() as int, 5int, ps.len() - k,
{
    if 0 <= k < ps.len() {
        if is_white_piece(s, kids, ps[k]) {
            table_items(s, w, kids, braced, ps, k + 1, held)
        } else if is_row(s, kids, ps[k]) {
            let e = rows_end(s, kids, ps, k);
            proof {
                rows_end_bounds(s, kids, ps, k);
            }
            let rows = items(
                s,
                put(flushed(w, held), utf8("<tbody>")),
                kids,
                0,
                braced,
                ps,
                k,
                e,
                true,
                None,
            );
            table_items(s, put(rows, utf8("</tbody>")), kids, braced, ps, e, None)
        } else {
            match child_text(s, kids, ps[k]) {
                Some(t) => table_items(s, w, kids, braced, ps, k + 1, held_with(held, t)),
                None => table_items(
                    s,
                    item(s, flushed(w, held), kids, 0, braced, ps[k]),
                    kids,
                    braced,
                    ps,
                    k + 1,
                    None,
                ),
            }
        }
    } else {
        flushed(w, held)
    }
}

/// The raw runs and armed forms from `k` on, with `held` text before them.
pub open spec fn parts(
    s: Seq<u8>,
    w: Written,
    kids: Seq<Tree>,
    k: int,
    held: Option<Seq<u8>>,
) -> Written
    decreases kids, kids.len() - k, 5int, 0int,
{
    if 0 <= k < kids.len() {
        match part_text(s, kids[k]) {
            Some(t) => parts(s, w, kids, k + 1, held_with(held, t)),
            None => {
                let before = flushed(w, held);
                let next = if kids[k].kind == NodeKind::Raw {
                    put(
                        put(put(before, utf8("{String.raw`")), slice(s, kids[k].span)),
                        utf8("`}"),
                    )
                } else {
                    child(s, before, kids[k])
                };
                parts(s, next, kids, k + 1, None)
            },
        }
    } else {
        flushed(w, held)
    }
}

/// JavaScript where an argument may stand: a sequence is put in parentheses.
pub open spec fn argument(s: Seq<u8>, w: Written, t: Tree) -> Written
    decreases t, 0int, 17int, 0int,
{
    if t.kind == (NodeKind::Js { tier: ExprTier::Sequence }) {
        put(splice(s, put(w, utf8("(")), t.kids, 0, t.span.start as int, t.span.end as int), utf8(")"))
    } else {
        splice(s, w, t.kids, 0, t.span.start as int, t.span.end as int)
    }
}

/// The source from `p` to `e` with the forms from `k` on lowered in place.
pub open spec fn splice(s: Seq<u8>, w: Written, kids: Seq<Tree>, k: int, p: int, e: int) -> Written
    decreases kids, kids.len() - k, 5int, 0int,
{
    if 0 <= k < kids.len() {
        let m = kids[k];
        if m.kind == NodeKind::Markup && p <= m.span.start && m.span.end <= e {
            let before = put_source(w, s, p, m.span.start as int);
            splice(s, markup(s, before, m), kids, k + 1, m.span.end as int, e)
        } else {
            splice(s, w, kids, k + 1, p, e)
        }
    } else {
        put_source(w, s, p, e)
    }
}

/// Is a form an interpolation of anything but a primary expression, which inside JavaScript needs
/// parentheses?
pub open spec fn is_loose(f: Tree) -> bool {
    f.kind == NodeKind::Interpolation && f.kids.len() > 0 && !f.kids[0].kind.is_object()
}

/// A form inside JavaScript.
pub open spec fn markup(s: Seq<u8>, w: Written, m: Tree) -> Written
    decreases m, 0int, 10int, 0int,
{
    if m.kids.len() > 0 {
        if is_loose(m.kids[0]) {
            put(node(s, put(w, utf8("(")), m.kids[0]), utf8(")"))
        } else {
            node(s, w, m.kids[0])
        }
    } else {
        w
    }
}

/// `<Show when={…} fallback={…}><>…</></Show>`, without `fallback` where there is no `else`.
pub open spec fn show(s: Seq<u8>, w: Written, t: Tree) -> Written
    decreases t, 0int, 19int, 0int,
{
    if t.kids.len() < 2 {
        w
    } else {
        let test = attr_value(s, put(w, utf8("<Show when=")), t.kids[0]);
        let other = if t.kids.len() >= 3 {
            let open = put(test, utf8(" fallback={"));
            put(
                if t.kids[2].kind == NodeKind::If {
                    show(s, open, t.kids[2])
                } else {
                    fragment(s, open, t.kids[2], false)
                },
                utf8("}"),
            )
        } else {
            test
        };
        put(fragment(s, put(other, utf8(">")), t.kids[1], false), utf8("</Show>"))
    }
}

/// `<For each={…}>{(…) => <>…</>}</For>`.
pub open spec fn each(s: Seq<u8>, w: Written, t: Tree) -> Written
    decreases t, 0int, 19int, 0int,
{
    if t.kids.len() < 3 {
        w
    } else {
        let iter = attr_value(s, put(w, utf8("<For each=")), t.kids[1]);
        let bind = argument(s, put(iter, utf8(">{(")), t.kids[0]);
        put(fragment(s, put(bind, utf8(") => ")), t.kids[2], false), utf8("}</For>"))
    }
}

/// The statements from `i` to `j`, each followed by a space.
pub open spec fn statements(s: Seq<u8>, w: Written, kids: Seq<Tree>, i: int, j: int) -> Written
    decreases kids, kids.len() - i, 2int, 0int,
{
    if 0 <= i < j && i < kids.len() {
        statements(s, put(statement(s, w, kids[i]), utf8(" ")), kids, i + 1, j)
    } else {
        w
    }
}

/// A statement, ended with `;`.
pub open spec fn statement(s: Seq<u8>, w: Written, t: Tree) -> Written
    decreases t, 0int, 10int, 0int,
{
    let text = splice(s, w, t.kids, 0, t.span.start as int, t.span.end as int);
    if at(s, t.span.end - 1) == Some(SEMICOLON) {
        text
    } else {
        put(text, utf8(";"))
    }
}

/// The top-level statements from `k` on that are hoisted, or those that are not.
pub open spec fn routed(
    s: Seq<u8>,
    w: Written,
    nodes: Seq<Tree>,
    k: int,
    hoisted: bool,
    indent: Seq<u8>,
) -> Written
    decreases nodes.len() - k,
{
    if 0 <= k < nodes.len() {
        if is_statement(nodes[k]) && is_hoisted(nodes[k]) == hoisted {
            routed(
                s,
                put(statement(s, put(w, indent), nodes[k]), utf8("\n")),
                nodes,
                k + 1,
                hoisted,
                indent,
            )
        } else {
            routed(s, w, nodes, k + 1, hoisted, indent)
        }
    } else {
        w
    }
}

/// A whole document: the imports and exports, and a function that returns the rest.
pub open spec fn document(s: Seq<u8>, nodes: Seq<Tree>) -> Written {
    let top = put(
        routed(s, blank(), nodes, 0, true, Seq::empty()),
        utf8("export default function Doc() {\n"),
    );
    let open = put(
        routed(s, top, nodes, 0, false, utf8("  ")),
        utf8("  return <NotaDoc"),
    );
    let ps = child_pieces(s, nodes, 0, true, false);
    let body = if ps.len() == 0 {
        put(open, utf8(" />"))
    } else {
        put_close(
            items(
                s,
                put(open, utf8(">")),
                nodes,
                0,
                false,
                ps,
                0,
                ps.len() as int,
                false,
                None,
            ),
            utf8("NotaDoc"),
        )
    };
    put(body, utf8(";\n}\n"))
}

/// Can `t` stand between the quotes of a JSX attribute?
pub fn is_jsx_attr_inert(t: &[u8]) -> (yes: bool)
    ensures
        yes == is_inert(t@),
{
    let mut i: usize = 0;
    while i < t.len()
        invariant
            i <= t@.len(),
            forall|k: int|
                0 <= k < i ==> #[trigger] t@[k] != DQUOTE && t@[k] != AMPERSAND && t@[k] != LESS && t@[k]
                    != GREATER,
        decreases t@.len() - i,
    {
        let b: u8 = t[i];
        if b == DQUOTE || b == AMPERSAND || b == LESS || b == GREATER {
            assert(t@[i as int] == b);
            return false;
        }
        i = i + 1;
    }
    true
}

/// Is `tag` a host element whose interior is flow content?
fn is_flow_tag(s: &[u8], tag: NotaTag) -> (yes: bool)
    ensures
        yes == is_flow(s@, tag),
{
    match tag {
        NotaTag::Host { name } => is_listed(&flow_tags(), slice_of(s, name)),
        _ => false,
    }
}

/// Is every one of the pieces dropped?
fn keeps_none(s: &[u8], kids: &Vec<Node>, ps: &Vec<Child<usize>>, bare: bool) -> (yes: bool)
    requires
        addressable(s@),
    ensures
        yes == none_kept(s@, trees(kids@), pieces(ps@), bare),
{
    let ghost q = pieces(ps@);
    let mut i: usize = 0;
    while i < ps.len()
        invariant
            addressable(s@),
            i <= ps@.len(),
            q == pieces(ps@),
            q.len() == ps@.len(),
            forall|k: int| 0 <= k < i ==> #[trigger] is_dropped(s@, trees(kids@), q[k], bare),
        decreases ps@.len() - i,
    {
        assert(q[i as int] == ps@[i as int].piece());
        if !(bare && is_whitespace_text(s, kids, &ps[i])) {
            assert(!is_dropped(s@, trees(kids@), q[i as int], bare));
            return false;
        }
        i = i + 1;
    }
    true
}

/// Text held back until it is known what follows it.
struct Held {
    /// Is there any?
    some: bool,
    /// The text.
    text: Vec<u8>,
}

impl Held {
    /// The text, if there is any.
    spec fn view(&self) -> Option<Seq<u8>> {
        if self.some {
            Some(self.text@)
        } else {
            None
        }
    }

    /// Is it valid UTF-8?
    spec fn is_text(&self) -> bool {
        valid_utf8(self.text@)
    }

    /// None yet.
    fn new() -> (held: Held)
        ensures
            held.view() == None::<Seq<u8>>,
            held.is_text(),
    {
        Held { some: false, text: Vec::new() }
    }

    /// Hold back more.
    fn add(&mut self, t: &[u8])
        requires
            old(self).is_text(),
            valid_utf8(t@),
        ensures
            final(self).view() == held_with(old(self).view(), t@),
            final(self).is_text(),
    {
        if !self.some {
            self.text = Vec::new();
            self.some = true;
        }
        let ghost before = self.text@;
        self.text.extend_from_slice(t);
        proof {
            valid_utf8_concat(before, t@);
        }
        assert(self.text@ =~= before + t@);
        assert(Seq::<u8>::empty() + t@ =~= t@);
    }

    /// Write what was held back.
    fn flush(&mut self, o: &mut Output)
        requires
            old(self).is_text(),
        ensures
            final(self).is_text(),
            final(o).written() == flushed(old(o).written(), old(self).view()),
            forall|s: Seq<u8>| #[trigger]
                is_faithful(s, old(o).written()) ==> is_faithful(s, final(o).written()),
            final(self).view() == None::<Seq<u8>>,
    {
        if self.some {
            o.text("{");
            o.quoted(self.text.as_slice());
            o.text("}");
            self.some = false;
        }
    }
}

/// Write ` name="text"`.
fn put_text_attr(o: &mut Output, name: &str, t: &[u8])
    requires
        valid_utf8(t@),
    ensures
        final(o).written() == text_attr(old(o).written(), utf8(name), t@),
        forall|s: Seq<u8>| #[trigger]
            is_faithful(s, old(o).written()) ==> is_faithful(s, final(o).written()),
{
    o.text(name);
    if is_jsx_attr_inert(t) {
        o.text("\"");
        o.bytes(t);
        o.text("\"");
    } else {
        o.text("{");
        o.quoted(t);
        o.text("}");
    }
}

/// Write `</name>`.
fn close_tag(o: &mut Output, name: &[u8])
    requires
        valid_utf8(name@),
    ensures
        final(o).written() == put_close(old(o).written(), name@),
        forall|s: Seq<u8>| #[trigger]
            is_faithful(s, old(o).written()) ==> is_faithful(s, final(o).written()),
{
    o.text("</");
    o.bytes(name);
    o.text(">");
}

/// Write `>`, and the opening of the flow interior where there is one.
fn open_body(o: &mut Output, flow: bool)
    ensures
        final(o).written() == opened_body(old(o).written(), flow),
        forall|s: Seq<u8>| #[trigger]
            is_faithful(s, old(o).written()) ==> is_faithful(s, final(o).written()),
{
    if flow {
        o.text("><Reforest>");
    } else {
        o.text(">");
    }
}

/// Write the closing of the flow interior where there is one, and `</name>`.
fn close_body(o: &mut Output, flow: bool, name: &[u8])
    requires
        valid_utf8(name@),
    ensures
        final(o).written() == closed_body(old(o).written(), flow, name@),
        forall|s: Seq<u8>| #[trigger]
            is_faithful(s, old(o).written()) ==> is_faithful(s, final(o).written()),
{
    if flow {
        o.text("</Reforest>");
    }
    close_tag(o, name);
}

/// The printer.
#[derive(Clone, Copy)]
pub struct Jsx<'a> {
    /// The source that the tree was read from.
    pub source: &'a str,
}

impl<'a> Jsx<'a> {
    /// The bytes of the source.
    pub open spec fn s(&self) -> Seq<u8> {
        utf8(self.source)
    }

    /// Offsets into the source fit.
    pub open spec fn wf(&self) -> bool {
        addressable(utf8(self.source))
    }

    /// Write a form or a sugar as an expression.
    fn lower_form(&self, o: &mut Output, n: &Node)
        requires
            self.wf(),
        ensures
            final(o).written() == node(self.s(), old(o).written(), n.tree()),
            is_faithful(self.s(), old(o).written()) ==> is_faithful(self.s(), final(o).written()),
        decreases n, 0int, 20int, 0int,
    {
        match n.kind {
            NodeKind::Element { tag, body } => self.lower_element(o, n, tag, body),
            NodeKind::Fragment => self.lower_fragment(o, n, true),
            NodeKind::Interpolation => {
                if n.kids.len() > 0 {
                    self.argument(o, &n.kids[0]);
                }
            },
            NodeKind::Js { tier: _ } => self.argument(o, n),
            NodeKind::Markup => {
                if n.kids.len() > 0 {
                    self.lower_form(o, &n.kids[0]);
                }
            },
            NodeKind::If => self.lower_if(o, n),
            NodeKind::For => self.lower_for(o, n),
            NodeKind::Emphasis { marker } => {
                match marker {
                    NotaEmphasisMarker::Strong => {
                        o.text("<strong");
                        self.enclosed(o, &n.kids, 0, true, "strong");
                    },
                    NotaEmphasisMarker::Em => {
                        o.text("<em");
                        self.enclosed(o, &n.kids, 0, true, "em");
                    },
                    NotaEmphasisMarker::Strike => {
                        o.text("<s");
                        self.enclosed(o, &n.kids, 0, true, "s");
                    },
                }
            },
            NodeKind::DocState { sugar, label } => self.lower_doc_state(o, n, sugar, label),
            NodeKind::Code { is_block, lang } => self.lower_code(o, n, is_block, lang),
            _ => self.lower_sugar(o, n),
        }
    }

    /// Write a label, a reference or a footnote.
    fn lower_doc_state(&self, o: &mut Output, n: &Node, sugar: NotaDocStateKind, label: Span)
        requires
            self.wf(),
            n.kind == (NodeKind::DocState { sugar, label }),
        ensures
            final(o).written() == node(self.s(), old(o).written(), n.tree()),
            is_faithful(self.s(), old(o).written()) ==> is_faithful(self.s(), final(o).written()),
        decreases n, 0int, 19int, 0int,
    {
        let t = slice_of(bytes_of_source(self.source), label);
        match sugar {
            NotaDocStateKind::Label => {
                o.text("<Label");
                put_text_attr(o, " id=", t);
                self.slot(o, n, "Label");
            },
            NotaDocStateKind::Ref => {
                o.text("<Ref");
                put_text_attr(o, " id=", t);
                self.slot(o, n, "Ref");
            },
            NotaDocStateKind::FootnoteMark => {
                o.text("<FootnoteMark");
                put_text_attr(o, " label=", t);
                self.slot(o, n, "FootnoteMark");
            },
            NotaDocStateKind::FootnoteText => {
                o.text("<FootnoteText");
                put_text_attr(o, " label=", t);
                self.slot(o, n, "FootnoteText");
            },
        }
    }

    /// Write a code span.
    fn lower_code(&self, o: &mut Output, n: &Node, is_block: bool, lang: Option<Span>)
        requires
            self.wf(),
            n.kind == (NodeKind::Code { is_block, lang }),
        ensures
            final(o).written() == node(self.s(), old(o).written(), n.tree()),
            is_faithful(self.s(), old(o).written()) ==> is_faithful(self.s(), final(o).written()),
        decreases n, 0int, 19int, 0int,
    {
        if !is_block {
            o.text("<CodeInline");
            self.enclosed_raw(o, &n.kids, false, bytes_of_source("CodeInline"));
        } else {
            o.text("<CodeBlock");
            match lang {
                Some(tag) => put_text_attr(o, " lang=", slice_of(bytes_of_source(self.source), tag)),
                None => {},
            }
            self.enclosed_raw(o, &n.kids, false, bytes_of_source("CodeBlock"));
        }
    }

    /// Write any other sugar.
    fn lower_sugar(&self, o: &mut Output, n: &Node)
        requires
            self.wf(),
            !(n.kind is Element),
            !(n.kind is Fragment),
            !(n.kind is Interpolation),
            !(n.kind is Js),
            !(n.kind is Markup),
            !(n.kind is If),
            !(n.kind is For),
            !(n.kind is Emphasis),
            !(n.kind is DocState),
            !(n.kind is Code),
        ensures
            final(o).written() == node(self.s(), old(o).written(), n.tree()),
            is_faithful(self.s(), old(o).written()) ==> is_faithful(self.s(), final(o).written()),
        decreases n, 0int, 19int, 0int,
    {
        let s = bytes_of_source(self.source);
        match n.kind {
            NodeKind::Heading { level } => {
                o.text("<Heading rank={");
                let mut digits: Vec<u8> = Vec::new();
                digits.push(digit_of(level));
                assert(digits@ =~= rank(level));
                proof {
                    ascii_is_valid(digits@);
                }
                o.bytes(digits.as_slice());
                o.text("}");
                self.item_element(o, n, "Heading");
            },
            NodeKind::ListItem { list } => {
                match list {
                    NotaListKind::Unordered => {
                        o.text("<UlLi");
                        self.item_element(o, n, "UlLi");
                    },
                    NotaListKind::Ordered => {
                        o.text("<OlLi");
                        self.item_element(o, n, "OlLi");
                    },
                }
            },
            NodeKind::Attrs => {
                o.text("<Attrs");
                self.lower_attrs(o, &n.kids);
                o.text(" />");
            },
            NodeKind::Link { url } => {
                o.text("<a");
                put_text_attr(o, " href=", cook_url(slice_of(s, url)).as_slice());
                self.enclosed(o, &n.kids, 0, true, "a");
            },
            NodeKind::Image { alt, src } => {
                o.text("<img");
                put_text_attr(o, " src=", cook_url(slice_of(s, src)).as_slice());
                put_text_attr(o, " alt=", cook_url(slice_of(s, alt)).as_slice());
                o.text(" />");
            },
            NodeKind::ThematicBreak => o.text("<hr />"),
            NodeKind::Math { is_block } => {
                if is_block {
                    o.text("<Tex display");
                } else {
                    o.text("<Tex");
                }
                self.enclosed_raw(o, &n.kids, false, bytes_of_source("Tex"));
            },
            _ => {},
        }
    }

    /// Write the rest of a heading or a list item, from its own properties on.
    fn item_element(&self, o: &mut Output, n: &Node, name: &str)
        requires
            self.wf(),
        ensures
            final(o).written() == item_element(
                self.s(),
                old(o).written(),
                n.tree(),
                utf8(name),
            ),
            is_faithful(self.s(), old(o).written()) ==> is_faithful(self.s(), final(o).written()),
        decreases n, 0int, 18int, 0int,
    {
        let from: usize = start_of_children(&n.kids);
        if from == 1 {
            assert(n.tree().kids[0] == n.kids@[0].tree());
            self.lower_attrs(o, &n.kids[0].kids);
        }
        self.enclosed(o, &n.kids, from, false, name);
    }

    /// Write the rest of a document-state sugar, from its own properties on.
    fn slot(&self, o: &mut Output, n: &Node, name: &str)
        requires
            self.wf(),
        ensures
            final(o).written() == slot(self.s(), old(o).written(), n.tree(), utf8(name)),
            is_faithful(self.s(), old(o).written()) ==> is_faithful(self.s(), final(o).written()),
        decreases n, 0int, 18int, 0int,
    {
        if n.kids.len() < 2 {
            o.text(" />");
        } else {
            assert(n.tree().kids[0] == n.kids@[0].tree());
            assert(n.tree().kids[1] == n.kids@[1].tree());
            self.lower_attrs(o, &n.kids[0].kids);
            self.enclosed(o, &n.kids[1].kids, 0, false, name);
        }
    }

    /// Write the rest of an element from behind its attributes.
    fn enclosed(&self, o: &mut Output, kids: &Vec<Node>, from: usize, braced: bool, name: &str)
        requires
            self.wf(),
        ensures
            final(o).written() == enclosed(
                self.s(),
                old(o).written(),
                trees(kids@),
                from as int,
                braced,
                utf8(name),
            ),
            is_faithful(self.s(), old(o).written()) ==> is_faithful(self.s(), final(o).written()),
        decreases kids, kids.len() - from, 8int, 0int,
    {
        let ps = settled_children(bytes_of_source(self.source), kids, from, false, braced);
        if ps.len() == 0 {
            o.text(" />");
        } else {
            o.text(">");
            self.items(o, kids, from, braced, &ps, 0, ps.len(), false);
            close_tag(o, bytes_of_source(name));
        }
    }

    /// Write the same for the parts of a raw span.
    fn enclosed_raw(&self, o: &mut Output, kids: &Vec<Node>, flow: bool, name: &[u8])
        requires
            self.wf(),
            valid_utf8(name@),
        ensures
            final(o).written() == enclosed_raw(
                self.s(),
                old(o).written(),
                trees(kids@),
                flow,
                name@,
            ),
            is_faithful(self.s(), old(o).written()) ==> is_faithful(self.s(), final(o).written()),
        decreases kids, kids.len() as int, 8int, 0int,
    {
        if kids.len() == 0 {
            o.text(" />");
        } else {
            open_body(o, flow);
            self.lower_raw_parts(o, kids);
            close_body(o, flow, name);
        }
    }

    /// Write an element.
    fn lower_element(&self, o: &mut Output, n: &Node, tag: NotaTag, body: BodyForm)
        requires
            self.wf(),
        ensures
            final(o).written() == element(self.s(), old(o).written(), n.tree(), tag, body),
            is_faithful(self.s(), old(o).written()) ==> is_faithful(self.s(), final(o).written()),
        decreases n, 0int, 19int, 0int,
    {
        let s = bytes_of_source(self.source);
        if n.kids.len() < 2 {
            return ;
        }
        assert(n.tree().kids[0] == n.kids@[0].tree());
        let given = &n.kids[0].kids;
        if given.len() > 0 {
            let last = &given[given.len() - 1];
            assert(trees(given@).last() == last.tree());
            if last.kind == NodeKind::PropsAnchor {
                o.anchor(last.span);
            }
        }
        o.text("<");
        match tag {
            NotaTag::Host { name } => o.bytes(slice_of(s, name)),
            NotaTag::Component { name } => o.source(s, name.start, name.end),
            NotaTag::Dynamic => {
                if n.kids.len() >= 3 {
                    o.text("Dynamic component=");
                    self.attr_value(o, &n.kids[2]);
                } else {
                    o.text("Dynamic");
                }
            },
        }
        self.lower_attrs(o, given);
        self.element_body(o, &n.kids[1], tag, body);
    }

    /// Write the rest of an element from behind its attributes.
    fn element_body(&self, o: &mut Output, g: &Node, tag: NotaTag, body: BodyForm)
        requires
            self.wf(),
        ensures
            final(o).written() == element_body(self.s(), old(o).written(), g.tree(), tag, body),
            is_faithful(self.s(), old(o).written()) ==> is_faithful(self.s(), final(o).written()),
        decreases g, 0int, 18int, 0int,
    {
        let s = bytes_of_source(self.source);
        let flow = is_flow_tag(s, tag);
        let name = match tag {
            NotaTag::Host { name } => slice_of(s, name),
            NotaTag::Component { name } => slice_of(s, name),
            NotaTag::Dynamic => bytes_of_source("Dynamic"),
        };
        if body == BodyForm::Verbatim {
            self.enclosed_raw(o, &g.kids, flow, name);
            return ;
        }
        let braced = body == BodyForm::Braced;
        let bare = is_foster_parenting_tag(s, tag);
        let ps = settled_children(s, &g.kids, 0, false, braced);
        if keeps_none(s, &g.kids, &ps, bare) {
            o.text(" />");
        } else {
            open_body(o, flow);
            if tag_is_host(s, tag, "table") {
                self.wrap_bare_rows(o, &g.kids, braced, &ps);
            } else {
                self.items(o, &g.kids, 0, braced, &ps, 0, ps.len(), bare);
            }
            close_body(o, flow, name);
        }
    }

    /// Write attributes.
    fn lower_attrs(&self, o: &mut Output, kids: &Vec<Node>)
        requires
            self.wf(),
        ensures
            final(o).written() == attrs(self.s(), old(o).written(), trees(kids@), 0),
            is_faithful(self.s(), old(o).written()) ==> is_faithful(self.s(), final(o).written()),
        decreases kids, kids.len() as int, 5int, 0int,
    {
        let ghost all = trees(kids@);
        let ghost start = o.written();
        let mut k: usize = 0;
        while k < kids.len()
            invariant
                self.wf(),
                is_faithful(self.s(), old(o).written()) ==> is_faithful(self.s(), o.written()),
                all == trees(kids@),
                k <= kids@.len(),
                attrs(self.s(), o.written(), all, k as int) == attrs(self.s(), start, all, 0),
            decreases kids@.len() - k,
        {
            assert(all[k as int] == kids@[k as int].tree());
            self.lower_attr(o, &kids[k]);
            k = k + 1;
        }
    }

    /// Write one attribute.
    fn lower_attr(&self, o: &mut Output, p: &Node)
        requires
            self.wf(),
        ensures
            final(o).written() == attr(self.s(), old(o).written(), p.tree()),
            is_faithful(self.s(), old(o).written()) ==> is_faithful(self.s(), final(o).written()),
        decreases p, 0int, 10int, 0int,
    {
        let s = bytes_of_source(self.source);
        match p.kind {
            NodeKind::Field { key, quoted } => {
                if p.kids.len() > 0 {
                    assert(p.tree().kids[0] == p.kids@[0].tree());
                    o.text(" ");
                    o.bytes(text_of_key(s, key, quoted).as_slice());
                    o.text("=");
                    match p.kids[0].kind {
                        NodeKind::Js { tier: _ } => self.attr_value(o, &p.kids[0]),
                        NodeKind::Interpolation if p.kids[0].kids.len() > 0 => {
                            assert(p.tree().kids[0].kids[0] == p.kids@[0].kids@[0].tree());
                            self.attr_value(o, &p.kids[0].kids[0]);
                        },
                        _ => {
                            o.text("{");
                            self.lower_form(o, &p.kids[0]);
                            o.text("}");
                        },
                    }
                }
            },
            NodeKind::Shorthand => {
                o.text(" ");
                o.bytes(slice_of(s, p.span));
                o.text("={");
                o.source(s, p.span.start, p.span.end);
                o.text("}");
            },
            NodeKind::Spread => {
                if p.kids.len() > 0 {
                    o.text(" {...");
                    self.lower_form(o, &p.kids[0]);
                    o.text("}");
                }
            },
            _ => {},
        }
    }

    /// Write JavaScript as the value of an attribute.
    fn attr_value(&self, o: &mut Output, n: &Node)
        requires
            self.wf(),
        ensures
            final(o).written() == attr_value(self.s(), old(o).written(), n.tree()),
            is_faithful(self.s(), old(o).written()) ==> is_faithful(self.s(), final(o).written()),
        decreases n, 0int, 18int, 0int,
    {
        match literal_of(slice_of(bytes_of_source(self.source), n.span)) {
            Some(text) => {
                if is_jsx_attr_inert(text.as_slice()) {
                    o.text("\"");
                    o.bytes(text.as_slice());
                    o.text("\"");
                    return ;
                }
            },
            None => {},
        }
        o.text("{");
        self.argument(o, n);
        o.text("}");
    }

    /// Write `<>…</>`.
    fn lower_fragment(&self, o: &mut Output, n: &Node, braced: bool)
        requires
            self.wf(),
        ensures
            final(o).written() == fragment(self.s(), old(o).written(), n.tree(), braced),
            is_faithful(self.s(), old(o).written()) ==> is_faithful(self.s(), final(o).written()),
        decreases n, 0int, 19int, 0int,
    {
        o.text("<>");
        self.lower_children(o, &n.kids, 0, braced);
        o.text("</>");
    }

    /// Write the children from `from` on.
    fn lower_children(&self, o: &mut Output, kids: &Vec<Node>, from: usize, braced: bool)
        requires
            self.wf(),
        ensures
            final(o).written() == children(
                self.s(),
                old(o).written(),
                trees(kids@),
                from as int,
                braced,
            ),
            is_faithful(self.s(), old(o).written()) ==> is_faithful(self.s(), final(o).written()),
        decreases kids, kids.len() - from, 6int, 0int,
    {
        let ps = settled_children(bytes_of_source(self.source), kids, from, false, braced);
        self.items(o, kids, from, braced, &ps, 0, ps.len(), false);
    }

    /// Hold a child back, if it is text.
    fn hold_child(&self, held: &mut Held, kids: &Vec<Node>, p: &Child<usize>) -> (yes: bool)
        requires
            self.wf(),
            old(held).is_text(),
            p.piece() matches Piece::Text(t) ==> valid_utf8(t),
        ensures
            final(held).is_text(),
            yes == (child_text(self.s(), trees(kids@), p.piece()) is Some),
            child_text(self.s(), trees(kids@), p.piece()) matches Some(t) ==> final(held).view()
                == held_with(old(held).view(), t),
            !yes ==> final(held).view() == old(held).view(),
    {
        match p {
            Child::Text(text) => {
                held.add(text.as_slice());
                true
            },
            Child::Elem(i) => {
                let i: usize = *i;
                if i < kids.len() {
                    assert(trees(kids@)[i as int] == kids@[i as int].tree());
                    match interpolated(bytes_of_source(self.source), &kids[i]) {
                        Some(text) => {
                            held.add(text.as_slice());
                            true
                        },
                        None => false,
                    }
                } else {
                    false
                }
            },
        }
    }

    /// Write the pieces from `first` to `n` of the children from `from` on.
    fn items(
        &self,
        o: &mut Output,
        kids: &Vec<Node>,
        from: usize,
        braced: bool,
        ps: &Vec<Child<usize>>,
        first: usize,
        n: usize,
        bare: bool,
    )
        requires
            self.wf(),
            first <= n <= ps@.len(),
            texts_are_valid(pieces(ps@)),
        ensures
            final(o).written() == items(
                self.s(),
                old(o).written(),
                trees(kids@),
                from as int,
                braced,
                pieces(ps@),
                first as int,
                n as int,
                bare,
                None,
            ),
            is_faithful(self.s(), old(o).written()) ==> is_faithful(self.s(), final(o).written()),
        decreases kids, kids.len() - from, 4int, n - first,
    {
        let ghost all = trees(kids@);
        let ghost q = pieces(ps@);
        let ghost start = o.written();
        let mut k: usize = first;
        let mut held = Held::new();
        while k < n
            invariant
                self.wf(),
                is_faithful(self.s(), old(o).written()) ==> is_faithful(self.s(), o.written()),
                all == trees(kids@),
                q == pieces(ps@),
                texts_are_valid(q),
                held.is_text(),
                first <= k <= n <= ps@.len(),
                items(
                    self.s(),
                    o.written(),
                    all,
                    from as int,
                    braced,
                    q,
                    k as int,
                    n as int,
                    bare,
                    held.view(),
                ) == items(
                    self.s(),
                    start,
                    all,
                    from as int,
                    braced,
                    q,
                    first as int,
                    n as int,
                    bare,
                    None,
                ),
            decreases n - k,
        {
            assert(q[k as int] == ps@[k as int].piece());
            if bare && is_whitespace_text(bytes_of_source(self.source), kids, &ps[k]) {
                k = k + 1;
                continue ;
            }
            if !self.hold_child(&mut held, kids, &ps[k]) {
                held.flush(o);
                self.item(o, kids, from, braced, &ps[k]);
            }
            k = k + 1;
        }
        held.flush(o);
    }

    /// Write one child that is not text.
    fn item(&self, o: &mut Output, kids: &Vec<Node>, from: usize, braced: bool, p: &Child<usize>)
        requires
            self.wf(),
        ensures
            final(o).written() == item(
                self.s(),
                old(o).written(),
                trees(kids@),
                from as int,
                braced,
                p.piece(),
            ),
            is_faithful(self.s(), old(o).written()) ==> is_faithful(self.s(), final(o).written()),
        decreases kids, kids.len() - from, 3int, 0int,
    {
        let ghost all = trees(kids@);
        match p {
            Child::Text(_) => {},
            Child::Elem(i) => {
                let i: usize = *i;
                if from <= i && i < kids.len() {
                    assert(all[i as int] == kids@[i as int].tree());
                    if node_is_statement(&kids[i]) {
                        o.text("{(() => { ");
                        let j: usize = statement_run_end(kids, i);
                        proof {
                            statements_end_bounds(all, i as int);
                        }
                        self.statement_run(o, kids, i, j);
                        o.text("return <>");
                        self.lower_children(o, kids, j, braced);
                        o.text("</>; })()}");
                    } else {
                        self.lower_child(o, &kids[i]);
                    }
                }
            },
        }
    }

    /// Write a form as a child.
    fn lower_child(&self, o: &mut Output, n: &Node)
        requires
            self.wf(),
        ensures
            final(o).written() == child(self.s(), old(o).written(), n.tree()),
            is_faithful(self.s(), old(o).written()) ==> is_faithful(self.s(), final(o).written()),
        decreases n, 0int, 21int, 0int,
    {
        if n.kind == NodeKind::Interpolation && !is_interpolated_element(n) {
            o.text("{");
            self.lower_form(o, n);
            o.text("}");
        } else {
            self.lower_form(o, n);
        }
    }

    /// Write the pieces of a table's children.
    fn wrap_bare_rows(&self, o: &mut Output, kids: &Vec<Node>, braced: bool, ps: &Vec<Child<usize>>)
        requires
            self.wf(),
            texts_are_valid(pieces(ps@)),
        ensures
            final(o).written() == table_items(
                self.s(),
                old(o).written(),
                trees(kids@),
                braced,
                pieces(ps@),
                0,
                None,
            ),
            is_faithful(self.s(), old(o).written()) ==> is_faithful(self.s(), final(o).written()),
        decreases kids, kids.len() as int, 5int, 0int,
    {
        let s = bytes_of_source(self.source);
        let ghost all = trees(kids@);
        let ghost q = pieces(ps@);
        let ghost start = o.written();
        let mut k: usize = 0;
        let mut held = Held::new();
        while k < ps.len()
            invariant
                self.wf(),
                is_faithful(self.s(), old(o).written()) ==> is_faithful(self.s(), o.written()),
                s@ == self.s(),
                valid_utf8(s@),
                all == trees(kids@),
                q == pieces(ps@),
                texts_are_valid(q),
                held.is_text(),
                k <= ps@.len(),
                table_items(self.s(), o.written(), all, braced, q, k as int, held.view())
                    == table_items(self.s(), start, all, braced, q, 0, None),
            decreases ps@.len() - k,
        {
            assert(q[k as int] == ps@[k as int].piece());
            if is_whitespace_text(bytes_of_source(self.source), kids, &ps[k]) {
                k = k + 1;
                continue ;
            }
            if is_table_row(s, kids, &ps[k]) {
                let e: usize = row_run_end(s, kids, ps, k);
                proof {
                    rows_end_bounds(s@, all, q, k as int);
                }
                held.flush(o);
                o.text("<tbody>");
                self.items(o, kids, 0, braced, ps, k, e, true);
                o.text("</tbody>");
                k = e;
            } else {
                if !self.hold_child(&mut held, kids, &ps[k]) {
                    held.flush(o);
                    self.item(o, kids, 0, braced, &ps[k]);
                }
                k = k + 1;
            }
        }
        held.flush(o);
    }

    /// Hold a part of a raw span back, if it is text.
    fn hold_part(&self, held: &mut Held, n: &Node) -> (yes: bool)
        requires
            self.wf(),
            old(held).is_text(),
        ensures
            final(held).is_text(),
            yes == (part_text(self.s(), n.tree()) is Some),
            part_text(self.s(), n.tree()) matches Some(t) ==> final(held).view() == held_with(
                old(held).view(),
                t,
            ),
            !yes ==> final(held).view() == old(held).view(),
    {
        if n.kind == NodeKind::Raw {
            let text = slice_of(bytes_of_source(self.source), n.span);
            if has_template_breaker(text) {
                held.add(text);
                true
            } else {
                false
            }
        } else {
            match interpolated(bytes_of_source(self.source), n) {
                Some(text) => {
                    held.add(text.as_slice());
                    true
                },
                None => false,
            }
        }
    }

    /// Write raw runs and armed forms.
    fn lower_raw_parts(&self, o: &mut Output, kids: &Vec<Node>)
        requires
            self.wf(),
        ensures
            final(o).written() == parts(self.s(), old(o).written(), trees(kids@), 0, None),
            is_faithful(self.s(), old(o).written()) ==> is_faithful(self.s(), final(o).written()),
        decreases kids, kids.len() as int, 5int, 0int,
    {
        let s = bytes_of_source(self.source);
        let ghost all = trees(kids@);
        let ghost start = o.written();
        let mut k: usize = 0;
        let mut held = Held::new();
        while k < kids.len()
            invariant
                self.wf(),
                is_faithful(self.s(), old(o).written()) ==> is_faithful(self.s(), o.written()),
                s@ == self.s(),
                valid_utf8(s@),
                all == trees(kids@),
                k <= kids@.len(),
                held.is_text(),
                parts(self.s(), o.written(), all, k as int, held.view()) == parts(
                    self.s(),
                    start,
                    all,
                    0,
                    None,
                ),
            decreases kids@.len() - k,
        {
            assert(all[k as int] == kids@[k as int].tree());
            if !self.hold_part(&mut held, &kids[k]) {
                held.flush(o);
                if kids[k].kind == NodeKind::Raw {
                    o.text("{String.raw`");
                    o.bytes(slice_of(s, kids[k].span));
                    o.text("`}");
                } else {
                    self.lower_child(o, &kids[k]);
                }
            }
            k = k + 1;
        }
        held.flush(o);
    }

    /// Write JavaScript where an argument may stand.
    fn argument(&self, o: &mut Output, n: &Node)
        requires
            self.wf(),
        ensures
            final(o).written() == argument(self.s(), old(o).written(), n.tree()),
            is_faithful(self.s(), old(o).written()) ==> is_faithful(self.s(), final(o).written()),
        decreases n, 0int, 17int, 0int,
    {
        if n.kind == (NodeKind::Js { tier: ExprTier::Sequence }) {
            o.text("(");
            self.splice(o, &n.kids, n.span.start, n.span.end);
            o.text(")");
        } else {
            self.splice(o, &n.kids, n.span.start, n.span.end);
        }
    }

    /// Write the source from `a` to `e` with the forms in it lowered in place.
    fn splice(&self, o: &mut Output, kids: &Vec<Node>, a: u32, e: u32)
        requires
            self.wf(),
        ensures
            final(o).written() == splice(
                self.s(),
                old(o).written(),
                trees(kids@),
                0,
                a as int,
                e as int,
            ),
            is_faithful(self.s(), old(o).written()) ==> is_faithful(self.s(), final(o).written()),
        decreases kids, kids.len() as int, 5int, 0int,
    {
        let s = bytes_of_source(self.source);
        let ghost all = trees(kids@);
        let ghost start = o.written();
        let mut k: usize = 0;
        let mut p: u32 = a;
        while k < kids.len()
            invariant
                self.wf(),
                is_faithful(self.s(), old(o).written()) ==> is_faithful(self.s(), o.written()),
                s@ == self.s(),
                valid_utf8(s@),
                all == trees(kids@),
                k <= kids@.len(),
                splice(self.s(), o.written(), all, k as int, p as int, e as int) == splice(
                    self.s(),
                    start,
                    all,
                    0,
                    a as int,
                    e as int,
                ),
            decreases kids@.len() - k,
        {
            assert(all[k as int] == kids@[k as int].tree());
            let m = &kids[k];
            if m.kind == NodeKind::Markup && p <= m.span.start && m.span.end <= e {
                o.source(s, p, m.span.start);
                self.markup(o, m);
                p = m.span.end;
            }
            k = k + 1;
        }
        o.source(s, p, e);
    }

    /// Write a form inside JavaScript.
    fn markup(&self, o: &mut Output, m: &Node)
        requires
            self.wf(),
        ensures
            final(o).written() == markup(self.s(), old(o).written(), m.tree()),
            is_faithful(self.s(), old(o).written()) ==> is_faithful(self.s(), final(o).written()),
        decreases m, 0int, 10int, 0int,
    {
        if m.kids.len() == 0 {
            return ;
        }
        let f = &m.kids[0];
        assert(m.tree().kids[0] == f.tree());
        assert(f.kids@.len() > 0 ==> f.tree().kids[0] == f.kids@[0].tree());
        if f.kind == NodeKind::Interpolation && f.kids.len() > 0
            && !f.kids[0].kind.can_be_object() {
            o.text("(");
            self.lower_form(o, f);
            o.text(")");
        } else {
            self.lower_form(o, f);
        }
    }

    /// Write a conditional.
    fn lower_if(&self, o: &mut Output, n: &Node)
        requires
            self.wf(),
        ensures
            final(o).written() == show(self.s(), old(o).written(), n.tree()),
            is_faithful(self.s(), old(o).written()) ==> is_faithful(self.s(), final(o).written()),
        decreases n, 0int, 19int, 0int,
    {
        if n.kids.len() < 2 {
            return ;
        }
        o.text("<Show when=");
        self.attr_value(o, &n.kids[0]);
        if n.kids.len() >= 3 {
            o.text(" fallback={");
            if n.kids[2].kind == NodeKind::If {
                self.lower_if(o, &n.kids[2]);
            } else {
                self.lower_fragment(o, &n.kids[2], false);
            }
            o.text("}");
        }
        o.text(">");
        self.lower_fragment(o, &n.kids[1], false);
        o.text("</Show>");
    }

    /// Write a loop.
    #[verifier::spinoff_prover]
    fn lower_for(&self, o: &mut Output, n: &Node)
        requires
            self.wf(),
        ensures
            final(o).written() == each(self.s(), old(o).written(), n.tree()),
            is_faithful(self.s(), old(o).written()) ==> is_faithful(self.s(), final(o).written()),
        decreases n, 0int, 19int, 0int,
    {
        if n.kids.len() < 3 {
            return ;
        }
        let ghost start = o.written();
        let ghost iter = attr_value(
            self.s(),
            put(start, utf8("<For each=")),
            n.tree().kids[1],
        );
        let ghost bind = argument(self.s(), put(iter, utf8(">{(")), n.tree().kids[0]);
        o.text("<For each=");
        self.attr_value(o, &n.kids[1]);
        assert(o.written() == iter);
        o.text(">{(");
        self.argument(o, &n.kids[0]);
        assert(o.written() == bind);
        o.text(") => ");
        self.lower_fragment(o, &n.kids[2], false);
        o.text("}</For>");
    }

    /// Write the statements from `from` to `j`.
    fn statement_run(&self, o: &mut Output, kids: &Vec<Node>, from: usize, j: usize)
        requires
            self.wf(),
            from <= j <= kids@.len(),
        ensures
            final(o).written() == statements(
                self.s(),
                old(o).written(),
                trees(kids@),
                from as int,
                j as int,
            ),
            is_faithful(self.s(), old(o).written()) ==> is_faithful(self.s(), final(o).written()),
        decreases kids, kids.len() - from, 2int, 0int,
    {
        let ghost all = trees(kids@);
        let ghost start = o.written();
        let mut i: usize = from;
        while i < j
            invariant
                self.wf(),
                is_faithful(self.s(), old(o).written()) ==> is_faithful(self.s(), o.written()),
                all == trees(kids@),
                from <= i <= j <= kids@.len(),
                statements(self.s(), o.written(), all, i as int, j as int) == statements(
                    self.s(),
                    start,
                    all,
                    from as int,
                    j as int,
                ),
            decreases j - i,
        {
            assert(all[i as int] == kids@[i as int].tree());
            self.statement(o, &kids[i]);
            o.text(" ");
            i = i + 1;
        }
    }

    /// Write one statement.
    fn statement(&self, o: &mut Output, n: &Node)
        requires
            self.wf(),
        ensures
            final(o).written() == statement(self.s(), old(o).written(), n.tree()),
            is_faithful(self.s(), old(o).written()) ==> is_faithful(self.s(), final(o).written()),
        decreases n, 0int, 10int, 0int,
    {
        let s = bytes_of_source(self.source);
        let end: u32 = n.span.end;
        self.splice(o, &n.kids, n.span.start, end);
        if !(end > 0 && get(s, end as usize - 1) == Some(SEMICOLON)) {
            o.text(";");
        }
    }

    /// Write the top-level statements that are hoisted, or those that are not.
    fn route_statements(&self, o: &mut Output, nodes: &Vec<Node>, hoisted: bool, indent: &str)
        requires
            self.wf(),
        ensures
            final(o).written() == routed(
                self.s(),
                old(o).written(),
                trees(nodes@),
                0,
                hoisted,
                utf8(indent),
            ),
            is_faithful(self.s(), old(o).written()) ==> is_faithful(self.s(), final(o).written()),
    {
        let ghost all = trees(nodes@);
        let ghost start = o.written();
        let mut k: usize = 0;
        while k < nodes.len()
            invariant
                self.wf(),
                is_faithful(self.s(), old(o).written()) ==> is_faithful(self.s(), o.written()),
                all == trees(nodes@),
                k <= nodes@.len(),
                routed(self.s(), o.written(), all, k as int, hoisted, utf8(indent)) == routed(
                    self.s(),
                    start,
                    all,
                    0,
                    hoisted,
                    utf8(indent),
                ),
            decreases nodes@.len() - k,
        {
            assert(all[k as int] == nodes@[k as int].tree());
            if node_is_statement(&nodes[k]) && node_is_hoisted(&nodes[k]) == hoisted {
                o.text(indent);
                self.statement(o, &nodes[k]);
                o.text("\n");
            }
            k = k + 1;
        }
    }

    /// Write a whole document.
    pub fn document(&self, nodes: &Vec<Node>) -> (o: Output)
        requires
            self.wf(),
        ensures
            o.written() == crate::jsx::document(self.s(), trees(nodes@)),
            is_faithful(self.s(), o.written()),
    {
        let mut o = Output::new();
        assert(utf8("") =~= Seq::<u8>::empty()) by {
            reveal_strlit("");
        }
        self.route_statements(&mut o, nodes, true, "");
        o.text("export default function Doc() {\n");
        self.route_statements(&mut o, nodes, false, "  ");
        o.text("  return <NotaDoc");
        let ps = settled_children(bytes_of_source(self.source), nodes, 0, true, false);
        if ps.len() == 0 {
            o.text(" />");
        } else {
            o.text(">");
            self.items(&mut o, nodes, 0, false, &ps, 0, ps.len(), false);
            close_tag(&mut o, bytes_of_source("NotaDoc"));
        }
        o.text(";\n}\n");
        o
    }

    /// Write one form as an expression.
    pub fn expression(&self, form: &Node) -> (o: Output)
        requires
            self.wf(),
        ensures
            o.written() == node(self.s(), blank(), form.tree()),
            is_faithful(self.s(), o.written()),
    {
        let mut o = Output::new();
        self.lower_form(&mut o, form);
        o
    }
}

} // verus!
