//! Hyperscript: a document lowered to calls of `h` and `Fragment`.
//!
//! An element is `h(tag, { props }, [children])`, a fragment `Fragment(children)`, and the document
//! `export default function Doc() { return decode(Fragment(children)); }`. Embedded JavaScript is
//! copied as it stands, with the forms inside it lowered in place.

use vstd::prelude::*;
use vstd::utf8::valid_utf8;
use crate::ascii::{DIGIT_9, SEMICOLON};
use crate::bytes::{addressable, at, get, utf8, Span};
use crate::encoding::texts_are_valid;
use crate::lowering::{
    breaks_template, child_pieces, cook_url, first_child, fresh_index, fresh_index_name,
    has_template_breaker, is_foster_parenting_tag, is_host, is_identifier_name, is_row,
    is_statement, is_table_row, is_white_piece, is_whitespace_text, key_name, name_of_key,
    names_identifier, node_is_statement, refuses_text, row_run_end, rows_end, rows_end_bounds,
    settled_children, start_of_children, statement_run_end, statements_end, statements_end_bounds,
    tag_is_host, url_text,
};
use crate::output::{blank, is_faithful, put, put_quoted, put_source, slice, slice_of, Output, Written};
use crate::scribble::{pieces, Child, Piece};
use crate::tree::{
    trees, BodyForm, ExprTier, Node, NodeKind, NotaDocStateKind, NotaEmphasisMarker, NotaListKind,
    NotaTag, StatementClass, Tree,
};
use crate::unicode::{ascii_is_valid, bytes_of_source};

verus! {

/// A form or a sugar, as an expression.
pub open spec fn node(s: Seq<u8>, w: Written, t: Tree) -> Written
    decreases t, 0int, 20int, 0int,
{
    match t.kind {
        NodeKind::Element { tag, body } => element(s, w, t, tag, body),
        NodeKind::Fragment => fragment(s, w, t, true),
        NodeKind::Interpolation => if t.kids.len() > 0 {
            argument(s, w, t.kids[0])
        } else {
            w
        },
        NodeKind::Js { .. } => argument(s, w, t),
        NodeKind::Markup => if t.kids.len() > 0 {
            node(s, w, t.kids[0])
        } else {
            w
        },
        NodeKind::If => conditional(s, w, t),
        NodeKind::For => iteration(s, w, t),
        NodeKind::Emphasis { marker } => {
            let open = match marker {
                NotaEmphasisMarker::Strong => utf8("h(\"strong\", {}, ["),
                NotaEmphasisMarker::Em => utf8("h(\"em\", {}, ["),
                NotaEmphasisMarker::Strike => utf8("h(\"s\", {}, ["),
            };
            put(children(s, put(w, open), t.kids, 0, true, false), utf8("])"))
        },
        NodeKind::Heading { level } => heading(s, w, t, level),
        NodeKind::ListItem { list } => list_item(s, w, t, list),
        NodeKind::Attrs => put(props(s, put(w, utf8("h(Attrs, ")), t), utf8(", [])")),
        NodeKind::DocState { sugar, label } => doc_state(s, w, t, sugar, label),
        NodeKind::Link { url } => {
            let open = put(
                put_quoted(put(w, utf8("h(\"a\", { href: ")), url_text(slice(s, url))),
                utf8(" }, ["),
            );
            put(children(s, open, t.kids, 0, true, false), utf8("])"))
        },
        NodeKind::Image { alt, src } => put(
            put_quoted(
                put(
                    put_quoted(put(w, utf8("h(\"img\", { src: ")), url_text(slice(s, src))),
                    utf8(", alt: "),
                ),
                url_text(slice(s, alt)),
            ),
            utf8(" }, [])"),
        ),
        NodeKind::ThematicBreak => put(w, utf8("h(\"hr\", {}, [])")),
        NodeKind::Code { is_block, lang } => put(
            parts(s, code_open(s, w, is_block, lang), t.kids, 0),
            utf8("])"),
        ),
        NodeKind::Math { is_block } => {
            let open = if is_block {
                utf8("h(Tex, { display: true }, [")
            } else {
                utf8("h(Tex, {}, [")
            };
            put(parts(s, put(w, open), t.kids, 0), utf8("])"))
        },
        _ => w,
    }
}

/// A heading: its own properties stand behind its rank.
pub open spec fn heading(s: Seq<u8>, w: Written, t: Tree, level: u8) -> Written
    decreases t, 0int, 19int, 0int,
{
    let from = first_child(t.kids);
    let ranked = put(put(w, utf8("h(Heading, { rank: ")), rank(level));
    let given = if from == 1 {
        more_props(s, ranked, t.kids[0].kids, 0)
    } else {
        ranked
    };
    put(children(s, put(given, utf8(" }, [")), t.kids, from, false, false), utf8("])"))
}

/// A list item.
pub open spec fn list_item(s: Seq<u8>, w: Written, t: Tree, list: NotaListKind) -> Written
    decreases t, 0int, 19int, 0int,
{
    let from = first_child(t.kids);
    let open = put(
        w,
        match list {
            NotaListKind::Unordered => utf8("h(\"nota-ul-li\", "),
            NotaListKind::Ordered => utf8("h(\"nota-ol-li\", "),
        },
    );
    let given = if from == 1 {
        props(s, open, t.kids[0])
    } else {
        put(open, utf8("{}"))
    };
    put(children(s, put(given, utf8(", [")), t.kids, from, false, false), utf8("])"))
}

/// A document-state sugar: its own properties stand behind its label.
pub open spec fn doc_state(
    s: Seq<u8>,
    w: Written,
    t: Tree,
    sugar: NotaDocStateKind,
    label: Span,
) -> Written
    decreases t, 0int, 19int, 0int,
{
    let named = put_quoted(put(w, doc_state_open(sugar)), slice(s, label));
    if t.kids.len() < 2 {
        put(named, utf8(" }, [])"))
    } else {
        let open = put(more_props(s, named, t.kids[0].kids, 0), utf8(" }, ["));
        put(children(s, open, t.kids[1].kids, 0, false, false), utf8("])"))
    }
}

/// The properties from `k` on, behind others.
pub open spec fn more_props(s: Seq<u8>, w: Written, kids: Seq<Tree>, k: int) -> Written
    decreases kids, kids.len() - k, 5int, 0int,
{
    if 0 <= k < kids.len() {
        if kids[k].kind == NodeKind::PropsAnchor {
            more_props(s, w, kids, k + 1)
        } else {
            more_props(s, prop(s, put(w, utf8(", ")), kids[k]), kids, k + 1)
        }
    } else {
        w
    }
}

/// A heading's level, in digits.
pub open spec fn rank(level: u8) -> Seq<u8> {
    seq![
        if level <= 9 {
            (0x30 + level) as u8
        } else {
            DIGIT_9
        },
    ]
}

/// How the element of a document-state sugar opens, up to its label.
pub open spec fn doc_state_open(sugar: NotaDocStateKind) -> Seq<u8> {
    match sugar {
        NotaDocStateKind::Label => utf8("h(Label, { id: "),
        NotaDocStateKind::Ref => utf8("h(Ref, { id: "),
        NotaDocStateKind::FootnoteMark => utf8("h(FootnoteMark, { label: "),
        NotaDocStateKind::FootnoteText => utf8("h(FootnoteText, { label: "),
    }
}

/// How the element of a code span opens, up to its content.
pub open spec fn code_open(s: Seq<u8>, w: Written, is_block: bool, lang: Option<Span>) -> Written {
    if !is_block {
        put(w, utf8("h(CodeInline, {}, ["))
    } else {
        match lang {
            Some(tag) => put(
                put_quoted(put(w, utf8("h(CodeBlock, { lang: ")), slice(s, tag)),
                utf8(" }, ["),
            ),
            None => put(w, utf8("h(CodeBlock, {}, [")),
        }
    }
}

/// `h(tag, { props }, [children])`.
pub open spec fn element(s: Seq<u8>, w: Written, t: Tree, tag: NotaTag, body: BodyForm) -> Written
    decreases t, 0int, 19int, 0int,
{
    if t.kids.len() >= 2 {
        let opened = put(w, utf8("h("));
        let tagged = match tag {
            NotaTag::Host { name } => put_quoted(opened, slice(s, name)),
            NotaTag::Component { name } => put_source(
                opened,
                s,
                name.start as int,
                name.end as int,
            ),
            NotaTag::Dynamic => if t.kids.len() >= 3 {
                argument(s, opened, t.kids[2])
            } else {
                opened
            },
        };
        let attributed = put(
            props(s, put(tagged, utf8(", ")), t.kids[0]),
            utf8(", ["),
        );
        put(element_body(s, attributed, t.kids[1], tag, body), utf8("])"))
    } else {
        w
    }
}

/// The children of an element. In the structure of a table white space is left out, and the rows
/// right under a table are put in a table body.
pub open spec fn element_body(s: Seq<u8>, w: Written, g: Tree, tag: NotaTag, body: BodyForm) -> Written
    decreases g, 0int, 18int, 0int,
{
    if body == BodyForm::Verbatim {
        parts(s, w, g.kids, 0)
    } else {
        let braced = body == BodyForm::Braced;
        let ps = child_pieces(s, g.kids, 0, false, braced);
        if is_host(s, tag, utf8("table")) {
            table_items(s, w, g.kids, braced, ps, 0, false)
        } else {
            items(s, w, g.kids, 0, braced, ps, 0, ps.len() as int, refuses_text(s, tag), false)
        }
    }
}

/// `{ props }`.
pub open spec fn props(s: Seq<u8>, w: Written, g: Tree) -> Written
    decreases g, 0int, 18int, 0int,
{
    if g.kids.len() == 0 {
        put(w, utf8("{}"))
    } else {
        put(prop_list(s, put(w, utf8("{ ")), g.kids, 0), utf8(" }"))
    }
}

/// The properties from `k` on, separated by commas.
pub open spec fn prop_list(s: Seq<u8>, w: Written, kids: Seq<Tree>, k: int) -> Written
    decreases kids, kids.len() - k, 5int, 0int,
{
    if 0 <= k < kids.len() {
        let sep = if k > 0 && kids[k].kind != NodeKind::PropsAnchor {
            put(w, utf8(", "))
        } else {
            w
        };
        prop_list(s, prop(s, sep, kids[k]), kids, k + 1)
    } else {
        w
    }
}

/// One property.
pub open spec fn prop(s: Seq<u8>, w: Written, p: Tree) -> Written
    decreases p, 0int, 10int, 0int,
{
    match p.kind {
        NodeKind::Field { key, quoted } => if p.kids.len() > 0 {
            node(s, put(prop_key(s, w, key, quoted), utf8(": ")), p.kids[0])
        } else {
            w
        },
        NodeKind::Shorthand => put_source(w, s, p.span.start as int, p.span.end as int),
        NodeKind::Spread => if p.kids.len() > 0 {
            node(s, put(w, utf8("...")), p.kids[0])
        } else {
            w
        },
        _ => w,
    }
}

/// A property key: bare where it is an identifier, a string literal otherwise.
pub open spec fn prop_key(s: Seq<u8>, w: Written, key: Span, quoted: bool) -> Written {
    let name = key_name(key, quoted);
    if names_identifier(s, name) {
        put_source(w, s, name.start as int, name.end as int)
    } else if quoted {
        put(w, slice(s, key))
    } else {
        put_quoted(w, slice(s, name))
    }
}

/// `Fragment(children)`.
pub open spec fn fragment(s: Seq<u8>, w: Written, t: Tree, braced: bool) -> Written
    decreases t, 0int, 19int, 0int,
{
    put(children(s, put(w, utf8("Fragment(")), t.kids, 0, braced, false), utf8(")"))
}

/// The children from `from` on, separated by commas, and a comma before them where `comma`.
pub open spec fn children(
    s: Seq<u8>,
    w: Written,
    kids: Seq<Tree>,
    from: int,
    braced: bool,
    comma: bool,
) -> Written
    decreases kids, kids.len() - from, 6int, 0int,
{
    let ps = child_pieces(s, kids, from, false, braced);
    items(s, w, kids, from, braced, ps, 0, ps.len() as int, false, comma)
}

/// The pieces from `k` to `n` of the children from `from` on, separated by commas.
pub open spec fn items(
    s: Seq<u8>,
    w: Written,
    kids: Seq<Tree>,
    from: int,
    braced: bool,
    ps: Seq<Piece<usize>>,
    k: int,
    n: int,
    bare: bool,
    comma: bool,
) -> Written
    decreases kids, kids.len() - from, 4int, n - k,
{
    if 0 <= k < n && n <= ps.len() {
        if bare && is_white_piece(s, kids, ps[k]) {
            items(s, w, kids, from, braced, ps, k + 1, n, bare, comma)
        } else {
            let sep = if comma {
                put(w, utf8(", "))
            } else {
                w
            };
            items(
                s,
                item(s, sep, kids, from, braced, ps[k]),
                kids,
                from,
                braced,
                ps,
                k + 1,
                n,
                bare,
                true,
            )
        }
    } else {
        w
    }
}

/// One child of those from `from` on. A statement scopes everything after it into a function called
/// on the spot.
pub open spec fn item(
    s: Seq<u8>,
    w: Written,
    kids: Seq<Tree>,
    from: int,
    braced: bool,
    p: Piece<usize>,
) -> Written
    decreases kids, kids.len() - from, 3int, 0int,
{
    match p {
        Piece::Text(text) => put_quoted(w, text),
        Piece::Elem(i) => if 0 <= from <= i && i < kids.len() {
            if is_statement(kids[i as int]) {
                let opened = put(w, utf8("(() => { "));
                let j = statements_end(kids, i as int);
                let run = statements(s, opened, kids, i as int, j);
                proof {
                    statements_end_bounds(kids, i as int);
                }
                let rest = children(
                    s,
                    put(run, utf8("return Fragment(")),
                    kids,
                    j,
                    braced,
                    false,
                );
                put(rest, utf8("); })()"))
            } else {
                node(s, w, kids[i as int])
            }
        } else {
            w
        },
    }
}

/// The pieces of a table's children from `k` on: each run of rows in a table body.
pub open spec fn table_items(
    s: Seq<u8>,
    w: Written,
    kids: Seq<Tree>,
    braced: bool,
    ps: Seq<Piece<usize>>,
    k: int,
    comma: bool,
) -> Written
    decreases kids, kids.len() as int, 5int, ps.len() - k,
{
    if 0 <= k < ps.len() {
        if is_white_piece(s, kids, ps[k]) {
            table_items(s, w, kids, braced, ps, k + 1, comma)
        } else {
            let sep = if comma {
                put(w, utf8(", "))
            } else {
                w
            };
            if is_row(s, kids, ps[k]) {
                let e = rows_end(s, kids, ps, k);
                proof {
                    rows_end_bounds(s, kids, ps, k);
                }
                let rows = items(
                    s,
                    put(sep, utf8("h(\"tbody\", {}, [")),
                    kids,
                    0,
                    braced,
                    ps,
                    k,
                    e,
                    true,
                    false,
                );
                table_items(s, put(rows, utf8("])")), kids, braced, ps, e, true)
            } else {
                table_items(
                    s,
                    item(s, sep, kids, 0, braced, ps[k]),
                    kids,
                    braced,
                    ps,
                    k + 1,
                    true,
                )
            }
        }
    } else {
        w
    }
}

/// Raw runs and armed forms from `k` on, separated by commas.
pub open spec fn parts(s: Seq<u8>, w: Written, kids: Seq<Tree>, k: int) -> Written
    decreases kids, kids.len() - k, 5int, 0int,
{
    if 0 <= k < kids.len() {
        let sep = if k > 0 {
            put(w, utf8(", "))
        } else {
            w
        };
        let next = if kids[k].kind == NodeKind::Raw {
            raw_text(sep, slice(s, kids[k].span))
        } else {
            node(s, sep, kids[k])
        };
        parts(s, next, kids, k + 1)
    } else {
        w
    }
}

/// Raw text: a `String.raw` template, or a string literal where a template would break.
pub open spec fn raw_text(w: Written, t: Seq<u8>) -> Written {
    if breaks_template(t) {
        put_quoted(w, t)
    } else {
        put(put(put(w, utf8("String.raw`")), t), utf8("`"))
    }
}

/// JavaScript where an argument may stand: a sequence takes parentheses.
pub open spec fn argument(s: Seq<u8>, w: Written, t: Tree) -> Written
    decreases t, 0int, 17int, 0int,
{
    grouped(s, w, t, t.kind == NodeKind::Js { tier: ExprTier::Sequence })
}

/// JavaScript, in parentheses or not.
pub open spec fn grouped(s: Seq<u8>, w: Written, t: Tree, parens: bool) -> Written
    decreases t, 0int, 16int, 0int,
{
    let (a, b) = (t.span.start as int, t.span.end as int);
    if parens {
        put(splice(s, put(w, utf8("(")), t.kids, 0, a, b), utf8(")"))
    } else {
        splice(s, w, t.kids, 0, a, b)
    }
}

/// The source from `p` to `e` with the forms from `k` on lowered in place.
pub open spec fn splice(s: Seq<u8>, w: Written, kids: Seq<Tree>, k: int, p: int, e: int) -> Written
    decreases kids, kids.len() - k, 5int, 0int,
{
    if 0 <= k < kids.len() {
        let m = kids[k];
        if m.kind == NodeKind::Markup && p <= m.span.start && m.span.end <= e {
            let before = put_source(w, s, p, m.span.start as int);
            splice(s, markup(s, before, m), kids, k + 1, m.span.end as int, e)
        } else {
            splice(s, w, kids, k + 1, p, e)
        }
    } else {
        put_source(w, s, p, e)
    }
}

/// Does a form need parentheses inside JavaScript: a conditional, or an interpolation of anything
/// but a primary expression?
pub open spec fn form_needs_parens(f: Tree) -> bool {
    match f.kind {
        NodeKind::If => true,
        NodeKind::Interpolation => f.kids.len() > 0 && !f.kids[0].kind.is_object(),
        _ => false,
    }
}

/// A form inside JavaScript.
pub open spec fn markup(s: Seq<u8>, w: Written, m: Tree) -> Written
    decreases m, 0int, 10int, 0int,
{
    if m.kids.len() > 0 {
        if form_needs_parens(m.kids[0]) {
            put(node(s, put(w, utf8("(")), m.kids[0]), utf8(")"))
        } else {
            node(s, w, m.kids[0])
        }
    } else {
        w
    }
}

/// `test ? Fragment(…) : Fragment(…)`, with `null` where there is no `else`.
pub open spec fn conditional(s: Seq<u8>, w: Written, t: Tree) -> Written
    decreases t, 0int, 19int, 0int,
{
    if t.kids.len() >= 2 {
        let test = grouped(
            s,
            w,
            t.kids[0],
            t.kids[0].kind == NodeKind::Js { tier: ExprTier::Assignment } || t.kids[0].kind
                == NodeKind::Js { tier: ExprTier::Sequence },
        );
        let then = put(fragment(s, put(test, utf8(" ? ")), t.kids[1], false), utf8(" : "));
        if t.kids.len() >= 3 {
            if t.kids[2].kind == NodeKind::If {
                conditional(s, then, t.kids[2])
            } else {
                fragment(s, then, t.kids[2], false)
            }
        } else {
            put(then, utf8("null"))
        }
    } else {
        w
    }
}

/// `iterable.map((pattern, index) => Fragment({ key: index }, …))`.
pub open spec fn iteration(s: Seq<u8>, w: Written, t: Tree) -> Written
    decreases t, 0int, 19int, 0int,
{
    if t.kids.len() >= 3 {
        let index = fresh_index(slice(s, t.span));
        let iterable = grouped(s, w, t.kids[1], !t.kids[1].kind.is_object());
        let pattern = grouped(s, put(iterable, utf8(".map((")), t.kids[0], false);
        let params = put(put(pattern, utf8(", ")), index);
        let keyed = put(
            put(put(params, utf8(") => Fragment({ key: ")), index),
            utf8(" }"),
        );
        loop_body(s, keyed, t.kids[2])
    } else {
        w
    }
}

/// The children of a loop, and the end of the call that makes them.
pub open spec fn loop_body(s: Seq<u8>, w: Written, g: Tree) -> Written
    decreases g, 0int, 10int, 0int,
{
    put(children(s, w, g.kids, 0, false, true), utf8("))"))
}

/// The statements from `i` to `j`, each ended by a semicolon and a space.
pub open spec fn statements(s: Seq<u8>, w: Written, kids: Seq<Tree>, i: int, j: int) -> Written
    decreases kids, kids.len() - i, 2int, 0int,
{
    if 0 <= i < j && i < kids.len() {
        statements(s, put(statement(s, w, kids[i]), utf8(" ")), kids, i + 1, j)
    } else {
        w
    }
}

/// One statement, ended by a semicolon. A component's name is passed to the call that makes it.
pub open spec fn statement(s: Seq<u8>, w: Written, t: Tree) -> Written
    decreases t, 0int, 10int, 0int,
{
    let (a, b) = (t.span.start as int, t.span.end as int);
    let text = match t.kind {
        NodeKind::Statement { class, attach: Some(at) } => put_source(
            put_quoted(
                put(splice(s, w, t.kids, 0, a, at.arg_end as int), utf8(", ")),
                slice(s, at.name),
            ),
            s,
            at.close as int,
            b,
        ),
        _ => splice(s, w, t.kids, 0, a, b),
    };
    if at(s, b - 1) == Some(SEMICOLON) {
        text
    } else {
        put(text, utf8(";"))
    }
}

/// Does a statement go to the top of the module: an import or an export?
pub open spec fn is_hoisted(t: Tree) -> bool {
    t.kind matches NodeKind::Statement { class, attach } && class != StatementClass::Plain
}

/// The statements among the nodes from `k` on that go to the top of the module (`hoisted`), or those
/// that do not, each on a line of its own after `indent`.
pub open spec fn routed(
    s: Seq<u8>,
    w: Written,
    nodes: Seq<Tree>,
    k: int,
    hoisted: bool,
    indent: Seq<u8>,
) -> Written
    decreases nodes.len() - k,
{
    if 0 <= k < nodes.len() {
        if is_statement(nodes[k]) && is_hoisted(nodes[k]) == hoisted {
            routed(
                s,
                put(statement(s, put(w, indent), nodes[k]), utf8("\n")),
                nodes,
                k + 1,
                hoisted,
                indent,
            )
        } else {
            routed(s, w, nodes, k + 1, hoisted, indent)
        }
    } else {
        w
    }
}

/// A whole document: imports and exports, then `Doc` with the other statements before its markup.
pub open spec fn document(s: Seq<u8>, nodes: Seq<Tree>) -> Written {
    let top = put(
        routed(s, blank(), nodes, 0, true, Seq::empty()),
        utf8("export default function Doc() {\n"),
    );
    let body = put(
        routed(s, top, nodes, 0, false, utf8("  ")),
        utf8("  return decode(Fragment("),
    );
    let ps = child_pieces(s, nodes, 0, true, false);
    put(
        items(s, body, nodes, 0, false, ps, 0, ps.len() as int, false, false),
        utf8("));\n}\n"),
    )
}

/// The printer.
#[derive(Clone, Copy)]
pub struct Hyper<'a> {
    /// The source that the tree was read from.
    pub source: &'a str,
}

impl<'a> Hyper<'a> {
    /// The bytes of the source.
    pub open spec fn s(&self) -> Seq<u8> {
        utf8(self.source)
    }

    /// Offsets into the source fit.
    pub open spec fn wf(&self) -> bool {
        addressable(utf8(self.source))
    }

    /// Write a form or a sugar as an expression.
    fn lower_form(&self, o: &mut Output, n: &Node)
        requires
            self.wf(),
        ensures
            final(o).written() == node(self.s(), old(o).written(), n.tree()),
            is_faithful(self.s(), old(o).written()) ==> is_faithful(self.s(), final(o).written()),
        decreases n, 0int, 20int, 0int,
    {
        let s = bytes_of_source(self.source);
        match n.kind {
            NodeKind::Element { tag, body } => self.lower_element(o, n, tag, body),
            NodeKind::Fragment => self.lower_fragment(o, n, true),
            NodeKind::Interpolation => {
                if n.kids.len() > 0 {
                    self.argument(o, &n.kids[0]);
                }
            },
            NodeKind::Js { tier: _ } => self.argument(o, n),
            NodeKind::Markup => {
                if n.kids.len() > 0 {
                    self.lower_form(o, &n.kids[0]);
                }
            },
            NodeKind::If => self.lower_if(o, n),
            NodeKind::For => self.lower_for(o, n),
            NodeKind::Emphasis { marker } => {
                match marker {
                    NotaEmphasisMarker::Strong => o.text("h(\"strong\", {}, ["),
                    NotaEmphasisMarker::Em => o.text("h(\"em\", {}, ["),
                    NotaEmphasisMarker::Strike => o.text("h(\"s\", {}, ["),
                }
                self.lower_children(o, &n.kids, 0, true, false);
                o.text("])");
            },
            _ => self.lower_sugar(o, n),
        }
    }

    /// Write a sugar other than emphasis.
    fn lower_sugar(&self, o: &mut Output, n: &Node)
        requires
            self.wf(),
            !(n.kind is Element),
            !(n.kind is Fragment),
            !(n.kind is Interpolation),
            !(n.kind is Js),
            !(n.kind is Markup),
            !(n.kind is If),
            !(n.kind is For),
            !(n.kind is Emphasis),
        ensures
            final(o).written() == node(self.s(), old(o).written(), n.tree()),
            is_faithful(self.s(), old(o).written()) ==> is_faithful(self.s(), final(o).written()),
        decreases n, 0int, 19int, 0int,
    {
        let s = bytes_of_source(self.source);
        match n.kind {
            NodeKind::Heading { level } => self.lower_heading(o, n, level),
            NodeKind::ListItem { list } => self.lower_list_item(o, n, list),
            NodeKind::Attrs => {
                o.text("h(Attrs, ");
                self.lower_props(o, n);
                o.text(", [])");
            },
            NodeKind::DocState { sugar, label } => self.lower_doc_state(o, n, sugar, label),
            NodeKind::Link { url } => {
                o.text("h(\"a\", { href: ");
                o.quoted(cook_url(slice_of(s, url)).as_slice());
                o.text(" }, [");
                self.lower_children(o, &n.kids, 0, true, false);
                o.text("])");
            },
            NodeKind::Image { alt, src } => {
                o.text("h(\"img\", { src: ");
                o.quoted(cook_url(slice_of(s, src)).as_slice());
                o.text(", alt: ");
                o.quoted(cook_url(slice_of(s, alt)).as_slice());
                o.text(" }, [])");
            },
            NodeKind::ThematicBreak => o.text("h(\"hr\", {}, [])"),
            NodeKind::Code { is_block, lang } => {
                if !is_block {
                    o.text("h(CodeInline, {}, [");
                } else {
                    match lang {
                        Some(tag) => {
                            o.text("h(CodeBlock, { lang: ");
                            o.quoted(slice_of(s, tag));
                            o.text(" }, [");
                        },
                        None => o.text("h(CodeBlock, {}, ["),
                    }
                }
                self.lower_raw_parts(o, &n.kids);
                o.text("])");
            },
            NodeKind::Math { is_block } => {
                if is_block {
                    o.text("h(Tex, { display: true }, [");
                } else {
                    o.text("h(Tex, {}, [");
                }
                self.lower_raw_parts(o, &n.kids);
                o.text("])");
            },
            _ => {},
        }
    }

    /// Write a heading.
    fn lower_heading(&self, o: &mut Output, n: &Node, level: u8)
        requires
            self.wf(),
        ensures
            final(o).written() == heading(self.s(), old(o).written(), n.tree(), level),
            is_faithful(self.s(), old(o).written()) ==> is_faithful(self.s(), final(o).written()),
        decreases n, 0int, 18int, 0int,
    {
        o.text("h(Heading, { rank: ");
        let mut digits: Vec<u8> = Vec::new();
        digits.push(digit_of(level));
        assert(digits@ =~= rank(level));
        proof {
            ascii_is_valid(digits@);
        }
        o.bytes(digits.as_slice());
        let from: usize = start_of_children(&n.kids);
        if from == 1 {
            assert(n.tree().kids[0] == n.kids@[0].tree());
            self.more_props(o, &n.kids[0].kids);
        }
        o.text(" }, [");
        self.lower_children(o, &n.kids, from, false, false);
        o.text("])");
    }

    /// Write a list item.
    fn lower_list_item(&self, o: &mut Output, n: &Node, list: NotaListKind)
        requires
            self.wf(),
        ensures
            final(o).written() == list_item(self.s(), old(o).written(), n.tree(), list),
            is_faithful(self.s(), old(o).written()) ==> is_faithful(self.s(), final(o).written()),
        decreases n, 0int, 18int, 0int,
    {
        match list {
            NotaListKind::Unordered => o.text("h(\"nota-ul-li\", "),
            NotaListKind::Ordered => o.text("h(\"nota-ol-li\", "),
        }
        let from: usize = start_of_children(&n.kids);
        if from == 1 {
            assert(n.tree().kids[0] == n.kids@[0].tree());
            self.lower_props(o, &n.kids[0]);
        } else {
            o.text("{}");
        }
        o.text(", [");
        self.lower_children(o, &n.kids, from, false, false);
        o.text("])");
    }

    /// Write a document-state sugar.
    fn lower_doc_state(&self, o: &mut Output, n: &Node, sugar: NotaDocStateKind, label: Span)
        requires
            self.wf(),
        ensures
            final(o).written() == doc_state(self.s(), old(o).written(), n.tree(), sugar, label),
            is_faithful(self.s(), old(o).written()) ==> is_faithful(self.s(), final(o).written()),
        decreases n, 0int, 18int, 0int,
    {
        match sugar {
            NotaDocStateKind::Label => o.text("h(Label, { id: "),
            NotaDocStateKind::Ref => o.text("h(Ref, { id: "),
            NotaDocStateKind::FootnoteMark => o.text("h(FootnoteMark, { label: "),
            NotaDocStateKind::FootnoteText => o.text("h(FootnoteText, { label: "),
        }
        o.quoted(slice_of(bytes_of_source(self.source), label));
        if n.kids.len() < 2 {
            o.text(" }, [])");
        } else {
            assert(n.tree().kids[0] == n.kids@[0].tree());
            assert(n.tree().kids[1] == n.kids@[1].tree());
            self.more_props(o, &n.kids[0].kids);
            o.text(" }, [");
            self.lower_children(o, &n.kids[1].kids, 0, false, false);
            o.text("])");
        }
    }

    /// Write `h(tag, { props }, [children])`.
    fn lower_element(&self, o: &mut Output, n: &Node, tag: NotaTag, body: BodyForm)
        requires
            self.wf(),
        ensures
            final(o).written() == element(self.s(), old(o).written(), n.tree(), tag, body),
            is_faithful(self.s(), old(o).written()) ==> is_faithful(self.s(), final(o).written()),
        decreases n, 0int, 19int, 0int,
    {
        let s = bytes_of_source(self.source);
        if n.kids.len() < 2 {
            return ;
        }
        o.text("h(");
        match tag {
            NotaTag::Host { name } => o.quoted(slice_of(s, name)),
            NotaTag::Component { name } => o.source(s, name.start, name.end),
            NotaTag::Dynamic => {
                if n.kids.len() >= 3 {
                    self.argument(o, &n.kids[2]);
                }
            },
        }
        o.text(", ");
        self.lower_props(o, &n.kids[0]);
        o.text(", [");
        self.element_body(o, &n.kids[1], tag, body);
        o.text("])");
    }

    /// Write the children of an element.
    fn element_body(&self, o: &mut Output, g: &Node, tag: NotaTag, body: BodyForm)
        requires
            self.wf(),
        ensures
            final(o).written() == element_body(self.s(), old(o).written(), g.tree(), tag, body),
            is_faithful(self.s(), old(o).written()) ==> is_faithful(self.s(), final(o).written()),
        decreases g, 0int, 18int, 0int,
    {
        let s = bytes_of_source(self.source);
        if body == BodyForm::Verbatim {
            self.lower_raw_parts(o, &g.kids);
            return ;
        }
        let braced = body == BodyForm::Braced;
        let kids = settled_children(s, &g.kids, 0, false, braced);
        if tag_is_host(s, tag, "table") {
            self.wrap_bare_rows(o, &g.kids, braced, &kids);
        } else {
            let bare = is_foster_parenting_tag(s, tag);
            self.items(o, &g.kids, 0, braced, &kids, 0, kids.len(), bare, false);
        }
    }

    /// Write `{ props }`.
    fn lower_props(&self, o: &mut Output, g: &Node)
        requires
            self.wf(),
        ensures
            final(o).written() == props(self.s(), old(o).written(), g.tree()),
            is_faithful(self.s(), old(o).written()) ==> is_faithful(self.s(), final(o).written()),
        decreases g, 0int, 18int, 0int,
    {
        let ghost kids = trees(g.kids@);
        if g.kids.len() == 0 {
            o.text("{}");
            return ;
        }
        o.text("{ ");
        let ghost start = o.written();
        let mut k: usize = 0;
        while k < g.kids.len()
            invariant
                self.wf(),
                is_faithful(self.s(), old(o).written()) ==> is_faithful(self.s(), o.written()),
                kids == trees(g.kids@),
                k <= g.kids@.len(),
                prop_list(self.s(), o.written(), kids, k as int) == prop_list(
                    self.s(),
                    start,
                    kids,
                    0,
                ),
            decreases g.kids@.len() - k,
        {
            if k > 0 && g.kids[k].kind != NodeKind::PropsAnchor {
                o.text(", ");
            }
            self.lower_prop(o, &g.kids[k]);
            k = k + 1;
        }
        o.text(" }");
    }

    /// Write properties behind others.
    fn more_props(&self, o: &mut Output, kids: &Vec<Node>)
        requires
            self.wf(),
        ensures
            final(o).written() == more_props(self.s(), old(o).written(), trees(kids@), 0),
            is_faithful(self.s(), old(o).written()) ==> is_faithful(self.s(), final(o).written()),
        decreases kids, kids.len() as int, 5int, 0int,
    {
        let ghost all = trees(kids@);
        let ghost start = o.written();
        let mut k: usize = 0;
        while k < kids.len()
            invariant
                self.wf(),
                is_faithful(self.s(), old(o).written()) ==> is_faithful(self.s(), o.written()),
                all == trees(kids@),
                k <= kids@.len(),
                more_props(self.s(), o.written(), all, k as int) == more_props(
                    self.s(),
                    start,
                    all,
                    0,
                ),
            decreases kids@.len() - k,
        {
            assert(all[k as int] == kids@[k as int].tree());
            if kids[k].kind != NodeKind::PropsAnchor {
                o.text(", ");
                self.lower_prop(o, &kids[k]);
            }
            k = k + 1;
        }
    }

    /// Write one property.
    fn lower_prop(&self, o: &mut Output, p: &Node)
        requires
            self.wf(),
        ensures
            final(o).written() == prop(self.s(), old(o).written(), p.tree()),
            is_faithful(self.s(), old(o).written()) ==> is_faithful(self.s(), final(o).written()),
        decreases p, 0int, 10int, 0int,
    {
        match p.kind {
            NodeKind::Field { key, quoted } => {
                if p.kids.len() > 0 {
                    self.prop_key(o, key, quoted);
                    o.text(": ");
                    self.lower_form(o, &p.kids[0]);
                }
            },
            NodeKind::Shorthand => o.source(bytes_of_source(self.source), p.span.start, p.span.end),
            NodeKind::Spread => {
                if p.kids.len() > 0 {
                    o.text("...");
                    self.lower_form(o, &p.kids[0]);
                }
            },
            _ => {},
        }
    }

    /// Write a property key.
    fn prop_key(&self, o: &mut Output, key: Span, quoted: bool)
        requires
            self.wf(),
        ensures
            final(o).written() == prop_key(self.s(), old(o).written(), key, quoted),
            is_faithful(self.s(), old(o).written()) ==> is_faithful(self.s(), final(o).written()),
    {
        let s = bytes_of_source(self.source);
        let name = name_of_key(key, quoted);
        if is_identifier_name(self.source, name) {
            o.source(s, name.start, name.end);
        } else if quoted {
            o.bytes(slice_of(s, key));
        } else {
            o.quoted(slice_of(s, name));
        }
    }

    /// Write `Fragment(children)`.
    fn lower_fragment(&self, o: &mut Output, n: &Node, braced: bool)
        requires
            self.wf(),
        ensures
            final(o).written() == fragment(self.s(), old(o).written(), n.tree(), braced),
            is_faithful(self.s(), old(o).written()) ==> is_faithful(self.s(), final(o).written()),
        decreases n, 0int, 19int, 0int,
    {
        o.text("Fragment(");
        self.lower_children(o, &n.kids, 0, braced, false);
        o.text(")");
    }

    /// Write the children from `from` on.
    fn lower_children(&self, o: &mut Output, kids: &Vec<Node>, from: usize, braced: bool, comma: bool)
        requires
            self.wf(),
        ensures
            final(o).written() == children(
                self.s(),
                old(o).written(),
                trees(kids@),
                from as int,
                braced,
                comma,
            ),
            is_faithful(self.s(), old(o).written()) ==> is_faithful(self.s(), final(o).written()),
        decreases kids, kids.len() - from, 6int, 0int,
    {
        let ps = settled_children(bytes_of_source(self.source), kids, from, false, braced);
        self.items(o, kids, from, braced, &ps, 0, ps.len(), false, comma);
    }

    /// Write the pieces from `first` to `n` of the children from `from` on.
    fn items(
        &self,
        o: &mut Output,
        kids: &Vec<Node>,
        from: usize,
        braced: bool,
        ps: &Vec<Child<usize>>,
        first: usize,
        n: usize,
        bare: bool,
        comma: bool,
    )
        requires
            self.wf(),
            first <= n <= ps@.len(),
            texts_are_valid(pieces(ps@)),
        ensures
            final(o).written() == items(
                self.s(),
                old(o).written(),
                trees(kids@),
                from as int,
                braced,
                pieces(ps@),
                first as int,
                n as int,
                bare,
                comma,
            ),
            is_faithful(self.s(), old(o).written()) ==> is_faithful(self.s(), final(o).written()),
        decreases kids, kids.len() - from, 4int, n - first,
    {
        let ghost all = trees(kids@);
        let ghost q = pieces(ps@);
        let ghost start = o.written();
        let mut k: usize = first;
        let mut sep: bool = comma;
        while k < n
            invariant
                self.wf(),
                is_faithful(self.s(), old(o).written()) ==> is_faithful(self.s(), o.written()),
                all == trees(kids@),
                q == pieces(ps@),
                texts_are_valid(q),
                first <= k <= n <= ps@.len(),
                items(
                    self.s(),
                    o.written(),
                    all,
                    from as int,
                    braced,
                    q,
                    k as int,
                    n as int,
                    bare,
                    sep,
                ) == items(
                    self.s(),
                    start,
                    all,
                    from as int,
                    braced,
                    q,
                    first as int,
                    n as int,
                    bare,
                    comma,
                ),
            decreases n - k,
        {
            assert(q[k as int] == ps@[k as int].piece());
            if bare && is_whitespace_text(bytes_of_source(self.source), kids, &ps[k]) {
                k = k + 1;
                continue ;
            }
            if sep {
                o.text(", ");
            }
            self.item(o, kids, from, braced, &ps[k]);
            sep = true;
            k = k + 1;
        }
    }

    /// Write one child of those from `from` on.
    fn item(&self, o: &mut Output, kids: &Vec<Node>, from: usize, braced: bool, p: &Child<usize>)
        requires
            self.wf(),
            p.piece() matches Piece::Text(t) ==> valid_utf8(t),
        ensures
            final(o).written() == item(
                self.s(),
                old(o).written(),
                trees(kids@),
                from as int,
                braced,
                p.piece(),
            ),
            is_faithful(self.s(), old(o).written()) ==> is_faithful(self.s(), final(o).written()),
        decreases kids, kids.len() - from, 3int, 0int,
    {
        let ghost all = trees(kids@);
        match p {
            Child::Text(text) => o.quoted(text.as_slice()),
            Child::Elem(i) => {
                let i: usize = *i;
                if from <= i && i < kids.len() {
                    assert(all[i as int] == kids@[i as int].tree());
                    if node_is_statement(&kids[i]) {
                        o.text("(() => { ");
                        let j: usize = statement_run_end(kids, i);
                        proof {
                            statements_end_bounds(all, i as int);
                        }
                        self.statement_run(o, kids, i, j);
                        o.text("return Fragment(");
                        self.lower_children(o, kids, j, braced, false);
                        o.text("); })()");
                    } else {
                        self.lower_form(o, &kids[i]);
                    }
                }
            },
        }
    }

    /// Write the pieces of a table's children.
    fn wrap_bare_rows(&self, o: &mut Output, kids: &Vec<Node>, braced: bool, ps: &Vec<Child<usize>>)
        requires
            self.wf(),
            texts_are_valid(pieces(ps@)),
        ensures
            final(o).written() == table_items(
                self.s(),
                old(o).written(),
                trees(kids@),
                braced,
                pieces(ps@),
                0,
                false,
            ),
            is_faithful(self.s(), old(o).written()) ==> is_faithful(self.s(), final(o).written()),
        decreases kids, kids.len() as int, 5int, 0int,
    {
        let s = bytes_of_source(self.source);
        let ghost all = trees(kids@);
        let ghost q = pieces(ps@);
        let ghost start = o.written();
        let mut k: usize = 0;
        let mut sep: bool = false;
        while k < ps.len()
            invariant
                self.wf(),
                is_faithful(self.s(), old(o).written()) ==> is_faithful(self.s(), o.written()),
                s@ == self.s(),
                valid_utf8(s@),
                all == trees(kids@),
                q == pieces(ps@),
                texts_are_valid(q),
                k <= ps@.len(),
                table_items(self.s(), o.written(), all, braced, q, k as int, sep) == table_items(
                    self.s(),
                    start,
                    all,
                    braced,
                    q,
                    0,
                    false,
                ),
            decreases ps@.len() - k,
        {
            assert(q[k as int] == ps@[k as int].piece());
            if is_whitespace_text(bytes_of_source(self.source), kids, &ps[k]) {
                k = k + 1;
                continue ;
            }
            if sep {
                o.text(", ");
            }
            sep = true;
            if is_table_row(s, kids, &ps[k]) {
                let e: usize = row_run_end(s, kids, ps, k);
                proof {
                    rows_end_bounds(s@, all, q, k as int);
                }
                o.text("h(\"tbody\", {}, [");
                self.items(o, kids, 0, braced, ps, k, e, true, false);
                o.text("])");
                k = e;
            } else {
                self.item(o, kids, 0, braced, &ps[k]);
                k = k + 1;
            }
        }
    }

    /// Write raw runs and armed forms.
    fn lower_raw_parts(&self, o: &mut Output, kids: &Vec<Node>)
        requires
            self.wf(),
        ensures
            final(o).written() == parts(self.s(), old(o).written(), trees(kids@), 0),
            is_faithful(self.s(), old(o).written()) ==> is_faithful(self.s(), final(o).written()),
        decreases kids, kids.len() as int, 5int, 0int,
    {
        let s = bytes_of_source(self.source);
        let ghost all = trees(kids@);
        let ghost start = o.written();
        let mut k: usize = 0;
        while k < kids.len()
            invariant
                self.wf(),
                is_faithful(self.s(), old(o).written()) ==> is_faithful(self.s(), o.written()),
                s@ == self.s(),
                valid_utf8(s@),
                all == trees(kids@),
                k <= kids@.len(),
                parts(self.s(), o.written(), all, k as int) == parts(self.s(), start, all, 0),
            decreases kids@.len() - k,
        {
            assert(all[k as int] == kids@[k as int].tree());
            if k > 0 {
                o.text(", ");
            }
            if kids[k].kind == NodeKind::Raw {
                self.raw_text(o, slice_of(s, kids[k].span));
            } else {
                self.lower_form(o, &kids[k]);
            }
            k = k + 1;
        }
    }

    /// Write raw text.
    fn raw_text(&self, o: &mut Output, t: &[u8])
        requires
            valid_utf8(t@),
        ensures
            final(o).written() == raw_text(old(o).written(), t@),
            is_faithful(self.s(), old(o).written()) ==> is_faithful(self.s(), final(o).written()),
    {
        if has_template_breaker(t) {
            o.quoted(t);
        } else {
            o.text("String.raw`");
            o.bytes(t);
            o.text("`");
        }
    }

    /// Write JavaScript where an argument may stand.
    fn argument(&self, o: &mut Output, n: &Node)
        requires
            self.wf(),
        ensures
            final(o).written() == argument(self.s(), old(o).written(), n.tree()),
            is_faithful(self.s(), old(o).written()) ==> is_faithful(self.s(), final(o).written()),
        decreases n, 0int, 17int, 0int,
    {
        self.grouped(o, n, n.kind == NodeKind::Js { tier: ExprTier::Sequence });
    }

    /// Write JavaScript, in parentheses or not.
    fn grouped(&self, o: &mut Output, n: &Node, parens: bool)
        requires
            self.wf(),
        ensures
            final(o).written() == grouped(self.s(), old(o).written(), n.tree(), parens),
            is_faithful(self.s(), old(o).written()) ==> is_faithful(self.s(), final(o).written()),
        decreases n, 0int, 16int, 0int,
    {
        if parens {
            o.text("(");
            self.splice(o, &n.kids, n.span.start, n.span.end);
            o.text(")");
        } else {
            self.splice(o, &n.kids, n.span.start, n.span.end);
        }
    }

    /// Write the source from `a` to `e` with the forms in it lowered in place.
    fn splice(&self, o: &mut Output, kids: &Vec<Node>, a: u32, e: u32)
        requires
            self.wf(),
        ensures
            final(o).written() == splice(
                self.s(),
                old(o).written(),
                trees(kids@),
                0,
                a as int,
                e as int,
            ),
            is_faithful(self.s(), old(o).written()) ==> is_faithful(self.s(), final(o).written()),
        decreases kids, kids.len() as int, 5int, 0int,
    {
        let s = bytes_of_source(self.source);
        let ghost all = trees(kids@);
        let ghost start = o.written();
        let mut k: usize = 0;
        let mut p: u32 = a;
        while k < kids.len()
            invariant
                self.wf(),
                is_faithful(self.s(), old(o).written()) ==> is_faithful(self.s(), o.written()),
                s@ == self.s(),
                valid_utf8(s@),
                all == trees(kids@),
                k <= kids@.len(),
                splice(self.s(), o.written(), all, k as int, p as int, e as int) == splice(
                    self.s(),
                    start,
                    all,
                    0,
                    a as int,
                    e as int,
                ),
            decreases kids@.len() - k,
        {
            assert(all[k as int] == kids@[k as int].tree());
            let m = &kids[k];
            if m.kind == NodeKind::Markup && p <= m.span.start && m.span.end <= e {
                o.source(s, p, m.span.start);
                self.markup(o, m);
                p = m.span.end;
            }
            k = k + 1;
        }
        o.source(s, p, e);
    }

    /// Write a form inside JavaScript.
    fn markup(&self, o: &mut Output, m: &Node)
        requires
            self.wf(),
        ensures
            final(o).written() == markup(self.s(), old(o).written(), m.tree()),
            is_faithful(self.s(), old(o).written()) ==> is_faithful(self.s(), final(o).written()),
        decreases m, 0int, 10int, 0int,
    {
        if m.kids.len() == 0 {
            return ;
        }
        let f = &m.kids[0];
        assert(m.tree().kids[0] == f.tree());
        assert(f.kids@.len() > 0 ==> f.tree().kids[0] == f.kids@[0].tree());
        let parens = match f.kind {
            NodeKind::If => true,
            NodeKind::Interpolation => f.kids.len() > 0 && !f.kids[0].kind.can_be_object(),
            _ => false,
        };
        if parens {
            o.text("(");
            self.lower_form(o, f);
            o.text(")");
        } else {
            self.lower_form(o, f);
        }
    }

    /// Write a conditional.
    fn lower_if(&self, o: &mut Output, n: &Node)
        requires
            self.wf(),
        ensures
            final(o).written() == conditional(self.s(), old(o).written(), n.tree()),
            is_faithful(self.s(), old(o).written()) ==> is_faithful(self.s(), final(o).written()),
        decreases n, 0int, 19int, 0int,
    {
        if n.kids.len() < 2 {
            return ;
        }
        let test = n.kids[0].kind;
        self.grouped(
            o,
            &n.kids[0],
            test == NodeKind::Js { tier: ExprTier::Assignment } || test == NodeKind::Js {
                tier: ExprTier::Sequence,
            },
        );
        o.text(" ? ");
        self.lower_fragment(o, &n.kids[1], false);
        o.text(" : ");
        if n.kids.len() >= 3 {
            if n.kids[2].kind == NodeKind::If {
                self.lower_if(o, &n.kids[2]);
            } else {
                self.lower_fragment(o, &n.kids[2], false);
            }
        } else {
            o.text("null");
        }
    }

    /// Write a loop.
    fn lower_for(&self, o: &mut Output, n: &Node)
        requires
            self.wf(),
        ensures
            final(o).written() == iteration(self.s(), old(o).written(), n.tree()),
            is_faithful(self.s(), old(o).written()) ==> is_faithful(self.s(), final(o).written()),
        decreases n, 0int, 19int, 0int,
    {
        if n.kids.len() < 3 {
            return ;
        }
        let text = slice_of(bytes_of_source(self.source), n.span);
        let index = fresh_index_name(text);
        self.grouped(o, &n.kids[1], !n.kids[1].kind.can_be_object());
        o.text(".map((");
        self.grouped(o, &n.kids[0], false);
        o.text(", ");
        o.bytes(index.as_slice());
        o.text(") => Fragment({ key: ");
        o.bytes(index.as_slice());
        o.text(" }");
        self.loop_body(o, &n.kids[2]);
    }

    /// Write the children of a loop, and the end of the call that makes them.
    fn loop_body(&self, o: &mut Output, g: &Node)
        requires
            self.wf(),
        ensures
            final(o).written() == loop_body(self.s(), old(o).written(), g.tree()),
            is_faithful(self.s(), old(o).written()) ==> is_faithful(self.s(), final(o).written()),
        decreases g, 0int, 10int, 0int,
    {
        self.lower_children(o, &g.kids, 0, false, true);
        o.text("))");
    }

    /// Write the statements from `from` to `j`.
    fn statement_run(&self, o: &mut Output, kids: &Vec<Node>, from: usize, j: usize)
        requires
            self.wf(),
            from <= j <= kids@.len(),
        ensures
            final(o).written() == statements(
                self.s(),
                old(o).written(),
                trees(kids@),
                from as int,
                j as int,
            ),
            is_faithful(self.s(), old(o).written()) ==> is_faithful(self.s(), final(o).written()),
        decreases kids, kids.len() - from, 2int, 0int,
    {
        let ghost all = trees(kids@);
        let ghost start = o.written();
        let mut i: usize = from;
        while i < j
            invariant
                self.wf(),
                is_faithful(self.s(), old(o).written()) ==> is_faithful(self.s(), o.written()),
                all == trees(kids@),
                from <= i <= j <= kids@.len(),
                statements(self.s(), o.written(), all, i as int, j as int) == statements(
                    self.s(),
                    start,
                    all,
                    from as int,
                    j as int,
                ),
            decreases j - i,
        {
            assert(all[i as int] == kids@[i as int].tree());
            self.statement(o, &kids[i]);
            o.text(" ");
            i = i + 1;
        }
    }

    /// Write one statement.
    fn statement(&self, o: &mut Output, n: &Node)
        requires
            self.wf(),
        ensures
            final(o).written() == statement(self.s(), old(o).written(), n.tree()),
            is_faithful(self.s(), old(o).written()) ==> is_faithful(self.s(), final(o).written()),
        decreases n, 0int, 10int, 0int,
    {
        let s = bytes_of_source(self.source);
        let end: u32 = n.span.end;
        match n.kind {
            NodeKind::Statement { class: _, attach: Some(at) } => {
                self.splice(o, &n.kids, n.span.start, at.arg_end);
                o.text(", ");
                o.quoted(slice_of(s, at.name));
                o.source(s, at.close, end);
            },
            _ => self.splice(o, &n.kids, n.span.start, end),
        }
        if !(end > 0 && get(s, end as usize - 1) == Some(SEMICOLON)) {
            o.text(";");
        }
    }

    /// Write the top-level statements that are hoisted, or those that are not.
    fn route_statements(&self, o: &mut Output, nodes: &Vec<Node>, hoisted: bool, indent: &str)
        requires
            self.wf(),
        ensures
            final(o).written() == routed(
                self.s(),
                old(o).written(),
                trees(nodes@),
                0,
                hoisted,
                utf8(indent),
            ),
            is_faithful(self.s(), old(o).written()) ==> is_faithful(self.s(), final(o).written()),
    {
        let ghost all = trees(nodes@);
        let ghost start = o.written();
        let mut k: usize = 0;
        while k < nodes.len()
            invariant
                self.wf(),
                is_faithful(self.s(), old(o).written()) ==> is_faithful(self.s(), o.written()),
                all == trees(nodes@),
                k <= nodes@.len(),
                routed(self.s(), o.written(), all, k as int, hoisted, utf8(indent)) == routed(
                    self.s(),
                    start,
                    all,
                    0,
                    hoisted,
                    utf8(indent),
                ),
            decreases nodes@.len() - k,
        {
            assert(all[k as int] == nodes@[k as int].tree());
            if node_is_statement(&nodes[k]) && node_is_hoisted(&nodes[k]) == hoisted {
                o.text(indent);
                self.statement(o, &nodes[k]);
                o.text("\n");
            }
            k = k + 1;
        }
    }

    /// Write a whole document.
    pub fn document(&self, nodes: &Vec<Node>) -> (o: Output)
        requires
            self.wf(),
        ensures
            o.written() == crate::hyper::document(self.s(), trees(nodes@)),
            is_faithful(self.s(), o.written()),
    {
        let mut o = Output::new();
        assert(utf8("") =~= Seq::<u8>::empty()) by {
            reveal_strlit("");
        }
        self.route_statements(&mut o, nodes, true, "");
        o.text("export default function Doc() {\n");
        self.route_statements(&mut o, nodes, false, "  ");
        o.text("  return decode(Fragment(");
        let ps = settled_children(bytes_of_source(self.source), nodes, 0, true, false);
        self.items(&mut o, nodes, 0, false, &ps, 0, ps.len(), false, false);
        o.text("));\n}\n");
        o
    }

    /// Write one form as an expression.
    pub fn expression(&self, form: &Node) -> (o: Output)
        requires
            self.wf(),
        ensures
            o.written() == node(self.s(), blank(), form.tree()),
            is_faithful(self.s(), o.written()),
    {
        let mut o = Output::new();
        self.lower_form(&mut o, form);
        o
    }
}

/// Does a statement stand at the top of the module?
pub fn node_is_hoisted(n: &Node) -> (yes: bool)
    ensures
        yes == is_hoisted(n.tree()),
{
    match n.kind {
        NodeKind::Statement { class, attach: _ } => class != StatementClass::Plain,
        _ => false,
    }
}

/// A level as a digit.
pub fn digit_of(level: u8) -> (d: u8)
    ensures
        seq![d] == rank(level),
{
    if level <= 9 {
        0x30 + level
    } else {
        DIGIT_9
    }
}

} // verus!
