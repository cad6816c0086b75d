//! The names that lowered markup declares or refers to.
//!
//! A module binding of one of these names would shadow it and break the emitted module, so such a
//! binding is reported.

use vstd::prelude::*;
use crate::bytes::{utf8, Span};
use crate::output::{same_bytes, slice, slice_of};
use crate::tree::{trees, Node, NodeKind, StatementClass, Tree};

verus! {

/// What markup is lowered to.
#[derive(Clone, Copy, Debug, PartialEq, Eq, Structural)]
pub enum Surface {
    /// Calls of `h`, `Fragment` and `decode`.
    Hyperscript,
    /// JSX elements.
    Jsx,
}

/// The bytes of each name.
pub open spec fn spelled(names: Seq<&str>) -> Seq<Seq<u8>> {
    names.map_values(|name: &str| utf8(name))
}

/// The structural components of the runtime.
pub open spec fn structural_names() -> Seq<Seq<u8>> {
    seq![utf8("NotaDoc"), utf8("Reforest"), utf8("UlLi"), utf8("OlLi"), utf8("Attrs")]
}

/// The flow components of the view library.
pub open spec fn solid_names() -> Seq<Seq<u8>> {
    seq![utf8("For"), utf8("Show")]
}

/// The components of the view library's browser half.
pub open spec fn solid_web_names() -> Seq<Seq<u8>> {
    seq![utf8("Dynamic")]
}

/// The ambient components that spans and sugars lower to.
pub open spec fn prelude_names() -> Seq<Seq<u8>> {
    seq![
        utf8("CodeInline"),
        utf8("CodeBlock"),
        utf8("Tex"),
        utf8("Heading"),
        utf8("Label"),
        utf8("Ref"),
    ]
}

/// Every name of the JSX surface, the document component first.
pub open spec fn emit_names() -> Seq<Seq<u8>> {
    seq![utf8("Doc")] + structural_names() + solid_names() + solid_web_names() + prelude_names()
}

/// Every name of the hyperscript surface, the document component first.
pub open spec fn runtime_names() -> Seq<Seq<u8>> {
    seq![
        utf8("Doc"),
        utf8("h"),
        utf8("Fragment"),
        utf8("decode"),
        utf8("inlineComponent"),
        utf8("blockComponent"),
    ]
}

/// The names that a surface reserves.
pub open spec fn surface_names(surface: Surface) -> Seq<Seq<u8>> {
    match surface {
        Surface::Hyperscript => runtime_names(),
        Surface::Jsx => emit_names(),
    }
}

/// The host elements whose interior is flow content.
pub open spec fn flow_names() -> Seq<Seq<u8>> {
    seq![
        utf8("section"),
        utf8("article"),
        utf8("aside"),
        utf8("nav"),
        utf8("header"),
        utf8("footer"),
        utf8("main"),
        utf8("div"),
        utf8("blockquote"),
        utf8("figure"),
        utf8("td"),
        utf8("th"),
    ]
}

/// The structural components of the runtime.
pub fn structural_emit_names() -> (names: Vec<&'static str>)
    ensures
        spelled(names@) == structural_names(),
{
    let names = vec!["NotaDoc", "Reforest", "UlLi", "OlLi", "Attrs"];
    assert(spelled(names@) =~= structural_names());
    names
}

/// The flow components of the view library.
pub fn solid_emit_names() -> (names: Vec<&'static str>)
    ensures
        spelled(names@) == solid_names(),
{
    let names = vec!["For", "Show"];
    assert(spelled(names@) =~= solid_names());
    names
}

/// The components of the view library's browser half.
pub fn solid_web_emit_names() -> (names: Vec<&'static str>)
    ensures
        spelled(names@) == solid_web_names(),
{
    let names = vec!["Dynamic"];
    assert(spelled(names@) =~= solid_web_names());
    names
}

/// The ambient components that spans and sugars lower to.
pub fn prelude_emit_names() -> (names: Vec<&'static str>)
    ensures
        spelled(names@) == prelude_names(),
{
    let names = vec!["CodeInline", "CodeBlock", "Tex", "Heading", "Label", "Ref"];
    assert(spelled(names@) =~= prelude_names());
    names
}

/// The host elements whose interior is flow content.
pub fn flow_tags() -> (names: Vec<&'static str>)
    ensures
        spelled(names@) == flow_names(),
{
    let names = vec![
        "section",
        "article",
        "aside",
        "nav",
        "header",
        "footer",
        "main",
        "div",
        "blockquote",
        "figure",
        "td",
        "th",
    ];
    assert(spelled(names@) =~= flow_names());
    names
}

/// Every name of the JSX surface, the document component first.
pub fn reserved_emit_names() -> (names: Vec<&'static str>)
    ensures
        spelled(names@) == emit_names(),
{
    let mut names = vec!["Doc"];
    let mut structural = structural_emit_names();
    let mut solid = solid_emit_names();
    let mut web = solid_web_emit_names();
    let mut prelude = prelude_emit_names();
    let ghost (a, b, c, d) = (structural@, solid@, web@, prelude@);
    names.append(&mut structural);
    names.append(&mut solid);
    names.append(&mut web);
    names.append(&mut prelude);
    assert(names@ =~= seq!["Doc"] + a + b + c + d);
    assert(spelled(names@) =~= seq![utf8("Doc")] + spelled(a) + spelled(b) + spelled(c) + spelled(
        d,
    ));
    names
}

/// Every name of the hyperscript surface, the document component first.
pub fn reserved_runtime_names() -> (names: Vec<&'static str>)
    ensures
        spelled(names@) == runtime_names(),
{
    let names = vec!["Doc", "h", "Fragment", "decode", "inlineComponent", "blockComponent"];
    assert(spelled(names@) =~= runtime_names());
    names
}

/// The names of the JSX surface, by where they are bound.
pub struct NotaEmitSurface {
    /// The structural components of the runtime.
    pub structural: Vec<&'static str>,
    /// The flow components of the view library.
    pub solid: Vec<&'static str>,
    /// The components of the view library's browser half.
    pub solid_web: Vec<&'static str>,
    /// The ambient components.
    pub prelude: Vec<&'static str>,
    /// Every name of the surface.
    pub reserved: Vec<&'static str>,
    /// The host elements whose interior is flow content.
    pub flow_tags: Vec<&'static str>,
}

/// The names of the JSX surface, by where they are bound.
pub fn emit_surface() -> (surface: NotaEmitSurface)
    ensures
        spelled(surface.structural@) == structural_names(),
        spelled(surface.solid@) == solid_names(),
        spelled(surface.solid_web@) == solid_web_names(),
        spelled(surface.prelude@) == prelude_names(),
        spelled(surface.reserved@) == emit_names(),
        spelled(surface.flow_tags@) == flow_names(),
{
    NotaEmitSurface {
        structural: structural_emit_names(),
        solid: solid_emit_names(),
        solid_web: solid_web_emit_names(),
        prelude: prelude_emit_names(),
        reserved: reserved_emit_names(),
        flow_tags: flow_tags(),
    }
}

/// Is `name` one of `names`?
pub fn is_listed(names: &Vec<&'static str>, name: &[u8]) -> (yes: bool)
    ensures
        yes == spelled(names@).contains(name@),
{
    let mut i: usize = 0;
    while i < names.len()
        invariant
            i <= names@.len(),
            forall|k: int| 0 <= k < i ==> #[trigger] spelled(names@)[k] != name@,
        decreases names@.len() - i,
    {
        if same_bytes(names[i].as_bytes(), name) {
            assert(spelled(names@)[i as int] == name@);
            return true;
        }
        i = i + 1;
    }
    false
}

/// Is `name` part of the JSX surface?
pub fn is_reserved_emit_name(name: &str) -> (yes: bool)
    ensures
        yes == emit_names().contains(utf8(name)),
{
    is_listed(&reserved_emit_names(), name.as_bytes())
}

/// The names that a surface reserves.
pub fn reserved_names(surface: Surface) -> (names: Vec<&'static str>)
    ensures
        spelled(names@) == surface_names(surface),
{
    match surface {
        Surface::Hyperscript => reserved_runtime_names(),
        Surface::Jsx => reserved_emit_names(),
    }
}

/// What a statement collides with.
#[derive(Clone, Copy, Debug, PartialEq, Eq, Structural)]
pub enum CollisionKind {
    /// It binds a reserved name.
    ReservedName,
    /// It is a second default export.
    DuplicateDefault,
}

/// A collision with what the lowering emits.
#[derive(Clone, Copy, Debug, PartialEq, Eq, Structural)]
pub struct Collision {
    /// What it is.
    pub kind: CollisionKind,
    /// The name, or the statement.
    pub span: Span,
}

/// Is a node a binding of one of `names`?
pub open spec fn binds_reserved(s: Seq<u8>, names: Seq<Seq<u8>>, n: Tree) -> bool {
    n.kind == NodeKind::Binding && names.contains(slice(s, n.span))
}

/// The reserved names that the bindings from `k` on bind, after `found`.
pub open spec fn reserved_bindings(
    s: Seq<u8>,
    names: Seq<Seq<u8>>,
    found: Seq<Collision>,
    kids: Seq<Tree>,
    k: int,
) -> Seq<Collision>
    decreases kids.len() - k,
{
    if k >= kids.len() {
        found
    } else {
        let more = if binds_reserved(s, names, kids[k]) {
            found.push(Collision { kind: CollisionKind::ReservedName, span: kids[k].span })
        } else {
            found
        };
        reserved_bindings(s, names, more, kids, k + 1)
    }
}

/// The collisions of one top-level node, after `found`: a default export is one itself, and any
/// other statement has one for each reserved name that it binds.
pub open spec fn node_collisions(
    s: Seq<u8>,
    names: Seq<Seq<u8>>,
    found: Seq<Collision>,
    n: Tree,
) -> Seq<Collision> {
    match n.kind {
        NodeKind::Statement { class, attach: _ } => if class == StatementClass::ExportDefault {
            found.push(Collision { kind: CollisionKind::DuplicateDefault, span: n.span })
        } else {
            reserved_bindings(s, names, found, n.kids, 0)
        },
        _ => found,
    }
}

/// The collisions of the top-level nodes from `k` on, after `found`.
pub open spec fn collisions(
    s: Seq<u8>,
    names: Seq<Seq<u8>>,
    found: Seq<Collision>,
    nodes: Seq<Tree>,
    k: int,
) -> Seq<Collision>
    decreases nodes.len() - k,
{
    if k >= nodes.len() {
        found
    } else {
        collisions(s, names, node_collisions(s, names, found, nodes[k]), nodes, k + 1)
    }
}

/// Is a collision with a reserved name at a place that spells one?
pub open spec fn spells_reserved(s: Seq<u8>, names: Seq<Seq<u8>>, c: Collision) -> bool {
    c.kind == CollisionKind::ReservedName ==> names.contains(slice(s, c.span))
}

/// The reserved names that are reported are spelled where they are reported.
proof fn reserved_bindings_spelled(
    s: Seq<u8>,
    names: Seq<Seq<u8>>,
    found: Seq<Collision>,
    kids: Seq<Tree>,
    k: int,
)
    requires
        0 <= k <= kids.len(),
        forall|i: int| 0 <= i < found.len() ==> spells_reserved(s, names, #[trigger] found[i]),
    ensures
        ({
            let all = reserved_bindings(s, names, found, kids, k);
            &&& all.len() >= found.len()
            &&& forall|i: int|
                0 <= i < all.len() ==> spells_reserved(s, names, #[trigger] all[i])
            &&& all.len() == found.len() <==> forall|j: int|
                k <= j < kids.len() ==> !binds_reserved(s, names, #[trigger] kids[j])
        }),
    decreases kids.len() - k,
{
    if k < kids.len() {
        let more = if binds_reserved(s, names, kids[k]) {
            found.push(Collision { kind: CollisionKind::ReservedName, span: kids[k].span })
        } else {
            found
        };
        reserved_bindings_spelled(s, names, more, kids, k + 1);
    }
}

/// Does a top-level node collide with nothing: is it no default export, and does it bind no
/// reserved name?
pub open spec fn is_clean(s: Seq<u8>, names: Seq<Seq<u8>>, t: Tree) -> bool {
    t.kind matches NodeKind::Statement { class, attach: _ } ==> class
        != StatementClass::ExportDefault && forall|j: int|
        0 <= j < t.kids.len() ==> !binds_reserved(s, names, #[trigger] t.kids[j])
}

/// The same of all nodes from `k` on.
pub proof fn collisions_spelled(
    s: Seq<u8>,
    names: Seq<Seq<u8>>,
    found: Seq<Collision>,
    nodes: Seq<Tree>,
    k: int,
)
    requires
        0 <= k <= nodes.len(),
        forall|i: int| 0 <= i < found.len() ==> spells_reserved(s, names, #[trigger] found[i]),
    ensures
        ({
            let all = collisions(s, names, found, nodes, k);
            &&& all.len() >= found.len()
            &&& forall|i: int|
                0 <= i < all.len() ==> spells_reserved(s, names, #[trigger] all[i])
            &&& all.len() == found.len() <==> forall|j: int|
                k <= j < nodes.len() ==> is_clean(s, names, #[trigger] nodes[j])
        }),
    decreases nodes.len() - k,
{
    if k < nodes.len() {
        let next = node_collisions(s, names, found, nodes[k]);
        if nodes[k].kind is Statement {
            reserved_bindings_spelled(s, names, found, nodes[k].kids, 0);
        }
        collisions_spelled(s, names, next, nodes, k + 1);
    }
}

/// Every component that the JSX lowering writes of its own accord is reserved there, and so are the
/// functions that the hyperscript lowering calls; the document component is reserved by both.
pub proof fn written_names_are_reserved()
    ensures
        surface_names(Surface::Jsx).contains(utf8("Doc")),
        surface_names(Surface::Jsx).contains(utf8("NotaDoc")),
        surface_names(Surface::Jsx).contains(utf8("Reforest")),
        surface_names(Surface::Jsx).contains(utf8("UlLi")),
        surface_names(Surface::Jsx).contains(utf8("OlLi")),
        surface_names(Surface::Jsx).contains(utf8("Attrs")),
        surface_names(Surface::Jsx).contains(utf8("For")),
        surface_names(Surface::Jsx).contains(utf8("Show")),
        surface_names(Surface::Jsx).contains(utf8("Dynamic")),
        surface_names(Surface::Jsx).contains(utf8("CodeInline")),
        surface_names(Surface::Jsx).contains(utf8("CodeBlock")),
        surface_names(Surface::Jsx).contains(utf8("Tex")),
        surface_names(Surface::Jsx).contains(utf8("Heading")),
        surface_names(Surface::Jsx).contains(utf8("Label")),
        surface_names(Surface::Jsx).contains(utf8("Ref")),
        surface_names(Surface::Hyperscript).contains(utf8("Doc")),
        surface_names(Surface::Hyperscript).contains(utf8("h")),
        surface_names(Surface::Hyperscript).contains(utf8("Fragment")),
{
    let names = surface_names(Surface::Jsx);
    assert(names[0] == utf8("Doc"));
    assert(names[1] == utf8("NotaDoc"));
    assert(names[2] == utf8("Reforest"));
    assert(names[3] == utf8("UlLi"));
    assert(names[4] == utf8("OlLi"));
    assert(names[5] == utf8("Attrs"));
    assert(names[6] == utf8("For"));
    assert(names[7] == utf8("Show"));
    assert(names[8] == utf8("Dynamic"));
    assert(names[9] == utf8("CodeInline"));
    assert(names[10] == utf8("CodeBlock"));
    assert(names[11] == utf8("Tex"));
    assert(names[12] == utf8("Heading"));
    assert(names[13] == utf8("Label"));
    assert(names[14] == utf8("Ref"));
    let calls = surface_names(Surface::Hyperscript);
    assert(calls[0] == utf8("Doc"));
    assert(calls[1] == utf8("h"));
    assert(calls[2] == utf8("Fragment"));
}

/// A document is clean exactly if it holds no default export of its own and binds no reserved name
/// at the top level; and what is reported as a reserved name is one.
pub proof fn collisions_are_exact(s: Seq<u8>, surface: Surface, nodes: Seq<Tree>)
    ensures
        ({
            let names = surface_names(surface);
            let found = collisions(s, names, Seq::empty(), nodes, 0);
            &&& found.len() == 0 <==> forall|j: int|
                0 <= j < nodes.len() ==> is_clean(s, names, #[trigger] nodes[j])
            &&& forall|i: int|
                0 <= i < found.len() ==> spells_reserved(s, names, #[trigger] found[i])
        }),
{
    collisions_spelled(s, surface_names(surface), Seq::empty(), nodes, 0);
}

/// Add the reserved names that a statement binds.
fn check_bound_names(
    s: &[u8],
    names: &Vec<&'static str>,
    found: &mut Vec<Collision>,
    kids: &Vec<Node>,
)
    ensures
        final(found)@ == reserved_bindings(s@, spelled(names@), old(found)@, trees(kids@), 0),
{
    let ghost start = found@;
    let ghost all = trees(kids@);
    let mut k: usize = 0;
    while k < kids.len()
        invariant
            k <= kids@.len(),
            all == trees(kids@),
            reserved_bindings(s@, spelled(names@), found@, all, k as int) == reserved_bindings(
                s@,
                spelled(names@),
                start,
                all,
                0,
            ),
        decreases kids@.len() - k,
    {
        assert(all[k as int] == kids@[k as int].tree());
        if kids[k].kind == NodeKind::Binding && is_listed(names, slice_of(s, kids[k].span)) {
            found.push(Collision { kind: CollisionKind::ReservedName, span: kids[k].span });
        }
        k = k + 1;
    }
}

/// What the statements of a document collide with, in source order.
pub fn check_reserved_collisions(source: &str, nodes: &Vec<Node>, surface: Surface) -> (found: Vec<
    Collision,
>)
    ensures
        found@ == collisions(
            utf8(source),
            surface_names(surface),
            Seq::empty(),
            trees(nodes@),
            0,
        ),
{
    let s = source.as_bytes();
    let names = reserved_names(surface);
    let ghost all = trees(nodes@);
    let mut found: Vec<Collision> = Vec::new();
    let mut k: usize = 0;
    while k < nodes.len()
        invariant
            k <= nodes@.len(),
            s@ == utf8(source),
            all == trees(nodes@),
            spelled(names@) == surface_names(surface),
            collisions(s@, spelled(names@), found@, all, k as int) == collisions(
                s@,
                spelled(names@),
                Seq::empty(),
                all,
                0,
            ),
        decreases nodes@.len() - k,
    {
        assert(all[k as int] == nodes@[k as int].tree());
        match nodes[k].kind {
            NodeKind::Statement { class, attach: _ } => {
                if class == StatementClass::ExportDefault {
                    found.push(
                        Collision { kind: CollisionKind::DuplicateDefault, span: nodes[k].span },
                    );
                } else {
                    check_bound_names(s, &names, &mut found, &nodes[k].kids);
                }
            },
            _ => {},
        }
        k = k + 1;
    }
    found
}

} // verus!
