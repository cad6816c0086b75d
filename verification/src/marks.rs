//! What a lowering reports beside its text: the source ranges that editors follow into the
//! generated code, and the languages of the fenced code blocks.

use vstd::prelude::*;
use vstd::utf8::{encode_utf8, encode_utf8_valid_utf8, valid_utf8};
use crate::anatomy::{all_sound, forest_holds, holds, is_sound, no_code_in_item, sound_inside};
use crate::bytes::{utf8, Span};
use crate::encoding::slices_are_valid;
use crate::mapping::{NotaMappingKind, NotaMappingMark};
use crate::output::{same_bytes, slice, slice_of};
use crate::tree::{tree_whole, trees, whole, Node, NodeKind, NotaTag, Tree};
use crate::unicode::{all_valid, spellings, strings_of};

verus! {

/// A mark after `found`. An empty range is no mark.
pub open spec fn marked(
    found: Seq<NotaMappingMark>,
    span: Span,
    kind: NotaMappingKind,
) -> Seq<NotaMappingMark> {
    if span.start < span.end {
        found.push(NotaMappingMark { span, kind })
    } else {
        found
    }
}

/// The mark of the `i`-th node below, after `found`.
pub open spec fn kid_marked(found: Seq<NotaMappingMark>, t: Tree, i: int) -> Seq<NotaMappingMark> {
    if i < t.kids.len() {
        marked(found, t.kids[i].span, NotaMappingKind::EmbeddedJs)
    } else {
        found
    }
}

/// The marks of a node itself, after `found`: the name of a component, and embedded JavaScript in
/// a dynamic tag, a property, an interpolation, a condition, a loop's head or a top-level
/// statement. A host element's name is not marked.
pub open spec fn own_marks(found: Seq<NotaMappingMark>, t: Tree, top: bool) -> Seq<NotaMappingMark> {
    match t.kind {
        NodeKind::Element { tag, body: _ } => match tag {
            NotaTag::Host { name: _ } => found,
            NotaTag::Component { name } => marked(
                found,
                name,
                NotaMappingKind::ComponentIdentifier,
            ),
            NotaTag::Dynamic => kid_marked(found, t, 2),
        },
        NodeKind::Field { key: _, quoted: _ } => if t.kids.len() > 0 && t.kids[0].kind is Js {
            kid_marked(found, t, 0)
        } else {
            found
        },
        NodeKind::Shorthand => marked(found, t.span, NotaMappingKind::EmbeddedJs),
        NodeKind::Spread => kid_marked(found, t, 0),
        NodeKind::PropsAnchor => marked(found, t.span, NotaMappingKind::PropsAnchor),
        NodeKind::Interpolation => kid_marked(found, t, 0),
        NodeKind::If => kid_marked(found, t, 0),
        NodeKind::For => kid_marked(kid_marked(found, t, 0), t, 1),
        NodeKind::Statement { class: _, attach: _ } => if top {
            marked(found, t.span, NotaMappingKind::EmbeddedJs)
        } else {
            found
        },
        _ => found,
    }
}

/// The marks of a node and of all below it, after `found`.
pub open spec fn tree_marks(found: Seq<NotaMappingMark>, t: Tree, top: bool) -> Seq<NotaMappingMark>
    decreases t, 0int,
{
    forest_marks(own_marks(found, t, top), t.kids, 0, false)
}

/// The marks of the nodes from `k` on, after `found`.
pub open spec fn forest_marks(
    found: Seq<NotaMappingMark>,
    kids: Seq<Tree>,
    k: int,
    top: bool,
) -> Seq<NotaMappingMark>
    decreases kids, kids.len() - k,
{
    if 0 <= k < kids.len() {
        forest_marks(tree_marks(found, kids[k], top), kids, k + 1, top)
    } else {
        found
    }
}

/// Does `a` come before `b` in the source?
pub open spec fn starts_before(a: NotaMappingMark, b: NotaMappingMark) -> bool {
    a.span.start < b.span.start || (a.span.start == b.span.start && a.span.end < b.span.end)
}

/// Where `m` goes among the first `n` marks: behind the last that does not come after it.
pub open spec fn mark_place(marks: Seq<NotaMappingMark>, m: NotaMappingMark, n: int) -> int
    decreases n,
{
    if 0 < n <= marks.len() && starts_before(m, marks[n - 1]) {
        mark_place(marks, m, n - 1)
    } else {
        n
    }
}

/// The first `n` marks in source order; marks of one range stay as they were.
pub open spec fn source_order(marks: Seq<NotaMappingMark>, n: int) -> Seq<NotaMappingMark>
    decreases n,
{
    if 0 < n <= marks.len() {
        let before = source_order(marks, n - 1);
        let m = marks[n - 1];
        before.insert(mark_place(before, m, before.len() as int), m)
    } else {
        Seq::empty()
    }
}

/// The marks of a document, in source order.
pub open spec fn document_marks(nodes: Seq<Tree>) -> Seq<NotaMappingMark> {
    let found = forest_marks(Seq::empty(), nodes, 0, true);
    source_order(found, found.len() as int)
}

/// Marks in source order: none comes before an earlier one.
pub open spec fn in_source_order(marks: Seq<NotaMappingMark>) -> bool {
    forall|i: int, j: int|
        0 <= i < j < marks.len() ==> !starts_before(#[trigger] marks[j], #[trigger] marks[i])
}

/// A mark goes where those before it do not come after it, and those behind it do.
proof fn mark_place_splits(marks: Seq<NotaMappingMark>, m: NotaMappingMark, n: int)
    requires
        0 <= n <= marks.len(),
        in_source_order(marks),
        forall|i: int| n <= i < marks.len() ==> starts_before(m, #[trigger] marks[i]),
    ensures
        0 <= mark_place(marks, m, n) <= n,
        forall|i: int|
            mark_place(marks, m, n) <= i < marks.len() ==> starts_before(m, #[trigger] marks[i]),
        forall|i: int|
            0 <= i < mark_place(marks, m, n) ==> !starts_before(m, #[trigger] marks[i]),
    decreases n,
{
    if n > 0 {
        if starts_before(m, marks[n - 1]) {
            mark_place_splits(marks, m, n - 1);
        } else {
            assert forall|i: int| 0 <= i < n implies !starts_before(m, #[trigger] marks[i]) by {
                if i < n - 1 {
                    assert(!starts_before(marks[n - 1], marks[i]));
                }
            }
        }
    }
}

/// Marks are reported in source order, and they are those that were found.
pub proof fn marks_in_source_order(marks: Seq<NotaMappingMark>, n: int)
    requires
        0 <= n <= marks.len(),
    ensures
        in_source_order(source_order(marks, n)),
        source_order(marks, n).len() == n,
        source_order(marks, n).to_multiset() == marks.take(n).to_multiset(),
    decreases n,
{
    if n > 0 {
        marks_in_source_order(marks, n - 1);
        let before = source_order(marks, n - 1);
        let m = marks[n - 1];
        let k = mark_place(before, m, before.len() as int);
        mark_place_splits(before, m, before.len() as int);
        let after = before.insert(k, m);
        assert forall|i: int, j: int| 0 <= i < j < after.len() implies !starts_before(
            #[trigger] after[j],
            #[trigger] after[i],
        ) by {
            let a = if i < k {
                before[i]
            } else if i == k {
                m
            } else {
                before[i - 1]
            };
            assert(after[i] == a);
            if j == k {
                assert(after[j] == m);
            } else {
                assert(after[j] == before[if j < k {
                    j
                } else {
                    j - 1
                }]);
            }
        }
        before.to_multiset_ensures();
        assert(after.to_multiset() =~= before.to_multiset().insert(m)) by {
            before.insert_ensures(k, m);
            vstd::seq_lib::to_multiset_insert(before, k, m);
        }
        assert(marks.take(n) =~= marks.take(n - 1).push(m));
        marks.take(n - 1).to_multiset_ensures();
    } else {
        assert(marks.take(0) =~= Seq::<NotaMappingMark>::empty());
    }
}

/// Does a node owe the mark `m`: the name of a component, a property group that was not closed, the
/// embedded JavaScript right below the node, a bare key, or a statement at the top of the document?
pub open spec fn owes(t: Tree, top: bool, m: NotaMappingMark) -> bool {
    m.span.start < m.span.end && match m.kind {
        NotaMappingKind::ComponentIdentifier => t.kind matches NodeKind::Element { tag, body }
            && tag == (NotaTag::Component { name: m.span }),
        NotaMappingKind::PropsAnchor => t.kind == NodeKind::PropsAnchor && t.span == m.span,
        NotaMappingKind::EmbeddedJs => {
            ||| t.kind == NodeKind::Shorthand && t.span == m.span
            ||| top && t.kind is Statement && t.span == m.span
            ||| exists|k: int|
                0 <= k < t.kids.len() && (#[trigger] t.kids[k]).kind is Js && t.kids[k].span
                    == m.span
        },
    }
}

/// Does a tree owe the mark `m`, itself or anywhere below?
pub open spec fn owed(t: Tree, top: bool, m: NotaMappingMark) -> bool
    decreases t, 0int,
{
    owes(t, top, m) || owed_from(t.kids, 0, false, m)
}

/// Does one of the trees from `k` on owe the mark `m`?
pub open spec fn owed_from(kids: Seq<Tree>, k: int, top: bool, m: NotaMappingMark) -> bool
    decreases kids, kids.len() - k,
{
    0 <= k < kids.len() && (owed(kids[k], top, m) || owed_from(kids, k + 1, top, m))
}

proof fn marked_holds(
    found: Seq<NotaMappingMark>,
    span: Span,
    kind: NotaMappingKind,
    m: NotaMappingMark,
)
    ensures
        marked(found, span, kind).contains(m) <==> found.contains(m) || (span.start < span.end && m
            == NotaMappingMark { span, kind }),
{
    if span.start < span.end {
        let x = NotaMappingMark { span, kind };
        let more = found.push(x);
        if found.contains(m) {
            let i = choose|i: int| 0 <= i < found.len() && found[i] == m;
            assert(more[i] == m);
        }
        assert(more[found.len() as int] == x);
    }
}

proof fn own_marks_are_owed(
    s: Seq<u8>,
    found: Seq<NotaMappingMark>,
    t: Tree,
    top: bool,
    m: NotaMappingMark,
)
    requires
        is_sound(s, t),
    ensures
        own_marks(found, t, top).contains(m) <==> found.contains(m) || owes(t, top, m),
{
    sound_inside(s, t);
    let js = NotaMappingKind::EmbeddedJs;
    if t.kids.len() > 0 {
        marked_holds(found, t.kids[0].span, js, m);
        assert(t.kids[0] == t.kids[0]);
    }
    match t.kind {
        NodeKind::Element { tag, body: _ } => match tag {
            NotaTag::Host { name: _ } => {
                assert(forall|k: int| 0 <= k < t.kids.len() ==> !(#[trigger] t.kids[k].kind is Js));
            },
            NotaTag::Component { name } => {
                marked_holds(found, name, NotaMappingKind::ComponentIdentifier, m);
                assert(forall|k: int| 0 <= k < t.kids.len() ==> !(#[trigger] t.kids[k].kind is Js));
            },
            NotaTag::Dynamic => {
                marked_holds(found, t.kids[2].span, js, m);
            },
        },
        NodeKind::Shorthand => {
            marked_holds(found, t.span, js, m);
        },
        NodeKind::For => {
            marked_holds(kid_marked(found, t, 0), t.kids[1].span, js, m);
        },
        NodeKind::Statement { class: _, attach: _ } => {
            marked_holds(found, t.span, js, m);
            assert(forall|k: int| 0 <= k < t.kids.len() ==> !(#[trigger] t.kids[k].kind is Js));
        },
        NodeKind::Heading { level: _ } => {
            no_code_in_item(t);
        },
        NodeKind::ListItem { list: _ } => {
            no_code_in_item(t);
        },
        NodeKind::Interpolation => {},
        NodeKind::Field { key: _, quoted: _ } => {},
        NodeKind::Spread => {},
        NodeKind::If => {},
        _ => {
            assert(forall|k: int| 0 <= k < t.kids.len() ==> !(#[trigger] t.kids[k].kind is Js));
        },
    }
}

proof fn tree_marks_are_owed(
    s: Seq<u8>,
    found: Seq<NotaMappingMark>,
    t: Tree,
    top: bool,
    m: NotaMappingMark,
)
    requires
        is_sound(s, t),
    ensures
        tree_marks(found, t, top).contains(m) <==> found.contains(m) || owed(t, top, m),
    decreases t, 0int,
{
    sound_inside(s, t);
    own_marks_are_owed(s, found, t, top, m);
    forest_marks_are_owed(s, own_marks(found, t, top), t.kids, 0, false, m);
}

proof fn forest_marks_are_owed(
    s: Seq<u8>,
    found: Seq<NotaMappingMark>,
    kids: Seq<Tree>,
    k: int,
    top: bool,
    m: NotaMappingMark,
)
    requires
        0 <= k,
        all_sound(s, kids),
    ensures
        forest_marks(found, kids, k, top).contains(m) <==> found.contains(m) || owed_from(
            kids,
            k,
            top,
            m,
        ),
    decreases kids, kids.len() - k,
{
    if k < kids.len() {
        tree_marks_are_owed(s, found, kids[k], top, m);
        forest_marks_are_owed(s, tree_marks(found, kids[k], top), kids, k + 1, top, m);
    }
}

/// The marks of a document are those that its nodes owe, no more and no fewer.
pub proof fn marks_are_those_owed(s: Seq<u8>, nodes: Seq<Tree>, m: NotaMappingMark)
    requires
        all_sound(s, nodes),
    ensures
        document_marks(nodes).contains(m) <==> owed_from(nodes, 0, true, m),
{
    let found = forest_marks(Seq::empty(), nodes, 0, true);
    let ordered = document_marks(nodes);
    forest_marks_are_owed(s, Seq::empty(), nodes, 0, true, m);
    marks_in_source_order(found, found.len() as int);
    assert(found.take(found.len() as int) =~= found);
    found.to_multiset_ensures();
    ordered.to_multiset_ensures();
    assert(ordered.contains(m) <==> ordered.to_multiset().count(m) > 0);
    assert(found.contains(m) <==> found.to_multiset().count(m) > 0);
}

/// What a node below owes, the tree owes.
proof fn held_is_owed(t: Tree, top: bool, u: Tree, m: NotaMappingMark)
    requires
        holds(t, u),
        owes(u, false, m),
    ensures
        owed(t, top, m),
    decreases t, 0int,
{
    if t != u {
        forest_held_is_owed(t.kids, 0, false, u, m);
    }
}

proof fn forest_held_is_owed(kids: Seq<Tree>, k: int, top: bool, u: Tree, m: NotaMappingMark)
    requires
        forest_holds(kids, k, u),
        owes(u, false, m),
    ensures
        owed_from(kids, k, top, m),
    decreases kids, kids.len() - k,
{
    if holds(kids[k], u) {
        held_is_owed(kids[k], top, u, m);
    } else {
        forest_held_is_owed(kids, k + 1, top, u, m);
    }
}

/// All embedded JavaScript of a document is marked, whatever node it stands in: the condition of an
/// `@if`, the pattern and the iterable of a `@for`, the value of a property, a spread, an
/// interpolation, the expression of a dynamic tag. An editor reaches it through these marks.
pub proof fn embedded_code_is_marked(s: Seq<u8>, nodes: Seq<Tree>, u: Tree, k: int)
    requires
        all_sound(s, nodes),
        forest_holds(nodes, 0, u),
        0 <= k < u.kids.len(),
        u.kids[k].kind is Js,
        u.kids[k].span.start < u.kids[k].span.end,
    ensures
        document_marks(nodes).contains(
            NotaMappingMark { span: u.kids[k].span, kind: NotaMappingKind::EmbeddedJs },
        ),
{
    let m = NotaMappingMark { span: u.kids[k].span, kind: NotaMappingKind::EmbeddedJs };
    assert(u.kids[k].kind is Js);
    assert(owes(u, false, m));
    forest_held_is_owed(nodes, 0, true, u, m);
    marks_are_those_owed(s, nodes, m);
}

/// Is no mark an anchor?
pub open spec fn anchorless(marks: Seq<NotaMappingMark>) -> bool {
    forall|j: int| 0 <= j < marks.len() ==> (#[trigger] marks[j]).kind != NotaMappingKind::PropsAnchor
}

proof fn whole_tree_marks(found: Seq<NotaMappingMark>, t: Tree, top: bool)
    requires
        anchorless(found),
        tree_whole(t),
    ensures
        anchorless(tree_marks(found, t, top)),
    decreases t, 0int,
{
    whole_forest_marks(own_marks(found, t, top), t.kids, 0, false);
}

proof fn whole_forest_marks(found: Seq<NotaMappingMark>, kids: Seq<Tree>, k: int, top: bool)
    requires
        0 <= k,
        anchorless(found),
        forall|i: int| 0 <= i < kids.len() ==> tree_whole(#[trigger] kids[i]),
    ensures
        anchorless(forest_marks(found, kids, k, top)),
    decreases kids, kids.len() - k,
{
    if k < kids.len() {
        whole_tree_marks(found, kids[k], top);
        whole_forest_marks(tree_marks(found, kids[k], top), kids, k + 1, top);
    }
}

proof fn ordering_adds_no_anchor(marks: Seq<NotaMappingMark>, n: int)
    requires
        0 <= n <= marks.len(),
        anchorless(marks),
    ensures
        anchorless(source_order(marks, n)),
    decreases n,
{
    if n > 0 {
        ordering_adds_no_anchor(marks, n - 1);
        marks_in_source_order(marks, n - 1);
        let before = source_order(marks, n - 1);
        mark_place_splits(before, marks[n - 1], before.len() as int);
    }
}

/// A document without a trace of an unclosed property group has no anchor among its marks.
pub proof fn whole_documents_have_no_anchor(nodes: Seq<Tree>)
    requires
        whole(nodes),
    ensures
        anchorless(document_marks(nodes)),
{
    reveal(whole);
    whole_forest_marks(Seq::empty(), nodes, 0, true);
    let found = forest_marks(Seq::empty(), nodes, 0, true);
    ordering_adds_no_anchor(found, found.len() as int);
}

/// Add a mark, if its range is not empty.
fn record_nota_mapping(found: &mut Vec<NotaMappingMark>, span: Span, kind: NotaMappingKind)
    ensures
        final(found)@ == marked(old(found)@, span, kind),
{
    if span.start < span.end {
        found.push(NotaMappingMark { span, kind });
    }
}

/// Add the mark of the `i`-th node below.
fn record_kid(found: &mut Vec<NotaMappingMark>, n: &Node, i: usize)
    ensures
        final(found)@ == kid_marked(old(found)@, n.tree(), i as int),
{
    if i < n.kids.len() {
        assert(n.tree().kids[i as int] == n.kids@[i as int].tree());
        record_nota_mapping(found, n.kids[i].span, NotaMappingKind::EmbeddedJs);
    }
}

/// Add the marks of a node itself.
fn record_own(found: &mut Vec<NotaMappingMark>, n: &Node, top: bool)
    ensures
        final(found)@ == own_marks(old(found)@, n.tree(), top),
{
    match n.kind {
        NodeKind::Element { tag, body: _ } => {
            match tag {
                NotaTag::Host { name: _ } => {},
                NotaTag::Component { name } => record_nota_mapping(
                    found,
                    name,
                    NotaMappingKind::ComponentIdentifier,
                ),
                NotaTag::Dynamic => record_kid(found, n, 2),
            }
        },
        NodeKind::Field { key: _, quoted: _ } => {
            if n.kids.len() > 0 {
                assert(n.tree().kids[0] == n.kids@[0].tree());
                if let NodeKind::Js { tier: _ } = n.kids[0].kind {
                    record_kid(found, n, 0);
                }
            }
        },
        NodeKind::Shorthand => record_nota_mapping(found, n.span, NotaMappingKind::EmbeddedJs),
        NodeKind::Spread => record_kid(found, n, 0),
        NodeKind::PropsAnchor => record_nota_mapping(found, n.span, NotaMappingKind::PropsAnchor),
        NodeKind::Interpolation => record_kid(found, n, 0),
        NodeKind::If => record_kid(found, n, 0),
        NodeKind::For => {
            record_kid(found, n, 0);
            record_kid(found, n, 1);
        },
        NodeKind::Statement { class: _, attach: _ } => {
            if top {
                record_nota_mapping(found, n.span, NotaMappingKind::EmbeddedJs);
            }
        },
        _ => {},
    }
}

/// Add the marks of a node and of all below it.
fn record_tree(found: &mut Vec<NotaMappingMark>, n: &Node, top: bool)
    ensures
        final(found)@ == tree_marks(old(found)@, n.tree(), top),
    decreases n, 0int,
{
    record_own(found, n, top);
    record_forest(found, &n.kids, false);
}

/// Add the marks of nodes.
fn record_forest(found: &mut Vec<NotaMappingMark>, kids: &Vec<Node>, top: bool)
    ensures
        final(found)@ == forest_marks(old(found)@, trees(kids@), 0, top),
    decreases kids, 1int,
{
    let ghost all = trees(kids@);
    let ghost start = found@;
    let mut k: usize = 0;
    while k < kids.len()
        invariant
            k <= kids@.len(),
            all == trees(kids@),
            forest_marks(found@, all, k as int, top) == forest_marks(start, all, 0, top),
        decreases kids@.len() - k,
    {
        assert(all[k as int] == kids@[k as int].tree());
        record_tree(found, &kids[k], top);
        k = k + 1;
    }
}

/// Put marks in source order.
fn sort_marks(found: &Vec<NotaMappingMark>) -> (marks: Vec<NotaMappingMark>)
    ensures
        marks@ == source_order(found@, found@.len() as int),
{
    let mut marks: Vec<NotaMappingMark> = Vec::new();
    let mut n: usize = 0;
    assert(marks@ =~= source_order(found@, 0));
    while n < found.len()
        invariant
            n <= found@.len(),
            marks@ == source_order(found@, n as int),
        decreases found@.len() - n,
    {
        let m = found[n];
        let mut k: usize = marks.len();
        while k > 0 && (m.span.start < marks[k - 1].span.start || (m.span.start == marks[k
            - 1].span.start && m.span.end < marks[k - 1].span.end))
            invariant
                k <= marks@.len(),
                mark_place(marks@, m, k as int) == mark_place(marks@, m, marks@.len() as int),
            decreases k,
        {
            k = k - 1;
        }
        marks.insert(k, m);
        n = n + 1;
    }
    marks
}

/// The marks of a document, in source order.
pub fn collect_marks(nodes: &Vec<Node>) -> (marks: Vec<NotaMappingMark>)
    ensures
        marks@ == document_marks(trees(nodes@)),
        in_source_order(marks@),
{
    let mut found: Vec<NotaMappingMark> = Vec::new();
    record_forest(&mut found, nodes, true);
    proof {
        marks_in_source_order(found@, found@.len() as int);
    }
    sort_marks(&found)
}

/// The marks of a form, in source order.
pub open spec fn form_marks(t: Tree) -> Seq<NotaMappingMark> {
    let found = tree_marks(Seq::empty(), t, false);
    source_order(found, found.len() as int)
}

/// The marks of a form, in source order.
pub fn collect_form_marks(n: &Node) -> (marks: Vec<NotaMappingMark>)
    ensures
        marks@ == form_marks(n.tree()),
        in_source_order(marks@),
{
    let mut found: Vec<NotaMappingMark> = Vec::new();
    record_tree(&mut found, n, false);
    proof {
        marks_in_source_order(found@, found@.len() as int);
    }
    sort_marks(&found)
}

/// Does the text `a` from `i` on come before the text `b` from there on, byte by byte?
pub open spec fn text_before(a: Seq<u8>, b: Seq<u8>, i: int) -> bool
    decreases b.len() - i,
{
    if i < 0 || i >= b.len() {
        false
    } else if i >= a.len() {
        true
    } else if a[i] != b[i] {
        a[i] < b[i]
    } else {
        text_before(a, b, i + 1)
    }
}

/// Where `x` goes among texts in order, from `k` on: before the first that does not come before
/// it.
pub open spec fn text_place(found: Seq<Seq<u8>>, x: Seq<u8>, k: int) -> int
    decreases found.len() - k,
{
    if 0 <= k < found.len() && text_before(found[k], x, 0) {
        text_place(found, x, k + 1)
    } else {
        k
    }
}

/// `x` among texts in order, once.
pub open spec fn with_text_once(found: Seq<Seq<u8>>, x: Seq<u8>) -> Seq<Seq<u8>> {
    let k = text_place(found, x, 0);
    if 0 <= k < found.len() && found[k] == x {
        found
    } else {
        found.insert(k, x)
    }
}

/// The language that a node names, if it is a fenced code block with a tag.
pub open spec fn fence_lang(s: Seq<u8>, t: Tree) -> Option<Seq<u8>> {
    match t.kind {
        NodeKind::Code { is_block, lang: Some(tag) } => if is_block {
            Some(slice(s, tag))
        } else {
            None
        },
        _ => None,
    }
}

/// The languages of a node and of all below it, with `found`.
pub open spec fn tree_langs(s: Seq<u8>, found: Seq<Seq<u8>>, t: Tree) -> Seq<Seq<u8>>
    decreases t, 0int,
{
    let more = match fence_lang(s, t) {
        Some(lang) => with_text_once(found, lang),
        None => found,
    };
    forest_langs(s, more, t.kids, 0)
}

/// The languages of the nodes from `k` on, with `found`.
pub open spec fn forest_langs(s: Seq<u8>, found: Seq<Seq<u8>>, kids: Seq<Tree>, k: int) -> Seq<Seq<u8>>
    decreases kids, kids.len() - k,
{
    if 0 <= k < kids.len() {
        forest_langs(s, tree_langs(s, found, kids[k]), kids, k + 1)
    } else {
        found
    }
}

/// Is `lang` the tag of a fenced code block in or below a node?
pub open spec fn names_lang(s: Seq<u8>, t: Tree, lang: Seq<u8>) -> bool
    decreases t, 0int,
{
    fence_lang(s, t) == Some(lang) || any_names_lang(s, t.kids, 0, lang)
}

/// Is `lang` the tag of a fenced code block in or below one of the nodes from `k` on?
pub open spec fn any_names_lang(s: Seq<u8>, kids: Seq<Tree>, k: int, lang: Seq<u8>) -> bool
    decreases kids, kids.len() - k,
{
    0 <= k < kids.len() && (names_lang(s, kids[k], lang) || any_names_lang(s, kids, k + 1, lang))
}

/// Texts in order, none of them twice.
pub open spec fn in_text_order(texts: Seq<Seq<u8>>) -> bool {
    forall|i: int, j: int|
        0 <= i < j < texts.len() ==> text_before(#[trigger] texts[i], #[trigger] texts[j], 0)
}

/// Of two texts one comes before the other, or they agree from `i` on.
proof fn texts_compare(a: Seq<u8>, b: Seq<u8>, i: int)
    requires
        0 <= i <= a.len(),
        i <= b.len(),
        a.take(i) == b.take(i),
    ensures
        text_before(a, b, i) || text_before(b, a, i) || a == b,
        !(text_before(a, b, i) && text_before(b, a, i)),
        text_before(a, b, i) ==> a != b,
    decreases a.len() - i,
{
    if i < a.len() && i < b.len() {
        if a[i] == b[i] {
            assert(a.take(i + 1) =~= a.take(i).push(a[i]));
            assert(b.take(i + 1) =~= b.take(i).push(b[i]));
            texts_compare(a, b, i + 1);
        }
    } else if a.len() == b.len() {
        assert(a.take(i) =~= a);
        assert(b.take(i) =~= b);
    }
}

/// What comes before a text that comes before a third comes before the third.
proof fn texts_chain(a: Seq<u8>, b: Seq<u8>, c: Seq<u8>, i: int)
    requires
        0 <= i,
        text_before(a, b, i),
        text_before(b, c, i),
    ensures
        text_before(a, c, i),
    decreases c.len() - i,
{
    if i < a.len() && a[i] == b[i] && b[i] == c[i] {
        texts_chain(a, b, c, i + 1);
    }
}

/// A text goes behind those that come before it, and before the rest.
proof fn text_place_splits(found: Seq<Seq<u8>>, x: Seq<u8>, k: int)
    requires
        0 <= k <= found.len(),
        in_text_order(found),
        forall|i: int| 0 <= i < k ==> text_before(#[trigger] found[i], x, 0),
    ensures
        ({
            let p = text_place(found, x, k);
            &&& k <= p <= found.len()
            &&& forall|i: int| 0 <= i < p ==> text_before(#[trigger] found[i], x, 0)
            &&& p < found.len() && found[p] != x ==> forall|i: int|
                p <= i < found.len() ==> text_before(x, #[trigger] found[i], 0)
        }),
    decreases found.len() - k,
{
    if k < found.len() {
        if text_before(found[k], x, 0) {
            text_place_splits(found, x, k + 1);
        } else {
            assert(found[k].take(0) =~= x.take(0));
            texts_compare(found[k], x, 0);
            if found[k] != x {
                assert forall|i: int| k <= i < found.len() implies text_before(
                    x,
                    #[trigger] found[i],
                    0,
                ) by {
                    if i > k {
                        texts_chain(x, found[k], found[i], 0);
                    }
                }
            }
        }
    }
}

/// A text put among texts in order leaves them in order, and adds itself and nothing else.
proof fn text_once_kept(found: Seq<Seq<u8>>, x: Seq<u8>)
    requires
        in_text_order(found),
    ensures
        in_text_order(with_text_once(found, x)),
        forall|y: Seq<u8>| #[trigger]
            with_text_once(found, x).contains(y) <==> (found.contains(y) || y == x),
{
    let k = text_place(found, x, 0);
    text_place_splits(found, x, 0);
    let after = with_text_once(found, x);
    if k < found.len() && found[k] == x {
        assert(found.contains(x));
    } else {
        assert forall|i: int, j: int| 0 <= i < j < after.len() implies text_before(
            #[trigger] after[i],
            #[trigger] after[j],
            0,
        ) by {
            assert(i < k ==> after[i] == found[i]);
            assert(i > k ==> after[i] == found[i - 1]);
            assert(j < k ==> after[j] == found[j]);
            assert(j > k ==> after[j] == found[j - 1]);
        }
        assert(after[k] == x);
        assert forall|y: Seq<u8>| #[trigger] after.contains(y) <==> (found.contains(y) || y
            == x) by {
            if after.contains(y) {
                let i = choose|i: int| 0 <= i < after.len() && after[i] == y;
                if i < k {
                    assert(found[i] == y);
                } else if i > k {
                    assert(found[i - 1] == y);
                }
            }
            if found.contains(y) {
                let i = choose|i: int| 0 <= i < found.len() && found[i] == y;
                if i < k {
                    assert(after[i] == y);
                } else {
                    assert(after[i + 1] == y);
                }
            }
        }
    }
}

/// The languages below a node come out in order and once each, and they are those that were found
/// and those that the node names.
proof fn tree_langs_kept(s: Seq<u8>, found: Seq<Seq<u8>>, t: Tree)
    requires
        in_text_order(found),
    ensures
        in_text_order(tree_langs(s, found, t)),
        forall|y: Seq<u8>| #[trigger]
            tree_langs(s, found, t).contains(y) <==> (found.contains(y) || names_lang(s, t, y)),
    decreases t, 0int,
{
    let more = match fence_lang(s, t) {
        Some(lang) => with_text_once(found, lang),
        None => found,
    };
    if fence_lang(s, t) is Some {
        text_once_kept(found, fence_lang(s, t)->0);
    }
    forest_langs_kept(s, more, t.kids, 0);
}

/// The same for the nodes from `k` on.
proof fn forest_langs_kept(s: Seq<u8>, found: Seq<Seq<u8>>, kids: Seq<Tree>, k: int)
    requires
        in_text_order(found),
        0 <= k <= kids.len(),
    ensures
        in_text_order(forest_langs(s, found, kids, k)),
        forall|y: Seq<u8>| #[trigger]
            forest_langs(s, found, kids, k).contains(y) <==> (found.contains(y) || any_names_lang(
                s,
                kids,
                k,
                y,
            )),
    decreases kids, kids.len() - k,
{
    if k < kids.len() {
        let next = tree_langs(s, found, kids[k]);
        tree_langs_kept(s, found, kids[k]);
        forest_langs_kept(s, next, kids, k + 1);
        assert forall|y: Seq<u8>| #[trigger]
            forest_langs(s, found, kids, k).contains(y) <==> (found.contains(y) || any_names_lang(
                s,
                kids,
                k,
                y,
            )) by {
            assert(next.contains(y) <==> (found.contains(y) || names_lang(s, kids[k], y)));
        }
    }
}

/// The languages of a document come out in order and without repetition, and they are exactly the
/// tags of its fenced code blocks.
pub proof fn fence_langs_are_the_tags(s: Seq<u8>, nodes: Seq<Tree>)
    ensures
        in_text_order(forest_langs(s, Seq::empty(), nodes, 0)),
        forall|lang: Seq<u8>| #[trigger]
            forest_langs(s, Seq::empty(), nodes, 0).contains(lang) <==> any_names_lang(
                s,
                nodes,
                0,
                lang,
            ),
{
    forest_langs_kept(s, Seq::empty(), nodes, 0);
}

/// The bytes of each text.
pub open spec fn texts(found: Seq<Vec<u8>>) -> Seq<Seq<u8>> {
    found.map_values(|text: Vec<u8>| text@)
}

/// Does `a` come before `b`?
fn comes_before(a: &[u8], b: &[u8]) -> (yes: bool)
    ensures
        yes == text_before(a@, b@, 0),
{
    let mut i: usize = 0;
    while i < b.len()
        invariant
            i <= b@.len(),
            text_before(a@, b@, i as int) == text_before(a@, b@, 0),
        decreases b@.len() - i,
    {
        if i >= a.len() {
            return true;
        }
        if a[i] != b[i] {
            return a[i] < b[i];
        }
        i = i + 1;
    }
    false
}

/// Put a text among texts in order, once.
fn add_once(found: &mut Vec<Vec<u8>>, x: &[u8])
    ensures
        texts(final(found)@) == with_text_once(texts(old(found)@), x@),
{
    let ghost all = texts(found@);
    let mut k: usize = 0;
    while k < found.len() && comes_before(found[k].as_slice(), x)
        invariant
            k <= found@.len(),
            all == texts(found@),
            text_place(all, x@, k as int) == text_place(all, x@, 0),
        decreases found@.len() - k,
    {
        assert(all[k as int] == found@[k as int]@);
        k = k + 1;
    }
    assert(k < found@.len() ==> all[k as int] == found@[k as int]@);
    if k < found.len() && same_bytes(found[k].as_slice(), x) {
        return ;
    }
    let mut copy: Vec<u8> = Vec::new();
    copy.extend_from_slice(x);
    assert(copy@ =~= x@);
    found.insert(k, copy);
    assert(texts(found@) =~= all.insert(k as int, x@));
}

/// Add the languages of a node and of all below it.
fn add_tree_langs(s: &[u8], found: &mut Vec<Vec<u8>>, n: &Node)
    ensures
        texts(final(found)@) == tree_langs(s@, texts(old(found)@), n.tree()),
    decreases n, 0int,
{
    match n.kind {
        NodeKind::Code { is_block, lang: Some(tag) } => {
            if is_block {
                add_once(found, slice_of(s, tag));
            }
        },
        _ => {},
    }
    add_forest_langs(s, found, &n.kids);
}

/// Add the languages of nodes.
fn add_forest_langs(s: &[u8], found: &mut Vec<Vec<u8>>, kids: &Vec<Node>)
    ensures
        texts(final(found)@) == forest_langs(s@, texts(old(found)@), trees(kids@), 0),
    decreases kids, 1int,
{
    let ghost all = trees(kids@);
    let ghost start = texts(found@);
    let mut k: usize = 0;
    while k < kids.len()
        invariant
            k <= kids@.len(),
            all == trees(kids@),
            forest_langs(s@, texts(found@), all, k as int) == forest_langs(s@, start, all, 0),
        decreases kids@.len() - k,
    {
        assert(all[k as int] == kids@[k as int].tree());
        add_tree_langs(s, found, &kids[k]);
        k = k + 1;
    }
}

/// Adding text that is UTF-8 leaves texts that are.
proof fn once_is_valid(found: Seq<Seq<u8>>, x: Seq<u8>)
    requires
        all_valid(found),
        valid_utf8(x),
    ensures
        all_valid(with_text_once(found, x)),
{
    let k = text_place(found, x, 0);
    place_bounds(found, x, 0);
    if !(k < found.len() && found[k] == x) {
        let after = found.insert(k, x);
        assert forall|i: int| 0 <= i < after.len() implies valid_utf8(#[trigger] after[i]) by {
            if i < k {
                assert(after[i] == found[i]);
            } else if i > k {
                assert(after[i] == found[i - 1]);
            }
        }
    }
}

proof fn place_bounds(found: Seq<Seq<u8>>, x: Seq<u8>, k: int)
    requires
        0 <= k <= found.len(),
    ensures
        k <= text_place(found, x, k) <= found.len(),
    decreases found.len() - k,
{
    if k < found.len() && text_before(found[k], x, 0) {
        place_bounds(found, x, k + 1);
    }
}

proof fn tree_langs_are_valid(s: Seq<u8>, found: Seq<Seq<u8>>, t: Tree)
    requires
        valid_utf8(s),
        all_valid(found),
    ensures
        all_valid(tree_langs(s, found, t)),
    decreases t, 0int,
{
    let more = match fence_lang(s, t) {
        Some(lang) => with_text_once(found, lang),
        None => found,
    };
    if let NodeKind::Code { is_block, lang: Some(tag) } = t.kind {
        slices_are_valid(s, tag);
        once_is_valid(found, slice(s, tag));
    }
    forest_langs_are_valid(s, more, t.kids, 0);
}

proof fn forest_langs_are_valid(s: Seq<u8>, found: Seq<Seq<u8>>, kids: Seq<Tree>, k: int)
    requires
        0 <= k,
        valid_utf8(s),
        all_valid(found),
    ensures
        all_valid(forest_langs(s, found, kids, k)),
    decreases kids, kids.len() - k,
{
    if k < kids.len() {
        tree_langs_are_valid(s, found, kids[k]);
        forest_langs_are_valid(s, tree_langs(s, found, kids[k]), kids, k + 1);
    }
}

/// The languages of a document are UTF-8.
pub proof fn langs_are_valid(s: Seq<u8>, nodes: Seq<Tree>)
    requires
        valid_utf8(s),
    ensures
        all_valid(forest_langs(s, Seq::empty(), nodes, 0)),
{
    forest_langs_are_valid(s, Seq::empty(), nodes, 0);
}

/// The languages of a document's fenced code blocks, in order and without repetition.
pub fn collect_fence_langs(source: &str, nodes: &Vec<Node>) -> (langs: Vec<Vec<u8>>)
    ensures
        texts(langs@) == forest_langs(utf8(source), Seq::empty(), trees(nodes@), 0),
        in_text_order(texts(langs@)),
        forall|lang: Seq<u8>| #[trigger]
            texts(langs@).contains(lang) <==> any_names_lang(
                utf8(source),
                trees(nodes@),
                0,
                lang,
            ),
{
    let mut found: Vec<Vec<u8>> = Vec::new();
    assert(texts(found@) =~= Seq::<Seq<u8>>::empty());
    add_forest_langs(source.as_bytes(), &mut found, nodes);
    proof {
        fence_langs_are_the_tags(utf8(source), trees(nodes@));
    }
    found
}

/// The languages of a form's fenced code blocks, in order and without repetition.
pub fn collect_form_langs(source: &str, n: &Node) -> (langs: Vec<Vec<u8>>)
    ensures
        texts(langs@) == tree_langs(utf8(source), Seq::empty(), n.tree()),
{
    let mut found: Vec<Vec<u8>> = Vec::new();
    assert(texts(found@) =~= Seq::<Seq<u8>>::empty());
    add_tree_langs(source.as_bytes(), &mut found, n);
    found
}

/// A reference to a name that nothing in the module binds, as a scope analysis of the emitted module
/// finds it.
pub struct NameUse {
    /// The name.
    pub name: String,
    /// Does it stand for a value, rather than for a type?
    pub is_value: bool,
}

/// Is `name` used as a value?
pub open spec fn used_as_value(uses: Seq<NameUse>, name: Seq<u8>) -> bool {
    exists|i: int| 0 <= i < uses.len() && (#[trigger] uses[i]).is_value && encode_utf8(
        uses[i].name@,
    ) == name
}

/// The free names of a module, in order and without repetition: those that are used as a value. A
/// name that only types refer to is none.
pub fn free_names(uses: &Vec<NameUse>) -> (names: Vec<String>)
    ensures
        are_free_names(uses@, spellings(names@)),
{
    let found = free_name_bytes(uses);
    proof {
        assert forall|i: int| 0 <= i < found@.len() implies valid_utf8((#[trigger] found@[i])@) by {
            assert(texts(found@)[i] == found@[i]@);
            assert(texts(found@).contains(found@[i]@));
            let k = choose|k: int|
                0 <= k < uses@.len() && (#[trigger] uses@[k]).is_value && encode_utf8(
                    uses@[k].name@,
                ) == found@[i]@;
            encode_utf8_valid_utf8(uses@[k].name@);
        }
    }
    let names = strings_of(&found);
    assert(spellings(names@) =~= texts(found@));
    names
}

/// Are `names` the free names of a module, in order and without repetition?
pub open spec fn are_free_names(uses: Seq<NameUse>, names: Seq<Seq<u8>>) -> bool {
    in_text_order(names) && forall|name: Seq<u8>| #[trigger]
        names.contains(name) <==> used_as_value(uses, name)
}

/// The free names of a module, as UTF-8.
fn free_name_bytes(uses: &Vec<NameUse>) -> (names: Vec<Vec<u8>>)
    ensures
        are_free_names(uses@, texts(names@)),
{
    let mut names: Vec<Vec<u8>> = Vec::new();
    assert(texts(names@) =~= Seq::<Seq<u8>>::empty());
    let mut i: usize = 0;
    while i < uses.len()
        invariant
            i <= uses@.len(),
            in_text_order(texts(names@)),
            forall|name: Seq<u8>| #[trigger]
                texts(names@).contains(name) <==> used_as_value(uses@.take(i as int), name),
        decreases uses@.len() - i,
    {
        let ghost before = texts(names@);
        let ghost seen = uses@.take(i as int);
        let ghost more = uses@.take(i + 1);
        if uses[i].is_value {
            proof {
                text_once_kept(before, encode_utf8(uses@[i as int].name@));
            }
            add_once(&mut names, uses[i].name.as_str().as_bytes());
        }
        proof {
            assert forall|name: Seq<u8>| #[trigger]
                texts(names@).contains(name) <==> used_as_value(more, name) by {
                assert(before.contains(name) <==> used_as_value(seen, name));
                if used_as_value(seen, name) {
                    let k = choose|k: int|
                        0 <= k < seen.len() && (#[trigger] seen[k]).is_value && encode_utf8(seen[k].name@)
                            == name;
                    assert(more[k] == seen[k]);
                }
                if used_as_value(more, name) {
                    let k = choose|k: int|
                        0 <= k < more.len() && (#[trigger] more[k]).is_value && encode_utf8(more[k].name@)
                            == name;
                    if k < i {
                        assert(seen[k] == more[k]);
                    }
                }
                assert(more[i as int] == uses@[i as int]);
            }
        }
        i = i + 1;
    }
    assert(uses@.take(i as int) =~= uses@);
    names
}

} // verus!
