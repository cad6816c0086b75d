//! The document tree that the reader builds.
//!
//! Every node is a kind, a source extent and an ordered list of nodes below it. Text is never
//! copied: a text node is its extent. [`Tree`] is the same shape over mathematical sequences; the
//! reader's contracts speak of it.

use vstd::prelude::*;
use crate::bytes::Span;

verus! {

/// Which emphasis a span carries.
#[derive(Clone, Copy, Debug, PartialEq, Eq, Structural)]
pub enum NotaEmphasisMarker {
    /// `*…*`.
    Strong,
    /// `_…_`.
    Em,
    /// `~~…~~`.
    Strike,
}

/// Which list an item belongs to.
#[derive(Clone, Copy, Debug, PartialEq, Eq, Structural)]
pub enum NotaListKind {
    /// A bullet item (`-`).
    Unordered,
    /// A numbered item (`+` or `N.`).
    Ordered,
}

/// Which document-state sugar a node stands for.
#[derive(Clone, Copy, Debug, PartialEq, Eq, Structural)]
pub enum NotaDocStateKind {
    /// `<label>`.
    Label,
    /// `&ref`.
    Ref,
    /// `[^mark]`.
    FootnoteMark,
    /// `[^label]: body`.
    FootnoteText,
}

/// The tag of an element.
#[derive(Clone, Copy, Debug, PartialEq, Eq, Structural)]
pub enum NotaTag {
    /// A lower-case name: a host element.
    Host {
        /// The name.
        name: Span,
    },
    /// A capitalised name: a component.
    Component {
        /// The name.
        name: Span,
    },
    /// `@(expr)`: the tag is the value of an expression, held as the node's last child.
    Dynamic,
}

/// What an element's body was written as.
#[derive(Clone, Copy, Debug, PartialEq, Eq, Structural)]
pub enum BodyForm {
    /// `{…}`, or no body at all.
    Braced,
    /// `: …`.
    Colon,
    /// `|{…}|`.
    Verbatim,
}

/// How tightly an expression binds, which decides where it needs parentheses.
#[derive(Clone, Copy, Debug, PartialEq, Eq, Structural)]
pub enum ExprTier {
    /// A JSX element or fragment: it can be what a primary expression can, and can stand among the
    /// children of another element as it is.
    Element,
    /// A name, a literal, a member access, a call: it can be the object of a member access.
    Primary,
    /// An operator expression: it can be the test of a conditional.
    Operator,
    /// A conditional, an assignment, an arrow function: it can be an argument.
    Assignment,
    /// A sequence of expressions separated by commas.
    Sequence,
}

/// How a statement is placed in the module.
#[derive(Clone, Copy, Debug, PartialEq, Eq, Structural)]
pub enum StatementClass {
    /// An import.
    Import,
    /// An export with a name.
    Export,
    /// `export default`.
    ExportDefault,
    /// Any other statement.
    Plain,
}

/// Where a component binding's name is attached to the call that makes the component.
#[derive(Clone, Copy, Debug, PartialEq, Eq, Structural)]
pub struct NameAttach {
    /// The name that the call's value is bound to.
    pub name: Span,
    /// The end of the call's first argument.
    pub arg_end: u32,
    /// The closing parenthesis of the call.
    pub close: u32,
}

/// What a node is. The nodes below it are listed with each kind.
#[derive(Clone, Copy, Debug, PartialEq, Eq, Structural)]
pub enum NodeKind {
    /// Literal text: its extent.
    Text,
    /// A run of raw text in a code, math or verbatim span.
    Raw,
    /// An element: its properties, its body, and the expression of a dynamic tag.
    Element {
        /// The tag.
        tag: NotaTag,
        /// How the body was written.
        body: BodyForm,
    },
    /// The property list of an element.
    Props,
    /// The children of an element.
    Body,
    /// `@{…}`, or the body of a branch: its children.
    Fragment,
    /// `@name` or `@(expr)`: the expression.
    Interpolation,
    /// Embedded JavaScript: the `@`-forms inside it, each under a [`NodeKind::Markup`].
    Js {
        /// How tightly it binds.
        tier: ExprTier,
    },
    /// A form inside JavaScript, from its `@` on: the form.
    Markup,
    /// `key: value`: the value, which is JavaScript or a form.
    Field {
        /// The key as written, quotes and all.
        key: Span,
        /// Is the key a string literal?
        quoted: bool,
    },
    /// `...expr`: the expression.
    Spread,
    /// A bare key: its extent.
    Shorthand,
    /// The `[` of a property group that the source ends in, kept last among the properties.
    PropsAnchor,
    /// `@if`: the condition, the branch, and the `else` part if there is one.
    If,
    /// `@for`: the binding pattern, the iterable, and the body.
    For,
    /// Emphasis: its children.
    Emphasis {
        /// Which emphasis.
        marker: NotaEmphasisMarker,
    },
    /// A heading: its attributes as a [`NodeKind::Props`] if it has any, and its children.
    Heading {
        /// Its level, one to six.
        level: u8,
    },
    /// A list item: its attributes as a [`NodeKind::Props`] if it has any, and its children.
    ListItem {
        /// Which list.
        list: NotaListKind,
    },
    /// A bare `[…]` group at the end of a line: its properties, for the paragraph it stands in.
    Attrs,
    /// Document-state sugar: nothing, or its properties and its body.
    DocState {
        /// Which sugar.
        sugar: NotaDocStateKind,
        /// The label.
        label: Span,
    },
    /// `[text](url)`: the text's children.
    Link {
        /// The url as written.
        url: Span,
    },
    /// `![alt](src)`.
    Image {
        /// The alternative text as written.
        alt: Span,
        /// The source as written.
        src: Span,
    },
    /// `---`.
    ThematicBreak,
    /// A code span: raw runs and armed forms.
    Code {
        /// A fenced block?
        is_block: bool,
        /// The language tag of a block.
        lang: Option<Span>,
    },
    /// A math span: raw runs and armed forms.
    Math {
        /// A display fence?
        is_block: bool,
    },
    /// A statement: the names it binds, and the `@`-forms inside it.
    Statement {
        /// How it is placed.
        class: StatementClass,
        /// Where a component's name is attached, if the statement binds a component.
        attach: Option<NameAttach>,
    },
    /// A name that a statement binds.
    Binding,
    /// A comment, kept as trivia.
    Comment {
        /// A block comment?
        block: bool,
    },
}

impl NodeKind {
    /// Is it an expression that can be the object of a member access?
    pub open spec fn is_object(self) -> bool {
        self == (NodeKind::Js { tier: ExprTier::Primary }) || self == (NodeKind::Js {
            tier: ExprTier::Element,
        })
    }

    /// Can it be the object of a member access?
    pub fn can_be_object(self) -> (yes: bool)
        ensures
            yes == self.is_object(),
    {
        self == (NodeKind::Js { tier: ExprTier::Primary }) || self == (NodeKind::Js {
            tier: ExprTier::Element,
        })
    }
}

/// A node of the document tree.
pub struct Node {
    /// What it is.
    pub kind: NodeKind,
    /// Where it stands in the source.
    pub span: Span,
    /// The nodes below it, in source order.
    pub kids: Vec<Node>,
}

/// The mathematical view of a [`Node`].
#[verifier::ext_equal]
pub struct Tree {
    /// What it is.
    pub kind: NodeKind,
    /// Where it stands in the source.
    pub span: Span,
    /// The trees below it, in source order.
    pub kids: Seq<Tree>,
}

impl Node {
    /// The tree that this node is.
    pub open spec fn tree(self) -> Tree
        decreases self,
    {
        Tree { kind: self.kind, span: self.span, kids: trees(self.kids@) }
    }
}

/// The trees that a sequence of nodes is.
pub open spec fn trees(nodes: Seq<Node>) -> Seq<Tree>
    decreases nodes,
{
    Seq::new(
        nodes.len(),
        |i: int|
            if 0 <= i < nodes.len() {
                nodes[i].tree()
            } else {
                arbitrary()
            },
    )
}

/// A tree with nothing below it.
pub open spec fn leaf(kind: NodeKind, start: int, end: int) -> Tree {
    Tree { kind, span: Span { start: start as u32, end: end as u32 }, kids: Seq::empty() }
}

/// A tree over `kids`.
pub open spec fn branch(kind: NodeKind, start: int, end: int, kids: Seq<Tree>) -> Tree {
    Tree { kind, span: Span { start: start as u32, end: end as u32 }, kids }
}

/// Does a tree lie in a source of `n` bytes? Its extent does, and so do those below it; and text is
/// never empty.
pub open spec fn tree_within(t: Tree, n: int) -> bool
    decreases t,
{
    &&& t.span.start <= n
    &&& t.span.end <= n
    &&& t.kind == NodeKind::Text || t.kind == NodeKind::Raw ==> t.span.start < t.span.end
    &&& forall|i: int| 0 <= i < t.kids.len() ==> tree_within(#[trigger] t.kids[i], n)
}

/// Do all trees lie in a source of `n` bytes?
#[verifier::opaque]
pub open spec fn in_source(kids: Seq<Tree>, n: int) -> bool {
    forall|i: int| 0 <= i < kids.len() ==> tree_within(#[trigger] kids[i], n)
}

/// Does a tree hold no trace of a property group that was not closed?
pub open spec fn tree_whole(t: Tree) -> bool
    decreases t,
{
    &&& t.kind != NodeKind::PropsAnchor
    &&& forall|i: int| 0 <= i < t.kids.len() ==> tree_whole(#[trigger] t.kids[i])
}

/// Does no tree hold a trace of a property group that was not closed?
#[verifier::opaque]
pub open spec fn whole(kids: Seq<Tree>) -> bool {
    forall|i: int| 0 <= i < kids.len() ==> tree_whole(#[trigger] kids[i])
}

/// Does `after` start with the tree that `before` starts with, if it starts with one?
pub open spec fn keeps_first(before: Seq<Tree>, after: Seq<Tree>) -> bool {
    before.len() > 0 ==> after.len() > 0 && after[0] == before[0]
}

/// An empty list of nodes.
pub fn no_nodes() -> (nodes: Vec<Node>)
    ensures
        trees(nodes@) == Seq::<Tree>::empty(),
        forall|n: int| #[trigger] in_source(trees(nodes@), n),
        whole(trees(nodes@)),
{
    let nodes: Vec<Node> = Vec::new();
    assert(trees(nodes@) =~= Seq::<Tree>::empty());
    proof {
        reveal(in_source);
        reveal(whole);
    }
    nodes
}

/// Make a node.
pub fn node(kind: NodeKind, span: Span, kids: Vec<Node>) -> (made: Node)
    ensures
        made.tree() == (Tree { kind, span, kids: trees(kids@) }),
{
    Node { kind, span, kids }
}

/// Append a node.
pub fn push_node(out: &mut Vec<Node>, item: Node)
    ensures
        trees(final(out)@) == trees(old(out)@).push(item.tree()),
        forall|n: int| #[trigger]
            in_source(trees(old(out)@), n) && tree_within(item.tree(), n) ==> in_source(
                trees(final(out)@),
                n,
            ),
        whole(trees(old(out)@)) && tree_whole(item.tree()) ==> whole(trees(final(out)@)),
{
    out.push(item);
    assert(trees(out@) =~= trees(old(out)@).push(item.tree()));
    proof {
        reveal(in_source);
        reveal(whole);
        assert forall|n: int| #[trigger]
            in_source(trees(old(out)@), n) && tree_within(item.tree(), n) implies in_source(
            trees(out@),
            n,
        ) by {
            assert forall|i: int| 0 <= i < trees(out@).len() implies tree_within(
                #[trigger] trees(out@)[i],
                n,
            ) by {
                if i < trees(old(out)@).len() {
                    assert(tree_within(trees(old(out)@)[i], n));
                }
            }
        }
    }
}

/// Append nodes.
pub fn join_nodes(out: &mut Vec<Node>, more: Vec<Node>)
    ensures
        trees(final(out)@) == trees(old(out)@) + trees(more@),
        forall|n: int| #[trigger]
            in_source(trees(old(out)@), n) && in_source(trees(more@), n) ==> in_source(
                trees(final(out)@),
                n,
            ),
        whole(trees(old(out)@)) && whole(trees(more@)) ==> whole(trees(final(out)@)),
{
    let ghost tail = trees(more@);
    let mut rest = more;
    out.append(&mut rest);
    assert(trees(out@) =~= trees(old(out)@) + tail);
    proof {
        reveal(in_source);
        reveal(whole);
        assert forall|n: int| #[trigger]
            in_source(trees(old(out)@), n) && in_source(tail, n) implies in_source(
            trees(out@),
            n,
        ) by {
            let first = trees(old(out)@);
            assert forall|i: int| 0 <= i < trees(out@).len() implies tree_within(
                #[trigger] trees(out@)[i],
                n,
            ) by {
                if i < first.len() {
                    assert(tree_within(first[i], n));
                } else {
                    assert(tree_within(tail[i - first.len()], n));
                }
            }
        }
    }
}

} // verus!
