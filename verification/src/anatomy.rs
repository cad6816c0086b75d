//! What the nodes of a document stand for: which nodes stand below which, and what of the source a
//! node stands over.

use vstd::prelude::*;
use crate::ascii::{
    AMPERSAND, AT_SIGN, BACKTICK, BANG, CARET, COLON, DOLLAR, DOT, GREATER, HASH, HYPHEN, LBRACK,
    LESS, LOWER_F, LOWER_I, LPAREN, NEWLINE, PIPE, PLUS, RBRACE, RBRACK, RPAREN, SLASH, SPACE,
    STAR, TAB, TILDE, UNDERSCORE, UPPER_A, UPPER_Z,
};
use crate::bytes::{at, is_digit, Span};
use crate::lines::content_start;
use crate::lowering::first_child;
use crate::statements::list_marker;
use crate::tree::{
    BodyForm, NodeKind, NotaDocStateKind, NotaEmphasisMarker, NotaListKind, NotaTag, Tree,
};

verus! {

/// Is `u` the tree `t`, or does it stand somewhere below it?
pub open spec fn holds(t: Tree, u: Tree) -> bool
    decreases t, 0int,
{
    t == u || forest_holds(t.kids, 0, u)
}

/// Does `u` stand somewhere in the trees from `k` on?
pub open spec fn forest_holds(kids: Seq<Tree>, k: int, u: Tree) -> bool
    decreases kids, kids.len() - k,
{
    0 <= k < kids.len() && (holds(kids[k], u) || forest_holds(kids, k + 1, u))
}

/// Are all trees sound?
pub open spec fn all_sound(s: Seq<u8>, kids: Seq<Tree>) -> bool {
    forall|k: int| 0 <= k < kids.len() ==> is_sound(s, #[trigger] kids[k])
}

/// Is it an `@`-form?
pub open spec fn is_form(t: Tree) -> bool {
    t.kind is Element || t.kind is Fragment || t.kind is Interpolation || t.kind is If
        || t.kind is For
}

/// Is it a property?
pub open spec fn is_prop(t: Tree) -> bool {
    t.kind is Field || t.kind is Shorthand || t.kind is Spread
}

/// Is it a run of raw text or an armed form?
pub open spec fn is_part(t: Tree) -> bool {
    t.kind is Raw || is_form(t)
}

/// Do trees stand one behind the other, with no overlap?
pub open spec fn in_order(kids: Seq<Tree>) -> bool {
    forall|i: int, j: int|
        0 <= i < j < kids.len() ==> (#[trigger] kids[i]).span.end <= (#[trigger] kids[j]).span.start
}

/// Can it stand among the children of a body?
pub open spec fn is_child(t: Tree) -> bool {
    ||| is_part(t) || t.kind is Text || t.kind is Emphasis || t.kind is Heading
        || t.kind is ListItem
    ||| t.kind is Attrs || t.kind is DocState || t.kind is Link || t.kind is Image
    ||| t.kind is ThematicBreak || t.kind is Code || t.kind is Math || t.kind is Statement
    ||| t.kind is Comment
}

/// Are trees the children of a body, one behind the other?
pub open spec fn are_children(kids: Seq<Tree>) -> bool {
    in_order(kids) && forall|k: int| 0 <= k < kids.len() ==> is_child(#[trigger] kids[k])
}

/// Does the source from `a` to `b` hold nothing but `c`?
pub open spec fn only(s: Seq<u8>, a: int, b: int, c: u8) -> bool {
    forall|i: int| a <= i < b ==> #[trigger] at(s, i) == Some(c)
}

/// Is `label` an extent between `a` and `b`?
pub open spec fn lies_between(label: Span, a: int, b: int) -> bool {
    a <= label.start <= label.end <= b
}

/// Is what stands at `i` an upper-case letter?
pub open spec fn is_upper(s: Seq<u8>, i: int) -> bool {
    at(s, i) matches Some(b) && UPPER_A <= b <= UPPER_Z
}

/// Does a tree stand over source that looks like it, over trees that belong there? Of each kind this
/// says what its extent starts and ends with, and what stands below it.
pub open spec fn is_built(s: Seq<u8>, t: Tree) -> bool {
    let (a, b) = (t.span.start as int, t.span.end as int);
    match t.kind {
        NodeKind::Text => a < b && t.kids.len() == 0,
        NodeKind::Raw => a < b && t.kids.len() == 0,
        NodeKind::Element { tag, body } => {
            &&& at(s, a) == Some(AT_SIGN)
            &&& t.kids.len() >= 2
            &&& t.kids[0].kind == NodeKind::Props
            &&& t.kids[1].kind == NodeKind::Body
            &&& match tag {
                NotaTag::Host { name } => t.kids.len() == 2 && lies_between(
                    name,
                    a + 1,
                    s.len() as int,
                ) && !is_upper(s, name.start as int),
                NotaTag::Component { name } => t.kids.len() == 2 && lies_between(
                    name,
                    a + 1,
                    s.len() as int,
                ) && is_upper(s, name.start as int),
                NotaTag::Dynamic => t.kids.len() == 3 && t.kids[2].kind is Js,
            }
            &&& body == BodyForm::Verbatim ==> at(s, b - 2) == Some(RBRACE) && at(s, b - 1) == Some(
                PIPE,
            ) && forall|k: int|
                0 <= k < t.kids[1].kids.len() ==> is_part(#[trigger] t.kids[1].kids[k])
        },
        NodeKind::Props => forall|k: int|
            0 <= k < t.kids.len() ==> is_prop(#[trigger] t.kids[k]),
        NodeKind::Body => are_children(t.kids),
        NodeKind::Fragment => at(s, b - 1) == Some(RBRACE) && are_children(t.kids),
        NodeKind::Interpolation => t.kids.len() == 1 && t.kids[0].kind is Js && t.kids[0].span
            == t.span,
        NodeKind::Js { tier: _ } => in_order(t.kids) && forall|k: int|
            0 <= k < t.kids.len() ==> (#[trigger] t.kids[k]).kind is Markup,
        NodeKind::Markup => at(s, a) == Some(AT_SIGN) && t.kids.len() == 1 && is_form(t.kids[0]),
        NodeKind::Field { key, quoted: _ } => key.start == a && key.start < key.end <= s.len()
            && t.kids.len() == 1 && (t.kids[0].kind is Js || is_form(t.kids[0])),
        NodeKind::Spread => at(s, a) == Some(DOT) && t.kids.len() == 1 && t.kids[0].kind is Js,
        NodeKind::Shorthand => a < b && t.kids.len() == 0,
        NodeKind::PropsAnchor => false,
        NodeKind::If => {
            &&& at(s, a) == Some(AT_SIGN) || (at(s, a) == Some(LOWER_I) && at(s, a + 1) == Some(LOWER_F))
            &&& t.kids.len() == 2 || t.kids.len() == 3
            &&& t.kids[0].kind is Js
            &&& t.kids[1].kind == NodeKind::Fragment
            &&& t.kids.len() == 3 ==> t.kids[2].kind == NodeKind::If || t.kids[2].kind
                == NodeKind::Fragment
        },
        NodeKind::For => at(s, a) == Some(AT_SIGN) && t.kids.len() == 3 && t.kids[0].kind is Js
            && t.kids[1].kind is Js && t.kids[2].kind == NodeKind::Fragment,
        NodeKind::Emphasis { marker } => are_children(t.kids) && match marker {
            NotaEmphasisMarker::Strong => at(s, a) == Some(STAR) && at(s, b - 1) == Some(STAR),
            NotaEmphasisMarker::Em => at(s, a) == Some(UNDERSCORE) && at(s, b - 1) == Some(UNDERSCORE),
            NotaEmphasisMarker::Strike => only(s, a, a + 2, TILDE) && only(s, b - 2, b, TILDE),
        },
        NodeKind::Heading { level } => {
            let c = content_start(s, a);
            &&& 1 <= level <= 6
            &&& only(s, c, c + level, HASH)
            &&& at(s, c + level) == Some(SPACE) || at(s, c + level) == Some(TAB)
            &&& are_children(t.kids.skip(first_child(t.kids)))
        },
        NodeKind::ListItem { list } => are_children(t.kids.skip(first_child(t.kids)))
            && list_marker(s, a) is Some && match list {
            NotaListKind::Unordered => at(s, a) == Some(HYPHEN),
            NotaListKind::Ordered => at(s, a) == Some(PLUS) || (at(s, a) matches Some(d)
                && is_digit(d)),
        },
        NodeKind::Attrs => at(s, a) == Some(LBRACK)
            && forall|k: int| 0 <= k < t.kids.len() ==> is_prop(#[trigger] t.kids[k]),
        NodeKind::DocState { sugar, label } => {
            &&& lies_between(label, a, b)
            &&& t.kids.len() == 0 || (t.kids.len() == 2 && t.kids[0].kind == NodeKind::Props
                && t.kids[1].kind == NodeKind::Body)
            &&& match sugar {
                NotaDocStateKind::Label => at(s, a) == Some(LESS) && label.start == a + 1 && at(
                    s,
                    label.end as int,
                ) == Some(GREATER) && b == label.end + 1,
                NotaDocStateKind::Ref => at(s, a) == Some(AMPERSAND) && label.start == a + 1,
                NotaDocStateKind::FootnoteMark => at(s, a) == Some(LBRACK) && at(s, a + 1) == Some(
                    CARET,
                ) && label.start == a + 2 && at(s, label.end as int) == Some(RBRACK) && b
                    == label.end + 1,
                NotaDocStateKind::FootnoteText => at(s, a) == Some(LBRACK) && at(s, a + 1) == Some(
                    CARET,
                ) && label.start == a + 2 && at(s, label.end as int) == Some(RBRACK) && at(
                    s,
                    label.end + 1,
                ) == Some(COLON),
            }
        },
        NodeKind::Link { url } => at(s, a) == Some(LBRACK) && at(s, url.start - 2) == Some(RBRACK)
            && at(s, url.start - 1) == Some(LPAREN) && lies_between(url, a, b) && at(
            s,
            url.end as int,
        ) == Some(RPAREN) && b == url.end + 1 && are_children(t.kids),
        NodeKind::Image { alt, src } => at(s, a) == Some(BANG) && at(s, a + 1) == Some(LBRACK)
            && alt.start == a + 2 && at(s, alt.end as int) == Some(RBRACK) && at(s, alt.end + 1)
            == Some(LPAREN) && src.start == alt.end + 2 && at(s, src.end as int) == Some(RPAREN) && b
            == src.end + 1 && t.kids.len() == 0,
        NodeKind::ThematicBreak => only(s, a, b, HYPHEN) && b - a >= 3 && t.kids.len() == 0,
        NodeKind::Code { is_block, lang: _ } => at(s, a) == Some(BACKTICK) && (is_block ==> only(
            s,
            a,
            a + 3,
            BACKTICK,
        )) && forall|k: int| 0 <= k < t.kids.len() ==> is_part(#[trigger] t.kids[k]),
        NodeKind::Math { is_block } => at(s, a) == Some(DOLLAR) && (is_block ==> only(
            s,
            a,
            a + 2,
            DOLLAR,
        )) && forall|k: int| 0 <= k < t.kids.len() ==> is_part(#[trigger] t.kids[k]),
        NodeKind::Statement { class: _, attach: _ } => forall|k: int|
            0 <= k < t.kids.len()
                ==> (#[trigger] t.kids[k]).kind is Binding || t.kids[k].kind is Markup,
        NodeKind::Binding => t.kids.len() == 0,
        NodeKind::Comment { block } => {
            &&& t.kids.len() == 0
            &&& at(s, a) == Some(SLASH)
            &&& if block {
                at(s, a + 1) == Some(STAR) && at(s, b - 1) == Some(SLASH)
            } else {
                at(s, a + 1) == Some(SLASH) && forall|i: int|
                    a <= i < b ==> #[trigger] at(s, i) != Some(NEWLINE)
            }
        },
    }
}

/// Is a tree built as [`is_built`] says, and is every tree below it?
#[verifier::opaque]
pub open spec fn is_sound(s: Seq<u8>, t: Tree) -> bool
    decreases t,
{
    &&& t.span.start <= t.span.end <= s.len()
    &&& is_built(s, t)
    &&& forall|k: int| 0 <= k < t.kids.len() ==> is_sound(s, #[trigger] t.kids[k])
}

/// No code stands right below a heading or a list item.
pub proof fn no_code_in_item(t: Tree)
    requires
        are_children(t.kids.skip(first_child(t.kids))),
    ensures
        forall|k: int| 0 <= k < t.kids.len() ==> !(#[trigger] t.kids[k].kind is Js),
{
    let from = first_child(t.kids);
    let rest = t.kids.skip(from);
    assert forall|k: int| 0 <= k < t.kids.len() implies !(#[trigger] t.kids[k].kind is Js) by {
        if k >= from {
            assert(rest[k - from] == t.kids[k]);
        }
    }
}

/// What a sound tree is.
pub proof fn sound_inside(s: Seq<u8>, t: Tree)
    requires
        is_sound(s, t),
    ensures
        t.span.start <= t.span.end <= s.len(),
        is_built(s, t),
        all_sound(s, t.kids),
{
    reveal_with_fuel(is_sound, 2);
}

/// What makes a tree sound.
pub proof fn sound_over(s: Seq<u8>, t: Tree)
    requires
        t.span.start <= t.span.end <= s.len(),
        is_built(s, t),
        all_sound(s, t.kids),
    ensures
        is_sound(s, t),
{
    reveal_with_fuel(is_sound, 2);
}

} // verus!
