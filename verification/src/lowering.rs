//! What lowering a document rests on, whatever it is lowered to: the children of a body with their
//! whitespace settled, property keys, raw text, urls, and names that clash with nothing.

use vstd::prelude::*;
use vstd::slice::slice_subrange;
use vstd::utf8::{valid_utf8, valid_utf8_concat};
use crate::ascii::{
    BACKSLASH, BACKTICK, COLON, DOLLAR, HYPHEN, LBRACE, LOWER_R, LOWER_T, UNDERSCORE,
};
use crate::bytes::{
    addressable, ascii_space, at, class_holds, get, in_class, is_space, utf8, ByteClass, Span,
};
use crate::embedded::{string_body_end, string_end};
use crate::encoding::{settled_children_are_valid, texts_are_valid};
use crate::js::{code_start, find_code, white_at, white_len};
use crate::literals::{literal, literal_of};
use crate::output::{same_bytes, slice, slice_of};
use crate::scribble::{
    breaks_apart, elements, elements_are_kept, joined_elements, piece_elements, pieces,
    push_text_marks, settle, settled, text_breaks_apart, text_holds_no_elements, text_marks, Child,
    Mark, Piece,
};
use crate::tree::{trees, ExprTier, Node, NodeKind, NotaTag, Tree};
use crate::unicode::{
    ascii_is_valid, ascii_splits, ascii_then_boundary, boundary, char_at, char_from, cut_is_valid,
    identifier_end, identifier_start, is_identifier_start, line_start_boundary, skip_identifier,
    utf8_valid,
};

verus! {

/// The marks of the children from `i` on, each element under its index. Comments leave none. A
/// statement either leaves none (`routed`), or takes everything after it along.
pub open spec fn child_marks(s: Seq<u8>, kids: Seq<Tree>, i: int, routed: bool) -> Seq<Mark<usize>>
    decreases kids.len() - i,
{
    if 0 <= i < kids.len() {
        match kids[i].kind {
            NodeKind::Text => text_marks::<usize>(slice(s, kids[i].span), 0) + child_marks(
                s,
                kids,
                i + 1,
                routed,
            ),
            NodeKind::Comment { .. } => child_marks(s, kids, i + 1, routed),
            NodeKind::Statement { .. } => if routed {
                child_marks(s, kids, i + 1, routed)
            } else {
                seq![Mark::Elem(i as usize)]
            },
            _ => seq![Mark::Elem(i as usize)] + child_marks(s, kids, i + 1, routed),
        }
    } else {
        Seq::empty()
    }
}

/// The pieces of the children from `i` on.
pub open spec fn child_pieces(
    s: Seq<u8>,
    kids: Seq<Tree>,
    i: int,
    routed: bool,
    braced: bool,
) -> Seq<Piece<usize>> {
    settled(child_marks(s, kids, i, routed), braced)
}

/// The children from `i` on that are neither text nor trivia, by their index. A statement that is not
/// routed is the last: what stands after it belongs to it.
pub open spec fn content_children(kids: Seq<Tree>, i: int, routed: bool) -> Seq<usize>
    decreases kids.len() - i,
{
    if 0 <= i < kids.len() {
        match kids[i].kind {
            NodeKind::Text => content_children(kids, i + 1, routed),
            NodeKind::Comment { .. } => content_children(kids, i + 1, routed),
            NodeKind::Statement { .. } => if routed {
                content_children(kids, i + 1, routed)
            } else {
                seq![i as usize]
            },
            _ => seq![i as usize] + content_children(kids, i + 1, routed),
        }
    } else {
        Seq::empty()
    }
}

/// The elements among the marks of children are the content children, and their breaks stand apart.
proof fn child_marks_hold(s: Seq<u8>, kids: Seq<Tree>, i: int, routed: bool)
    requires
        0 <= i,
    ensures
        breaks_apart(child_marks(s, kids, i, routed)),
        elements(
            child_marks(s, kids, i, routed),
            0,
            child_marks(s, kids, i, routed).len() as int,
        ) == content_children(kids, i, routed),
    decreases kids.len() - i,
{
    if i < kids.len() {
        let rest = child_marks(s, kids, i + 1, routed);
        child_marks_hold(s, kids, i + 1, routed);
        let one = seq![Mark::<usize>::Elem(i as usize)];
        assert(elements(one, 1, 1) =~= Seq::<usize>::empty());
        assert(elements(one, 0, 1) =~= seq![i as usize]);
        match kids[i].kind {
            NodeKind::Text => {
                let text = text_marks::<usize>(slice(s, kids[i].span), 0);
                text_breaks_apart::<usize>(slice(s, kids[i].span), 0);
                text_holds_no_elements::<usize>(slice(s, kids[i].span), 0, 0);
                joined_elements(text, rest, 0);
                assert(elements(text + rest, 0, (text + rest).len() as int)
                    =~= content_children(kids, i, routed));
            },
            NodeKind::Comment { .. } => {},
            NodeKind::Statement { .. } => {},
            _ => {
                joined_elements(one, rest, 0);
            },
        }
    }
}

/// Lowering loses no child: the pieces that the children from `i` on come to hold, in order, every
/// child that is neither text nor trivia.
pub proof fn children_are_kept(
    s: Seq<u8>,
    kids: Seq<Tree>,
    i: int,
    routed: bool,
    braced: bool,
)
    requires
        0 <= i,
    ensures
        piece_elements(child_pieces(s, kids, i, routed, braced)) == content_children(
            kids,
            i,
            routed,
        ),
{
    child_marks_hold(s, kids, i, routed);
    elements_are_kept(child_marks(s, kids, i, routed), braced);
}

/// Is a tree a statement?
pub open spec fn is_statement(t: Tree) -> bool {
    t.kind is Statement
}

/// The end of the run of statements that starts at `i`.
pub open spec fn statements_end(kids: Seq<Tree>, i: int) -> int
    decreases kids.len() - i,
{
    if 0 <= i < kids.len() && is_statement(kids[i]) {
        statements_end(kids, i + 1)
    } else {
        i
    }
}

/// A run of statements ends at or after its start.
pub proof fn statements_end_bounds(kids: Seq<Tree>, i: int)
    requires
        0 <= i <= kids.len(),
    ensures
        i <= statements_end(kids, i) <= kids.len(),
        i < kids.len() && is_statement(kids[i]) ==> i < statements_end(kids, i),
    decreases kids.len() - i,
{
    if i < kids.len() && is_statement(kids[i]) {
        statements_end_bounds(kids, i + 1);
    }
}

/// Does a template literal break on `t`: does it hold a backtick or a `${`, or end in a backslash
/// that would escape the closing backtick?
pub open spec fn breaks_template(t: Seq<u8>) -> bool {
    ||| exists|i: int|
        0 <= i < t.len() && (#[trigger] t[i] == BACKTICK || (t[i] == DOLLAR && at(t, i + 1) == Some(
            LBRACE,
        )))
    ||| !backslashes_pair(t, 0)
}

/// Does every backslash of `t` from `i` on have a byte behind it to pair with?
pub open spec fn backslashes_pair(t: Seq<u8>, i: int) -> bool
    decreases t.len() + 2 - i,
{
    if 0 <= i < t.len() {
        if t[i] == BACKSLASH {
            backslashes_pair(t, i + 2)
        } else {
            backslashes_pair(t, i + 1)
        }
    } else {
        i == t.len()
    }
}

/// The template from `i` on ends with its last byte.
proof fn template_ends_from(t: Seq<u8>, i: int)
    requires
        0 <= i <= t.len(),
        !breaks_template(t),
        backslashes_pair(t, i),
    ensures
        string_body_end(seq![BACKTICK] + t + seq![BACKTICK], i + 1, BACKTICK) == t.len() + 2,
    decreases t.len() - i,
{
    let s = seq![BACKTICK] + t + seq![BACKTICK];
    if i < t.len() {
        assert(s[i + 1] == t[i]);
        assert(t[i] != BACKTICK);
        if t[i] == BACKSLASH {
            assert(i + 2 <= t.len()) by {
                if i + 2 > t.len() {
                    assert(!backslashes_pair(t, i + 2));
                }
            }
            template_ends_from(t, i + 2);
        } else {
            template_ends_from(t, i + 1);
        }
    } else {
        assert(s[i + 1] == BACKTICK);
    }
}

/// Raw text that is written as a template ends where it is meant to: with the last byte of the
/// template.
pub proof fn raw_templates_end(t: Seq<u8>)
    requires
        !breaks_template(t),
    ensures
        string_end(seq![BACKTICK] + t + seq![BACKTICK], 0) == t.len() + 2,
{
    template_ends_from(t, 0);
}

/// The text of a property key: what a quoted one has between its quotes.
pub open spec fn key_name(key: Span, quoted: bool) -> Span {
    if quoted && key.start + 2 <= key.end {
        Span { start: (key.start + 1) as u32, end: (key.end - 1) as u32 }
    } else {
        key
    }
}

/// What a property key spells: a quoted one what its literal does.
pub open spec fn key_text(s: Seq<u8>, key: Span, quoted: bool) -> Seq<u8> {
    match literal(slice(s, key)) {
        Some(text) if quoted => text,
        _ => slice(s, key_name(key, quoted)),
    }
}

/// Is the text of `span` a JavaScript identifier name?
pub open spec fn names_identifier(s: Seq<u8>, span: Span) -> bool {
    span.start < span.end && (char_from(s, span.start as int) matches Some(c) && identifier_start(c))
        && identifier_end(s, span.start as int) == span.end
}

/// The text from `i` on with each backslash dropped before the byte it escapes, after `acc`.
pub open spec fn cooked_after(acc: Seq<u8>, t: Seq<u8>, i: int) -> Seq<u8>
    decreases t.len() - i,
{
    if 0 <= i < t.len() {
        if t[i] == BACKSLASH && i + 1 < t.len() {
            cooked_after(acc.push(t[i + 1]), t, i + 2)
        } else {
            cooked_after(acc.push(t[i]), t, i + 1)
        }
    } else {
        acc
    }
}

/// The first byte of `t` from `i` on that is not white space.
pub open spec fn trim_front(t: Seq<u8>, i: int) -> int
    decreases t.len() - i,
{
    if 0 <= i < t.len() && is_space(t[i]) {
        trim_front(t, i + 1)
    } else {
        i
    }
}

/// The end of `t` from `i` on up to `j` without the white space that ends it.
pub open spec fn trim_back(t: Seq<u8>, i: int, j: int) -> int
    decreases j - i,
{
    if i < j && is_space(t[j - 1]) {
        trim_back(t, i, j - 1)
    } else {
        j
    }
}

/// A url as it is meant: trimmed, and its escapes resolved.
pub open spec fn url_text(t: Seq<u8>) -> Seq<u8> {
    let a = trim_front(t, 0);
    let b = trim_back(t, a, t.len() as int);
    cooked_after(Seq::empty(), t.subrange(a, b), 0)
}

/// Does `needle` stand anywhere in `hay`?
pub open spec fn occurs(hay: Seq<u8>, needle: Seq<u8>) -> bool {
    exists|i: int|
        0 <= i && i + needle.len() <= hay.len() && #[trigger] hay.subrange(i, i + needle.len())
            == needle
}

/// The index name with `n` underscores after it.
pub open spec fn index_name(n: nat) -> Seq<u8> {
    utf8("_i") + Seq::new(n, |i: int| UNDERSCORE)
}

/// The least number of underscores, from `n` on, with which the index name does not stand in `hay`.
pub open spec fn free_index(hay: Seq<u8>, n: nat) -> nat
    decreases hay.len() + 1 - n,
{
    if n <= hay.len() && occurs(hay, index_name(n)) {
        free_index(hay, n + 1)
    } else {
        n
    }
}

/// A name for the index of a loop whose text is `hay`, which stands nowhere in it.
pub open spec fn fresh_index(hay: Seq<u8>) -> Seq<u8> {
    index_name(free_index(hay, 0))
}

/// The name of a loop's index does not stand in the loop's own text.
pub proof fn fresh_index_is_fresh(hay: Seq<u8>)
    ensures
        !occurs(hay, fresh_index(hay)),
{
    free_index_is_free(hay, 0);
}

proof fn free_index_is_free(hay: Seq<u8>, n: nat)
    ensures
        !occurs(hay, index_name(free_index(hay, n))),
    decreases hay.len() + 1 - n,
{
    if n <= hay.len() && occurs(hay, index_name(n)) {
        free_index_is_free(hay, n + 1);
    } else if n > hay.len() {
        assert(index_name(n).len() >= n);
    }
}

/// The marks of the children from `from` on.
pub fn marks_of_children(s: &[u8], kids: &Vec<Node>, from: usize, routed: bool) -> (marks: Vec<
    Mark<usize>,
>)
    requires
        s@.len() + 2 <= usize::MAX,
    ensures
        marks@ == child_marks(s@, trees(kids@), from as int, routed),
{
    let ghost all = trees(kids@);
    let mut out: Vec<Mark<usize>> = Vec::new();
    let mut i: usize = from;
    assert(out@ + child_marks(s@, all, from as int, routed) =~= child_marks(
        s@,
        all,
        from as int,
        routed,
    ));
    while i < kids.len()
        invariant
            all == trees(kids@),
            from <= i,
            s@.len() + 2 <= usize::MAX,
            out@ + child_marks(s@, all, i as int, routed) == child_marks(
                s@,
                all,
                from as int,
                routed,
            ),
        decreases kids@.len() - i,
    {
        let ghost before = out@;
        let ghost rest = child_marks(s@, all, i + 1, routed);
        assert(all[i as int] == kids@[i as int].tree());
        match kids[i].kind {
            NodeKind::Text => {
                let text = slice_of(s, kids[i].span);
                push_text_marks(&mut out, text);
                assert(before + (text_marks::<usize>(text@, 0) + rest) =~= out@ + rest);
            },
            NodeKind::Comment { block: _ } => {},
            NodeKind::Statement { class: _, attach: _ } => {
                if !routed {
                    out.push(Mark::Elem(i));
                    assert(before + seq![Mark::Elem(i)] =~= out@);
                    return out;
                }
            },
            _ => {
                out.push(Mark::Elem(i));
                assert(before + (seq![Mark::Elem(i)] + rest) =~= out@ + rest);
            },
        }
        i = i + 1;
    }
    assert(out@ + child_marks(s@, all, i as int, routed) =~= out@);
    out
}

/// The pieces of the children from `from` on.
pub fn settled_children(
    s: &[u8],
    kids: &Vec<Node>,
    from: usize,
    routed: bool,
    braced: bool,
) -> (children: Vec<Child<usize>>)
    requires
        s@.len() + 2 <= usize::MAX,
    ensures
        pieces(children@) == child_pieces(s@, trees(kids@), from as int, routed, braced),
        valid_utf8(s@) ==> texts_are_valid(pieces(children@)),
{
    proof {
        if valid_utf8(s@) {
            settled_children_are_valid(s@, trees(kids@), from as int, routed, braced);
        }
    }
    settle(&marks_of_children(s, kids, from, routed), braced)
}

/// Where the children of a heading or a list item start: behind its properties, if it has any.
pub open spec fn first_child(kids: Seq<Tree>) -> int {
    if kids.len() > 0 && kids[0].kind == NodeKind::Props {
        1
    } else {
        0
    }
}

/// Where the children of a heading or a list item start.
pub fn start_of_children(kids: &Vec<Node>) -> (from: usize)
    ensures
        from == first_child(trees(kids@)),
        from <= kids@.len(),
{
    if kids.len() > 0 {
        assert(trees(kids@)[0] == kids@[0].tree());
        if kids[0].kind == NodeKind::Props {
            return 1;
        }
    }
    0
}

/// Is a node a statement?
pub fn node_is_statement(n: &Node) -> (yes: bool)
    ensures
        yes == is_statement(n.tree()),
{
    match n.kind {
        NodeKind::Statement { class: _, attach: _ } => true,
        _ => false,
    }
}

/// The end of the run of statements that starts at `from`.
pub fn statement_run_end(kids: &Vec<Node>, from: usize) -> (end: usize)
    requires
        from <= kids@.len(),
    ensures
        end == statements_end(trees(kids@), from as int),
        from <= end <= kids@.len(),
{
    let ghost all = trees(kids@);
    let mut i: usize = from;
    while i < kids.len() && node_is_statement(&kids[i])
        invariant
            all == trees(kids@),
            from <= i <= kids@.len(),
            statements_end(all, i as int) == statements_end(all, from as int),
        decreases kids@.len() - i,
    {
        i = i + 1;
    }
    i
}

/// Does a template literal break on `t`?
pub fn has_template_breaker(t: &[u8]) -> (yes: bool)
    ensures
        yes == breaks_template(t@),
{
    let mut i: usize = 0;
    while i < t.len()
        invariant
            i <= t@.len(),
            forall|k: int|
                0 <= k < i ==> !(#[trigger] t@[k] == BACKTICK || (t@[k] == DOLLAR && at(t@, k + 1)
                    == Some(LBRACE))),
        decreases t@.len() - i,
    {
        let b: u8 = t[i];
        if b == BACKTICK || (b == DOLLAR && get(t, i + 1) == Some(LBRACE)) {
            assert(t@[i as int] == b);
            return true;
        }
        i = i + 1;
    }
    !pairs_backslashes(t)
}

/// Does every backslash of `t` have a byte behind it to pair with?
fn pairs_backslashes(t: &[u8]) -> (yes: bool)
    ensures
        yes == backslashes_pair(t@, 0),
{
    let mut i: usize = 0;
    while i < t.len()
        invariant
            i <= t@.len(),
            backslashes_pair(t@, i as int) == backslashes_pair(t@, 0),
        decreases t@.len() - i,
    {
        if t[i] == BACKSLASH {
            if i + 1 == t.len() {
                assert(!backslashes_pair(t@, i + 2));
                return false;
            }
            i = i + 2;
        } else {
            i = i + 1;
        }
    }
    true
}

/// What a property key spells.
pub fn text_of_key(s: &[u8], key: Span, quoted: bool) -> (text: Vec<u8>)
    requires
        addressable(s@),
    ensures
        text@ == key_text(s@, key, quoted),
        valid_utf8(s@) ==> valid_utf8(text@),
{
    if quoted {
        if let Some(text) = literal_of(slice_of(s, key)) {
            return text;
        }
    }
    let mut text: Vec<u8> = Vec::new();
    text.extend_from_slice(slice_of(s, name_of_key(key, quoted)));
    assert(text@ =~= slice(s@, key_name(key, quoted)));
    text
}

/// The text of a property key.
pub fn name_of_key(key: Span, quoted: bool) -> (name: Span)
    ensures
        name == key_name(key, quoted),
{
    if quoted && key.start < key.end && key.end - key.start >= 2 {
        Span::new(key.start + 1, key.end - 1)
    } else {
        key
    }
}

/// Is the text of `span` a JavaScript identifier name?
pub fn is_identifier_name(source: &str, span: Span) -> (yes: bool)
    requires
        addressable(utf8(source)),
    ensures
        yes == names_identifier(utf8(source), span),
{
    if span.start >= span.end {
        return false;
    }
    match char_at(source, span.start as usize) {
        Some(c) => is_identifier_start(c) && skip_identifier(source, span.start) == span.end,
        None => false,
    }
}

/// Text stays valid as the backslashes of its escapes are dropped.
proof fn cooking_is_valid(acc: Seq<u8>, t: Seq<u8>, i: int)
    requires
        0 <= i <= t.len(),
        valid_utf8(acc + t.skip(i)),
    ensures
        valid_utf8(cooked_after(acc, t, i)),
    decreases t.len() - i,
{
    if i < t.len() {
        if t[i] == BACKSLASH && i + 1 < t.len() {
            let rest = t.skip(i + 1);
            assert(acc + t.skip(i) =~= acc + seq![t[i]] + rest);
            ascii_splits(acc, t[i], rest);
            valid_utf8_concat(acc, rest);
            assert(acc.push(t[i + 1]) + t.skip(i + 2) =~= acc + rest);
            cooking_is_valid(acc.push(t[i + 1]), t, i + 2);
        } else {
            assert(acc.push(t[i]) + t.skip(i + 1) =~= acc + t.skip(i));
            cooking_is_valid(acc.push(t[i]), t, i + 1);
        }
    } else {
        assert(acc + t.skip(i) =~= acc);
    }
}

proof fn front_is_boundary(t: Seq<u8>, i: int)
    requires
        valid_utf8(t),
        boundary(t, i),
    ensures
        boundary(t, trim_front(t, i)),
    decreases t.len() - i,
{
    if i < t.len() && is_space(t[i]) {
        ascii_then_boundary(t, i);
        front_is_boundary(t, i + 1);
    }
}

proof fn back_is_boundary(t: Seq<u8>, i: int, j: int)
    requires
        valid_utf8(t),
        0 <= i <= j,
        boundary(t, j),
    ensures
        i <= trim_back(t, i, j) <= j,
        boundary(t, trim_back(t, i, j)),
    decreases j - i,
{
    if i < j && is_space(t[j - 1]) {
        ascii_then_boundary(t, j - 1);
        back_is_boundary(t, i, j - 1);
    }
}

/// A url is valid UTF-8.
proof fn urls_are_valid(t: Seq<u8>)
    requires
        valid_utf8(t),
    ensures
        valid_utf8(url_text(t)),
{
    line_start_boundary(t, 0);
    front_is_boundary(t, 0);
    let a = trim_front(t, 0);
    back_is_boundary(t, a, t.len() as int);
    let b = trim_back(t, a, t.len() as int);
    cut_is_valid(t, a, b);
    let inner = t.subrange(a, b);
    assert(Seq::<u8>::empty() + inner.skip(0) =~= inner);
    cooking_is_valid(Seq::empty(), inner, 0);
}

/// The name of an index is valid UTF-8.
proof fn index_is_valid(n: nat)
    ensures
        valid_utf8(index_name(n)),
{
    let tail = Seq::new(n, |i: int| UNDERSCORE);
    utf8_valid("_i");
    ascii_is_valid(tail);
    valid_utf8_concat(utf8("_i"), tail);
}

/// A url as it is meant: trimmed, and its escapes resolved.
pub fn cook_url(t: &[u8]) -> (url: Vec<u8>)
    requires
        t@.len() + 2 <= usize::MAX,
    ensures
        url@ == url_text(t@),
        valid_utf8(t@) ==> valid_utf8(url@),
{
    proof {
        if valid_utf8(t@) {
            urls_are_valid(t@);
        }
    }
    let mut a: usize = 0;
    while a < t.len() && ascii_space(t[a])
        invariant
            a <= t@.len(),
            trim_front(t@, a as int) == trim_front(t@, 0),
        decreases t@.len() - a,
    {
        a = a + 1;
    }
    let mut b: usize = t.len();
    while a < b && ascii_space(t[b - 1])
        invariant
            a <= b <= t@.len(),
            trim_back(t@, a as int, b as int) == trim_back(t@, a as int, t@.len() as int),
        decreases b,
    {
        b = b - 1;
    }
    let inner = slice_subrange(t, a, b);
    let mut out: Vec<u8> = Vec::new();
    let mut i: usize = 0;
    assert(out@ =~= Seq::<u8>::empty());
    while i < inner.len()
        invariant
            t@.len() + 2 <= usize::MAX,
            inner@.len() <= t@.len(),
            i <= inner@.len(),
            cooked_after(out@, inner@, i as int) == cooked_after(Seq::empty(), inner@, 0),
        decreases inner@.len() - i,
    {
        if inner[i] == BACKSLASH && i + 1 < inner.len() {
            out.push(inner[i + 1]);
            i = i + 2;
        } else {
            out.push(inner[i]);
            i = i + 1;
        }
    }
    out
}

/// A name for the index of a loop whose text is `hay`.
pub fn fresh_index_name(hay: &[u8]) -> (name: Vec<u8>)
    requires
        hay@.len() + 2 <= usize::MAX,
    ensures
        name@ == fresh_index(hay@),
        valid_utf8(name@),
{
    let mut name: Vec<u8> = Vec::new();
    name.extend_from_slice("_i".as_bytes());
    let mut n: usize = 0;
    assert(name@ =~= index_name(0));
    while n <= hay.len()
        invariant
            hay@.len() + 2 <= usize::MAX,
            n <= hay@.len() + 1,
            name@ == index_name(n as nat),
            free_index(hay@, n as nat) == free_index(hay@, 0),
        decreases hay@.len() + 1 - n,
    {
        let found = memchr::memmem::find(hay, name.as_slice());
        if found.is_none() {
            proof {
                assert forall|i: int|
                    0 <= i && i + name@.len() <= hay@.len() implies #[trigger] hay@.subrange(
                    i,
                    i + name@.len(),
                ) != name@ by {}
                assert(!occurs(hay@, name@));
                index_is_valid(n as nat);
            }
            return name;
        }
        proof {
            let k = found->0 as int;
            assert(hay@.subrange(k, k + name@.len()) == name@);
            assert(occurs(hay@, name@));
        }
        let ghost before = name@;
        name.push(UNDERSCORE);
        n = n + 1;
        assert(name@ =~= index_name(n as nat));
    }
    proof {
        index_is_valid(n as nat);
    }
    name
}

/// Does the text of `span` spell `word`?
pub fn spells(s: &[u8], span: Span, word: &str) -> (yes: bool)
    ensures
        yes == (slice(s@, span) == utf8(word)),
{
    same_bytes(slice_of(s, span), word.as_bytes())
}

/// Is `tag` the host element that `word` names?
pub open spec fn is_host(s: Seq<u8>, tag: NotaTag, word: Seq<u8>) -> bool {
    tag matches NotaTag::Host { name } && slice(s, name) == word
}

/// Is `tag` a host element in which HTML keeps no text: part of a table's structure?
pub open spec fn refuses_text(s: Seq<u8>, tag: NotaTag) -> bool {
    ||| is_host(s, tag, utf8("table")) || is_host(s, tag, utf8("thead"))
    ||| is_host(s, tag, utf8("tbody")) || is_host(s, tag, utf8("tfoot"))
    ||| is_host(s, tag, utf8("tr")) || is_host(s, tag, utf8("colgroup"))
}

/// What an interpolation of a string literal spells.
pub open spec fn interpolated_text(s: Seq<u8>, t: Tree) -> Option<Seq<u8>> {
    if t.kind == NodeKind::Interpolation && t.kids.len() > 0 {
        literal(slice(s, t.kids[0].span))
    } else {
        None
    }
}

/// The text that a child is, if it is text: a run of it, or a string literal interpolated.
pub open spec fn child_text(s: Seq<u8>, kids: Seq<Tree>, p: Piece<usize>) -> Option<Seq<u8>> {
    match p {
        Piece::Text(t) => Some(t),
        Piece::Elem(i) => if i < kids.len() {
            interpolated_text(s, kids[i as int])
        } else {
            None
        },
    }
}

/// Is `t` nothing but white space, and some?
pub open spec fn is_white(t: Seq<u8>) -> bool {
    t.len() > 0 && forall|i: int| 0 <= i < t.len() ==> is_space(#[trigger] t[i])
}

/// Is a piece text of nothing but white space?
pub open spec fn is_white_piece(s: Seq<u8>, kids: Seq<Tree>, p: Piece<usize>) -> bool {
    child_text(s, kids, p) matches Some(t) && is_white(t)
}

/// Does a form interpolate a JSX element or fragment?
pub open spec fn interpolates_element(t: Tree) -> bool {
    t.kind == NodeKind::Interpolation && t.kids.len() > 0 && t.kids[0].kind == (NodeKind::Js {
        tier: ExprTier::Element,
    })
}

/// Does the name of a JSX element go on at `i`?
pub open spec fn element_name_goes_on(s: Seq<u8>, i: int) -> bool {
    at(s, i) matches Some(b) && white_len(s, i) == 0 && (in_class(ByteClass::Head, b) || b == HYPHEN
        || b == COLON)
}

/// Is the JSX element at `i` a table row?
pub open spec fn opens_row(s: Seq<u8>, i: int) -> bool {
    let name = code_start(s, i + 1);
    at(s, name) == Some(LOWER_T) && at(s, name + 1) == Some(LOWER_R) && !element_name_goes_on(s, name + 2)
}

/// Is a piece a table row?
pub open spec fn is_row(s: Seq<u8>, kids: Seq<Tree>, p: Piece<usize>) -> bool {
    p matches Piece::Elem(i) && i < kids.len() && {
        let t = kids[i as int];
        ||| t.kind matches NodeKind::Element { tag, body } && is_host(s, tag, utf8("tr"))
        ||| interpolates_element(t) && opens_row(s, t.kids[0].span.start as int)
    }
}

/// The end of the run of rows, white space among them, that starts at `k`.
pub open spec fn rows_end(s: Seq<u8>, kids: Seq<Tree>, ps: Seq<Piece<usize>>, k: int) -> int
    decreases ps.len() - k,
{
    if 0 <= k < ps.len() && (is_row(s, kids, ps[k]) || is_white_piece(s, kids, ps[k])) {
        rows_end(s, kids, ps, k + 1)
    } else {
        k
    }
}

/// A run of rows ends at or after its start.
pub proof fn rows_end_bounds(s: Seq<u8>, kids: Seq<Tree>, ps: Seq<Piece<usize>>, k: int)
    requires
        0 <= k <= ps.len(),
    ensures
        k <= rows_end(s, kids, ps, k) <= ps.len(),
        k < ps.len() && is_row(s, kids, ps[k]) ==> k < rows_end(s, kids, ps, k),
    decreases ps.len() - k,
{
    if k < ps.len() && (is_row(s, kids, ps[k]) || is_white_piece(s, kids, ps[k])) {
        rows_end_bounds(s, kids, ps, k + 1);
    }
}

/// Is `tag` the host element that `word` names?
pub fn tag_is_host(s: &[u8], tag: NotaTag, word: &str) -> (yes: bool)
    ensures
        yes == is_host(s@, tag, utf8(word)),
{
    match tag {
        NotaTag::Host { name } => spells(s, name, word),
        _ => false,
    }
}

/// Is `tag` part of a table's structure, where HTML keeps no text?
pub fn is_foster_parenting_tag(s: &[u8], tag: NotaTag) -> (yes: bool)
    ensures
        yes == refuses_text(s@, tag),
{
    tag_is_host(s, tag, "table") || tag_is_host(s, tag, "thead") || tag_is_host(s, tag, "tbody")
        || tag_is_host(s, tag, "tfoot") || tag_is_host(s, tag, "tr") || tag_is_host(
        s,
        tag,
        "colgroup",
    )
}

/// What an interpolation of a string literal spells.
pub fn interpolated(s: &[u8], n: &Node) -> (text: Option<Vec<u8>>)
    requires
        addressable(s@),
    ensures
        text matches Some(v) ==> interpolated_text(s@, n.tree()) == Some(v@),
        text is None ==> interpolated_text(s@, n.tree()) is None,
        valid_utf8(s@) ==> (text matches Some(v) ==> valid_utf8(v@)),
{
    if n.kind == NodeKind::Interpolation && n.kids.len() > 0 {
        assert(n.tree().kids[0] == n.kids@[0].tree());
        literal_of(slice_of(s, n.kids[0].span))
    } else {
        None
    }
}

/// Is `t` nothing but white space, and some?
fn is_all_white(t: &[u8]) -> (yes: bool)
    ensures
        yes == is_white(t@),
{
    let mut i: usize = 0;
    while i < t.len()
        invariant
            i <= t@.len(),
            forall|k: int| 0 <= k < i ==> is_space(#[trigger] t@[k]),
        decreases t@.len() - i,
    {
        if !ascii_space(t[i]) {
            assert(!is_space(t@[i as int]));
            return false;
        }
        i = i + 1;
    }
    t.len() > 0
}

/// Is a child text of nothing but white space?
pub fn is_whitespace_text(s: &[u8], kids: &Vec<Node>, child: &Child<usize>) -> (yes: bool)
    requires
        addressable(s@),
    ensures
        yes == is_white_piece(s@, trees(kids@), child.piece()),
{
    match child {
        Child::Text(t) => is_all_white(t.as_slice()),
        Child::Elem(i) => {
            let i: usize = *i;
            if i < kids.len() {
                assert(trees(kids@)[i as int] == kids@[i as int].tree());
                match interpolated(s, &kids[i]) {
                    Some(text) => is_all_white(text.as_slice()),
                    None => false,
                }
            } else {
                false
            }
        },
    }
}

/// Does a form interpolate a JSX element or fragment?
pub fn is_interpolated_element(n: &Node) -> (yes: bool)
    ensures
        yes == interpolates_element(n.tree()),
{
    assert(n.kids@.len() > 0 ==> n.tree().kids[0] == n.kids@[0].tree());
    n.kind == NodeKind::Interpolation && n.kids.len() > 0 && n.kids[0].kind == (NodeKind::Js {
        tier: ExprTier::Element,
    })
}

/// Is the JSX element at `i` a table row?
fn is_row_element(s: &[u8], i: usize) -> (yes: bool)
    requires
        addressable(s@),
    ensures
        yes == opens_row(s@, i as int),
{
    if i >= s.len() {
        return false;
    }
    let name: usize = find_code(s, i + 1);
    if get(s, name) != Some(LOWER_T) || get(s, name + 1) != Some(LOWER_R) {
        return false;
    }
    match get(s, name + 2) {
        Some(b) => white_at(s, name + 2) > 0 || !(class_holds(ByteClass::Head, b) || b == HYPHEN || b
            == COLON),
        None => true,
    }
}

/// Is a child a table row?
pub fn is_table_row(s: &[u8], kids: &Vec<Node>, child: &Child<usize>) -> (yes: bool)
    requires
        addressable(s@),
    ensures
        yes == is_row(s@, trees(kids@), child.piece()),
{
    match child {
        Child::Elem(i) => {
            if *i >= kids.len() {
                return false;
            }
            let n = &kids[*i];
            assert(n.kids@.len() > 0 ==> n.tree().kids[0] == n.kids@[0].tree());
            match n.kind {
                NodeKind::Element { tag, body: _ } => tag_is_host(s, tag, "tr"),
                _ => is_interpolated_element(n) && is_row_element(s, n.kids[0].span.start as usize),
            }
        },
        Child::Text(_) => false,
    }
}

/// The end of the run of rows that starts at `from`.
pub fn row_run_end(s: &[u8], kids: &Vec<Node>, children: &Vec<Child<usize>>, from: usize) -> (end:
    usize)
    requires
        addressable(s@),
        from <= children@.len(),
    ensures
        end == rows_end(s@, trees(kids@), pieces(children@), from as int),
        from <= end <= children@.len(),
{
    let ghost all = trees(kids@);
    let ghost ps = pieces(children@);
    let mut i: usize = from;
    while i < children.len() && (is_table_row(s, kids, &children[i]) || is_whitespace_text(
        s,
        kids,
        &children[i],
    ))
        invariant
            addressable(s@),
            all == trees(kids@),
            ps == pieces(children@),
            from <= i <= children@.len(),
            rows_end(s@, all, ps, i as int) == rows_end(s@, all, ps, from as int),
        decreases children@.len() - i,
    {
        i = i + 1;
    }
    i
}

} // verus!
