//! The tokens of embedded JavaScript, painted.
//!
//! A JavaScript lexer says what each token is. It cannot tell a `}` that closes a brace from one
//! that closes a substitution of a template: that is counted here, and where a substitution ends the
//! lexer is asked for the part of the template that goes on from there.

use vstd::prelude::*;
use crate::ascii::{SLASH, STAR};
use crate::bytes::{addressable, at, at_pair, find_pair, next_pair, next_pair_first, utf8, Span};
use crate::grammar::{ask, query, Input};
use crate::highlight::{collect_structural, fits, structural, NotaHighlightKind, NotaHighlightSpan};
use crate::js::{
    answer, answer_answers, find_line_break, line_comment_bounds, line_comment_end, white_at,
    white_len, JsAnswer, JsAsk, JsLexeme, JsQuery,
};
use crate::reader::Scope;
use crate::tree::{trees, Node, Tree};

verus! {

/// The kind that a token is painted as. A name is not painted.
pub open spec fn lexeme_kind(class: JsLexeme) -> Option<NotaHighlightKind> {
    match class {
        JsLexeme::Name => None,
        JsLexeme::Keyword => Some(NotaHighlightKind::JsKeyword),
        JsLexeme::Number => Some(NotaHighlightKind::JsNumber),
        JsLexeme::Text => Some(NotaHighlightKind::JsString),
        JsLexeme::TemplateHead => Some(NotaHighlightKind::JsString),
        JsLexeme::TemplateMiddle => Some(NotaHighlightKind::JsString),
        JsLexeme::TemplateTail => Some(NotaHighlightKind::JsString),
        JsLexeme::OpenBrace => Some(NotaHighlightKind::JsOperator),
        JsLexeme::CloseBrace => Some(NotaHighlightKind::JsOperator),
        JsLexeme::Operator => Some(NotaHighlightKind::JsOperator),
    }
}

/// A token painted.
pub open spec fn with_lexeme(
    spans: Seq<NotaHighlightSpan>,
    span: Span,
    class: JsLexeme,
) -> Seq<NotaHighlightSpan> {
    match lexeme_kind(class) {
        Some(kind) => spans.push(NotaHighlightSpan { start: span.start, end: span.end, kind }),
        None => spans,
    }
}

/// A comment from `p` to `q` painted.
pub open spec fn with_comment(spans: Seq<NotaHighlightSpan>, p: int, q: int) -> Seq<
    NotaHighlightSpan,
> {
    spans.push(
        NotaHighlightSpan { start: p as u32, end: q as u32, kind: NotaHighlightKind::JsComment },
    )
}

/// The comments from `p` on painted, up to the next token or `e`. One that is not closed before `e`
/// is none.
pub open spec fn with_comments(spans: Seq<NotaHighlightSpan>, s: Seq<u8>, p: int, e: int) -> Seq<
    NotaHighlightSpan,
>
    decreases s.len() + 3 - p,
{
    if 0 <= p < e <= s.len() {
        if white_len(s, p) > 0 {
            with_comments(spans, s, p + white_len(s, p), e)
        } else if at(s, p) == Some(SLASH) && at(s, p + 1) == Some(SLASH) {
            proof {
                line_comment_bounds(s, p + 2);
            }
            let end = line_comment_end(s, p + 2);
            let q = if end < e {
                end
            } else {
                e
            };
            with_comments(with_comment(spans, p, q), s, q, e)
        } else if at(s, p) == Some(SLASH) && at(s, p + 1) == Some(STAR) {
            proof {
                next_pair_first(s, p + 2, STAR, SLASH);
            }
            match next_pair(s, p + 2, STAR, SLASH) {
                Some(close) => if close + 2 <= e {
                    with_comments(with_comment(spans, p, close + 2), s, close + 2, e)
                } else {
                    spans
                },
                None => spans,
            }
        } else {
            spans
        }
    } else {
        spans
    }
}

/// How far painting has come.
pub struct Lexed {
    /// The spans painted.
    pub spans: Seq<NotaHighlightSpan>,
    /// Where it goes on.
    pub at: int,
    /// Is there nothing more to paint in this extent?
    pub done: bool,
    /// The question that stops it, if one does.
    pub ask: Option<JsQuery>,
}

/// Painting that goes on.
pub open spec fn goes_on(spans: Seq<NotaHighlightSpan>, at: int) -> Lexed {
    Lexed { spans, at, done: false, ask: None }
}

/// Painting that has come to the end of the extent.
pub open spec fn is_done(spans: Seq<NotaHighlightSpan>, at: int) -> Lexed {
    Lexed { spans, at, done: true, ask: None }
}

/// Painting that stops at a question.
pub open spec fn asks(spans: Seq<NotaHighlightSpan>, at: int, query: JsQuery) -> Lexed {
    Lexed { spans, at, done: true, ask: Some(query) }
}

/// The tokens from `p` to `e` painted.
pub open spec fn tokens(d: Input, e: int, spans: Seq<NotaHighlightSpan>, p: int) -> Lexed
    decreases d.s.len() + 2 - p, 1int,
{
    match ask(d, JsAsk::Lexeme, p, e) {
        Some(JsAnswer::Lexeme { span, what: class }) => {
            proof {
                answer_answers(d.s, d.facts, query(JsAsk::Lexeme, p, e), 0);
            }
            let here = with_lexeme(
                with_comments(spans, d.s, p, span.start as int),
                span,
                class,
            );
            if class == JsLexeme::TemplateHead {
                let r = template(d, e, here, span.end as int, 0);
                if r.done || !(span.end <= r.at <= d.s.len()) {
                    r
                } else {
                    tokens(d, e, r.spans, r.at)
                }
            } else {
                tokens(d, e, here, span.end as int)
            }
        },
        Some(_) => is_done(with_comments(spans, d.s, p, e), e),
        None => asks(spans, p, query(JsAsk::Lexeme, p, e)),
    }
}

/// The rest of a template painted, from inside a substitution at `p` that stands `depth` braces
/// deep.
pub open spec fn template(
    d: Input,
    e: int,
    spans: Seq<NotaHighlightSpan>,
    p: int,
    depth: int,
) -> Lexed
    decreases d.s.len() + 2 - p, 0int,
{
    match ask(d, JsAsk::Lexeme, p, e) {
        Some(JsAnswer::Lexeme { span, what: class }) => {
            proof {
                answer_answers(d.s, d.facts, query(JsAsk::Lexeme, p, e), 0);
            }
            let gap = with_comments(spans, d.s, p, span.start as int);
            if class == JsLexeme::CloseBrace && depth <= 0 {
                match ask(d, JsAsk::Resume, span.start as int, e) {
                    Some(JsAnswer::Lexeme { span: tail, what: part }) => {
                        proof {
                            answer_answers(
                                d.s,
                                d.facts,
                                query(JsAsk::Resume, span.start as int, e),
                                0,
                            );
                        }
                        let here = with_lexeme(gap, tail, part);
                        if part == JsLexeme::TemplateMiddle {
                            template(d, e, here, tail.end as int, 0)
                        } else {
                            goes_on(here, tail.end as int)
                        }
                    },
                    Some(_) => is_done(gap, e),
                    None => asks(gap, span.start as int, query(
                        JsAsk::Resume,
                        span.start as int,
                        e,
                    )),
                }
            } else {
                let here = with_lexeme(gap, span, class);
                if class == JsLexeme::TemplateHead {
                    let r = template(d, e, here, span.end as int, 0);
                    if r.done || !(span.end <= r.at <= d.s.len()) {
                        r
                    } else {
                        template(d, e, r.spans, r.at, depth)
                    }
                } else if class == JsLexeme::OpenBrace {
                    template(d, e, here, span.end as int, depth + 1)
                } else if class == JsLexeme::CloseBrace {
                    template(d, e, here, span.end as int, depth - 1)
                } else {
                    template(d, e, here, span.end as int, depth)
                }
            }
        },
        Some(_) => is_done(with_comments(spans, d.s, p, e), e),
        None => asks(spans, p, query(JsAsk::Lexeme, p, e)),
    }
}

/// The tokens of the extents from `k` on painted, or the question that stops it.
pub open spec fn extents(d: Input, spans: Seq<NotaHighlightSpan>, ranges: Seq<Span>, k: int) -> (
    Seq<NotaHighlightSpan>,
    Option<JsQuery>,
)
    decreases ranges.len() - k,
{
    if 0 <= k < ranges.len() {
        let r = tokens(d, ranges[k].end as int, spans, ranges[k].start as int);
        if r.ask is Some {
            (r.spans, r.ask)
        } else {
            extents(d, r.spans, ranges, k + 1)
        }
    } else {
        (spans, None)
    }
}

/// Is `a` painted before `b`: does it start earlier, or reach further from the same start?
pub open spec fn lies_under(a: NotaHighlightSpan, b: NotaHighlightSpan) -> bool {
    a.start < b.start || (a.start == b.start && a.end > b.end)
}

/// Where `x` goes among the first `n` spans: behind the last that it does not lie under.
pub open spec fn span_place(spans: Seq<NotaHighlightSpan>, x: NotaHighlightSpan, n: int) -> int
    decreases n,
{
    if 0 < n <= spans.len() && lies_under(x, spans[n - 1]) {
        span_place(spans, x, n - 1)
    } else {
        n
    }
}

/// The first `n` spans in the order in which they are painted.
pub open spec fn paint_order(spans: Seq<NotaHighlightSpan>, n: int) -> Seq<NotaHighlightSpan>
    decreases n,
{
    if 0 < n <= spans.len() {
        let before = paint_order(spans, n - 1);
        let x = spans[n - 1];
        before.insert(span_place(before, x, before.len() as int), x)
    } else {
        Seq::empty()
    }
}

/// Spans of which none lies under an earlier one.
pub open spec fn in_paint_order(spans: Seq<NotaHighlightSpan>) -> bool {
    forall|i: int, j: int|
        0 <= i < j < spans.len() ==> !lies_under(#[trigger] spans[j], #[trigger] spans[i])
}

/// A span goes where those before it do not lie above it, and those behind it do.
proof fn span_place_splits(spans: Seq<NotaHighlightSpan>, x: NotaHighlightSpan, n: int)
    requires
        0 <= n <= spans.len(),
        in_paint_order(spans),
        forall|i: int| n <= i < spans.len() ==> lies_under(x, #[trigger] spans[i]),
    ensures
        0 <= span_place(spans, x, n) <= n,
        forall|i: int|
            span_place(spans, x, n) <= i < spans.len() ==> lies_under(x, #[trigger] spans[i]),
        forall|i: int| 0 <= i < span_place(spans, x, n) ==> !lies_under(x, #[trigger] spans[i]),
    decreases n,
{
    if n > 0 {
        if lies_under(x, spans[n - 1]) {
            span_place_splits(spans, x, n - 1);
        } else {
            assert forall|i: int| 0 <= i < n implies !lies_under(x, #[trigger] spans[i]) by {
                if i < n - 1 {
                    assert(!lies_under(spans[n - 1], spans[i]));
                }
            }
        }
    }
}

/// Spans come out outer first, and they are those that were painted.
pub proof fn spans_in_paint_order(spans: Seq<NotaHighlightSpan>, n: int)
    requires
        0 <= n <= spans.len(),
    ensures
        in_paint_order(paint_order(spans, n)),
        paint_order(spans, n).len() == n,
        paint_order(spans, n).to_multiset() == spans.take(n).to_multiset(),
    decreases n,
{
    if n > 0 {
        spans_in_paint_order(spans, n - 1);
        let before = paint_order(spans, n - 1);
        let x = spans[n - 1];
        let k = span_place(before, x, before.len() as int);
        span_place_splits(before, x, before.len() as int);
        let after = before.insert(k, x);
        assert forall|i: int, j: int| 0 <= i < j < after.len() implies !lies_under(
            #[trigger] after[j],
            #[trigger] after[i],
        ) by {
            assert(i < k ==> after[i] == before[i]);
            assert(i == k ==> after[i] == x);
            assert(i > k ==> after[i] == before[i - 1]);
            assert(j < k ==> after[j] == before[j]);
            assert(j == k ==> after[j] == x);
            assert(j > k ==> after[j] == before[j - 1]);
        }
        assert(after.to_multiset() =~= before.to_multiset().insert(x)) by {
            vstd::seq_lib::to_multiset_insert(before, k, x);
        }
        assert(spans.take(n) =~= spans.take(n - 1).push(x));
        spans.take(n - 1).to_multiset_ensures();
    } else {
        assert(spans.take(0) =~= Seq::<NotaHighlightSpan>::empty());
    }
}

/// Spans that fit still do once they are in paint order.
proof fn ordered_spans_fit(s: Seq<u8>, spans: Seq<NotaHighlightSpan>)
    requires
        fits(s, spans),
    ensures
        fits(s, paint_order(spans, spans.len() as int)),
{
    let n = spans.len() as int;
    let ordered = paint_order(spans, n);
    spans_in_paint_order(spans, n);
    assert(spans.take(n) =~= spans);
    assert forall|k: int| 0 <= k < ordered.len() implies (#[trigger] ordered[k]).start
        < ordered[k].end <= s.len() by {
        ordered.to_multiset_ensures();
        spans.to_multiset_ensures();
        assert(ordered.contains(ordered[k]));
        assert(ordered.to_multiset().count(ordered[k]) > 0);
        assert(spans.to_multiset().count(ordered[k]) > 0);
        assert(spans.contains(ordered[k]));
    }
}

/// A document painted, markup and JavaScript, or the question that stops it.
pub open spec fn highlighted(d: Input, nodes: Seq<Tree>) -> Result<Seq<NotaHighlightSpan>, JsQuery> {
    let paint = structural(d.s, nodes);
    let (spans, ask) = extents(d, paint.spans, paint.ranges, 0);
    match ask {
        Some(query) => Err(query),
        None => Ok(paint_order(spans, spans.len() as int)),
    }
}

/// Does `more` hold all that `spans` holds?
pub open spec fn keeps(spans: Seq<NotaHighlightSpan>, more: Seq<NotaHighlightSpan>) -> bool {
    forall|x: NotaHighlightSpan| #[trigger] spans.contains(x) ==> more.contains(x)
}

proof fn pushes_keep(spans: Seq<NotaHighlightSpan>, y: NotaHighlightSpan)
    ensures
        keeps(spans, spans.push(y)),
        spans.push(y).contains(y),
{
    let more = spans.push(y);
    assert forall|x: NotaHighlightSpan| #[trigger] spans.contains(x) implies more.contains(x) by {
        let i = choose|i: int| 0 <= i < spans.len() && spans[i] == x;
        assert(more[i] == x);
    }
    assert(more[spans.len() as int] == y);
}

proof fn comments_keep(spans: Seq<NotaHighlightSpan>, s: Seq<u8>, p: int, e: int)
    ensures
        keeps(spans, with_comments(spans, s, p, e)),
    decreases s.len() + 3 - p,
{
    if 0 <= p < e <= s.len() {
        if white_len(s, p) > 0 {
            comments_keep(spans, s, p + white_len(s, p), e);
        } else if at(s, p) == Some(SLASH) && at(s, p + 1) == Some(SLASH) {
            line_comment_bounds(s, p + 2);
            let end = line_comment_end(s, p + 2);
            let q = if end < e {
                end
            } else {
                e
            };
            pushes_keep(
                spans,
                NotaHighlightSpan {
                    start: p as u32,
                    end: q as u32,
                    kind: NotaHighlightKind::JsComment,
                },
            );
            comments_keep(with_comment(spans, p, q), s, q, e);
        } else if at(s, p) == Some(SLASH) && at(s, p + 1) == Some(STAR) {
            next_pair_first(s, p + 2, STAR, SLASH);
            if let Some(close) = next_pair(s, p + 2, STAR, SLASH) {
                if close + 2 <= e {
                    pushes_keep(
                        spans,
                        NotaHighlightSpan {
                            start: p as u32,
                            end: (close + 2) as u32,
                            kind: NotaHighlightKind::JsComment,
                        },
                    );
                    comments_keep(with_comment(spans, p, close + 2), s, close + 2, e);
                }
            }
        }
    }
}

proof fn lexemes_keep(spans: Seq<NotaHighlightSpan>, span: Span, class: JsLexeme)
    ensures
        keeps(spans, with_lexeme(spans, span, class)),
        lexeme_kind(class) matches Some(kind) ==> with_lexeme(spans, span, class).contains(
            NotaHighlightSpan { start: span.start, end: span.end, kind },
        ),
{
    if let Some(kind) = lexeme_kind(class) {
        pushes_keep(spans, NotaHighlightSpan { start: span.start, end: span.end, kind });
    }
}

proof fn tokens_keep(d: Input, e: int, spans: Seq<NotaHighlightSpan>, p: int)
    ensures
        keeps(spans, tokens(d, e, spans, p).spans),
    decreases d.s.len() + 2 - p, 1int,
{
    match ask(d, JsAsk::Lexeme, p, e) {
        Some(JsAnswer::Lexeme { span, what: class }) => {
            answer_answers(d.s, d.facts, query(JsAsk::Lexeme, p, e), 0);
            let gap = with_comments(spans, d.s, p, span.start as int);
            comments_keep(spans, d.s, p, span.start as int);
            lexemes_keep(gap, span, class);
            let here = with_lexeme(gap, span, class);
            if class == JsLexeme::TemplateHead {
                template_keeps(d, e, here, span.end as int, 0);
                let r = template(d, e, here, span.end as int, 0);
                if !(r.done || !(span.end <= r.at <= d.s.len())) {
                    tokens_keep(d, e, r.spans, r.at);
                }
            } else {
                tokens_keep(d, e, here, span.end as int);
            }
        },
        Some(_) => comments_keep(spans, d.s, p, e),
        None => {},
    }
}

proof fn template_keeps(d: Input, e: int, spans: Seq<NotaHighlightSpan>, p: int, depth: int)
    ensures
        keeps(spans, template(d, e, spans, p, depth).spans),
    decreases d.s.len() + 2 - p, 0int,
{
    match ask(d, JsAsk::Lexeme, p, e) {
        Some(JsAnswer::Lexeme { span, what: class }) => {
            answer_answers(d.s, d.facts, query(JsAsk::Lexeme, p, e), 0);
            let gap = with_comments(spans, d.s, p, span.start as int);
            comments_keep(spans, d.s, p, span.start as int);
            if class == JsLexeme::CloseBrace && depth <= 0 {
                if let Some(JsAnswer::Lexeme { span: tail, what: part }) = ask(
                    d,
                    JsAsk::Resume,
                    span.start as int,
                    e,
                ) {
                    answer_answers(d.s, d.facts, query(JsAsk::Resume, span.start as int, e), 0);
                    lexemes_keep(gap, tail, part);
                    if part == JsLexeme::TemplateMiddle {
                        template_keeps(d, e, with_lexeme(gap, tail, part), tail.end as int, 0);
                    }
                }
            } else {
                lexemes_keep(gap, span, class);
                let here = with_lexeme(gap, span, class);
                if class == JsLexeme::TemplateHead {
                    template_keeps(d, e, here, span.end as int, 0);
                    let r = template(d, e, here, span.end as int, 0);
                    if !(r.done || !(span.end <= r.at <= d.s.len())) {
                        template_keeps(d, e, r.spans, r.at, depth);
                    }
                } else if class == JsLexeme::OpenBrace {
                    template_keeps(d, e, here, span.end as int, depth + 1);
                } else if class == JsLexeme::CloseBrace {
                    template_keeps(d, e, here, span.end as int, depth - 1);
                } else {
                    template_keeps(d, e, here, span.end as int, depth);
                }
            }
        },
        Some(_) => comments_keep(spans, d.s, p, e),
        None => {},
    }
}

proof fn extents_keep(d: Input, spans: Seq<NotaHighlightSpan>, ranges: Seq<Span>, k: int)
    ensures
        keeps(spans, extents(d, spans, ranges, k).0),
    decreases ranges.len() - k,
{
    if 0 <= k < ranges.len() {
        tokens_keep(d, ranges[k].end as int, spans, ranges[k].start as int);
        let r = tokens(d, ranges[k].end as int, spans, ranges[k].start as int);
        if r.ask is None {
            extents_keep(d, r.spans, ranges, k + 1);
        }
    }
}

/// Is the code from `p` up to `q` made of tokens, none of which opens a template?
pub open spec fn reaches(d: Input, e: int, p: int, q: int) -> bool
    decreases d.s.len() + 2 - p,
{
    p == q || match ask(d, JsAsk::Lexeme, p, e) {
        Some(JsAnswer::Lexeme { span, what }) => what != JsLexeme::TemplateHead && p < span.end
            <= d.s.len() && reaches(d, e, span.end as int, q),
        _ => false,
    }
}

proof fn reached_tokens_are_painted(
    d: Input,
    e: int,
    spans: Seq<NotaHighlightSpan>,
    p: int,
    q: int,
    span: Span,
    what: JsLexeme,
)
    requires
        reaches(d, e, p, q),
        ask(d, JsAsk::Lexeme, q, e) == Some(JsAnswer::Lexeme { span, what }),
    ensures
        lexeme_kind(what) matches Some(kind) ==> tokens(d, e, spans, p).spans.contains(
            NotaHighlightSpan { start: span.start, end: span.end, kind },
        ),
    decreases d.s.len() + 2 - p,
{
    if let Some(JsAnswer::Lexeme { span: first, what: class }) = ask(d, JsAsk::Lexeme, p, e) {
        answer_answers(d.s, d.facts, query(JsAsk::Lexeme, p, e), 0);
        let gap = with_comments(spans, d.s, p, first.start as int);
        lexemes_keep(gap, first, class);
        let here = with_lexeme(gap, first, class);
        if p == q {
            if class == JsLexeme::TemplateHead {
                template_keeps(d, e, here, first.end as int, 0);
                let r = template(d, e, here, first.end as int, 0);
                if !(r.done || !(first.end <= r.at <= d.s.len())) {
                    tokens_keep(d, e, r.spans, r.at);
                }
            } else {
                tokens_keep(d, e, here, first.end as int);
            }
        } else {
            reached_tokens_are_painted(d, e, here, first.end as int, q, span, what);
        }
    }
}

proof fn reached_extents_are_painted(
    d: Input,
    spans: Seq<NotaHighlightSpan>,
    ranges: Seq<Span>,
    k: int,
    n: int,
    q: int,
    span: Span,
    what: JsLexeme,
)
    requires
        0 <= k <= n < ranges.len(),
        extents(d, spans, ranges, k).1 is None,
        reaches(d, ranges[n].end as int, ranges[n].start as int, q),
        ask(d, JsAsk::Lexeme, q, ranges[n].end as int) == Some(JsAnswer::Lexeme { span, what }),
    ensures
        lexeme_kind(what) matches Some(kind) ==> extents(d, spans, ranges, k).0.contains(
            NotaHighlightSpan { start: span.start, end: span.end, kind },
        ),
    decreases n - k,
{
    let (a, e) = (ranges[k].start as int, ranges[k].end as int);
    let r = tokens(d, e, spans, a);
    if k == n {
        reached_tokens_are_painted(d, e, spans, a, q, span, what);
        extents_keep(d, r.spans, ranges, k + 1);
    } else {
        reached_extents_are_painted(d, r.spans, ranges, k + 1, n, q, span, what);
    }
}

/// Highlighting holds all that the markup was painted as, and every token of the collected code, by
/// what the lexer says it is: keywords, numbers, texts, and operators.
pub proof fn highlights_hold_markup_and_tokens(
    d: Input,
    nodes: Seq<Tree>,
    n: int,
    q: int,
    span: Span,
    what: JsLexeme,
)
    requires
        highlighted(d, nodes) is Ok,
        0 <= n < structural(d.s, nodes).ranges.len(),
        reaches(
            d,
            structural(d.s, nodes).ranges[n].end as int,
            structural(d.s, nodes).ranges[n].start as int,
            q,
        ),
        ask(d, JsAsk::Lexeme, q, structural(d.s, nodes).ranges[n].end as int) == Some(
            JsAnswer::Lexeme { span, what },
        ),
    ensures
        ({
            let all = highlighted(d, nodes)->Ok_0;
            let painted_as = |kind: NotaHighlightKind|
                all.contains(NotaHighlightSpan { start: span.start, end: span.end, kind });
            &&& keeps(structural(d.s, nodes).spans, all)
            &&& what == JsLexeme::Keyword ==> painted_as(NotaHighlightKind::JsKeyword)
            &&& what == JsLexeme::Number ==> painted_as(NotaHighlightKind::JsNumber)
            &&& what == JsLexeme::Text || what == JsLexeme::TemplateHead ==> painted_as(
                NotaHighlightKind::JsString,
            )
            &&& what == JsLexeme::Operator || what == JsLexeme::OpenBrace || what
                == JsLexeme::CloseBrace ==> painted_as(NotaHighlightKind::JsOperator)
        }),
{
    let paint = structural(d.s, nodes);
    let (spans, ask_) = extents(d, paint.spans, paint.ranges, 0);
    let all = paint_order(spans, spans.len() as int);
    extents_keep(d, paint.spans, paint.ranges, 0);
    reached_extents_are_painted(d, paint.spans, paint.ranges, 0, n, q, span, what);
    spans_in_paint_order(spans, spans.len() as int);
    assert(spans.take(spans.len() as int) =~= spans);
    spans.to_multiset_ensures();
    all.to_multiset_ensures();
    assert forall|x: NotaHighlightSpan| #[trigger] spans.contains(x) implies all.contains(x) by {
        assert(spans.to_multiset().count(x) > 0);
        assert(all.to_multiset().count(x) > 0);
    }
}

/// Highlighting holds all that the markup was painted as.
pub proof fn highlights_hold_markup(d: Input, nodes: Seq<Tree>)
    requires
        highlighted(d, nodes) is Ok,
    ensures
        keeps(structural(d.s, nodes).spans, highlighted(d, nodes)->Ok_0),
{
    let paint = structural(d.s, nodes);
    let spans = extents(d, paint.spans, paint.ranges, 0).0;
    let all = paint_order(spans, spans.len() as int);
    extents_keep(d, paint.spans, paint.ranges, 0);
    spans_in_paint_order(spans, spans.len() as int);
    assert(spans.take(spans.len() as int) =~= spans);
    spans.to_multiset_ensures();
    all.to_multiset_ensures();
    assert forall|x: NotaHighlightSpan| #[trigger] spans.contains(x) implies all.contains(x) by {
        assert(spans.to_multiset().count(x) > 0);
        assert(all.to_multiset().count(x) > 0);
    }
}

/// How far painting has come, without the spans.
struct Reach {
    at: u32,
    done: bool,
    ask: Option<JsQuery>,
}

/// How far painting has come.
spec fn lexed(spans: Seq<NotaHighlightSpan>, r: Reach) -> Lexed {
    Lexed { spans, at: r.at as int, done: r.done, ask: r.ask }
}

/// The kind that a token is painted as.
pub fn classify_js_kind(class: JsLexeme) -> (kind: Option<NotaHighlightKind>)
    ensures
        kind == lexeme_kind(class),
{
    match class {
        JsLexeme::Name => None,
        JsLexeme::Keyword => Some(NotaHighlightKind::JsKeyword),
        JsLexeme::Number => Some(NotaHighlightKind::JsNumber),
        JsLexeme::Text => Some(NotaHighlightKind::JsString),
        JsLexeme::TemplateHead => Some(NotaHighlightKind::JsString),
        JsLexeme::TemplateMiddle => Some(NotaHighlightKind::JsString),
        JsLexeme::TemplateTail => Some(NotaHighlightKind::JsString),
        JsLexeme::OpenBrace => Some(NotaHighlightKind::JsOperator),
        JsLexeme::CloseBrace => Some(NotaHighlightKind::JsOperator),
        JsLexeme::Operator => Some(NotaHighlightKind::JsOperator),
    }
}

/// Paint a token.
fn push_lexeme(out: &mut Vec<NotaHighlightSpan>, span: Span, class: JsLexeme)
    ensures
        final(out)@ == with_lexeme(old(out)@, span, class),
        forall|s: Seq<u8>| #[trigger]
            fits(s, old(out)@) && span.start < span.end <= s.len() ==> fits(s, final(out)@),
{
    if let Some(kind) = classify_js_kind(class) {
        out.push(NotaHighlightSpan { start: span.start, end: span.end, kind });
    }
}

/// Paint the comments from `from` to `e`.
fn push_comments(source: &str, out: &mut Vec<NotaHighlightSpan>, from: u32, e: u32)
    requires
        addressable(utf8(source)),
        from <= e <= utf8(source).len(),
    ensures
        final(out)@ == with_comments(old(out)@, utf8(source), from as int, e as int),
        fits(utf8(source), old(out)@) ==> fits(utf8(source), final(out)@),
{
    let s = source.as_bytes();
    let mut p: u32 = from;
    while p < e
        invariant
            addressable(s@),
            s@ == utf8(source),
            from <= p <= s@.len(),
            from <= e <= s@.len(),
            fits(s@, old(out)@) ==> fits(s@, out@),
            with_comments(out@, s@, p as int, e as int) == with_comments(
                old(out)@,
                s@,
                from as int,
                e as int,
            ),
        decreases s@.len() - p,
    {
        let white: usize = white_at(s, p as usize);
        if white > 0 {
            p = p + white as u32;
        } else if at_pair(s, p as usize, SLASH, SLASH) {
            let end: u32 = find_line_break(s, p as usize + 2) as u32;
            let q: u32 = if end < e {
                end
            } else {
                e
            };
            out.push(NotaHighlightSpan { start: p, end: q, kind: NotaHighlightKind::JsComment });
            p = q;
        } else if at_pair(s, p as usize, SLASH, STAR) {
            match find_pair(s, p as usize + 2, STAR, SLASH) {
                Some(close) => {
                    if close + 2 > e as usize {
                        return;
                    }
                    let q: u32 = (close + 2) as u32;
                    out.push(
                        NotaHighlightSpan { start: p, end: q, kind: NotaHighlightKind::JsComment },
                    );
                    p = q;
                },
                None => {
                    return;
                },
            }
        } else {
            return;
        }
    }
}

impl<'a> Scope<'a> {
    /// Paint the tokens from `from` to `e`.
    fn pump_highlight_tokens(&self, out: &mut Vec<NotaHighlightSpan>, from: u32, e: u32) -> (r:
        Reach)
        requires
            self.wf(),
        ensures
            lexed(final(out)@, r) == tokens(self.input(), e as int, old(out)@, from as int),
            r.ask matches Some(query) ==> answer(utf8(self.source), self.facts@, query) is None,
            fits(utf8(self.source), old(out)@) ==> fits(utf8(self.source), final(out)@),
    {
        let mut p: u32 = from;
        loop
            invariant
                self.wf(),
                fits(utf8(self.source), old(out)@) ==> fits(utf8(self.source), out@),
                p <= from || p <= utf8(self.source).len(),
                tokens(self.input(), e as int, out@, p as int) == tokens(
                    self.input(),
                    e as int,
                    old(out)@,
                    from as int,
                ),
            decreases utf8(self.source).len() + 2 - p,
        {
            match self.ask(JsAsk::Lexeme, p, e) {
                Some(JsAnswer::Lexeme { span, what: class }) => {
                    push_comments(self.source, out, p, span.start);
                    push_lexeme(out, span, class);
                    if class == JsLexeme::TemplateHead {
                        let r = self.pump_template_substitutions(out, span.end, e);
                        if r.done {
                            return r;
                        }
                        p = r.at;
                    } else {
                        p = span.end;
                    }
                },
                Some(_) => {
                    self.push_tail(out, p, e);
                    return Reach { at: e, done: true, ask: None };
                },
                None => {
                    return Reach {
                        at: p,
                        done: true,
                        ask: Some(JsQuery { ask: JsAsk::Lexeme, at: p, end: e }),
                    };
                },
            }
        }
    }

    /// Paint the comments up to the end of an extent.
    fn push_tail(&self, out: &mut Vec<NotaHighlightSpan>, p: u32, e: u32)
        requires
            self.wf(),
        ensures
            final(out)@ == with_comments(old(out)@, utf8(self.source), p as int, e as int),
            fits(utf8(self.source), old(out)@) ==> fits(utf8(self.source), final(out)@),
    {
        if p < e && e as usize <= self.source.len() {
            push_comments(self.source, out, p, e);
        }
    }

    /// Paint the rest of a template, from inside its first substitution at `from`.
    fn pump_template_substitutions(&self, out: &mut Vec<NotaHighlightSpan>, from: u32, e: u32) -> (r:
        Reach)
        requires
            self.wf(),
            from <= utf8(self.source).len(),
        ensures
            lexed(final(out)@, r) == template(self.input(), e as int, old(out)@, from as int, 0),
            r.ask matches Some(query) ==> answer(utf8(self.source), self.facts@, query) is None,
            fits(utf8(self.source), old(out)@) ==> fits(utf8(self.source), final(out)@),
            !r.done ==> from < r.at <= utf8(self.source).len(),
        decreases utf8(self.source).len() + 2 - from,
    {
        let mut p: u32 = from;
        let mut depth: u32 = 0;
        loop
            invariant
                self.wf(),
                fits(utf8(self.source), old(out)@) ==> fits(utf8(self.source), out@),
                from <= p <= utf8(self.source).len(),
                depth <= p,
                template(self.input(), e as int, out@, p as int, depth as int) == template(
                    self.input(),
                    e as int,
                    old(out)@,
                    from as int,
                    0,
                ),
            decreases utf8(self.source).len() + 2 - p,
        {
            match self.ask(JsAsk::Lexeme, p, e) {
                Some(JsAnswer::Lexeme { span, what: class }) => {
                    push_comments(self.source, out, p, span.start);
                    if class == JsLexeme::CloseBrace && depth == 0 {
                        match self.ask(JsAsk::Resume, span.start, e) {
                            Some(JsAnswer::Lexeme { span: tail, what: part }) => {
                                push_lexeme(out, tail, part);
                                if part != JsLexeme::TemplateMiddle {
                                    return Reach { at: tail.end, done: false, ask: None };
                                }
                                p = tail.end;
                            },
                            Some(_) => {
                                return Reach { at: e, done: true, ask: None };
                            },
                            None => {
                                return Reach {
                                    at: span.start,
                                    done: true,
                                    ask: Some(
                                        JsQuery { ask: JsAsk::Resume, at: span.start, end: e },
                                    ),
                                };
                            },
                        }
                    } else {
                        push_lexeme(out, span, class);
                        if class == JsLexeme::TemplateHead {
                            let r = self.pump_template_substitutions(out, span.end, e);
                            if r.done {
                                return r;
                            }
                            p = r.at;
                        } else {
                            if class == JsLexeme::OpenBrace {
                                depth = depth + 1;
                            } else if class == JsLexeme::CloseBrace {
                                depth = depth - 1;
                            }
                            p = span.end;
                        }
                    }
                },
                Some(_) => {
                    self.push_tail(out, p, e);
                    return Reach { at: e, done: true, ask: None };
                },
                None => {
                    return Reach {
                        at: p,
                        done: true,
                        ask: Some(JsQuery { ask: JsAsk::Lexeme, at: p, end: e }),
                    };
                },
            }
        }
    }

    /// Paint the tokens of extents.
    fn lex_ranges(&self, out: &mut Vec<NotaHighlightSpan>, ranges: &Vec<Span>) -> (ask: Option<
        JsQuery,
    >)
        requires
            self.wf(),
        ensures
            (final(out)@, ask) == extents(self.input(), old(out)@, ranges@, 0),
            ask matches Some(query) ==> answer(utf8(self.source), self.facts@, query) is None,
            fits(utf8(self.source), old(out)@) ==> fits(utf8(self.source), final(out)@),
    {
        let mut k: usize = 0;
        while k < ranges.len()
            invariant
                self.wf(),
                fits(utf8(self.source), old(out)@) ==> fits(utf8(self.source), out@),
                k <= ranges@.len(),
                extents(self.input(), out@, ranges@, k as int) == extents(
                    self.input(),
                    old(out)@,
                    ranges@,
                    0,
                ),
            decreases ranges@.len() - k,
        {
            let r = self.pump_highlight_tokens(out, ranges[k].start, ranges[k].end);
            if r.ask.is_some() {
                return r.ask;
            }
            k = k + 1;
        }
        None
    }

    /// Paint a document, markup and JavaScript: its spans outer first, or the question that stops
    /// it.
    pub fn highlight(&self, nodes: &Vec<Node>) -> (done: Result<Vec<NotaHighlightSpan>, JsQuery>)
        requires
            self.wf(),
        ensures
            match (done, highlighted(self.input(), trees(nodes@))) {
                (Ok(spans), Ok(want)) => {
                    &&& spans@ == want
                    &&& in_paint_order(spans@)
                    &&& fits(utf8(self.source), spans@)
                },
                (Err(query), Err(want)) => query == want && answer(
                    utf8(self.source),
                    self.facts@,
                    query,
                ) is None,
                _ => false,
            },
    {
        let (mut spans, ranges) = collect_structural(self.source, nodes);
        match self.lex_ranges(&mut spans, &ranges) {
            Some(query) => Err(query),
            None => {
                proof {
                    spans_in_paint_order(spans@, spans@.len() as int);
                    ordered_spans_fit(utf8(self.source), spans@);
                }
                Ok(sort_spans(&spans))
            },
        }
    }
}

/// Put spans in the order in which they are painted.
fn sort_spans(found: &Vec<NotaHighlightSpan>) -> (spans: Vec<NotaHighlightSpan>)
    ensures
        spans@ == paint_order(found@, found@.len() as int),
{
    let mut spans: Vec<NotaHighlightSpan> = Vec::new();
    let mut n: usize = 0;
    assert(spans@ =~= paint_order(found@, 0));
    while n < found.len()
        invariant
            n <= found@.len(),
            spans@ == paint_order(found@, n as int),
        decreases found@.len() - n,
    {
        let x = found[n];
        let mut k: usize = spans.len();
        while k > 0 && (x.start < spans[k - 1].start || (x.start == spans[k - 1].start && x.end
            > spans[k - 1].end))
            invariant
                k <= spans@.len(),
                span_place(spans@, x, k as int) == span_place(spans@, x, spans@.len() as int),
            decreases k,
        {
            k = k - 1;
        }
        spans.insert(k, x);
        n = n + 1;
    }
    spans
}

/// The spans as numbers: start, end and kind of the first `n`, three for each.
pub open spec fn triples(spans: Seq<NotaHighlightSpan>, n: int) -> Seq<u32>
    decreases n,
{
    if 0 < n <= spans.len() {
        let x = spans[n - 1];
        triples(spans, n - 1).push(x.start).push(x.end).push(x.kind.number() as u32)
    } else {
        Seq::empty()
    }
}

/// The spans as numbers.
pub fn flatten(spans: &Vec<NotaHighlightSpan>) -> (flat: Vec<u32>)
    ensures
        flat@ == triples(spans@, spans@.len() as int),
{
    let mut flat: Vec<u32> = Vec::new();
    let mut n: usize = 0;
    assert(flat@ =~= triples(spans@, 0));
    while n < spans.len()
        invariant
            n <= spans@.len(),
            flat@ == triples(spans@, n as int),
        decreases spans@.len() - n,
    {
        flat.push(spans[n].start);
        flat.push(spans[n].end);
        flat.push(spans[n].kind.index());
        n = n + 1;
    }
    flat
}

} // verus!
