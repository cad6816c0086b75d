//! What a JavaScript parser knows of the embedded code.
//!
//! The reader reads markup; the code embedded in it is read by a JavaScript parser outside this
//! library. The two meet in a table of facts: where the reader must know something of the code, it
//! looks for the answer in the table, and where there is none it stops and says what it asked. The
//! caller puts the question to its parser, adds the answer and reads again. A reading is thus a
//! function of the source and the table, whatever the parser is.

use vstd::prelude::*;
use crate::ascii::{AT_SIGN, NEWLINE, RETURN, SLASH, SPACE, STAR};
use crate::bytes::{
    addressable, at, at_pair, find_pair, get, next_pair, next_pair_first, utf8, Span,
};
use crate::output::is_boundary;
use crate::tree::{ExprTier, NameAttach, StatementClass};
use crate::unicode::boundary;

verus! {

/// What is asked of the JavaScript parser. Every question is put at an offset, with the source taken
/// to end at another.
#[derive(Clone, Copy, Debug, PartialEq, Eq, Structural)]
pub enum JsAsk {
    /// The next token.
    Token,
    /// The longest expression, commas allowed.
    Expression,
    /// The longest expression without a top-level comma.
    Assignment,
    /// A binding pattern.
    Pattern,
    /// One statement.
    Statement,
    /// The next `@` that starts a form in the code up to the end.
    Form,
    /// The next name that the statement up to the end binds.
    Binding,
    /// The next token for highlighting: a lexer's, without the parser's context.
    Lexeme,
    /// The part of a template that starts with the `}` there.
    Resume,
}

/// A question.
#[derive(Clone, Copy, Debug, PartialEq, Eq, Structural)]
pub struct JsQuery {
    /// What is asked.
    pub ask: JsAsk,
    /// Where.
    pub at: u32,
    /// Where the source is taken to end.
    pub end: u32,
}

/// What a token is.
#[derive(Clone, Copy, Debug, PartialEq, Eq, Structural)]
pub enum JsTokenKind {
    /// An identifier name, keywords among them.
    Name,
    /// A string literal.
    Str,
    /// Anything else.
    Other,
}

/// What a token is to a highlighter.
#[derive(Clone, Copy, Debug, PartialEq, Eq, Structural)]
pub enum JsLexeme {
    /// An identifier.
    Name,
    /// A keyword, `true`, `false` and `null` among them.
    Keyword,
    /// A number.
    Number,
    /// A string, a template without substitutions, or a regular expression.
    Text,
    /// The start of a template, up to its first `${`.
    TemplateHead,
    /// A part of a template from a `}` to a `${`.
    TemplateMiddle,
    /// The end of a template, from a `}` on.
    TemplateTail,
    /// `{`.
    OpenBrace,
    /// `}`.
    CloseBrace,
    /// Any other punctuation.
    Operator,
}

/// An answer.
#[derive(Clone, Copy, Debug, PartialEq, Eq, Structural)]
pub enum JsAnswer {
    /// A token.
    Token {
        /// Where it stands.
        span: Span,
        /// What it is.
        kind: JsTokenKind,
    },
    /// An expression or a pattern.
    Extent {
        /// Where it stands.
        span: Span,
        /// How tightly it binds.
        tier: ExprTier,
    },
    /// A statement.
    Statement {
        /// Where it stands.
        span: Span,
        /// How it is placed in a module.
        class: StatementClass,
        /// Where a component's name is attached.
        attach: Option<NameAttach>,
    },
    /// The `@` of a form.
    Form {
        /// Its offset.
        at: u32,
    },
    /// A bound name.
    Binding {
        /// Where it stands.
        span: Span,
    },
    /// A token, for highlighting.
    Lexeme {
        /// Where it stands.
        span: Span,
        /// What it is.
        what: JsLexeme,
    },
    /// There is none before the end.
    Nothing,
    /// The code is not JavaScript.
    Invalid {
        /// Where it goes wrong.
        at: u32,
        /// Which of the parser's reasons says why.
        reason: u32,
    },
}

/// A question with its answer.
#[derive(Clone, Copy, Debug, PartialEq, Eq, Structural)]
pub struct JsFact {
    /// The question.
    pub query: JsQuery,
    /// The answer.
    pub answer: JsAnswer,
}

/// The length of the white space character at `i`, or 0 where there is none. White space is what
/// JavaScript takes for it, line breaks and a byte order mark among them.
pub open spec fn white_len(s: Seq<u8>, i: int) -> int {
    match at(s, i) {
        Some(b) => if b == SPACE || 0x09 <= b <= 0x0d {
            1
        } else if b == 0xc2 && (at(s, i + 1) == Some(0x85u8) || at(s, i + 1) == Some(0xa0u8)) {
            2
        } else if wide_white(b, at(s, i + 1), at(s, i + 2)) {
            3
        } else {
            0
        },
        None => 0,
    }
}

/// Are the three bytes a white space character?
pub open spec fn wide_white(a: u8, b: Option<u8>, c: Option<u8>) -> bool {
    match (b, c) {
        (Some(b), Some(c)) => {
            ||| a == 0xe1 && b == 0x9a && c == 0x80
            ||| a == 0xe1 && b == 0xa0 && c == 0x8e
            ||| a == 0xe2 && b == 0x80 && (0x80 <= c <= 0x8b || c == 0xa8 || c == 0xa9 || c == 0xaf)
            ||| a == 0xe2 && b == 0x81 && c == 0x9f
            ||| a == 0xe3 && b == 0x80 && c == 0x80
            ||| a == 0xef && b == 0xbb && c == 0xbf
        },
        _ => false,
    }
}

/// Does a line break, which ends a `//` comment, stand at `i`?
pub open spec fn ends_line(s: Seq<u8>, i: int) -> bool {
    ||| at(s, i) == Some(NEWLINE)
    ||| at(s, i) == Some(RETURN)
    ||| at(s, i) == Some(0xe2u8) && at(s, i + 1) == Some(0x80u8) && (at(s, i + 2) == Some(0xa8u8)
        || at(s, i + 2) == Some(0xa9u8))
}

/// The first line break at or after `i`, or the source end.
pub open spec fn line_comment_end(s: Seq<u8>, i: int) -> int
    decreases s.len() - i,
{
    if 0 <= i < s.len() && !ends_line(s, i) {
        line_comment_end(s, i + 1)
    } else {
        i
    }
}

/// Where the code from `i` on starts: past white space and comments.
pub open spec fn code_start(s: Seq<u8>, i: int) -> int
    decreases s.len() + 3 - i,
{
    if 0 <= i < s.len() {
        if white_len(s, i) > 0 {
            code_start(s, i + white_len(s, i))
        } else if at(s, i) == Some(SLASH) && at(s, i + 1) == Some(SLASH) {
            proof {
                line_comment_bounds(s, i + 2);
            }
            code_start(s, line_comment_end(s, i + 2))
        } else if at(s, i) == Some(SLASH) && at(s, i + 1) == Some(STAR) {
            proof {
                next_pair_first(s, i + 2, STAR, SLASH);
            }
            match next_pair(s, i + 2, STAR, SLASH) {
                Some(close) => code_start(s, close + 2),
                None => i,
            }
        } else {
            i
        }
    } else {
        i
    }
}

/// A `//` comment ends at or after the search for its end, inside the source.
pub proof fn line_comment_bounds(s: Seq<u8>, i: int)
    requires
        0 <= i,
    ensures
        i <= line_comment_end(s, i),
        i <= s.len() ==> line_comment_end(s, i) <= s.len(),
    decreases s.len() - i,
{
    if i < s.len() && !ends_line(s, i) {
        line_comment_bounds(s, i + 1);
    }
}

/// Code starts where neither white space nor a comment does.
pub proof fn code_starts_with_code(s: Seq<u8>, i: int)
    requires
        0 <= i,
    ensures
        i <= code_start(s, i),
        code_start(s, code_start(s, i)) == code_start(s, i),
    decreases s.len() + 3 - i,
{
    if i < s.len() {
        if white_len(s, i) > 0 {
            code_starts_with_code(s, i + white_len(s, i));
        } else if at(s, i) == Some(SLASH) && at(s, i + 1) == Some(SLASH) {
            line_comment_bounds(s, i + 2);
            code_starts_with_code(s, line_comment_end(s, i + 2));
        } else if at(s, i) == Some(SLASH) && at(s, i + 1) == Some(STAR) {
            next_pair_first(s, i + 2, STAR, SLASH);
            if let Some(close) = next_pair(s, i + 2, STAR, SLASH) {
                code_starts_with_code(s, close + 2);
            }
        }
    }
}

/// Is `span` a non-empty extent of characters between `lo` and `hi`?
pub open spec fn within(s: Seq<u8>, span: Span, lo: int, hi: int) -> bool {
    lo <= span.start < span.end <= hi && boundary(s, span.start as int) && boundary(
        s,
        span.end as int,
    )
}

/// Does `answer` answer `query` about a source of `s`? It is of the kind asked for, and what it
/// points at lies where the question looked and ends with a character. Only white space and
/// comments stand before a token or a statement, and nothing before the part of a template that
/// goes on.
pub open spec fn answers(s: Seq<u8>, query: JsQuery, answer: JsAnswer) -> bool {
    query.at <= query.end <= s.len() && match answer {
        JsAnswer::Token { span, kind } => query.ask == JsAsk::Token && within(
            s,
            span,
            query.at as int,
            query.end as int,
        ) && span.start == code_start(s, query.at as int),
        JsAnswer::Extent { span, tier: _ } => (query.ask == JsAsk::Expression || query.ask
            == JsAsk::Assignment || query.ask == JsAsk::Pattern) && within(
            s,
            span,
            query.at as int,
            query.end as int,
        ),
        JsAnswer::Statement { span, class, attach } => query.ask == JsAsk::Statement && within(
            s,
            span,
            query.at as int,
            query.end as int,
        ) && span.start == code_start(s, query.at as int) && (attach matches Some(a) ==> within(
            s,
            a.name,
            span.start as int,
            span.end as int,
        ) && span.start <= a.arg_end <= a.close < span.end && boundary(s, a.arg_end as int)
            && boundary(s, a.close as int)),
        JsAnswer::Form { at } => query.ask == JsAsk::Form && query.at <= at < query.end
            && s[at as int] == AT_SIGN,
        JsAnswer::Binding { span } => query.ask == JsAsk::Binding && within(
            s,
            span,
            query.at as int,
            query.end as int,
        ),
        JsAnswer::Lexeme { span, what: _ } => within(s, span, query.at as int, query.end as int)
            && match query.ask {
            JsAsk::Lexeme => span.start == code_start(s, query.at as int),
            JsAsk::Resume => span.start == query.at,
            _ => false,
        },
        JsAnswer::Nothing => query.ask == JsAsk::Token || query.ask == JsAsk::Form || query.ask
            == JsAsk::Binding || query.ask == JsAsk::Lexeme,
        JsAnswer::Invalid { at: _, reason: _ } => query.ask != JsAsk::Form && query.ask
            != JsAsk::Binding,
    }
}

/// The first answer to `query` among the facts from `i` on.
pub open spec fn answer_from(s: Seq<u8>, facts: Seq<JsFact>, query: JsQuery, i: int) -> Option<
    JsAnswer,
>
    decreases facts.len() - i,
{
    if 0 <= i < facts.len() {
        if facts[i].query == query && answers(s, query, facts[i].answer) {
            Some(facts[i].answer)
        } else {
            answer_from(s, facts, query, i + 1)
        }
    } else {
        None
    }
}

/// The answer to a question, if the table holds one.
pub open spec fn answer(s: Seq<u8>, facts: Seq<JsFact>, query: JsQuery) -> Option<JsAnswer> {
    answer_from(s, facts, query, 0)
}

/// An answer from the table answers its question.
pub proof fn answer_answers(s: Seq<u8>, facts: Seq<JsFact>, query: JsQuery, i: int)
    ensures
        answer_from(s, facts, query, i) matches Some(a) ==> answers(s, query, a),
    decreases facts.len() - i,
{
    if 0 <= i < facts.len() && !(facts[i].query == query && answers(s, query, facts[i].answer)) {
        answer_answers(s, facts, query, i + 1);
    }
}

/// Is `span` a non-empty extent of characters between `lo` and `hi`?
fn is_within(s: &[u8], span: Span, lo: u32, hi: u32) -> (yes: bool)
    ensures
        yes == within(s@, span, lo as int, hi as int),
{
    lo <= span.start && span.start < span.end && span.end <= hi && is_boundary(s, span.start)
        && is_boundary(s, span.end)
}

/// The length of the white space character at `i`, or 0 where there is none.
pub fn white_at(s: &[u8], i: usize) -> (n: usize)
    requires
        addressable(s@),
        i <= s@.len(),
    ensures
        n == white_len(s@, i as int),
        i + n <= s@.len(),
{
    match get(s, i) {
        Some(b) => {
            if b == SPACE || (0x09 <= b && b <= 0x0d) {
                1
            } else if b == 0xc2 && (get(s, i + 1) == Some(0x85u8) || get(s, i + 1) == Some(0xa0u8)) {
                2
            } else {
                match (get(s, i + 1), get(s, i + 2)) {
                    (Some(c), Some(d)) => {
                        if (b == 0xe1 && c == 0x9a && d == 0x80) || (b == 0xe1 && c == 0xa0 && d
                            == 0x8e) || (b == 0xe2 && c == 0x80 && ((0x80 <= d && d <= 0x8b) || d
                            == 0xa8 || d == 0xa9 || d == 0xaf)) || (b == 0xe2 && c == 0x81 && d
                            == 0x9f) || (b == 0xe3 && c == 0x80 && d == 0x80) || (b == 0xef && c
                            == 0xbb && d == 0xbf) {
                            3
                        } else {
                            0
                        }
                    },
                    _ => 0,
                }
            }
        },
        None => 0,
    }
}

/// The first line break at or after `i`, or the source end.
pub fn find_line_break(s: &[u8], i: usize) -> (end: usize)
    requires
        addressable(s@),
        i <= s@.len(),
    ensures
        end == line_comment_end(s@, i as int),
        i <= end <= s@.len(),
{
    let mut k: usize = i;
    while k < s.len() && !(s[k] == NEWLINE || s[k] == RETURN || (s[k] == 0xe2 && get(s, k + 1) == Some(
        0x80u8,
    ) && (get(s, k + 2) == Some(0xa8u8) || get(s, k + 2) == Some(0xa9u8))))
        invariant
            addressable(s@),
            i <= k <= s@.len(),
            line_comment_end(s@, k as int) == line_comment_end(s@, i as int),
        decreases s@.len() - k,
    {
        k = k + 1;
    }
    k
}

/// Where the code from `i` on starts: past white space and comments.
pub fn find_code(s: &[u8], i: usize) -> (start: usize)
    requires
        addressable(s@),
        i <= s@.len(),
    ensures
        start == code_start(s@, i as int),
{
    let mut k: usize = i;
    while k < s.len()
        invariant
            addressable(s@),
            i <= k <= s@.len(),
            code_start(s@, k as int) == code_start(s@, i as int),
        decreases s@.len() - k,
    {
        let white: usize = white_at(s, k);
        if white > 0 {
            k = k + white;
        } else if at_pair(s, k, SLASH, SLASH) {
            k = find_line_break(s, k + 2);
        } else if at_pair(s, k, SLASH, STAR) {
            match find_pair(s, k + 2, STAR, SLASH) {
                Some(close) => {
                    k = close + 2;
                },
                None => {
                    return k;
                },
            }
        } else {
            return k;
        }
    }
    k
}

/// Does `answer` answer `query`?
fn is_answer(source: &str, query: JsQuery, answer: JsAnswer) -> (yes: bool)
    requires
        addressable(utf8(source)),
    ensures
        yes == answers(utf8(source), query, answer),
{
    let s = source.as_bytes();
    if query.at > query.end || query.end as usize > s.len() {
        return false;
    }
    match answer {
        JsAnswer::Token { span, kind: _ } => query.ask == JsAsk::Token && is_within(
            s,
            span,
            query.at,
            query.end,
        ) && span.start as usize == find_code(s, query.at as usize),
        JsAnswer::Extent { span, tier: _ } => (query.ask == JsAsk::Expression || query.ask
            == JsAsk::Assignment || query.ask == JsAsk::Pattern) && is_within(
            s,
            span,
            query.at,
            query.end,
        ),
        JsAnswer::Statement { span, class: _, attach } => query.ask == JsAsk::Statement
            && is_within(s, span, query.at, query.end) && span.start as usize == find_code(
            s,
            query.at as usize,
        ) && match attach {
            Some(a) => is_within(s, a.name, span.start, span.end) && span.start <= a.arg_end
                && a.arg_end <= a.close && a.close < span.end && is_boundary(s, a.arg_end)
                && is_boundary(s, a.close),
            None => true,
        },
        JsAnswer::Form { at } => query.ask == JsAsk::Form && query.at <= at && at < query.end
            && s[at as usize] == AT_SIGN,
        JsAnswer::Binding { span } => query.ask == JsAsk::Binding && is_within(
            s,
            span,
            query.at,
            query.end,
        ),
        JsAnswer::Lexeme { span, what: _ } => is_within(s, span, query.at, query.end)
            && match query.ask {
            JsAsk::Lexeme => span.start as usize == find_code(s, query.at as usize),
            JsAsk::Resume => span.start == query.at,
            _ => false,
        },
        JsAnswer::Nothing => query.ask == JsAsk::Token || query.ask == JsAsk::Form || query.ask
            == JsAsk::Binding || query.ask == JsAsk::Lexeme,
        JsAnswer::Invalid { at: _, reason: _ } => query.ask != JsAsk::Form && query.ask
            != JsAsk::Binding,
    }
}

/// Look a question up in the table.
pub fn find_answer(source: &str, facts: &[JsFact], query: JsQuery) -> (found: Option<JsAnswer>)
    requires
        addressable(utf8(source)),
    ensures
        found == answer(utf8(source), facts@, query),
        found matches Some(a) ==> answers(utf8(source), query, a),
{
    let mut i: usize = 0;
    while i < facts.len()
        invariant
            addressable(utf8(source)),
            i <= facts@.len(),
            answer_from(utf8(source), facts@, query, i as int) == answer(
                utf8(source),
                facts@,
                query,
            ),
        decreases facts@.len() - i,
    {
        let fact = facts[i];
        if fact.query == query && is_answer(source, query, fact.answer) {
            return Some(fact.answer);
        }
        i = i + 1;
    }
    None
}

} // verus!
