//! Syntax highlighting, painted from the tree.
//!
//! The walk over the tree paints the markup and collects the extents of the embedded JavaScript,
//! forms inside it left out. The tokens of those extents are then painted from what a JavaScript
//! lexer says of them. The spans come out by their start, the longer of two first, so that a client
//! can paint broad layers under narrow ones.

use vstd::prelude::*;
use crate::ascii::{
    AT_SIGN, BACKSLASH, BACKTICK, COLON, COMMA, DOLLAR, LBRACE, LBRACK, LOWER_E, LOWER_F,
    LOWER_L, LOWER_O, LOWER_S, LPAREN, NEWLINE, PERCENT, PIPE, RBRACE, RBRACK, RETURN, RPAREN,
    SPACE, TAB,
};
use crate::bytes::{
    addressable, at, clamp, get, run_end, sigil_run_end, skip, skip_class, utf8, ByteClass, Span,
};
use crate::lines::{line_content_end, line_end, line_start, line_start_of};
use crate::lowering::{
    first_child, is_host, is_identifier_name, is_statement, names_identifier, node_is_statement,
    spells, start_of_children, statement_run_end, statements_end, statements_end_bounds,
    tag_is_host,
};
use crate::output::slice;
use crate::raw::{code_span, lex_code_span, lex_math_span, math_span, CodeScan, MathScan};
use crate::statements::{
    colon_prop_line_at, fence_close, find_fence_close, list_marker, list_marker_at, prop_line,
    statement_kind, statement_opened,
};
use crate::tree::{
    trees, BodyForm, Node, NodeKind, NotaDocStateKind, NotaEmphasisMarker, NotaTag, Tree,
};

verus! {

/// What a highlighted span is: one visual class each. The order is a wire format; new kinds go
/// last.
#[derive(Clone, Copy, Debug, PartialEq, Eq, Structural)]
pub enum NotaHighlightKind {
    /// Punctuation of the notation: `@`, `%`, `%%%`, `|{`, `}|`, `|@`, the `:` of a colon body, the
    /// `|` of a property line, the markers of emphasis.
    Sigil,
    /// The name of a host element.
    TagHost,
    /// The name of a component.
    TagComponent,
    /// The key of a property.
    PropName,
    /// The name in a bare interpolation.
    Interpolation,
    /// `if`, `for`, `else`, `of`.
    ControlKeyword,
    /// The `#` run of a heading.
    HeadingMarker,
    /// A whole heading.
    Heading,
    /// The marker of a list item.
    ListMarker,
    /// A whole `*…*` span.
    EmphasisStrong,
    /// A whole `_…_` span.
    EmphasisEm,
    /// A delimiter of a math span.
    MathDelim,
    /// Raw math.
    Math,
    /// A delimiter of a code span.
    CodeDelim,
    /// The language tag of a fence.
    CodeLang,
    /// Raw code.
    Code,
    /// Raw text of a verbatim body.
    Verbatim,
    /// A backslash and what it escapes.
    Escape,
    /// A keyword of embedded JavaScript.
    JsKeyword,
    /// A string, or a part of a template, of embedded JavaScript.
    JsString,
    /// A number of embedded JavaScript.
    JsNumber,
    /// A comment of embedded JavaScript.
    JsComment,
    /// An operator of embedded JavaScript.
    JsOperator,
    /// Raw text inside a `style` element.
    StyleText,
    /// A comment of the notation.
    Comment,
    /// A whole `~~…~~` span.
    EmphasisStrike,
}

impl NotaHighlightKind {
    /// The number that stands for a kind on the wire.
    pub open spec fn number(self) -> int {
        match self {
            NotaHighlightKind::Sigil => 0,
            NotaHighlightKind::TagHost => 1,
            NotaHighlightKind::TagComponent => 2,
            NotaHighlightKind::PropName => 3,
            NotaHighlightKind::Interpolation => 4,
            NotaHighlightKind::ControlKeyword => 5,
            NotaHighlightKind::HeadingMarker => 6,
            NotaHighlightKind::Heading => 7,
            NotaHighlightKind::ListMarker => 8,
            NotaHighlightKind::EmphasisStrong => 9,
            NotaHighlightKind::EmphasisEm => 10,
            NotaHighlightKind::MathDelim => 11,
            NotaHighlightKind::Math => 12,
            NotaHighlightKind::CodeDelim => 13,
            NotaHighlightKind::CodeLang => 14,
            NotaHighlightKind::Code => 15,
            NotaHighlightKind::Verbatim => 16,
            NotaHighlightKind::Escape => 17,
            NotaHighlightKind::JsKeyword => 18,
            NotaHighlightKind::JsString => 19,
            NotaHighlightKind::JsNumber => 20,
            NotaHighlightKind::JsComment => 21,
            NotaHighlightKind::JsOperator => 22,
            NotaHighlightKind::StyleText => 23,
            NotaHighlightKind::Comment => 24,
            NotaHighlightKind::EmphasisStrike => 25,
        }
    }

    /// The name of a kind, fit for a style sheet.
    pub open spec fn spelled(self) -> Seq<char> {
        match self {
            NotaHighlightKind::Sigil => "sigil"@,
            NotaHighlightKind::TagHost => "tag-host"@,
            NotaHighlightKind::TagComponent => "tag-component"@,
            NotaHighlightKind::PropName => "prop-name"@,
            NotaHighlightKind::Interpolation => "interpolation"@,
            NotaHighlightKind::ControlKeyword => "control-keyword"@,
            NotaHighlightKind::HeadingMarker => "heading-marker"@,
            NotaHighlightKind::Heading => "heading"@,
            NotaHighlightKind::ListMarker => "list-marker"@,
            NotaHighlightKind::EmphasisStrong => "emphasis-strong"@,
            NotaHighlightKind::EmphasisEm => "emphasis-em"@,
            NotaHighlightKind::MathDelim => "math-delim"@,
            NotaHighlightKind::Math => "math"@,
            NotaHighlightKind::CodeDelim => "code-delim"@,
            NotaHighlightKind::CodeLang => "code-lang"@,
            NotaHighlightKind::Code => "code"@,
            NotaHighlightKind::Verbatim => "verbatim"@,
            NotaHighlightKind::Escape => "escape"@,
            NotaHighlightKind::JsKeyword => "js-keyword"@,
            NotaHighlightKind::JsString => "js-string"@,
            NotaHighlightKind::JsNumber => "js-number"@,
            NotaHighlightKind::JsComment => "js-comment"@,
            NotaHighlightKind::JsOperator => "js-operator"@,
            NotaHighlightKind::StyleText => "style-text"@,
            NotaHighlightKind::Comment => "comment"@,
            NotaHighlightKind::EmphasisStrike => "emphasis-strike"@,
        }
    }

    /// The number that stands for a kind on the wire.
    pub fn index(self) -> (i: u32)
        ensures
            i == self.number(),
            i < 26,
    {
        match self {
            NotaHighlightKind::Sigil => 0,
            NotaHighlightKind::TagHost => 1,
            NotaHighlightKind::TagComponent => 2,
            NotaHighlightKind::PropName => 3,
            NotaHighlightKind::Interpolation => 4,
            NotaHighlightKind::ControlKeyword => 5,
            NotaHighlightKind::HeadingMarker => 6,
            NotaHighlightKind::Heading => 7,
            NotaHighlightKind::ListMarker => 8,
            NotaHighlightKind::EmphasisStrong => 9,
            NotaHighlightKind::EmphasisEm => 10,
            NotaHighlightKind::MathDelim => 11,
            NotaHighlightKind::Math => 12,
            NotaHighlightKind::CodeDelim => 13,
            NotaHighlightKind::CodeLang => 14,
            NotaHighlightKind::Code => 15,
            NotaHighlightKind::Verbatim => 16,
            NotaHighlightKind::Escape => 17,
            NotaHighlightKind::JsKeyword => 18,
            NotaHighlightKind::JsString => 19,
            NotaHighlightKind::JsNumber => 20,
            NotaHighlightKind::JsComment => 21,
            NotaHighlightKind::JsOperator => 22,
            NotaHighlightKind::StyleText => 23,
            NotaHighlightKind::Comment => 24,
            NotaHighlightKind::EmphasisStrike => 25,
        }
    }

    /// The name of a kind.
    pub fn name(self) -> (text: &'static str)
        ensures
            text@ == self.spelled(),
    {
        match self {
            NotaHighlightKind::Sigil => "sigil",
            NotaHighlightKind::TagHost => "tag-host",
            NotaHighlightKind::TagComponent => "tag-component",
            NotaHighlightKind::PropName => "prop-name",
            NotaHighlightKind::Interpolation => "interpolation",
            NotaHighlightKind::ControlKeyword => "control-keyword",
            NotaHighlightKind::HeadingMarker => "heading-marker",
            NotaHighlightKind::Heading => "heading",
            NotaHighlightKind::ListMarker => "list-marker",
            NotaHighlightKind::EmphasisStrong => "emphasis-strong",
            NotaHighlightKind::EmphasisEm => "emphasis-em",
            NotaHighlightKind::MathDelim => "math-delim",
            NotaHighlightKind::Math => "math",
            NotaHighlightKind::CodeDelim => "code-delim",
            NotaHighlightKind::CodeLang => "code-lang",
            NotaHighlightKind::Code => "code",
            NotaHighlightKind::Verbatim => "verbatim",
            NotaHighlightKind::Escape => "escape",
            NotaHighlightKind::JsKeyword => "js-keyword",
            NotaHighlightKind::JsString => "js-string",
            NotaHighlightKind::JsNumber => "js-number",
            NotaHighlightKind::JsComment => "js-comment",
            NotaHighlightKind::JsOperator => "js-operator",
            NotaHighlightKind::StyleText => "style-text",
            NotaHighlightKind::Comment => "comment",
            NotaHighlightKind::EmphasisStrike => "emphasis-strike",
        }
    }

    /// Every kind, in the order of the numbers.
    pub fn all() -> (kinds: Vec<NotaHighlightKind>)
        ensures
            kinds@.len() == 26,
            forall|i: int| 0 <= i < 26 ==> (#[trigger] kinds@[i]).number() == i,
            forall|kind: NotaHighlightKind| kinds@[#[trigger] kind.number()] == kind,
    {
        let kinds = vec![
            NotaHighlightKind::Sigil,
            NotaHighlightKind::TagHost,
            NotaHighlightKind::TagComponent,
            NotaHighlightKind::PropName,
            NotaHighlightKind::Interpolation,
            NotaHighlightKind::ControlKeyword,
            NotaHighlightKind::HeadingMarker,
            NotaHighlightKind::Heading,
            NotaHighlightKind::ListMarker,
            NotaHighlightKind::EmphasisStrong,
            NotaHighlightKind::EmphasisEm,
            NotaHighlightKind::MathDelim,
            NotaHighlightKind::Math,
            NotaHighlightKind::CodeDelim,
            NotaHighlightKind::CodeLang,
            NotaHighlightKind::Code,
            NotaHighlightKind::Verbatim,
            NotaHighlightKind::Escape,
            NotaHighlightKind::JsKeyword,
            NotaHighlightKind::JsString,
            NotaHighlightKind::JsNumber,
            NotaHighlightKind::JsComment,
            NotaHighlightKind::JsOperator,
            NotaHighlightKind::StyleText,
            NotaHighlightKind::Comment,
            NotaHighlightKind::EmphasisStrike,
        ];
        kinds
    }
}

/// The name of every kind, at the place of its number.
pub fn highlight_kind_names() -> (names: Vec<&'static str>)
    ensures
        names@.len() == 26,
        forall|kind: NotaHighlightKind| names@[#[trigger] kind.number()]@ == kind.spelled(),
{
    let kinds = NotaHighlightKind::all();
    let mut names: Vec<&'static str> = Vec::new();
    let mut i: usize = 0;
    while i < kinds.len()
        invariant
            i <= kinds@.len(),
            names@.len() == i,
            forall|k: int| 0 <= k < i ==> (#[trigger] names@[k])@ == kinds@[k].spelled(),
        decreases kinds@.len() - i,
    {
        names.push(kinds[i].name());
        i = i + 1;
    }
    proof {
        assert forall|kind: NotaHighlightKind| names@[#[trigger] kind.number()]@
            == kind.spelled() by {
            assert(kinds@[kind.number()] == kind);
        }
    }
    names
}

/// A highlighted span.
#[derive(Clone, Copy, Debug, PartialEq, Eq, Structural)]
pub struct NotaHighlightSpan {
    /// Where it starts.
    pub start: u32,
    /// Where it ends.
    pub end: u32,
    /// What it is.
    pub kind: NotaHighlightKind,
}

/// What the walk has painted and collected.
pub struct Paint {
    /// The spans painted.
    pub spans: Seq<NotaHighlightSpan>,
    /// The extents of embedded JavaScript.
    pub ranges: Seq<Span>,
    /// The end of the last `%%%` fence whose markers are painted.
    pub fence_done: int,
    /// The end of what stands inside that fence.
    pub fence_inner: int,
    /// The last `%` painted, if any was.
    pub marker: Option<int>,
}

/// A span painted. An empty one is none.
pub open spec fn emit(s: Seq<u8>, st: Paint, a: int, b: int, kind: NotaHighlightKind) -> Paint {
    if 0 <= a < b <= s.len() {
        Paint {
            spans: st.spans.push(NotaHighlightSpan { start: a as u32, end: b as u32, kind }),
            ..st
        }
    } else {
        st
    }
}

/// An extent of JavaScript collected. An empty one is none.
pub open spec fn collected(s: Seq<u8>, st: Paint, a: int, b: int) -> Paint {
    if 0 <= a < b <= s.len() {
        Paint { ranges: st.ranges.push(Span { start: a as u32, end: b as u32 }), ..st }
    } else {
        st
    }
}

/// The first byte at or after `i` that is not white space.
pub open spec fn gap_end(s: Seq<u8>, i: int) -> int {
    if 0 <= i <= s.len() {
        skip(s, i, ByteClass::Blank)
    } else {
        i
    }
}

/// The start of the white space that ends at `i`.
pub open spec fn gap_start(s: Seq<u8>, i: int) -> int
    decreases i,
{
    if 0 < i <= s.len() && (s[i - 1] == SPACE || s[i - 1] == TAB || s[i - 1] == RETURN || s[i - 1]
        == NEWLINE) {
        gap_start(s, i - 1)
    } else {
        i
    }
}

/// Does the extent of a node lie in the source?
pub open spec fn lies_in(s: Seq<u8>, t: Tree) -> bool {
    t.span.start <= t.span.end <= s.len()
}

/// Where the `|{` of a verbatim body stands, past the groups and separators from `i` on.
pub open spec fn verbatim_open(s: Seq<u8>, i: int) -> int
    decreases s.len() - i,
{
    if 0 <= i < s.len() && !(s[i] == PIPE && at(s, i + 1) == Some(LBRACE)) && (s[i] == LBRACK || s[i]
        == RBRACK || s[i] == COMMA || s[i] == SPACE || s[i] == TAB || s[i] == RETURN || s[i]
        == NEWLINE) {
        verbatim_open(s, i + 1)
    } else {
        i
    }
}

/// Is an interpolated expression a plain name? Right behind its `@` every name is; in parentheses
/// those that JavaScript has a meaning of its own for are not.
pub open spec fn is_plain_name(s: Seq<u8>, span: Span) -> bool {
    names_identifier(s, span) && (at(s, span.start - 1) == Some(AT_SIGN) || !is_word_of_its_own(s, span))
}

/// Is an expression one of the names that are no references?
pub open spec fn is_word_of_its_own(s: Seq<u8>, span: Span) -> bool {
    ||| slice(s, span) == utf8("true")
    ||| slice(s, span) == utf8("false")
    ||| slice(s, span) == utf8("null")
    ||| slice(s, span) == utf8("this")
}

/// The end of an element's head: past its name, or past the `)` of a dynamic tag.
pub open spec fn head_end(s: Seq<u8>, t: Tree, tag: NotaTag) -> int {
    match tag {
        NotaTag::Host { name } => name.end as int,
        NotaTag::Component { name } => name.end as int,
        NotaTag::Dynamic => if t.kids.len() >= 3 {
            let close = gap_end(s, t.kids[2].span.end as int);
            if at(s, close) == Some(RPAREN) {
                close + 1
            } else {
                close
            }
        } else {
            t.span.start + 1
        },
    }
}

/// The opening line of the fence that a line stands in: the nearest one above it that opens a
/// fence, with where the inside of the fence starts.
pub open spec fn fence_above(s: Seq<u8>, line: int) -> Option<(int, int)>
    decreases line,
{
    if 0 < line <= s.len() {
        let above = line_start(s, line - 1);
        match statement_opened(s, above) {
            Some((inner, true)) => Some((above, inner as int)),
            _ => if 0 <= above < line {
                fence_above(s, above)
            } else {
                None
            },
        }
    } else {
        None
    }
}

/// The opening and the closing run of a fence.
pub open spec fn fence_markers(s: Seq<u8>, st: Paint, open_line: int, inner: int) -> Paint {
    let open = gap_end(s, open_line);
    let opened = emit(s, st, open, clamp(s, run_end(s, open, PERCENT)), NotaHighlightKind::Sigil);
    let (inner_end, after) = fence_close(s, inner);
    let close = gap_end(s, inner_end);
    let closed = if at(s, close) == Some(PERCENT) {
        emit(s, opened, close, clamp(s, run_end(s, close, PERCENT)), NotaHighlightKind::Sigil)
    } else {
        opened
    };
    Paint { fence_done: after, fence_inner: inner_end, ..closed }
}

/// The `%` or `%%%` markers that own the statement at `start`, once each.
pub open spec fn statement_markers(s: Seq<u8>, st: Paint, start: int) -> Paint {
    let line = line_start(s, start);
    if start < st.fence_done {
        st
    } else {
        match statement_opened(s, line) {
            Some((content, false)) => {
                let marker = content - 1;
                if st.marker == Some(marker) {
                    st
                } else {
                    emit(
                        s,
                        Paint { marker: Some(marker), ..st },
                        marker,
                        content as int,
                        NotaHighlightKind::Sigil,
                    )
                }
            },
            Some((inner, true)) => fence_markers(s, st, line, inner as int),
            None => match fence_above(s, line) {
                Some((above, inner)) => fence_markers(s, st, above, inner),
                None => st,
            },
        }
    }
}

/// Where the JavaScript of the statement at `i` ends: it bridges to the next statement of its line
/// or fence, and else to the end of either, so that comments are part of it.
pub open spec fn statement_extent(s: Seq<u8>, st: Paint, kids: Seq<Tree>, i: int, j: int) -> int {
    let here = kids[i].span;
    let in_fence = here.start < st.fence_done;
    let trailing = if in_fence {
        st.fence_inner
    } else {
        line_end(s, here.end as int)
    };
    let end = if i + 1 < j {
        let next = kids[i + 1].span.start as int;
        if (in_fence && next < st.fence_done) || (!in_fence && line_start(s, next) == line_start(
            s,
            here.start as int,
        )) {
            next
        } else {
            trailing
        }
    } else {
        trailing
    };
    if end < here.end {
        here.end as int
    } else {
        end
    }
}

/// A node painted.
pub open spec fn painted(s: Seq<u8>, st: Paint, t: Tree, style: bool) -> Paint
    decreases t, 0int, 20int, 0int,
{
    let (a, b) = (t.span.start as int, t.span.end as int);
    if !lies_in(s, t) {
        st
    } else {
        match t.kind {
            NodeKind::Element { tag, body } => if body == BodyForm::Verbatim {
                verbatim(s, st, t, tag, style)
            } else {
                element(s, st, t, tag, body, style)
            },
            NodeKind::Fragment => {
                let sigil = if at(s, a) == Some(AT_SIGN) && at(s, a + 1) == Some(LBRACE) {
                    emit(s, st, a, a + 1, NotaHighlightKind::Sigil)
                } else {
                    st
                };
                children(s, sigil, t.kids, 0, None, style)
            },
            NodeKind::Interpolation => interpolation(s, st, t, style),
            NodeKind::Js { tier: _ } => js(s, st, t.kids, 0, a, b, style),
            NodeKind::Markup => if t.kids.len() > 0 {
                painted(s, st, t.kids[0], style)
            } else {
                st
            },
            NodeKind::If => conditional(s, st, t, style),
            NodeKind::For => iteration(s, st, t, style),
            NodeKind::Heading { level } => {
                let marker = gap_end(s, a);
                let under = emit(s, st, a, b, NotaHighlightKind::Heading);
                let run = emit(
                    s,
                    under,
                    marker,
                    marker + level,
                    NotaHighlightKind::HeadingMarker,
                );
                item_children(s, run, t.kids, style)
            },
            NodeKind::ThematicBreak => emit(s, st, a, b, NotaHighlightKind::ListMarker),
            NodeKind::ListItem { list: _ } => {
                let marked = match list_marker(s, a) {
                    Some(m) => emit(
                        s,
                        st,
                        m.offset as int,
                        m.body_col - 1,
                        NotaHighlightKind::ListMarker,
                    ),
                    None => st,
                };
                item_children(s, marked, t.kids, style)
            },
            NodeKind::Attrs => group(s, st, t, style),
            NodeKind::DocState { sugar, label } => {
                let name = emit(
                    s,
                    doc_state_sigils(s, st, sugar, a, label),
                    label.start as int,
                    label.end as int,
                    NotaHighlightKind::Interpolation,
                );
                if t.kids.len() < 2 {
                    name
                } else {
                    children(
                        s,
                        props(s, name, t.kids[0].kids, 0, style),
                        t.kids[1].kids,
                        0,
                        None,
                        style,
                    )
                }
            },
            NodeKind::Emphasis { marker } => {
                let (kind, len) = emphasis_paint(marker);
                let under = emit(s, st, a, b, kind);
                let open = emit(s, under, a, a + len, NotaHighlightKind::Sigil);
                let close = emit(s, open, b - len, b, NotaHighlightKind::Sigil);
                children(s, close, t.kids, 0, None, style)
            },
            NodeKind::Link { url: _ } => children(s, st, t.kids, 0, None, style),
            NodeKind::Code { is_block: _, lang: _ } => if at(s, a) == Some(BACKTICK) {
                match code_span(s, a) {
                    CodeScan::Code { span, is_block: _, lang, content, resume: _ } => {
                        let open = emit(
                            s,
                            st,
                            span.start as int,
                            content.start as int,
                            NotaHighlightKind::CodeDelim,
                        );
                        let tag = match lang {
                            Some(l) => emit(
                                s,
                                open,
                                l.start as int,
                                l.end as int,
                                NotaHighlightKind::CodeLang,
                            ),
                            None => open,
                        };
                        let inner = parts(s, tag, t.kids, 0, NotaHighlightKind::Code, style);
                        emit(
                            s,
                            inner,
                            content.end as int,
                            span.end as int,
                            NotaHighlightKind::CodeDelim,
                        )
                    },
                    CodeScan::Literal { resume: _ } => st,
                }
            } else {
                st
            },
            NodeKind::Math { is_block: _ } => if at(s, a) == Some(DOLLAR) {
                match math_span(s, a) {
                    MathScan::Math { span, is_block: _, content, resume: _ } => {
                        let open = emit(
                            s,
                            st,
                            span.start as int,
                            content.start as int,
                            NotaHighlightKind::MathDelim,
                        );
                        let inner = parts(s, open, t.kids, 0, NotaHighlightKind::Math, style);
                        emit(
                            s,
                            inner,
                            content.end as int,
                            span.end as int,
                            NotaHighlightKind::MathDelim,
                        )
                    },
                    MathScan::Literal { resume: _ } => st,
                }
            } else {
                st
            },
            NodeKind::Comment { block: _ } => emit(s, st, a, b, NotaHighlightKind::Comment),
            _ => st,
        }
    }
}

/// A bare group of properties: its brackets, and the properties.
pub open spec fn group(s: Seq<u8>, st: Paint, t: Tree, style: bool) -> Paint
    decreases t, 0int, 19int, 0int,
{
    let (a, b) = (t.span.start as int, t.span.end as int);
    let open = emit(s, st, a, a + 1, NotaHighlightKind::Sigil);
    let close = emit(s, open, b - 1, b, NotaHighlightKind::Sigil);
    props(s, close, t.kids, 0, style)
}

/// The properties of a heading or a list item, if it has any, and its children.
pub open spec fn item_children(s: Seq<u8>, st: Paint, kids: Seq<Tree>, style: bool) -> Paint
    decreases kids, kids.len() as int, 6int, 0int,
{
    let from = first_child(kids);
    let given = if from == 1 {
        group(s, st, kids[0], style)
    } else {
        st
    };
    children(s, given, kids, from, None, style)
}

/// The kind of an emphasis, and the length of its markers.
pub open spec fn emphasis_paint(marker: NotaEmphasisMarker) -> (NotaHighlightKind, int) {
    match marker {
        NotaEmphasisMarker::Strong => (NotaHighlightKind::EmphasisStrong, 1),
        NotaEmphasisMarker::Em => (NotaHighlightKind::EmphasisEm, 1),
        NotaEmphasisMarker::Strike => (NotaHighlightKind::EmphasisStrike, 2),
    }
}

/// The sigils round the label of a document-state sugar that starts at `a`.
pub open spec fn doc_state_sigils(
    s: Seq<u8>,
    st: Paint,
    sugar: NotaDocStateKind,
    a: int,
    label: Span,
) -> Paint {
    match sugar {
        NotaDocStateKind::Label => emit(
            s,
            emit(s, st, a, a + 1, NotaHighlightKind::Sigil),
            label.end as int,
            label.end + 1,
            NotaHighlightKind::Sigil,
        ),
        NotaDocStateKind::Ref => emit(s, st, a, a + 1, NotaHighlightKind::Sigil),
        NotaDocStateKind::FootnoteMark => emit(
            s,
            emit(s, st, a, a + 2, NotaHighlightKind::Sigil),
            label.end as int,
            label.end + 1,
            NotaHighlightKind::Sigil,
        ),
        NotaDocStateKind::FootnoteText => emit(
            s,
            emit(s, st, a, a + 2, NotaHighlightKind::Sigil),
            label.end as int,
            label.end + 2,
            NotaHighlightKind::Sigil,
        ),
    }
}

/// The `@` and the tag of an element.
pub open spec fn head(s: Seq<u8>, st: Paint, t: Tree, tag: NotaTag, style: bool) -> Paint
    decreases t, 0int, 18int, 0int,
{
    let a = t.span.start as int;
    match tag {
        NotaTag::Host { name } => emit(
            s,
            emit(s, st, a, name.start as int, NotaHighlightKind::Sigil),
            name.start as int,
            name.end as int,
            NotaHighlightKind::TagHost,
        ),
        NotaTag::Component { name } => emit(
            s,
            emit(s, st, a, name.start as int, NotaHighlightKind::Sigil),
            name.start as int,
            name.end as int,
            NotaHighlightKind::TagComponent,
        ),
        NotaTag::Dynamic => {
            let sigil = emit(s, st, a, a + 1, NotaHighlightKind::Sigil);
            if t.kids.len() >= 3 {
                js(
                    s,
                    sigil,
                    t.kids[2].kids,
                    0,
                    t.kids[2].span.start as int,
                    t.kids[2].span.end as int,
                    style,
                )
            } else {
                sigil
            }
        },
    }
}

/// An element with a braced or a colon body.
pub open spec fn element(
    s: Seq<u8>,
    st: Paint,
    t: Tree,
    tag: NotaTag,
    body: BodyForm,
    style: bool,
) -> Paint
    decreases t, 0int, 19int, 0int,
{
    if t.kids.len() < 2 {
        st
    } else {
        let headed = head(s, st, t, tag, style);
        let end = head_end(s, t, tag);
        let lined = if body == BodyForm::Colon {
            let colon = if at(s, end) == Some(COLON) {
                emit(s, headed, end, end + 1, NotaHighlightKind::Sigil)
            } else {
                headed
            };
            prop_pipes(s, colon, t.kids[0].kids, 0, None)
        } else {
            headed
        };
        let given = props(s, lined, t.kids[0].kids, 0, style);
        children(
            s,
            given,
            t.kids[1].kids,
            0,
            None,
            style || is_host(s, tag, utf8("style")),
        )
    }
}

/// The `|` of each property line, once a line, for the properties from `k` on; `last` is the line
/// of the property before.
pub open spec fn prop_pipes(
    s: Seq<u8>,
    st: Paint,
    kids: Seq<Tree>,
    k: int,
    last: Option<int>,
) -> Paint
    decreases kids.len() - k,
{
    if 0 <= k < kids.len() {
        let line = line_start(s, kids[k].span.start as int);
        if !lies_in(s, kids[k]) || last == Some(line) {
            prop_pipes(s, st, kids, k + 1, last)
        } else {
            let next = match prop_line(s, line) {
                Some(content) => emit(
                    s,
                    st,
                    content - 1,
                    content as int,
                    NotaHighlightKind::Sigil,
                ),
                None => st,
            };
            prop_pipes(s, next, kids, k + 1, Some(line))
        }
    } else {
        st
    }
}

/// The properties from `k` on.
pub open spec fn props(s: Seq<u8>, st: Paint, kids: Seq<Tree>, k: int, style: bool) -> Paint
    decreases kids, kids.len() - k, 5int, 0int,
{
    if 0 <= k < kids.len() {
        props(s, prop(s, st, kids[k], style), kids, k + 1, style)
    } else {
        st
    }
}

/// One property.
pub open spec fn prop(s: Seq<u8>, st: Paint, p: Tree, style: bool) -> Paint
    decreases p, 0int, 10int, 0int,
{
    match p.kind {
        NodeKind::Field { key, quoted: _ } => {
            let named = emit(
                s,
                st,
                key.start as int,
                key.end as int,
                NotaHighlightKind::PropName,
            );
            if p.kids.len() > 0 {
                painted(s, named, p.kids[0], style)
            } else {
                named
            }
        },
        NodeKind::Shorthand => emit(
            s,
            st,
            p.span.start as int,
            p.span.end as int,
            NotaHighlightKind::PropName,
        ),
        NodeKind::Spread => if p.kids.len() > 0 {
            painted(s, st, p.kids[0], style)
        } else {
            st
        },
        _ => st,
    }
}

/// Where the `|{` of a verbatim body stands: at the end of the head, or behind the last property.
pub open spec fn body_open(s: Seq<u8>, t: Tree, tag: NotaTag, given: Seq<Tree>) -> int {
    if given.len() == 0 {
        head_end(s, t, tag)
    } else {
        verbatim_open(s, given.last().span.end as int)
    }
}

/// An element with a verbatim body.
pub open spec fn verbatim(s: Seq<u8>, st: Paint, t: Tree, tag: NotaTag, style: bool) -> Paint
    decreases t, 0int, 19int, 0int,
{
    if t.kids.len() < 2 {
        st
    } else {
        let end = t.span.end as int;
        let before = props(s, head(s, st, t, tag, style), t.kids[0].kids, 0, style);
        let open = body_open(s, t, tag, t.kids[0].kids);
        let opened = emit(s, before, open, open + 2, NotaHighlightKind::Sigil);
        let closed = if at(s, end - 2) == Some(RBRACE) && at(s, end - 1) == Some(PIPE) {
            emit(s, opened, end - 2, end, NotaHighlightKind::Sigil)
        } else {
            opened
        };
        parts(s, closed, t.kids[1].kids, 0, NotaHighlightKind::Verbatim, style)
    }
}

/// Where a form starts: an interpolation where its expression does.
pub open spec fn form_start(t: Tree) -> int {
    if t.kind == NodeKind::Interpolation && t.kids.len() > 0 {
        t.kids[0].span.start as int
    } else {
        t.span.start as int
    }
}

/// The raw runs and armed forms from `k` on.
pub open spec fn parts(
    s: Seq<u8>,
    st: Paint,
    kids: Seq<Tree>,
    k: int,
    raw: NotaHighlightKind,
    style: bool,
) -> Paint
    decreases kids, kids.len() - k, 5int, 0int,
{
    if 0 <= k < kids.len() {
        let next = if kids[k].kind == NodeKind::Raw {
            emit(s, st, kids[k].span.start as int, kids[k].span.end as int, raw)
        } else {
            let a = form_start(kids[k]);
            let armed = if at(s, a - 1) == Some(PIPE) {
                emit(s, st, a - 1, a, NotaHighlightKind::Sigil)
            } else {
                st
            };
            painted(s, armed, kids[k], style)
        };
        parts(s, next, kids, k + 1, raw, style)
    } else {
        st
    }
}

/// `@name`, or `@(expr)`.
pub open spec fn interpolation(s: Seq<u8>, st: Paint, t: Tree, style: bool) -> Paint
    decreases t, 0int, 19int, 0int,
{
    if t.kids.len() == 0 || !lies_in(s, t.kids[0]) {
        st
    } else {
        let (a, b) = (t.kids[0].span.start as int, t.kids[0].span.end as int);
        if is_plain_name(s, t.kids[0].span) {
            let sigil = if at(s, a - 1) == Some(AT_SIGN) {
                emit(s, st, a - 1, a, NotaHighlightKind::Sigil)
            } else {
                st
            };
            emit(s, sigil, a, b, NotaHighlightKind::Interpolation)
        } else {
            let p = gap_start(s, a);
            let sigil = if at(s, p - 1) == Some(LPAREN) && at(s, p - 2) == Some(AT_SIGN) {
                emit(s, st, p - 2, p - 1, NotaHighlightKind::Sigil)
            } else {
                st
            };
            js(s, sigil, t.kids[0].kids, 0, a, b, style)
        }
    }
}

/// A conditional, from its `@` or from the `if` of an `else if`.
pub open spec fn conditional(s: Seq<u8>, st: Paint, t: Tree, style: bool) -> Paint
    decreases t, 0int, 19int, 0int,
{
    let a = t.span.start as int;
    let keyword = if at(s, a) == Some(AT_SIGN) {
        emit(
            s,
            emit(s, st, a, a + 1, NotaHighlightKind::Sigil),
            a + 1,
            a + 3,
            NotaHighlightKind::ControlKeyword,
        )
    } else {
        emit(s, st, a, a + 2, NotaHighlightKind::ControlKeyword)
    };
    if t.kids.len() < 2 {
        keyword
    } else {
        let test = painted(s, keyword, t.kids[0], style);
        let body = children(s, test, t.kids[1].kids, 0, None, style);
        if t.kids.len() < 3 {
            body
        } else {
            let other = gap_end(s, t.kids[1].span.end as int);
            let marked = if at(s, other) == Some(LOWER_E) && at(s, other + 1) == Some(LOWER_L) && at(
                s,
                other + 2,
            ) == Some(LOWER_S) && at(s, other + 3) == Some(LOWER_E) {
                emit(s, body, other, other + 4, NotaHighlightKind::ControlKeyword)
            } else {
                body
            };
            if t.kids[2].kind == NodeKind::If {
                painted(s, marked, t.kids[2], style)
            } else {
                children(s, marked, t.kids[2].kids, 0, None, style)
            }
        }
    }
}

/// A loop.
pub open spec fn iteration(s: Seq<u8>, st: Paint, t: Tree, style: bool) -> Paint
    decreases t, 0int, 19int, 0int,
{
    let a = t.span.start as int;
    let keyword = emit(
        s,
        emit(s, st, a, a + 1, NotaHighlightKind::Sigil),
        a + 1,
        a + 4,
        NotaHighlightKind::ControlKeyword,
    );
    if t.kids.len() < 3 {
        keyword
    } else {
        let bind = painted(s, keyword, t.kids[0], style);
        let of = gap_end(s, t.kids[0].span.end as int);
        let marked = if at(s, of) == Some(LOWER_O) && at(s, of + 1) == Some(LOWER_F) {
            emit(s, bind, of, of + 2, NotaHighlightKind::ControlKeyword)
        } else {
            bind
        };
        children(s, painted(s, marked, t.kids[1], style), t.kids[2].kids, 0, None, style)
    }
}

/// The extents of JavaScript from `p` to `e` between the forms from `k` on, and those forms.
pub open spec fn js(
    s: Seq<u8>,
    st: Paint,
    kids: Seq<Tree>,
    k: int,
    p: int,
    e: int,
    style: bool,
) -> Paint
    decreases kids, kids.len() - k, 5int, 0int,
{
    if 0 <= k < kids.len() {
        let m = kids[k];
        if m.kind == NodeKind::Markup {
            let hole = if m.span.start < e {
                m.span.start as int
            } else {
                e
            };
            let before = collected(s, st, p, hole);
            let next = if p < m.span.end {
                m.span.end as int
            } else {
                p
            };
            js(s, painted(s, before, m, style), kids, k + 1, next, e, style)
        } else {
            js(s, st, kids, k + 1, p, e, style)
        }
    } else {
        collected(s, st, p, e)
    }
}

/// The children from `k` on; `prev` is the end of the child before, if there is one. A text that
/// stands right behind a backslash that belongs to no other child is what the backslash escapes.
pub open spec fn children(
    s: Seq<u8>,
    st: Paint,
    kids: Seq<Tree>,
    k: int,
    prev: Option<int>,
    style: bool,
) -> Paint
    decreases kids, kids.len() - k, 4int, 0int,
{
    if 0 <= k < kids.len() {
        let t = kids[k];
        let (a, b) = (t.span.start as int, t.span.end as int);
        if is_statement(t) {
            let j = statements_end(kids, k);
            proof {
                statements_end_bounds(kids, k);
            }
            children(
                s,
                statements(s, st, kids, k, j, style),
                kids,
                j,
                Some(kids[j - 1].span.end as int),
                style,
            )
        } else if t.kind == NodeKind::Text {
            let under = if style {
                emit(s, st, a, b, NotaHighlightKind::StyleText)
            } else {
                st
            };
            let escape = if at(s, a - 1) == Some(BACKSLASH) && (prev is None || prev == Some(a - 1)) {
                emit(s, under, a - 1, b, NotaHighlightKind::Escape)
            } else {
                under
            };
            children(s, escape, kids, k + 1, Some(b), style)
        } else if t.kind is Comment {
            children(s, painted(s, st, t, style), kids, k + 1, prev, style)
        } else {
            children(s, painted(s, st, t, style), kids, k + 1, Some(b), style)
        }
    } else {
        st
    }
}

/// The statements from `i` to `j`.
pub open spec fn statements(
    s: Seq<u8>,
    st: Paint,
    kids: Seq<Tree>,
    i: int,
    j: int,
    style: bool,
) -> Paint
    decreases kids, kids.len() - i, 2int, 0int,
{
    if 0 <= i < j && j <= kids.len() {
        let next = if lies_in(s, kids[i]) && (i + 1 < j ==> lies_in(s, kids[i + 1])) {
            let marked = statement_markers(s, st, kids[i].span.start as int);
            js(
                s,
                marked,
                kids[i].kids,
                0,
                kids[i].span.start as int,
                statement_extent(s, marked, kids, i, j),
                style,
            )
        } else {
            st
        };
        statements(s, next, kids, i + 1, j, style)
    } else {
        st
    }
}

/// Nothing painted.
pub open spec fn unpainted() -> Paint {
    Paint {
        spans: Seq::empty(),
        ranges: Seq::empty(),
        fence_done: 0,
        fence_inner: 0,
        marker: None,
    }
}

/// A document painted.
pub open spec fn structural(s: Seq<u8>, nodes: Seq<Tree>) -> Paint {
    children(s, unpainted(), nodes, 0, None, false)
}

/// Is every span a range of the source, and not empty?
pub open spec fn fits(s: Seq<u8>, spans: Seq<NotaHighlightSpan>) -> bool {
    forall|k: int| 0 <= k < spans.len() ==> (#[trigger] spans[k]).start < spans[k].end <= s.len()
}

/// What the walk has painted and collected, under way.
struct Canvas {
    spans: Vec<NotaHighlightSpan>,
    ranges: Vec<Span>,
    fence_done: u32,
    fence_inner: u32,
    marker: Option<u32>,
}

impl Canvas {
    /// The paint on it.
    spec fn paint(&self) -> Paint {
        Paint {
            spans: self.spans@,
            ranges: self.ranges@,
            fence_done: self.fence_done as int,
            fence_inner: self.fence_inner as int,
            marker: match self.marker {
                Some(m) => Some(m as int),
                None => None,
            },
        }
    }
}

/// The walk.
struct Highlighter<'a> {
    source: &'a str,
}

impl<'a> Highlighter<'a> {
    /// The bytes of the source.
    spec fn s(&self) -> Seq<u8> {
        utf8(self.source)
    }

    /// Offsets into the source fit.
    spec fn wf(&self) -> bool {
        addressable(utf8(self.source))
    }

    /// The byte at `i`.
    fn byte(&self, i: u64) -> (b: Option<u8>)
        requires
            self.wf(),
        ensures
            b == at(self.s(), i as int),
    {
        let s = self.source.as_bytes();
        if i < s.len() as u64 {
            Some(s[i as usize])
        } else {
            None
        }
    }

    /// The byte before `i`.
    fn byte_before(&self, i: u64) -> (b: Option<u8>)
        requires
            self.wf(),
        ensures
            b == at(self.s(), i - 1),
    {
        if i > 0 {
            self.byte(i - 1)
        } else {
            None
        }
    }

    /// Paint a span.
    fn emit(&self, c: &mut Canvas, a: u64, b: u64, kind: NotaHighlightKind)
        requires
            self.wf(),
        ensures
            final(c).paint() == emit(self.s(), old(c).paint(), a as int, b as int, kind),
            fits(self.s(), old(c).spans@) ==> fits(self.s(), final(c).spans@),
    {
        if a < b && b <= self.source.len() as u64 {
            c.spans.push(NotaHighlightSpan { start: a as u32, end: b as u32, kind });
        }
    }

    /// Collect an extent of JavaScript.
    fn collect(&self, c: &mut Canvas, a: u32, b: u32)
        requires
            self.wf(),
        ensures
            final(c).paint() == collected(self.s(), old(c).paint(), a as int, b as int),
            fits(self.s(), old(c).spans@) ==> fits(self.s(), final(c).spans@),
    {
        if a < b && b as usize <= self.source.len() {
            c.ranges.push(Span { start: a, end: b });
        }
    }

    /// The first byte at or after `i` that is not white space.
    fn gap_end(&self, i: u32) -> (end: u32)
        requires
            self.wf(),
        ensures
            end == gap_end(self.s(), i as int),
    {
        if i as usize <= self.source.len() {
            skip_class(self.source.as_bytes(), i as usize, ByteClass::Blank) as u32
        } else {
            i
        }
    }

    /// The start of the white space that ends at `i`.
    fn gap_start(&self, i: u32) -> (start: u32)
        requires
            self.wf(),
            i <= self.s().len(),
        ensures
            start == gap_start(self.s(), i as int),
    {
        let s = self.source.as_bytes();
        let mut p: u32 = i;
        while p > 0 && (s[p as usize - 1] == SPACE || s[p as usize - 1] == TAB || s[p as usize - 1]
            == RETURN || s[p as usize - 1] == NEWLINE)
            invariant
                p <= i <= s@.len(),
                gap_start(s@, p as int) == gap_start(s@, i as int),
            decreases p,
        {
            p = p - 1;
        }
        p
    }

    /// Does the extent of a node lie in the source?
    fn lies_in(&self, n: &Node) -> (yes: bool)
        requires
            self.wf(),
        ensures
            yes == lies_in(self.s(), n.tree()),
    {
        n.span.start <= n.span.end && n.span.end as usize <= self.source.len()
    }

    /// Where the `|{` of a verbatim body stands.
    fn find_verbatim_open(&self, from: u32) -> (open: u32)
        requires
            self.wf(),
        ensures
            open == verbatim_open(self.s(), from as int),
    {
        let s = self.source.as_bytes();
        let mut i: u32 = from;
        while (i as usize) < s.len() && !(s[i as usize] == PIPE && get(s, i as usize + 1) == Some(
            LBRACE,
        )) && (s[i as usize] == LBRACK || s[i as usize] == RBRACK || s[i as usize] == COMMA || s[i as usize]
            == SPACE || s[i as usize] == TAB || s[i as usize] == RETURN || s[i as usize] == NEWLINE)
            invariant
                s@ == self.s(),
                addressable(s@),
                verbatim_open(s@, i as int) == verbatim_open(s@, from as int),
            decreases s@.len() - i,
        {
            i = i + 1;
        }
        i
    }

    /// Is an expression a plain name?
    fn is_plain_name(&self, span: Span) -> (yes: bool)
        requires
            self.wf(),
        ensures
            yes == is_plain_name(self.s(), span),
    {
        let s = self.source.as_bytes();
        let bare = span.start > 0 && get(s, span.start as usize - 1) == Some(AT_SIGN);
        is_identifier_name(self.source, span) && (bare || !(spells(s, span, "true") || spells(
            s,
            span,
            "false",
        ) || spells(s, span, "null") || spells(s, span, "this")))
    }

    /// The end of an element's head.
    fn head_end(&self, n: &Node, tag: NotaTag) -> (end: u64)
        requires
            self.wf(),
        ensures
            end == head_end(self.s(), n.tree(), tag),
            end <= u32::MAX + 1,
    {
        match tag {
            NotaTag::Host { name } => name.end as u64,
            NotaTag::Component { name } => name.end as u64,
            NotaTag::Dynamic => {
                if n.kids.len() >= 3 {
                    assert(n.tree().kids[2] == n.kids@[2].tree());
                    let close: u32 = self.gap_end(n.kids[2].span.end);
                    if self.byte(close as u64) == Some(RPAREN) {
                        close as u64 + 1
                    } else {
                        close as u64
                    }
                } else {
                    n.span.start as u64 + 1
                }
            },
        }
    }

    /// The opening line of the fence that a line stands in.
    fn fence_above(&self, line: u32) -> (found: Option<(u32, u32)>)
        requires
            self.wf(),
            line <= self.s().len(),
        ensures
            match (found, fence_above(self.s(), line as int)) {
                (Some(x), Some(y)) => x.0 == y.0 && x.1 == y.1 && x.0 <= self.s().len(),
                (None, None) => true,
                _ => false,
            },
    {
        let mut at: u32 = line;
        while at > 0
            invariant
                self.wf(),
                at <= line <= self.s().len(),
                fence_above(self.s(), at as int) == fence_above(self.s(), line as int),
            decreases at,
        {
            let above: u32 = line_start_of(self.source, at - 1);
            if let Some((inner, true)) = statement_kind(self.source, above) {
                return Some((above, inner));
            }
            at = above;
        }
        None
    }

    /// Paint the opening and the closing run of a fence.
    fn emit_fence_markers(&self, c: &mut Canvas, open_line: u32, inner: u32)
        requires
            self.wf(),
            open_line <= self.s().len(),
        ensures
            final(c).paint() == fence_markers(
                self.s(),
                old(c).paint(),
                open_line as int,
                inner as int,
            ),
            fits(self.s(), old(c).spans@) ==> fits(self.s(), final(c).spans@),
    {
        let open: u32 = self.gap_end(open_line);
        self.emit(
            c,
            open as u64,
            sigil_run_end(self.source, open, PERCENT) as u64,
            NotaHighlightKind::Sigil,
        );
        let (inner_end, after) = find_fence_close(self.source, inner);
        let close: u32 = self.gap_end(inner_end);
        if self.byte(close as u64) == Some(PERCENT) {
            self.emit(
                c,
                close as u64,
                sigil_run_end(self.source, close, PERCENT) as u64,
                NotaHighlightKind::Sigil,
            );
        }
        c.fence_done = after;
        c.fence_inner = inner_end;
    }

    /// Paint the markers that own the statement at `start`.
    fn emit_statement_markers(&self, c: &mut Canvas, start: u32)
        requires
            self.wf(),
            start <= self.s().len(),
        ensures
            final(c).paint() == statement_markers(self.s(), old(c).paint(), start as int),
            fits(self.s(), old(c).spans@) ==> fits(self.s(), final(c).spans@),
    {
        if start < c.fence_done {
            return ;
        }
        let line: u32 = line_start_of(self.source, start);
        match statement_kind(self.source, line) {
            Some((content, false)) => {
                let marker: u32 = content - 1;
                if c.marker != Some(marker) {
                    c.marker = Some(marker);
                    self.emit(c, marker as u64, content as u64, NotaHighlightKind::Sigil);
                }
            },
            Some((inner, true)) => self.emit_fence_markers(c, line, inner),
            None => {
                if let Some((above, inner)) = self.fence_above(line) {
                    self.emit_fence_markers(c, above, inner);
                }
            },
        }
    }

    /// Where the JavaScript of the statement at `i` ends.
    fn statement_extent(&self, c: &Canvas, kids: &Vec<Node>, i: usize, j: usize) -> (end: u32)
        requires
            self.wf(),
            i < j <= kids@.len(),
            lies_in(self.s(), kids@[i as int].tree()),
            i + 1 < j ==> lies_in(self.s(), kids@[i + 1].tree()),
        ensures
            end == statement_extent(self.s(), c.paint(), trees(kids@), i as int, j as int),
    {
        assert(trees(kids@)[i as int] == kids@[i as int].tree());
        let here = kids[i].span;
        let in_fence = here.start < c.fence_done;
        let trailing: u32 = if in_fence {
            c.fence_inner
        } else {
            line_content_end(self.source, here.end)
        };
        let end: u32 = if i + 1 < j {
            assert(trees(kids@)[i + 1] == kids@[i + 1].tree());
            let next: u32 = kids[i + 1].span.start;
            if (in_fence && next < c.fence_done) || (!in_fence && line_start_of(self.source, next)
                == line_start_of(self.source, here.start)) {
                next
            } else {
                trailing
            }
        } else {
            trailing
        };
        if end < here.end {
            here.end
        } else {
            end
        }
    }

    /// Paint a node.
    fn visit_nota_child(&self, c: &mut Canvas, n: &Node, style: bool)
        requires
            self.wf(),
        ensures
            final(c).paint() == painted(self.s(), old(c).paint(), n.tree(), style),
            fits(self.s(), old(c).spans@) ==> fits(self.s(), final(c).spans@),
        decreases n, 0int, 20int, 0int,
    {
        if !self.lies_in(n) {
            return ;
        }
        let a: u64 = n.span.start as u64;
        let b: u64 = n.span.end as u64;
        match n.kind {
            NodeKind::Element { tag, body } => {
                if body == BodyForm::Verbatim {
                    self.visit_nota_verbatim(c, n, tag, style);
                } else {
                    self.visit_nota_element(c, n, tag, body, style);
                }
            },
            NodeKind::Fragment => {
                if self.byte(a) == Some(AT_SIGN) && self.byte(a + 1) == Some(LBRACE) {
                    self.emit(c, a, a + 1, NotaHighlightKind::Sigil);
                }
                self.visit_nota_children(c, &n.kids, 0, style);
            },
            NodeKind::Interpolation => self.visit_nota_interpolation(c, n, style),
            NodeKind::Js { tier: _ } => self.js_subtree(c, &n.kids, n.span.start, n.span.end, style),
            NodeKind::Markup => {
                if n.kids.len() > 0 {
                    self.visit_nota_child(c, &n.kids[0], style);
                }
            },
            NodeKind::If => self.visit_nota_if(c, n, style),
            NodeKind::For => self.visit_nota_for(c, n, style),
            NodeKind::Link { url: _ } => self.visit_nota_children(c, &n.kids, 0, style),
            NodeKind::Code { is_block: _, lang: _ } => self.visit_nota_code(c, n, style),
            NodeKind::Math { is_block: _ } => self.visit_nota_math(c, n, style),
            NodeKind::Comment { block: _ } => self.emit(c, a, b, NotaHighlightKind::Comment),
            NodeKind::ThematicBreak => self.emit(c, a, b, NotaHighlightKind::ListMarker),
            _ => self.visit_nota_sugar(c, n, style),
        }
    }

    /// Paint a heading, a list item, a document-state sugar or emphasis.
    fn visit_nota_sugar(&self, c: &mut Canvas, n: &Node, style: bool)
        requires
            self.wf(),
            lies_in(self.s(), n.tree()),
            !(n.kind is Element),
            !(n.kind is Fragment),
            !(n.kind is Interpolation),
            !(n.kind is Js),
            !(n.kind is Markup),
            !(n.kind is If),
            !(n.kind is For),
            !(n.kind is Link),
            !(n.kind is Code),
            !(n.kind is Math),
            !(n.kind is Comment),
            !(n.kind is ThematicBreak),
        ensures
            final(c).paint() == painted(self.s(), old(c).paint(), n.tree(), style),
            fits(self.s(), old(c).spans@) ==> fits(self.s(), final(c).spans@),
        decreases n, 0int, 19int, 0int,
    {
        let a: u64 = n.span.start as u64;
        let b: u64 = n.span.end as u64;
        match n.kind {
            NodeKind::Heading { level } => {
                let marker: u64 = self.gap_end(n.span.start) as u64;
                self.emit(c, a, b, NotaHighlightKind::Heading);
                self.emit(c, marker, marker + level as u64, NotaHighlightKind::HeadingMarker);
                self.item_children(c, &n.kids, style);
            },
            NodeKind::ListItem { list: _ } => {
                if let Some(m) = list_marker_at(self.source, n.span.start) {
                    self.emit(
                        c,
                        m.offset as u64,
                        m.body_col as u64 - 1,
                        NotaHighlightKind::ListMarker,
                    );
                }
                self.item_children(c, &n.kids, style);
            },
            NodeKind::Attrs => self.visit_nota_attrs(c, n, style),
            NodeKind::DocState { sugar, label } => {
                let e: u64 = label.end as u64;
                match sugar {
                    NotaDocStateKind::Label => {
                        self.emit(c, a, a + 1, NotaHighlightKind::Sigil);
                        self.emit(c, e, e + 1, NotaHighlightKind::Sigil);
                    },
                    NotaDocStateKind::Ref => self.emit(c, a, a + 1, NotaHighlightKind::Sigil),
                    NotaDocStateKind::FootnoteMark => {
                        self.emit(c, a, a + 2, NotaHighlightKind::Sigil);
                        self.emit(c, e, e + 1, NotaHighlightKind::Sigil);
                    },
                    NotaDocStateKind::FootnoteText => {
                        self.emit(c, a, a + 2, NotaHighlightKind::Sigil);
                        self.emit(c, e, e + 2, NotaHighlightKind::Sigil);
                    },
                }
                self.emit(c, label.start as u64, e, NotaHighlightKind::Interpolation);
                if n.kids.len() >= 2 {
                    assert(n.tree().kids[0] == n.kids@[0].tree());
                    assert(n.tree().kids[1] == n.kids@[1].tree());
                    self.visit_nota_props(c, &n.kids[0].kids, style);
                    self.visit_nota_children(c, &n.kids[1].kids, 0, style);
                }
            },
            NodeKind::Emphasis { marker } => {
                let (kind, len) = match marker {
                    NotaEmphasisMarker::Strong => (NotaHighlightKind::EmphasisStrong, 1u64),
                    NotaEmphasisMarker::Em => (NotaHighlightKind::EmphasisEm, 1u64),
                    NotaEmphasisMarker::Strike => (NotaHighlightKind::EmphasisStrike, 2u64),
                };
                self.emit(c, a, b, kind);
                self.emit(c, a, a + len, NotaHighlightKind::Sigil);
                if b >= len {
                    self.emit(c, b - len, b, NotaHighlightKind::Sigil);
                }
                self.visit_nota_children(c, &n.kids, 0, style);
            },
            _ => {},
        }
    }

    /// Paint a code span.
    fn visit_nota_code(&self, c: &mut Canvas, n: &Node, style: bool)
        requires
            self.wf(),
            lies_in(self.s(), n.tree()),
            n.kind is Code,
        ensures
            final(c).paint() == painted(self.s(), old(c).paint(), n.tree(), style),
            fits(self.s(), old(c).spans@) ==> fits(self.s(), final(c).spans@),
        decreases n, 0int, 19int, 0int,
    {
        if self.byte(n.span.start as u64) == Some(BACKTICK) {
            if let CodeScan::Code { span, is_block: _, lang, content, resume: _ } = lex_code_span(
                self.source,
                n.span.start,
            ) {
                self.emit(
                    c,
                    span.start as u64,
                    content.start as u64,
                    NotaHighlightKind::CodeDelim,
                );
                if let Some(l) = lang {
                    self.emit(c, l.start as u64, l.end as u64, NotaHighlightKind::CodeLang);
                }
                self.emit_raw_parts(c, &n.kids, NotaHighlightKind::Code, style);
                self.emit(c, content.end as u64, span.end as u64, NotaHighlightKind::CodeDelim);
            }
        }
    }

    /// Paint a math span.
    fn visit_nota_math(&self, c: &mut Canvas, n: &Node, style: bool)
        requires
            self.wf(),
            lies_in(self.s(), n.tree()),
            n.kind is Math,
        ensures
            final(c).paint() == painted(self.s(), old(c).paint(), n.tree(), style),
            fits(self.s(), old(c).spans@) ==> fits(self.s(), final(c).spans@),
        decreases n, 0int, 19int, 0int,
    {
        if self.byte(n.span.start as u64) == Some(DOLLAR) {
            if let MathScan::Math { span, is_block: _, content, resume: _ } = lex_math_span(
                self.source,
                n.span.start,
            ) {
                self.emit(
                    c,
                    span.start as u64,
                    content.start as u64,
                    NotaHighlightKind::MathDelim,
                );
                self.emit_raw_parts(c, &n.kids, NotaHighlightKind::Math, style);
                self.emit(c, content.end as u64, span.end as u64, NotaHighlightKind::MathDelim);
            }
        }
    }

    /// Paint the `@` and the tag of an element.
    fn emit_head(&self, c: &mut Canvas, n: &Node, tag: NotaTag, style: bool)
        requires
            self.wf(),
        ensures
            final(c).paint() == head(self.s(), old(c).paint(), n.tree(), tag, style),
            fits(self.s(), old(c).spans@) ==> fits(self.s(), final(c).spans@),
        decreases n, 0int, 18int, 0int,
    {
        let a: u64 = n.span.start as u64;
        match tag {
            NotaTag::Host { name } => {
                self.emit(c, a, name.start as u64, NotaHighlightKind::Sigil);
                self.emit(c, name.start as u64, name.end as u64, NotaHighlightKind::TagHost);
            },
            NotaTag::Component { name } => {
                self.emit(c, a, name.start as u64, NotaHighlightKind::Sigil);
                self.emit(c, name.start as u64, name.end as u64, NotaHighlightKind::TagComponent);
            },
            NotaTag::Dynamic => {
                self.emit(c, a, a + 1, NotaHighlightKind::Sigil);
                if n.kids.len() >= 3 {
                    assert(n.tree().kids[2] == n.kids@[2].tree());
                    let expr = &n.kids[2];
                    self.js_subtree(c, &expr.kids, expr.span.start, expr.span.end, style);
                }
            },
        }
    }

    /// Paint an element with a braced or a colon body.
    fn visit_nota_element(&self, c: &mut Canvas, n: &Node, tag: NotaTag, body: BodyForm, style: bool)
        requires
            self.wf(),
        ensures
            final(c).paint() == element(self.s(), old(c).paint(), n.tree(), tag, body, style),
            fits(self.s(), old(c).spans@) ==> fits(self.s(), final(c).spans@),
        decreases n, 0int, 19int, 0int,
    {
        if n.kids.len() < 2 {
            return ;
        }
        assert(n.tree().kids[0] == n.kids@[0].tree());
        assert(n.tree().kids[1] == n.kids@[1].tree());
        self.emit_head(c, n, tag, style);
        if body == BodyForm::Colon {
            let end: u64 = self.head_end(n, tag);
            if self.byte(end) == Some(COLON) {
                self.emit(c, end, end + 1, NotaHighlightKind::Sigil);
            }
            self.prop_pipes(c, &n.kids[0].kids);
        }
        self.visit_nota_props(c, &n.kids[0].kids, style);
        let inner = style || tag_is_host(self.source.as_bytes(), tag, "style");
        self.visit_nota_children(c, &n.kids[1].kids, 0, inner);
    }

    /// Paint the `|` of each property line.
    fn prop_pipes(&self, c: &mut Canvas, kids: &Vec<Node>)
        requires
            self.wf(),
        ensures
            final(c).paint() == prop_pipes(self.s(), old(c).paint(), trees(kids@), 0, None),
            fits(self.s(), old(c).spans@) ==> fits(self.s(), final(c).spans@),
    {
        let ghost all = trees(kids@);
        let ghost start = c.paint();
        let mut last: Option<u32> = None;
        let ghost mut seen: Option<int> = None;
        let mut k: usize = 0;
        while k < kids.len()
            invariant
                self.wf(),
                fits(self.s(), old(c).spans@) ==> fits(self.s(), c.spans@),
                all == trees(kids@),
                k <= kids@.len(),
                seen == (match last {
                    Some(l) => Some(l as int),
                    None => None::<int>,
                }),
                prop_pipes(self.s(), c.paint(), all, k as int, seen) == prop_pipes(
                    self.s(),
                    start,
                    all,
                    0,
                    None,
                ),
            decreases kids@.len() - k,
        {
            assert(all[k as int] == kids@[k as int].tree());
            if self.lies_in(&kids[k]) {
                let line: u32 = line_start_of(self.source, kids[k].span.start);
                if last != Some(line) {
                    if let Some(content) = colon_prop_line_at(self.source, line) {
                        self.emit(
                            c,
                            content as u64 - 1,
                            content as u64,
                            NotaHighlightKind::Sigil,
                        );
                    }
                    last = Some(line);
                    proof {
                        seen = Some(line as int);
                    }
                }
            }
            k = k + 1;
        }
    }

    /// Paint properties.
    fn visit_nota_props(&self, c: &mut Canvas, kids: &Vec<Node>, style: bool)
        requires
            self.wf(),
        ensures
            final(c).paint() == props(self.s(), old(c).paint(), trees(kids@), 0, style),
            fits(self.s(), old(c).spans@) ==> fits(self.s(), final(c).spans@),
        decreases kids, kids.len() as int, 5int, 0int,
    {
        let ghost all = trees(kids@);
        let ghost start = c.paint();
        let mut k: usize = 0;
        while k < kids.len()
            invariant
                self.wf(),
                fits(self.s(), old(c).spans@) ==> fits(self.s(), c.spans@),
                all == trees(kids@),
                k <= kids@.len(),
                props(self.s(), c.paint(), all, k as int, style) == props(
                    self.s(),
                    start,
                    all,
                    0,
                    style,
                ),
            decreases kids@.len() - k,
        {
            assert(all[k as int] == kids@[k as int].tree());
            self.visit_nota_prop(c, &kids[k], style);
            k = k + 1;
        }
    }

    /// Paint one property.
    fn visit_nota_prop(&self, c: &mut Canvas, p: &Node, style: bool)
        requires
            self.wf(),
        ensures
            final(c).paint() == prop(self.s(), old(c).paint(), p.tree(), style),
            fits(self.s(), old(c).spans@) ==> fits(self.s(), final(c).spans@),
        decreases p, 0int, 10int, 0int,
    {
        match p.kind {
            NodeKind::Field { key, quoted: _ } => {
                self.emit(c, key.start as u64, key.end as u64, NotaHighlightKind::PropName);
                if p.kids.len() > 0 {
                    self.visit_nota_child(c, &p.kids[0], style);
                }
            },
            NodeKind::Shorthand => self.emit(
                c,
                p.span.start as u64,
                p.span.end as u64,
                NotaHighlightKind::PropName,
            ),
            NodeKind::Spread => {
                if p.kids.len() > 0 {
                    self.visit_nota_child(c, &p.kids[0], style);
                }
            },
            _ => {},
        }
    }

    /// Where the `|{` of a verbatim body stands.
    fn body_open(&self, n: &Node, tag: NotaTag, given: &Vec<Node>) -> (open: u64)
        requires
            self.wf(),
        ensures
            open == body_open(self.s(), n.tree(), tag, trees(given@)),
            open <= u32::MAX + 1,
    {
        if given.len() == 0 {
            self.head_end(n, tag)
        } else {
            let last = &given[given.len() - 1];
            assert(trees(given@).last() == last.tree());
            self.find_verbatim_open(last.span.end) as u64
        }
    }

    /// Paint an element with a verbatim body.
    fn visit_nota_verbatim(&self, c: &mut Canvas, n: &Node, tag: NotaTag, style: bool)
        requires
            self.wf(),
        ensures
            final(c).paint() == verbatim(self.s(), old(c).paint(), n.tree(), tag, style),
            fits(self.s(), old(c).spans@) ==> fits(self.s(), final(c).spans@),
        decreases n, 0int, 19int, 0int,
    {
        if n.kids.len() < 2 {
            return ;
        }
        assert(n.tree().kids[0] == n.kids@[0].tree());
        assert(n.tree().kids[1] == n.kids@[1].tree());
        let end: u64 = n.span.end as u64;
        self.emit_head(c, n, tag, style);
        self.visit_nota_props(c, &n.kids[0].kids, style);
        let open: u64 = self.body_open(n, tag, &n.kids[0].kids);
        self.emit(c, open, open + 2, NotaHighlightKind::Sigil);
        if end >= 2 && self.byte(end - 2) == Some(RBRACE) && self.byte(end - 1) == Some(PIPE) {
            self.emit(c, end - 2, end, NotaHighlightKind::Sigil);
        }
        self.emit_raw_parts(c, &n.kids[1].kids, NotaHighlightKind::Verbatim, style);
    }

    /// Paint raw runs and armed forms.
    fn emit_raw_parts(&self, c: &mut Canvas, kids: &Vec<Node>, raw: NotaHighlightKind, style: bool)
        requires
            self.wf(),
        ensures
            final(c).paint() == parts(self.s(), old(c).paint(), trees(kids@), 0, raw, style),
            fits(self.s(), old(c).spans@) ==> fits(self.s(), final(c).spans@),
        decreases kids, kids.len() as int, 5int, 0int,
    {
        let ghost all = trees(kids@);
        let ghost start = c.paint();
        let mut k: usize = 0;
        while k < kids.len()
            invariant
                self.wf(),
                fits(self.s(), old(c).spans@) ==> fits(self.s(), c.spans@),
                all == trees(kids@),
                k <= kids@.len(),
                parts(self.s(), c.paint(), all, k as int, raw, style) == parts(
                    self.s(),
                    start,
                    all,
                    0,
                    raw,
                    style,
                ),
            decreases kids@.len() - k,
        {
            assert(all[k as int] == kids@[k as int].tree());
            let n = &kids[k];
            if n.kind == NodeKind::Raw {
                self.emit(c, n.span.start as u64, n.span.end as u64, raw);
            } else {
                let a: u64 = if n.kind == NodeKind::Interpolation && n.kids.len() > 0 {
                    assert(n.tree().kids[0] == n.kids@[0].tree());
                    n.kids[0].span.start as u64
                } else {
                    n.span.start as u64
                };
                if self.byte_before(a) == Some(PIPE) {
                    self.emit(c, a - 1, a, NotaHighlightKind::Sigil);
                }
                self.visit_nota_child(c, n, style);
            }
            k = k + 1;
        }
    }

    /// Paint `@name` or `@(expr)`.
    fn visit_nota_interpolation(&self, c: &mut Canvas, n: &Node, style: bool)
        requires
            self.wf(),
        ensures
            final(c).paint() == interpolation(self.s(), old(c).paint(), n.tree(), style),
            fits(self.s(), old(c).spans@) ==> fits(self.s(), final(c).spans@),
        decreases n, 0int, 19int, 0int,
    {
        if n.kids.len() == 0 {
            return ;
        }
        let expr = &n.kids[0];
        assert(n.tree().kids[0] == expr.tree());
        if !self.lies_in(expr) {
            return ;
        }
        let a: u64 = expr.span.start as u64;
        if self.is_plain_name(expr.span) {
            if self.byte_before(a) == Some(AT_SIGN) {
                self.emit(c, a - 1, a, NotaHighlightKind::Sigil);
            }
            self.emit(c, a, expr.span.end as u64, NotaHighlightKind::Interpolation);
        } else {
            let p: u64 = self.gap_start(expr.span.start) as u64;
            if self.byte_before(p) == Some(LPAREN) && self.byte_before(p - 1) == Some(AT_SIGN) {
                self.emit(c, p - 2, p - 1, NotaHighlightKind::Sigil);
            }
            self.js_subtree(c, &expr.kids, expr.span.start, expr.span.end, style);
        }
    }

    /// Paint a conditional.
    fn visit_nota_if(&self, c: &mut Canvas, n: &Node, style: bool)
        requires
            self.wf(),
        ensures
            final(c).paint() == conditional(self.s(), old(c).paint(), n.tree(), style),
            fits(self.s(), old(c).spans@) ==> fits(self.s(), final(c).spans@),
        decreases n, 0int, 19int, 0int,
    {
        let a: u64 = n.span.start as u64;
        if self.byte(a) == Some(AT_SIGN) {
            self.emit(c, a, a + 1, NotaHighlightKind::Sigil);
            self.emit(c, a + 1, a + 3, NotaHighlightKind::ControlKeyword);
        } else {
            self.emit(c, a, a + 2, NotaHighlightKind::ControlKeyword);
        }
        if n.kids.len() < 2 {
            return ;
        }
        assert(n.tree().kids[1] == n.kids@[1].tree());
        self.visit_nota_child(c, &n.kids[0], style);
        self.visit_nota_children(c, &n.kids[1].kids, 0, style);
        if n.kids.len() < 3 {
            return ;
        }
        assert(n.tree().kids[2] == n.kids@[2].tree());
        let other: u64 = self.gap_end(n.kids[1].span.end) as u64;
        if self.byte(other) == Some(LOWER_E) && self.byte(other + 1) == Some(LOWER_L) && self.byte(
            other + 2,
        ) == Some(LOWER_S) && self.byte(other + 3) == Some(LOWER_E) {
            self.emit(c, other, other + 4, NotaHighlightKind::ControlKeyword);
        }
        if n.kids[2].kind == NodeKind::If {
            self.visit_nota_child(c, &n.kids[2], style);
        } else {
            self.visit_nota_children(c, &n.kids[2].kids, 0, style);
        }
    }

    /// Paint a loop.
    fn visit_nota_for(&self, c: &mut Canvas, n: &Node, style: bool)
        requires
            self.wf(),
        ensures
            final(c).paint() == iteration(self.s(), old(c).paint(), n.tree(), style),
            fits(self.s(), old(c).spans@) ==> fits(self.s(), final(c).spans@),
        decreases n, 0int, 19int, 0int,
    {
        let a: u64 = n.span.start as u64;
        self.emit(c, a, a + 1, NotaHighlightKind::Sigil);
        self.emit(c, a + 1, a + 4, NotaHighlightKind::ControlKeyword);
        if n.kids.len() < 3 {
            return ;
        }
        assert(n.tree().kids[0] == n.kids@[0].tree());
        assert(n.tree().kids[2] == n.kids@[2].tree());
        self.visit_nota_child(c, &n.kids[0], style);
        let of: u64 = self.gap_end(n.kids[0].span.end) as u64;
        if self.byte(of) == Some(LOWER_O) && self.byte(of + 1) == Some(LOWER_F) {
            self.emit(c, of, of + 2, NotaHighlightKind::ControlKeyword);
        }
        self.visit_nota_child(c, &n.kids[1], style);
        self.visit_nota_children(c, &n.kids[2].kids, 0, style);
    }

    /// Collect the extents of JavaScript from `a` to `e`, and paint the forms between them.
    fn js_subtree(&self, c: &mut Canvas, kids: &Vec<Node>, a: u32, e: u32, style: bool)
        requires
            self.wf(),
        ensures
            final(c).paint() == js(
                self.s(),
                old(c).paint(),
                trees(kids@),
                0,
                a as int,
                e as int,
                style,
            ),
            fits(self.s(), old(c).spans@) ==> fits(self.s(), final(c).spans@),
        decreases kids, kids.len() as int, 5int, 0int,
    {
        let ghost all = trees(kids@);
        let ghost start = c.paint();
        let mut p: u32 = a;
        let mut k: usize = 0;
        while k < kids.len()
            invariant
                self.wf(),
                fits(self.s(), old(c).spans@) ==> fits(self.s(), c.spans@),
                all == trees(kids@),
                k <= kids@.len(),
                js(self.s(), c.paint(), all, k as int, p as int, e as int, style) == js(
                    self.s(),
                    start,
                    all,
                    0,
                    a as int,
                    e as int,
                    style,
                ),
            decreases kids@.len() - k,
        {
            assert(all[k as int] == kids@[k as int].tree());
            let m = &kids[k];
            if m.kind == NodeKind::Markup {
                let hole: u32 = if m.span.start < e {
                    m.span.start
                } else {
                    e
                };
                self.collect(c, p, hole);
                self.visit_nota_child(c, m, style);
                if p < m.span.end {
                    p = m.span.end;
                }
            }
            k = k + 1;
        }
        self.collect(c, p, e);
    }

    /// Paint a bare group of properties.
    fn visit_nota_attrs(&self, c: &mut Canvas, n: &Node, style: bool)
        requires
            self.wf(),
        ensures
            final(c).paint() == group(self.s(), old(c).paint(), n.tree(), style),
            fits(self.s(), old(c).spans@) ==> fits(self.s(), final(c).spans@),
        decreases n, 0int, 18int, 0int,
    {
        let a: u64 = n.span.start as u64;
        let b: u64 = n.span.end as u64;
        self.emit(c, a, a + 1, NotaHighlightKind::Sigil);
        if b > 0 {
            self.emit(c, b - 1, b, NotaHighlightKind::Sigil);
        }
        self.visit_nota_props(c, &n.kids, style);
    }

    /// Paint the properties of a heading or a list item, and its children.
    fn item_children(&self, c: &mut Canvas, kids: &Vec<Node>, style: bool)
        requires
            self.wf(),
        ensures
            final(c).paint() == item_children(self.s(), old(c).paint(), trees(kids@), style),
            fits(self.s(), old(c).spans@) ==> fits(self.s(), final(c).spans@),
        decreases kids, kids.len() as int, 6int, 0int,
    {
        let from: usize = start_of_children(kids);
        if from == 1 {
            assert(trees(kids@)[0] == kids@[0].tree());
            self.visit_nota_attrs(c, &kids[0], style);
        }
        self.visit_nota_children(c, kids, from, style);
    }

    /// Paint the children from `from` on.
    fn visit_nota_children(&self, c: &mut Canvas, kids: &Vec<Node>, from: usize, style: bool)
        requires
            self.wf(),
            from <= kids@.len(),
        ensures
            final(c).paint() == children(
                self.s(),
                old(c).paint(),
                trees(kids@),
                from as int,
                None,
                style,
            ),
            fits(self.s(), old(c).spans@) ==> fits(self.s(), final(c).spans@),
        decreases kids, kids.len() - from, 4int, 0int,
    {
        let ghost all = trees(kids@);
        let ghost start = c.paint();
        let mut prev: Option<u32> = None;
        let ghost mut before: Option<int> = None;
        let mut k: usize = from;
        while k < kids.len()
            invariant
                self.wf(),
                fits(self.s(), old(c).spans@) ==> fits(self.s(), c.spans@),
                all == trees(kids@),
                from <= k <= kids@.len(),
                before == (match prev {
                    Some(p) => Some(p as int),
                    None => None::<int>,
                }),
                children(self.s(), c.paint(), all, k as int, before, style) == children(
                    self.s(),
                    start,
                    all,
                    from as int,
                    None,
                    style,
                ),
            decreases kids@.len() - k,
        {
            assert(all[k as int] == kids@[k as int].tree());
            let n = &kids[k];
            if node_is_statement(n) {
                let j: usize = statement_run_end(kids, k);
                proof {
                    statements_end_bounds(all, k as int);
                }
                self.statement_run(c, kids, k, j, style);
                assert(all[j - 1] == kids@[j - 1].tree());
                prev = Some(kids[j - 1].span.end);
                proof {
                    before = Some(kids@[j - 1].span.end as int);
                }
                k = j;
                continue ;
            }
            if n.kind == NodeKind::Text {
                let a: u64 = n.span.start as u64;
                let b: u64 = n.span.end as u64;
                if style {
                    self.emit(c, a, b, NotaHighlightKind::StyleText);
                }
                if self.byte_before(a) == Some(BACKSLASH) && (prev.is_none() || prev == Some(
                    n.span.start - 1,
                )) {
                    self.emit(c, a - 1, b, NotaHighlightKind::Escape);
                }
            } else {
                self.visit_nota_child(c, n, style);
            }
            let trivia = match n.kind {
                NodeKind::Comment { block: _ } => true,
                _ => false,
            };
            if !trivia {
                prev = Some(n.span.end);
                proof {
                    before = Some(n.span.end as int);
                }
            }
            k = k + 1;
        }
    }

    /// Paint the statements from `from` to `j`.
    fn statement_run(&self, c: &mut Canvas, kids: &Vec<Node>, from: usize, j: usize, style: bool)
        requires
            self.wf(),
            from <= j <= kids@.len(),
        ensures
            final(c).paint() == statements(
                self.s(),
                old(c).paint(),
                trees(kids@),
                from as int,
                j as int,
                style,
            ),
            fits(self.s(), old(c).spans@) ==> fits(self.s(), final(c).spans@),
        decreases kids, kids.len() - from, 2int, 0int,
    {
        let ghost all = trees(kids@);
        let ghost start = c.paint();
        let mut i: usize = from;
        while i < j
            invariant
                self.wf(),
                fits(self.s(), old(c).spans@) ==> fits(self.s(), c.spans@),
                all == trees(kids@),
                from <= i <= j <= kids@.len(),
                statements(self.s(), c.paint(), all, i as int, j as int, style) == statements(
                    self.s(),
                    start,
                    all,
                    from as int,
                    j as int,
                    style,
                ),
            decreases j - i,
        {
            assert(all[i as int] == kids@[i as int].tree());
            assert(i + 1 < j ==> all[i + 1] == kids@[i + 1].tree());
            if self.lies_in(&kids[i]) && (i + 1 >= j || self.lies_in(&kids[i + 1])) {
                let span = kids[i].span;
                self.emit_statement_markers(c, span.start);
                let end: u32 = self.statement_extent(c, kids, i, j);
                self.js_subtree(c, &kids[i].kids, span.start, end, style);
            }
            i = i + 1;
        }
    }
}

/// Paint a document: the spans of its markup, and the extents of its embedded JavaScript.
pub fn collect_structural(source: &str, nodes: &Vec<Node>) -> (found: (
    Vec<NotaHighlightSpan>,
    Vec<Span>,
))
    requires
        addressable(utf8(source)),
    ensures
        found.0@ == structural(utf8(source), trees(nodes@)).spans,
        found.1@ == structural(utf8(source), trees(nodes@)).ranges,
        fits(utf8(source), found.0@),
{
    let mut c = Canvas {
        spans: Vec::new(),
        ranges: Vec::new(),
        fence_done: 0,
        fence_inner: 0,
        marker: None,
    };
    assert(c.paint().spans =~= unpainted().spans);
    assert(c.paint().ranges =~= unpainted().ranges);
    let walk = Highlighter { source };
    walk.visit_nota_children(&mut c, nodes, 0, false);
    (c.spans, c.ranges)
}

} // verus!
