//! Raw spans: inline and fenced code, inline and display math, verbatim bodies, and the `|@` that
//! arms a form inside them.

use vstd::prelude::*;
use vstd::utf8::valid_utf8;
use crate::ascii::{AT_SIGN, BACKSLASH, BACKTICK, DOLLAR, LBRACE, NEWLINE, PIPE, RBRACE};
use crate::bytes::{
    addressable, at, at_pair, find_byte, find_pair, next_byte, next_byte_first, next_pair,
    next_pair_first, run_bounds, run_end, skip_class, skip_run, utf8, ByteClass, Span,
};
use crate::lines::{
    content_start, content_start_bounds, line_content_end, line_end, next_line, next_line_bounds,
    next_line_start,
};
use crate::unicode::{ascii_then_boundary, boundary, first_token, token_span, utf8_valid};

verus! {

/// The result of scanning a code span ([`lex_code_span`]).
#[derive(Clone, Copy, Debug, PartialEq, Eq, Structural)]
pub enum CodeScan {
    /// A code span.
    Code {
        /// The whole span, delimiters and all.
        span: Span,
        /// A fenced block rather than inline code.
        is_block: bool,
        /// The first token of a block's info string.
        lang: Option<Span>,
        /// The raw inner extent.
        content: Span,
        /// Where markup resumes.
        resume: u32,
    },
    /// Not a valid opener: the backtick run is literal text ending at `resume`.
    Literal {
        /// Where markup resumes.
        resume: u32,
    },
}

/// The result of scanning a math span ([`lex_math_span`]).
#[derive(Clone, Copy, Debug, PartialEq, Eq, Structural)]
pub enum MathScan {
    /// A math span.
    Math {
        /// The whole span, delimiters and all.
        span: Span,
        /// A display fence rather than inline math.
        is_block: bool,
        /// The raw inner extent.
        content: Span,
        /// Where markup resumes.
        resume: u32,
    },
    /// Not a valid opener: the dollar run is literal text ending at `resume`.
    Literal {
        /// Where markup resumes.
        resume: u32,
    },
}

/// A boundary reached while scanning a bounded raw span ([`armed_boundary`]).
#[derive(Clone, Copy, Debug, PartialEq, Eq, Structural)]
pub enum ArmedBoundary {
    /// The end of the extent: the raw run ends here.
    Bound,
    /// `|@`: one `@`-form stands at `at`, the `@`.
    ArmedAt {
        /// The offset of the `@`.
        at: u32,
    },
}

/// A boundary reached while scanning a verbatim body ([`verbatim_boundary`]).
#[derive(Clone, Copy, Debug, PartialEq, Eq, Structural)]
pub enum VerbatimBoundary {
    /// The closing `}|`: the element resumes at `after`.
    Close {
        /// The offset past the closer.
        after: u32,
    },
    /// `|@`: one `@`-form stands at `at`, the `@`.
    ArmedAt {
        /// The offset of the `@`.
        at: u32,
    },
    /// No `}|` before the end of the source.
    Eof,
}

/// The first run of at least `n` backticks that starts at or after `from` and before `bound`.
pub open spec fn backtick_close(s: Seq<u8>, from: int, bound: int, n: int) -> Option<int>
    decreases s.len() - from,
{
    let start = next_byte(s, from, BACKTICK);
    if 0 <= from <= s.len() && start < s.len() && start < bound {
        proof {
            next_byte_first(s, from, BACKTICK);
            run_bounds(s, start, BACKTICK);
            run_bounds(s, start + 1, BACKTICK);
        }
        if run_end(s, start, BACKTICK) - start >= n {
            Some(start)
        } else {
            backtick_close(s, run_end(s, start, BACKTICK), bound, n)
        }
    } else {
        None
    }
}

/// The first run of at least `n` dollars that starts at or after `i` and before `bound`, where a
/// backslash hides the byte after it.
pub open spec fn dollar_close(s: Seq<u8>, i: int, bound: int, n: int) -> Option<int>
    decreases s.len() + 2 - i,
{
    if 0 <= i < bound && i < s.len() {
        if s[i] == BACKSLASH {
            dollar_close(s, i + 2, bound, n)
        } else if s[i] == DOLLAR {
            proof {
                run_bounds(s, i + 1, DOLLAR);
            }
            if run_end(s, i, DOLLAR) - i >= n {
                Some(i)
            } else {
                dollar_close(s, run_end(s, i, DOLLAR), bound, n)
            }
        } else {
            dollar_close(s, i + 1, bound, n)
        }
    } else {
        None
    }
}

/// The end of the run of `tick` that leads the content of the line at `line`.
pub open spec fn fence_run_end(s: Seq<u8>, line: int, tick: u8) -> int {
    run_end(s, content_start(s, line), tick)
}

/// The first line from `line` on whose content starts with at least `n` of the byte `tick`.
pub open spec fn fence_line(s: Seq<u8>, line: int, tick: u8, n: int) -> Option<int>
    decreases s.len() - line,
{
    if 0 <= line < s.len() {
        if fence_run_end(s, line, tick) - content_start(s, line) >= n {
            Some(line)
        } else {
            proof {
                next_line_bounds(s, line);
            }
            fence_line(s, next_line(s, line), tick, n)
        }
    } else {
        None
    }
}

/// The body of the fence that opens on the line holding `open`: from the next line up to the `\n`
/// before the closing line, or to the source end.
pub open spec fn fence_content(s: Seq<u8>, open: int, tick: u8, n: int) -> Span {
    let body = line_end(s, open) + 1;
    let end = match fence_line(s, body, tick, n) {
        Some(line) => if line > body {
            line - 1
        } else {
            line
        },
        None => s.len() as int,
    };
    Span { start: body as u32, end: end as u32 }
}

/// Where markup resumes after the fence that opens on the line holding `open`: past the closing
/// run, or at the source end.
pub open spec fn fence_resume(s: Seq<u8>, open: int, tick: u8, n: int) -> int {
    match fence_line(s, line_end(s, open) + 1, tick, n) {
        Some(line) => fence_run_end(s, line, tick),
        None => s.len() as int,
    }
}

/// The code span that the backtick run at `off` opens. Three or more backticks whose line holds no
/// other backtick, and is not the last, open a fence; otherwise the next run at least as long on
/// the same line closes inline code.
pub open spec fn code_span(s: Seq<u8>, off: int) -> CodeScan {
    let open = run_end(s, off, BACKTICK);
    let n = open - off;
    let stop = line_end(s, open);
    if n >= 3 && next_byte(s, open, BACKTICK) >= stop && stop < s.len() {
        CodeScan::Code {
            span: Span { start: off as u32, end: fence_resume(s, open, BACKTICK, n) as u32 },
            is_block: true,
            lang: token_span(s, open, stop),
            content: fence_content(s, open, BACKTICK, n),
            resume: fence_resume(s, open, BACKTICK, n) as u32,
        }
    } else {
        match backtick_close(s, open, stop, n) {
            Some(close) => CodeScan::Code {
                span: Span { start: off as u32, end: (close + n) as u32 },
                is_block: false,
                lang: None,
                content: Span { start: open as u32, end: close as u32 },
                resume: (close + n) as u32,
            },
            None => CodeScan::Literal { resume: open as u32 },
        }
    }
}

/// The math span that the dollar run at `off` opens. Two or more dollars with nothing but white
/// space after them on a line that is not the last open a display fence; otherwise the next run at
/// least as long on the same line closes inline math.
pub open spec fn math_span(s: Seq<u8>, off: int) -> MathScan {
    let open = run_end(s, off, DOLLAR);
    let n = open - off;
    let stop = line_end(s, open);
    if n >= 2 && token_span(s, open, stop) is None && stop < s.len() {
        MathScan::Math {
            span: Span { start: off as u32, end: fence_resume(s, open, DOLLAR, n) as u32 },
            is_block: true,
            content: fence_content(s, open, DOLLAR, n),
            resume: fence_resume(s, open, DOLLAR, n) as u32,
        }
    } else {
        match dollar_close(s, open, stop, n) {
            Some(close) => MathScan::Math {
                span: Span { start: off as u32, end: (close + n) as u32 },
                is_block: false,
                content: Span { start: open as u32, end: close as u32 },
                resume: (close + n) as u32,
            },
            None => MathScan::Literal { resume: open as u32 },
        }
    }
}

/// Where markup resumes after the math span that the dollar run at `off` opens, if it opens one.
pub open spec fn math_end(s: Seq<u8>, off: int) -> Option<int> {
    let open = run_end(s, off, DOLLAR);
    let n = open - off;
    let stop = line_end(s, open);
    if n >= 2 && token_span(s, open, stop) is None && stop < s.len() {
        Some(fence_resume(s, open, DOLLAR, n))
    } else {
        match dollar_close(s, open, stop, n) {
            Some(close) => Some(close + n),
            None => None,
        }
    }
}

/// Where markup resumes after the code span that the backtick run at `off` opens, if it opens one.
pub open spec fn code_end(s: Seq<u8>, off: int) -> Option<int> {
    let open = run_end(s, off, BACKTICK);
    let n = open - off;
    let stop = line_end(s, open);
    if n >= 3 && next_byte(s, open, BACKTICK) >= stop && stop < s.len() {
        Some(fence_resume(s, open, BACKTICK, n))
    } else {
        match backtick_close(s, open, stop, n) {
            Some(close) => Some(close + n),
            None => None,
        }
    }
}

/// The offset past the raw span whose opener stands at `i`, or `i + 1` where none opens.
pub open spec fn raw_span_end(s: Seq<u8>, i: int) -> int {
    if at(s, i) == Some(BACKTICK) {
        match code_end(s, i) {
            Some(end) => end,
            None => i + 1,
        }
    } else if at(s, i) == Some(DOLLAR) {
        match math_end(s, i) {
            Some(end) => end,
            None => i + 1,
        }
    } else if at(s, i) == Some(PIPE) {
        match next_pair(s, i + 2, RBRACE, PIPE) {
            Some(close) => close + 2,
            None => i + 1,
        }
    } else {
        i + 1
    }
}

/// The first `|@` inside the extent from `i` to `bound`, or `bound`.
pub open spec fn armed_stop(s: Seq<u8>, i: int, bound: int) -> int
    decreases bound - i,
{
    if 0 <= i && i + 1 < bound {
        if at(s, i) == Some(PIPE) && at(s, i + 1) == Some(AT_SIGN) {
            i
        } else {
            armed_stop(s, i + 1, bound)
        }
    } else {
        bound
    }
}

/// Where the raw run from `from` ends, and why.
pub open spec fn armed(s: Seq<u8>, from: int, bound: int) -> (u32, ArmedBoundary) {
    let stop = armed_stop(s, from, bound);
    if stop < bound {
        (stop as u32, ArmedBoundary::ArmedAt { at: (stop + 1) as u32 })
    } else {
        (bound as u32, ArmedBoundary::Bound)
    }
}

/// Does `}|` stand at `i`?
pub open spec fn verbatim_closes(s: Seq<u8>, i: int) -> bool {
    at(s, i) == Some(RBRACE) && at(s, i + 1) == Some(PIPE)
}

/// The first `}|` or `|@` at or after `i`, or the source end.
pub open spec fn verbatim_stop(s: Seq<u8>, i: int) -> int
    decreases s.len() - i,
{
    if 0 <= i < s.len() {
        if verbatim_closes(s, i) || (at(s, i) == Some(PIPE) && at(s, i + 1) == Some(AT_SIGN)) {
            i
        } else {
            verbatim_stop(s, i + 1)
        }
    } else {
        s.len() as int
    }
}

/// Where the raw run from `from` ends, and why. One `\n` right before a closing `}|` is dropped.
pub open spec fn verbatim(s: Seq<u8>, from: int) -> (u32, VerbatimBoundary) {
    let stop = verbatim_stop(s, from);
    if verbatim_closes(s, stop) {
        let end = if stop > from && s[stop - 1] == NEWLINE {
            stop - 1
        } else {
            stop
        };
        (end as u32, VerbatimBoundary::Close { after: (stop + 2) as u32 })
    } else if stop < s.len() {
        (stop as u32, VerbatimBoundary::ArmedAt { at: (stop + 1) as u32 })
    } else {
        (stop as u32, VerbatimBoundary::Eof)
    }
}

/// A closing backtick run lies between the start of the scan and the bound, and is long enough.
pub proof fn backtick_close_bounds(s: Seq<u8>, from: int, bound: int, n: int)
    ensures
        backtick_close(s, from, bound, n) matches Some(close) ==> from <= close < bound && close + n
            <= s.len() && close < s.len() && s[close] == BACKTICK && run_end(s, close, BACKTICK) >= close + n,
    decreases s.len() - from,
{
    let start = next_byte(s, from, BACKTICK);
    if 0 <= from <= s.len() && start < s.len() && start < bound {
        next_byte_first(s, from, BACKTICK);
        run_bounds(s, start, BACKTICK);
        run_bounds(s, start + 1, BACKTICK);
        if run_end(s, start, BACKTICK) - start < n {
            backtick_close_bounds(s, run_end(s, start, BACKTICK), bound, n);
        }
    }
}

/// A closing dollar run lies between the start of the scan and the bound, and is long enough.
pub proof fn dollar_close_bounds(s: Seq<u8>, i: int, bound: int, n: int)
    ensures
        dollar_close(s, i, bound, n) matches Some(close) ==> i <= close < bound && close + n
            <= s.len() && close < s.len() && s[close] == DOLLAR && run_end(s, close, DOLLAR) >= close + n,
    decreases s.len() + 2 - i,
{
    if 0 <= i < bound && i < s.len() {
        if s[i] == BACKSLASH {
            dollar_close_bounds(s, i + 2, bound, n);
        } else if s[i] == DOLLAR {
            run_bounds(s, i, DOLLAR);
            if run_end(s, i, DOLLAR) - i < n {
                run_bounds(s, i + 1, DOLLAR);
                dollar_close_bounds(s, run_end(s, i, DOLLAR), bound, n);
            }
        } else {
            dollar_close_bounds(s, i + 1, bound, n);
        }
    }
}

/// A fence line lies at or after the line it is sought from.
pub proof fn fence_line_bounds(s: Seq<u8>, line: int, tick: u8, n: int)
    requires
        0 <= line,
    ensures
        fence_line(s, line, tick, n) matches Some(l) ==> line <= l < s.len() && l <= content_start(
            s,
            l,
        ) <= fence_run_end(s, l, tick) <= s.len() && (l == line || s[l - 1] == NEWLINE),
    decreases s.len() - line,
{
    if line < s.len() {
        content_start_bounds(s, line);
        run_bounds(s, content_start(s, line), tick);
        next_line_bounds(s, line);
        if fence_run_end(s, line, tick) - content_start(s, line) < n {
            fence_line_bounds(s, next_line(s, line), tick, n);
        }
    }
}

/// A fence's body and resume point lie past its opening line, inside the source.
pub proof fn fence_bounds(s: Seq<u8>, open: int, tick: u8, n: int)
    requires
        0 <= open <= s.len(),
        line_end(s, open) < s.len(),
    ensures
        line_end(s, open) < fence_resume(s, open, tick, n) <= s.len(),
        s.len() <= u32::MAX ==> open < fence_content(s, open, tick, n).start <= fence_content(
            s,
            open,
            tick,
            n,
        ).end <= fence_resume(s, open, tick, n),
        s.len() <= u32::MAX ==> fence_content(s, open, tick, n).start == line_end(s, open) + 1,
{
    next_line_bounds(s, open);
    fence_line_bounds(s, line_end(s, open) + 1, tick, n);
}

/// A fence's body ends where a character does.
pub proof fn fence_content_boundary(s: Seq<u8>, open: int, tick: u8, n: int)
    requires
        valid_utf8(s),
        0 <= open <= s.len(),
        line_end(s, open) < s.len(),
        s.len() <= u32::MAX,
    ensures
        boundary(s, fence_content(s, open, tick, n).end as int),
{
    next_line_bounds(s, open);
    let body = line_end(s, open) + 1;
    fence_line_bounds(s, body, tick, n);
    ascii_then_boundary(s, body - 1);
}

/// A code span's content ends where a character does.
pub proof fn code_content_boundary(s: Seq<u8>, off: int)
    requires
        valid_utf8(s),
        0 <= off < s.len(),
        s[off] == BACKTICK,
        s.len() <= u32::MAX,
    ensures
        code_span(s, off) matches CodeScan::Code { span, is_block, lang, content, resume }
            ==> boundary(s, content.end as int),
{
    run_bounds(s, off, BACKTICK);
    let open = run_end(s, off, BACKTICK);
    let n = open - off;
    backtick_close_bounds(s, open, line_end(s, open), n);
    if line_end(s, open) < s.len() {
        fence_content_boundary(s, open, BACKTICK, n);
    }
}

/// A math span's content ends where a character does.
pub proof fn math_content_boundary(s: Seq<u8>, off: int)
    requires
        valid_utf8(s),
        0 <= off < s.len(),
        s[off] == DOLLAR,
        s.len() <= u32::MAX,
    ensures
        math_span(s, off) matches MathScan::Math { span, is_block, content, resume } ==> boundary(
            s,
            content.end as int,
        ),
{
    run_bounds(s, off, DOLLAR);
    let open = run_end(s, off, DOLLAR);
    let n = open - off;
    dollar_close_bounds(s, open, line_end(s, open), n);
    if line_end(s, open) < s.len() {
        fence_content_boundary(s, open, DOLLAR, n);
    }
}

/// A math span ends past its opener, inside the source; its content lies inside it.
pub proof fn math_span_bounds(s: Seq<u8>, off: int)
    requires
        0 <= off < s.len(),
        s[off] == DOLLAR,
        s.len() <= u32::MAX,
    ensures
        match math_span(s, off) {
            MathScan::Math { span, is_block, content, resume } => off < content.start
                <= content.end <= resume <= s.len() && span == (Span {
                start: off as u32,
                end: resume,
            }),
            MathScan::Literal { resume } => off < resume <= s.len(),
        },
{
    run_bounds(s, off, DOLLAR);
    run_bounds(s, off + 1, DOLLAR);
    let open = run_end(s, off, DOLLAR);
    let n = open - off;
    let stop = line_end(s, open);
    dollar_close_bounds(s, open, stop, n);
    if stop < s.len() {
        fence_bounds(s, open, DOLLAR, n);
    }
}

/// A code span ends past its opener, inside the source; its content lies inside it.
pub proof fn code_span_bounds(s: Seq<u8>, off: int)
    requires
        0 <= off < s.len(),
        s[off] == BACKTICK,
        s.len() <= u32::MAX,
    ensures
        match code_span(s, off) {
            CodeScan::Code { span, is_block, lang, content, resume } => off < content.start
                <= content.end <= resume <= s.len() && span == (Span {
                start: off as u32,
                end: resume,
            }),
            CodeScan::Literal { resume } => off < resume <= s.len(),
        },
{
    run_bounds(s, off, BACKTICK);
    run_bounds(s, off + 1, BACKTICK);
    let open = run_end(s, off, BACKTICK);
    let n = open - off;
    let stop = line_end(s, open);
    backtick_close_bounds(s, open, stop, n);
    if stop < s.len() {
        fence_bounds(s, open, BACKTICK, n);
    }
}

/// Inline code stays on its line: no line break stands between its delimiters, or in them.
pub proof fn inline_code_on_one_line(s: Seq<u8>, off: int, k: int)
    requires
        0 <= off < s.len(),
        s[off] == BACKTICK,
        s.len() <= u32::MAX,
        code_span(s, off) matches CodeScan::Code { span, is_block, lang, content, resume }
            && !is_block && off <= k < resume,
    ensures
        s[k] != NEWLINE,
{
    let open = run_end(s, off, BACKTICK);
    let n = open - off;
    let stop = line_end(s, open);
    run_bounds(s, off, BACKTICK);
    next_byte_first(s, open, NEWLINE);
    backtick_close_bounds(s, open, stop, n);
    if let Some(close) = backtick_close(s, open, stop, n) {
        run_bounds(s, close, BACKTICK);
    }
}

/// Inline math stays on its line.
pub proof fn inline_math_on_one_line(s: Seq<u8>, off: int, k: int)
    requires
        0 <= off < s.len(),
        s[off] == DOLLAR,
        s.len() <= u32::MAX,
        math_span(s, off) matches MathScan::Math { span, is_block, content, resume } && !is_block
            && off <= k < resume,
    ensures
        s[k] != NEWLINE,
{
    let open = run_end(s, off, DOLLAR);
    let n = open - off;
    let stop = line_end(s, open);
    run_bounds(s, off, DOLLAR);
    next_byte_first(s, open, NEWLINE);
    dollar_close_bounds(s, open, stop, n);
    if let Some(close) = dollar_close(s, open, stop, n) {
        run_bounds(s, close, DOLLAR);
    }
}

/// A raw span ends past its opener, inside the source.
pub proof fn raw_span_bounds(s: Seq<u8>, i: int)
    requires
        0 <= i < s.len(),
    ensures
        i < raw_span_end(s, i) <= s.len(),
{
    if s[i] == BACKTICK {
        run_bounds(s, i, BACKTICK);
        run_bounds(s, i + 1, BACKTICK);
        let open = run_end(s, i, BACKTICK);
        backtick_close_bounds(s, open, line_end(s, open), open - i);
        next_line_bounds(s, open);
        if line_end(s, open) < s.len() {
            fence_bounds(s, open, BACKTICK, open - i);
        }
    } else if s[i] == DOLLAR {
        run_bounds(s, i, DOLLAR);
        run_bounds(s, i + 1, DOLLAR);
        let open = run_end(s, i, DOLLAR);
        dollar_close_bounds(s, open, line_end(s, open), open - i);
        next_line_bounds(s, open);
        if line_end(s, open) < s.len() {
            fence_bounds(s, open, DOLLAR, open - i);
        }
    } else if s[i] == PIPE {
        next_pair_first(s, i + 2, RBRACE, PIPE);
    }
}

/// A raw run stops no later than its bound.
pub proof fn armed_stop_bounds(s: Seq<u8>, i: int, bound: int)
    requires
        0 <= i,
    ensures
        i <= bound ==> i <= armed_stop(s, i, bound) <= bound,
        i > bound ==> armed_stop(s, i, bound) == bound,
        armed_stop(s, i, bound) < bound ==> armed_stop(s, i, bound) + 1 < bound && at(s, armed_stop(s, i, bound)) == Some(PIPE) && at(
            s,
            armed_stop(s, i, bound) + 1,
        ) == Some(AT_SIGN),
    decreases bound - i,
{
    if i + 1 < bound && !(at(s, i) == Some(PIPE) && at(s, i + 1) == Some(AT_SIGN)) {
        armed_stop_bounds(s, i + 1, bound);
    }
}

/// A verbatim run stops inside the source, at a closer, at an armed form, or at the end.
pub proof fn verbatim_stop_bounds(s: Seq<u8>, i: int)
    requires
        0 <= i,
    ensures
        i <= s.len() ==> i <= verbatim_stop(s, i),
        verbatim_stop(s, i) <= s.len(),
        verbatim_stop(s, i) < s.len() ==> verbatim_closes(s, verbatim_stop(s, i)) || (at(
            s,
            verbatim_stop(s, i),
        ) == Some(PIPE) && at(s, verbatim_stop(s, i) + 1) == Some(AT_SIGN)),
    decreases s.len() - i,
{
    if i < s.len() && !(verbatim_closes(s, i) || (at(s, i) == Some(PIPE) && at(s, i + 1) == Some(
        AT_SIGN,
    ))) {
        verbatim_stop_bounds(s, i + 1);
    }
}

/// The next run of at least `fence_len` backticks from `from` on that starts before `bound`.
fn find_backtick_close(s: &[u8], from: usize, bound: usize, fence_len: usize) -> (close: Option<usize>)
    requires
        from <= s@.len(),
    ensures
        match close {
            Some(c) => backtick_close(s@, from as int, bound as int, fence_len as int) == Some(
                c as int,
            ) && c + fence_len <= s@.len(),
            None => backtick_close(s@, from as int, bound as int, fence_len as int) is None,
        },
{
    let mut i: usize = from;
    proof {
        backtick_close_bounds(s@, from as int, bound as int, fence_len as int);
    }
    loop
        invariant
            i <= s@.len(),
            backtick_close(s@, i as int, bound as int, fence_len as int) == backtick_close(
                s@,
                from as int,
                bound as int,
                fence_len as int,
            ),
            backtick_close(s@, from as int, bound as int, fence_len as int) matches Some(c) ==> c
                + fence_len <= s@.len(),
        decreases s@.len() - i,
    {
        let start: usize = find_byte(s, i, BACKTICK);
        proof {
            next_byte_first(s@, i as int, BACKTICK);
        }
        if start >= s.len() || start >= bound {
            return None;
        }
        let end: usize = skip_run(s, start, BACKTICK);
        proof {
            run_bounds(s@, start + 1, BACKTICK);
        }
        if end - start >= fence_len {
            return Some(start);
        }
        i = end;
    }
}

/// The next run of at least `open_len` dollars from `from` on that starts before `bound`; a
/// backslash hides the byte after it.
fn find_dollar_close(s: &[u8], from: usize, bound: usize, open_len: usize) -> (close: Option<usize>)
    requires
        from <= s@.len(),
        bound <= s@.len(),
        s@.len() + 2 <= usize::MAX,
    ensures
        match close {
            Some(c) => dollar_close(s@, from as int, bound as int, open_len as int) == Some(
                c as int,
            ) && c + open_len <= s@.len(),
            None => dollar_close(s@, from as int, bound as int, open_len as int) is None,
        },
{
    let mut i: usize = from;
    proof {
        dollar_close_bounds(s@, from as int, bound as int, open_len as int);
    }
    while i < bound
        invariant
            bound <= s@.len(),
            s@.len() + 2 <= usize::MAX,
            dollar_close(s@, i as int, bound as int, open_len as int) == dollar_close(
                s@,
                from as int,
                bound as int,
                open_len as int,
            ),
            dollar_close(s@, from as int, bound as int, open_len as int) matches Some(c) ==> c
                + open_len <= s@.len(),
        decreases s@.len() + 2 - i,
    {
        let b: u8 = s[i];
        if b == BACKSLASH {
            i = i + 2;
        } else if b == DOLLAR {
            let end: usize = skip_run(s, i, DOLLAR);
            proof {
                run_bounds(s@, i + 1, DOLLAR);
            }
            if end - i >= open_len {
                return Some(i);
            }
            i = end;
        } else {
            i = i + 1;
        }
    }
    None
}

/// The first line from `line` on whose content starts with at least `n` of the byte `tick`.
fn find_fence_line(source: &str, line: u32, tick: u8, n: usize) -> (found: Option<u32>)
    requires
        addressable(utf8(source)),
        line <= utf8(source).len(),
    ensures
        match found {
            Some(l) => fence_line(utf8(source), line as int, tick, n as int) == Some(l as int),
            None => fence_line(utf8(source), line as int, tick, n as int) is None,
        },
{
    let ghost b = utf8(source);
    let mut l: u32 = line;
    while (l as usize) < source.len()
        invariant
            b == utf8(source),
            addressable(b),
            l <= b.len(),
            fence_line(b, l as int, tick, n as int) == fence_line(b, line as int, tick, n as int),
        decreases b.len() - l,
    {
        let s = source.as_bytes();
        let c: usize = skip_class(s, l as usize, ByteClass::InlineSpace);
        if skip_run(s, c, tick) - c >= n {
            return Some(l);
        }
        l = next_line_start(source, l);
    }
    None
}

/// The body and the resume point of the fence that opens on the line holding `open`.
fn fence_extent(source: &str, open: u32, tick: u8, n: usize) -> (extent: (Span, u32))
    requires
        addressable(utf8(source)),
        open <= utf8(source).len(),
        line_end(utf8(source), open as int) < utf8(source).len(),
    ensures
        extent.0 == fence_content(utf8(source), open as int, tick, n as int),
        extent.1 == fence_resume(utf8(source), open as int, tick, n as int),
{
    let s = source.as_bytes();
    let body: u32 = line_content_end(source, open) + 1;
    proof {
        fence_line_bounds(s@, body as int, tick, n as int);
    }
    match find_fence_line(source, body, tick, n) {
        Some(line) => {
            let c: usize = skip_class(s, line as usize, ByteClass::InlineSpace);
            let resume: usize = skip_run(s, c, tick);
            let end: u32 = if line > body {
                line - 1
            } else {
                line
            };
            (Span::new(body, end), resume as u32)
        },
        None => (Span::new(body, s.len() as u32), s.len() as u32),
    }
}

/// Scan a code span whose opening backtick run starts at `tick_off`. A run of three or more that is
/// the last on its line but for a language tag opens a fenced block, closed by a line that starts
/// with a run at least as long; otherwise inline code is closed by the next run at least as long on
/// the same line. With no such close the run is literal.
pub fn lex_code_span(source: &str, tick_off: u32) -> (scan: CodeScan)
    requires
        addressable(utf8(source)),
        tick_off < utf8(source).len(),
        utf8(source)[tick_off as int] == BACKTICK,
    ensures
        scan == code_span(utf8(source), tick_off as int),
{
    let s = source.as_bytes();
    let open: usize = skip_run(s, tick_off as usize, BACKTICK);
    proof {
        run_bounds(s@, tick_off as int, BACKTICK);
        run_bounds(s@, tick_off + 1, BACKTICK);
    }
    let n: usize = open - tick_off as usize;
    let stop: u32 = line_content_end(source, open as u32);
    if n >= 3 && find_byte(s, open, BACKTICK) >= stop as usize && (stop as usize) < s.len() {
        proof {
            utf8_valid(source);
            assert(s@[open - 1] == BACKTICK);
            ascii_then_boundary(s@, open - 1);
            next_line_bounds(s@, open as int);
        }
        let lang = first_token(source, open as u32, stop);
        let (content, resume) = fence_extent(source, open as u32, BACKTICK, n);
        return CodeScan::Code {
            span: Span::new(tick_off, resume),
            is_block: true,
            lang,
            content,
            resume,
        };
    }
    match find_backtick_close(s, open, stop as usize, n) {
        Some(close) => {
            let resume: u32 = (close + n) as u32;
            CodeScan::Code {
                span: Span::new(tick_off, resume),
                is_block: false,
                lang: None,
                content: Span::new(open as u32, close as u32),
                resume,
            }
        },
        None => CodeScan::Literal { resume: open as u32 },
    }
}

/// Scan a math span whose opening dollar run starts at `dollar_off`. Two or more dollars with a
/// blank rest of line open a display fence; otherwise an inline span is closed by the next run at
/// least as long on the same line, where a backslash hides the byte after it. With no such close
/// the run is literal.
pub fn lex_math_span(source: &str, dollar_off: u32) -> (scan: MathScan)
    requires
        addressable(utf8(source)),
        dollar_off < utf8(source).len(),
        utf8(source)[dollar_off as int] == DOLLAR,
    ensures
        scan == math_span(utf8(source), dollar_off as int),
{
    let s = source.as_bytes();
    let open: usize = skip_run(s, dollar_off as usize, DOLLAR);
    proof {
        run_bounds(s@, dollar_off as int, DOLLAR);
        run_bounds(s@, dollar_off + 1, DOLLAR);
        utf8_valid(source);
        assert(s@[open - 1] == DOLLAR);
        ascii_then_boundary(s@, open - 1);
        next_line_bounds(s@, open as int);
    }
    let n: usize = open - dollar_off as usize;
    let stop: u32 = line_content_end(source, open as u32);
    if n >= 2 && (stop as usize) < s.len() && first_token(source, open as u32, stop).is_none() {
        let (content, resume) = fence_extent(source, open as u32, DOLLAR, n);
        return MathScan::Math {
            span: Span::new(dollar_off, resume),
            is_block: true,
            content,
            resume,
        };
    }
    match find_dollar_close(s, open, stop as usize, n) {
        Some(close) => {
            let resume: u32 = (close + n) as u32;
            MathScan::Math {
                span: Span::new(dollar_off, resume),
                is_block: false,
                content: Span::new(open as u32, close as u32),
                resume,
            }
        },
        None => MathScan::Literal { resume: open as u32 },
    }
}

/// Step over the raw span (inline or fenced code, math or verbatim) whose opener stands at `i`; one byte where it
/// has no valid close. Lets emphasis matching pass raw content by.
pub fn skip_raw_span(source: &str, i: usize) -> (end: usize)
    requires
        addressable(utf8(source)),
        i < utf8(source).len(),
        utf8(source)[i as int] == PIPE ==> at(utf8(source), i + 1) == Some(LBRACE),
    ensures
        end == raw_span_end(utf8(source), i as int),
        i < end <= utf8(source).len(),
{
    let s = source.as_bytes();
    proof {
        raw_span_bounds(s@, i as int);
    }
    let b: u8 = s[i];
    if b == BACKTICK {
        proof {
            code_span_bounds(s@, i as int);
        }
        match lex_code_span(source, i as u32) {
            CodeScan::Code { resume, .. } => resume as usize,
            CodeScan::Literal { .. } => i + 1,
        }
    } else if b == DOLLAR {
        proof {
            math_span_bounds(s@, i as int);
        }
        match lex_math_span(source, i as u32) {
            MathScan::Math { resume, .. } => resume as usize,
            MathScan::Literal { .. } => i + 1,
        }
    } else if b == PIPE {
        match find_pair(s, i + 2, RBRACE, PIPE) {
            Some(close) => close + 2,
            None => i + 1,
        }
    } else {
        i + 1
    }
}

/// Scan the raw content from `from` to `bound` of a bounded raw span to the next boundary: an armed
/// `|@` inside it, or `bound`. Gives the end of the raw run and the boundary.
pub fn armed_boundary(source: &str, from: u32, bound: u32) -> (found: (u32, ArmedBoundary))
    requires
        addressable(utf8(source)),
    ensures
        found == armed(utf8(source), from as int, bound as int),
{
    let s = source.as_bytes();
    let mut i: u32 = from;
    while i < bound && i + 1 < bound
        invariant
            s@ == utf8(source),
            addressable(s@),
            armed_stop(s@, i as int, bound as int) == armed_stop(s@, from as int, bound as int),
        decreases bound - i,
    {
        if at_pair(s, i as usize, PIPE, AT_SIGN) {
            return (i, ArmedBoundary::ArmedAt { at: i + 1 });
        }
        i = i + 1;
    }
    (bound, ArmedBoundary::Bound)
}

/// Scan a verbatim body's raw run from `from` to the next boundary: the closing `}|`, an armed
/// `|@`, or the source end. Gives the end of the raw run, one `\n` right before the closer dropped,
/// and the boundary.
pub fn verbatim_boundary(source: &str, from: u32) -> (found: (u32, VerbatimBoundary))
    requires
        addressable(utf8(source)),
    ensures
        found == verbatim(utf8(source), from as int),
{
    let s = source.as_bytes();
    let mut i: usize = from as usize;
    while i < s.len()
        invariant
            s@ == utf8(source),
            addressable(s@),
            from <= i,
            verbatim_stop(s@, i as int) == verbatim_stop(s@, from as int),
        decreases s@.len() - i,
    {
        if at_pair(s, i, RBRACE, PIPE) {
            let end: usize = if i > from as usize && s[i - 1] == NEWLINE {
                i - 1
            } else {
                i
            };
            return (end as u32, VerbatimBoundary::Close { after: (i + 2) as u32 });
        }
        if at_pair(s, i, PIPE, AT_SIGN) {
            return (i as u32, VerbatimBoundary::ArmedAt { at: (i + 1) as u32 });
        }
        i = i + 1;
    }
    (s.len() as u32, VerbatimBoundary::Eof)
}

} // verus!
