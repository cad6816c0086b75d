//! The scans, on concrete sources.

use nota::blocks::{brace_clip_on_line, colon_block_extent};
use nota::bytes::Span;
use nota::docstate::{
    docstate_left_guard, footnote_sugar_at, label_can_open, label_sugar_at, ref_can_open,
    ref_sugar_at,
};
use nota::emphasis::{find_emphasis_close, find_strike_close, strike_can_open};
use nota::escapes::{comment_can_open, lex_comment};
use nota::heads::at_line_start_in_frame;
use nota::lines::line_content_end;
use nota::links::{attrs_group_at, lex_link_span, LinkSpans};
use nota::raw::{
    armed_boundary, lex_code_span, lex_math_span, skip_raw_span, verbatim_boundary, ArmedBoundary, CodeScan,
    MathScan, VerbatimBoundary,
};
use nota::statements::{
    colon_prop_line_at, heading_at, is_statement_line, list_marker_at, percent_line_is_empty,
    statement_bound, statement_kind, thematic_break_at,
};


/// The string-aware [`skip_balanced`]: a bracket or `*` inside a JS string/comment in an
/// `@`-form's groups must not end the group early (nor let an emphasis close inside it).
#[test]
fn emphasis_close_skips_strings_in_at_form_groups() {
    // Old behavior: the `)` inside `")*"` ended the group scan mid-string, and the `*` right
    // after it (still inside the string) closed the emphasis.
    let src = r#"*a @f(")*") b*"#;
    assert_eq!(find_emphasis_close(src, 0, b'*'), Some(src.len() as u32 - 1));

    let src = r#"*a @f[x: "}*"] b*"#;
    assert_eq!(find_emphasis_close(src, 0, b'*'), Some(src.len() as u32 - 1));
}

#[test]
fn emphasis_close_skips_comments_in_at_form_groups() {
    // The `)` and `*` inside the block comment are not group/emphasis structure.
    let src = "*a @f(/*)*/x) b*";
    assert_eq!(find_emphasis_close(src, 0, b'*'), Some(src.len() as u32 - 1));
}

#[test]
fn emphasis_close_unterminated_string_stops_at_newline() {
    // An unterminated `"` must not swallow the rest of the body: the scan resumes at the
    // newline, and the blank line still ends the emphasis scope (→ literal opener).
    let src = "*a @f(\"x\n\n b*";
    assert_eq!(find_emphasis_close(src, 0, b'*'), None);
}

#[test]
fn colon_extent_is_opaque_to_at_form_groups() {
    // A `}` inside a props string must not clip the colon body; the depth-0 `}` after it does.
    let src = "@a: @f[x: \"}\"] y} tail";
    let colon_end = src.find(':').unwrap() as u32 + 1;
    let (start, end) = colon_block_extent(src, colon_end, 0, true);
    assert_eq!(&src[start as usize..end as usize], "@f[x: \"}\"] y");
}

/// Dollar spans mirror backtick spans: an inline `≥N`-close (with the TeX `\<c>` escape) or a
/// whitespace-tail display fence.
#[test]
fn lex_math_span_inline_and_fence() {
    let content_str = |src: &str, c: Span| src[c.start as usize..c.end as usize].to_string();

    // Inline `$…$`: content is the raw run; resume past the closing `$`.
    let MathScan::Math { content, is_block, resume, .. } = lex_math_span("$x^2$ t", 0) else {
        panic!("inline math scans")
    };
    assert!(!is_block);
    assert_eq!(content_str("$x^2$ t", content), "x^2");
    assert_eq!(resume, 5);

    // The `≥`-rule mirrors backticks: an open of 1 closes at the FIRST `$` of the next `≥1`
    // run, resuming past exactly ONE closing `$` (`$a$$b$` → content `a`, resume 3).
    let MathScan::Math { content, resume, .. } = lex_math_span("$a$$b$", 0) else {
        panic!("scans")
    };
    assert_eq!(content_str("$a$$b$", content), "a");
    assert_eq!(resume, 3);

    // Run-2 inline: a nonempty tail forbids the fence, so `$$a$b$$` is inline run-2 — a single
    // `$` is content, `$$` closes.
    let MathScan::Math { content, is_block, resume, .. } = lex_math_span("$$a$b$$", 0) else {
        panic!("scans")
    };
    assert!(!is_block);
    assert_eq!(content_str("$$a$b$$", content), "a$b");
    assert_eq!(resume, 7);

    // TeX escape: `\$` stays content; the span closes at the real terminator.
    let MathScan::Math { content, .. } = lex_math_span(r"$a \$ b$ t", 0) else {
        panic!("scans")
    };
    assert_eq!(content_str(r"$a \$ b$ t", content), r"a \$ b");

    // No same-line close → literal (the `$`-run is text; resume just past the opener run).
    assert!(matches!(lex_math_span("costs $5 today", 6), MathScan::Literal { resume: 7 }));
    // Inline never crosses a newline.
    assert!(matches!(lex_math_span("$a\nb$", 0), MathScan::Literal { resume: 1 }));

    // Display fence: whitespace-only opener tail, body between the fence lines, resume past the
    // closing `$$`.
    let src = "$$\n\\sum x\n$$\n";
    let MathScan::Math { content, is_block, resume, .. } = lex_math_span(src, 0) else {
        panic!("fence scans")
    };
    assert!(is_block);
    assert_eq!(content_str(src, content), "\\sum x");
    assert_eq!(resume, 12);

    // A nonempty opener tail forbids the fence (math has no info string): `$$x⏎$$` is inline
    // run-2, and with no same-line `≥2` close it is literal.
    assert!(matches!(lex_math_span("$$x\n$$", 0), MathScan::Literal { resume: 2 }));

    // A `<open_len` run inside the fence body does not close it; a `≥ open_len` run does.
    let src = "$$\na $ b\n$$\n";
    let MathScan::Math { content, is_block, .. } = lex_math_span(src, 0) else {
        panic!("scans")
    };
    assert!(is_block);
    assert_eq!(content_str(src, content), "a $ b");
}

/// [`armed_boundary`]: a `|@` arms; otherwise the run reaches `bound`.
#[test]
fn armed_boundary_arms_and_bounds() {
    // `|@` in range → armed at the `@`, the run ends before the `|`.
    let src = "a b |@x c";
    let (run_end, b) = armed_boundary(src, 0, src.len() as u32);
    assert_eq!(&src[0..run_end as usize], "a b ");
    assert!(matches!(b, ArmedBoundary::ArmedAt { at: 5 }));

    // No `|@` before the bound → Bound, the whole slice is the run.
    let (run_end, b) = armed_boundary("a $ b", 0, 5);
    assert_eq!(run_end, 5);
    assert!(matches!(b, ArmedBoundary::Bound));

    // A `|@` past the bound is not seen (the extent was fixed first).
    let (run_end, b) = armed_boundary("ab|@x", 0, 2);
    assert_eq!(run_end, 2);
    assert!(matches!(b, ArmedBoundary::Bound));
}

/// The CommonMark-style line clamp: `*`/`_`/`` ` ``/inline `$` never cross a newline — an
/// opener with no same-line close is literal. A display `$$` fence and a fenced ``` stay
/// multi-line.
#[test]
fn inline_spans_terminate_at_newline() {
    // Emphasis: a close on a later line is out of scope…
    assert_eq!(find_emphasis_close("*a\nb*", 0, b'*'), None);
    // …but a same-line close still matches, right up to the line end.
    assert_eq!(find_emphasis_close("*a*\nb", 0, b'*'), Some(2));
    // A raw-span skip that crosses the line end kills the span too.
    assert_eq!(find_emphasis_close("*a `x\ny` b*", 0, b'*'), None);
    // An escaped newline cannot extend the scope.
    assert_eq!(find_emphasis_close("*a\\\nb*", 0, b'*'), None);

    // Inline code: the close backtick must sit on the opening line (the motivating case:
    // `- `foo⏎- bar` is two bullets, not one code span).
    assert!(matches!(lex_code_span("`foo\n- bar`", 0), CodeScan::Literal { resume: 1 }));
    let src = "`a` b\n`c`";
    let CodeScan::Code { content, .. } = lex_code_span(src, 0) else {
        panic!("same-line close still scans")
    };
    assert_eq!(&src[content.start as usize..content.end as usize], "a");

    // Inline math: the line end is a boundary → no same-line close → opener literal.
    assert!(matches!(lex_math_span("$a\nb$", 0), MathScan::Literal { resume: 1 }));
    assert!(matches!(lex_math_span("$a\\\nb$", 0), MathScan::Literal { resume: 1 }));
    // A display fence still crosses newlines (a standalone `$$` line opens it).
    let MathScan::Math { is_block, .. } = lex_math_span("$$\na\nb\n$$", 0) else {
        panic!("display fence scans across newlines")
    };
    assert!(is_block);
}

/// Attrs-group scans: the first-entry gate, the trailing rule, the `}`-closer allowance, the
/// balanced/string-aware extent, and the `limit` clip.
#[test]
fn attrs_group_scans() {
    let at = |src: &str, closer: bool| attrs_group_at(src, 0, src.len() as u32, closer);

    // The happy shapes: `ident:` first entry, quoted key, spread.
    assert_eq!(at("[id: \"x\"]", false), Some(9));
    assert_eq!(at("[id: \"x\", class: y]  ", false), Some(19)); // trailing ws ok
    assert_eq!(at("[\"data-x\": 1]", false), Some(13));
    assert_eq!(at("[...rest]", false), Some(9));

    // Gate 1 rejects prose-shaped interiors.
    assert!(at("[1]", false).is_none());
    assert!(at("[just words]", false).is_none());
    assert!(at("[x]", false).is_none()); // bare shorthand: no `:` → literal prose
    assert!(at("[x , y]", false).is_none());

    // Gate 2: trailing only — content after the `]` on its line kills it; a depth-0 `}`
    // is allowed only when the caller says the body closes there.
    assert!(at("[k: 1] tail", false).is_none());
    assert!(at("[k: 1]}", false).is_none());
    assert_eq!(at("[k: 1]}", true), Some(6));
    assert_eq!(at("[k: 1] }", true), Some(6));

    // The extent is string-aware and must close within the limit.
    let src = "[k: \"]\"]";
    assert_eq!(at(src, false), Some(src.len() as u32));
    assert!(at("[k: 1", false).is_none()); // unterminated
    assert!(attrs_group_at("[k: 1]", 0, 5, false).is_none()); // clipped by the frame

    // A multi-line group is trailing on its *closing* line.
    assert_eq!(at("[k: 1,\n m: 2]", false), Some(13));
    assert!(at("[k: 1,\n m: 2] t", false).is_none());
}

/// Link scans: the `[text](url)` shape, nesting/escapes/skips, the glued `](`, the line
/// clamp, the `limit` clip, and link-opacity in the emphasis-close scan.
#[test]
fn link_scans() {
    let scan = |src: &str, at: u32| lex_link_span(src, at, src.len() as u32);
    let slices = |src: &str, l: &LinkSpans| {
        (
            src[l.text.start as usize..l.text.end as usize].to_string(),
            src[l.url.start as usize..l.url.end as usize].to_string(),
        )
    };

    let src = "[docs](https://x.com/a_b) t";
    let l = scan(src, 0).expect("scans");
    assert_eq!(slices(src, &l), ("docs".into(), "https://x.com/a_b".into()));
    assert_eq!(l.resume, 25);

    // Nested brackets pair; balanced parens in the url pair; escapes hide closers.
    let src = "[a [b] c](u(v)w)";
    let l = scan(src, 0).expect("scans");
    assert_eq!(slices(src, &l), ("a [b] c".into(), "u(v)w".into()));
    let src = r"[a\]b](u\)v)";
    let l = scan(src, 0).expect("scans");
    assert_eq!(slices(src, &l), (r"a\]b".into(), r"u\)v".into()));

    // An `@`-form's groups and a raw span are opaque in the text scan.
    let src = "[see @f[k: \"]\"] and `]`](u)";
    let l = scan(src, 0).expect("scans");
    assert_eq!(slices(src, &l).1, "u");

    // Failures: no glued `(`, no close on the line, a depth-0 `}`, a `//` comment, the limit.
    assert!(scan("[a] (u)", 0).is_none()); // space before `(`
    assert!(scan("[a](u", 0).is_none()); // unclosed url
    assert!(scan("[a\nb](u)", 0).is_none()); // the line clamp
    assert!(scan("[a}](u)", 0).is_none()); // enclosing body closes first
    assert!(scan("[a // b](u)", 0).is_none()); // comment claims the line
    assert!(lex_link_span("[a](u)", 0, 4).is_none()); // clipped by the frame

    // Empty text and empty url are legal shapes.
    let src = "[](u)";
    assert!(scan(src, 0).is_some());
    let src = "[x]()";
    let l = scan(src, 0).expect("scans");
    assert_eq!(slices(src, &l).1, "");

    // Emphasis-close opacity: a `_` inside a link's url cannot close an outer `_` span.
    let src = "_see [x](a_b)_";
    assert_eq!(find_emphasis_close(src, 0, b'_'), Some(src.len() as u32 - 1));
}

/// Comment scans: opener shapes, line/block extents, Typst-style nesting, the `limit` clamp,
/// and the comment-awareness of the emphasis-close and brace-clip scans.
#[test]
fn comment_scans() {
    // Opener shapes: `//` and `/*` fire; a lone `/` and an escaped opener do not.
    assert!(comment_can_open("// c", 0));
    assert!(comment_can_open("/* c */", 0));
    assert!(!comment_can_open("/ x", 0));
    assert!(!comment_can_open("a/b", 1));
    assert!(!comment_can_open(r"\// x", 1)); // escaped
    assert!(!comment_can_open("/", 0)); // EOF after the slash

    // Line comment: to the line's content end (`\n` excluded); the limit clamps.
    let src = "a // c\nb";
    let scan = lex_comment(src, 2, src.len() as u32);
    assert!(!scan.block && scan.terminated);
    assert_eq!(&src[2..scan.end as usize], "// c");
    assert_eq!(lex_comment("// abc", 0, 4).end, 4);

    // Block comment: matching `*/`; nesting counts (Typst-style); `/*/` cannot self-close.
    let src = "/* a /* b */ c */ d";
    let scan = lex_comment(src, 0, src.len() as u32);
    assert!(scan.block && scan.terminated);
    assert_eq!(&src[0..scan.end as usize], "/* a /* b */ c */");
    let src = "/*/ */ d";
    assert_eq!(&src[0..lex_comment(src, 0, src.len() as u32).end as usize], "/*/ */");
    let src = "/* a\nb */ c";
    assert_eq!(&src[0..lex_comment(src, 0, src.len() as u32).end as usize], "/* a\nb */");

    // Unterminated → `end == limit`, terminated false.
    let scan = lex_comment("/* a", 0, 4);
    assert!(scan.block && !scan.terminated);
    assert_eq!(scan.end, 4);
}

/// Strikethrough `~~` scans: the two-byte opener (word-boundary rule across the pair,
/// content required, runs literal) and the two-byte close matching.
#[test]
fn strike_scans() {
    // Openers.
    assert!(strike_can_open("~~x~~", 0));
    assert!(strike_can_open("a ~~x~~", 2));
    assert!(!strike_can_open("~x", 0)); // no digraph
    assert!(!strike_can_open("~~ x", 0)); // whitespace after the pair
    assert!(!strike_can_open("~~~x", 0)); // a third `~` is not content
    assert!(!strike_can_open("a~~b~~", 1)); // intra-word (wordy on both sides of the pair)
    assert!(!strike_can_open(r"\~~x", 1)); // escaped
    assert!(!strike_can_open("~~", 0)); // EOF after the pair

    // Closes: the first `~~` run preceded by content, two-byte aware.
    assert_eq!(find_strike_close("~~x~~", 0), Some(3));
    assert_eq!(find_strike_close("~~a b~~ c", 0), Some(5));
    assert_eq!(find_strike_close("~~a ~ b~~", 0), Some(7)); // single `~` is content
    assert_eq!(find_strike_close("~~a ~~", 0), None); // whitespace before: cannot close
    assert_eq!(find_strike_close("~~a\nb~~", 0), None); // the line clamp
    assert_eq!(find_strike_close("~~a `x~~y` b~~", 0), Some(12)); // raw span skipped
    assert_eq!(find_strike_close(r"~~a \~~ b~~", 0), Some(9)); // escaped pair cannot close
}

#[test]
fn emphasis_close_honors_comments() {
    // A `//` claims the rest of the line — no close can follow on it.
    assert_eq!(find_emphasis_close("*a // b*", 0, b'*'), None);
    // A `*` inside a block comment is not structure; the close after it matches.
    let src = "*a /* x* */ b*";
    assert_eq!(find_emphasis_close(src, 0, b'*'), Some(src.len() as u32 - 1));
    // A block comment crossing the line end kills the span (the line clamp).
    assert_eq!(find_emphasis_close("*a /* x\ny */ b*", 0, b'*'), None);
}

#[test]
fn brace_clip_honors_comments() {
    // `}` inside a comment is not the clip; the depth-0 `}` after the comment is.
    assert_eq!(brace_clip_on_line("a // }\n", 0), None);
    assert_eq!(brace_clip_on_line("a /* } */ b} t", 0), Some(11));
    // A block comment crossing the line end leaves no depth-0 `}` on this line.
    assert_eq!(brace_clip_on_line("a /* \n */ }", 0), None);
}

#[test]
fn statement_bound_stops_at_percent_or_blank_line() {
    // The next line-leading `%` bounds (bug 5).
    let src = "% a = 1\n% b = 2\nprose\n";
    assert_eq!(statement_bound(src, 1), 8);
    // A blank line bounds (bug 6) — including a whitespace-only line.
    let src = "% a = 1\n\nprose\n";
    assert_eq!(statement_bound(src, 1), 8);
    let src = "% a = 1\n \t\nprose\n";
    assert_eq!(statement_bound(src, 1), 8);
    // Neither → source end (multi-line statements keep flowing under JS grammar).
    let src = "% a = f(\n  1)\nprose\n";
    assert_eq!(statement_bound(src, 1), src.len() as u32);
}

#[test]
fn verbatim_boundary_close_armed_eof() {
    // Close, with the single trailing newline dropped from the run.
    let src = "raw\n}| t";
    let (run_end, b) = verbatim_boundary(src, 0);
    assert_eq!(&src[0..run_end as usize], "raw");
    assert!(matches!(b, VerbatimBoundary::Close { after: 6 }));

    // Armed `|@`: the run ends before the `|`, the `@` position is reported.
    let src = "ab|@x{y}}|";
    let (run_end, b) = verbatim_boundary(src, 0);
    assert_eq!(&src[0..run_end as usize], "ab");
    assert!(matches!(b, VerbatimBoundary::ArmedAt { at: 3 }));

    // Unterminated → Eof with the full tail as the run.
    let (run_end, b) = verbatim_boundary("abc", 0);
    assert_eq!(run_end, 3);
    assert!(matches!(b, VerbatimBoundary::Eof));

    // A clamped source view (a prefix that ends before the `}|`) caps the scan → Eof: a
    // verbatim armed inside a bounded raw span can't resume past the span's extent.
    let src = "ab}| t";
    let (run_end, b) = verbatim_boundary(&src[..2], 0);
    assert_eq!(run_end, 2);
    assert!(matches!(b, VerbatimBoundary::Eof));
}

#[test]
fn at_line_start_in_frame_predicate() {
    // File offset 0 is a line start (frame_start irrelevant when it is 0).
    assert!(at_line_start_in_frame("@a: b", 0, 0));
    // The frame's own body start counts as a line start, even mid-line: `@{@a: b}` — the
    // inner `@a` sits at the fragment body start (offset 2).
    assert!(at_line_start_in_frame("@{@a: b}", 2, 2));
    // Walking back over spaces/tabs to the frame start still qualifies.
    assert!(at_line_start_in_frame("@p{  @a}", 5, 3));
    // Walking back over spaces/tabs to a newline qualifies (indented line inside a body).
    assert!(at_line_start_in_frame("@p{\n  @a}", 6, 3));
    // Mid-line (a non-whitespace byte precedes, above the frame start) does not.
    assert!(!at_line_start_in_frame("@{x @a}", 4, 2));
    // The walk never crosses below the frame start: a space *before* the frame start does not
    // extend the scan (`@a: @b` — `@b` at 4 is the colon-body start 4, the space at 3 is out).
    assert!(at_line_start_in_frame("@a: @b", 4, 4));
    assert!(!at_line_start_in_frame("@a: @b", 4, 0));
}

#[test]
fn line_classifiers() {
    // statement lines
    assert!(is_statement_line("  % const x = 1", 0));
    assert!(!is_statement_line("  x % y", 0));
    assert_eq!(statement_kind("  % f()\n", 0), Some((3, false)));
    assert_eq!(statement_kind("%%%\nbody\n", 0), Some((4, true)));
    assert_eq!(statement_kind("%%% x\n", 0), Some((1, false))); // content after run → statement
    assert_eq!(statement_kind("x\n", 0), None);
    assert!(percent_line_is_empty("%   \nx", 1));
    assert!(percent_line_is_empty("% // note\nx", 1));
    assert!(!percent_line_is_empty("% f()\n", 1));

    // headings
    assert_eq!(heading_at("### Sub\n", 0), Some((3, 4, 7)));
    assert_eq!(heading_at("####### seven\n", 0), None);
    assert_eq!(heading_at("#nospace\n", 0), None);

    // thematic breaks: a run of 3+ `-`, whitespace-only tail up to the clipped line end
    let t = |src: &str| thematic_break_at(src, 0, line_content_end(src, 0));
    assert_eq!(t("---\n"), Some(Span::new(0, 3)));
    assert_eq!(t("  ----- \nx"), Some(Span::new(2, 7)));
    assert_eq!(t("----"), Some(Span::new(0, 4))); // EOF line
    assert_eq!(t("--\n"), None); // run of 2
    assert_eq!(t("--- x\n"), None); // nonempty tail
    assert_eq!(t("- --\n"), None); // a list line, not a break
    // The clip: `@{---}` hands a line_end at the `}` — the break still fires there.
    assert_eq!(thematic_break_at("---} t", 0, 3), Some(Span::new(0, 3)));
    assert_eq!(thematic_break_at("--- x} t", 0, 6), None);

    // list markers
    let m = list_marker_at("  - item\n", 0).unwrap();
    assert!(!m.ordered);
    assert_eq!((m.indent, m.offset, m.body_col), (2, 2, 4));
    let m = list_marker_at("12. item\n", 0).unwrap();
    assert!(m.ordered);
    assert_eq!(m.body_col, 4);
    assert!(list_marker_at("-nospace\n", 0).is_none());

    // `|` prop lines
    assert_eq!(colon_prop_line_at("  | x: 1\n", 0), Some(3));
    assert_eq!(colon_prop_line_at("  x | y\n", 0), None);
}

/// Doc-state sugar scans: opener shapes, the left-boundary guard, the **Typst
/// minus period** label charset (start `[A-Za-z0-9_]`, continue
/// `[A-Za-z0-9_:-]`, ASCII-only; digit-start legal, `-`/`:` join, `.`/`$`/Unicode do not),
/// termination, and the bounded-frame `limit` clip.
#[test]
fn docstate_sugar_scans() {
    let lim = |s: &str| s.len() as u32;

    // --- lexer opener shapes (label-start: `[A-Za-z0-9_]`; not `-`/`.`/`$`/space/Unicode) ---
    assert!(label_can_open("<sec>", 0));
    assert!(label_can_open("<_x>", 0));
    assert!(label_can_open("<1a>", 0)); // digit start is legal now (Markdown-style)
    assert!(label_can_open("<2x>", 0)); // digit start
    assert!(!label_can_open("<$x>", 0)); // `$` is NOT a label char now (was a JS ident start)
    assert!(!label_can_open("<λ>", 0)); // Unicode is NOT a label char now
    assert!(!label_can_open("<->", 0)); // `-` is not a start char → `<->` stays literal prose
    assert!(!label_can_open("<-x>", 0)); // `-` start → literal (arrow-like prose)
    assert!(!label_can_open("< b", 0)); // space is not a start char
    assert!(!label_can_open("<", 0)); // EOF
    assert!(!label_can_open(r"\<sec>", 1)); // escaped
    assert!(ref_can_open("&sec", 0));
    assert!(ref_can_open("&1x", 0)); // digit start
    assert!(!ref_can_open("&$x", 0)); // `$` is not a label char now
    assert!(!ref_can_open("&,", 0));
    assert!(!ref_can_open(r"\&x", 1));
    // The footnote opener shape lives in `footnote_sugar_at` itself (the `[^` digraph plus a
    // label-start char; a `[` without them falls through to the link/attrs/literal dispatch).
    // An escaped `\[` never reaches it — the lexer's `[` arm demotes it to text.
    let fn_opens = |src: &str| footnote_sugar_at(src, 0, src.len() as u32).is_some();
    assert!(fn_opens("[^n]"));
    assert!(fn_opens("[^1]")); // digit start legal → `[^1]` fires
    assert!(!fn_opens("[^ x]")); // space after `^`
    assert!(!fn_opens("[^$]")); // `$` is not a label char
    assert!(!fn_opens("[x]")); // no `^`

    // --- left-boundary guard (byte half; frame-start is the parser's) ---
    assert!(docstate_left_guard("<x>", 0)); // start of source
    assert!(docstate_left_guard("a <x>", 2)); // whitespace
    assert!(docstate_left_guard("a\n<x>", 2)); // line start
    for src in ["(<x>", "[<x>", "{<x>", "\"<x>", "'<x>"] {
        assert!(docstate_left_guard(src, 1), "opening punct fires: {src}");
    }
    assert!(!docstate_left_guard("Vec<T>", 3)); // ident before → literal
    assert!(!docstate_left_guard("R&D", 1));
    assert!(!docstate_left_guard("a.<x>", 2)); // closing/other punct → literal
    assert!(!docstate_left_guard("*<x>", 1)); // emphasis marker: only frame-start saves it

    // --- `<label>`: Typst-minus-period charset, `>` required within limit ---
    // `-`/`:` join now (kebab/namespaced labels close on their `>`).
    assert_eq!(label_sugar_at("<sec-intro>", 0, 11), Some(Span::new(1, 10)));
    assert_eq!(&"<sec-intro>"[1..10], "sec-intro");
    let src = "<sec_intro_2> t";
    assert_eq!(label_sugar_at(src, 0, lim(src)), Some(Span::new(1, 12)));
    assert_eq!(&src[1..12], "sec_intro_2");
    // Digit-start label closes on its `>` (`<1a>`).
    assert_eq!(label_sugar_at("<1a> t", 0, 6), Some(Span::new(1, 3)));
    // `.` is NOT a label char: it breaks the label, so `<sec.x>` has no glued `>` → literal.
    assert_eq!(label_sugar_at("<sec.x>", 0, 7), None);
    // A non-ASCII byte breaks the label (`café` → `caf`, then `é` ≠ `>`), so the whole is literal.
    assert_eq!(label_sugar_at("<café> t", 0, 8), None);
    assert_eq!(label_sugar_at("<a b>", 0, 5), None); // space breaks the label
    assert_eq!(label_sugar_at("<ab", 0, 3), None); // no close
    assert_eq!(label_sugar_at("<ab\n>", 0, 5), None); // close not on the opening line
    assert_eq!(label_sugar_at("<ab>", 0, 3), None); // `>` at/past the limit → clipped
    assert_eq!(label_sugar_at("<ab>", 0, 4), Some(Span::new(1, 3)));

    // --- `&ref`: ends at the first non-label char; limit clips the run ---
    assert_eq!(ref_sugar_at("&sec. rest", 0, 10), Some(Span::new(1, 4))); // `.` drops
    assert_eq!(ref_sugar_at("&sec-intro", 0, 10), Some(Span::new(1, 10))); // `-` GLUES (kebab)
    assert_eq!(ref_sugar_at("&sec: x", 0, 7), Some(Span::new(1, 5))); // `:` GLUES (documented)
    assert_eq!(ref_sugar_at("&sec- x", 0, 7), Some(Span::new(1, 5))); // trailing `-` GLUES
    assert_eq!(ref_sugar_at("&1x", 0, 3), Some(Span::new(1, 3))); // digit-start ref
    assert_eq!(ref_sugar_at("&$x", 0, 3), None); // `$` is not a label char now → literal
    assert_eq!(ref_sugar_at("&x", 0, 2), Some(Span::new(1, 2)));
    assert_eq!(ref_sugar_at("&,", 0, 2), None);
    assert_eq!(ref_sugar_at("&abcd", 0, 3), Some(Span::new(1, 3))); // clipped at limit

    // --- `[^mark]`: the digraph + `]` within limit ---
    assert_eq!(footnote_sugar_at("[^note1] t", 0, 10), Some(Span::new(2, 7)));
    assert_eq!(footnote_sugar_at("[^1] t", 0, 6), Some(Span::new(2, 3))); // digit-start mark
    assert_eq!(footnote_sugar_at("[^ x]", 0, 5), None);
    assert_eq!(footnote_sugar_at("[^x y]", 0, 6), None); // label stops at space, `]` missing
    assert_eq!(footnote_sugar_at("[^x]", 0, 3), None); // `]` at/past the limit
    assert_eq!(footnote_sugar_at("[^x]", 0, 4), Some(Span::new(2, 3)));
}

#[test]
fn raw_spans_are_skipped_whole() {
    assert_eq!(skip_raw_span("```\nx\n```", 0), 9);
    assert_eq!(skip_raw_span("`a` b", 0), 3);
    assert_eq!(skip_raw_span("`a b", 0), 1);
    assert_eq!(skip_raw_span("$$\nx\n$$", 0), 7);
    assert_eq!(skip_raw_span("|{a}| b", 0), 5);
    assert_eq!(skip_raw_span("|{a b", 0), 1);
}

#[test]
fn a_clip_stays_on_its_line() {
    assert_eq!(brace_clip_on_line("a\\\n}", 0), None);
    assert_eq!(brace_clip_on_line("@f(\n) }", 0), None);
    assert_eq!(brace_clip_on_line("/* a\n*/ }", 0), None);
    assert_eq!(brace_clip_on_line("a {b} }", 0), Some(6));
}

#[test]
fn attribute_names_are_glued_to_their_colon() {
    assert_eq!(attrs_group_at("[x : 1]", 0, 7, false), None);
    assert_eq!(attrs_group_at("[x: 1]", 0, 6, false), Some(6));
    assert_eq!(attrs_group_at("[ x: 1]", 0, 7, false), Some(7));
}

#[test]
fn arming_stays_inside_the_extent() {
    let stop = |source: &str, bound: u32| match armed_boundary(source, 0, bound) {
        (end, ArmedBoundary::Bound) => (end, None),
        (end, ArmedBoundary::ArmedAt { at }) => (end, Some(at)),
    };
    assert_eq!(stop("ab|@x", 3), (3, None));
    assert_eq!(stop("ab|@x", 4), (2, Some(3)));
    assert_eq!(stop("ab", 5), (5, None));
}

#[test]
fn sugars_end_with_the_source() {
    assert_eq!(label_sugar_at("<a>", 9, 20), None);
    assert_eq!(ref_sugar_at("&a", 9, 20), None);
    assert_eq!(footnote_sugar_at("[^a]", 9, 20), None);
}
