//! The whitespace of a body, on concrete segments.

use nota::scribble::{lower, Child, Seg};


/// Render the algorithm's output in Scribble's notation: text children quoted, elements as `E`.
fn render(segs: Vec<Seg<'_, u32>>) -> String {
    let parts: Vec<String> = lower(&segs, true)
        .into_iter()
        .map(|child| match child {
            Child::Text(s) => format!("{:?}", String::from_utf8(s).expect("text is UTF-8")),
            Child::Elem(_) => "E".to_string(),
        })
        .collect();
    parts.join(" ")
}

const E: Seg<'static, u32> = Seg::Elem(0);
fn t(s: &str) -> Seg<'_, u32> {
    Seg::Text(s.as_bytes())
}

#[test]
fn empty_and_ws_only() {
    assert_eq!(render(vec![]), "");
    assert_eq!(render(vec![t("   ")]), ""); // ws-only, no newline → []
    assert_eq!(render(vec![t("\n")]), r#""\n""#); // only newline → one "\n"
    assert_eq!(render(vec![t("\n\n\n")]), r#""\n" "\n" "\n""#);
}

#[test]
fn single_line_spaces_kept() {
    assert_eq!(render(vec![t(" bar ")]), r#"" bar ""#);
}

#[test]
fn drop_open_close_newline_strip_indent() {
    // `@foo{⏎  bar⏎}` → "bar"
    assert_eq!(render(vec![t("\n  bar\n")]), r#""bar""#);
    // `@foo{⏎  begin⏎    x⏎  end}` → "begin","⏎","  x","⏎","end" (kept indent joined)
    assert_eq!(render(vec![t("\n  begin\n    x\n  end")]), r#""begin" "\n" "  x" "\n" "end""#);
}

#[test]
fn crlf_is_normalized() {
    // `\r\n` line endings: the `\r` is part of the terminator, dropped.
    assert_eq!(render(vec![t("line1\r\nline2")]), r#""line1" "\n" "line2""#);
    // a trailing `\r` (e.g. the `\r\n` after a closing brace) is not a stray node.
    assert_eq!(render(vec![t("\r\n")]), r#""\n""#);
}

#[test]
fn blank_line_is_two_newlines() {
    assert_eq!(render(vec![t("\n  bar\n\n  baz\n")]), r#""bar" "\n" "\n" "baz""#);
    assert_eq!(render(vec![t("\n\n  bar\n\n")]), r#""\n" "bar" "\n""#);
}

#[test]
fn common_indent_keeps_leftover() {
    assert_eq!(
        render(vec![t("bar\n       baz\n     bbb")]),
        r#""bar" "\n" "  baz" "\n" "bbb""#
    );
}

#[test]
fn balanced_braces_merge_to_one_text() {
    // `@code{f{o}o}` → "f{o}o" (balanced braces arrive as separate Text segs, must merge).
    assert_eq!(render(vec![t("f"), t("{"), t("o"), t("}"), t("o")]), r#""f{o}o""#);
}

#[test]
fn element_keeps_preceding_space() {
    // `@foo{bar @baz …⏎     blah}` line: "bar " <E>; trailing space before E kept.
    assert_eq!(render(vec![t("bar "), E, t("\n     blah")]), r#""bar " E "\n" "blah""#);
}

#[test]
fn only_the_line_of_the_brace_keeps_its_trailing_blanks() {
    assert_eq!(render(vec![t("\n  bar  \n")]), r#""bar""#);
    assert_eq!(render(vec![t("\n  bar  \n  baz  ")]), r#""bar" "\n" "baz  ""#);
    assert_eq!(render(vec![t("bar  ")]), r#""bar  ""#);
}

#[test]
fn common_indentation_is_no_content() {
    let text = |s: &str| -> Vec<String> {
        lower(&[t(s)], false)
            .into_iter()
            .map(|child| match child {
                Child::Text(s) => String::from_utf8(s).expect("text is UTF-8"),
                Child::Elem(_) => "E".to_string(),
            })
            .collect()
    };
    let plain = text("a\n\n  b \n c\n");
    assert_eq!(plain, ["a", "\n", "\n", "  b", "\n", " c"]);
    assert_eq!(text("   a\n\n     b \n    c\n"), plain);
}
