//! Printed diagnostics.

use mini_linear::ast::Span;
use mini_linear::error::{format_error, Error, ErrorCategory};

fn err(span_start: usize, span_end: usize, note: &str) -> Error {
    Error::new(
        ErrorCategory::TypeError,
        Span::new(span_start, span_end),
        Some(note.to_string()),
    )
}

#[test]
fn simple_first_line() {
    let src = "x";
    let formatted = format_error(&err(0, 1, "unbound variable `x`"), src, "input.lin");
    let expected = "\
error: type error
  --> input.lin:1:1
   |
 1 | x
   | ^
   |
   = note: unbound variable `x`
";
    assert_eq!(formatted, expected);
}

#[test]
fn second_line_with_offset() {
    let src = "let ordinary x = 1 in\n  x + missing";
    let mis_start = src.find("missing").unwrap();
    let mis_end = mis_start + "missing".len();
    let formatted = format_error(
        &err(mis_start, mis_end, "unbound variable `missing`"),
        src,
        "snippet.lin",
    );
    assert!(formatted.contains("--> snippet.lin:2:7"));
    assert!(formatted.contains("2 |   x + missing"));
    assert!(formatted.contains("|       ^^^^^^^"));
    assert!(formatted.contains("= note: unbound variable `missing`"));
}

#[test]
fn eof_span_does_not_panic() {
    let src = "1 +";
    let formatted = format_error(
        &err(src.len(), src.len(), "expected expression"),
        src,
        "x.lin",
    );
    assert!(formatted.contains("error: type error"));
    assert!(formatted.contains("= note: expected expression"));
}

#[test]
fn no_note_produces_no_note_line() {
    let src = "x";
    let mut e = err(0, 1, "ignored");
    e.note = None;
    let formatted = format_error(&e, src, "x.lin");
    assert!(!formatted.contains("= note:"));
}

#[test]
fn related_span_is_rendered_after_primary() {
    // Two-line source so the primary and related spans have different
    // line numbers in the output.
    let src = "let (a, b) = t in\nlet (c, d) = t in 1";
    let first_t = src.find("= t").unwrap() + 2;
    let second_t = src.rfind("= t").unwrap() + 2;
    let primary = Error::new(
        ErrorCategory::TypeError,
        Span::new(second_t, second_t + 1),
        Some("linear variable `t` is consumed twice".to_string()),
    )
    .with_related(
        Span::new(first_t, first_t + 1),
        "`t` previously consumed here",
    );
    let formatted = format_error(&primary, src, "twice.lin");
    // Primary block.
    assert!(formatted.contains("error: type error"));
    assert!(formatted.contains("= note: linear variable `t` is consumed twice"));
    // Related block follows.
    assert!(formatted.contains("note: `t` previously consumed here"));
    assert!(formatted.contains("--> twice.lin:1:"));
    assert!(formatted.contains("--> twice.lin:2:"));
}

/// The `line:column` that is printed for `offset`.
fn place(src: &str, offset: usize) -> String {
    let formatted = format_error(&err(offset, offset, "here"), src, "p.lin");
    let arrow = formatted.lines().nth(1).expect("no location line");
    arrow.split_once("p.lin:").expect("no location").1.to_string()
}

#[test]
fn locations_tell_offsets_apart() {
    let src = "ab\n\nc\u{e9}\n";
    let expected = ["1:1", "1:2", "1:3", "2:1", "3:1", "3:2", "3:3", "3:4", "4:1"];
    for (offset, location) in expected.iter().enumerate() {
        assert_eq!(place(src, offset), *location);
    }
    // An offset past the end is read as the end.
    assert_eq!(place(src, 100), "4:1");
}

#[test]
fn the_line_of_the_span_is_shown_whole() {
    let src = "first\n\tsecond line\nthird";
    let formatted = format_error(&err(7, 13, "here"), src, "p.lin");
    assert!(formatted.contains(" 2 | \tsecond line\n"));
    assert!(formatted.contains("   |  ^^^^^^\n"));
}
