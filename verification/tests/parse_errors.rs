//! Every parse error: its note and the place it points at.

use mini_linear::ast::{Expr, Span};
use mini_linear::error::ErrorCategory;
use mini_linear::parser::parse;

/// Parsing `src` fails with `note` at `start..end`.
fn rejected(src: &str, start: usize, end: usize, note: &str) {
    let err = parse(src).expect_err("expected parse failure");
    assert_eq!(err.category, ErrorCategory::ParseError);
    assert_eq!(err.note.as_deref(), Some(note));
    assert_eq!(err.span, Span::new(start, end));
    assert!(err.related.is_empty());
}

#[test]
fn empty_source_has_no_expression() {
    rejected("", 0, 0, "expected expression");
    rejected("  // nothing", 12, 12, "expected expression");
    rejected("1 + ", 4, 4, "expected expression");
    rejected("1 + ;", 4, 5, "expected expression");
    rejected("-", 0, 1, "expected expression");
    rejected("- 1", 0, 1, "expected expression");
}

#[test]
fn trailing_input_is_pointed_at() {
    rejected("1 + 1 garbage", 6, 7, "unexpected trailing input");
    rejected("1 2", 2, 3, "unexpected trailing input");
    rejected("x)", 1, 2, "unexpected trailing input");
    rejected("1 - 1", 2, 3, "unexpected trailing input");
    rejected("x\u{b}", 1, 2, "unexpected trailing input");
}

#[test]
fn integer_literals_fit_in_i64() {
    for (src, expected) in [
        ("9223372036854775807", i64::MAX),
        ("-9223372036854775808", i64::MIN),
        ("-0", 0),
        ("000000000000000000000000012", 12),
    ] {
        let end = src.len();
        match parse(src).expect("parse failed").main_expr {
            Expr::IntLit { value, span } => {
                assert_eq!(value, expected);
                assert_eq!(span, Span::new(0, end));
            }
            other => panic!("unexpected {other:?}"),
        }
    }
    rejected(
        "9223372036854775808",
        0,
        19,
        "integer literal `9223372036854775808` does not fit in i64",
    );
    rejected(
        "1 + -9223372036854775809",
        4,
        24,
        "integer literal `-9223372036854775809` does not fit in i64",
    );
}

#[test]
fn tuple_indices_are_checked() {
    rejected("t.", 2, 2, "expected non-negative integer index");
    rejected("t.-1", 2, 3, "expected non-negative integer index");
    rejected("t . x", 4, 5, "expected non-negative integer index");
    rejected(
        "t.99999999999999999999999",
        2,
        25,
        "tuple index `99999999999999999999999` does not fit in usize",
    );
}

#[test]
fn reserved_words_are_no_variables() {
    for word in [
        "in", "linear", "shared", "ordinary", "method", "returns", "enum", "match", "inout", "int",
    ] {
        rejected(
            word,
            0,
            word.len(),
            &format!("`{word}` is a reserved keyword and cannot appear here"),
        );
        let binding = format!("let ordinary {word} = 1 in 1");
        rejected(
            &binding,
            13,
            13 + word.len(),
            &format!("`{word}` is a reserved keyword and cannot be used as a binder"),
        );
    }
}

#[test]
fn let_needs_a_usage() {
    rejected(
        "let shared x = 1 in x",
        4,
        10,
        "`shared` will be supported in Phase 2 alongside borrowing",
    );
    rejected(
        "let x = 1 in x",
        4,
        5,
        "expected `ordinary`, `linear`, or `(` after `let`, found `x`",
    );
    rejected(
        "let 5",
        4,
        5,
        "expected `ordinary`, `linear`, or `(` after `let`",
    );
    rejected(
        "let",
        3,
        3,
        "expected `ordinary`, `linear`, or `(` after `let`",
    );
}

#[test]
fn let_needs_a_name_a_value_and_a_body() {
    rejected("let ordinary = 1 in 1", 13, 14, "expected identifier");
    rejected(
        "let ordinary x 1 in 1",
        15,
        16,
        "expected `=` after let-binding name",
    );
    rejected(
        "let linear x = 1 ; 2",
        20,
        20,
        "expected `in` after let-binding value",
    );
    rejected(
        "let linear x = 1 inner 2",
        17,
        18,
        "expected `in` after let-binding value",
    );
    rejected("let linear x = 1 in", 19, 19, "expected expression");
}

#[test]
fn deconstruction_needs_a_pattern_a_value_and_a_body() {
    rejected("let (1, b) = t in 1", 5, 6, "expected identifier");
    rejected(
        "let (a, b,) = t in 1",
        10,
        11,
        "trailing commas in deconstruction patterns are not supported",
    );
    rejected(
        "let (a b) = t in 1",
        7,
        8,
        "expected `)` to close deconstruction pattern",
    );
    rejected(
        "let (xyz) = t in 1",
        5,
        8,
        "1-element deconstruction patterns are not supported (no 1-tuples in the language)",
    );
    rejected(
        "let (a, b) t in 1",
        11,
        12,
        "expected `=` after deconstruction pattern",
    );
    rejected(
        "let (a, b) = t , 1",
        15,
        16,
        "expected `in` after deconstruction value",
    );
}

#[test]
fn parentheses_are_closed() {
    rejected(
        "(1 2)",
        3,
        4,
        "expected `,` or `)` in parenthesised expression",
    );
    rejected(
        "(1,)",
        3,
        4,
        "trailing commas in tuples are not supported (singleton tuples are not a thing)",
    );
    rejected(
        "(1, 2, )",
        7,
        8,
        "trailing commas in tuples are not supported (singleton tuples are not a thing)",
    );
    rejected("(1, 2 3)", 6, 7, "expected `)` to close tuple");
    rejected("(", 1, 1, "expected expression");
}

#[test]
fn a_comment_ends_with_its_line() {
    assert!(parse("1 // + 2\n + 3").is_ok());
    rejected("1 / 2", 2, 3, "unexpected trailing input");
    rejected("1 // + 2\n 3", 10, 11, "unexpected trailing input");
}

#[test]
fn text_beyond_ascii_is_rejected_outside_comments() {
    assert!(parse("1 // \u{e9}\u{1f600}\n + 2").is_ok());
    rejected("\u{e9}", 0, 1, "expected expression");
}
