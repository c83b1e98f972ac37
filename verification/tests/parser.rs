//! What the parser accepts and rejects, and the shape of what it returns.

use mini_linear::ast::{Expr, Usage};
use mini_linear::error::{Error, ErrorCategory};
use mini_linear::parser::parse;

fn parse_ok(src: &str) -> Expr {
    parse(src).expect("expected parse success").main_expr
}

fn parse_err(src: &str) -> Error {
    parse(src).expect_err("expected parse failure")
}

// -- Literals, sums, bindings --

#[test]
fn int_literal() {
    match parse_ok("42") {
        Expr::IntLit { value: 42, .. } => {}
        other => panic!("unexpected {other:?}"),
    }
}

#[test]
fn negative_int_literal() {
    match parse_ok("-7") {
        Expr::IntLit { value: -7, .. } => {}
        other => panic!("unexpected {other:?}"),
    }
}

#[test]
fn simple_add() {
    match parse_ok("1 + 2") {
        Expr::Add { .. } => {}
        other => panic!("unexpected {other:?}"),
    }
}

#[test]
fn add_left_assoc() {
    match parse_ok("1 + 2 + 3") {
        Expr::Add { lhs, rhs, .. } => {
            assert!(matches!(*lhs, Expr::Add { .. }));
            assert!(matches!(*rhs, Expr::IntLit { value: 3, .. }));
        }
        other => panic!("unexpected {other:?}"),
    }
}

#[test]
fn parenthesised_grouping() {
    // `(1 + 2)` parses as just Add — grouping is invisible in the AST.
    match parse_ok("(1 + 2)") {
        Expr::Add { .. } => {}
        other => panic!("unexpected {other:?}"),
    }
}

#[test]
fn let_ordinary() {
    match parse_ok("let ordinary x = 1 in x + 1") {
        Expr::Let { usage, name, .. } => {
            assert_eq!(usage, Usage::Ordinary);
            assert_eq!(name, "x");
        }
        other => panic!("unexpected {other:?}"),
    }
}

#[test]
fn rejects_repeated_let() {
    let err = parse_err("let let let");
    assert_eq!(err.category, ErrorCategory::ParseError);
}

#[test]
fn rejects_keyword_as_binder() {
    let err = parse_err("let ordinary in = 1 in 1");
    assert_eq!(err.category, ErrorCategory::ParseError);
}

#[test]
fn comments_and_whitespace() {
    let expr = parse_ok("// hello\n  1 + 1 // trailing\n");
    assert!(matches!(expr, Expr::Add { .. }));
}

#[test]
fn unbound_variable_parses_ok() {
    match parse_ok("x") {
        Expr::Var { name, .. } => assert_eq!(name, "x"),
        other => panic!("unexpected {other:?}"),
    }
}

#[test]
fn keyword_prefix_is_not_keyword() {
    match parse_ok("inertia") {
        Expr::Var { name, .. } => assert_eq!(name, "inertia"),
        other => panic!("unexpected {other:?}"),
    }
}

#[test]
fn integer_overflow_is_parse_error() {
    let err = parse_err("99999999999999999999");
    assert_eq!(err.category, ErrorCategory::ParseError);
}

#[test]
fn nested_let() {
    let expr = parse_ok("let ordinary x = let ordinary y = 1 in y in x + 1");
    let Expr::Let {
        name: outer_name,
        value,
        body,
        ..
    } = expr
    else {
        panic!("expected outer Let");
    };
    assert_eq!(outer_name, "x");
    let Expr::Let {
        name: inner_name, ..
    } = *value
    else {
        panic!("expected inner Let in value position");
    };
    assert_eq!(inner_name, "y");
    assert!(matches!(*body, Expr::Add { .. }));
}

#[test]
fn trailing_input_is_parse_error() {
    let err = parse_err("1 + 1 garbage");
    assert_eq!(err.category, ErrorCategory::ParseError);
}

// -- Linear let --

#[test]
fn accepts_linear_let() {
    match parse_ok("let linear x = (1, 2) in let (a, b) = x in a + b") {
        Expr::Let { usage, name, .. } => {
            assert_eq!(usage, Usage::Linear);
            assert_eq!(name, "x");
        }
        other => panic!("unexpected {other:?}"),
    }
}

#[test]
fn rejects_shared_let_with_phase2_message() {
    let err = parse_err("let shared x = 1 in x");
    assert_eq!(err.category, ErrorCategory::ParseError);
    let note = err.note.expect("expected a note");
    assert!(
        note.contains("Phase 2"),
        "expected Phase-2 message, got: {note}"
    );
}

// -- Tuples --

#[test]
fn empty_tuple() {
    match parse_ok("()") {
        Expr::Tuple { elems, .. } => assert!(elems.is_empty()),
        other => panic!("unexpected {other:?}"),
    }
}

#[test]
fn two_tuple() {
    match parse_ok("(1, 2)") {
        Expr::Tuple { elems, .. } => assert_eq!(elems.len(), 2),
        other => panic!("unexpected {other:?}"),
    }
}

#[test]
fn three_tuple() {
    match parse_ok("(1, 2, 3)") {
        Expr::Tuple { elems, .. } => assert_eq!(elems.len(), 3),
        other => panic!("unexpected {other:?}"),
    }
}

#[test]
fn singleton_tuple_is_parse_error() {
    let err = parse_err("(1,)");
    assert_eq!(err.category, ErrorCategory::ParseError);
}

#[test]
fn trailing_comma_in_tuple_is_parse_error() {
    let err = parse_err("(1, 2,)");
    assert_eq!(err.category, ErrorCategory::ParseError);
}

// -- Projection --

#[test]
fn tuple_projection() {
    match parse_ok("t.0") {
        Expr::TupleProj { index, .. } => assert_eq!(index, 0),
        other => panic!("unexpected {other:?}"),
    }
}

#[test]
fn projection_chain_is_left_assoc() {
    // `t.0.1` should parse as `(t.0).1`.
    let Expr::TupleProj {
        tuple: outer_tuple,
        index: outer_index,
        ..
    } = parse_ok("t.0.1")
    else {
        panic!("expected TupleProj");
    };
    assert_eq!(outer_index, 1);
    let Expr::TupleProj {
        index: inner_index, ..
    } = *outer_tuple
    else {
        panic!("expected inner TupleProj");
    };
    assert_eq!(inner_index, 0);
}

#[test]
fn projection_higher_than_addition() {
    // `1 + t.0` should parse as `1 + (t.0)`.
    let Expr::Add { rhs, .. } = parse_ok("1 + t.0") else {
        panic!("expected Add");
    };
    assert!(matches!(*rhs, Expr::TupleProj { .. }));
}

#[test]
fn negative_projection_index_rejected() {
    // `t.-1` would lex `-1` as a literal index, but the projection
    // parser explicitly rejects negatives at the lex_nonneg_int step.
    let err = parse_err("t.-1");
    assert_eq!(err.category, ErrorCategory::ParseError);
}

// -- Deconstruction --

#[test]
fn deconstruction_two_names() {
    match parse_ok("let (a, b) = t in a + b") {
        Expr::TupleDestructure { names, .. } => {
            assert_eq!(names.len(), 2);
            assert_eq!(names[0].0, "a");
            assert_eq!(names[1].0, "b");
        }
        other => panic!("unexpected {other:?}"),
    }
}

#[test]
fn deconstruction_empty_names() {
    match parse_ok("let () = u in 5") {
        Expr::TupleDestructure { names, .. } => assert!(names.is_empty()),
        other => panic!("unexpected {other:?}"),
    }
}

#[test]
fn trailing_comma_in_pattern_is_parse_error() {
    let err = parse_err("let (a, b,) = t in 1");
    assert_eq!(err.category, ErrorCategory::ParseError);
}

#[test]
fn singleton_pattern_is_parse_error() {
    let err = parse_err("let (x) = t in x");
    assert_eq!(err.category, ErrorCategory::ParseError);
    let note = err.note.expect("note");
    assert!(
        note.contains("1-element"),
        "expected message about 1-element patterns, got: {note}"
    );
}

// -- Sequencing --

#[test]
fn simple_seq() {
    match parse_ok("1 ; 2") {
        Expr::Sequence { .. } => {}
        other => panic!("unexpected {other:?}"),
    }
}

#[test]
fn seq_left_assoc() {
    // `1 ; 2 ; 3` → `(1; 2); 3`
    let Expr::Sequence { first, second, .. } = parse_ok("1 ; 2 ; 3") else {
        panic!("expected Sequence");
    };
    assert!(matches!(*first, Expr::Sequence { .. }));
    assert!(matches!(*second, Expr::IntLit { value: 3, .. }));
}

#[test]
fn add_higher_than_seq() {
    // `1 + 2 ; 3` → `(1 + 2) ; 3`
    let Expr::Sequence { first, second, .. } = parse_ok("1 + 2 ; 3") else {
        panic!("expected Sequence");
    };
    assert!(matches!(*first, Expr::Add { .. }));
    assert!(matches!(*second, Expr::IntLit { value: 3, .. }));
}

#[test]
fn let_extends_through_seq_in_body() {
    // `let ordinary x = 1 in x ; 2` → `let x = 1 in (x ; 2)`
    let Expr::Let { body, .. } = parse_ok("let ordinary x = 1 in x ; 2") else {
        panic!("expected Let");
    };
    assert!(matches!(*body, Expr::Sequence { .. }));
}

#[test]
fn seq_can_have_let_on_rhs() {
    // `1 ; let ordinary x = 2 in x` → `Sequence(1, let x = 2 in x)`
    let Expr::Sequence { first, second, .. } = parse_ok("1 ; let ordinary x = 2 in x") else {
        panic!("expected Sequence");
    };
    assert!(matches!(*first, Expr::IntLit { value: 1, .. }));
    assert!(matches!(*second, Expr::Let { .. }));
}
