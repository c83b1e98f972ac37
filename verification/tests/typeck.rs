//! What the type checker accepts and rejects.

use mini_linear::ast::{Expr, Program, Span, Type, Usage};
use mini_linear::error::{Error, ErrorCategory};
use mini_linear::names::NameMap;
use mini_linear::parser::parse;
use mini_linear::typeck::{
    check_expr, check_program, merge_borrows_union, share_as, Check, ConsumeMode, Env, Typed,
};

/// Parse `src`. The parser does not read `let shared`, so such bindings are
/// parsed as linear ones (the two words are equally long, so every span stays
/// the same) and marked as shared afterwards.
fn program(src: &str) -> Program {
    let mut prog = parse(&src.replace("let shared ", "let linear ")).expect("parse failed");
    mark_shared(&mut prog.main_expr, src);
    prog
}

fn mark_shared(expr: &mut Expr, src: &str) {
    match expr {
        Expr::Let { usage, value, body, span, .. } => {
            if src[span.start..].starts_with("let shared ") {
                *usage = Usage::Shared;
            }
            mark_shared(value, src);
            mark_shared(body, src);
        }
        Expr::TupleDestructure { value, body, .. } => {
            mark_shared(value, src);
            mark_shared(body, src);
        }
        Expr::Add { lhs, rhs, .. } => {
            mark_shared(lhs, src);
            mark_shared(rhs, src);
        }
        Expr::Sequence { first, second, .. } => {
            mark_shared(first, src);
            mark_shared(second, src);
        }
        Expr::Tuple { elems, .. } => {
            for elem in elems {
                mark_shared(elem, src);
            }
        }
        Expr::TupleProj { tuple, .. } => mark_shared(tuple, src),
        _ => {}
    }
}

fn check_ok(src: &str) -> Typed {
    let prog = program(src);
    check_program(&prog).expect("type check failed")
}

fn check_err(src: &str) -> Error {
    let prog = program(src);
    check_program(&prog).expect_err("expected type error")
}

/// For tests that need to inspect the `Check` struct directly.
fn run_check(src: &str) -> Check {
    let prog = program(src);
    let env = Env::new();
    check_expr(&prog.main_expr, &env, None, ConsumeMode::Consume)
        .expect("type check failed")
}

// -- Ordinary values --

#[test]
fn int_literal_is_ordinary_int() {
    let typed = check_ok("42");
    assert_eq!(typed.usage, Usage::Ordinary);
    assert_eq!(typed.ty, Type::Int);
}

#[test]
fn negative_literal_is_ordinary_int() {
    let typed = check_ok("-3");
    assert_eq!(typed.usage, Usage::Ordinary);
    assert_eq!(typed.ty, Type::Int);
}

#[test]
fn add_of_two_ints_is_int() {
    let typed = check_ok("1 + 2");
    assert_eq!(typed.ty, Type::Int);
}

#[test]
fn let_binding_resolves_var() {
    let typed = check_ok("let ordinary x = 1 in x + 1");
    assert_eq!(typed.usage, Usage::Ordinary);
    assert_eq!(typed.ty, Type::Int);
}

#[test]
fn nested_let_binding() {
    let typed = check_ok("let ordinary x = 1 in let ordinary y = x + 2 in y + x");
    assert_eq!(typed.ty, Type::Int);
}

#[test]
fn unbound_variable_is_type_error() {
    let err = check_err("x");
    assert_eq!(err.category, ErrorCategory::TypeError);
    assert!(err.note.unwrap().contains("unbound"));
}

#[test]
fn unbound_variable_inside_add_is_type_error() {
    let err = check_err("1 + missing");
    assert_eq!(err.category, ErrorCategory::TypeError);
}

#[test]
fn let_body_sees_binding() {
    let typed = check_ok("let ordinary x = 100 in x");
    assert_eq!(typed.ty, Type::Int);
}

#[test]
fn outer_binding_does_not_escape() {
    let err = check_err("let ordinary x = y in x");
    assert_eq!(err.category, ErrorCategory::TypeError);
}

#[test]
fn typed_display_phase0() {
    let typed = check_ok("1 + 1");
    assert_eq!(typed.to_string(), "ordinary int");
}

#[test]
fn shadowing_uses_inner_binding() {
    let typed = check_ok("let ordinary x = 1 in let ordinary x = x + 1 in x");
    assert_eq!(typed.ty, Type::Int);
}

// -- Linear values --

#[test]
fn ordinary_program_has_empty_consumes_and_borrows() {
    let check = run_check("let ordinary x = 1 in x + 1");
    assert!(check.consumes.is_empty());
    assert!(check.borrows.is_empty());
}

#[test]
fn linear_tuple_decon() {
    let typed = check_ok("let linear t = (1, 2) in let (a, b) = t in a + b");
    assert_eq!(typed.usage, Usage::Ordinary);
    assert_eq!(typed.ty, Type::Int);
}

#[test]
fn empty_tuple_defaults_to_ordinary() {
    let typed = check_ok("()");
    assert_eq!(typed.usage, Usage::Ordinary);
    assert_eq!(typed.ty, Type::Tuple(Vec::new()));
}

#[test]
fn empty_linear_tuple_via_annotation() {
    let typed = check_ok("let linear u = () in let () = u in 5");
    assert_eq!(typed.ty, Type::Int);
}

#[test]
fn ordinary_tuple_projection() {
    let typed = check_ok("let ordinary t = (1, 2) in t.0 + t.1");
    assert_eq!(typed.ty, Type::Int);
}

#[test]
fn nested_linear_tuple() {
    let typed = check_ok(
        "let linear inner = (1, 2) in \
         let linear outer = (inner, 3) in \
         let (i, x) = outer in \
         let (a, b) = i in a + b + x",
    );
    assert_eq!(typed.ty, Type::Int);
}

#[test]
fn linear_unused_is_type_error() {
    let err = check_err("let linear t = (1, 2) in 5");
    assert_eq!(err.category, ErrorCategory::TypeError);
    assert!(err.note.unwrap().contains("not consumed"));
}

#[test]
fn linear_consumed_twice_includes_related_span() {
    let err = check_err(
        "let linear t = (1, 2) in let (a, b) = t in let (c, d) = t in a + b + c + d",
    );
    assert_eq!(err.category, ErrorCategory::TypeError);
    assert!(err.note.unwrap().contains("consumed twice"));
    assert_eq!(err.related.len(), 1);
    assert!(err.related[0].label.contains("previously consumed"));
    assert_ne!(err.related[0].span, err.span);
}

#[test]
fn project_linear_is_type_error() {
    // Projecting from a linear var (in Consume mode) is a type error — the
    // user should borrow first.
    let err = check_err("let linear t = (1, 2) in t.0");
    assert_eq!(err.category, ErrorCategory::TypeError);
    let note = err.note.unwrap();
    assert!(note.contains("linear") && note.contains("project"));
}

#[test]
fn decon_ordinary_is_type_error() {
    let err = check_err("let ordinary t = (1, 2) in let (a, b) = t in a + b");
    assert_eq!(err.category, ErrorCategory::TypeError);
    assert!(err.note.unwrap().contains("linear tuple"));
}

/// `t` becomes shared in Borrow mode, and the seq rule rejects shared.
#[test]
fn seq_linear_is_type_error() {
    let err = check_err("let linear t = (1, 2) in t ; 5");
    assert_eq!(err.category, ErrorCategory::TypeError);
    let note = err.note.unwrap();
    assert!(
        note.contains("sequence") || note.contains("first expression"),
        "expected a sequencing-related message, got: {note}",
    );
}

// -- Borrowing --

#[test]
fn linear_var_in_borrow_mode_returns_shared() {
    // Build env directly to bypass the parser.
    let mut env = Env::new();
    env.insert(
        "y".to_string(),
        Typed {
            usage: Usage::Linear,
            ty: Type::Int, // shape doesn't matter for the lookup
        },
    );
    let var_expr = Expr::Var {
        name: "y".to_string(),
        span: Span::new(0, 1),
    };
    let in_consume =
        check_expr(&var_expr, &env, None, ConsumeMode::Consume).unwrap();
    assert_eq!(in_consume.typed.usage, Usage::Linear);
    assert_eq!(in_consume.consumes.len(), 1);
    assert!(in_consume.borrows.is_empty());

    let in_borrow =
        check_expr(&var_expr, &env, None, ConsumeMode::Borrow).unwrap();
    assert_eq!(in_borrow.typed.usage, Usage::Shared);
    assert!(in_borrow.consumes.is_empty());
    assert_eq!(in_borrow.borrows.len(), 1);
}

#[test]
fn seq_borrow_basic_resolves_borrow() {
    // The seq's e1 borrows y; e2 consumes y; the borrow gets resolved
    // by the consume so the outer let is happy.
    let typed = check_ok(
        "let linear y = (1, 2) in (y.0 + y.1) ; let (a, b) = y in a + b",
    );
    assert_eq!(typed.ty, Type::Int);
}

#[test]
fn seq_borrow_repeated_in_e1() {
    let typed = check_ok(
        "let linear y = (1, 2) in (y.0 + y.0 + y.1) ; let (a, b) = y in a + b",
    );
    assert_eq!(typed.ty, Type::Int);
}

#[test]
fn let_shared_basic() {
    let typed = check_ok(
        "let linear y = (1, 2) in (let shared s = y in s.0 + s.0) ; let (a, b) = y in a + b",
    );
    assert_eq!(typed.ty, Type::Int);
}

#[test]
fn nested_let_shared() {
    let typed = check_ok(
        "let linear y = (1, 2) in \
         (let shared s1 = y in let shared s2 = y in s1.0 + s2.1) ; \
         let (a, b) = y in a + b",
    );
    assert_eq!(typed.ty, Type::Int);
}

#[test]
fn share_escape_is_type_error() {
    // `let shared s = y` borrows y; the body then tries to consume y
    // via deconstruction. The let-shared rule's `B1 ∩ keys(C2)` check
    // catches this.
    let err = check_err(
        "let linear y = (1, 2) in let shared s = y in let (a, b) = y in a + b",
    );
    assert_eq!(err.category, ErrorCategory::TypeError);
    let note = err.note.unwrap();
    assert!(note.contains("shared") || note.contains("borrow"));
    // Should have a related span pointing at where y was borrowed.
    assert!(!err.related.is_empty());
}

#[test]
fn borrow_unresolved_falls_through_to_linear_unused() {
    // `(y.0 + y.0) ; 5` — the borrow of y is *not* resolved (e2 doesn't
    // consume y). The outer linear-must-be-consumed check fires
    // because y was never consumed at all.
    let err = check_err("let linear y = (1, 2) in (y.0 + y.0) ; 5");
    assert_eq!(err.category, ErrorCategory::TypeError);
    assert!(err.note.unwrap().contains("not consumed"));
}

#[test]
fn seq_returning_shared_is_type_error() {
    // `t ; 5` where t is linear. In Borrow mode, t
    // becomes shared. seq rejects because u1 is shared.
    let err = check_err("let linear t = (1, 2) in t ; 5");
    assert_eq!(err.category, ErrorCategory::TypeError);
    let note = err.note.unwrap();
    assert!(
        note.contains("ordinary") && (note.contains("shared") || note.contains("escape")),
        "expected a shared-escape message, got: {note}",
    );
}

#[test]
fn share_as_table() {
    // Direct unit test of the `share_as` function.
    assert_eq!(share_as(Usage::Ordinary, Usage::Ordinary), Usage::Ordinary);
    assert_eq!(share_as(Usage::Ordinary, Usage::Linear), Usage::Linear);
    assert_eq!(share_as(Usage::Ordinary, Usage::Shared), Usage::Shared);
    assert_eq!(share_as(Usage::Shared, Usage::Ordinary), Usage::Ordinary);
    assert_eq!(share_as(Usage::Shared, Usage::Linear), Usage::Shared);
    assert_eq!(share_as(Usage::Shared, Usage::Shared), Usage::Shared);
}

#[test]
fn merge_borrows_first_seen_wins() {
    let mut a = NameMap::new();
    a.insert("y".to_string(), Span::new(0, 1));
    let mut b = NameMap::new();
    b.insert("y".to_string(), Span::new(10, 11));
    let merged = merge_borrows_union(a, b);
    // First-seen (the entry from `a`) should win.
    assert_eq!(merged.get("y").copied(), Some(Span::new(0, 1)));
}
