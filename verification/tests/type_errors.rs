//! Every type error: its note and the places it points at.

use mini_linear::ast::{Expr, Program, Span, TupleField, Type, Usage};
use mini_linear::error::{Error, ErrorCategory};
use mini_linear::parser::parse;
use mini_linear::typeck::{check_expr, check_program, ConsumeMode, Env, Typed};

/// The span of the `n`-th place in `src` where `part` stands, not inside a word.
fn occurrence(src: &str, part: &str, n: usize) -> Span {
    let in_word = |c: char| c.is_ascii_alphanumeric();
    let start = src
        .match_indices(part)
        .map(|(start, _)| start)
        .filter(|start| !src[..*start].ends_with(in_word))
        .filter(|start| !src[start + part.len()..].starts_with(in_word))
        .nth(n)
        .expect("part not found");
    Span::new(start, start + part.len())
}

fn error_of(program: &Program) -> Error {
    let err = check_program(program).expect_err("expected type error");
    assert_eq!(err.category, ErrorCategory::TypeError);
    err
}

/// Checking `src` fails with `note` at the `n`-th occurrence of `part`.
fn rejected(src: &str, part: &str, n: usize, note: &str) {
    let err = error_of(&parse(src).expect("parse failed"));
    assert_eq!(err.note.as_deref(), Some(note));
    assert_eq!(err.span, occurrence(src, part, n));
    assert!(err.related.is_empty());
}

/// As `rejected`, with a related place, the `m`-th occurrence of `other`.
fn rejected_with(
    src: &str,
    (part, n): (&str, usize),
    note: &str,
    (other, m): (&str, usize),
    label: &str,
) {
    let err = error_of(&parse(src).expect("parse failed"));
    assert_eq!(err.note.as_deref(), Some(note));
    assert_eq!(err.span, occurrence(src, part, n));
    assert_eq!(err.related.len(), 1);
    assert_eq!(err.related[0].span, occurrence(src, other, m));
    assert_eq!(err.related[0].label, label);
}

/// An environment with one variable.
fn env_of(name: &str, usage: Usage, ty: Type) -> Env {
    let mut env = Env::new();
    env.insert(name.to_string(), Typed { usage, ty });
    env
}

/// The note of the error for `src` in `env`.
fn note_in(env: &Env, src: &str, expected: Option<Usage>, mode: ConsumeMode) -> String {
    let program = parse(src).expect("parse failed");
    let err = check_expr(&program.main_expr, env, expected, mode).expect_err("expected type error");
    assert_eq!(err.category, ErrorCategory::TypeError);
    err.note.expect("expected a note")
}

fn field(usage: Usage, ty: Type) -> TupleField {
    TupleField { usage, ty }
}

#[test]
fn variables_must_be_bound() {
    rejected("1 + missing", "missing", 0, "unbound variable `missing`");
    rejected("(let ordinary x = 1 in x) + x", "x", 2, "unbound variable `x`");
}

#[test]
fn operands_must_be_ordinary_ints() {
    rejected(
        "() + 1",
        "()",
        0,
        "left operand of `+` must have type `ordinary int`, found `ordinary ()`",
    );
    rejected(
        "1 + (1, 2)",
        "(1, 2)",
        0,
        "right operand of `+` must have type `ordinary int`, found `ordinary (ordinary int, ordinary int)`",
    );
    rejected(
        "let linear t = (1, ()) in t + 1",
        "t",
        1,
        "left operand of `+` must have type `ordinary int`, found `linear (ordinary int, ordinary ())`",
    );
}

#[test]
fn the_first_part_of_a_sequence_is_discarded() {
    rejected(
        "let linear t = (1, 2) in t ; 5",
        "t",
        1,
        "the first expression in a sequence `e1 ; e2` must produce an `ordinary` value; this one produces `shared` and would escape its borrow scope (Phase 2 invariant)",
    );
    let hidden = Type::Tuple(vec![field(Usage::Linear, Type::Int), field(Usage::Linear, Type::Int)]);
    let env = env_of("t", Usage::Ordinary, hidden);
    assert_eq!(
        note_in(&env, "t.0 ; 5", None, ConsumeMode::Consume),
        "the first expression in a sequence `e1 ; e2` must produce an `ordinary` value; this one produces `linear` and would silently leak (Phase 0/1 invariant)",
    );
}

#[test]
fn what_the_left_of_a_sequence_consumed_is_gone() {
    let src = "let linear y = (1, 2) in (let (a, b) = y in a + b) ; (y.0 ; 5)";
    rejected_with(
        src,
        ("y", 2),
        "the right-hand side of `;` cannot borrow `y` because it was consumed by the left-hand side",
        ("y", 1),
        "`y` was consumed here",
    );
    let src = "let linear y = (1, 2) in (let (a, b) = y in a + b) ; let (c, d) = y in c + d";
    rejected_with(
        src,
        ("y", 2),
        "linear variable `y` is consumed twice",
        ("y", 1),
        "`y` previously consumed here",
    );
}

#[test]
fn the_first_conflict_in_the_order_of_names_is_reported() {
    let src = "let linear b = (1, 2) in let linear a = (3, 4) in \
               let linear t = (b, a) in let linear u = (b, a) in 5";
    let program = parse(src).expect("parse failed");
    let err = check_program(&program).expect_err("expected type error");
    assert_eq!(err.note.as_deref(), Some("linear binding `u` is not consumed in the body"));

    let src = "let linear b = (1, 2) in let linear a = (3, 4) in \
               let linear t = (b, a) in let (p, q) = (b, a) in let (r, s) = t in \
               let (c, d) = p in let (e, f) = q in let (g, h) = r in let (i, j) = s in c";
    let program = parse(src).expect("parse failed");
    let err = check_program(&program).expect_err("expected type error");
    assert_eq!(err.note.as_deref(), Some("linear variable `a` is consumed twice"));
    assert_eq!(err.span.start, src.rfind("a) in").unwrap());
    assert_eq!(err.related[0].span.start, src.find("(b, a)").unwrap() + 4);
}

#[test]
fn tuples_hold_what_they_may_hold() {
    rejected(
        "let linear y = (1, 2) in let ordinary t = (1, y) in 5",
        "y",
        1,
        "an ordinary tuple may only contain ordinary values; this component has usage `linear`",
    );
    rejected(
        "let linear y = (1, 2) in (1, y) ; 5",
        "y",
        1,
        "an ordinary tuple may only contain ordinary values; this component has usage `shared`",
    );
    let env = env_of("s", Usage::Shared, Type::Int);
    assert_eq!(
        note_in(&env, "(1, s)", Some(Usage::Linear), ConsumeMode::Consume),
        "a linear tuple may only contain linear or ordinary values; this component has usage `shared`",
    );
    assert_eq!(
        note_in(&Env::new(), "(1, 2)", Some(Usage::Shared), ConsumeMode::Borrow),
        "shared tuples are produced by borrowing, not by direct construction",
    );
}

#[test]
fn projections_need_a_tuple_with_that_field() {
    rejected(
        "let linear t = (1, 2) in t.0",
        "t",
        1,
        "cannot project from a `linear` tuple; project from a borrowed (shared) view instead",
    );
    rejected(
        "let ordinary x = 1 in x.12",
        "x",
        1,
        "cannot project field `.12` from non-tuple type `int`",
    );
    rejected(
        "(1, 2).2",
        "(1, 2).2",
        0,
        "tuple index 2 out of bounds (tuple has 2 fields)",
    );
    rejected("().0", "().0", 0, "tuple index 0 out of bounds (tuple has 0 fields)");
    let env = env_of(
        "t",
        Usage::Ordinary,
        Type::Tuple(vec![field(Usage::Ordinary, Type::Int)]),
    );
    assert_eq!(
        note_in(&env, "t.1", None, ConsumeMode::Consume),
        "tuple index 1 out of bounds (tuple has 1 field)",
    );
    let env = env_of("d", Usage::Ordinary, Type::Datatype { name: "List".to_string() });
    assert_eq!(
        note_in(&env, "d.0", None, ConsumeMode::Consume),
        "cannot project field `.0` from non-tuple type `List`",
    );
}

#[test]
fn deconstruction_needs_a_linear_tuple_that_fits() {
    rejected(
        "let ordinary t = (1, 2) in let (a, b) = t in a + b",
        "t",
        1,
        "deconstruction `let (...) = e in ...` requires a linear tuple, found `ordinary (ordinary int, ordinary int)`",
    );
    rejected(
        "let (a, b) = (1, 2, 3) in a + b",
        "(1, 2, 3)",
        0,
        "deconstruction pattern has 2 names but value is a tuple with 3 fields",
    );
    rejected(
        "let () = (1, 2) in 5",
        "(1, 2)",
        0,
        "deconstruction pattern has 0 names but value is a tuple with 2 fields",
    );
    let env = env_of("n", Usage::Linear, Type::Int);
    assert_eq!(
        note_in(&env, "let (a, b) = n in 5", None, ConsumeMode::Consume),
        "deconstruction requires a tuple type, found `int`",
    );
    let env = env_of("n", Usage::Linear, Type::Tuple(vec![field(Usage::Ordinary, Type::Int)]));
    assert_eq!(
        note_in(&env, "let () = n in 5", None, ConsumeMode::Consume),
        "deconstruction pattern has 0 names but value is a tuple with 1 field",
    );
}

#[test]
fn deconstruction_keeps_the_discipline() {
    rejected(
        "let linear y = (1, 2) in let (p, q) = (3, y) in p",
        "q",
        0,
        "linear field binding `q` is not consumed in the body",
    );
    let src = "let linear y = (1, 2) in let (p, q) = (3, y) in (y.0 ; let (a, b) = q in a)";
    rejected_with(
        src,
        ("y", 2),
        "the body of deconstruction cannot borrow `y`: the deconstruction's value already consumed it",
        ("y", 1),
        "`y` was consumed here",
    );
    let src = "let linear y = (1, 2) in let (p, q) = (y.0 ; (3, 4)) in let (a, b) = y in a";
    rejected_with(
        src,
        ("y", 2),
        "the body cannot consume `y`: it is borrowed by the deconstruction's value",
        ("y", 1),
        "`y` is borrowed here",
    );
}

#[test]
fn bindings_keep_their_annotation_and_the_discipline() {
    rejected(
        "let linear x = 1 in 2",
        "1",
        0,
        "let-binding annotated `linear` but value has usage `ordinary`",
    );
    rejected(
        "let linear t = (1, 2) in let ordinary u = t in 3",
        "t",
        1,
        "let-binding annotated `ordinary` but value has usage `linear`",
    );
    rejected(
        "let linear tup = (1, 2) in 5",
        "tup",
        0,
        "linear binding `tup` is not consumed in the body",
    );
    let src = "let linear y = (1, 2) in let linear z = (y, 3) in \
               (y.0 ; let (a, b) = z in let (c, d) = a in b)";
    rejected_with(
        src,
        ("y", 2),
        "the body of let cannot borrow `y`: the let's value already consumed it",
        ("y", 1),
        "`y` was consumed here",
    );
}

#[test]
fn a_shared_binding_keeps_what_it_borrows() {
    let src = "let linear y = (1, 2) in let linear s = y in let (a, b) = y in a + b";
    let mut program = parse(src).expect("parse failed");
    if let Expr::Let { body, .. } = &mut program.main_expr {
        if let Expr::Let { usage, .. } = &mut **body {
            *usage = Usage::Shared;
        }
    }
    let err = error_of(&program);
    assert_eq!(
        err.note.as_deref(),
        Some("cannot consume `y` while the shared binding `s` borrows it"),
    );
    assert_eq!(err.span, occurrence(src, "y", 2));
    assert_eq!(err.related.len(), 1);
    assert_eq!(err.related[0].span, occurrence(src, "y", 1));
    assert_eq!(err.related[0].label, "`y` is borrowed by `s` here");
}

#[test]
fn other_forms_are_not_supported() {
    let span = Span::new(3, 9);
    let call = Expr::MethodCall {
        name: "f".to_string(),
        name_span: Span::new(3, 4),
        args: Vec::new(),
        span,
    };
    let build = Expr::ConstructorApp {
        name: "Nil".to_string(),
        name_span: Span::new(3, 6),
        fields: Vec::new(),
        span,
    };
    let scrutinee = Box::new(Expr::IntLit { value: 1, span: Span::new(8, 9) });
    let choice = Expr::Match { scrutinee, arms: Vec::new(), span };
    for expr in [call, build, choice] {
        let program = Program { decls: Vec::new(), main_expr: expr, span };
        let err = error_of(&program);
        assert_eq!(
            err.note.as_deref(),
            Some("this expression form is not supported until a later phase"),
        );
        assert_eq!(err.span, span);
    }
}
