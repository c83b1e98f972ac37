//! The laws of the language on concrete programs.

use mini_linear::ast::{Expr, Span, TupleField, Type, Usage};
use mini_linear::names::NameMap;
use mini_linear::parser::parse;
use mini_linear::typeck::{
    check_expr, check_program, check_tuple_construction, find_borrow_consume_collision,
    find_consume_borrow_collision, merge_borrows_union, merge_consumes_disjoint,
    require_ordinary_int, Check, ConsumeMode, Env, Typed,
};

fn accepted(src: &str) -> bool {
    let program = parse(src).expect("parse failed");
    check_program(&program).is_ok()
}

/// What `src` yields where `y` is a linear pair and `n` an ordinary number.
fn found(src: &str, mode: ConsumeMode) -> Option<Check> {
    let mut env = Env::new();
    let pair = Type::Tuple(vec![
        TupleField { usage: Usage::Ordinary, ty: Type::Int },
        TupleField { usage: Usage::Ordinary, ty: Type::Int },
    ]);
    env.insert("y".to_string(), Typed { usage: Usage::Linear, ty: pair });
    env.insert("n".to_string(), Typed { usage: Usage::Ordinary, ty: Type::Int });
    let program = parse(src).expect("parse failed");
    check_expr(&program.main_expr, &env, None, mode).ok()
}

// -- Linear variables --

#[test]
fn a_linear_binding_is_consumed_exactly_once() {
    assert!(!accepted("let linear y = (1, 2) in 5"));
    assert!(accepted("let linear y = (1, 2) in let (a, b) = y in a"));
    assert!(!accepted(
        "let linear y = (1, 2) in let (a, b) = y in let (c, d) = y in a"
    ));
    assert!(!accepted("let linear y = (1, 2) in let linear z = (y, y) in 5"));
}

#[test]
fn a_linear_field_is_consumed_exactly_once() {
    assert!(accepted(
        "let linear y = (1, 2) in let (p, q) = (y, 3) in let (a, b) = p in q"
    ));
    assert!(!accepted("let linear y = (1, 2) in let (p, q) = (y, 3) in q"));
}

#[test]
fn a_linear_field_is_not_hidden_by_its_own_pattern() {
    let src = "let linear x = () in let linear y = () in let linear t = (x, y) in \
               let (a, a) = t in let () = a in 5";
    let err = check_program(&parse(src).expect("parse failed")).expect_err("accepted");
    assert_eq!(
        err.note.as_deref(),
        Some("linear field binding `a` is not consumed in the body"),
    );
    let first = src.find("(a, a)").unwrap() + 1;
    assert_eq!(err.span, Span::new(first, first + 1));
    assert!(!accepted(
        "let linear a = (1, 2) in let linear b = ((3, 4), 5) in \
         let (x, x) = (a, b) in let (p, q) = x in p.0 + q"
    ));
}

#[test]
fn a_name_that_is_bound_twice_has_its_last_field() {
    assert!(accepted("let (a, a) = (1, (2, 3)) in a.0 + a.1"));
    assert!(!accepted("let (a, a) = ((2, 3), 1) in a.0"));
    assert!(accepted(
        "let linear y = (1, 2) in let (x, x) = (3, y) in let (p, q) = x in p + q"
    ));
    assert!(!accepted("let linear y = (1, 2) in let (x, x) = (y, 3) in x"));
    assert!(!accepted("let linear y = (1, 2) in let (x, x) = (3, y) in 5"));
}

#[test]
fn only_linear_variables_are_on_record() {
    let check = found("n + n", ConsumeMode::Consume).expect("rejected");
    assert!(check.consumes.is_empty());
    assert!(check.borrows.is_empty());
    let check = found("let (a, b) = y in a + n", ConsumeMode::Consume).expect("rejected");
    assert_eq!(check.consumes.len(), 1);
    assert_eq!(check.consumes.get("y").copied(), Some(Span::new(13, 14)));
    assert!(check.borrows.is_empty());
    let check = found("y.0 + y.1", ConsumeMode::Borrow).expect("rejected");
    assert!(check.consumes.is_empty());
    assert_eq!(check.borrows.len(), 1);
    assert_eq!(check.borrows.get("y").copied(), Some(Span::new(0, 1)));
}

#[test]
fn a_borrow_is_resolved_by_a_later_consumption() {
    let check =
        found("y.0 ; let (a, b) = y in a", ConsumeMode::Consume).expect("rejected");
    assert!(check.consumes.contains_key("y"));
    assert!(check.borrows.is_empty());
    let check =
        found("let ordinary m = (y.0 ; 1) in let (a, b) = y in a", ConsumeMode::Consume)
            .expect("rejected");
    assert!(check.borrows.is_empty());
}

#[test]
fn nothing_is_used_after_it_was_consumed() {
    assert!(found("(let (a, b) = y in a) ; n", ConsumeMode::Consume).is_some());
    assert!(found("(let (a, b) = y in a) ; (y.0 ; n)", ConsumeMode::Consume).is_none());
    assert!(found("(let (a, b) = y in a) ; let (a, b) = y in a", ConsumeMode::Consume).is_none());
    assert!(found("let linear z = y in (y.0 ; let (a, b) = z in a)", ConsumeMode::Consume).is_none());
    assert!(found("let linear z = y in (n ; let (a, b) = z in a)", ConsumeMode::Consume).is_some());
}

#[test]
fn operands_of_a_sum_do_not_follow_each_other() {
    assert!(found("(let (a, b) = y in a) + (y.0 ; 5)", ConsumeMode::Consume).is_some());
    assert!(found("(let (a, b) = y in a) + (let (a, b) = y in a)", ConsumeMode::Consume).is_none());
}

#[test]
fn consuming_a_rebound_name_ends_its_borrow() {
    let rebinding = "let linear y = (y.0 ; (3, 4)) in let (c, d) = y in c + d";
    let check = found(rebinding, ConsumeMode::Consume).expect("rejected");
    assert!(check.consumes.is_empty());
    assert!(check.borrows.is_empty());
    let renamed = "let linear z = (y.0 ; (3, 4)) in let (c, d) = z in c + d";
    let check = found(renamed, ConsumeMode::Consume).expect("rejected");
    assert!(check.consumes.is_empty());
    assert_eq!(check.borrows.get("y").copied(), Some(Span::new(16, 17)));

    let program = |bound: &str| {
        format!(
            "let linear y = (1, 2) in let ordinary z = (let (a, b) = y in a) in \
             let linear {bound} = (y.0 ; (3, 4)) in let (c, d) = {bound} in c + z"
        )
    };
    assert!(accepted(&program("y")));
    assert!(!accepted(&program("w")));
}

#[test]
fn a_borrow_beside_a_rebinding_stays_on_the_record() {
    let src = "(y.1 + (let linear y = (y.0 ; (3, 4)) in let (c, d) = y in c)) ; n";
    let check = found(src, ConsumeMode::Consume).expect("rejected");
    assert_eq!(check.borrows.get("y").copied(), Some(Span::new(1, 2)));
    assert!(found(&format!("(let (a, b) = y in a) ; {src}"), ConsumeMode::Consume).is_none());
}

#[test]
fn variables_are_seen_in_their_body_only() {
    assert!(accepted("let ordinary x = 1 in x"));
    assert!(!accepted("let ordinary x = x in 1"));
    assert!(!accepted("(let ordinary x = 1 in x) + x"));
    assert!(!accepted("(let (a, b) = (1, 2) in a) + b"));
}

#[test]
fn an_unused_variable_does_not_matter() {
    for src in ["1 + 2", "let linear t = (1, 2) in let (a, b) = t in a", "(1, 2).5", "q", "() + 1"] {
        let program = parse(src).expect("parse failed");
        let alone = check_expr(&program.main_expr, &Env::new(), None, ConsumeMode::Consume);
        for usage in [Usage::Linear, Usage::Shared, Usage::Ordinary] {
            let mut env = Env::new();
            env.insert("t".to_string(), Typed { usage, ty: Type::Int });
            env.insert("unused".to_string(), Typed { usage, ty: Type::Int });
            let beside = check_expr(&program.main_expr, &env, None, ConsumeMode::Consume);
            match (&alone, beside) {
                (Ok(a), Ok(b)) => {
                    assert_eq!(a.typed, b.typed);
                    assert!(b.consumes.is_empty() && b.borrows.is_empty());
                }
                (Err(a), Err(b)) => assert_eq!(*a, b),
                _ => panic!("verdicts differ on {src}"),
            }
        }
    }
}

#[test]
fn recorded_uses_are_where_the_variable_stands() {
    let src = "(y.0 + n ; y.1) + (let ordinary y = 3 in y)";
    let check = found(src, ConsumeMode::Borrow).expect("rejected");
    let span = check.borrows.get("y").copied().unwrap();
    assert_eq!(span, Span::new(1, 2));
    assert_eq!(&src[span.start..span.end], "y");
    let src = "n ; let linear z = y in let (a, b) = z in a";
    let check = found(src, ConsumeMode::Consume).expect("rejected");
    let span = check.consumes.get("y").copied().unwrap();
    assert_eq!(span, Span::new(19, 20));
    assert_eq!(&src[span.start..span.end], "y");
}

#[test]
fn no_program_has_a_shared_value() {
    for (src, expected) in [
        ("1 ; 2", "ordinary int"),
        ("(1, (2, 3)).1", "ordinary (ordinary int, ordinary int)"),
        ("let linear t = () in let linear u = t in u", "linear ()"),
        ("let linear t = (1, 2) in (t.0 ; t)", "linear (ordinary int, ordinary int)"),
    ] {
        let typed = check_program(&parse(src).expect("parse failed")).expect("rejected");
        assert_eq!(typed.to_string(), expected);
        assert_ne!(typed.usage, Usage::Shared);
    }
}

// -- Types --

#[test]
fn borrowing_yields_no_linear_value() {
    let check = found("y", ConsumeMode::Borrow).expect("rejected");
    assert_eq!(check.typed.usage, Usage::Shared);
    assert_eq!(check.typed.to_string(), "shared (ordinary int, ordinary int)");
    let check = found("y.0", ConsumeMode::Borrow).expect("rejected");
    assert_eq!(check.typed.to_string(), "ordinary int");
    assert!(found("y.0", ConsumeMode::Consume).is_none());
}

#[test]
fn a_field_of_a_shared_view_is_shared() {
    let nested = Type::Tuple(vec![TupleField {
        usage: Usage::Linear,
        ty: Type::Tuple(Vec::new()),
    }]);
    let mut env = Env::new();
    env.insert("z".to_string(), Typed { usage: Usage::Linear, ty: nested });
    let program = parse("z.0").expect("parse failed");
    let check = check_expr(&program.main_expr, &env, None, ConsumeMode::Borrow).unwrap();
    assert_eq!(check.typed.to_string(), "shared ()");
    assert!(check.borrows.contains_key("z"));
}

#[test]
fn mode_does_not_matter_to_ordinary_tuples() {
    for (src, expected) in [
        ("(n, 1)", true),
        ("(n, y)", false),
        ("(y, y)", false),
        ("(n + n, 1)", true),
        ("(n + y, 1)", false),
        ("((n, 1), 2)", true),
        ("((n, y), 2)", false),
        ("(let ordinary m = n in m + 1, 2)", true),
        ("(let (a, b) = y in a + b, 2)", true),
        ("(let linear z = y in (let (a, b) = z in a), 2)", true),
        ("(let linear z = y in n, 2)", false),
        ("(n ; 1, 2)", true),
        ("(y ; 1, 2)", false),
    ] {
        let consumed = found(src, ConsumeMode::Consume);
        let borrowed = found(src, ConsumeMode::Borrow);
        assert_eq!(consumed.is_some(), borrowed.is_some(), "{src}");
        assert_eq!(consumed.is_some(), expected, "{src}");
    }
    // A projection in a component is the one thing that the mode decides.
    assert!(found("(y.0, 1)", ConsumeMode::Consume).is_none());
    assert!(found("(y.0, 1)", ConsumeMode::Borrow).is_some());
}

#[test]
fn an_expected_linear_tuple_holds_linear_values() {
    let elems = vec![
        Expr::Var { name: "t".to_string(), span: Span::new(1, 2) },
        Expr::IntLit { value: 1, span: Span::new(4, 5) },
    ];
    let mut env = Env::new();
    env.insert("t".to_string(), Typed { usage: Usage::Linear, ty: Type::Int });
    let span = Span::new(0, 6);
    let linear = Some(Usage::Linear);
    let check =
        check_tuple_construction(&elems, &env, linear, span, ConsumeMode::Consume).unwrap();
    assert_eq!(check.typed.to_string(), "linear (linear int, ordinary int)");
    assert_eq!(check.consumes.get("t").copied(), Some(Span::new(1, 2)));
    assert!(check_tuple_construction(&elems, &env, None, span, ConsumeMode::Consume).is_err());
}

#[test]
fn operands_are_held_to_ordinary_int() {
    let int = Typed { usage: Usage::Ordinary, ty: Type::Int };
    let linear = Typed { usage: Usage::Linear, ty: Type::Int };
    assert!(require_ordinary_int(&int, Span::new(0, 1), "it").is_ok());
    let err = require_ordinary_int(&linear, Span::new(2, 5), "it").unwrap_err();
    assert_eq!(err.span, Span::new(2, 5));
    assert_eq!(
        err.note.as_deref(),
        Some("it must have type `ordinary int`, found `linear int`"),
    );
}

// -- Merging --

fn uses(entries: &[(&str, usize)]) -> NameMap<Span> {
    let mut map = NameMap::new();
    for (name, at) in entries {
        map.insert(name.to_string(), Span::new(*at, *at + 1));
    }
    map
}

#[test]
fn merging_consumes_keeps_every_use() {
    let merged = merge_consumes_disjoint(uses(&[("a", 1)]), uses(&[("b", 2)])).unwrap();
    assert_eq!(merged.len(), 2);
    assert_eq!(merged.get("a").copied(), Some(Span::new(1, 2)));
    assert_eq!(merged.get("b").copied(), Some(Span::new(2, 3)));
    let err =
        merge_consumes_disjoint(uses(&[("c", 1), ("b", 2)]), uses(&[("c", 3), ("b", 4)]))
            .unwrap_err();
    assert_eq!(err.note.as_deref(), Some("linear variable `b` is consumed twice"));
    assert_eq!(err.span, Span::new(4, 5));
    assert_eq!(err.related[0].span, Span::new(2, 3));
}

#[test]
fn merging_borrows_never_fails() {
    let merged = merge_borrows_union(uses(&[("a", 1), ("b", 2)]), uses(&[("b", 3), ("c", 4)]));
    assert_eq!(merged.len(), 3);
    assert_eq!(merged.get("b").copied(), Some(Span::new(2, 3)));
    assert_eq!(merged.get("c").copied(), Some(Span::new(4, 5)));
}

#[test]
fn collisions_are_found() {
    let a = uses(&[("x", 1), ("y", 2)]);
    let b = uses(&[("y", 3), ("z", 4)]);
    assert_eq!(
        find_consume_borrow_collision(&a, &b),
        Some(("y".to_string(), Span::new(3, 4), Span::new(2, 3))),
    );
    assert_eq!(
        find_borrow_consume_collision(&a, &b),
        Some(("y".to_string(), Span::new(3, 4), Span::new(2, 3))),
    );
    assert_eq!(find_consume_borrow_collision(&a, &uses(&[("z", 5)])), None);
}

// -- Parsing --

#[test]
fn spans_are_nested_and_in_order() {
    let src = " let ordinary abc = (1 , 2) . 0 in ( abc ) + 3 ; ()";
    let program = parse(src).expect("parse failed");
    assert_eq!(program.span, Span::new(1, src.len()));
    assert!(program.decls.is_empty());
    let Expr::Let { name_span, value, body, span, .. } = program.main_expr else {
        panic!("expected Let");
    };
    assert_eq!(span, Span::new(1, src.len()));
    assert_eq!(&src[name_span.start..name_span.end], "abc");
    assert_eq!(&src[value.span().start..value.span().end], "(1 , 2) . 0");
    let Expr::Sequence { first, second, span } = *body else {
        panic!("expected Sequence");
    };
    // Grouping leaves no trace, so the sequence begins inside the parentheses.
    assert_eq!(&src[span.start..span.end], "abc ) + 3 ; ()");
    assert_eq!(&src[first.span().start..first.span().end], "abc ) + 3");
    assert_eq!(&src[second.span().start..second.span().end], "()");
}

#[test]
fn trivia_does_not_change_what_is_read() {
    let tight = parse("let linear t=(1,2)in let(a,b)=t in a+b;t.0").expect("parse failed");
    let loose = parse(
        "let linear t = ( 1 , 2 ) // a pair\n in\tlet ( a , b ) = t in a + b ; t . 0\r\n",
    )
    .expect("parse failed");
    assert_eq!(shape(&tight.main_expr), shape(&loose.main_expr));
    assert_eq!(shape(&tight.main_expr), "let t=(1,2) in let(a,b)=t in ((a+b);t.0)");
}

/// The expression, fully parenthesised.
fn shape(expr: &Expr) -> String {
    match expr {
        Expr::IntLit { value, .. } => value.to_string(),
        Expr::Var { name, .. } => name.clone(),
        Expr::Add { lhs, rhs, .. } => format!("({}+{})", shape(lhs), shape(rhs)),
        Expr::Sequence { first, second, .. } => format!("({};{})", shape(first), shape(second)),
        Expr::Let { name, value, body, .. } => {
            format!("let {name}={} in {}", shape(value), shape(body))
        }
        Expr::Tuple { elems, .. } => {
            let parts: Vec<String> = elems.iter().map(shape).collect();
            format!("({})", parts.join(","))
        }
        Expr::TupleProj { tuple, index, .. } => format!("{}.{index}", shape(tuple)),
        Expr::TupleDestructure { names, value, body, .. } => {
            let parts: Vec<String> = names.iter().map(|(name, _)| name.clone()).collect();
            format!("let({})={} in {}", parts.join(","), shape(value), shape(body))
        }
        other => panic!("unexpected {other:?}"),
    }
}

#[test]
fn operators_group_as_the_grammar_says() {
    for (src, expected) in [
        ("1 + 2 + 3", "((1+2)+3)"),
        ("1 + (2 + 3)", "(1+(2+3))"),
        ("1 ; 2 ; 3", "((1;2);3)"),
        ("1 + 2 ; 3 + t.0.1", "((1+2);(3+t.0.1))"),
        ("1 ; let linear x = 2 in x ; 3", "(1;let x=2 in (x;3))"),
        ("(1 ; let linear x = 2 in x) ; 3", "((1;let x=2 in x);3)"),
        ("let ordinary x = 1 ; 2 in x", "let x=(1;2) in x"),
        ("(1, 2 ; 3).1", "(1,(2;3)).1"),
    ] {
        assert_eq!(shape(&parse(src).expect("parse failed").main_expr), expected);
    }
    assert!(parse("1 + let ordinary x = 2 in x").is_err());
}
