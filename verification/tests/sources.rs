//! What the parser makes of sources that are made of sources.

use mini_linear::ast::{Expr, Program, Span, Usage};
use mini_linear::parser::parse;
use mini_linear::typeck::check_program;

fn read(src: &str) -> Program {
    parse(src).expect("parse failed")
}

fn at(span: Span, d: usize) -> String {
    format!("@{}..{}", span.start + d, span.end + d)
}

/// The expression with all its spans `d` bytes further on.
fn moved(expr: &Expr, d: usize) -> String {
    let shape = match expr {
        Expr::IntLit { value, .. } => value.to_string(),
        Expr::Var { name, .. } => name.clone(),
        Expr::Add { lhs, rhs, .. } => format!("({} + {})", moved(lhs, d), moved(rhs, d)),
        Expr::Sequence { first, second, .. } => {
            format!("({} ; {})", moved(first, d), moved(second, d))
        }
        Expr::Let { usage, name, name_span, value, body, .. } => format!(
            "(let {} {name}{} = {} in {})",
            usage.as_str(),
            at(*name_span, d),
            moved(value, d),
            moved(body, d),
        ),
        Expr::Tuple { elems, .. } => {
            let parts: Vec<String> = elems.iter().map(|e| moved(e, d)).collect();
            format!("({})", parts.join(", "))
        }
        Expr::TupleProj { tuple, index, .. } => format!("{}.{index}", moved(tuple, d)),
        Expr::TupleDestructure { names, value, body, .. } => {
            let parts: Vec<String> =
                names.iter().map(|(name, span)| format!("{name}{}", at(*span, d))).collect();
            format!("(let ({}) = {} in {})", parts.join(", "), moved(value, d), moved(body, d))
        }
        other => panic!("unexpected {other:?}"),
    };
    format!("{shape}{}", at(expr.span(), d))
}

const SOURCES: [&str; 6] = [
    "1",
    " abc ",
    "(1 , -2).0 + x",
    "let ordinary x = 1 in x + x",
    "let linear t = (a, b) in let (p, q) = t in p ; q",
    "1 ; 2 ; ()",
];

#[test]
fn leading_trivia_only_moves_spans() {
    for before in [" ", "\n\t", "// a comment\n", "  // one\r\n// two\n "] {
        let d = before.len();
        for src in SOURCES {
            let plain = read(src);
            let later = read(&format!("{before}{src}"));
            assert_eq!(moved(&later.main_expr, 0), moved(&plain.main_expr, d));
            assert_eq!(later.span, Span::new(plain.span.start + d, plain.span.end + d));
        }
        for src in ["", "1 +", "let x = 1 in x", "(1, 2", "99999999999999999999", "1 2"] {
            let plain = parse(src).expect_err("parsed");
            let later = parse(&format!("{before}{src}")).expect_err("parsed");
            assert_eq!(later.note, plain.note);
            assert_eq!(later.span, Span::new(plain.span.start + d, plain.span.end + d));
            assert_eq!(later.related.len(), plain.related.len());
        }
    }
}

#[test]
fn grouping_leaves_no_trace() {
    for src in SOURCES {
        let plain = read(src);
        let grouped = read(&format!("({src})"));
        assert_eq!(moved(&grouped.main_expr, 0), moved(&plain.main_expr, 1));
        assert_eq!(grouped.span, Span::new(0, src.len() + 2));
    }
    // A comment would take the closing parenthesis with it.
    assert!(parse("(1 // one)").is_err());
}

#[test]
fn a_let_binds_whole_sources() {
    for (usage, word) in [(Usage::Ordinary, "ordinary"), (Usage::Linear, "linear")] {
        for a in SOURCES {
            for b in SOURCES {
                let head = format!("let {word} name = ");
                let src = format!("{head}{a} in {b}");
                let value = read(a).main_expr;
                let body = read(b).main_expr;
                let d = head.len() + a.len() + 4;
                let whole = read(&src);
                assert_eq!(whole.span, Span::new(0, src.len()));
                let Expr::Let { usage: found, name, name_span, value: v, body: e, span } =
                    whole.main_expr
                else {
                    panic!("expected Let");
                };
                assert_eq!(found, usage);
                assert_eq!(name, "name");
                assert_eq!(name_span, Span::new(word.len() + 5, word.len() + 9));
                assert_eq!(moved(&v, 0), moved(&value, head.len()));
                assert_eq!(moved(&e, 0), moved(&body, d));
                assert_eq!(span, Span::new(0, body.span().end + d));
            }
        }
    }
}

#[test]
fn a_semicolon_joins_sources() {
    for a in ["1", " x", "1 + 2 ", "1 ; 2", "(1, 2).0"] {
        for b in ["3", "x + 4", "let ordinary x = 1 in x ; 2", "(5) // five"] {
            let src = format!("{a} ; {b}");
            let first = read(a).main_expr;
            let second = read(b).main_expr;
            let d = a.len() + 3;
            let whole = read(&src);
            assert_eq!(whole.span.end, src.len());
            let Expr::Sequence { first: f, second: s, span } = whole.main_expr else {
                panic!("expected Sequence");
            };
            assert_eq!(moved(&f, 0), moved(&first, 0));
            assert_eq!(moved(&s, 0), moved(&second, d));
            assert_eq!(span, Span::new(first.span().start, second.span().end + d));
        }
    }
    // A `let` takes what follows into its body.
    assert!(matches!(read("let ordinary x = 1 in x ; 2").main_expr, Expr::Let { .. }));
}

#[test]
fn a_plus_joins_sources() {
    for a in ["1", " x", "1 + 2 ", "(1, 2).0"] {
        for b in ["3", "x.0.1", "(1, -2)", "(5) // five"] {
            let src = format!("{a} + {b}");
            let left = read(a).main_expr;
            let right = read(b).main_expr;
            let d = a.len() + 3;
            let Expr::Add { lhs, rhs, span } = read(&src).main_expr else {
                panic!("expected Add");
            };
            assert_eq!(moved(&lhs, 0), moved(&left, 0));
            assert_eq!(moved(&rhs, 0), moved(&right, d));
            assert_eq!(span, Span::new(left.span().start, right.span().end + d));
        }
    }
}

/// Every name and number in `expr`, with its place.
fn leaves(expr: &Expr, out: &mut Vec<(String, Span)>) {
    match expr {
        Expr::IntLit { value, span } => out.push((value.to_string(), *span)),
        Expr::Var { name, span } => out.push((name.clone(), *span)),
        Expr::Add { lhs, rhs, .. } => {
            leaves(lhs, out);
            leaves(rhs, out);
        }
        Expr::Sequence { first, second, .. } => {
            leaves(first, out);
            leaves(second, out);
        }
        Expr::Let { name, name_span, value, body, .. } => {
            out.push((name.clone(), *name_span));
            leaves(value, out);
            leaves(body, out);
        }
        Expr::Tuple { elems, .. } => {
            for elem in elems {
                leaves(elem, out);
            }
        }
        Expr::TupleProj { tuple, .. } => leaves(tuple, out),
        Expr::TupleDestructure { names, value, body, .. } => {
            out.extend(names.iter().cloned());
            leaves(value, out);
            leaves(body, out);
        }
        other => panic!("unexpected {other:?}"),
    }
}

#[test]
fn names_and_numbers_are_those_of_the_source() {
    let src = "let linear pair = (-12, n_1) in let (_a, b2) = pair in _a + 305 ; b2.0";
    let mut found = Vec::new();
    leaves(&read(src).main_expr, &mut found);
    let texts: Vec<&str> = found.iter().map(|(_, span)| &src[span.start..span.end]).collect();
    assert_eq!(texts, ["pair", "-12", "n_1", "_a", "b2", "pair", "_a", "305", "b2"]);
    for (text, span) in &found {
        assert_eq!(text, &src[span.start..span.end]);
    }
}

#[test]
fn type_errors_point_into_the_program() {
    for src in [
        "  x + 1 ",
        " let linear y = (1, 2) in 5 // rest",
        "let linear y = (1, 2) in let (a, b) = y in let (c, d) = y in a",
        "(let linear y = (1, 2) in let (a, b) = y in (y.0 ; a)) ",
        "(1, 2).7",
        "let (a, b, c) = (1, 2) in a",
        "() + 1",
    ] {
        let program = read(src);
        let err = check_program(&program).expect_err("accepted");
        assert!(err.related.len() <= 1);
        for span in err.related.iter().map(|r| r.span).chain([err.span]) {
            assert!(program.span.start <= span.start, "{src}");
            assert!(span.start < span.end, "{src}");
            assert!(span.end <= program.span.end, "{src}");
        }
    }
}
