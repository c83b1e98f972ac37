//! The verdict on whole sources.

use mini_linear::error::ErrorCategory;
use mini_linear::report::report;

#[test]
fn a_well_typed_source_is_given_its_type() {
    assert_eq!(report("1 + 1", "a.lin"), Ok("well-typed: ordinary int".to_string()));
    assert_eq!(
        report("// a pair\n(1, ())\n", "a.lin"),
        Ok("well-typed: ordinary (ordinary int, ordinary ())".to_string()),
    );
    assert_eq!(
        report("let linear t = (1, 2) in t", "a.lin"),
        Ok("well-typed: linear (ordinary int, ordinary int)".to_string()),
    );
}

#[test]
fn a_parse_error_is_printed_with_its_place() {
    let expected = "\
error: parse error
  --> a.lin:1:5
   |
 1 | 1 + 
   |     ^
   |
   = note: expected expression
";
    assert_eq!(report("1 + ", "a.lin"), Err(expected.to_string()));
}

#[test]
fn both_places_of_a_conflict_are_printed() {
    let mut source = "// line\n".repeat(9);
    source.push_str("let linear t = (1, 2) in\nlet (a, b) = t in\nlet (c, d) = t in 1");
    let expected = "\
error: type error
   --> dir/b.lin:12:14
    |
 12 | let (c, d) = t in 1
    |              ^
    |
    = note: linear variable `t` is consumed twice
note: `t` previously consumed here
   --> dir/b.lin:11:14
    |
 11 | let (a, b) = t in
    |              ^
";
    assert_eq!(report(&source, "dir/b.lin"), Err(expected.to_string()));
}

#[test]
fn carets_stop_at_the_end_of_the_line() {
    let expected = "\
error: type error
  --> c.lin:1:5
   |
 1 | 1 + (1,
   |     ^^^
   |
   = note: right operand of `+` must have type `ordinary int`, found `ordinary (ordinary int, ordinary int)`
";
    assert_eq!(report("1 + (1,\n2)", "c.lin"), Err(expected.to_string()));
}

#[test]
fn a_rejection_names_its_category_first() {
    let parse_line = format!("error: {}\n", ErrorCategory::ParseError.as_str());
    let type_line = format!("error: {}\n", ErrorCategory::TypeError.as_str());
    assert_eq!(parse_line, "error: parse error\n");
    assert_eq!(type_line, "error: type error\n");
    for source in ["", "let", "(1,)", "1 +\n\n", "\u{1f600}"] {
        assert!(report(source, "d.lin").unwrap_err().starts_with(&parse_line));
    }
    for source in ["x", "1 + ()", "let linear x = () in 5"] {
        assert!(report(source, "d.lin").unwrap_err().starts_with(&type_line));
    }
}
