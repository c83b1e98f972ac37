//! The verdict on a source file.

use crate::diagnostics::{
    law_parse_errors_point_into_the_source, law_type_errors_point_into_the_source,
};
use crate::error::{block_text, category_text, error_text, format_error, ErrorCategory, ErrorView};
use crate::parser::parse;
use crate::reading::read_source;
use crate::typeck::{check_program, ConsumeMode};
use crate::typing::{check, typed_text};
use vstd::prelude::*;
use vstd::string::*;

verus! {

/// What is said of a source: its type if it is well-typed, or else the printed
/// diagnostic of the parse error or type error.
pub open spec fn verdict(src: Seq<u8>, file: Seq<char>) -> Result<Seq<char>, Seq<char>> {
    match read_source(src) {
        Err(e) => Err(error_text(e, src, file)),
        Ok((expr, _)) => match check(expr, Map::empty(), None, ConsumeMode::Consume) {
            Err(e) => Err(error_text(e, src, file)),
            Ok(c) => Ok("well-typed: "@ + typed_text(c.typed)),
        },
    }
}

/// Parse and type-check `source`, which was read from `file`.
pub fn report(source: &str, file: &str) -> (r: Result<String, String>)
    ensures
        match r {
            Ok(text) => verdict(source.spec_bytes(), file@) == Result::<Seq<char>, Seq<char>>::Ok(
                text@,
            ),
            Err(text) => verdict(source.spec_bytes(), file@) == Result::<Seq<char>, Seq<char>>::Err(
                text@,
            ),
        },
{
    let program = match parse(source) {
        Ok(program) => program,
        Err(err) => {
            return Err(format_error(&err, source, file));
        },
    };
    match check_program(&program) {
        Ok(typed) => {
            let mut text = "well-typed: ".to_owned();
            text.append(typed.to_string().as_str());
            Ok(text)
        },
        Err(err) => Err(format_error(&err, source, file)),
    }
}

/// The first line of a printed diagnostic names the category.
proof fn lemma_first_line(err: ErrorView, src: Seq<u8>, file: Seq<char>)
    ensures
        ("error: "@ + category_text(err.category) + "\n"@).is_prefix_of(
            error_text(err, src, file),
        ),
{
    let line = "error: "@ + category_text(err.category) + "\n"@;
    let block = block_text("error: "@ + category_text(err.category), err.span, src, file, err.note);
    assert(line =~= block.subrange(0, line.len() as int));
    assert(line =~= error_text(err, src, file).subrange(0, line.len() as int));
}

/// A source that is rejected is reported as a parse error if it does not parse,
/// and as a type error if it does.
pub proof fn law_a_rejection_names_its_category(src: Seq<u8>, file: Seq<char>)
    requires
        src.len() <= usize::MAX,
    ensures
        verdict(src, file) matches Err(text) ==> if read_source(src) is Err {
            ("error: "@ + category_text(ErrorCategory::ParseError) + "\n"@).is_prefix_of(text)
        } else {
            ("error: "@ + category_text(ErrorCategory::TypeError) + "\n"@).is_prefix_of(text)
        },
{
    law_parse_errors_point_into_the_source(src);
    law_type_errors_point_into_the_source(src);
    match read_source(src) {
        Err(e) => {
            lemma_first_line(e, src, file);
        },
        Ok((expr, _)) => {
            if let Err(e) = check(expr, Map::empty(), None, ConsumeMode::Consume) {
                lemma_first_line(e, src, file);
            }
        },
    }
}

} // verus!
