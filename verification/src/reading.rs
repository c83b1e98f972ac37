//! What the parser returns for every source text.
//!
//! Each function here says what stands at a position of the source when it is
//! read as one form of the grammar: the expression and the position where it
//! ends, or the error that is reported. The grammar is
//!
//! ```text
//! program    ::= expr
//! expr       ::= seq_expr
//! seq_expr   ::= seq_atom (';' seq_atom)*
//! seq_atom   ::= 'let' usage ident '=' expr 'in' expr
//!              | 'let' '(' (ident (',' ident)+)? ')' '=' expr 'in' expr
//!              | add_expr
//! add_expr   ::= postfix ('+' postfix)*
//! postfix    ::= atom ('.' nonneg_int)*
//! atom       ::= int_literal
//!              | ident
//!              | '(' paren_body ')'
//! paren_body ::= /* empty */                  // empty tuple
//!              | expr                          // grouping (no comma)
//!              | expr (',' expr)+              // tuple with two or more elements
//! usage      ::= 'ordinary' | 'linear'
//! ```
//!
//! Precedence (high to low): tuple projection `e.i`, addition `+`, sequencing
//! `;`, then `let`, which extends as far right as possible because its body is
//! an `expr`. Both `+` and `;` are left-associative.

use crate::ast::{joined, span_of, ExprView, Span, Usage};
use crate::error::{plain_error, ErrorCategory, ErrorView};
use crate::lexical::{
    at_token, byte_at, digit_at, digits_end, digits_value, int_at, int_end, int_value,
    is_reserved_word, keyword_at, lemma_digits_end, lemma_skip, lemma_word, skip, word, word_at,
    word_end, COMMA, DOT, EQUALS, LPAREN, PLUS, RPAREN, SEMICOLON,
};
use crate::text::ascii_text;
use vstd::prelude::*;

verus! {

/// What reading yields: a value and the position after it, or an error.
pub type Reading<T> = Result<(T, int), ErrorView>;

/// A parse error that covers `start..end`.
pub open spec fn error_over(start: int, end: int, note: Seq<char>) -> ErrorView {
    plain_error(ErrorCategory::ParseError, span_of(start, end), note)
}

/// A parse error at the byte at `i`, or at the end of the source.
pub open spec fn error_here(src: Seq<u8>, i: int, note: Seq<char>) -> ErrorView {
    error_over(
        i,
        if i < src.len() {
            i + 1
        } else {
            i
        },
        note,
    )
}

/// `j` is a position of the source after `i`. Whatever is read ends after the
/// place where it begins, so this always holds of what reading yields.
pub open spec fn advances(src: Seq<u8>, i: int, j: int) -> bool {
    i < j <= src.len()
}

/// The result where reading made no progress; no source leads to it.
pub open spec fn stuck<T>() -> Reading<T> {
    arbitrary()
}

// -----------------------------------------------------------------------------
// Forms without parts
// -----------------------------------------------------------------------------

/// A name that a `let` binds, and its span.
pub open spec fn read_binder(src: Seq<u8>, i: int) -> Reading<(Seq<char>, Span)> {
    if !word_at(src, i) {
        Err(error_here(src, i, "expected identifier"@))
    } else if is_reserved_word(word(src, i)) {
        Err(
            error_over(
                i,
                word_end(src, i),
                "`"@ + word(src, i) + "` is a reserved keyword and cannot be used as a binder"@,
            ),
        )
    } else {
        Ok(((word(src, i), span_of(i, word_end(src, i))), word_end(src, i)))
    }
}

/// An integer literal.
pub open spec fn read_int(src: Seq<u8>, i: int) -> Reading<ExprView> {
    let end = int_end(src, i);
    if i64::MIN <= int_value(src, i) <= i64::MAX {
        Ok((ExprView::IntLit { value: int_value(src, i) as i64, span: span_of(i, end) }, end))
    } else {
        Err(
            error_over(
                i,
                end,
                "integer literal `"@ + ascii_text(src.subrange(i, end))
                    + "` does not fit in i64"@,
            ),
        )
    }
}

/// A variable reference.
pub open spec fn read_var(src: Seq<u8>, i: int) -> Reading<ExprView> {
    let end = word_end(src, i);
    if is_reserved_word(word(src, i)) {
        Err(
            error_over(
                i,
                end,
                "`"@ + word(src, i) + "` is a reserved keyword and cannot appear here"@,
            ),
        )
    } else {
        Ok((ExprView::Var { name: word(src, i), span: span_of(i, end) }, end))
    }
}

/// The index of a projection.
pub open spec fn read_index(src: Seq<u8>, i: int) -> Reading<usize> {
    let end = digits_end(src, i);
    let digits = src.subrange(i, end);
    if !digit_at(src, i) {
        Err(error_here(src, i, "expected non-negative integer index"@))
    } else if digits_value(digits) <= usize::MAX {
        Ok((digits_value(digits) as usize, end))
    } else {
        Err(
            error_over(
                i,
                end,
                "tuple index `"@ + ascii_text(digits) + "` does not fit in usize"@,
            ),
        )
    }
}

/// The usage keyword of a `let`.
pub open spec fn read_usage(src: Seq<u8>, i: int) -> Reading<Usage> {
    if keyword_at(src, i, "ordinary"@) {
        Ok((Usage::Ordinary, word_end(src, i)))
    } else if keyword_at(src, i, "linear"@) {
        Ok((Usage::Linear, word_end(src, i)))
    } else if keyword_at(src, i, "shared"@) {
        Err(
            error_over(
                i,
                word_end(src, i),
                "`shared` will be supported in Phase 2 alongside borrowing"@,
            ),
        )
    } else if word_at(src, i) {
        Err(
            error_over(
                i,
                word_end(src, i),
                "expected `ordinary`, `linear`, or `(` after `let`, found `"@ + word(src, i) + "`"@,
            ),
        )
    } else {
        Err(error_here(src, i, "expected `ordinary`, `linear`, or `(` after `let`"@))
    }
}

/// The further names of a deconstruction pattern, after `names`.
pub open spec fn read_more_names(
    src: Seq<u8>,
    names: Seq<(Seq<char>, Span)>,
    i: int,
) -> Reading<Seq<(Seq<char>, Span)>>
    decreases src.len() - i,
{
    let comma = skip(src, i);
    let next = skip(src, comma + 1);
    if !byte_at(src, comma, COMMA) {
        Ok((names, comma))
    } else if byte_at(src, next, RPAREN) {
        Err(
            error_here(
                src,
                next,
                "trailing commas in deconstruction patterns are not supported"@,
            ),
        )
    } else {
        proof {
            lemma_after(src, i, COMMA);
            lemma_read_binder(src, next);
        }
        match read_binder(src, next) {
            Err(e) => Err(e),
            Ok((binder, end)) => read_more_names(src, names.push(binder), end),
        }
    }
}

/// The names of the deconstruction pattern whose `(` stands at `i`, and the
/// place where its `)` should stand.
pub open spec fn read_names(src: Seq<u8>, i: int) -> Reading<Seq<(Seq<char>, Span)>> {
    let first = skip(src, i + 1);
    if byte_at(src, first, RPAREN) {
        Ok((Seq::empty(), first))
    } else {
        match read_binder(src, first) {
            Err(e) => Err(e),
            Ok((binder, end)) => read_more_names(src, seq![binder], end),
        }
    }
}

/// The deconstruction pattern whose `(` stands at `i`.
pub open spec fn read_pattern(src: Seq<u8>, i: int) -> Reading<Seq<(Seq<char>, Span)>> {
    match read_names(src, i) {
        Err(e) => Err(e),
        Ok((names, close)) => if !byte_at(src, close, RPAREN) {
            Err(error_here(src, close, "expected `)` to close deconstruction pattern"@))
        } else if names.len() == 1 {
            Err(
                plain_error(
                    ErrorCategory::ParseError,
                    names[0].1,
                    "1-element deconstruction patterns are not supported (no 1-tuples in the language)"@,
                ),
            )
        } else {
            Ok((names, close + 1))
        },
    }
}

/// `('.' nonneg_int)*` after `tuple`, grouped to the left.
pub open spec fn read_more_proj(src: Seq<u8>, tuple: ExprView, i: int) -> Reading<ExprView>
    decreases src.len() - i,
{
    let dot = skip(src, i);
    let next = skip(src, dot + 1);
    if !byte_at(src, dot, DOT) {
        Ok((tuple, dot))
    } else {
        proof {
            lemma_after(src, i, DOT);
            lemma_read_index(src, next);
        }
        match read_index(src, next) {
            Err(e) => Err(e),
            Ok((index, end)) => read_more_proj(
                src,
                ExprView::TupleProj {
                    tuple: Box::new(tuple),
                    index,
                    span: joined(tuple.span(), span_of(next, end)),
                },
                end,
            ),
        }
    }
}

/// The token that stands after the trivia at `i` lies in the source, and so does
/// what follows it.
pub proof fn lemma_after(src: Seq<u8>, i: int, b: u8)
    requires
        byte_at(src, skip(src, i), b),
    ensures
        0 <= i <= skip(src, i) < skip(src, skip(src, i) + 1) <= src.len(),
        at_token(src, skip(src, i)),
        at_token(src, skip(src, skip(src, i) + 1)),
{
    if 0 <= i <= src.len() {
        lemma_skip(src, i);
    }
    lemma_skip(src, skip(src, i) + 1);
}

pub proof fn lemma_read_binder(src: Seq<u8>, i: int)
    ensures
        read_binder(src, i) matches Ok((_, end)) ==> advances(src, i, end),
{
    if word_at(src, i) {
        lemma_word(src, i);
    }
}

pub proof fn lemma_read_usage(src: Seq<u8>, i: int)
    ensures
        read_usage(src, i) matches Ok((_, end)) ==> advances(src, i, end),
{
    if word_at(src, i) {
        lemma_word(src, i);
    }
}

pub proof fn lemma_read_index(src: Seq<u8>, i: int)
    ensures
        read_index(src, i) matches Ok((_, end)) ==> advances(src, i, end),
{
    if digit_at(src, i) {
        lemma_digits_end(src, i);
    }
}

pub proof fn lemma_read_more_names(src: Seq<u8>, names: Seq<(Seq<char>, Span)>, i: int)
    requires
        0 <= i <= src.len(),
    ensures
        read_more_names(src, names, i) matches Ok((_, end)) ==> i <= end <= src.len(),
    decreases src.len() - i,
{
    lemma_skip(src, i);
    let comma = skip(src, i);
    let next = skip(src, comma + 1);
    if byte_at(src, comma, COMMA) && !byte_at(src, next, RPAREN) {
        lemma_after(src, i, COMMA);
        lemma_read_binder(src, next);
        if let Ok((binder, end)) = read_binder(src, next) {
            lemma_read_more_names(src, names.push(binder), end);
        }
    }
}

pub proof fn lemma_read_pattern(src: Seq<u8>, i: int)
    requires
        0 <= i < src.len(),
    ensures
        read_names(src, i) matches Ok((_, end)) ==> advances(src, i, end),
        read_pattern(src, i) matches Ok((_, end)) ==> advances(src, i, end),
{
    lemma_skip(src, i + 1);
    let first = skip(src, i + 1);
    if !byte_at(src, first, RPAREN) {
        lemma_read_binder(src, first);
        if let Ok((binder, end)) = read_binder(src, first) {
            lemma_read_more_names(src, seq![binder], end);
        }
    }
}

// -----------------------------------------------------------------------------
// Forms with parts
// -----------------------------------------------------------------------------

/// `expr`, that is `seq_atom (';' seq_atom)*`.
pub open spec fn read_expr(src: Seq<u8>, i: int) -> Reading<ExprView>
    decreases src.len() - i, 6nat,
{
    match read_seq_atom(src, i) {
        Err(e) => Err(e),
        Ok((first, end)) => if advances(src, i, end) {
            read_more_seq(src, first, end)
        } else {
            stuck()
        },
    }
}

/// `(';' seq_atom)*` after `lhs`, grouped to the left.
pub open spec fn read_more_seq(src: Seq<u8>, lhs: ExprView, i: int) -> Reading<ExprView>
    decreases src.len() - i, 7nat,
{
    let semicolon = skip(src, i);
    let next = skip(src, semicolon + 1);
    if !byte_at(src, semicolon, SEMICOLON) {
        Ok((lhs, semicolon))
    } else {
        proof {
            lemma_after(src, i, SEMICOLON);
        }
        match read_seq_atom(src, next) {
            Err(e) => Err(e),
            Ok((rhs, end)) => if advances(src, next, end) {
                read_more_seq(
                    src,
                    ExprView::Sequence {
                        first: Box::new(lhs),
                        second: Box::new(rhs),
                        span: joined(lhs.span(), rhs.span()),
                    },
                    end,
                )
            } else {
                stuck()
            },
        }
    }
}

/// `seq_atom`: a `let` form or an `add_expr`.
pub open spec fn read_seq_atom(src: Seq<u8>, i: int) -> Reading<ExprView>
    decreases src.len() - i, 5nat,
{
    if keyword_at(src, i, "let"@) {
        read_let(src, i)
    } else {
        read_add(src, i)
    }
}

/// The `let` form whose keyword stands at `i`.
pub open spec fn read_let(src: Seq<u8>, i: int) -> Reading<ExprView>
    decreases src.len() - i, 4nat,
    when keyword_at(src, i, "let"@)
{
    let let_span = span_of(i, word_end(src, i));
    let next = skip(src, word_end(src, i));
    proof {
        lemma_word(src, i);
        lemma_skip(src, word_end(src, i));
    }
    if byte_at(src, next, LPAREN) {
        proof {
            lemma_read_pattern(src, next);
        }
        match read_pattern(src, next) {
            Err(e) => Err(e),
            Ok((names, end)) => {
                proof {
                    lemma_skip(src, end);
                }
                match read_binding(
                    src,
                    skip(src, end),
                    "expected `=` after deconstruction pattern"@,
                    "expected `in` after deconstruction value"@,
                ) {
                    Err(e) => Err(e),
                    Ok(((value, body), end)) => Ok(
                        (
                            ExprView::TupleDestructure {
                                names,
                                value: Box::new(value),
                                body: Box::new(body),
                                span: joined(let_span, body.span()),
                            },
                            end,
                        ),
                    ),
                }
            },
        }
    } else {
        proof {
            lemma_read_usage(src, next);
        }
        match read_usage(src, next) {
            Err(e) => Err(e),
            Ok((usage, end)) => {
                proof {
                    lemma_skip(src, end);
                    lemma_read_binder(src, skip(src, end));
                }
                match read_binder(src, skip(src, end)) {
                    Err(e) => Err(e),
                    Ok(((name, name_span), end)) => {
                        proof {
                            lemma_skip(src, end);
                        }
                        match read_binding(
                            src,
                            skip(src, end),
                            "expected `=` after let-binding name"@,
                            "expected `in` after let-binding value"@,
                        ) {
                            Err(e) => Err(e),
                            Ok(((value, body), end)) => Ok(
                                (
                                    ExprView::Let {
                                        usage,
                                        name,
                                        name_span,
                                        value: Box::new(value),
                                        body: Box::new(body),
                                        span: joined(let_span, body.span()),
                                    },
                                    end,
                                ),
                            ),
                        }
                    },
                }
            },
        }
    }
}

/// `'=' expr 'in' expr`: the value and the body of a `let`. The notes say what
/// is missing where `=` or `in` does not stand.
pub open spec fn read_binding(
    src: Seq<u8>,
    i: int,
    no_equals: Seq<char>,
    no_in: Seq<char>,
) -> Reading<(ExprView, ExprView)>
    decreases src.len() - i, 8nat,
{
    if !byte_at(src, i, EQUALS) {
        Err(error_here(src, i, no_equals))
    } else {
        let start = skip(src, i + 1);
        proof {
            lemma_skip(src, i + 1);
        }
        match read_expr(src, start) {
            Err(e) => Err(e),
            Ok((value, end)) => if !advances(src, start, end) {
                stuck()
            } else {
                let next = skip(src, end);
                if !keyword_at(src, next, "in"@) {
                    Err(error_here(src, next, no_in))
                } else {
                    proof {
                        lemma_skip(src, end);
                        lemma_word(src, next);
                        lemma_skip(src, word_end(src, next));
                    }
                    match read_expr(src, skip(src, word_end(src, next))) {
                        Err(e) => Err(e),
                        Ok((body, end)) => Ok(((value, body), end)),
                    }
                }
            },
        }
    }
}

/// `add_expr ::= postfix ('+' postfix)*`
pub open spec fn read_add(src: Seq<u8>, i: int) -> Reading<ExprView>
    decreases src.len() - i, 3nat,
{
    match read_postfix(src, i) {
        Err(e) => Err(e),
        Ok((first, end)) => if advances(src, i, end) {
            read_more_add(src, first, end)
        } else {
            stuck()
        },
    }
}

/// `('+' postfix)*` after `lhs`, grouped to the left.
pub open spec fn read_more_add(src: Seq<u8>, lhs: ExprView, i: int) -> Reading<ExprView>
    decreases src.len() - i, 7nat,
{
    let plus = skip(src, i);
    let next = skip(src, plus + 1);
    if !byte_at(src, plus, PLUS) {
        Ok((lhs, plus))
    } else {
        proof {
            lemma_after(src, i, PLUS);
        }
        match read_postfix(src, next) {
            Err(e) => Err(e),
            Ok((rhs, end)) => if advances(src, next, end) {
                read_more_add(
                    src,
                    ExprView::Add {
                        lhs: Box::new(lhs),
                        rhs: Box::new(rhs),
                        span: joined(lhs.span(), rhs.span()),
                    },
                    end,
                )
            } else {
                stuck()
            },
        }
    }
}

/// `postfix ::= atom ('.' nonneg_int)*`
pub open spec fn read_postfix(src: Seq<u8>, i: int) -> Reading<ExprView>
    decreases src.len() - i, 2nat,
{
    match read_atom(src, i) {
        Err(e) => Err(e),
        Ok((atom, end)) => read_more_proj(src, atom, end),
    }
}

/// `atom`: an integer literal, a variable, or something in parentheses.
pub open spec fn read_atom(src: Seq<u8>, i: int) -> Reading<ExprView>
    decreases src.len() - i, 1nat,
{
    if int_at(src, i) {
        read_int(src, i)
    } else if byte_at(src, i, LPAREN) {
        read_paren(src, i)
    } else if word_at(src, i) {
        read_var(src, i)
    } else {
        Err(error_here(src, i, "expected expression"@))
    }
}

/// What stands in the parentheses that open at `i`: nothing (the empty tuple),
/// one expression (grouping, which leaves no trace), or several (a tuple).
pub open spec fn read_paren(src: Seq<u8>, i: int) -> Reading<ExprView>
    decreases src.len() - i, 0nat,
    when byte_at(src, i, LPAREN)
{
    let start = skip(src, i + 1);
    proof {
        lemma_skip(src, i + 1);
    }
    if byte_at(src, start, RPAREN) {
        Ok((ExprView::Tuple { elems: Seq::empty(), span: span_of(i, start + 1) }, start + 1))
    } else {
        match read_expr(src, start) {
            Err(e) => Err(e),
            Ok((first, end)) => if !advances(src, start, end) {
                stuck()
            } else {
                let next = skip(src, end);
                if byte_at(src, next, RPAREN) {
                    Ok((first, next + 1))
                } else if !byte_at(src, next, COMMA) {
                    Err(
                        error_here(
                            src,
                            next,
                            "expected `,` or `)` in parenthesised expression"@,
                        ),
                    )
                } else {
                    proof {
                        lemma_skip(src, end);
                    }
                    match read_more_elems(src, seq![first], next) {
                        Err(e) => Err(e),
                        Ok((elems, end)) => Ok(
                            (ExprView::Tuple { elems, span: span_of(i, end) }, end),
                        ),
                    }
                }
            },
        }
    }
}

/// `(',' expr)+ ')'` after `elems`, where a comma stands at `i`.
pub open spec fn read_more_elems(
    src: Seq<u8>,
    elems: Seq<ExprView>,
    i: int,
) -> Reading<Seq<ExprView>>
    decreases src.len() - i, 7nat,
    when byte_at(src, i, COMMA)
{
    let start = skip(src, i + 1);
    proof {
        lemma_skip(src, i + 1);
    }
    if byte_at(src, start, RPAREN) {
        Err(
            error_here(
                src,
                start,
                "trailing commas in tuples are not supported (singleton tuples are not a thing)"@,
            ),
        )
    } else {
        match read_expr(src, start) {
            Err(e) => Err(e),
            Ok((elem, end)) => if !advances(src, start, end) {
                stuck()
            } else {
                let next = skip(src, end);
                proof {
                    lemma_skip(src, end);
                }
                if byte_at(src, next, COMMA) {
                    read_more_elems(src, elems.push(elem), next)
                } else if byte_at(src, next, RPAREN) {
                    Ok((elems.push(elem), next + 1))
                } else {
                    Err(error_here(src, next, "expected `)` to close tuple"@))
                }
            },
        }
    }
}

/// A whole source: one expression, with nothing but trivia around it.
pub open spec fn read_source(src: Seq<u8>) -> Result<(ExprView, Span), ErrorView> {
    let start = skip(src, 0);
    match read_expr(src, start) {
        Err(e) => Err(e),
        Ok((expr, end)) => {
            let last = skip(src, end);
            if last < src.len() {
                Err(error_here(src, last, "unexpected trailing input"@))
            } else {
                Ok((expr, span_of(start, last)))
            }
        },
    }
}

} // verus!
