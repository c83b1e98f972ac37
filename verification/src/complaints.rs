//! What the parser complains about, and where.
//!
//! Each law here is about one kind of mistake: wherever it is made, it is what is
//! reported, at the byte or the word in question; and the first mistake is the one
//! that counts.

use crate::ast::{joined, span_of, ExprView, Span, Usage};
use crate::error::{ErrorCategory, ErrorView};
use crate::lexical::{digits_end, int_end, int_value, skip, word, word_at, word_end};
use crate::reading::{
    read_add, read_atom, read_binder, read_binding, read_expr, read_index, read_let, read_more_add,
    read_more_elems, read_more_names, read_more_proj, read_more_seq, read_paren, read_pattern,
    read_postfix, read_seq_atom, read_source, read_usage, Reading,
};
use crate::text::ascii_text;
use crate::tokens::{lemma_int_token, lemma_word_token, letter, num, numeral_at, poised, token_stop};
use vstd::prelude::*;

verus! {

/// Reading fails with a parse error that covers `start..end` and says `note`.
pub open spec fn fails<T>(r: Reading<T>, start: int, end: int, note: Seq<char>) -> bool {
    r matches Err(e) && e == (ErrorView {
        category: ErrorCategory::ParseError,
        span: Span { start: start as usize, end: end as usize },
        note: Some(note),
        related: Seq::empty(),
    })
}

/// Reading fails at the byte at `i`, or at the end of the source.
pub open spec fn fails_at<T>(r: Reading<T>, src: Seq<u8>, i: int, note: Seq<char>) -> bool {
    fails(
        r,
        i,
        if i < src.len() {
            i + 1
        } else {
            i
        },
        note,
    )
}

/// The byte `b` stands at `i`.
pub open spec fn stands(src: Seq<u8>, i: int, b: u8) -> bool {
    0 <= i < src.len() && src[i] == b
}

/// The text of the token at `i`.
pub open spec fn token_text(src: Seq<u8>, i: int) -> Seq<char> {
    let token = src.subrange(i, token_stop(src, i));
    Seq::new(token.len(), |k: int| token[k] as char)
}

/// A letter stands at `i`.
pub open spec fn begins_word(src: Seq<u8>, i: int) -> bool {
    0 <= i < src.len() && letter(src[i])
}

/// One of the words of the language.
pub open spec fn is_word_of_the_language(text: Seq<char>) -> bool {
    ||| text == "let"@
    ||| text == "in"@
    ||| text == "linear"@
    ||| text == "shared"@
    ||| text == "ordinary"@
    ||| text == "method"@
    ||| text == "returns"@
    ||| text == "enum"@
    ||| text == "match"@
    ||| text == "inout"@
    ||| text == "int"@
}

proof fn lemma_token_text(src: Seq<u8>, i: int)
    requires
        poised(src, i),
    ensures
        word_at(src, i) == begins_word(src, i),
        word_at(src, i) ==> word(src, i) == token_text(src, i) && word_end(src, i) == token_stop(
            src,
            i,
        ),
{
    lemma_word_token(src, i);
    if word_at(src, i) {
        assert(word(src, i) =~= token_text(src, i));
    }
}

/// Where an expression is wanted: a number that does not fit, a word of the language, or
/// something that begins no expression is an error.
pub proof fn law_what_begins_no_expression(src: Seq<u8>, i: int)
    requires
        poised(src, i),
    ensures
        !begins_word(src, i) && !numeral_at(src, i) && !stands(src, i, 40) ==> fails_at(
            read_atom(src, i),
            src,
            i,
            "expected expression"@,
        ),
        begins_word(src, i) && is_word_of_the_language(token_text(src, i)) ==> fails(
            read_atom(src, i),
            i,
            token_stop(src, i),
            "`"@ + token_text(src, i) + "` is a reserved keyword and cannot appear here"@,
        ),
        begins_word(src, i) && !is_word_of_the_language(token_text(src, i)) ==> read_atom(src, i)
            == Reading::<ExprView>::Ok(
            (
                ExprView::Var {
                    name: token_text(src, i),
                    span: span_of(i, token_stop(src, i)),
                },
                token_stop(src, i),
            ),
        ),
        numeral_at(src, i) ==> match read_atom(src, i) {
            Ok((expr, end)) => {
                &&& expr is IntLit
                &&& expr->IntLit_value == int_value(src, i)
                &&& expr->IntLit_span == span_of(i, end)
                &&& end == token_stop(src, i)
            },
            Err(_) => fails(
                read_atom(src, i),
                i,
                token_stop(src, i),
                "integer literal `"@ + token_text(src, i) + "` does not fit in i64"@,
            ),
        },
{
    lemma_token_text(src, i);
    lemma_int_token(src, i);
    if numeral_at(src, i) {
        assert(ascii_text(src.subrange(i, int_end(src, i))) =~= token_text(src, i));
    }
}

/// Where a name to bind is wanted: anything but a word is an error, and so is a word of
/// the language.
pub proof fn law_what_cannot_be_bound(src: Seq<u8>, i: int)
    requires
        poised(src, i),
    ensures
        !begins_word(src, i) ==> fails_at(read_binder(src, i), src, i, "expected identifier"@),
        begins_word(src, i) && is_word_of_the_language(token_text(src, i)) ==> fails(
            read_binder(src, i),
            i,
            token_stop(src, i),
            "`"@ + token_text(src, i)
                + "` is a reserved keyword and cannot be used as a binder"@,
        ),
        begins_word(src, i) && !is_word_of_the_language(token_text(src, i)) ==> read_binder(
            src,
            i,
        ) == Reading::<(Seq<char>, Span)>::Ok(
            ((token_text(src, i), span_of(i, token_stop(src, i))), token_stop(src, i)),
        ),
{
    lemma_token_text(src, i);
}

/// After `let`: the usages that are known, the one that is not yet, and anything else.
pub proof fn law_what_usages_there_are(src: Seq<u8>, i: int)
    requires
        poised(src, i),
    ensures
        ({
            let r = read_usage(src, i);
            let text = token_text(src, i);
            let end = token_stop(src, i);
            if !begins_word(src, i) {
                fails_at(r, src, i, "expected `ordinary`, `linear`, or `(` after `let`"@)
            } else if text == "ordinary"@ {
                r == Reading::<Usage>::Ok((Usage::Ordinary, end))
            } else if text == "linear"@ {
                r == Reading::<Usage>::Ok((Usage::Linear, end))
            } else if text == "shared"@ {
                fails(r, i, end, "`shared` will be supported in Phase 2 alongside borrowing"@)
            } else {
                fails(
                    r,
                    i,
                    end,
                    "expected `ordinary`, `linear`, or `(` after `let`, found `"@ + text + "`"@,
                )
            }
        }),
{
    lemma_token_text(src, i);
}

/// After a dot: no digit, or an index that does not fit, is an error.
pub proof fn law_what_is_no_index(src: Seq<u8>, i: int)
    requires
        poised(src, i),
    ensures
        !(i < src.len() && num(src[i])) ==> fails_at(
            read_index(src, i),
            src,
            i,
            "expected non-negative integer index"@,
        ),
        i < src.len() && num(src[i]) ==> match read_index(src, i) {
            Ok((_, end)) => end == token_stop(src, i),
            Err(_) => fails(
                read_index(src, i),
                i,
                token_stop(src, i),
                "tuple index `"@ + token_text(src, i) + "` does not fit in usize"@,
            ),
        },
{
    lemma_int_token(src, i);
    if i < src.len() && num(src[i]) {
        assert(ascii_text(src.subrange(i, digits_end(src, i))) =~= token_text(src, i));
    }
}

/// After an expression in parentheses: a comma must stand, or the end of the
/// parentheses, and after a comma another expression.
pub proof fn law_what_parentheses_hold(src: Seq<u8>, i: int)
    requires
        stands(src, i, 40),
    ensures
        ({
            let r = read_paren(src, i);
            let start = skip(src, i + 1);
            if stands(src, start, 41) {
                r == Reading::<ExprView>::Ok(
                    (
                        ExprView::Tuple { elems: Seq::empty(), span: span_of(i, start + 1) },
                        start + 1,
                    ),
                )
            } else {
                match read_expr(src, start) {
                    Err(e) => r == Reading::<ExprView>::Err(e),
                    Ok((first, end)) => start < end <= src.len() ==> {
                        let next = skip(src, end);
                        &&& stands(src, next, 41) ==> r == Reading::<ExprView>::Ok(
                            (first, next + 1),
                        )
                        &&& !stands(src, next, 41) && !stands(src, next, 44) ==> fails_at(
                            r,
                            src,
                            next,
                            "expected `,` or `)` in parenthesised expression"@,
                        )
                        &&& stands(src, next, 44) ==> match read_more_elems(
                            src,
                            seq![first],
                            next,
                        ) {
                            Err(e) => r == Reading::<ExprView>::Err(e),
                            Ok((elems, stop)) => r == Reading::<ExprView>::Ok(
                                (ExprView::Tuple { elems, span: span_of(i, stop) }, stop),
                            ),
                        }
                    },
                }
            }
        }),
{
}

/// The further components of a tuple: each comma is followed by an expression, and each
/// expression by a comma or the end of the parentheses.
pub proof fn law_what_follows_a_comma(src: Seq<u8>, elems: Seq<ExprView>, i: int)
    requires
        stands(src, i, 44),
    ensures
        ({
            let r = read_more_elems(src, elems, i);
            let start = skip(src, i + 1);
            if stands(src, start, 41) {
                fails_at(
                    r,
                    src,
                    start,
                    "trailing commas in tuples are not supported (singleton tuples are not a thing)"@,
                )
            } else {
                match read_expr(src, start) {
                    Err(e) => r == Reading::<Seq<ExprView>>::Err(e),
                    Ok((elem, end)) => start < end <= src.len() ==> {
                        let next = skip(src, end);
                        &&& stands(src, next, 44) ==> r == read_more_elems(
                            src,
                            elems.push(elem),
                            next,
                        )
                        &&& stands(src, next, 41) ==> r == Reading::<Seq<ExprView>>::Ok(
                            (elems.push(elem), next + 1),
                        )
                        &&& !stands(src, next, 41) && !stands(src, next, 44) ==> fails_at(
                            r,
                            src,
                            next,
                            "expected `)` to close tuple"@,
                        )
                    },
                }
            }
        }),
{
}

/// The pattern of a deconstruction holds names with commas between, but not a single
/// one, and no comma at its end.
pub proof fn law_what_a_pattern_holds(src: Seq<u8>, i: int)
    requires
        stands(src, i, 40),
    ensures
        ({
            let r = read_pattern(src, i);
            let first = skip(src, i + 1);
            if stands(src, first, 41) {
                r == Reading::<Seq<(Seq<char>, Span)>>::Ok((Seq::empty(), first + 1))
            } else {
                match read_binder(src, first) {
                    Err(e) => r == Reading::<Seq<(Seq<char>, Span)>>::Err(e),
                    Ok((binder, end)) => match read_more_names(src, seq![binder], end) {
                        Err(e) => r == Reading::<Seq<(Seq<char>, Span)>>::Err(e),
                        Ok((names, close)) => {
                            &&& !stands(src, close, 41) ==> fails_at(
                                r,
                                src,
                                close,
                                "expected `)` to close deconstruction pattern"@,
                            )
                            &&& stands(src, close, 41) && names.len() == 1 ==> fails(
                                r,
                                names[0].1.start as int,
                                names[0].1.end as int,
                                "1-element deconstruction patterns are not supported (no 1-tuples in the language)"@,
                            )
                            &&& stands(src, close, 41) && names.len() != 1 ==> r == Reading::<
                                Seq<(Seq<char>, Span)>,
                            >::Ok((names, close + 1))
                        },
                    },
                }
            }
        }),
{
}

/// The further names of a pattern: each comma is followed by a name.
pub proof fn law_what_follows_a_name(src: Seq<u8>, names: Seq<(Seq<char>, Span)>, i: int)
    ensures
        ({
            let r = read_more_names(src, names, i);
            let comma = skip(src, i);
            let next = skip(src, comma + 1);
            if !stands(src, comma, 44) {
                r == Reading::<Seq<(Seq<char>, Span)>>::Ok((names, comma))
            } else if stands(src, next, 41) {
                fails_at(
                    r,
                    src,
                    next,
                    "trailing commas in deconstruction patterns are not supported"@,
                )
            } else {
                match read_binder(src, next) {
                    Err(e) => r == Reading::<Seq<(Seq<char>, Span)>>::Err(e),
                    Ok((binder, end)) => r == read_more_names(src, names.push(binder), end),
                }
            }
        }),
{
}

/// After what a `let` binds, `=`, a value, `in` and a body must stand, and what is
/// missing first is reported.
pub proof fn law_what_a_binding_needs(
    src: Seq<u8>,
    i: int,
    no_equals: Seq<char>,
    no_in: Seq<char>,
)
    ensures
        ({
            let r = read_binding(src, i, no_equals, no_in);
            let start = skip(src, i + 1);
            if !stands(src, i, 61) {
                fails_at(r, src, i, no_equals)
            } else {
                match read_expr(src, start) {
                    Err(e) => r == Reading::<(ExprView, ExprView)>::Err(e),
                    Ok((value, end)) => start < end <= src.len() && poised(src, skip(src, end))
                        ==> {
                        let next = skip(src, end);
                        if !(begins_word(src, next) && token_text(src, next) == "in"@) {
                            fails_at(r, src, next, no_in)
                        } else {
                            match read_expr(src, skip(src, token_stop(src, next))) {
                                Err(e) => r == Reading::<(ExprView, ExprView)>::Err(e),
                                Ok((body, stop)) => r == Reading::<(ExprView, ExprView)>::Ok(
                                    ((value, body), stop),
                                ),
                            }
                        }
                    },
                }
            }
        }),
{
    let start = skip(src, i + 1);
    if stands(src, i, 61) {
        if let Ok((value, end)) = read_expr(src, start) {
            if start < end <= src.len() && poised(src, skip(src, end)) {
                lemma_token_text(src, skip(src, end));
            }
        }
    }
}

/// After `let` comes a pattern, or a usage and a name; the notes about what is missing
/// name the form.
pub proof fn law_what_a_let_needs(src: Seq<u8>, i: int)
    requires
        poised(src, i),
        begins_word(src, i),
        token_text(src, i) == "let"@,
    ensures
        ({
            let r = read_let(src, i);
            let next = skip(src, token_stop(src, i));
            if stands(src, next, 40) {
                match read_pattern(src, next) {
                    Err(e) => r == Reading::<ExprView>::Err(e),
                    Ok((names, end)) => match read_binding(
                        src,
                        skip(src, end),
                        "expected `=` after deconstruction pattern"@,
                        "expected `in` after deconstruction value"@,
                    ) {
                        Err(e) => r == Reading::<ExprView>::Err(e),
                        Ok(((value, body), stop)) => {
                            &&& r is Ok
                            &&& r->Ok_0.1 == stop
                            &&& r->Ok_0.0 is TupleDestructure
                            &&& r->Ok_0.0->TupleDestructure_names == names
                            &&& r->Ok_0.0->TupleDestructure_value == Box::new(value)
                            &&& r->Ok_0.0->TupleDestructure_body == Box::new(body)
                            &&& r->Ok_0.0.span() == joined(
                                span_of(i, token_stop(src, i)),
                                body.span(),
                            )
                        },
                    },
                }
            } else {
                match read_usage(src, next) {
                    Err(e) => r == Reading::<ExprView>::Err(e),
                    Ok((usage, end)) => match read_binder(src, skip(src, end)) {
                        Err(e) => r == Reading::<ExprView>::Err(e),
                        Ok(((name, name_span), end)) => match read_binding(
                            src,
                            skip(src, end),
                            "expected `=` after let-binding name"@,
                            "expected `in` after let-binding value"@,
                        ) {
                            Err(e) => r == Reading::<ExprView>::Err(e),
                            Ok(((value, body), stop)) => {
                                &&& r is Ok
                                &&& r->Ok_0.1 == stop
                                &&& r->Ok_0.0 is Let
                                &&& r->Ok_0.0->usage == usage
                                &&& r->Ok_0.0->Let_name == name
                                &&& r->Ok_0.0->Let_name_span == name_span
                                &&& r->Ok_0.0->Let_value == Box::new(value)
                                &&& r->Ok_0.0->Let_body == Box::new(body)
                                &&& r->Ok_0.0.span() == joined(
                                    span_of(i, token_stop(src, i)),
                                    body.span(),
                                )
                            },
                        },
                    },
                }
            }
        }),
{
    lemma_token_text(src, i);
}

/// A mistake in a part is a mistake of the whole: after `;`, `+` and `.` what follows is
/// read, and an error there is the error that is reported.
pub proof fn law_a_mistake_in_a_part_is_reported(src: Seq<u8>, lhs: ExprView, i: int)
    ensures
        ({
            let at = skip(src, i);
            let next = skip(src, at + 1);
            &&& stands(src, at, 59) ==> (read_seq_atom(src, next) matches Err(e) ==> read_more_seq(
                src,
                lhs,
                i,
            ) == Reading::<ExprView>::Err(e))
            &&& stands(src, at, 43) ==> (read_postfix(src, next) matches Err(e) ==> read_more_add(
                src,
                lhs,
                i,
            ) == Reading::<ExprView>::Err(e))
            &&& stands(src, at, 46) ==> (read_index(src, next) matches Err(e) ==> read_more_proj(
                src,
                lhs,
                i,
            ) == Reading::<ExprView>::Err(e))
            &&& !stands(src, at, 59) ==> read_more_seq(src, lhs, i) == Reading::<ExprView>::Ok(
                (lhs, at),
            )
            &&& !stands(src, at, 43) ==> read_more_add(src, lhs, i) == Reading::<ExprView>::Ok(
                (lhs, at),
            )
            &&& !stands(src, at, 46) ==> read_more_proj(src, lhs, i) == Reading::<ExprView>::Ok(
                (lhs, at),
            )
        }),
{
}

/// The first part that is read decides where it fails, down to the atom.
pub proof fn law_a_mistake_at_the_beginning_is_reported(src: Seq<u8>, i: int)
    requires
        poised(src, i),
    ensures
        read_atom(src, i) matches Err(e) ==> read_postfix(src, i) == Reading::<ExprView>::Err(e),
        read_postfix(src, i) matches Err(e) ==> read_add(src, i) == Reading::<ExprView>::Err(e),
        !(begins_word(src, i) && token_text(src, i) == "let"@) ==> read_seq_atom(src, i)
            == read_add(src, i),
        begins_word(src, i) && token_text(src, i) == "let"@ ==> read_seq_atom(src, i) == read_let(
            src,
            i,
        ),
        read_seq_atom(src, i) matches Err(e) ==> read_expr(src, i) == Reading::<ExprView>::Err(e),
        stands(src, i, 40) ==> read_atom(src, i) == read_paren(src, i),
{
    lemma_token_text(src, i);
    lemma_int_token(src, i);
}

/// A source is one expression: an error in it is reported, and so is what stands behind
/// it.
pub proof fn law_nothing_may_follow(src: Seq<u8>)
    ensures
        ({
            let start = skip(src, 0);
            match read_expr(src, start) {
                Err(e) => read_source(src) == Result::<(ExprView, Span), ErrorView>::Err(e),
                Ok((expr, end)) => {
                    let last = skip(src, end);
                    if last < src.len() {
                        read_source(src) == Result::<(ExprView, Span), ErrorView>::Err(
                            (ErrorView {
                                category: ErrorCategory::ParseError,
                                span: Span { start: last as usize, end: (last + 1) as usize },
                                note: Some("unexpected trailing input"@),
                                related: Seq::empty(),
                            }),
                        )
                    } else {
                        read_source(src) == Result::<(ExprView, Span), ErrorView>::Ok(
                            (expr, span_of(start, last)),
                        )
                    }
                },
            }
        }),
{
}

} // verus!
