//! Sources made of sources.
//!
//! What a source that parses becomes when it is put in parentheses, bound by a
//! `let`, or joined to another one by `;` or `+`.

use crate::ast::{joined, span_of, usage_text, ExprView, PatternView, Span, Usage};
use crate::diagnostics::{is_ident_char, is_name};
use crate::error::{ErrorCategory, ErrorView, NEWLINE};
use crate::grammar::{
    is_add, is_atom, is_binder, is_binding, is_chain, is_elems, is_expr, is_let, is_names,
    is_pattern, is_postfix, is_program, is_usage, law_parsing_is_complete, law_parsing_is_sound,
    lemma_add_complete, lemma_expr_complete, separated,
};
use crate::lexical::{
    byte_at, comment_at, digit_at, digits_end, digits_value, ident_run_end, int_at,
    int_digits_start, int_end, int_value, is_ident_byte, is_space, keyword_at, lemma_int,
    lemma_next_line, lemma_skip, lemma_word, next_line, skip, word, word_at, word_end, COMMA, DOT,
    EQUALS, LPAREN, PLUS, RPAREN, SEMICOLON, SLASH, SPACE,
};
use crate::reading::{
    read_add, read_atom, read_expr, read_int, read_postfix, read_seq_atom, read_source, Reading,
};
use crate::text::ascii_text;
use crate::shifting::{
    bounded, lemma_shifted_join, lemma_shifted_tuple, lemma_skip_in_rest, shifted, shifted_binders,
    shifted_exprs, shifted_pattern, shifted_span,
};
use vstd::prelude::*;

verus! {

// -----------------------------------------------------------------------------
// A source inside a longer one
// -----------------------------------------------------------------------------

/// `src` stands in `big` at `d`, and what follows it does not go on with a word or
/// a number at its end.
spec fn stands_in(big: Seq<u8>, src: Seq<u8>, d: int) -> bool {
    &&& 0 <= d
    &&& d + src.len() <= big.len() <= usize::MAX
    &&& d + src.len() < big.len() ==> !is_ident_byte(big[d + src.len()])
    &&& same_bytes(big, src, d)
}

#[verifier::opaque]
spec fn same_bytes(big: Seq<u8>, src: Seq<u8>, d: int) -> bool {
    forall|k: int| 0 <= k < src.len() ==> big[k + d] == #[trigger] src[k]
}

proof fn lemma_inner_byte(big: Seq<u8>, src: Seq<u8>, d: int, k: int)
    requires
        stands_in(big, src, d),
        0 <= k < src.len(),
    ensures
        big[k + d] == src[k],
        forall|b: u8| #[trigger] byte_at(big, k + d, b) == byte_at(src, k, b),
{
    reveal(same_bytes);
}

proof fn lemma_inner_part(big: Seq<u8>, src: Seq<u8>, d: int, i: int, j: int)
    requires
        stands_in(big, src, d),
        0 <= i <= j <= src.len(),
    ensures
        big.subrange(i + d, j + d) == src.subrange(i, j),
{
    assert forall|k: int| 0 <= k < j - i implies big.subrange(i + d, j + d)[k] == src.subrange(
        i,
        j,
    )[k] by {
        lemma_inner_byte(big, src, d, i + k);
    }
    assert(big.subrange(i + d, j + d) =~= src.subrange(i, j));
}

proof fn lemma_inner_next_line(big: Seq<u8>, src: Seq<u8>, d: int, i: int)
    requires
        stands_in(big, src, d),
        0 <= i,
        next_line(src, i) < src.len(),
    ensures
        next_line(big, i + d) == next_line(src, i) + d,
    decreases src.len() - i,
{
    lemma_inner_byte(big, src, d, i);
    if src[i] != NEWLINE {
        lemma_inner_next_line(big, src, d, i + 1);
    }
}

/// A token of the inner source is a token of the longer one.
proof fn lemma_inner_skip(big: Seq<u8>, src: Seq<u8>, d: int, i: int)
    requires
        stands_in(big, src, d),
        0 <= i,
        skip(src, i) < src.len(),
        src[skip(src, i)] != SLASH,
    ensures
        skip(big, i + d) == skip(src, i) + d,
        i <= skip(src, i),
    decreases src.len() - i,
{
    if i < src.len() {
        lemma_inner_byte(big, src, d, i);
        if is_space(src[i]) {
            lemma_inner_skip(big, src, d, i + 1);
        } else if comment_at(src, i) {
            lemma_next_line(src, i);
            let line = next_line(src, i);
            lemma_skip(src, line);
            lemma_inner_next_line(big, src, d, i);
            lemma_inner_byte(big, src, d, i + 1);
            lemma_inner_skip(big, src, d, line);
        }
    }
}

proof fn lemma_inner_ident_run(big: Seq<u8>, src: Seq<u8>, d: int, i: int)
    requires
        stands_in(big, src, d),
        0 <= i <= src.len(),
    ensures
        ident_run_end(big, i + d) == ident_run_end(src, i) + d,
    decreases src.len() - i,
{
    if i < src.len() {
        lemma_inner_byte(big, src, d, i);
        lemma_inner_ident_run(big, src, d, i + 1);
    }
}

proof fn lemma_inner_digits(big: Seq<u8>, src: Seq<u8>, d: int, i: int)
    requires
        stands_in(big, src, d),
        0 <= i <= src.len(),
    ensures
        digits_end(big, i + d) == digits_end(src, i) + d,
        digit_at(src, i) ==> digit_at(big, i + d),
    decreases src.len() - i,
{
    if i < src.len() {
        lemma_inner_byte(big, src, d, i);
        lemma_inner_digits(big, src, d, i + 1);
    }
}

proof fn lemma_inner_word(big: Seq<u8>, src: Seq<u8>, d: int, i: int)
    requires
        stands_in(big, src, d),
        word_at(src, i),
    ensures
        word_at(big, i + d),
        word_end(big, i + d) == word_end(src, i) + d,
        word(big, i + d) == word(src, i),
        0 <= i < word_end(src, i) <= src.len(),
        src[i] != SLASH,
        forall|kw: Seq<char>|
            keyword_at(src, i, kw) ==> #[trigger] keyword_at(big, i + d, kw),
{
    lemma_word(src, i);
    lemma_inner_byte(big, src, d, i);
    lemma_inner_ident_run(big, src, d, i + 1);
    lemma_inner_part(big, src, d, i, word_end(src, i));
}

proof fn lemma_inner_separated(big: Seq<u8>, src: Seq<u8>, d: int, k: int, b: u8, m: int)
    requires
        stands_in(big, src, d),
        separated(src, k, b, m),
        b != SLASH,
        m < src.len(),
        src[m] != SLASH,
    ensures
        separated(big, k + d, b, m + d),
{
    lemma_inner_skip(big, src, d, k);
    lemma_inner_byte(big, src, d, skip(src, k));
    lemma_inner_skip(big, src, d, skip(src, k) + 1);
}

proof fn lemma_inner_binder(
    big: Seq<u8>,
    src: Seq<u8>,
    d: int,
    i: int,
    binder: (Seq<char>, Span),
)
    requires
        stands_in(big, src, d),
        is_binder(src, i, binder),
    ensures
        is_binder(big, i + d, (binder.0, shifted_span(binder.1, d))),
        word_end(big, i + d) == word_end(src, i) + d,
        0 <= i < word_end(src, i) <= src.len(),
        src[i] != SLASH,
        bounded(binder.1, src.len() as int),
{
    lemma_inner_word(big, src, d, i);
}

proof fn lemma_inner_names(
    big: Seq<u8>,
    src: Seq<u8>,
    d: int,
    i: int,
    names: Seq<(Seq<char>, Span)>,
    n: nat,
    j: int,
)
    requires
        stands_in(big, src, d),
        is_names(src, i, names, n, j),
    ensures
        is_names(big, i + d, shifted_binders(names, d), n, j + d),
        0 <= i < j <= src.len(),
        src[i] != SLASH,
    decreases n,
{
    let moved = shifted_binders(names, d);
    if n == 1 {
        lemma_inner_binder(big, src, d, i, names[0]);
    } else {
        let (k, m) = choose|k: int, m: int|
            {
                &&& is_names(src, i, names, (n - 1) as nat, k)
                &&& #[trigger] separated(src, k, COMMA, m)
                &&& is_binder(src, m, names[n - 1])
                &&& j == word_end(src, m)
            };
        lemma_inner_names(big, src, d, i, names, (n - 1) as nat, k);
        lemma_inner_binder(big, src, d, m, names[n - 1]);
        lemma_inner_separated(big, src, d, k, COMMA, m);
        assert(moved[n - 1] == (names[n - 1].0, shifted_span(names[n - 1].1, d)));
        assert(separated(big, k + d, COMMA, m + d));
    }
}

proof fn lemma_inner_pattern(
    big: Seq<u8>,
    src: Seq<u8>,
    d: int,
    i: int,
    names: Seq<(Seq<char>, Span)>,
    j: int,
)
    requires
        stands_in(big, src, d),
        is_pattern(src, i, names, j),
    ensures
        is_pattern(big, i + d, shifted_binders(names, d), j + d),
        0 <= i < j <= src.len(),
        src[i] != SLASH,
{
    lemma_inner_byte(big, src, d, i);
    let first = skip(src, i + 1);
    lemma_skip(src, i + 1);
    if names.len() == 0 {
        lemma_inner_skip(big, src, d, i + 1);
        lemma_inner_byte(big, src, d, first);
    } else {
        let k = choose|k: int|
            {
                &&& is_names(src, first, names, names.len(), k)
                &&& #[trigger] byte_at(src, skip(src, k), RPAREN)
                &&& j == skip(src, k) + 1
            };
        lemma_inner_names(big, src, d, first, names, names.len(), k);
        lemma_inner_skip(big, src, d, i + 1);
        lemma_inner_skip(big, src, d, k);
        lemma_inner_byte(big, src, d, skip(src, k));
        assert(byte_at(big, skip(big, k + d), RPAREN));
    }
}

proof fn lemma_inner_expr(big: Seq<u8>, src: Seq<u8>, d: int, i: int, expr: ExprView, j: int)
    requires
        stands_in(big, src, d),
        is_expr(src, i, expr, j),
    ensures
        is_expr(big, i + d, shifted(expr, d), j + d),
        src[i] != SLASH,
        bounded(expr.span(), src.len() as int),
    decreases j - i, 7nat,
{
    if is_chain(src, i, expr, j) {
        lemma_inner_chain(big, src, d, i, expr, j);
    } else if is_let(src, i, expr, j) {
        lemma_inner_let(big, src, d, i, expr, j);
    } else {
        let first = *expr->Sequence_first;
        let second = *expr->Sequence_second;
        let (k, m) = choose|k: int, m: int|
            {
                &&& i < k < m < j
                &&& #[trigger] separated(src, k, SEMICOLON, m)
                &&& is_chain(src, i, first, k)
                &&& is_let(src, m, second, j)
            };
        lemma_inner_chain(big, src, d, i, first, k);
        lemma_inner_let(big, src, d, m, second, j);
        lemma_inner_separated(big, src, d, k, SEMICOLON, m);
        lemma_shifted_join(first.span(), second.span(), src.len() as int, d);
        assert(separated(big, k + d, SEMICOLON, m + d));
    }
}

proof fn lemma_inner_chain(big: Seq<u8>, src: Seq<u8>, d: int, i: int, expr: ExprView, j: int)
    requires
        stands_in(big, src, d),
        is_chain(src, i, expr, j),
    ensures
        is_chain(big, i + d, shifted(expr, d), j + d),
        src[i] != SLASH,
        bounded(expr.span(), src.len() as int),
    decreases j - i, 6nat,
{
    if is_add(src, i, expr, j) {
        lemma_inner_add(big, src, d, i, expr, j);
    } else {
        let first = *expr->Sequence_first;
        let second = *expr->Sequence_second;
        let (k, m) = choose|k: int, m: int|
            {
                &&& i < k < m < j
                &&& #[trigger] separated(src, k, SEMICOLON, m)
                &&& is_chain(src, i, first, k)
                &&& is_add(src, m, second, j)
            };
        lemma_inner_chain(big, src, d, i, first, k);
        lemma_inner_add(big, src, d, m, second, j);
        lemma_inner_separated(big, src, d, k, SEMICOLON, m);
        lemma_shifted_join(first.span(), second.span(), src.len() as int, d);
        assert(separated(big, k + d, SEMICOLON, m + d));
    }
}

/// A deconstruction is made of its parts.
pub proof fn lemma_destructure_form(
    src: Seq<u8>,
    i: int,
    names: Seq<(Seq<char>, Span)>,
    end: int,
    value: ExprView,
    body: ExprView,
    j: int,
)
    requires
        keyword_at(src, i, "let"@),
        is_pattern(src, skip(src, word_end(src, i)), names, end),
        i < skip(src, end) < j,
        is_binding(src, skip(src, end), value, body, j),
    ensures
        is_let(
            src,
            i,
            ExprView::TupleDestructure {
                names,
                value: Box::new(value),
                body: Box::new(body),
                span: joined(span_of(i, word_end(src, i)), body.span()),
            },
            j,
        ),
{
    let next = skip(src, word_end(src, i));
    let expr = ExprView::TupleDestructure {
        names,
        value: Box::new(value),
        body: Box::new(body),
        span: joined(span_of(i, word_end(src, i)), body.span()),
    };
    assert(is_pattern(src, next, expr->TupleDestructure_names, end));
    assert(is_binding(
        src,
        skip(src, end),
        *expr->TupleDestructure_value,
        *expr->TupleDestructure_body,
        j,
    ));
    assert(is_let(src, i, expr, j));
}

proof fn lemma_inner_let(big: Seq<u8>, src: Seq<u8>, d: int, i: int, expr: ExprView, j: int)
    requires
        stands_in(big, src, d),
        is_let(src, i, expr, j),
    ensures
        is_let(big, i + d, shifted(expr, d), j + d),
        0 <= i < j <= src.len(),
        src[i] != SLASH,
        bounded(expr.span(), src.len() as int),
    decreases j - i, 5nat,
{
    let let_span = span_of(i, word_end(src, i));
    let next = skip(src, word_end(src, i));
    lemma_inner_word(big, src, d, i);
    match expr {
        ExprView::Let { usage, name, name_span, value, body, span } => {
            let named = skip(src, word_end(src, next));
            let equals = skip(src, word_end(src, named));
            lemma_inner_word(big, src, d, next);
            lemma_inner_binder(big, src, d, named, (name, name_span));
            lemma_inner_binding(big, src, d, equals, *value, *body, j);
            lemma_inner_skip(big, src, d, word_end(src, i));
            lemma_inner_skip(big, src, d, word_end(src, next));
            lemma_inner_skip(big, src, d, word_end(src, named));
            lemma_shifted_join(let_span, body.span(), src.len() as int, d);
            assert(is_usage(big, next + d, usage));
            assert(is_binding(big, equals + d, shifted(*value, d), shifted(*body, d), j + d));
            assert(is_let(big, i + d, shifted(expr, d), j + d));
        },
        ExprView::TupleDestructure { names, value, body, span } => {
            let end = choose|end: int|
                {
                    &&& #[trigger] is_pattern(src, next, names, end)
                    &&& i < skip(src, end) < j
                    &&& is_binding(src, skip(src, end), *value, *body, j)
                };
            lemma_inner_pattern(big, src, d, next, names, end);
            lemma_inner_binding(big, src, d, skip(src, end), *value, *body, j);
            lemma_inner_skip(big, src, d, word_end(src, i));
            lemma_inner_skip(big, src, d, end);
            lemma_shifted_join(let_span, body.span(), src.len() as int, d);
            lemma_destructure_form(
                big,
                i + d,
                shifted_binders(names, d),
                end + d,
                shifted(*value, d),
                shifted(*body, d),
                j + d,
            );
        },
        _ => {},
    }
}

proof fn lemma_inner_binding(
    big: Seq<u8>,
    src: Seq<u8>,
    d: int,
    i: int,
    value: ExprView,
    body: ExprView,
    j: int,
)
    requires
        stands_in(big, src, d),
        is_binding(src, i, value, body, j),
    ensures
        is_binding(big, i + d, shifted(value, d), shifted(body, d), j + d),
        0 <= i < j <= src.len(),
        src[i] != SLASH,
        bounded(body.span(), src.len() as int),
    decreases j - i, 4nat,
{
    let start = skip(src, i + 1);
    let k = choose|k: int|
        {
            let rest = skip(src, word_end(src, skip(src, k)));
            &&& i < skip(src, i + 1) < k < rest < j
            &&& is_expr(src, skip(src, i + 1), value, k)
            &&& #[trigger] keyword_at(src, skip(src, k), "in"@)
            &&& is_expr(src, rest, body, j)
        };
    let rest = skip(src, word_end(src, skip(src, k)));
    lemma_inner_byte(big, src, d, i);
    lemma_inner_expr(big, src, d, start, value, k);
    lemma_inner_skip(big, src, d, i + 1);
    lemma_inner_word(big, src, d, skip(src, k));
    lemma_inner_skip(big, src, d, k);
    lemma_inner_expr(big, src, d, rest, body, j);
    lemma_inner_skip(big, src, d, word_end(src, skip(src, k)));
    assert(keyword_at(big, skip(big, k + d), "in"@));
}

proof fn lemma_inner_add(big: Seq<u8>, src: Seq<u8>, d: int, i: int, expr: ExprView, j: int)
    requires
        stands_in(big, src, d),
        is_add(src, i, expr, j),
    ensures
        is_add(big, i + d, shifted(expr, d), j + d),
        src[i] != SLASH,
        bounded(expr.span(), src.len() as int),
    decreases j - i, 3nat,
{
    if is_postfix(src, i, expr, j) {
        lemma_inner_postfix(big, src, d, i, expr, j);
    } else {
        let lhs = *expr->lhs;
        let rhs = *expr->rhs;
        let (k, m) = choose|k: int, m: int|
            {
                &&& i < k < m < j
                &&& #[trigger] separated(src, k, PLUS, m)
                &&& is_add(src, i, lhs, k)
                &&& is_postfix(src, m, rhs, j)
            };
        lemma_inner_add(big, src, d, i, lhs, k);
        lemma_inner_postfix(big, src, d, m, rhs, j);
        lemma_inner_separated(big, src, d, k, PLUS, m);
        lemma_shifted_join(lhs.span(), rhs.span(), src.len() as int, d);
        assert(separated(big, k + d, PLUS, m + d));
    }
}

proof fn lemma_inner_postfix(big: Seq<u8>, src: Seq<u8>, d: int, i: int, expr: ExprView, j: int)
    requires
        stands_in(big, src, d),
        is_postfix(src, i, expr, j),
    ensures
        is_postfix(big, i + d, shifted(expr, d), j + d),
        src[i] != SLASH,
        bounded(expr.span(), src.len() as int),
    decreases j - i, 2nat,
{
    if is_atom(src, i, expr, j) {
        lemma_inner_atom(big, src, d, i, expr, j);
    } else {
        let tuple = *expr->tuple;
        let (k, m) = choose|k: int, m: int|
            {
                &&& i < k < m < j
                &&& #[trigger] separated(src, k, DOT, m)
                &&& is_postfix(src, i, tuple, k)
                &&& digit_at(src, m)
                &&& j == digits_end(src, m)
                &&& expr->index == digits_value(src.subrange(m, j))
                &&& expr->TupleProj_span == joined(tuple.span(), span_of(m, j))
            };
        lemma_inner_postfix(big, src, d, i, tuple, k);
        lemma_inner_digits(big, src, d, m);
        lemma_inner_part(big, src, d, m, j);
        lemma_inner_separated(big, src, d, k, DOT, m);
        lemma_shifted_join(tuple.span(), span_of(m, j), src.len() as int, d);
        assert(separated(big, k + d, DOT, m + d));
    }
}

proof fn lemma_inner_atom(big: Seq<u8>, src: Seq<u8>, d: int, i: int, expr: ExprView, j: int)
    requires
        stands_in(big, src, d),
        is_atom(src, i, expr, j),
    ensures
        is_atom(big, i + d, shifted(expr, d), j + d),
        src[i] != SLASH,
        bounded(expr.span(), src.len() as int),
    decreases j - i, 1nat,
{
    let start = skip(src, i + 1);
    lemma_inner_byte(big, src, d, i);
    if byte_at(src, i, LPAREN) && exists|k: int|
        {
            &&& i < skip(src, i + 1) < k < j
            &&& is_expr(src, skip(src, i + 1), expr, k)
            &&& #[trigger] byte_at(src, skip(src, k), RPAREN)
            &&& j == skip(src, k) + 1
        } {
        let k = choose|k: int|
            {
                &&& i < skip(src, i + 1) < k < j
                &&& is_expr(src, skip(src, i + 1), expr, k)
                &&& #[trigger] byte_at(src, skip(src, k), RPAREN)
                &&& j == skip(src, k) + 1
            };
        lemma_inner_expr(big, src, d, start, expr, k);
        lemma_inner_skip(big, src, d, i + 1);
        lemma_inner_skip(big, src, d, k);
        lemma_inner_byte(big, src, d, skip(src, k));
        assert(byte_at(big, skip(big, k + d), RPAREN));
    } else {
        match expr {
            ExprView::IntLit { value, span } => {
                lemma_int(src, i);
                let digits = int_digits_start(src, i);
                lemma_inner_digits(big, src, d, digits);
                lemma_inner_part(big, src, d, digits, j);
            },
            ExprView::Var { name, span } => {
                lemma_inner_binder(big, src, d, i, (name, span));
            },
            ExprView::Tuple { elems, span } => {
                lemma_shifted_tuple(elems, span, d);
                if elems.len() == 0 {
                    lemma_inner_skip(big, src, d, i + 1);
                    lemma_inner_byte(big, src, d, start);
                } else {
                    let k = choose|k: int|
                        {
                            &&& i < skip(src, i + 1) < k < j
                            &&& is_elems(src, skip(src, i + 1), elems, elems.len(), k)
                            &&& #[trigger] byte_at(src, skip(src, k), RPAREN)
                            &&& j == skip(src, k) + 1
                        };
                    lemma_inner_elems(big, src, d, start, elems, elems.len(), k);
                    lemma_inner_skip(big, src, d, i + 1);
                    lemma_inner_skip(big, src, d, k);
                    lemma_inner_byte(big, src, d, skip(src, k));
                    assert(byte_at(big, skip(big, k + d), RPAREN));
                }
            },
            _ => {},
        }
    }
}

proof fn lemma_inner_elems(
    big: Seq<u8>,
    src: Seq<u8>,
    d: int,
    i: int,
    elems: Seq<ExprView>,
    n: nat,
    j: int,
)
    requires
        stands_in(big, src, d),
        is_elems(src, i, elems, n, j),
    ensures
        is_elems(big, i + d, shifted_exprs(elems, d), n, j + d),
        src[i] != SLASH,
    decreases j - i, 8nat,
{
    let moved = shifted_exprs(elems, d);
    if n == 1 {
        lemma_inner_expr(big, src, d, i, elems[0], j);
        assert(moved[0] == shifted(elems[0], d));
    } else {
        let (k, m) = choose|k: int, m: int|
            {
                &&& i < k < m < j
                &&& #[trigger] separated(src, k, COMMA, m)
                &&& is_elems(src, i, elems, (n - 1) as nat, k)
                &&& is_expr(src, m, elems[n - 1], j)
            };
        lemma_inner_elems(big, src, d, i, elems, (n - 1) as nat, k);
        lemma_inner_expr(big, src, d, m, elems[n - 1], j);
        lemma_inner_separated(big, src, d, k, COMMA, m);
        assert(moved[n - 1] == shifted(elems[n - 1], d));
        assert(separated(big, k + d, COMMA, m + d));
    }
}

// -----------------------------------------------------------------------------
// Around and between sources
// -----------------------------------------------------------------------------

/// The bytes that spell an ASCII text.
pub open spec fn bytes_of(text: Seq<char>) -> Seq<u8> {
    Seq::new(text.len(), |i: int| text[i] as u8)
}

/// No comment begins anywhere in `src`.
pub open spec fn has_no_comment(src: Seq<u8>) -> bool {
    forall|k: int| !#[trigger] comment_at(src, k)
}

/// The byte `b` does not occur in `src`.
pub open spec fn lacks_byte(src: Seq<u8>, b: u8) -> bool {
    forall|k: int| !#[trigger] byte_at(src, k, b)
}

/// Nowhere in `src` does `let` stand as a word, nor at the end of one.
pub open spec fn has_no_let(src: Seq<u8>) -> bool {
    forall|k: int| !#[trigger] keyword_at(src, k, "let"@)
}

proof fn lemma_spaces_at_end(src: Seq<u8>, j: int)
    requires
        0 <= j <= src.len(),
        skip(src, j) == src.len(),
        has_no_comment(src),
    ensures
        forall|t: int| j <= t < src.len() ==> is_space(#[trigger] src[t]),
    decreases src.len() - j,
{
    if j < src.len() {
        assert(!comment_at(src, j));
        lemma_spaces_at_end(src, j + 1);
    }
}

proof fn lemma_skip_spaces(src: Seq<u8>, i: int, n: int)
    requires
        0 <= i <= n <= src.len(),
        forall|t: int| i <= t < n ==> is_space(#[trigger] src[t]),
    ensures
        skip(src, i) == skip(src, n),
    decreases n - i,
{
    if i < n {
        assert(is_space(src[i]));
        lemma_skip_spaces(src, i + 1, n);
    }
}

/// After an expression that fills a source without comments, only space is left
/// before what follows the source.
proof fn lemma_skip_to_end(big: Seq<u8>, src: Seq<u8>, d: int, j: int)
    requires
        stands_in(big, src, d),
        0 <= j <= src.len(),
        skip(src, j) == src.len(),
        has_no_comment(src),
    ensures
        skip(big, j + d) == skip(big, src.len() + d),
{
    lemma_spaces_at_end(src, j);
    assert forall|t: int| j + d <= t < src.len() + d implies is_space(#[trigger] big[t]) by {
        lemma_inner_byte(big, src, d, t - d);
        assert(is_space(src[t - d]));
    }
    lemma_skip_spaces(big, j + d, src.len() + d);
}

/// A source that parses is an expression from its first token to some place.
proof fn lemma_parsed(src: Seq<u8>) -> (j: int)
    requires
        read_source(src) is Ok,
    ensures
        is_expr(src, skip(src, 0), read_source(src)->Ok_0.0, j),
        skip(src, j) == src.len(),
        0 <= skip(src, 0) < j <= src.len(),
{
    law_parsing_is_sound(src);
    lemma_skip(src, 0);
    let expr = read_source(src)->Ok_0.0;
    choose|j: int| #[trigger]
        is_expr(src, skip(src, 0), expr, j) && skip(src, j) == src.len()
}

proof fn lemma_concat_stands(before: Seq<u8>, src: Seq<u8>, after: Seq<u8>)
    requires
        before.len() + src.len() + after.len() <= usize::MAX,
        after.len() > 0 ==> !is_ident_byte(after[0]),
    ensures
        stands_in(before + src + after, src, before.len() as int),
{
    reveal(same_bytes);
}

/// A source in parentheses is the same expression, one byte further on: grouping
/// adds no node and does not widen the span of what it holds.
pub proof fn law_grouping_leaves_no_trace(src: Seq<u8>)
    requires
        read_source(src) is Ok,
        has_no_comment(src),
        src.len() + 2 <= usize::MAX,
    ensures
        ({
            let grouped = seq![LPAREN] + src + seq![RPAREN];
            read_source(grouped) == Result::<(ExprView, Span), ErrorView>::Ok(
                (shifted(read_source(src)->Ok_0.0, 1), span_of(0, src.len() as int + 2)),
            )
        }),
{
    let grouped = seq![LPAREN] + src + seq![RPAREN];
    let expr = read_source(src)->Ok_0.0;
    let j = lemma_parsed(src);
    let close = src.len() as int + 1;
    lemma_concat_stands(seq![LPAREN], src, seq![RPAREN]);
    assert(grouped[0] == LPAREN);
    assert(grouped[close] == RPAREN);
    lemma_inner_expr(grouped, src, 1, skip(src, 0), expr, j);
    lemma_inner_skip(grouped, src, 1, 0);
    lemma_skip_to_end(grouped, src, 1, j);
    assert(byte_at(grouped, skip(grouped, j + 1), RPAREN));
    let moved = shifted(expr, 1);
    assert(is_atom(grouped, 0, moved, close + 1));
    assert(is_postfix(grouped, 0, moved, close + 1));
    assert(is_add(grouped, 0, moved, close + 1));
    assert(is_chain(grouped, 0, moved, close + 1));
    assert(is_expr(grouped, 0, moved, close + 1));
    assert(skip(grouped, 0) == 0);
    assert(is_program(grouped, moved));
    law_parsing_is_complete(grouped, moved);
}

proof fn lemma_spelled_run(src: Seq<u8>, i: int, end: int)
    requires
        0 <= i <= end <= src.len(),
        forall|t: int| i <= t < end ==> is_ident_byte(#[trigger] src[t]),
        end < src.len() ==> !is_ident_byte(src[end]),
    ensures
        ident_run_end(src, i) == end,
    decreases end - i,
{
    if i < end {
        assert(is_ident_byte(src[i]));
        lemma_spelled_run(src, i + 1, end);
    }
}

/// A word that is spelled out in a source is the word there.
proof fn lemma_spelled_word(src: Seq<u8>, p: int, text: Seq<char>)
    requires
        0 <= p,
        0 < text.len(),
        p + text.len() <= src.len(),
        forall|k: int| 0 <= k < text.len() ==> is_ident_char(#[trigger] text[k]),
        !('0' <= text[0] <= '9'),
        src.subrange(p, p + text.len()) == bytes_of(text),
        p + text.len() < src.len() ==> !is_ident_byte(src[p + text.len()]),
    ensures
        word_at(src, p),
        word_end(src, p) == p + text.len(),
        word(src, p) == text,
        src[p] != SLASH,
        !is_space(src[p]),
{
    let part = src.subrange(p, p + text.len());
    assert forall|t: int| p <= t < p + text.len() implies is_ident_byte(#[trigger] src[t]) by {
        assert(part[t - p] == src[t]);
        assert(is_ident_char(text[t - p]));
    }
    assert(part[0] == src[p]);
    assert(is_ident_char(text[0]));
    lemma_spelled_run(src, p + 1, p + text.len());
    assert forall|k: int| 0 <= k < text.len() implies #[trigger] word(src, p)[k] == text[k] by {
        assert(part[k] == text[k] as u8);
        assert(is_ident_char(text[k]));
    }
    assert(word(src, p) =~= text);
}

/// What stands before the value in `let usage name = value in body`.
pub open spec fn let_head(usage: Usage, name: Seq<char>) -> Seq<char> {
    "let "@ + usage_text(usage) + " "@ + name + " = "@
}

/// `let usage name = a in b` is the `let` of the two expressions: its value is all
/// of `a`, and its body extends to the end of `b`.
pub proof fn law_a_let_binds_whole_sources(
    usage: Usage,
    name: Seq<char>,
    a: Seq<u8>,
    b: Seq<u8>,
)
    requires
        usage != Usage::Shared,
        is_name(name),
        read_source(a) is Ok,
        read_source(b) is Ok,
        has_no_comment(a),
        let_head(usage, name).len() + a.len() + 4 + b.len() <= usize::MAX,
    ensures
        ({
            let head = bytes_of(let_head(usage, name));
            let whole = head + a + bytes_of(" in "@) + b;
            let name_start = usage_text(usage).len() as int + 5;
            let value = shifted(read_source(a)->Ok_0.0, head.len() as int);
            let body = shifted(read_source(b)->Ok_0.0, head.len() as int + a.len() + 4);
            read_source(whole) == Result::<(ExprView, Span), ErrorView>::Ok(
                (
                    ExprView::Let {
                        usage,
                        name,
                        name_span: span_of(name_start, name_start + name.len()),
                        value: Box::new(value),
                        body: Box::new(body),
                        span: span_of(0, body.span().end as int),
                    },
                    span_of(0, whole.len() as int),
                ),
            )
        }),
{
    let head = bytes_of(let_head(usage, name));
    let keyword = bytes_of(" in "@);
    let whole = head + a + keyword + b;
    let h = head.len() as int;
    let m = h + a.len();
    assert(keyword.len() == 4) by {
        reveal_strlit(" in ");
    }
    assert(whole.subrange(0, h) =~= head);
    assert(whole.subrange(m, m + 4) =~= keyword);
    assert(whole.skip(m + 4) =~= b);
    lemma_in_tokens(whole, m);
    assert(stands_in(whole, a, h)) by {
        assert((keyword + b)[0] == whole[m]);
        assert(whole =~= head + a + (keyword + b));
        lemma_concat_stands(head, a, keyword + b);
    }
    assert(stands_in(whole, b, m + 4)) by {
        assert(whole =~= (head + a + keyword) + b + Seq::<u8>::empty());
        lemma_concat_stands(head + a + keyword, b, Seq::empty());
    }
    lemma_let_of_parts(whole, usage, name, a, b);
}

/// The law of [`law_a_let_binds_whole_sources`], where the parts are known to stand
/// where they should.
proof fn lemma_let_of_parts(
    whole: Seq<u8>,
    usage: Usage,
    name: Seq<char>,
    a: Seq<u8>,
    b: Seq<u8>,
)
    requires
        usage != Usage::Shared,
        is_name(name),
        read_source(a) is Ok,
        read_source(b) is Ok,
        has_no_comment(a),
        ({
            let h = let_head(usage, name).len() as int;
            let m = h + a.len();
            &&& whole.len() == m + 4 + b.len()
            &&& whole.subrange(0, h) == bytes_of(let_head(usage, name))
            &&& whole.subrange(m, m + 4) == bytes_of(" in "@)
            &&& whole.skip(m + 4) == b
            &&& stands_in(whole, a, h)
            &&& stands_in(whole, b, m + 4)
        }),
    ensures
        ({
            let h = let_head(usage, name).len() as int;
            let name_start = usage_text(usage).len() as int + 5;
            let value = shifted(read_source(a)->Ok_0.0, h);
            let body = shifted(read_source(b)->Ok_0.0, h + a.len() + 4);
            read_source(whole) == Result::<(ExprView, Span), ErrorView>::Ok(
                (
                    ExprView::Let {
                        usage,
                        name,
                        name_span: span_of(name_start, name_start + name.len()),
                        value: Box::new(value),
                        body: Box::new(body),
                        span: span_of(0, body.span().end as int),
                    },
                    span_of(0, whole.len() as int),
                ),
            )
        }),
{
    let p = usage_text(usage).len() as int + 5;
    let q = p + name.len();
    let h = let_head(usage, name).len() as int;
    let m = h + a.len();
    let d = m + 4;
    lemma_let_head_tokens(whole, usage, name);
    lemma_in_tokens(whole, m);
    let value = read_source(a)->Ok_0.0;
    let ja = lemma_parsed(a);
    lemma_inner_expr(whole, a, h, skip(a, 0), value, ja);
    lemma_inner_skip(whole, a, h, 0);
    lemma_skip_to_end(whole, a, h, ja);
    let body = read_source(b)->Ok_0.0;
    let jb = lemma_parsed(b);
    lemma_inner_expr(whole, b, d, skip(b, 0), body, jb);
    lemma_inner_skip(whole, b, d, 0);
    lemma_skip_in_rest(whole, d, jb);
    lemma_let_form(whole, usage, name, shifted(value, h), ja + h, shifted(body, d), jb + d);
    lemma_shifted_root(body, d);
    let expr = ExprView::Let {
        usage,
        name,
        name_span: span_of(p, q),
        value: Box::new(shifted(value, h)),
        body: Box::new(shifted(body, d)),
        span: joined(span_of(0, 3), shifted(body, d).span()),
    };
    assert(is_program(whole, expr));
    law_parsing_is_complete(whole, expr);
}

/// The tokens of the head of a `let`.
proof fn lemma_let_head_tokens(src: Seq<u8>, usage: Usage, name: Seq<char>)
    requires
        usage != Usage::Shared,
        is_name(name),
        let_head(usage, name).len() < src.len(),
        src.subrange(0, let_head(usage, name).len() as int) == bytes_of(let_head(usage, name)),
    ensures
        ({
            let p = usage_text(usage).len() as int + 5;
            let q = p + name.len();
            &&& let_head(usage, name).len() == q + 3
            &&& keyword_at(src, 0, "let"@)
            &&& word_end(src, 0) == 3
            &&& skip(src, 0) == 0
            &&& skip(src, 3) == 4
            &&& is_usage(src, 4, usage)
            &&& word_end(src, 4) == p - 1
            &&& skip(src, p - 1) == p
            &&& is_binder(src, p, (name, span_of(p, q)))
            &&& word_end(src, p) == q
            &&& skip(src, q) == q + 1
            &&& byte_at(src, q + 1, EQUALS)
            &&& skip(src, q + 2) == skip(src, q + 3)
        }),
{
    let p = usage_text(usage).len() as int + 5;
    let q = p + name.len();
    let head = let_head(usage, name);
    assert({
        &&& 5 < p < q
        &&& head.len() == q + 3
        &&& head.subrange(0, 3) == "let"@
        &&& head[3] == ' '
        &&& head.subrange(4, p - 1) == usage_text(usage)
        &&& head[p - 1] == ' '
        &&& head.subrange(p, q) == name
        &&& head[q] == ' '
        &&& head[q + 1] == '='
        &&& head[q + 2] == ' '
    }) by {
        lemma_let_head(usage, name);
        lemma_usage_word(usage);
    }
    assert(is_plain_word(head.subrange(4, p - 1))) by {
        lemma_usage_word(usage);
    }
    assert(is_plain_word(head.subrange(p, q)));
    lemma_head_words(src, head, p, q);
    assert(is_usage(src, 4, usage));
    assert(is_binder(src, p, (name, span_of(p, q))));
}

/// The words of the head of a `let`, by where they stand.
proof fn lemma_head_words(src: Seq<u8>, head: Seq<char>, p: int, q: int)
    requires
        5 < p < q,
        head.len() == q + 3 < src.len(),
        src.subrange(0, head.len() as int) == bytes_of(head),
        head.subrange(0, 3) == "let"@,
        head[3] == ' ',
        is_plain_word(head.subrange(4, p - 1)),
        head[p - 1] == ' ',
        is_plain_word(head.subrange(p, q)),
        head[q] == ' ',
        head[q + 1] == '=',
        head[q + 2] == ' ',
    ensures
        keyword_at(src, 0, "let"@),
        word_end(src, 0) == 3,
        skip(src, 0) == 0,
        skip(src, 3) == 4,
        word_at(src, 4),
        word(src, 4) == head.subrange(4, p - 1),
        word_end(src, 4) == p - 1,
        skip(src, p - 1) == p,
        word_at(src, p),
        word(src, p) == head.subrange(p, q),
        word_end(src, p) == q,
        skip(src, q) == q + 1,
        byte_at(src, q + 1, EQUALS),
        skip(src, q + 2) == skip(src, q + 3),
{
    assert(is_plain_word(head.subrange(0, 3))) by {
        reveal_strlit("let");
    }
    lemma_spelled_token(src, head, 0, 3);
    lemma_spelled_token(src, head, 4, p - 1);
    lemma_spelled_token(src, head, p, q);
    lemma_spelled_byte(src, head, q + 1);
    assert(skip(src, q + 1) == q + 1);
    lemma_spelled_byte(src, head, q + 2);
    lemma_space(src, q + 2);
}

/// `text` is a word: letters, digits and underscores, the first of them no digit.
spec fn is_plain_word(text: Seq<char>) -> bool {
    &&& text.len() > 0
    &&& !('0' <= text[0] <= '9')
    &&& forall|k: int| 0 <= k < text.len() ==> is_ident_char(#[trigger] text[k])
}

proof fn lemma_usage_word(usage: Usage)
    ensures
        is_plain_word(usage_text(usage)),
{
    reveal_strlit("ordinary");
    reveal_strlit("linear");
    reveal_strlit("shared");
}

proof fn lemma_spelled_byte(src: Seq<u8>, text: Seq<char>, t: int)
    requires
        0 <= t < text.len() <= src.len(),
        src.subrange(0, text.len() as int) == bytes_of(text),
    ensures
        src[t] == text[t] as u8,
{
    assert(src.subrange(0, text.len() as int)[t] == bytes_of(text)[t]);
}

/// A word of a text, with a space after it, is a token of a source that begins with
/// the text.
proof fn lemma_spelled_token(src: Seq<u8>, text: Seq<char>, i: int, j: int)
    requires
        0 <= i < j < text.len() <= src.len(),
        src.subrange(0, text.len() as int) == bytes_of(text),
        is_plain_word(text.subrange(i, j)),
        text[j] == ' ',
    ensures
        word_at(src, i),
        word_end(src, i) == j,
        word(src, i) == text.subrange(i, j),
        skip(src, i) == i,
        skip(src, j) == skip(src, j + 1),
{
    let part = text.subrange(i, j);
    assert(src.subrange(i, j) =~= bytes_of(part)) by {
        assert forall|k: int| 0 <= k < j - i implies #[trigger] src.subrange(i, j)[k] == bytes_of(
            part,
        )[k] by {
            lemma_spelled_byte(src, text, i + k);
        }
    }
    lemma_spelled_byte(src, text, j);
    lemma_space(src, j);
    lemma_spelled_word(src, i, part);
}

/// The token of ` in `.
proof fn lemma_in_tokens(src: Seq<u8>, m: int)
    requires
        0 <= m,
        m + 4 <= src.len(),
        src.subrange(m, m + 4) == bytes_of(" in "@),
    ensures
        !is_ident_byte(src[m]),
        skip(src, m) == m + 1,
        keyword_at(src, m + 1, "in"@),
        word_end(src, m + 1) == m + 3,
        skip(src, m + 3) == skip(src, m + 4),
{
    reveal_strlit(" in ");
    reveal_strlit("in");
    let part = src.subrange(m, m + 4);
    assert(part[0] == src[m]);
    assert(part[1] == src[m + 1]);
    assert(part[2] == src[m + 2]);
    assert(part[3] == src[m + 3]);
    lemma_space(src, m);
    assert(src.subrange(m + 1, m + 3) =~= bytes_of("in"@));
    lemma_space(src, m + 3);
    lemma_spelled_word(src, m + 1, "in"@);
}

/// A `let` is made of its parts.
proof fn lemma_let_form(
    src: Seq<u8>,
    usage: Usage,
    name: Seq<char>,
    value: ExprView,
    k: int,
    body: ExprView,
    j: int,
)
    requires
        ({
            let p = usage_text(usage).len() as int + 5;
            let q = p + name.len();
            let rest = skip(src, word_end(src, skip(src, k)));
            &&& keyword_at(src, 0, "let"@)
            &&& word_end(src, 0) == 3
            &&& skip(src, 3) == 4
            &&& is_usage(src, 4, usage)
            &&& word_end(src, 4) == p - 1
            &&& skip(src, p - 1) == p
            &&& is_binder(src, p, (name, span_of(p, q)))
            &&& word_end(src, p) == q
            &&& skip(src, q) == q + 1
            &&& byte_at(src, q + 1, EQUALS)
            &&& q + 1 < skip(src, q + 2) < k < rest < j
            &&& is_expr(src, skip(src, q + 2), value, k)
            &&& keyword_at(src, skip(src, k), "in"@)
            &&& is_expr(src, rest, body, j)
        }),
    ensures
        ({
            let p = usage_text(usage).len() as int + 5;
            let q = p + name.len();
            let expr = ExprView::Let {
                usage,
                name,
                name_span: span_of(p, q),
                value: Box::new(value),
                body: Box::new(body),
                span: joined(span_of(0, 3), body.span()),
            };
            is_expr(src, 0, expr, j)
        }),
{
    let p = usage_text(usage).len() as int + 5;
    let q = p + name.len();
    assert(keyword_at(src, skip(src, k), "in"@));
    assert(is_binding(src, q + 1, value, body, j));
    let expr = ExprView::Let {
        usage,
        name,
        name_span: span_of(p, q),
        value: Box::new(value),
        body: Box::new(body),
        span: joined(span_of(0, 3), body.span()),
    };
    assert(is_let(src, 0, expr, j));
}

/// Where the parts of the head of a `let` stand.
proof fn lemma_let_head(usage: Usage, name: Seq<char>)
    requires
        usage != Usage::Shared,
    ensures
        ({
            let head = let_head(usage, name);
            let word_len = usage_text(usage).len() as int;
            let q = word_len + 5 + name.len();
            &&& head.len() == q + 3
            &&& head.subrange(0, 3) == "let"@
            &&& head[3] == ' '
            &&& head.subrange(4, word_len + 4) == usage_text(usage)
            &&& head[word_len + 4] == ' '
            &&& head.subrange(word_len + 5, q) == name
            &&& head[q] == ' '
            &&& head[q + 1] == '='
            &&& head[q + 2] == ' '
        }),
{
    reveal_strlit("let ");
    reveal_strlit("let");
    reveal_strlit(" ");
    reveal_strlit(" = ");
    let head = let_head(usage, name);
    let word_len = usage_text(usage).len() as int;
    let q = word_len + 5 + name.len();
    assert(head.subrange(0, 3) =~= "let"@);
    assert(head.subrange(4, word_len + 4) =~= usage_text(usage));
    assert(head.subrange(word_len + 5, q) =~= name);
}

proof fn lemma_space(src: Seq<u8>, i: int)
    requires
        0 <= i < src.len(),
        src[i] == SPACE,
    ensures
        skip(src, i) == skip(src, i + 1),
        !is_ident_byte(src[i]),
{
}

proof fn lemma_shifted_root(expr: ExprView, d: int)
    ensures
        shifted(expr, d).span() == shifted_span(expr.span(), d),
{
}

/// A source with the one-byte token `op` and another source after it.
pub open spec fn joined_by(a: Seq<u8>, op: u8, b: Seq<u8>) -> Seq<u8> {
    a + seq![SPACE, op, SPACE] + b
}

/// To move by nothing is to stay.
proof fn lemma_shifted_zero(expr: ExprView)
    ensures
        shifted(expr, 0) == expr,
    decreases expr,
{
    match expr {
        ExprView::IntLit { value, span } => {},
        ExprView::Var { name, span } => {},
        ExprView::Add { lhs, rhs, span } => {
            lemma_shifted_zero(*lhs);
            lemma_shifted_zero(*rhs);
        },
        ExprView::Sequence { first, second, span } => {
            lemma_shifted_zero(*first);
            lemma_shifted_zero(*second);
        },
        ExprView::Let { usage, name, name_span, value, body, span } => {
            lemma_shifted_zero(*value);
            lemma_shifted_zero(*body);
        },
        ExprView::Tuple { elems, span } => {
            assert forall|k: int| 0 <= k < elems.len() implies shifted(
                #[trigger] elems[k],
                0,
            ) == elems[k] by {
                lemma_shifted_zero(elems[k]);
            }
            assert(shifted(expr, 0)->Tuple_elems =~= elems);
        },
        ExprView::TupleProj { tuple, index, span } => {
            lemma_shifted_zero(*tuple);
        },
        ExprView::TupleDestructure { names, value, body, span } => {
            lemma_shifted_zero(*value);
            lemma_shifted_zero(*body);
            assert(shifted_binders(names, 0) =~= names);
        },
        ExprView::MethodCall { name, name_span, args, span } => {
            assert forall|k: int| 0 <= k < args.len() implies shifted(
                #[trigger] args[k],
                0,
            ) == args[k] by {
                lemma_shifted_zero(args[k]);
            }
            assert(shifted(expr, 0)->MethodCall_args =~= args);
        },
        ExprView::ConstructorApp { name, name_span, fields, span } => {
            assert forall|k: int| 0 <= k < fields.len() implies shifted(
                (#[trigger] fields[k]).value,
                0,
            ) == fields[k].value by {
                lemma_shifted_zero(fields[k].value);
            }
            assert(shifted(expr, 0)->ConstructorApp_fields =~= fields);
        },
        ExprView::Match { scrutinee, arms, span } => {
            lemma_shifted_zero(*scrutinee);
            assert forall|k: int| 0 <= k < arms.len() implies shifted(
                (#[trigger] arms[k]).body,
                0,
            ) == arms[k].body && shifted_pattern(arms[k].pattern, 0) == arms[k].pattern by {
                lemma_shifted_zero(arms[k].body);
                lemma_shifted_pattern_zero(arms[k].pattern);
            }
            assert(shifted(expr, 0)->arms =~= arms);
        },
    }
}

proof fn lemma_shifted_pattern_zero(pattern: PatternView)
    ensures
        shifted_pattern(pattern, 0) == pattern,
{
    match pattern {
        PatternView::Constructor { name, fields, span } => {
            assert(shifted_pattern(pattern, 0)->fields =~= fields);
        },
        _ => {},
    }
}

/// Both sources stand in their join, with the token between them.
proof fn lemma_joined_parts(a: Seq<u8>, op: u8, b: Seq<u8>, ja: int)
    requires
        has_no_comment(a),
        op != SLASH,
        !is_space(op),
        a.len() + 3 + b.len() <= usize::MAX,
        0 <= ja <= a.len(),
        skip(a, ja) == a.len(),
    ensures
        has_parts(joined_by(a, op, b), a, ja, op, b),
{
    let whole = joined_by(a, op, b);
    let mid = seq![SPACE, op, SPACE];
    let n = a.len() as int;
    assert(whole.skip(n + 3) =~= b);
    assert(whole[n] == SPACE && whole[n + 1] == op && whole[n + 2] == SPACE);
    assert(stands_in(whole, a, 0)) by {
        assert(whole =~= Seq::<u8>::empty() + a + (mid + b));
        assert((mid + b)[0] == SPACE);
        lemma_concat_stands(Seq::empty(), a, mid + b);
    }
    assert(stands_in(whole, b, n + 3)) by {
        assert(whole =~= (a + mid) + b + Seq::<u8>::empty());
        lemma_concat_stands(a + mid, b, Seq::empty());
    }
    lemma_skip_to_end(whole, a, 0, ja);
    lemma_space(whole, n);
    lemma_space(whole, n + 2);
    assert(skip(whole, n + 1) == n + 1);
}

/// `a ; b` is the sequence of the two expressions. `a` may be a sequence itself, as
/// sequences group to the left; a `let` in it could take what follows into its body.
pub proof fn law_a_semicolon_joins_sources(a: Seq<u8>, b: Seq<u8>)
    requires
        read_source(a) is Ok,
        read_source(b) is Ok,
        has_no_let(a),
        has_no_comment(a),
        read_source(b)->Ok_0.0 !is Sequence,
        a.len() + 3 + b.len() <= usize::MAX,
    ensures
        ({
            let whole = joined_by(a, SEMICOLON, b);
            let first = read_source(a)->Ok_0.0;
            let second = shifted(read_source(b)->Ok_0.0, a.len() as int + 3);
            let expr = ExprView::Sequence {
                first: Box::new(first),
                second: Box::new(second),
                span: joined(first.span(), second.span()),
            };
            let start = skip(a, 0);
            &&& skip(whole, 0) == start
            &&& read_expr(whole, start) == Reading::<ExprView>::Ok((expr, whole.len() as int))
            &&& read_source(whole) == Result::<(ExprView, Span), ErrorView>::Ok(
                (expr, span_of(start, whole.len() as int)),
            )
        }),
{
    let whole = joined_by(a, SEMICOLON, b);
    let d = a.len() as int + 3;
    let ea = read_source(a)->Ok_0.0;
    let ja = lemma_parsed(a);
    let eb = read_source(b)->Ok_0.0;
    let jb = lemma_parsed(b);
    let second = shifted(eb, d);
    let expr = ExprView::Sequence {
        first: Box::new(ea),
        second: Box::new(second),
        span: joined(ea.span(), second.span()),
    };
    lemma_joined_parts(a, SEMICOLON, b, ja);
    lemma_sequence_of_parts(whole, a, ea, ja, b, eb, jb);
    lemma_reads_whole(whole, expr, jb + d);
}

/// An expression that fills a source is what is read in it.
proof fn lemma_reads_whole(src: Seq<u8>, expr: ExprView, j: int)
    requires
        is_expr(src, skip(src, 0), expr, j),
        skip(src, j) == src.len(),
    ensures
        read_expr(src, skip(src, 0)) == Reading::<ExprView>::Ok((expr, src.len() as int)),
        read_source(src) == Result::<(ExprView, Span), ErrorView>::Ok(
            (expr, span_of(skip(src, 0), src.len() as int)),
        ),
{
    lemma_expr_complete(src, skip(src, 0), expr, j);
}

/// `whole` is the source `a`, the token `op`, and the source `b`.
spec fn has_parts(whole: Seq<u8>, a: Seq<u8>, ja: int, op: u8, b: Seq<u8>) -> bool {
    let d = a.len() as int + 3;
    &&& whole.len() == d + b.len()
    &&& whole.skip(d) == b
    &&& stands_in(whole, a, 0)
    &&& stands_in(whole, b, d)
    &&& skip(whole, ja) == a.len() + 1
    &&& byte_at(whole, a.len() as int + 1, op)
    &&& skip(whole, a.len() as int + 2) == skip(whole, d)
}

/// Where the second part begins and ends.
proof fn lemma_second_part(
    whole: Seq<u8>,
    a: Seq<u8>,
    ja: int,
    op: u8,
    b: Seq<u8>,
    jb: int,
)
    requires
        has_parts(whole, a, ja, op, b),
        0 <= ja <= a.len(),
        0 <= skip(b, 0) < jb <= b.len(),
        b[skip(b, 0)] != SLASH,
        skip(b, jb) == b.len(),
    ensures
        separated(whole, ja, op, skip(b, 0) + a.len() + 3),
        skip(whole, jb + a.len() + 3) == whole.len(),
{
    let d = a.len() as int + 3;
    lemma_inner_skip(whole, b, d, 0);
    lemma_skip_in_rest(whole, d, jb);
}

proof fn lemma_sequence_of_parts(
    whole: Seq<u8>,
    a: Seq<u8>,
    ea: ExprView,
    ja: int,
    b: Seq<u8>,
    eb: ExprView,
    jb: int,
)
    requires
        has_parts(whole, a, ja, SEMICOLON, b),
        is_expr(a, skip(a, 0), ea, ja),
        has_no_let(a),
        is_expr(b, skip(b, 0), eb, jb),
        skip(b, jb) == b.len(),
        eb !is Sequence,
    ensures
        ({
            let d = a.len() as int + 3;
            let second = shifted(eb, d);
            let expr = ExprView::Sequence {
                first: Box::new(ea),
                second: Box::new(second),
                span: joined(ea.span(), second.span()),
            };
            &&& skip(whole, 0) == skip(a, 0)
            &&& is_expr(whole, skip(a, 0), expr, jb + d)
            &&& skip(whole, jb + d) == whole.len()
        }),
{
    let d = a.len() as int + 3;
    let start = skip(a, 0);
    let m = skip(b, 0);
    lemma_chain_without_let(a, start, ea, ja);
    lemma_inner_chain(whole, a, 0, start, ea, ja);
    lemma_inner_skip(whole, a, 0, 0);
    lemma_shifted_zero(ea);
    lemma_inner_expr(whole, b, d, m, eb, jb);
    lemma_second_part(whole, a, ja, SEMICOLON, b, jb);
    lemma_sequence_form(whole, start, ea, ja, m + d, shifted(eb, d), jb + d);
}

proof fn lemma_sequence_form(
    src: Seq<u8>,
    i: int,
    first: ExprView,
    k: int,
    m: int,
    second: ExprView,
    j: int,
)
    requires
        0 <= i < k < m < j <= src.len(),
        is_chain(src, i, first, k),
        separated(src, k, SEMICOLON, m),
        is_expr(src, m, second, j),
        second !is Sequence,
    ensures
        ({
            let expr = ExprView::Sequence {
                first: Box::new(first),
                second: Box::new(second),
                span: joined(first.span(), second.span()),
            };
            is_expr(src, i, expr, j)
        }),
{
    let expr = ExprView::Sequence {
        first: Box::new(first),
        second: Box::new(second),
        span: joined(first.span(), second.span()),
    };
    if is_let(src, m, second, j) {
        assert(is_expr(src, i, expr, j));
    } else {
        assert(is_chain(src, m, second, j));
        assert(is_add(src, m, second, j));
        assert(is_chain(src, i, expr, j));
    }
}

/// Without the keyword `let` an expression is a sequence of sums.
proof fn lemma_chain_without_let(src: Seq<u8>, i: int, expr: ExprView, j: int)
    requires
        is_expr(src, i, expr, j),
        has_no_let(src),
    ensures
        is_chain(src, i, expr, j),
{
    assert(!keyword_at(src, i, "let"@));
    if !is_chain(src, i, expr, j) {
        let first = *expr->Sequence_first;
        let second = *expr->Sequence_second;
        let (k, m) = choose|k: int, m: int|
            {
                &&& i < k < m < j
                &&& #[trigger] separated(src, k, SEMICOLON, m)
                &&& is_chain(src, i, first, k)
                &&& is_let(src, m, second, j)
            };
        assert(!keyword_at(src, m, "let"@));
    }
}

/// Without `let` and `;` an expression is a sum.
proof fn lemma_add_without_semicolon(src: Seq<u8>, i: int, expr: ExprView, j: int)
    requires
        is_expr(src, i, expr, j),
        has_no_let(src),
        lacks_byte(src, SEMICOLON),
    ensures
        is_add(src, i, expr, j),
{
    lemma_chain_without_let(src, i, expr, j);
    if !is_add(src, i, expr, j) {
        let first = *expr->Sequence_first;
        let second = *expr->Sequence_second;
        let (k, m) = choose|k: int, m: int|
            {
                &&& i < k < m < j
                &&& #[trigger] separated(src, k, SEMICOLON, m)
                &&& is_chain(src, i, first, k)
                &&& is_add(src, m, second, j)
            };
        assert(!byte_at(src, skip(src, k), SEMICOLON));
    }
}

/// Without `+` a sum is a single term.
proof fn lemma_postfix_without_plus(src: Seq<u8>, i: int, expr: ExprView, j: int)
    requires
        is_add(src, i, expr, j),
        lacks_byte(src, PLUS),
    ensures
        is_postfix(src, i, expr, j),
{
    if !is_postfix(src, i, expr, j) {
        let lhs = *expr->lhs;
        let rhs = *expr->rhs;
        let (k, m) = choose|k: int, m: int|
            {
                &&& i < k < m < j
                &&& #[trigger] separated(src, k, PLUS, m)
                &&& is_add(src, i, lhs, k)
                &&& is_postfix(src, m, rhs, j)
            };
        assert(!byte_at(src, skip(src, k), PLUS));
    }
}

/// `a + b` is the sum of the two expressions. `a` may be a sum itself, as sums group
/// to the left; a `;` or a `let` in either could take the other apart.
pub proof fn law_a_plus_joins_sources(a: Seq<u8>, b: Seq<u8>)
    requires
        read_source(a) is Ok,
        read_source(b) is Ok,
        has_no_let(a),
        has_no_let(b),
        lacks_byte(a, SEMICOLON),
        lacks_byte(b, SEMICOLON),
        lacks_byte(b, PLUS),
        has_no_comment(a),
        a.len() + 3 + b.len() <= usize::MAX,
    ensures
        ({
            let whole = joined_by(a, PLUS, b);
            let lhs = read_source(a)->Ok_0.0;
            let rhs = shifted(read_source(b)->Ok_0.0, a.len() as int + 3);
            let expr = ExprView::Add {
                lhs: Box::new(lhs),
                rhs: Box::new(rhs),
                span: joined(lhs.span(), rhs.span()),
            };
            let start = skip(a, 0);
            &&& skip(whole, 0) == start
            &&& read_add(whole, start) == Reading::<ExprView>::Ok((expr, whole.len() as int))
            &&& read_source(whole) == Result::<(ExprView, Span), ErrorView>::Ok(
                (expr, span_of(start, whole.len() as int)),
            )
        }),
{
    let whole = joined_by(a, PLUS, b);
    let d = a.len() as int + 3;
    let ea = read_source(a)->Ok_0.0;
    let ja = lemma_parsed(a);
    let eb = read_source(b)->Ok_0.0;
    let jb = lemma_parsed(b);
    let rhs = shifted(eb, d);
    let expr = ExprView::Add {
        lhs: Box::new(ea),
        rhs: Box::new(rhs),
        span: joined(ea.span(), rhs.span()),
    };
    lemma_joined_parts(a, PLUS, b, ja);
    lemma_sum_of_parts(whole, a, ea, ja, b, eb, jb);
    lemma_reads_sum(whole, skip(a, 0), expr, jb + d);
    lemma_reads_whole(whole, expr, jb + d);
}

/// A sum that extends to the end of a source is what is read there.
proof fn lemma_reads_sum(src: Seq<u8>, i: int, expr: ExprView, j: int)
    requires
        is_add(src, i, expr, j),
        skip(src, j) == src.len(),
    ensures
        read_add(src, i) == Reading::<ExprView>::Ok((expr, src.len() as int)),
        is_expr(src, i, expr, j),
{
    lemma_add_complete(src, i, expr, j);
    assert(is_chain(src, i, expr, j));
}

proof fn lemma_sum_of_parts(
    whole: Seq<u8>,
    a: Seq<u8>,
    ea: ExprView,
    ja: int,
    b: Seq<u8>,
    eb: ExprView,
    jb: int,
)
    requires
        has_parts(whole, a, ja, PLUS, b),
        is_expr(a, skip(a, 0), ea, ja),
        has_no_let(a),
        has_no_let(b),
        lacks_byte(a, SEMICOLON),
        lacks_byte(b, SEMICOLON),
        lacks_byte(b, PLUS),
        is_expr(b, skip(b, 0), eb, jb),
        skip(b, jb) == b.len(),
    ensures
        ({
            let d = a.len() as int + 3;
            let rhs = shifted(eb, d);
            let expr = ExprView::Add {
                lhs: Box::new(ea),
                rhs: Box::new(rhs),
                span: joined(ea.span(), rhs.span()),
            };
            &&& skip(whole, 0) == skip(a, 0)
            &&& is_add(whole, skip(a, 0), expr, jb + d)
            &&& skip(whole, jb + d) == whole.len()
        }),
{
    let d = a.len() as int + 3;
    let start = skip(a, 0);
    let m = skip(b, 0);
    lemma_add_without_semicolon(a, start, ea, ja);
    lemma_inner_add(whole, a, 0, start, ea, ja);
    lemma_inner_skip(whole, a, 0, 0);
    lemma_shifted_zero(ea);
    lemma_add_without_semicolon(b, m, eb, jb);
    lemma_postfix_without_plus(b, m, eb, jb);
    lemma_inner_postfix(whole, b, d, m, eb, jb);
    lemma_second_part(whole, a, ja, PLUS, b, jb);
}

/// A numeral, that is one or more digits, denotes `n`.
pub open spec fn denotes(digits: Seq<u8>, n: int) -> bool
    decreases digits.len(),
{
    if digits.len() <= 1 {
        digits.len() == 1 && 48 <= digits[0] <= 57 && n == digits[0] - 48
    } else {
        48 <= digits.last() <= 57 && n % 10 == digits.last() - 48 && denotes(
            digits.drop_last(),
            n / 10,
        )
    }
}

proof fn lemma_denotes(digits: Seq<u8>, n: int)
    requires
        denotes(digits, n),
    ensures
        digits.len() > 0,
        n >= 0,
        forall|k: int| 0 <= k < digits.len() ==> 48 <= #[trigger] digits[k] <= 57,
        digits_value(digits) == n,
    decreases digits.len(),
{
    let shorter = digits.drop_last();
    if digits.len() == 1 {
        assert(shorter =~= Seq::empty());
        assert(digits_value(Seq::<u8>::empty()) == 0);
    } else {
        lemma_denotes(shorter, n / 10);
        assert forall|k: int| 0 <= k < digits.len() implies 48 <= #[trigger] digits[k] <= 57 by {
            if k < digits.len() - 1 {
                assert(shorter[k] == digits[k]);
            }
        }
    }
}

proof fn lemma_digits_to_end(src: Seq<u8>, i: int)
    requires
        0 <= i <= src.len(),
        forall|k: int| i <= k < src.len() ==> 48 <= #[trigger] src[k] <= 57,
    ensures
        digits_end(src, i) == src.len(),
    decreases src.len() - i,
{
    if i < src.len() {
        assert(48 <= src[i] <= 57);
        lemma_digits_to_end(src, i + 1);
    }
}

/// A source that is a numeral is that number if it fits in 64 bits, also where it begins
/// with zeros, and else an error about all of it. So is one with a minus sign before.
pub proof fn law_a_numeral_is_its_number(digits: Seq<u8>, n: int)
    requires
        denotes(digits, n),
    ensures
        n <= 0x7fff_ffff_ffff_ffff ==> read_source(digits) == Result::<
            (ExprView, Span),
            ErrorView,
        >::Ok(
            (
                ExprView::IntLit { value: n as i64, span: span_of(0, digits.len() as int) },
                span_of(0, digits.len() as int),
            ),
        ),
        n > 0x7fff_ffff_ffff_ffff ==> read_source(digits) == Result::<
            (ExprView, Span),
            ErrorView,
        >::Err(
            (ErrorView {
                category: ErrorCategory::ParseError,
                span: span_of(0, digits.len() as int),
                note: Some(
                    "integer literal `"@ + ascii_text(digits) + "` does not fit in i64"@,
                ),
                related: Seq::empty(),
            }),
        ),
        n <= 0x8000_0000_0000_0000 ==> read_source(seq![45u8] + digits) == Result::<
            (ExprView, Span),
            ErrorView,
        >::Ok(
            (
                ExprView::IntLit { value: (-n) as i64, span: span_of(0, digits.len() as int + 1) },
                span_of(0, digits.len() as int + 1),
            ),
        ),
        n > 0x8000_0000_0000_0000 ==> read_source(seq![45u8] + digits) == Result::<
            (ExprView, Span),
            ErrorView,
        >::Err(
            (ErrorView {
                category: ErrorCategory::ParseError,
                span: span_of(0, digits.len() as int + 1),
                note: Some(
                    "integer literal `"@ + ascii_text(seq![45u8] + digits)
                        + "` does not fit in i64"@,
                ),
                related: Seq::empty(),
            }),
        ),
{
    lemma_denotes(digits, n);
    let signed = seq![45u8] + digits;
    assert(48 <= digits[0] <= 57);
    lemma_digits_to_end(digits, 0);
    assert(digits.subrange(0, digits.len() as int) =~= digits);
    lemma_numeral_source(digits);
    assert(signed[0] == 45 && signed[1] == digits[0]);
    assert forall|k: int| 1 <= k < signed.len() implies 48 <= #[trigger] signed[k] <= 57 by {
        assert(signed[k] == digits[k - 1]);
    }
    lemma_digits_to_end(signed, 1);
    assert(signed.subrange(1, signed.len() as int) =~= digits);
    assert(signed.subrange(0, signed.len() as int) =~= signed);
    lemma_numeral_source(signed);
}

/// A source that is one integer literal.
proof fn lemma_numeral_source(src: Seq<u8>)
    requires
        int_at(src, 0),
        int_end(src, 0) == src.len(),
    ensures
        i64::MIN <= int_value(src, 0) <= i64::MAX ==> read_source(src) == Result::<
            (ExprView, Span),
            ErrorView,
        >::Ok(
            (
                ExprView::IntLit {
                    value: int_value(src, 0) as i64,
                    span: span_of(0, src.len() as int),
                },
                span_of(0, src.len() as int),
            ),
        ),
        !(i64::MIN <= int_value(src, 0) <= i64::MAX) ==> read_source(src) == Result::<
            (ExprView, Span),
            ErrorView,
        >::Err(read_int(src, 0)->Err_0),
{
    lemma_int(src, 0);
    assert(skip(src, 0) == 0);
    let end = src.len() as int;
    assert(skip(src, end) == end);
    assert(!keyword_at(src, 0, "let"@));
    if i64::MIN <= int_value(src, 0) <= i64::MAX {
        let expr = ExprView::IntLit { value: int_value(src, 0) as i64, span: span_of(0, end) };
        assert(is_atom(src, 0, expr, end));
        assert(is_postfix(src, 0, expr, end));
        assert(is_add(src, 0, expr, end));
        assert(is_chain(src, 0, expr, end));
        assert(is_expr(src, 0, expr, end));
        lemma_reads_whole(src, expr, end);
    } else {
        let e = read_int(src, 0)->Err_0;
        assert(read_atom(src, 0) == Reading::<ExprView>::Err(e));
        assert(read_postfix(src, 0) == Reading::<ExprView>::Err(e));
        assert(read_add(src, 0) == Reading::<ExprView>::Err(e));
        assert(read_seq_atom(src, 0) == Reading::<ExprView>::Err(e));
        assert(read_expr(src, 0) == Reading::<ExprView>::Err(e));
    }
}

/// `a.n` is the projection from the expression `a`. `a` may be a projection itself, as
/// projections group to the left; a `;`, a `+` or a `let` in it would take its last part
/// only. The index may begin with zeros.
pub proof fn law_a_dot_projects_from_a_source(a: Seq<u8>, digits: Seq<u8>, n: int)
    requires
        read_source(a) is Ok,
        has_no_let(a),
        lacks_byte(a, 59),
        lacks_byte(a, 43),
        has_no_comment(a),
        denotes(digits, n),
        n <= usize::MAX,
        a.len() + 1 + digits.len() <= usize::MAX,
    ensures
        ({
            let whole = a + seq![46u8] + digits;
            let tuple = read_source(a)->Ok_0.0;
            let at = a.len() as int + 1;
            let expr = ExprView::TupleProj {
                tuple: Box::new(tuple),
                index: n as usize,
                span: joined(tuple.span(), span_of(at, whole.len() as int)),
            };
            read_source(whole) == Result::<(ExprView, Span), ErrorView>::Ok(
                (expr, span_of(skip(a, 0), whole.len() as int)),
            )
        }),
{
    let whole = a + seq![46u8] + digits;
    let tuple = read_source(a)->Ok_0.0;
    let ja = lemma_parsed(a);
    let start = skip(a, 0);
    let m = a.len() as int + 1;
    lemma_denotes(digits, n);
    assert(whole[m - 1] == 46);
    assert forall|k: int| m <= k < whole.len() implies 48 <= #[trigger] whole[k] <= 57 by {
        assert(whole[k] == digits[k - m]);
    }
    assert(stands_in(whole, a, 0)) by {
        assert(whole =~= Seq::<u8>::empty() + a + (seq![46u8] + digits));
        assert((seq![46u8] + digits)[0] == 46);
        lemma_concat_stands(Seq::empty(), a, seq![46u8] + digits);
    }
    lemma_add_without_semicolon(a, start, tuple, ja);
    lemma_postfix_without_plus(a, start, tuple, ja);
    lemma_digits_to_end(whole, m);
    assert(whole.subrange(m, whole.len() as int) =~= digits);
    lemma_dot_of_parts(whole, a, tuple, ja, n);
}

proof fn lemma_dot_of_parts(whole: Seq<u8>, a: Seq<u8>, tuple: ExprView, ja: int, n: int)
    requires
        stands_in(whole, a, 0),
        has_no_comment(a),
        is_postfix(a, skip(a, 0), tuple, ja),
        0 <= skip(a, 0) < ja <= a.len(),
        skip(a, ja) == a.len(),
        a.len() + 1 < whole.len(),
        whole[a.len() as int] == 46,
        digit_at(whole, a.len() as int + 1),
        digits_end(whole, a.len() as int + 1) == whole.len(),
        digits_value(whole.subrange(a.len() as int + 1, whole.len() as int)) == n,
        n <= usize::MAX,
    ensures
        ({
            let at = a.len() as int + 1;
            let expr = ExprView::TupleProj {
                tuple: Box::new(tuple),
                index: n as usize,
                span: joined(tuple.span(), span_of(at, whole.len() as int)),
            };
            read_source(whole) == Result::<(ExprView, Span), ErrorView>::Ok(
                (expr, span_of(skip(a, 0), whole.len() as int)),
            )
        }),
{
    let start = skip(a, 0);
    let m = a.len() as int + 1;
    let end = whole.len() as int;
    let expr = ExprView::TupleProj {
        tuple: Box::new(tuple),
        index: n as usize,
        span: joined(tuple.span(), span_of(m, end)),
    };
    lemma_inner_postfix(whole, a, 0, start, tuple, ja);
    lemma_inner_skip(whole, a, 0, 0);
    lemma_shifted_zero(tuple);
    lemma_skip_to_end(whole, a, 0, ja);
    assert(skip(whole, m - 1) == m - 1);
    assert(skip(whole, m) == m);
    assert(separated(whole, ja, DOT, m));
    assert(is_postfix(whole, start, *expr->tuple, ja));
    assert(is_postfix(whole, start, expr, end));
    assert(is_add(whole, start, expr, end));
    assert(is_chain(whole, start, expr, end));
    assert(is_expr(whole, start, expr, end));
    assert(skip(whole, end) == end);
    lemma_reads_whole(whole, expr, end);
}

} // verus!
