//! What stands before a source only moves what is read in it.
//!
//! [`law_leading_trivia_only_moves_spans`] says so of trivia before a program.

use crate::ast::{
    joined, span_of, ExprView, FieldBindingView, FieldInitView, MatchArmView, PatternView, Span,
    Usage,
};
use crate::error::{ErrorView, RelatedView, NEWLINE};
use crate::lexical::{
    byte_at, comment_at, digit_at, digits_end, ident_run_end, int_at, int_digits_start, int_end,
    is_space, keyword_at, lemma_digits_end, lemma_int, lemma_next_line, lemma_word, next_line, skip,
    word, word_at, word_end, COMMA, DOT, EQUALS, LPAREN, PLUS, RPAREN, SEMICOLON,
};
use crate::reading::{
    error_here, error_over, lemma_after, read_add, read_atom, read_binder, read_binding, read_expr,
    read_index, read_int, read_let, read_more_add, read_more_elems, read_more_names, read_more_proj,
    read_more_seq, read_names, read_paren, read_pattern, read_postfix, read_seq_atom, read_source,
    read_usage, Reading,
};
use vstd::prelude::*;

verus! {

// -----------------------------------------------------------------------------
// Moved spans
// -----------------------------------------------------------------------------

/// `span`, `d` bytes further on.
pub open spec fn shifted_span(span: Span, d: int) -> Span {
    span_of(span.start + d, span.end + d)
}

/// Binders with their spans `d` bytes further on.
pub open spec fn shifted_binders(
    binders: Seq<(Seq<char>, Span)>,
    d: int,
) -> Seq<(Seq<char>, Span)> {
    binders.map_values(|b: (Seq<char>, Span)| (b.0, shifted_span(b.1, d)))
}

/// `pattern` with its spans `d` bytes further on.
pub open spec fn shifted_pattern(pattern: PatternView, d: int) -> PatternView {
    match pattern {
        PatternView::Wildcard { span } => PatternView::Wildcard { span: shifted_span(span, d) },
        PatternView::Var { name, span } => PatternView::Var { name, span: shifted_span(span, d) },
        PatternView::Constructor { name, fields, span } => PatternView::Constructor {
            name,
            fields: fields.map_values(
                |f: FieldBindingView| FieldBindingView { span: shifted_span(f.span, d), ..f },
            ),
            span: shifted_span(span, d),
        },
    }
}

/// `expr` with all its spans `d` bytes further on.
pub open spec fn shifted(expr: ExprView, d: int) -> ExprView
    decreases expr,
{
    match expr {
        ExprView::IntLit { value, span } => ExprView::IntLit { value, span: shifted_span(span, d) },
        ExprView::Var { name, span } => ExprView::Var { name, span: shifted_span(span, d) },
        ExprView::Add { lhs, rhs, span } => ExprView::Add {
            lhs: Box::new(shifted(*lhs, d)),
            rhs: Box::new(shifted(*rhs, d)),
            span: shifted_span(span, d),
        },
        ExprView::Sequence { first, second, span } => ExprView::Sequence {
            first: Box::new(shifted(*first, d)),
            second: Box::new(shifted(*second, d)),
            span: shifted_span(span, d),
        },
        ExprView::Let { usage, name, name_span, value, body, span } => ExprView::Let {
            usage,
            name,
            name_span: shifted_span(name_span, d),
            value: Box::new(shifted(*value, d)),
            body: Box::new(shifted(*body, d)),
            span: shifted_span(span, d),
        },
        ExprView::Tuple { elems, span } => ExprView::Tuple {
            elems: Seq::new(
                elems.len(),
                |i: int|
                    if 0 <= i < elems.len() {
                        shifted(elems[i], d)
                    } else {
                        arbitrary()
                    },
            ),
            span: shifted_span(span, d),
        },
        ExprView::TupleProj { tuple, index, span } => ExprView::TupleProj {
            tuple: Box::new(shifted(*tuple, d)),
            index,
            span: shifted_span(span, d),
        },
        ExprView::TupleDestructure { names, value, body, span } => ExprView::TupleDestructure {
            names: shifted_binders(names, d),
            value: Box::new(shifted(*value, d)),
            body: Box::new(shifted(*body, d)),
            span: shifted_span(span, d),
        },
        ExprView::MethodCall { name, name_span, args, span } => ExprView::MethodCall {
            name,
            name_span: shifted_span(name_span, d),
            args: Seq::new(
                args.len(),
                |i: int|
                    if 0 <= i < args.len() {
                        shifted(args[i], d)
                    } else {
                        arbitrary()
                    },
            ),
            span: shifted_span(span, d),
        },
        ExprView::ConstructorApp { name, name_span, fields, span } => ExprView::ConstructorApp {
            name,
            name_span: shifted_span(name_span, d),
            fields: Seq::new(
                fields.len(),
                |i: int|
                    if 0 <= i < fields.len() {
                        FieldInitView {
                            field: fields[i].field,
                            value: shifted(fields[i].value, d),
                            span: shifted_span(fields[i].span, d),
                        }
                    } else {
                        arbitrary()
                    },
            ),
            span: shifted_span(span, d),
        },
        ExprView::Match { scrutinee, arms, span } => ExprView::Match {
            scrutinee: Box::new(shifted(*scrutinee, d)),
            arms: Seq::new(
                arms.len(),
                |i: int|
                    if 0 <= i < arms.len() {
                        MatchArmView {
                            pattern: shifted_pattern(arms[i].pattern, d),
                            body: shifted(arms[i].body, d),
                            span: shifted_span(arms[i].span, d),
                        }
                    } else {
                        arbitrary()
                    },
            ),
            span: shifted_span(span, d),
        },
    }
}

/// Expressions with all their spans `d` bytes further on.
pub open spec fn shifted_exprs(exprs: Seq<ExprView>, d: int) -> Seq<ExprView> {
    exprs.map_values(|e: ExprView| shifted(e, d))
}

/// `err` with all its spans `d` bytes further on.
pub open spec fn shifted_error(err: ErrorView, d: int) -> ErrorView {
    ErrorView {
        span: shifted_span(err.span, d),
        related: err.related.map_values(
            |r: RelatedView| RelatedView { span: shifted_span(r.span, d), ..r },
        ),
        ..err
    }
}

/// `span` ends no later than `len`.
pub open spec fn bounded(span: Span, len: int) -> bool {
    span.start <= len && span.end <= len
}

pub proof fn lemma_shifted_tuple(elems: Seq<ExprView>, span: Span, d: int)
    ensures
        shifted(ExprView::Tuple { elems, span }, d) == (ExprView::Tuple {
            elems: shifted_exprs(elems, d),
            span: shifted_span(span, d),
        }),
{
    assert(shifted(ExprView::Tuple { elems, span }, d)->Tuple_elems =~= shifted_exprs(elems, d));
}

pub proof fn lemma_shifted_join(a: Span, b: Span, len: int, d: int)
    requires
        bounded(a, len),
        bounded(b, len),
        0 <= d,
        len + d <= usize::MAX,
    ensures
        bounded(joined(a, b), len),
        shifted_span(joined(a, b), d) == joined(shifted_span(a, d), shifted_span(b, d)),
{
}

// -----------------------------------------------------------------------------
// Reading in a longer source
// -----------------------------------------------------------------------------

/// `big` is `src` with `d` bytes before it.
spec fn is_suffix(big: Seq<u8>, src: Seq<u8>, d: int) -> bool {
    &&& 0 <= d
    &&& big.len() == src.len() + d
    &&& big.len() <= usize::MAX
    &&& same_bytes(big, src, d)
}

#[verifier::opaque]
spec fn same_bytes(big: Seq<u8>, src: Seq<u8>, d: int) -> bool {
    forall|k: int| 0 <= k < src.len() ==> big[k + d] == #[trigger] src[k]
}

proof fn lemma_suffix_byte(big: Seq<u8>, src: Seq<u8>, d: int, k: int)
    requires
        is_suffix(big, src, d),
        0 <= k,
    ensures
        k < src.len() ==> big[k + d] == src[k],
        forall|b: u8| #[trigger] byte_at(big, k + d, b) == byte_at(src, k, b),
{
    reveal(same_bytes);
}

proof fn lemma_suffix_next_line(big: Seq<u8>, src: Seq<u8>, d: int, i: int)
    requires
        is_suffix(big, src, d),
        0 <= i,
    ensures
        next_line(big, i + d) == next_line(src, i) + d,
    decreases src.len() - i,
{
    lemma_suffix_byte(big, src, d, i);
    if i < src.len() && src[i] != NEWLINE {
        lemma_suffix_next_line(big, src, d, i + 1);
    }
}

proof fn lemma_suffix_skip(big: Seq<u8>, src: Seq<u8>, d: int, i: int)
    requires
        is_suffix(big, src, d),
        0 <= i,
    ensures
        skip(big, i + d) == skip(src, i) + d,
        i <= skip(src, i),
        i <= src.len() ==> skip(src, i) <= src.len(),
    decreases src.len() - i,
{
    if i < src.len() {
        lemma_suffix_byte(big, src, d, i);
        lemma_suffix_byte(big, src, d, i + 1);
        if is_space(src[i]) {
            lemma_suffix_skip(big, src, d, i + 1);
        } else if comment_at(src, i) {
            lemma_next_line(src, i);
            lemma_suffix_next_line(big, src, d, i);
            lemma_suffix_skip(big, src, d, next_line(src, i));
        }
    }
}

proof fn lemma_suffix_ident_run(big: Seq<u8>, src: Seq<u8>, d: int, i: int)
    requires
        is_suffix(big, src, d),
        0 <= i,
    ensures
        ident_run_end(big, i + d) == ident_run_end(src, i) + d,
    decreases src.len() - i,
{
    lemma_suffix_byte(big, src, d, i);
    if i < src.len() {
        lemma_suffix_ident_run(big, src, d, i + 1);
    }
}

proof fn lemma_suffix_digits(big: Seq<u8>, src: Seq<u8>, d: int, i: int)
    requires
        is_suffix(big, src, d),
        0 <= i,
    ensures
        digits_end(big, i + d) == digits_end(src, i) + d,
        digit_at(big, i + d) == digit_at(src, i),
    decreases src.len() - i,
{
    lemma_suffix_byte(big, src, d, i);
    if i < src.len() {
        lemma_suffix_digits(big, src, d, i + 1);
    }
}

proof fn lemma_suffix_part(big: Seq<u8>, src: Seq<u8>, d: int, i: int, j: int)
    requires
        is_suffix(big, src, d),
        0 <= i <= j <= src.len(),
    ensures
        big.subrange(i + d, j + d) == src.subrange(i, j),
{
    assert forall|k: int| 0 <= k < j - i implies big.subrange(i + d, j + d)[k] == src.subrange(
        i,
        j,
    )[k] by {
        lemma_suffix_byte(big, src, d, i + k);
    }
    assert(big.subrange(i + d, j + d) =~= src.subrange(i, j));
}

/// The word at a place is the same, and ends at the same place.
proof fn lemma_suffix_word(big: Seq<u8>, src: Seq<u8>, d: int, i: int)
    requires
        is_suffix(big, src, d),
        0 <= i,
    ensures
        word_at(big, i + d) == word_at(src, i),
        word_at(src, i) ==> {
            &&& word_end(big, i + d) == word_end(src, i) + d
            &&& word(big, i + d) == word(src, i)
            &&& i < word_end(src, i) <= src.len()
        },
        forall|kw: Seq<char>| #[trigger] keyword_at(big, i + d, kw) == keyword_at(src, i, kw),
{
    lemma_suffix_byte(big, src, d, i);
    if word_at(src, i) {
        lemma_word(src, i);
        lemma_suffix_ident_run(big, src, d, i + 1);
        lemma_suffix_part(big, src, d, i, word_end(src, i));
    }
}

/// What reading `x` at a place of a source and at the same place of a longer
/// source yields: the same, moved on.
spec fn moves(a: Reading<ExprView>, b: Reading<ExprView>, src: Seq<u8>, i: int, d: int) -> bool {
    match a {
        Ok((expr, end)) => {
            &&& i < end <= src.len()
            &&& bounded(expr.span(), src.len() as int)
            &&& b == Reading::<ExprView>::Ok((shifted(expr, d), end + d))
        },
        Err(e) => b == Reading::<ExprView>::Err(shifted_error(e, d)),
    }
}

/// As [`moves`], where reading went on at `i` and may end there.
spec fn moves_on(
    a: Reading<ExprView>,
    b: Reading<ExprView>,
    src: Seq<u8>,
    i: int,
    d: int,
) -> bool {
    match a {
        Ok((expr, end)) => {
            &&& i <= end <= src.len()
            &&& bounded(expr.span(), src.len() as int)
            &&& b == Reading::<ExprView>::Ok((shifted(expr, d), end + d))
        },
        Err(e) => b == Reading::<ExprView>::Err(shifted_error(e, d)),
    }
}

proof fn lemma_shifted_span_of(src: Seq<u8>, i: int, j: int, d: int)
    requires
        0 <= i <= src.len(),
        0 <= j <= src.len(),
        0 <= d,
        src.len() + d <= usize::MAX,
    ensures
        bounded(span_of(i, j), src.len() as int),
        shifted_span(span_of(i, j), d) == span_of(i + d, j + d),
{
}

/// An error without related places is moved by moving its span.
proof fn lemma_shifted_error(src: Seq<u8>, i: int, d: int)
    requires
        0 <= i <= src.len(),
        0 <= d,
        src.len() + d <= usize::MAX,
    ensures
        forall|big: Seq<u8>, note: Seq<char>|
            big.len() == src.len() + d ==> shifted_error(error_here(src, i, note), d)
                == #[trigger] error_here(big, i + d, note),
        forall|j: int, note: Seq<char>|
            0 <= j <= src.len() ==> shifted_error(#[trigger] error_over(i, j, note), d)
                == error_over(i + d, j + d, note),
{
    assert forall|big: Seq<u8>, note: Seq<char>| big.len() == src.len() + d implies shifted_error(
        error_here(src, i, note),
        d,
    ) == #[trigger] error_here(big, i + d, note) by {
        assert(shifted_error(error_here(src, i, note), d).related =~= Seq::empty());
    }
    assert forall|j: int, note: Seq<char>| 0 <= j <= src.len() implies shifted_error(
        #[trigger] error_over(i, j, note),
        d,
    ) == error_over(i + d, j + d, note) by {
        assert(shifted_error(error_over(i, j, note), d).related =~= Seq::empty());
    }
}

proof fn lemma_binder_moves(big: Seq<u8>, src: Seq<u8>, d: int, i: int)
    requires
        is_suffix(big, src, d),
        0 <= i <= src.len(),
    ensures
        match read_binder(src, i) {
            Ok((binder, end)) => {
                &&& i < end <= src.len()
                &&& bounded(binder.1, src.len() as int)
                &&& read_binder(big, i + d) == Reading::<(Seq<char>, Span)>::Ok(
                    ((binder.0, shifted_span(binder.1, d)), end + d),
                )
            },
            Err(e) => read_binder(big, i + d) == Reading::<(Seq<char>, Span)>::Err(
                shifted_error(e, d),
            ),
        },
{
    lemma_suffix_word(big, src, d, i);
    lemma_shifted_error(src, i, d);
}

proof fn lemma_usage_moves(big: Seq<u8>, src: Seq<u8>, d: int, i: int)
    requires
        is_suffix(big, src, d),
        0 <= i <= src.len(),
    ensures
        match read_usage(src, i) {
            Ok((usage, end)) => {
                &&& i < end <= src.len()
                &&& read_usage(big, i + d) == Reading::<Usage>::Ok((usage, end + d))
            },
            Err(e) => read_usage(big, i + d) == Reading::<Usage>::Err(shifted_error(e, d)),
        },
{
    lemma_suffix_word(big, src, d, i);
    lemma_shifted_error(src, i, d);
}

proof fn lemma_index_moves(big: Seq<u8>, src: Seq<u8>, d: int, i: int)
    requires
        is_suffix(big, src, d),
        0 <= i <= src.len(),
    ensures
        match read_index(src, i) {
            Ok((index, end)) => {
                &&& i < end <= src.len()
                &&& read_index(big, i + d) == Reading::<usize>::Ok((index, end + d))
            },
            Err(e) => read_index(big, i + d) == Reading::<usize>::Err(shifted_error(e, d)),
        },
{
    lemma_suffix_digits(big, src, d, i);
    lemma_digits_end(src, i);
    lemma_suffix_part(big, src, d, i, digits_end(src, i));
    lemma_shifted_error(src, i, d);
}

proof fn lemma_int_moves(big: Seq<u8>, src: Seq<u8>, d: int, i: int)
    requires
        is_suffix(big, src, d),
        0 <= i <= src.len(),
    ensures
        int_at(big, i + d) == int_at(src, i),
        int_at(src, i) ==> moves(read_int(src, i), read_int(big, i + d), src, i, d),
{
    lemma_suffix_byte(big, src, d, i);
    lemma_suffix_byte(big, src, d, i + 1);
    if int_at(src, i) {
        lemma_int(src, i);
        let start = int_digits_start(src, i);
        lemma_suffix_digits(big, src, d, start);
        lemma_suffix_part(big, src, d, i, int_end(src, i));
        lemma_suffix_part(big, src, d, start, int_end(src, i));
        lemma_shifted_error(src, i, d);
        lemma_shifted_span_of(src, i, int_end(src, i), d);
    }
}

/// What reading names yields in a source and in a longer one: the same, moved on.
spec fn names_move(
    a: Reading<Seq<(Seq<char>, Span)>>,
    b: Reading<Seq<(Seq<char>, Span)>>,
    src: Seq<u8>,
    i: int,
    d: int,
) -> bool {
    match a {
        Ok((names, end)) => {
            &&& i <= end <= src.len()
            &&& forall|k: int|
                0 <= k < names.len() ==> bounded((#[trigger] names[k]).1, src.len() as int)
            &&& b == Reading::<Seq<(Seq<char>, Span)>>::Ok((shifted_binders(names, d), end + d))
        },
        Err(e) => b == Reading::<Seq<(Seq<char>, Span)>>::Err(shifted_error(e, d)),
    }
}

proof fn lemma_more_names_move(
    big: Seq<u8>,
    src: Seq<u8>,
    d: int,
    names: Seq<(Seq<char>, Span)>,
    i: int,
)
    requires
        is_suffix(big, src, d),
        0 <= i <= src.len(),
        forall|k: int|
            0 <= k < names.len() ==> bounded((#[trigger] names[k]).1, src.len() as int),
    ensures
        names_move(
            read_more_names(src, names, i),
            read_more_names(big, shifted_binders(names, d), i + d),
            src,
            i,
            d,
        ),
    decreases src.len() - i,
{
    let comma = skip(src, i);
    let next = skip(src, comma + 1);
    lemma_suffix_skip(big, src, d, i);
    lemma_suffix_byte(big, src, d, comma);
    lemma_suffix_skip(big, src, d, comma + 1);
    lemma_suffix_byte(big, src, d, next);
    if byte_at(src, comma, COMMA) {
        lemma_after(src, i, COMMA);
        lemma_shifted_error(src, next, d);
        if !byte_at(src, next, RPAREN) {
            lemma_binder_moves(big, src, d, next);
            if let Ok((binder, end)) = read_binder(src, next) {
                lemma_more_names_move(big, src, d, names.push(binder), end);
                assert(shifted_binders(names.push(binder), d) =~= shifted_binders(names, d).push(
                    (binder.0, shifted_span(binder.1, d)),
                ));
            }
        }
    }
}

proof fn lemma_pattern_moves(big: Seq<u8>, src: Seq<u8>, d: int, i: int)
    requires
        is_suffix(big, src, d),
        0 <= i < src.len(),
    ensures
        names_move(read_pattern(src, i), read_pattern(big, i + d), src, i, d),
{
    let first = skip(src, i + 1);
    lemma_suffix_skip(big, src, d, i + 1);
    lemma_suffix_byte(big, src, d, first);
    assert(shifted_binders(Seq::empty(), d) =~= Seq::empty());
    if !byte_at(src, first, RPAREN) {
        lemma_binder_moves(big, src, d, first);
        if let Ok((binder, end)) = read_binder(src, first) {
            lemma_more_names_move(big, src, d, seq![binder], end);
            assert(shifted_binders(seq![binder], d) =~= seq![
                (binder.0, shifted_span(binder.1, d)),
            ]);
        }
    }
    if let Ok((names, close)) = read_names(src, i) {
        lemma_suffix_byte(big, src, d, close);
        lemma_shifted_error(src, close, d);
        if byte_at(src, close, RPAREN) && names.len() == 1 {
            let e = read_pattern(src, i)->Err_0;
            assert(shifted_binders(names, d)[0].1 == shifted_span(names[0].1, d));
            assert(shifted_error(e, d).related =~= Seq::empty());
        }
    }
}

proof fn lemma_more_proj_moves(big: Seq<u8>, src: Seq<u8>, d: int, tuple: ExprView, i: int)
    requires
        is_suffix(big, src, d),
        0 <= i <= src.len(),
        bounded(tuple.span(), src.len() as int),
    ensures
        moves_on(
            read_more_proj(src, tuple, i),
            read_more_proj(big, shifted(tuple, d), i + d),
            src,
            i,
            d,
        ),
    decreases src.len() - i,
{
    let dot = skip(src, i);
    let next = skip(src, dot + 1);
    lemma_suffix_skip(big, src, d, i);
    lemma_suffix_byte(big, src, d, dot);
    if byte_at(src, dot, DOT) {
        lemma_after(src, i, DOT);
        lemma_suffix_skip(big, src, d, dot + 1);
        lemma_index_moves(big, src, d, next);
        if let Ok((index, end)) = read_index(src, next) {
            let span = joined(tuple.span(), span_of(next, end));
            let longer = ExprView::TupleProj { tuple: Box::new(tuple), index, span };
            lemma_shifted_span_of(src, next, end, d);
            lemma_shifted_join(tuple.span(), span_of(next, end), src.len() as int, d);
            lemma_more_proj_moves(big, src, d, longer, end);
        }
    }
}

proof fn lemma_expr_moves(big: Seq<u8>, src: Seq<u8>, d: int, i: int)
    requires
        is_suffix(big, src, d),
        0 <= i <= src.len(),
    ensures
        moves(read_expr(src, i), read_expr(big, i + d), src, i, d),
    decreases src.len() - i, 6nat,
{
    lemma_seq_atom_moves(big, src, d, i);
    if let Ok((first, end)) = read_seq_atom(src, i) {
        lemma_more_seq_moves(big, src, d, first, end);
    }
}

proof fn lemma_more_seq_moves(big: Seq<u8>, src: Seq<u8>, d: int, lhs: ExprView, i: int)
    requires
        is_suffix(big, src, d),
        0 <= i <= src.len(),
        bounded(lhs.span(), src.len() as int),
    ensures
        moves_on(
            read_more_seq(src, lhs, i),
            read_more_seq(big, shifted(lhs, d), i + d),
            src,
            i,
            d,
        ),
    decreases src.len() - i, 7nat,
{
    let semicolon = skip(src, i);
    let next = skip(src, semicolon + 1);
    lemma_suffix_skip(big, src, d, i);
    lemma_suffix_byte(big, src, d, semicolon);
    if byte_at(src, semicolon, SEMICOLON) {
        lemma_after(src, i, SEMICOLON);
        lemma_suffix_skip(big, src, d, semicolon + 1);
        lemma_seq_atom_moves(big, src, d, next);
        if let Ok((rhs, end)) = read_seq_atom(src, next) {
            let span = joined(lhs.span(), rhs.span());
            let longer = ExprView::Sequence { first: Box::new(lhs), second: Box::new(rhs), span };
            lemma_shifted_join(lhs.span(), rhs.span(), src.len() as int, d);
            lemma_more_seq_moves(big, src, d, longer, end);
        }
    }
}

proof fn lemma_seq_atom_moves(big: Seq<u8>, src: Seq<u8>, d: int, i: int)
    requires
        is_suffix(big, src, d),
        0 <= i <= src.len(),
    ensures
        moves(read_seq_atom(src, i), read_seq_atom(big, i + d), src, i, d),
    decreases src.len() - i, 5nat,
{
    lemma_suffix_word(big, src, d, i);
    if keyword_at(src, i, "let"@) {
        lemma_let_moves(big, src, d, i);
    } else {
        assert(!keyword_at(big, i + d, "let"@));
        lemma_add_moves(big, src, d, i);
    }
}

proof fn lemma_let_moves(big: Seq<u8>, src: Seq<u8>, d: int, i: int)
    requires
        is_suffix(big, src, d),
        0 <= i <= src.len(),
        keyword_at(src, i, "let"@),
    ensures
        keyword_at(big, i + d, "let"@),
        moves(read_let(src, i), read_let(big, i + d), src, i, d),
    decreases src.len() - i, 4nat,
{
    lemma_suffix_word(big, src, d, i);
    assert(keyword_at(big, i + d, "let"@));
    let next = skip(src, word_end(src, i));
    lemma_suffix_skip(big, src, d, word_end(src, i));
    lemma_suffix_byte(big, src, d, next);
    if byte_at(src, next, LPAREN) {
        lemma_let_pattern_moves(big, src, d, i);
    } else {
        lemma_let_name_moves(big, src, d, i);
    }
}

#[verifier::rlimit(60)]
proof fn lemma_let_pattern_moves(big: Seq<u8>, src: Seq<u8>, d: int, i: int)
    requires
        is_suffix(big, src, d),
        0 <= i <= src.len(),
        keyword_at(src, i, "let"@),
        keyword_at(big, i + d, "let"@),
        byte_at(src, skip(src, word_end(src, i)), LPAREN),
    ensures
        moves(read_let(src, i), read_let(big, i + d), src, i, d),
    decreases src.len() - i, 3nat,
{
    lemma_suffix_word(big, src, d, i);
    let let_span = span_of(i, word_end(src, i));
    lemma_shifted_span_of(src, i, word_end(src, i), d);
    let next = skip(src, word_end(src, i));
    lemma_suffix_skip(big, src, d, word_end(src, i));
    lemma_suffix_byte(big, src, d, next);
    lemma_pattern_moves(big, src, d, next);
    if let Ok((names, end)) = read_pattern(src, next) {
        lemma_suffix_skip(big, src, d, end);
        let no_equals = "expected `=` after deconstruction pattern"@;
        let no_in = "expected `in` after deconstruction value"@;
        lemma_binding_moves(big, src, d, skip(src, end), no_equals, no_in);
        if let Ok(((value, body), last)) = read_binding(src, skip(src, end), no_equals, no_in) {
            lemma_shifted_join(let_span, body.span(), src.len() as int, d);
        }
    }
}

#[verifier::rlimit(60)]
proof fn lemma_let_name_moves(big: Seq<u8>, src: Seq<u8>, d: int, i: int)
    requires
        is_suffix(big, src, d),
        0 <= i <= src.len(),
        keyword_at(src, i, "let"@),
        keyword_at(big, i + d, "let"@),
        !byte_at(src, skip(src, word_end(src, i)), LPAREN),
    ensures
        moves(read_let(src, i), read_let(big, i + d), src, i, d),
    decreases src.len() - i, 3nat,
{
    lemma_suffix_word(big, src, d, i);
    let let_span = span_of(i, word_end(src, i));
    lemma_shifted_span_of(src, i, word_end(src, i), d);
    let next = skip(src, word_end(src, i));
    lemma_suffix_skip(big, src, d, word_end(src, i));
    lemma_suffix_byte(big, src, d, next);
    lemma_usage_moves(big, src, d, next);
    if let Ok((usage, end)) = read_usage(src, next) {
        lemma_suffix_skip(big, src, d, end);
        lemma_binder_moves(big, src, d, skip(src, end));
        if let Ok((binder, end)) = read_binder(src, skip(src, end)) {
            lemma_suffix_skip(big, src, d, end);
            let no_equals = "expected `=` after let-binding name"@;
            let no_in = "expected `in` after let-binding value"@;
            lemma_binding_moves(big, src, d, skip(src, end), no_equals, no_in);
            if let Ok(((value, body), last)) = read_binding(src, skip(src, end), no_equals, no_in) {
                lemma_shifted_join(let_span, body.span(), src.len() as int, d);
            }
        }
    }
}

proof fn lemma_binding_moves(
    big: Seq<u8>,
    src: Seq<u8>,
    d: int,
    i: int,
    no_equals: Seq<char>,
    no_in: Seq<char>,
)
    requires
        is_suffix(big, src, d),
        0 <= i <= src.len(),
    ensures
        match read_binding(src, i, no_equals, no_in) {
            Ok(((value, body), end)) => {
                &&& i < end <= src.len()
                &&& bounded(body.span(), src.len() as int)
                &&& read_binding(big, i + d, no_equals, no_in) == Reading::<
                    (ExprView, ExprView),
                >::Ok(((shifted(value, d), shifted(body, d)), end + d))
            },
            Err(e) => read_binding(big, i + d, no_equals, no_in) == Reading::<
                (ExprView, ExprView),
            >::Err(shifted_error(e, d)),
        },
    decreases src.len() - i, 8nat,
{
    lemma_suffix_byte(big, src, d, i);
    lemma_shifted_error(src, i, d);
    if byte_at(src, i, EQUALS) {
        let start = skip(src, i + 1);
        lemma_suffix_skip(big, src, d, i + 1);
        lemma_expr_moves(big, src, d, start);
        if let Ok((value, end)) = read_expr(src, start) {
            let next = skip(src, end);
            lemma_suffix_skip(big, src, d, end);
            lemma_suffix_word(big, src, d, next);
            lemma_shifted_error(src, next, d);
            assert(keyword_at(big, next + d, "in"@) == keyword_at(src, next, "in"@));
            if keyword_at(src, next, "in"@) {
                lemma_suffix_skip(big, src, d, word_end(src, next));
                lemma_expr_moves(big, src, d, skip(src, word_end(src, next)));
            }
        }
    }
}

proof fn lemma_add_moves(big: Seq<u8>, src: Seq<u8>, d: int, i: int)
    requires
        is_suffix(big, src, d),
        0 <= i <= src.len(),
    ensures
        moves(read_add(src, i), read_add(big, i + d), src, i, d),
    decreases src.len() - i, 3nat,
{
    lemma_postfix_moves(big, src, d, i);
    if let Ok((first, end)) = read_postfix(src, i) {
        lemma_more_add_moves(big, src, d, first, end);
    }
}

#[verifier::rlimit(60)]
proof fn lemma_more_add_moves(big: Seq<u8>, src: Seq<u8>, d: int, lhs: ExprView, i: int)
    requires
        is_suffix(big, src, d),
        0 <= i <= src.len(),
        bounded(lhs.span(), src.len() as int),
    ensures
        moves_on(
            read_more_add(src, lhs, i),
            read_more_add(big, shifted(lhs, d), i + d),
            src,
            i,
            d,
        ),
    decreases src.len() - i, 7nat,
{
    let plus = skip(src, i);
    let next = skip(src, plus + 1);
    lemma_suffix_skip(big, src, d, i);
    lemma_suffix_byte(big, src, d, plus);
    if byte_at(src, plus, PLUS) {
        lemma_after(src, i, PLUS);
        lemma_suffix_skip(big, src, d, plus + 1);
        lemma_postfix_moves(big, src, d, next);
        if let Ok((rhs, end)) = read_postfix(src, next) {
            let span = joined(lhs.span(), rhs.span());
            let longer = ExprView::Add { lhs: Box::new(lhs), rhs: Box::new(rhs), span };
            lemma_shifted_join(lhs.span(), rhs.span(), src.len() as int, d);
            lemma_more_add_moves(big, src, d, longer, end);
            assert(read_more_add(src, lhs, i) == read_more_add(src, longer, end));
            assert(read_more_add(big, shifted(lhs, d), i + d) == read_more_add(
                big,
                shifted(longer, d),
                end + d,
            ));
        }
    }
}

proof fn lemma_postfix_moves(big: Seq<u8>, src: Seq<u8>, d: int, i: int)
    requires
        is_suffix(big, src, d),
        0 <= i <= src.len(),
    ensures
        moves(read_postfix(src, i), read_postfix(big, i + d), src, i, d),
    decreases src.len() - i, 2nat,
{
    lemma_atom_moves(big, src, d, i);
    if let Ok((atom, end)) = read_atom(src, i) {
        lemma_more_proj_moves(big, src, d, atom, end);
    }
}

proof fn lemma_atom_moves(big: Seq<u8>, src: Seq<u8>, d: int, i: int)
    requires
        is_suffix(big, src, d),
        0 <= i <= src.len(),
    ensures
        moves(read_atom(src, i), read_atom(big, i + d), src, i, d),
    decreases src.len() - i, 1nat,
{
    lemma_int_moves(big, src, d, i);
    lemma_suffix_byte(big, src, d, i);
    lemma_suffix_word(big, src, d, i);
    lemma_shifted_error(src, i, d);
    if !int_at(src, i) {
        if byte_at(src, i, LPAREN) {
            lemma_paren_moves(big, src, d, i);
        } else if word_at(src, i) {
            lemma_shifted_span_of(src, i, word_end(src, i), d);
        }
    }
}

proof fn lemma_error_here_moves(big: Seq<u8>, src: Seq<u8>, d: int, i: int, note: Seq<char>)
    requires
        is_suffix(big, src, d),
        0 <= i <= src.len(),
    ensures
        shifted_error(error_here(src, i, note), d) == error_here(big, i + d, note),
{
    assert(shifted_error(error_here(src, i, note), d).related =~= Seq::empty());
}

/// `()`.
proof fn lemma_empty_paren_moves(big: Seq<u8>, src: Seq<u8>, d: int, i: int)
    requires
        is_suffix(big, src, d),
        byte_at(src, i, LPAREN),
        byte_at(big, i + d, LPAREN),
        byte_at(src, skip(src, i + 1), RPAREN),
    ensures
        moves(read_paren(src, i), read_paren(big, i + d), src, i, d),
{
    let start = skip(src, i + 1);
    lemma_suffix_skip(big, src, d, i + 1);
    lemma_suffix_byte(big, src, d, start);
    lemma_shifted_span_of(src, i, start + 1, d);
    lemma_shifted_tuple(Seq::empty(), span_of(i, start + 1), d);
    assert(shifted_exprs(Seq::empty(), d) =~= Seq::empty());
}

#[verifier::rlimit(60)]
proof fn lemma_paren_moves(big: Seq<u8>, src: Seq<u8>, d: int, i: int)
    requires
        is_suffix(big, src, d),
        0 <= i <= src.len(),
        byte_at(src, i, LPAREN),
    ensures
        byte_at(big, i + d, LPAREN),
        moves(read_paren(src, i), read_paren(big, i + d), src, i, d),
    decreases src.len() - i, 0nat,
{
    lemma_suffix_byte(big, src, d, i);
    assert(byte_at(big, i + d, LPAREN));
    let start = skip(src, i + 1);
    lemma_suffix_skip(big, src, d, i + 1);
    lemma_suffix_byte(big, src, d, start);
    if byte_at(src, start, RPAREN) {
        lemma_empty_paren_moves(big, src, d, i);
    } else {
        assert(!byte_at(big, start + d, RPAREN));
        lemma_expr_moves(big, src, d, start);
        if let Ok((first, end)) = read_expr(src, start) {
            let next = skip(src, end);
            lemma_suffix_skip(big, src, d, end);
            lemma_suffix_byte(big, src, d, next);
            assert(byte_at(big, next + d, RPAREN) == byte_at(src, next, RPAREN));
            assert(byte_at(big, next + d, COMMA) == byte_at(src, next, COMMA));
            if byte_at(src, next, RPAREN) {
                assert(read_paren(src, i) == Reading::<ExprView>::Ok((first, next + 1)));
            } else if byte_at(src, next, COMMA) {
                lemma_more_elems_move(big, src, d, seq![first], next);
                assert(shifted_exprs(seq![first], d) =~= seq![shifted(first, d)]);
                if let Ok((elems, last)) = read_more_elems(src, seq![first], next) {
                    lemma_shifted_span_of(src, i, last, d);
                    lemma_shifted_tuple(elems, span_of(i, last), d);
                    assert(read_paren(src, i) == Reading::<ExprView>::Ok(
                        (ExprView::Tuple { elems, span: span_of(i, last) }, last),
                    ));
                }
            } else {
                let note = "expected `,` or `)` in parenthesised expression"@;
                lemma_error_here_moves(big, src, d, next, note);
                assert(read_paren(src, i) == Reading::<ExprView>::Err(error_here(src, next, note)));
            }
        }
    }
}

proof fn lemma_more_elems_move(
    big: Seq<u8>,
    src: Seq<u8>,
    d: int,
    elems: Seq<ExprView>,
    i: int,
)
    requires
        is_suffix(big, src, d),
        0 <= i <= src.len(),
        byte_at(src, i, COMMA),
    ensures
        byte_at(big, i + d, COMMA),
        match read_more_elems(src, elems, i) {
            Ok((all, end)) => {
                &&& i < end <= src.len()
                &&& read_more_elems(big, shifted_exprs(elems, d), i + d) == Reading::<
                    Seq<ExprView>,
                >::Ok((shifted_exprs(all, d), end + d))
            },
            Err(e) => read_more_elems(big, shifted_exprs(elems, d), i + d) == Reading::<
                Seq<ExprView>,
            >::Err(shifted_error(e, d)),
        },
    decreases src.len() - i, 7nat,
{
    lemma_suffix_byte(big, src, d, i);
    let start = skip(src, i + 1);
    lemma_suffix_skip(big, src, d, i + 1);
    lemma_suffix_byte(big, src, d, start);
    lemma_shifted_error(src, start, d);
    if !byte_at(src, start, RPAREN) {
        lemma_expr_moves(big, src, d, start);
        if let Ok((elem, end)) = read_expr(src, start) {
            let next = skip(src, end);
            lemma_suffix_skip(big, src, d, end);
            lemma_suffix_byte(big, src, d, next);
            lemma_shifted_error(src, next, d);
            let more = elems.push(elem);
            assert(shifted_exprs(more, d) =~= shifted_exprs(elems, d).push(shifted(elem, d)));
            if byte_at(src, next, COMMA) {
                lemma_more_elems_move(big, src, d, more, next);
            }
        }
    }
}

// -----------------------------------------------------------------------------
// Leading trivia
// -----------------------------------------------------------------------------

/// `text` is whitespace and comments, each comment with the end of its line.
pub open spec fn is_trivia(text: Seq<u8>) -> bool
    decreases text.len(),
{
    ||| text.len() == 0
    ||| is_space(text[0]) && is_trivia(text.skip(1))
    ||| comment_at(text, 0) && exists|k: int|
        {
            &&& 0 < k <= text.len()
            &&& #[trigger] is_line(text, k)
            &&& is_trivia(text.skip(k))
        }
}

/// The first `k` bytes of `text` are one line with its end.
pub open spec fn is_line(text: Seq<u8>, k: int) -> bool {
    &&& text[k - 1] == NEWLINE
    &&& forall|j: int| 0 <= j < k - 1 ==> #[trigger] text[j] != NEWLINE
}

/// What reading a source yields, moved on by `d` bytes.
pub open spec fn shifted_program(
    r: Result<(ExprView, Span), ErrorView>,
    d: int,
) -> Result<(ExprView, Span), ErrorView> {
    match r {
        Ok((expr, span)) => Ok((shifted(expr, d), shifted_span(span, d))),
        Err(e) => Err(shifted_error(e, d)),
    }
}

proof fn lemma_line_end_is_next_line(src: Seq<u8>, i: int, k: int)
    requires
        0 <= i < k <= src.len(),
        src[k - 1] == NEWLINE,
        forall|j: int| i <= j < k - 1 ==> #[trigger] src[j] != NEWLINE,
    ensures
        next_line(src, i) == k,
    decreases k - i,
{
    if i < k - 1 {
        assert(src[i] != NEWLINE);
        lemma_line_end_is_next_line(src, i + 1, k);
    }
}

proof fn lemma_trivia_is_skipped(w: Seq<u8>, src: Seq<u8>)
    requires
        is_trivia(w),
    ensures
        skip(w + src, 0) == skip(w + src, w.len() as int),
    decreases w.len(),
{
    let big = w + src;
    if w.len() > 0 {
        let k: int = if is_space(w[0]) && is_trivia(w.skip(1)) {
            1
        } else {
            choose|k: int|
                {
                    &&& 0 < k <= w.len()
                    &&& #[trigger] is_line(w, k)
                    &&& is_trivia(w.skip(k))
                }
        };
        let rest = w.skip(k) + src;
        assert(rest =~= big.skip(k));
        lemma_trivia_is_skipped(w.skip(k), src);
        lemma_skip_in_rest(big, k, 0);
        lemma_skip_in_rest(big, k, w.len() - k);
        if !(is_space(w[0]) && is_trivia(w.skip(1))) {
            assert forall|j: int| 0 <= j < k - 1 implies #[trigger] big[j] != NEWLINE by {
                assert(w[j] != NEWLINE);
            }
            lemma_line_end_is_next_line(big, 0, k);
        }
    }
}

/// Skipping does not depend on what stands before.
pub proof fn lemma_skip_in_rest(src: Seq<u8>, k: int, i: int)
    requires
        0 <= k <= src.len(),
        0 <= i <= src.len() - k,
    ensures
        skip(src, i + k) == skip(src.skip(k), i) + k,
    decreases src.len() - k - i,
{
    let rest = src.skip(k);
    if i < rest.len() {
        assert(rest[i] == src[i + k]);
        if is_space(rest[i]) {
            lemma_skip_in_rest(src, k, i + 1);
        } else if comment_at(rest, i) {
            lemma_next_line(rest, i);
            lemma_next_line_in_rest(src, k, i);
            lemma_skip_in_rest(src, k, next_line(rest, i));
        }
    }
}

proof fn lemma_next_line_in_rest(src: Seq<u8>, k: int, i: int)
    requires
        0 <= k <= src.len(),
        0 <= i <= src.len() - k,
    ensures
        next_line(src, i + k) == next_line(src.skip(k), i) + k,
    decreases src.len() - k - i,
{
    let rest = src.skip(k);
    if i < rest.len() {
        assert(rest[i] == src[i + k]);
        if rest[i] != NEWLINE {
            lemma_next_line_in_rest(src, k, i + 1);
        }
    }
}

/// Trivia before a source moves every span by its length and changes nothing else,
/// whether the source parses or not.
pub proof fn law_leading_trivia_only_moves_spans(w: Seq<u8>, src: Seq<u8>)
    requires
        is_trivia(w),
        w.len() + src.len() <= usize::MAX,
    ensures
        read_source(w + src) == shifted_program(read_source(src), w.len() as int),
{
    let big = w + src;
    let d = w.len() as int;
    assert(same_bytes(big, src, d)) by {
        reveal(same_bytes);
    }
    lemma_trivia_is_skipped(w, src);
    lemma_suffix_skip(big, src, d, 0);
    let start = skip(src, 0);
    lemma_expr_moves(big, src, d, start);
    if let Ok((expr, end)) = read_expr(src, start) {
        lemma_suffix_skip(big, src, d, end);
        lemma_shifted_error(src, skip(src, end), d);
        lemma_shifted_span_of(src, start, skip(src, end), d);
    }
}

/// A comment before a source, that is two slashes, any text and a line feed, only moves
/// what is read: whatever the text says, and whether or not the source parses.
pub proof fn law_a_comment_only_moves_spans(text: Seq<u8>, src: Seq<u8>)
    requires
        forall|i: int| 0 <= i < text.len() ==> #[trigger] text[i] != 10,
        text.len() + 3 + src.len() <= usize::MAX,
    ensures
        read_source(seq![47u8, 47u8] + text + seq![10u8] + src) == shifted_program(
            read_source(src),
            text.len() as int + 3,
        ),
{
    let w = seq![47u8, 47u8] + text + seq![10u8];
    let k = text.len() as int + 2;
    assert(w[0] == 47 && w[1] == 47 && w[k] == 10);
    assert forall|i: int| 0 <= i < k implies #[trigger] w[i] != 10 by {
        if i >= 2 {
            assert(w[i] == text[i - 2]);
        }
    }
    assert(w.skip(k + 1) =~= Seq::empty());
    assert(is_trivia(w)) by {
        assert(is_line(w, k + 1));
        assert(is_trivia(Seq::<u8>::empty()));
    }
    assert(seq![47u8, 47u8] + text + seq![10u8] + src == w + src);
    law_leading_trivia_only_moves_spans(w, src);
}

/// White space before a source only moves what is read.
pub proof fn law_white_space_only_moves_spans(w: Seq<u8>, src: Seq<u8>)
    requires
        forall|i: int|
            0 <= i < w.len() ==> {
                let b = #[trigger] w[i];
                b == 9 || b == 10 || b == 12 || b == 13 || b == 32
            },
        w.len() + src.len() <= usize::MAX,
    ensures
        read_source(w + src) == shifted_program(read_source(src), w.len() as int),
{
    lemma_white_is_trivia(w);
    law_leading_trivia_only_moves_spans(w, src);
}

proof fn lemma_white_is_trivia(w: Seq<u8>)
    requires
        forall|i: int|
            0 <= i < w.len() ==> {
                let b = #[trigger] w[i];
                b == 9 || b == 10 || b == 12 || b == 13 || b == 32
            },
    ensures
        is_trivia(w),
    decreases w.len(),
{
    if w.len() > 0 {
        let rest = w.skip(1);
        assert forall|i: int| 0 <= i < rest.len() implies {
            let b = #[trigger] rest[i];
            b == 9 || b == 10 || b == 12 || b == 13 || b == 32
        } by {
            assert(rest[i] == w[i + 1]);
        }
        lemma_white_is_trivia(rest);
        assert(is_space(w[0]));
    }
}

} // verus!
