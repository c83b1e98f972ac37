//! What holds of parsed programs, and where diagnostics point.

use crate::ast::{joined, span_of, ExprView, FieldView, Span, Usage};
use crate::error::{ErrorCategory, ErrorView};
use crate::lexical::{
    byte_at, digit_at, digits_end, digits_value, int_end, int_value, int_at, is_ident_byte,
    is_reserved_word, keyword_at, lemma_digits_end, lemma_int, lemma_skip, lemma_word, skip, word,
    word_at, word_end, COMMA, DOT, EQUALS, LPAREN, PLUS, RPAREN, SEMICOLON,
};
use crate::names::{first_name, lemma_first_name};
use crate::reading::{
    advances, lemma_after, lemma_read_index, lemma_read_usage, read_add, read_atom, read_binder,
    read_binding, read_expr, read_index, read_let, read_more_add, read_more_elems, read_more_names,
    read_more_proj, read_more_seq, read_paren, read_pattern, read_postfix, read_seq_atom,
    read_source, read_usage, Reading,
};
use crate::text::ascii_text;
use crate::typeck::ConsumeMode;
use crate::typing::{
    apart, bind_fields, bound_names, built_usage, check, check_components, common_names,
    component_expected, conflict, deconstructed, destructure_rule, first_leak, leaks, lemma_check,
    let_rule, merged_borrows, merged_consumes, seq_rule, value_expected, value_mode, CheckView,
    Checked, Scope, Uses,
};
use vstd::prelude::*;

verus! {

// -----------------------------------------------------------------------------
// Shapes and places
// -----------------------------------------------------------------------------

/// A letter, a digit or an underscore.
pub open spec fn is_ident_char(c: char) -> bool {
    'a' <= c <= 'z' || 'A' <= c <= 'Z' || '0' <= c <= '9' || c == '_'
}

/// `text` can name a variable: letters, digits and underscores, the first of
/// them no digit, and not a reserved word.
pub open spec fn is_name(text: Seq<char>) -> bool {
    &&& text.len() > 0
    &&& !('0' <= text[0] <= '9')
    &&& forall|k: int| 0 <= k < text.len() ==> is_ident_char(#[trigger] text[k])
    &&& !is_reserved_word(text)
}

/// The forms that a program can have: no form that the grammar lacks, no shared
/// `let`, no 1-tuple and no pattern for one, and every variable has a name that
/// is no reserved word.
pub open spec fn well_formed(expr: ExprView) -> bool
    decreases expr,
{
    match expr {
        ExprView::IntLit { .. } => true,
        ExprView::Var { name, .. } => is_name(name),
        ExprView::Add { lhs, rhs, .. } => well_formed(*lhs) && well_formed(*rhs),
        ExprView::Sequence { first, second, .. } => well_formed(*first) && well_formed(*second),
        ExprView::Let { usage, name, value, body, .. } => {
            &&& usage != Usage::Shared
            &&& is_name(name)
            &&& well_formed(*value)
            &&& well_formed(*body)
        },
        ExprView::Tuple { elems, .. } => {
            &&& elems.len() != 1
            &&& forall|k: int| 0 <= k < elems.len() ==> well_formed(#[trigger] elems[k])
        },
        ExprView::TupleProj { tuple, .. } => well_formed(*tuple),
        ExprView::TupleDestructure { names, value, body, .. } => {
            &&& names.len() != 1
            &&& forall|k: int| 0 <= k < names.len() ==> is_name((#[trigger] names[k]).0)
            &&& well_formed(*value)
            &&& well_formed(*body)
        },
        ExprView::MethodCall { .. } => false,
        ExprView::ConstructorApp { .. } => false,
        ExprView::Match { .. } => false,
    }
}

/// The text of the source under `span`.
pub open spec fn text_under(src: Seq<u8>, span: Span) -> Seq<char> {
    ascii_text(src.subrange(span.start as int, span.end as int))
}

/// Every name in `expr` is the text under its span, and every number in it is what
/// the digits under its span denote; an index is what the digits at the end of its
/// projection denote.
pub open spec fn spelled(src: Seq<u8>, expr: ExprView) -> bool
    decreases expr,
{
    match expr {
        ExprView::IntLit { value, span } => {
            &&& int_at(src, span.start as int)
            &&& span.end == int_end(src, span.start as int)
            &&& value == int_value(src, span.start as int)
        },
        ExprView::Var { name, span } => name == text_under(src, span),
        ExprView::Add { lhs, rhs, .. } => spelled(src, *lhs) && spelled(src, *rhs),
        ExprView::Sequence { first, second, .. } => spelled(src, *first) && spelled(src, *second),
        ExprView::Let { name, name_span, value, body, .. } => {
            &&& name == text_under(src, name_span)
            &&& spelled(src, *value)
            &&& spelled(src, *body)
        },
        ExprView::Tuple { elems, .. } => forall|k: int|
            0 <= k < elems.len() ==> spelled(src, #[trigger] elems[k]),
        ExprView::TupleProj { tuple, index, span } => {
            &&& spelled(src, *tuple)
            &&& exists|k: int|
                {
                    &&& tuple.span().end <= k < span.end
                    &&& #[trigger] digit_at(src, k)
                    &&& span.end == digits_end(src, k)
                    &&& index == digits_value(src.subrange(k, span.end as int))
                }
        },
        ExprView::TupleDestructure { names, value, body, .. } => {
            &&& forall|k: int|
                0 <= k < names.len() ==> (#[trigger] names[k]).0 == text_under(src, names[k].1)
            &&& spelled(src, *value)
            &&& spelled(src, *body)
        },
        _ => true,
    }
}

/// `span` lies between `lo` and `hi`.
pub open spec fn within(span: Span, lo: int, hi: int) -> bool {
    lo <= span.start <= span.end <= hi
}

/// `span` lies between `lo` and `hi` and is not empty.
pub open spec fn marks(span: Span, lo: int, hi: int) -> bool {
    lo <= span.start < span.end <= hi
}

/// `expr` lies between `lo` and `hi`, and each part lies within what it is a part
/// of. Parts stand in the order in which they are written.
pub open spec fn placed(expr: ExprView, lo: int, hi: int) -> bool
    decreases expr,
{
    let start = expr.span().start as int;
    let end = expr.span().end as int;
    &&& marks(expr.span(), lo, hi)
    &&& match expr {
        ExprView::Add { lhs, rhs, .. } => {
            &&& placed(*lhs, start, end)
            &&& placed(*rhs, lhs.span().end as int, end)
        },
        ExprView::Sequence { first, second, .. } => {
            &&& placed(*first, start, end)
            &&& placed(*second, first.span().end as int, end)
        },
        ExprView::Let { name_span, value, body, .. } => {
            &&& marks(name_span, start, end)
            &&& placed(*value, name_span.end as int, end)
            &&& placed(*body, value.span().end as int, end)
        },
        ExprView::Tuple { elems, .. } => {
            &&& forall|k: int| 0 <= k < elems.len() ==> placed(#[trigger] elems[k], start, end)
            &&& forall|j: int, k: int|
                0 <= j < k < elems.len() ==> (#[trigger] elems[j]).span().end <= (
                #[trigger] elems[k]).span().start
        },
        ExprView::TupleProj { tuple, .. } => placed(*tuple, start, end),
        ExprView::TupleDestructure { names, value, body, .. } => {
            &&& forall|k: int|
                0 <= k < names.len() ==> marks(
                    (#[trigger] names[k]).1,
                    start,
                    value.span().start as int,
                )
            &&& placed(*value, start, end)
            &&& placed(*body, value.span().end as int, end)
        },
        _ => true,
    }
}

/// An expression lies between any two places that its span lies between.
proof fn lemma_placed_by_span(expr: ExprView, lo: int, hi: int, new_lo: int, new_hi: int)
    requires
        placed(expr, lo, hi),
        marks(expr.span(), new_lo, new_hi),
    ensures
        placed(expr, new_lo, new_hi),
{
}

/// What lies between two places also lies between places around them.
proof fn lemma_placed_wider(expr: ExprView, lo: int, hi: int, outer_lo: int, outer_hi: int)
    requires
        placed(expr, lo, hi),
        outer_lo <= lo,
        hi <= outer_hi,
    ensures
        placed(expr, outer_lo, outer_hi),
        marks(expr.span(), lo, hi),
{
}

/// A parse error that points into a source of `len` bytes: one place, with a note.
pub open spec fn is_parse_error(err: ErrorView, len: int) -> bool {
    &&& err.category == ErrorCategory::ParseError
    &&& within(err.span, 0, len)
    &&& err.note is Some
    &&& err.related.len() == 0
}

/// An expression that the parser may return for `src`.
spec fn good(src: Seq<u8>, expr: ExprView) -> bool {
    well_formed(expr) && spelled(src, expr)
}

/// What reading an expression at `i` must yield.
spec fn sound(r: Reading<ExprView>, src: Seq<u8>, i: int) -> bool {
    match r {
        Ok((expr, end)) => {
            &&& advances(src, i, end)
            &&& good(src, expr)
            &&& placed(expr, i, end)
        },
        Err(e) => is_parse_error(e, src.len() as int),
    }
}

/// What reading on at `i`, after an expression that began at `lo`, must yield.
spec fn continues(r: Reading<ExprView>, src: Seq<u8>, lo: int, i: int) -> bool {
    match r {
        Ok((expr, end)) => {
            &&& i <= end <= src.len()
            &&& good(src, expr)
            &&& placed(expr, lo, end)
        },
        Err(e) => is_parse_error(e, src.len() as int),
    }
}

/// `names` are names that stand between `lo` and `hi`.
spec fn sound_names(src: Seq<u8>, names: Seq<(Seq<char>, Span)>, lo: int, hi: int) -> bool {
    forall|k: int|
        0 <= k < names.len() ==> {
            &&& is_name((#[trigger] names[k]).0)
            &&& names[k].0 == text_under(src, names[k].1)
            &&& marks(names[k].1, lo, hi)
        }
}

proof fn lemma_word_is_name(src: Seq<u8>, i: int)
    requires
        word_at(src, i),
        !is_reserved_word(word(src, i)),
    ensures
        is_name(word(src, i)),
{
    lemma_word(src, i);
    let text = word(src, i);
    let bytes = src.subrange(i, word_end(src, i));
    assert forall|k: int| 0 <= k < text.len() implies is_ident_char(#[trigger] text[k]) by {
        assert(bytes[k] == src[i + k]);
        assert(is_ident_byte(src[i + k]));
    }
    assert(bytes[0] == src[i]);
}

proof fn lemma_sound_binder(src: Seq<u8>, i: int)
    requires
        0 <= i <= src.len() <= usize::MAX,
    ensures
        match read_binder(src, i) {
            Ok((binder, end)) => {
                &&& advances(src, i, end)
                &&& is_name(binder.0)
                &&& binder.0 == text_under(src, binder.1)
                &&& marks(binder.1, i, end)
            },
            Err(e) => is_parse_error(e, src.len() as int),
        },
{
    if word_at(src, i) {
        lemma_word(src, i);
        if !is_reserved_word(word(src, i)) {
            lemma_word_is_name(src, i);
        }
    }
}

proof fn lemma_sound_more_names(src: Seq<u8>, names: Seq<(Seq<char>, Span)>, lo: int, i: int)
    requires
        0 <= lo <= i <= src.len() <= usize::MAX,
        sound_names(src, names, lo, i),
    ensures
        match read_more_names(src, names, i) {
            Ok((all, end)) => i <= end <= src.len() && sound_names(src, all, lo, end),
            Err(e) => is_parse_error(e, src.len() as int),
        },
    decreases src.len() - i,
{
    lemma_skip(src, i);
    let comma = skip(src, i);
    let next = skip(src, comma + 1);
    if byte_at(src, comma, COMMA) {
        lemma_after(src, i, COMMA);
        if !byte_at(src, next, RPAREN) {
            lemma_sound_binder(src, next);
            if let Ok((binder, end)) = read_binder(src, next) {
                lemma_sound_more_names(src, names.push(binder), lo, end);
            }
        }
    }
}

proof fn lemma_sound_pattern(src: Seq<u8>, i: int)
    requires
        0 <= i < src.len() <= usize::MAX,
    ensures
        match read_pattern(src, i) {
            Ok((names, end)) => {
                &&& advances(src, i, end)
                &&& names.len() != 1
                &&& sound_names(src, names, i, end)
            },
            Err(e) => is_parse_error(e, src.len() as int),
        },
{
    lemma_skip(src, i + 1);
    let first = skip(src, i + 1);
    if !byte_at(src, first, RPAREN) {
        lemma_sound_binder(src, first);
        if let Ok((binder, end)) = read_binder(src, first) {
            lemma_sound_more_names(src, seq![binder], i, end);
        }
    }
}

proof fn lemma_sound_more_proj(src: Seq<u8>, tuple: ExprView, lo: int, i: int)
    requires
        0 <= lo <= i <= src.len() <= usize::MAX,
        good(src, tuple),
        placed(tuple, lo, i),
    ensures
        continues(read_more_proj(src, tuple, i), src, lo, i),
    decreases src.len() - i,
{
    lemma_skip(src, i);
    let next = skip(src, skip(src, i) + 1);
    if byte_at(src, skip(src, i), DOT) {
        lemma_after(src, i, DOT);
        lemma_read_index(src, next);
        if digit_at(src, next) {
            lemma_digits_end(src, next);
        }
        if let Ok((index, end)) = read_index(src, next) {
            let span = joined(tuple.span(), span_of(next, end));
            let longer = ExprView::TupleProj { tuple: Box::new(tuple), index, span };
            lemma_placed_by_span(tuple, lo, i, span.start as int, span.end as int);
            lemma_sound_more_proj(src, longer, lo, end);
        }
    }
}

proof fn lemma_sound_expr(src: Seq<u8>, i: int)
    requires
        0 <= i <= src.len() <= usize::MAX,
    ensures
        sound(read_expr(src, i), src, i),
    decreases src.len() - i, 6nat,
{
    lemma_sound_seq_atom(src, i);
    if let Ok((first, end)) = read_seq_atom(src, i) {
        lemma_sound_more_seq(src, first, i, end);
    }
}

proof fn lemma_sound_more_seq(src: Seq<u8>, lhs: ExprView, lo: int, i: int)
    requires
        0 <= lo <= i <= src.len() <= usize::MAX,
        good(src, lhs),
        placed(lhs, lo, i),
    ensures
        continues(read_more_seq(src, lhs, i), src, lo, i),
    decreases src.len() - i, 7nat,
{
    lemma_skip(src, i);
    let next = skip(src, skip(src, i) + 1);
    if byte_at(src, skip(src, i), SEMICOLON) {
        lemma_after(src, i, SEMICOLON);
        lemma_sound_seq_atom(src, next);
        if let Ok((rhs, end)) = read_seq_atom(src, next) {
            let span = joined(lhs.span(), rhs.span());
            let longer = ExprView::Sequence {
                first: Box::new(lhs),
                second: Box::new(rhs),
                span,
            };
            lemma_placed_by_span(lhs, lo, i, span.start as int, span.end as int);
            lemma_placed_by_span(rhs, next, end, lhs.span().end as int, span.end as int);
            lemma_sound_more_seq(src, longer, lo, end);
        }
    }
}

proof fn lemma_sound_seq_atom(src: Seq<u8>, i: int)
    requires
        0 <= i <= src.len() <= usize::MAX,
    ensures
        sound(read_seq_atom(src, i), src, i),
    decreases src.len() - i, 5nat,
{
    if keyword_at(src, i, "let"@) {
        lemma_sound_let(src, i);
    } else {
        lemma_sound_add(src, i);
    }
}

#[verifier::rlimit(60)]
proof fn lemma_sound_let(src: Seq<u8>, i: int)
    requires
        0 <= i <= src.len() <= usize::MAX,
        keyword_at(src, i, "let"@),
    ensures
        sound(read_let(src, i), src, i),
    decreases src.len() - i, 4nat,
{
    lemma_word(src, i);
    lemma_skip(src, word_end(src, i));
    let next = skip(src, word_end(src, i));
    if byte_at(src, next, LPAREN) {
        lemma_sound_pattern(src, next);
        if let Ok((names, end)) = read_pattern(src, next) {
            lemma_skip(src, end);
            lemma_sound_binding(
                src,
                skip(src, end),
                "expected `=` after deconstruction pattern"@,
                "expected `in` after deconstruction value"@,
            );
            if let Ok(((value, body), last)) = read_binding(
                src,
                skip(src, end),
                "expected `=` after deconstruction pattern"@,
                "expected `in` after deconstruction value"@,
            ) {
                let whole = body.span().end as int;
                lemma_placed_by_span(value, skip(src, end), last, i, whole);
                let value_end = value.span().end as int;
                lemma_placed_by_span(body, value_end, last, value_end, whole);
            }
        }
    } else {
        lemma_read_usage(src, next);
        if let Ok((usage, end)) = read_usage(src, next) {
            lemma_skip(src, end);
            lemma_sound_binder(src, skip(src, end));
            if let Ok((binder, end)) = read_binder(src, skip(src, end)) {
                lemma_skip(src, end);
                lemma_sound_binding(
                    src,
                    skip(src, end),
                    "expected `=` after let-binding name"@,
                    "expected `in` after let-binding value"@,
                );
                if let Ok(((value, body), last)) = read_binding(
                    src,
                    skip(src, end),
                    "expected `=` after let-binding name"@,
                    "expected `in` after let-binding value"@,
                ) {
                    let whole = body.span().end as int;
                    lemma_placed_by_span(value, skip(src, end), last, binder.1.end as int, whole);
                    let value_end = value.span().end as int;
                    lemma_placed_by_span(body, value_end, last, value_end, whole);
                }
            }
        } else if word_at(src, next) {
            lemma_word(src, next);
        }
    }
}

proof fn lemma_sound_binding(src: Seq<u8>, i: int, no_equals: Seq<char>, no_in: Seq<char>)
    requires
        0 <= i <= src.len() <= usize::MAX,
    ensures
        match read_binding(src, i, no_equals, no_in) {
            Ok(((value, body), end)) => {
                &&& advances(src, i, end)
                &&& good(src, value)
                &&& good(src, body)
                &&& placed(value, i, end)
                &&& placed(body, value.span().end as int, end)
            },
            Err(e) => is_parse_error(e, src.len() as int),
        },
    decreases src.len() - i, 8nat,
{
    if byte_at(src, i, EQUALS) {
        lemma_skip(src, i + 1);
        let start = skip(src, i + 1);
        lemma_sound_expr(src, start);
        if let Ok((value, end)) = read_expr(src, start) {
            lemma_skip(src, end);
            let next = skip(src, end);
            if keyword_at(src, next, "in"@) {
                lemma_word(src, next);
                lemma_skip(src, word_end(src, next));
                let body_start = skip(src, word_end(src, next));
                lemma_sound_expr(src, body_start);
                if let Ok((body, last)) = read_expr(src, body_start) {
                    lemma_placed_by_span(value, start, end, i, last);
                    lemma_placed_by_span(body, body_start, last, value.span().end as int, last);
                }
            }
        }
    }
}

proof fn lemma_sound_add(src: Seq<u8>, i: int)
    requires
        0 <= i <= src.len() <= usize::MAX,
    ensures
        sound(read_add(src, i), src, i),
    decreases src.len() - i, 3nat,
{
    lemma_sound_postfix(src, i);
    if let Ok((first, end)) = read_postfix(src, i) {
        lemma_sound_more_add(src, first, i, end);
    }
}

proof fn lemma_sound_more_add(src: Seq<u8>, lhs: ExprView, lo: int, i: int)
    requires
        0 <= lo <= i <= src.len() <= usize::MAX,
        good(src, lhs),
        placed(lhs, lo, i),
    ensures
        continues(read_more_add(src, lhs, i), src, lo, i),
    decreases src.len() - i, 7nat,
{
    lemma_skip(src, i);
    let next = skip(src, skip(src, i) + 1);
    if byte_at(src, skip(src, i), PLUS) {
        lemma_after(src, i, PLUS);
        lemma_sound_postfix(src, next);
        if let Ok((rhs, end)) = read_postfix(src, next) {
            let span = joined(lhs.span(), rhs.span());
            let longer = ExprView::Add { lhs: Box::new(lhs), rhs: Box::new(rhs), span };
            lemma_placed_by_span(lhs, lo, i, span.start as int, span.end as int);
            lemma_placed_by_span(rhs, next, end, lhs.span().end as int, span.end as int);
            lemma_sound_more_add(src, longer, lo, end);
        }
    }
}

proof fn lemma_sound_postfix(src: Seq<u8>, i: int)
    requires
        0 <= i <= src.len() <= usize::MAX,
    ensures
        sound(read_postfix(src, i), src, i),
    decreases src.len() - i, 2nat,
{
    lemma_sound_atom(src, i);
    if let Ok((atom, end)) = read_atom(src, i) {
        lemma_sound_more_proj(src, atom, i, end);
    }
}

proof fn lemma_sound_atom(src: Seq<u8>, i: int)
    requires
        0 <= i <= src.len() <= usize::MAX,
    ensures
        sound(read_atom(src, i), src, i),
    decreases src.len() - i, 1nat,
{
    if int_at(src, i) {
        lemma_int(src, i);
    } else if byte_at(src, i, LPAREN) {
        lemma_sound_paren(src, i);
    } else if word_at(src, i) {
        lemma_word(src, i);
        if !is_reserved_word(word(src, i)) {
            lemma_word_is_name(src, i);
        }
    }
}

proof fn lemma_sound_paren(src: Seq<u8>, i: int)
    requires
        0 <= i <= src.len() <= usize::MAX,
        byte_at(src, i, LPAREN),
    ensures
        sound(read_paren(src, i), src, i),
    decreases src.len() - i, 0nat,
{
    lemma_skip(src, i + 1);
    let start = skip(src, i + 1);
    if !byte_at(src, start, RPAREN) {
        lemma_sound_expr(src, start);
        if let Ok((first, end)) = read_expr(src, start) {
            lemma_skip(src, end);
            let next = skip(src, end);
            if byte_at(src, next, COMMA) {
                lemma_sound_more_elems(src, seq![first], i, next);
            }
        }
    }
}

/// `elems` are well-formed and stand in order between `lo` and `hi`.
spec fn sound_elems(src: Seq<u8>, elems: Seq<ExprView>, lo: int, hi: int) -> bool {
    &&& forall|k: int|
        0 <= k < elems.len() ==> good(src, #[trigger] elems[k]) && placed(elems[k], lo, hi)
    &&& forall|j: int, k: int|
        0 <= j < k < elems.len() ==> (#[trigger] elems[j]).span().end <= (
        #[trigger] elems[k]).span().start
}

proof fn lemma_sound_more_elems(src: Seq<u8>, elems: Seq<ExprView>, lo: int, i: int)
    requires
        0 <= lo <= i <= src.len() <= usize::MAX,
        byte_at(src, i, COMMA),
        elems.len() > 0,
        sound_elems(src, elems, lo, i),
    ensures
        match read_more_elems(src, elems, i) {
            Ok((all, end)) => {
                &&& advances(src, i, end)
                &&& all.len() > 1
                &&& sound_elems(src, all, lo, end)
            },
            Err(e) => is_parse_error(e, src.len() as int),
        },
    decreases src.len() - i, 7nat,
{
    lemma_skip(src, i + 1);
    let start = skip(src, i + 1);
    if !byte_at(src, start, RPAREN) {
        lemma_sound_expr(src, start);
        if let Ok((elem, end)) = read_expr(src, start) {
            lemma_skip(src, end);
            let next = skip(src, end);
            let more = elems.push(elem);
            assert(sound_elems(src, more, lo, next)) by {
                assert forall|k: int| 0 <= k < more.len() implies good(src, #[trigger] more[k])
                    && placed(more[k], lo, next) by {
                    if k < elems.len() {
                        assert(more[k] == elems[k]);
                    }
                }
                assert forall|j: int, k: int| 0 <= j < k < more.len() implies (
                #[trigger] more[j]).span().end <= (#[trigger] more[k]).span().start by {
                    assert(more[j] == elems[j]);
                    if k < elems.len() {
                        assert(more[k] == elems[k]);
                    }
                }
            }
            if byte_at(src, next, COMMA) {
                lemma_sound_more_elems(src, more, lo, next);
            } else if byte_at(src, next, RPAREN) {
                assert(sound_elems(src, more, lo, next + 1));
            }
        }
    }
}

/// A source that parses yields a well-formed expression, each part of which lies
/// within what it is a part of and in the order of the source; the whole lies
/// within the program, which lies within the source.
pub proof fn law_parsed_programs_are_well_formed(src: Seq<u8>)
    requires
        src.len() <= usize::MAX,
    ensures
        read_source(src) matches Ok((expr, span)) ==> {
            &&& well_formed(expr)
            &&& placed(expr, span.start as int, span.end as int)
            &&& marks(span, 0, src.len() as int)
        },
{
    lemma_skip(src, 0);
    let start = skip(src, 0);
    lemma_sound_expr(src, start);
    if let Ok((expr, end)) = read_expr(src, start) {
        lemma_skip(src, end);
    }
}

/// In a parsed program, names and numbers are what the source says at the places
/// that they are recorded at.
pub proof fn law_names_and_numbers_are_those_of_the_source(src: Seq<u8>)
    requires
        src.len() <= usize::MAX,
    ensures
        read_source(src) matches Ok((expr, _)) ==> spelled(src, expr),
{
    lemma_skip(src, 0);
    lemma_sound_expr(src, skip(src, 0));
}

/// A source that does not parse yields a parse error with a note, which points
/// into the source.
pub proof fn law_parse_errors_point_into_the_source(src: Seq<u8>)
    requires
        src.len() <= usize::MAX,
    ensures
        read_source(src) matches Err(e) ==> is_parse_error(e, src.len() as int),
{
    lemma_skip(src, 0);
    let start = skip(src, 0);
    lemma_sound_expr(src, start);
    if let Ok((expr, end)) = read_expr(src, start) {
        lemma_skip(src, end);
    }
}

// -----------------------------------------------------------------------------
// Type errors
// -----------------------------------------------------------------------------

/// A type error with a note that points at a place between `lo` and `hi`, and at
/// one more such place at most. No place is empty.
pub open spec fn is_type_error(err: ErrorView, lo: int, hi: int) -> bool {
    &&& err.category == ErrorCategory::TypeError
    &&& marks(err.span, lo, hi)
    &&& err.note is Some
    &&& err.related.len() <= 1
    &&& forall|k: int|
        0 <= k < err.related.len() ==> marks((#[trigger] err.related[k]).span, lo, hi)
}

/// There are finitely many uses, all of them between `lo` and `hi`.
pub open spec fn uses_within(uses: Uses, lo: int, hi: int) -> bool {
    &&& uses.dom().finite()
    &&& forall|n: Seq<char>| #[trigger] uses.contains_key(n) ==> marks(uses[n], lo, hi)
}

/// What checking an expression between `lo` and `hi` must yield.
spec fn points_within(r: Checked, lo: int, hi: int) -> bool {
    match r {
        Ok(c) => uses_within(c.consumes, lo, hi) && uses_within(c.borrows, lo, hi),
        Err(e) => is_type_error(e, lo, hi),
    }
}

/// The name that a conflict is about is a name of both sides.
proof fn lemma_conflict(a: Uses, b: Uses)
    requires
        a.dom().finite(),
        !apart(a, b),
    ensures
        a.contains_key(conflict(a, b)),
        b.contains_key(conflict(a, b)),
{
    let common = common_names(a, b);
    assert(exists|n: Seq<char>| common.contains(n)) by {
        let n = choose|n: Seq<char>| a.dom().contains(n) && b.dom().contains(n);
        assert(common.contains(n));
    }
    lemma_first_name(common);
    assert(common.contains(first_name(common)));
}

proof fn lemma_merged_within(a: Uses, b: Uses, lo: int, hi: int)
    requires
        uses_within(a, lo, hi),
        uses_within(b, lo, hi),
    ensures
        match merged_consumes(a, b) {
            Ok(m) => uses_within(m, lo, hi),
            Err(e) => is_type_error(e, lo, hi),
        },
        uses_within(merged_borrows(a, b), lo, hi),
{
    assert(a.union_prefer_right(b).dom() =~= a.dom().union(b.dom()));
    assert(b.union_prefer_right(a).dom() =~= b.dom().union(a.dom()));
    if !apart(a, b) {
        lemma_conflict(a, b);
    }
}

proof fn lemma_fewer_within(uses: Uses, gone: Set<Seq<char>>, lo: int, hi: int)
    requires
        uses_within(uses, lo, hi),
    ensures
        uses_within(uses.remove_keys(gone), lo, hi),
{
    assert(uses.remove_keys(gone).dom() =~= uses.dom().difference(gone));
}

/// The first place where a name leaks is a place of the pattern.
proof fn lemma_first_leak(
    names: Seq<(Seq<char>, Span)>,
    fields: Seq<FieldView>,
    consumes: Uses,
    i: int,
)
    requires
        0 <= i,
    ensures
        first_leak(names, fields, consumes, i) matches Some(k) ==> i <= k < names.len(),
    decreases names.len() - i,
{
    if i < names.len() && !leaks(names, fields, consumes, i) {
        lemma_first_leak(names, fields, consumes, i + 1);
    }
}

proof fn lemma_seq_rule_points(f: CheckView, s: CheckView, lo: int, hi: int)
    requires
        uses_within(f.consumes, lo, hi),
        uses_within(f.borrows, lo, hi),
        uses_within(s.consumes, lo, hi),
        uses_within(s.borrows, lo, hi),
    ensures
        points_within(seq_rule(f, s), lo, hi),
{
    reveal(seq_rule);
    lemma_merged_within(f.consumes, s.consumes, lo, hi);
    lemma_fewer_within(f.borrows, s.consumes.dom(), lo, hi);
    lemma_merged_within(f.borrows.remove_keys(s.consumes.dom()), s.borrows, lo, hi);
    if !apart(f.consumes, s.borrows) {
        lemma_conflict(f.consumes, s.borrows);
    }
}

proof fn lemma_destructure_rule_points(
    names: Seq<(Seq<char>, Span)>,
    fields: Seq<FieldView>,
    v: CheckView,
    b: CheckView,
    lo: int,
    hi: int,
)
    requires
        uses_within(v.consumes, lo, hi),
        uses_within(v.borrows, lo, hi),
        uses_within(b.consumes, lo, hi),
        uses_within(b.borrows, lo, hi),
        forall|k: int| 0 <= k < names.len() ==> marks((#[trigger] names[k]).1, lo, hi),
    ensures
        points_within(destructure_rule(names, fields, v, b), lo, hi),
{
    reveal(destructure_rule);
    let bound = bound_names(names);
    lemma_first_leak(names, fields, b.consumes, 0);
    lemma_fewer_within(b.consumes, bound, lo, hi);
    lemma_fewer_within(b.borrows, bound, lo, hi);
    lemma_merged_within(v.consumes, b.consumes.remove_keys(bound), lo, hi);
    lemma_merged_within(v.borrows, b.borrows.remove_keys(bound), lo, hi);
    if !apart(v.consumes, b.borrows) {
        lemma_conflict(v.consumes, b.borrows);
    }
    if !apart(v.borrows, b.consumes) {
        lemma_conflict(v.borrows, b.consumes);
    }
}

proof fn lemma_let_rule_points(
    usage: Usage,
    name: Seq<char>,
    name_span: Span,
    v: CheckView,
    b: CheckView,
    lo: int,
    hi: int,
)
    requires
        uses_within(v.consumes, lo, hi),
        uses_within(v.borrows, lo, hi),
        uses_within(b.consumes, lo, hi),
        uses_within(b.borrows, lo, hi),
        marks(name_span, lo, hi),
    ensures
        points_within(let_rule(usage, name, name_span, v, b), lo, hi),
{
    reveal(let_rule);
    assert(uses_within(b.consumes.remove(name), lo, hi));
    assert(uses_within(b.borrows.remove(name), lo, hi));
    lemma_fewer_within(v.borrows, b.consumes.dom(), lo, hi);
    lemma_merged_within(v.consumes, b.consumes.remove(name), lo, hi);
    lemma_merged_within(v.borrows, b.borrows.remove(name), lo, hi);
    lemma_merged_within(
        v.borrows.remove_keys(b.consumes.dom()),
        b.borrows.remove(name),
        lo,
        hi,
    );
    if !apart(v.consumes, b.borrows) {
        lemma_conflict(v.consumes, b.borrows);
    }
    if !apart(v.borrows, b.consumes) {
        lemma_conflict(v.borrows, b.consumes);
    }
}

/// An expression that is rejected is rejected with a type error that has a note
/// and points into the expression. One that is accepted is on record as using
/// finitely many variables, at places in the expression.
pub proof fn law_type_errors_point_into_the_expression(
    expr: ExprView,
    scope: Scope,
    expected: Option<Usage>,
    mode: ConsumeMode,
    lo: int,
    hi: int,
)
    requires
        placed(expr, lo, hi),
    ensures
        match check(expr, scope, expected, mode) {
            Ok(c) => uses_within(c.consumes, lo, hi) && uses_within(c.borrows, lo, hi),
            Err(e) => is_type_error(e, lo, hi),
        },
    decreases expr, 0nat,
{
    lemma_check(expr, scope, expected, mode);
    let start = expr.span().start as int;
    let end = expr.span().end as int;
    match expr {
        ExprView::Add { lhs, rhs, .. } => {
            lemma_placed_wider(*lhs, start, end, lo, hi);
            lemma_placed_wider(*rhs, lhs.span().end as int, end, lo, hi);
            let wanted = Some(Usage::Ordinary);
            law_type_errors_point_into_the_expression(*lhs, scope, wanted, mode, lo, hi);
            law_type_errors_point_into_the_expression(*rhs, scope, wanted, mode, lo, hi);
            if let (Ok(l), Ok(r)) = (
                check(*lhs, scope, wanted, mode),
                check(*rhs, scope, wanted, mode),
            ) {
                lemma_merged_within(l.consumes, r.consumes, lo, hi);
                lemma_merged_within(l.borrows, r.borrows, lo, hi);
            }
        },
        ExprView::Sequence { first, second, .. } => {
            lemma_placed_wider(*first, start, end, lo, hi);
            lemma_placed_wider(*second, first.span().end as int, end, lo, hi);
            let wanted = Some(Usage::Ordinary);
            law_type_errors_point_into_the_expression(
                *first,
                scope,
                wanted,
                ConsumeMode::Borrow,
                lo,
                hi,
            );
            law_type_errors_point_into_the_expression(*second, scope, expected, mode, lo, hi);
            if let (Ok(f), Ok(s)) = (
                check(*first, scope, wanted, ConsumeMode::Borrow),
                check(*second, scope, expected, mode),
            ) {
                lemma_seq_rule_points(f, s, lo, hi);
            }
        },
        ExprView::Tuple { elems, .. } => {
            assert forall|k: int| 0 <= k < elems.len() implies placed(
                #[trigger] elems[k],
                lo,
                hi,
            ) by {
                lemma_placed_wider(elems[k], start, end, lo, hi);
            }
            lemma_components_point(elems, elems.len(), scope, built_usage(expected), mode, lo, hi);
        },
        ExprView::TupleProj { tuple, .. } => {
            lemma_placed_wider(*tuple, start, end, lo, hi);
            law_type_errors_point_into_the_expression(*tuple, scope, None, mode, lo, hi);
        },
        ExprView::TupleDestructure { names, value, body, .. } => {
            lemma_placed_wider(*value, start, end, lo, hi);
            lemma_placed_wider(*body, value.span().end as int, end, lo, hi);
            let wanted = Some(Usage::Linear);
            law_type_errors_point_into_the_expression(
                *value,
                scope,
                wanted,
                ConsumeMode::Consume,
                lo,
                hi,
            );
            if let Ok(v) = check(*value, scope, wanted, ConsumeMode::Consume) {
                if let Ok(fields) = deconstructed(names, v, value.span()) {
                    let inner = bind_fields(scope, names, fields, names.len());
                    law_type_errors_point_into_the_expression(*body, inner, expected, mode, lo, hi);
                    if let Ok(b) = check(*body, inner, expected, mode) {
                        lemma_destructure_rule_points(names, fields, v, b, lo, hi);
                    }
                }
            }
        },
        ExprView::Let { usage, name, name_span, value, body, .. } => {
            lemma_placed_wider(*value, name_span.end as int, end, lo, hi);
            lemma_placed_wider(*body, value.span().end as int, end, lo, hi);
            law_type_errors_point_into_the_expression(
                *value,
                scope,
                value_expected(usage),
                value_mode(usage),
                lo,
                hi,
            );
            if let Ok(v) = check(*value, scope, value_expected(usage), value_mode(usage)) {
                let inner = scope.insert(name, v.typed);
                law_type_errors_point_into_the_expression(*body, inner, expected, mode, lo, hi);
                if let Ok(b) = check(*body, inner, expected, mode) {
                    lemma_let_rule_points(usage, name, name_span, v, b, lo, hi);
                }
            }
        },
        _ => {},
    }
}

proof fn lemma_components_point(
    elems: Seq<ExprView>,
    n: nat,
    scope: Scope,
    outer: Usage,
    mode: ConsumeMode,
    lo: int,
    hi: int,
)
    requires
        forall|k: int| 0 <= k < elems.len() ==> placed(#[trigger] elems[k], lo, hi),
    ensures
        points_within(check_components(elems, n, scope, outer, mode), lo, hi),
    decreases elems, n,
{
    if 0 < n <= elems.len() {
        lemma_components_point(elems, (n - 1) as nat, scope, outer, mode, lo, hi);
        let wanted = component_expected(outer);
        law_type_errors_point_into_the_expression(elems[n - 1], scope, wanted, mode, lo, hi);
        if let (Ok(t), Ok(c)) = (
            check_components(elems, (n - 1) as nat, scope, outer, mode),
            check(elems[n - 1], scope, wanted, mode),
        ) {
            lemma_merged_within(t.consumes, c.consumes, lo, hi);
            lemma_merged_within(t.borrows, c.borrows, lo, hi);
        }
    }
}

/// A source that parses and is then rejected is rejected with a type error that
/// has a note and whose places, one or two, all lie in the program, which lies in
/// the source.
pub proof fn law_type_errors_point_into_the_source(src: Seq<u8>)
    requires
        src.len() <= usize::MAX,
    ensures
        read_source(src) matches Ok((expr, span)) ==> {
            &&& marks(span, 0, src.len() as int)
            &&& check(expr, Map::empty(), None, ConsumeMode::Consume) matches Err(e)
                ==> is_type_error(e, span.start as int, span.end as int)
        },
{
    law_parsed_programs_are_well_formed(src);
    if let Ok((expr, span)) = read_source(src) {
        law_type_errors_point_into_the_expression(
            expr,
            Map::empty(),
            None,
            ConsumeMode::Consume,
            span.start as int,
            span.end as int,
        );
    }
}

} // verus!
