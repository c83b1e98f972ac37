//! Tokens, byte by byte.
//!
//! A source is a sequence of tokens: words, numerals and single bytes, with white
//! space and comments around them. The laws here say that reading a source depends on
//! its tokens alone, that every program can be written, and that every token of a
//! source that is read is accounted for by the expression.

use crate::ast::{joined, span_of, ExprView, Span, Usage};
use crate::composing::lemma_destructure_form;
use crate::grammar::{
    is_add, is_atom, is_binder, is_binding, is_chain, is_elems, is_expr, is_let, is_names,
    is_pattern, is_postfix, is_program, is_usage, law_parsing_is_complete, law_parsing_is_sound,
    lemma_elems_prefix, lemma_names_prefix, separated,
};
use crate::lexical::{
    byte_at, comment_at, digit_at, digits_end, digits_value, ident_run_end, int_at,
    int_digits_start, int_end, int_value, keyword_at, lemma_int, lemma_next_line, lemma_word,
    next_line, skip, word, word_at, word_end, COMMA, DOT, EQUALS, LPAREN, PLUS, RPAREN, SEMICOLON,
};
use crate::reading::read_source;
use vstd::prelude::*;

verus! {

// -----------------------------------------------------------------------------
// Bytes
// -----------------------------------------------------------------------------

/// Tab, line feed, form feed, carriage return or space.
pub open spec fn white(b: u8) -> bool {
    b == 9 || b == 10 || b == 12 || b == 13 || b == 32
}

/// A letter or an underscore.
pub open spec fn letter(b: u8) -> bool {
    65 <= b <= 90 || 97 <= b <= 122 || b == 95
}

/// A decimal digit.
pub open spec fn num(b: u8) -> bool {
    48 <= b <= 57
}

/// Two slashes stand at `i`.
pub open spec fn slashes(src: Seq<u8>, i: int) -> bool {
    0 <= i && i + 1 < src.len() && src[i] == 47 && src[i + 1] == 47
}

/// Just behind the first line feed from `i` on, or the end of the source.
pub open spec fn past_line(src: Seq<u8>, i: int) -> int
    decreases src.len() - i,
{
    if i >= src.len() {
        src.len() as int
    } else if src[i] == 10 {
        i + 1
    } else {
        past_line(src, i + 1)
    }
}

pub proof fn lemma_past_line(src: Seq<u8>, i: int)
    requires
        0 <= i <= src.len(),
    ensures
        i <= past_line(src, i) <= src.len(),
        i < src.len() ==> i < past_line(src, i),
        past_line(src, i) == next_line(src, i),
    decreases src.len() - i,
{
    if i < src.len() && src[i] != 10 {
        lemma_past_line(src, i + 1);
    }
}

/// Where the letters and digits that begin at `i` end.
pub open spec fn word_stop(src: Seq<u8>, i: int) -> int
    decreases src.len() - i,
{
    if 0 <= i < src.len() && (letter(src[i]) || num(src[i])) {
        word_stop(src, i + 1)
    } else {
        i
    }
}

/// Where the digits that begin at `i` end.
pub open spec fn digit_stop(src: Seq<u8>, i: int) -> int
    decreases src.len() - i,
{
    if 0 <= i < src.len() && num(src[i]) {
        digit_stop(src, i + 1)
    } else {
        i
    }
}

/// A numeral, with or without a minus sign, begins at `i`.
pub open spec fn numeral_at(src: Seq<u8>, i: int) -> bool {
    0 <= i < src.len() && (num(src[i]) || src[i] == 45 && i + 1 < src.len() && num(src[i + 1]))
}

/// Where the token that begins at `i` ends.
pub open spec fn token_stop(src: Seq<u8>, i: int) -> int {
    if letter(src[i]) {
        word_stop(src, i)
    } else if numeral_at(src, i) {
        digit_stop(src, i + 1)
    } else {
        i + 1
    }
}

proof fn lemma_stops(src: Seq<u8>, i: int)
    requires
        0 <= i <= src.len(),
    ensures
        i <= word_stop(src, i) <= src.len(),
        i <= digit_stop(src, i) <= src.len(),
        word_stop(src, i) == ident_run_end(src, i),
        digit_stop(src, i) == digits_end(src, i),
        forall|k: int| i <= k < digit_stop(src, i) ==> num(#[trigger] src[k]),
    decreases src.len() - i,
{
    if i < src.len() {
        lemma_stops(src, i + 1);
    }
}

pub proof fn lemma_token_stop(src: Seq<u8>, i: int)
    requires
        0 <= i < src.len(),
    ensures
        i < token_stop(src, i) <= src.len(),
{
    lemma_stops(src, i + 1);
}

/// The tokens from `i` on.
pub open spec fn tokens_from(src: Seq<u8>, i: int) -> Seq<Seq<u8>>
    decreases src.len() - i,
{
    if i < 0 || i >= src.len() {
        Seq::empty()
    } else if white(src[i]) {
        tokens_from(src, i + 1)
    } else if slashes(src, i) {
        proof {
            lemma_past_line(src, i);
        }
        tokens_from(src, past_line(src, i))
    } else {
        proof {
            lemma_token_stop(src, i);
        }
        seq![src.subrange(i, token_stop(src, i))] + tokens_from(src, token_stop(src, i))
    }
}

/// The tokens of a source.
pub open spec fn tokens(src: Seq<u8>) -> Seq<Seq<u8>> {
    tokens_from(src, 0)
}

// -----------------------------------------------------------------------------
// Where things begin and end
// -----------------------------------------------------------------------------

/// White space is skipped, a comment is skipped to the end of its line whatever it
/// says, and nothing else is.
pub proof fn law_white_space_and_comments_are_skipped(src: Seq<u8>, i: int)
    requires
        0 <= i <= src.len(),
    ensures
        i < src.len() && white(src[i]) ==> skip(src, i) == skip(src, i + 1),
        forall|k: int|
            #![trigger src[k]]
            slashes(src, i) && i <= k < src.len() && src[k] == 10 && (forall|t: int|
                i <= t < k ==> #[trigger] src[t] != 10) ==> skip(src, i) == skip(src, k + 1),
        slashes(src, i) && (forall|t: int| i <= t < src.len() ==> #[trigger] src[t] != 10)
            ==> skip(src, i) == src.len(),
        i == src.len() || !white(src[i]) && !slashes(src, i) ==> skip(src, i) == i,
{
    if slashes(src, i) {
        lemma_next_line(src, i);
        assert(comment_at(src, i));
        assert forall|k: int|
            #![trigger src[k]]
            i <= k < src.len() && src[k] == 10 && (forall|t: int|
                i <= t < k ==> #[trigger] src[t] != 10) implies next_line(src, i) == k + 1 by {
            lemma_next_line_is(src, i, k);
        }
        if forall|t: int| i <= t < src.len() ==> #[trigger] src[t] != 10 {
            lemma_no_next_line(src, i);
            assert(skip(src, src.len() as int) == src.len());
        }
    }
}

proof fn lemma_next_line_is(src: Seq<u8>, i: int, k: int)
    requires
        0 <= i <= k < src.len(),
        src[k] == 10,
        forall|t: int| i <= t < k ==> #[trigger] src[t] != 10,
    ensures
        next_line(src, i) == k + 1,
    decreases k - i,
{
    if i < k {
        assert(src[i] != 10);
        lemma_next_line_is(src, i + 1, k);
    }
}

proof fn lemma_no_next_line(src: Seq<u8>, i: int)
    requires
        0 <= i <= src.len(),
        forall|t: int| i <= t < src.len() ==> #[trigger] src[t] != 10,
    ensures
        next_line(src, i) == src.len(),
    decreases src.len() - i,
{
    if i < src.len() {
        assert(src[i] != 10);
        lemma_no_next_line(src, i + 1);
    }
}

/// Skipping passes over no token.
pub proof fn lemma_tokens_skip(src: Seq<u8>, i: int)
    requires
        0 <= i <= src.len(),
    ensures
        tokens_from(src, skip(src, i)) == tokens_from(src, i),
        i <= skip(src, i) <= src.len(),
        skip(src, i) < src.len() ==> !white(src[skip(src, i)]) && !slashes(src, skip(src, i)),
    decreases src.len() - i,
{
    if i < src.len() {
        if white(src[i]) {
            lemma_tokens_skip(src, i + 1);
        } else if slashes(src, i) {
            assert(comment_at(src, i));
            lemma_past_line(src, i);
            lemma_tokens_skip(src, next_line(src, i));
        }
    }
}

/// No white space and no comment begins at `i`, so that a token does or the source ends.
pub open spec fn poised(src: Seq<u8>, i: int) -> bool {
    &&& 0 <= i <= src.len()
    &&& i < src.len() ==> !white(src[i]) && !slashes(src, i)
}

/// A word begins exactly where a letter stands, and extends over letters and digits.
pub proof fn lemma_word_token(src: Seq<u8>, i: int)
    requires
        poised(src, i),
    ensures
        word_at(src, i) <==> i < src.len() && letter(src[i]),
        word_at(src, i) ==> token_stop(src, i) == word_end(src, i) && word_end(src, i)
            <= src.len(),
{
    if word_at(src, i) {
        lemma_stops(src, i + 1);
        lemma_word(src, i);
    }
}

/// A numeral begins exactly where a digit stands, or a minus sign before one.
pub proof fn lemma_int_token(src: Seq<u8>, i: int)
    requires
        poised(src, i),
    ensures
        int_at(src, i) <==> numeral_at(src, i),
        int_at(src, i) ==> token_stop(src, i) == int_end(src, i) && int_end(src, i) <= src.len(),
        digit_at(src, i) <==> i < src.len() && num(src[i]),
        digit_at(src, i) ==> token_stop(src, i) == digits_end(src, i) && i < digits_end(src, i)
            <= src.len(),
{
    if int_at(src, i) {
        lemma_int(src, i);
        lemma_stops(src, i + 1);
        let start = int_digits_start(src, i);
        lemma_stops(src, start);
    }
}

// -----------------------------------------------------------------------------
// Reading depends on tokens alone
// -----------------------------------------------------------------------------

/// The two expressions differ in their spans at most.
pub open spec fn same_shape(a: ExprView, b: ExprView) -> bool
    decreases a,
{
    match (a, b) {
        (ExprView::IntLit { value: x, .. }, ExprView::IntLit { value: y, .. }) => x == y,
        (ExprView::Var { name: x, .. }, ExprView::Var { name: y, .. }) => x == y,
        (ExprView::Add { lhs: l, rhs: r, .. }, ExprView::Add { lhs: m, rhs: s, .. }) => same_shape(
            *l,
            *m,
        ) && same_shape(*r, *s),
        (
            ExprView::Sequence { first: l, second: r, .. },
            ExprView::Sequence { first: m, second: s, .. },
        ) => same_shape(*l, *m) && same_shape(*r, *s),
        (
            ExprView::Let { usage: u, name: x, value: l, body: r, .. },
            ExprView::Let { usage: v, name: y, value: m, body: s, .. },
        ) => u == v && x == y && same_shape(*l, *m) && same_shape(*r, *s),
        (ExprView::Tuple { elems: x, .. }, ExprView::Tuple { elems: y, .. }) => x.len() == y.len()
            && forall|k: int| 0 <= k < x.len() ==> same_shape(#[trigger] x[k], y[k]),
        (
            ExprView::TupleProj { tuple: x, index: i, .. },
            ExprView::TupleProj { tuple: y, index: j, .. },
        ) => i == j && same_shape(*x, *y),
        (
            ExprView::TupleDestructure { names: x, value: l, body: r, .. },
            ExprView::TupleDestructure { names: y, value: m, body: s, .. },
        ) => same_names(x, y) && same_shape(*l, *m) && same_shape(*r, *s),
        _ => false,
    }
}

/// The two lists hold the same names.
pub open spec fn same_names(a: Seq<(Seq<char>, Span)>, b: Seq<(Seq<char>, Span)>) -> bool {
    a.len() == b.len() && forall|k: int| 0 <= k < a.len() ==> (#[trigger] a[k]).0 == b[k].0
}

/// The same tokens stand in `a` from `i` on and in `b` from `j` on.
spec fn alike(a: Seq<u8>, i: int, b: Seq<u8>, j: int) -> bool {
    &&& 0 <= i <= a.len()
    &&& 0 <= j <= b.len()
    &&& tokens_from(a, i) == tokens_from(b, j)
}

proof fn lemma_alike_skip(a: Seq<u8>, i: int, b: Seq<u8>, j: int)
    requires
        alike(a, i, b, j),
    ensures
        alike(a, skip(a, i), b, skip(b, j)),
        poised(a, skip(a, i)),
        poised(b, skip(b, j)),
{
    lemma_tokens_skip(a, i);
    lemma_tokens_skip(b, j);
}

/// Where the same tokens begin, the first tokens have the same bytes and the same
/// tokens follow.
proof fn lemma_alike_token(a: Seq<u8>, i: int, b: Seq<u8>, j: int)
    requires
        alike(a, i, b, j),
        poised(a, i),
        poised(b, j),
    ensures
        i < a.len() <==> j < b.len(),
        i < a.len() ==> {
            &&& i < token_stop(a, i) <= a.len()
            &&& j < token_stop(b, j) <= b.len()
            &&& a.subrange(i, token_stop(a, i)) == b.subrange(j, token_stop(b, j))
            &&& token_stop(a, i) - i == token_stop(b, j) - j
            &&& a[i] == b[j]
            &&& alike(a, token_stop(a, i), b, token_stop(b, j))
        },
{
    if i < a.len() {
        lemma_token_stop(a, i);
        assert(tokens_from(a, i).len() > 0);
    }
    if j < b.len() {
        lemma_token_stop(b, j);
        assert(tokens_from(b, j).len() > 0);
    }
    if i < a.len() && j < b.len() {
        let x = tokens_from(a, i);
        let y = tokens_from(b, j);
        assert(x[0] == a.subrange(i, token_stop(a, i)));
        assert(y[0] == b.subrange(j, token_stop(b, j)));
        assert(x[0][0] == a[i] && y[0][0] == b[j]);
        assert(x.drop_first() =~= tokens_from(a, token_stop(a, i)));
        assert(y.drop_first() =~= tokens_from(b, token_stop(b, j)));
        assert(x[0].len() == token_stop(a, i) - i);
        assert(y[0].len() == token_stop(b, j) - j);
    }
}

/// A mark is a byte that is a token by itself.
pub open spec fn is_mark(b: u8) -> bool {
    b == 40 || b == 41 || b == 43 || b == 44 || b == 46 || b == 59 || b == 61
}

proof fn lemma_alike_mark(a: Seq<u8>, i: int, b: Seq<u8>, j: int, mark: u8)
    requires
        alike(a, i, b, j),
        poised(a, i),
        poised(b, j),
        is_mark(mark),
    ensures
        byte_at(a, i, mark) == byte_at(b, j, mark),
        byte_at(a, i, mark) ==> alike(a, i + 1, b, j + 1),
{
    lemma_alike_token(a, i, b, j);
}

proof fn lemma_alike_word(a: Seq<u8>, i: int, b: Seq<u8>, j: int)
    requires
        alike(a, i, b, j),
        poised(a, i),
        poised(b, j),
    ensures
        word_at(a, i) == word_at(b, j),
        word_at(a, i) ==> {
            &&& word(a, i) == word(b, j)
            &&& i < word_end(a, i) <= a.len()
            &&& j < word_end(b, j) <= b.len()
            &&& alike(a, word_end(a, i), b, word_end(b, j))
        },
{
    lemma_alike_token(a, i, b, j);
    lemma_word_token(a, i);
    lemma_word_token(b, j);
}

proof fn lemma_alike_int(a: Seq<u8>, i: int, b: Seq<u8>, j: int)
    requires
        alike(a, i, b, j),
        poised(a, i),
        poised(b, j),
    ensures
        int_at(a, i) == int_at(b, j),
        digit_at(a, i) == digit_at(b, j),
        int_at(a, i) ==> {
            &&& int_value(a, i) == int_value(b, j)
            &&& j < int_end(b, j) <= b.len()
            &&& alike(a, int_end(a, i), b, int_end(b, j))
        },
        digit_at(a, i) ==> {
            &&& digits_value(a.subrange(i, digits_end(a, i))) == digits_value(
                b.subrange(j, digits_end(b, j)),
            )
            &&& j < digits_end(b, j) <= b.len()
            &&& alike(a, digits_end(a, i), b, digits_end(b, j))
        },
{
    lemma_alike_token(a, i, b, j);
    lemma_int_token(a, i);
    lemma_int_token(b, j);
    if i < a.len() {
        let p = a.subrange(i, token_stop(a, i));
        let q = b.subrange(j, token_stop(b, j));
        if numeral_at(a, i) {
            lemma_stops(a, i + 1);
            if a[i] == 45 {
                assert(p[1] == a[i + 1]);
                assert(q[1] == p[1]);
                lemma_token_stop(a, i + 1);
                assert(token_stop(b, j) >= j + 2);
                assert(q[1] == b[j + 1]);
            }
        }
        if numeral_at(b, j) {
            lemma_stops(b, j + 1);
            if b[j] == 45 {
                assert(q[1] == b[j + 1]);
                assert(q[1] == p[1]);
                assert(token_stop(a, i) >= i + 2);
                assert(p[1] == a[i + 1]);
            }
        }
        if int_at(a, i) {
            lemma_int(a, i);
            lemma_int(b, j);
            let x = int_digits_start(a, i);
            let y = int_digits_start(b, j);
            assert(x - i == y - j);
            assert(a.subrange(x, int_end(a, i)) =~= p.subrange(x - i, p.len() as int));
            assert(b.subrange(y, int_end(b, j)) =~= q.subrange(y - j, q.len() as int));
        }
    }
}

// -----------------------------------------------------------------------------
// Making expressions out of parts
// -----------------------------------------------------------------------------

/// `lhs + rhs`.
spec fn sum_of(lhs: ExprView, rhs: ExprView) -> ExprView {
    ExprView::Add {
        lhs: Box::new(lhs),
        rhs: Box::new(rhs),
        span: joined(lhs.span(), rhs.span()),
    }
}

/// `first ; second`.
spec fn sequence_of(first: ExprView, second: ExprView) -> ExprView {
    ExprView::Sequence {
        first: Box::new(first),
        second: Box::new(second),
        span: joined(first.span(), second.span()),
    }
}

proof fn lemma_make_sum(src: Seq<u8>, i: int, lhs: ExprView, k: int, m: int, rhs: ExprView, j: int)
    requires
        0 <= i < k < m < j <= src.len(),
        is_add(src, i, lhs, k),
        separated(src, k, PLUS, m),
        is_postfix(src, m, rhs, j),
    ensures
        is_add(src, i, sum_of(lhs, rhs), j),
{
    let expr = sum_of(lhs, rhs);
    assert(is_add(src, i, *expr->lhs, k) && is_postfix(src, m, *expr->rhs, j));
}

proof fn lemma_make_chain(
    src: Seq<u8>,
    i: int,
    first: ExprView,
    k: int,
    m: int,
    second: ExprView,
    j: int,
)
    requires
        0 <= i < k < m < j <= src.len(),
        is_chain(src, i, first, k),
        separated(src, k, SEMICOLON, m),
        is_add(src, m, second, j),
    ensures
        is_chain(src, i, sequence_of(first, second), j),
{
    let expr = sequence_of(first, second);
    assert(is_chain(src, i, *expr->Sequence_first, k) && is_add(
        src,
        m,
        *expr->Sequence_second,
        j,
    ));
}

proof fn lemma_make_let_chain(
    src: Seq<u8>,
    i: int,
    first: ExprView,
    k: int,
    m: int,
    second: ExprView,
    j: int,
)
    requires
        0 <= i < k < m < j <= src.len(),
        is_chain(src, i, first, k),
        separated(src, k, SEMICOLON, m),
        is_let(src, m, second, j),
    ensures
        is_expr(src, i, sequence_of(first, second), j),
{
    let expr = sequence_of(first, second);
    assert(is_chain(src, i, *expr->Sequence_first, k) && is_let(
        src,
        m,
        *expr->Sequence_second,
        j,
    ));
}

proof fn lemma_make_group(src: Seq<u8>, i: int, expr: ExprView, k: int)
    requires
        byte_at(src, i, LPAREN),
        i < skip(src, i + 1) < k,
        is_expr(src, skip(src, i + 1), expr, k),
        byte_at(src, skip(src, k), RPAREN),
        k <= skip(src, k),
    ensures
        is_atom(src, i, expr, skip(src, k) + 1),
{
    assert(byte_at(src, skip(src, k), RPAREN));
}

proof fn lemma_make_binding(src: Seq<u8>, i: int, value: ExprView, k: int, body: ExprView, j: int)
    requires
        byte_at(src, i, EQUALS),
        i < skip(src, i + 1) < k < skip(src, word_end(src, skip(src, k))) < j,
        is_expr(src, skip(src, i + 1), value, k),
        keyword_at(src, skip(src, k), "in"@),
        is_expr(src, skip(src, word_end(src, skip(src, k))), body, j),
    ensures
        is_binding(src, i, value, body, j),
{
    assert(keyword_at(src, skip(src, k), "in"@));
}

/// Advancing past a token that is followed by the separator `mark` and another token.
proof fn lemma_alike_separated(
    a: Seq<u8>,
    k: int,
    m: int,
    b: Seq<u8>,
    l: int,
    mark: u8,
) -> (n: int)
    requires
        alike(a, k, b, l),
        separated(a, k, mark, m),
        is_mark(mark),
    ensures
        separated(b, l, mark, n),
        alike(a, m, b, n),
        poised(a, m),
        poised(b, n),
{
    lemma_alike_skip(a, k, b, l);
    let (s, t) = (skip(a, k), skip(b, l));
    lemma_alike_mark(a, s, b, t, mark);
    lemma_alike_skip(a, s + 1, b, t + 1);
    lemma_tokens_skip(b, l);
    lemma_tokens_skip(b, t + 1);
    skip(b, t + 1)
}

// -----------------------------------------------------------------------------
// Two sources with the same tokens
// -----------------------------------------------------------------------------

proof fn lemma_same_names(
    a: Seq<u8>,
    i: int,
    names: Seq<(Seq<char>, Span)>,
    n: nat,
    k: int,
    b: Seq<u8>,
    j: int,
) -> (r: (Seq<(Seq<char>, Span)>, int))
    requires
        alike(a, i, b, j),
        poised(a, i),
        poised(b, j),
        is_names(a, i, names, n, k),
    ensures
        r.0.len() == n,
        is_names(b, j, r.0, n, r.1),
        forall|x: int| 0 <= x < n ==> (#[trigger] r.0[x]).0 == names[x].0,
        alike(a, k, b, r.1),
    decreases n,
{
    if n == 1 {
        lemma_alike_word(a, i, b, j);
        let binder = (word(b, j), span_of(j, word_end(b, j)));
        (seq![binder], word_end(b, j))
    } else {
        let (p, m) = choose|p: int, m: int|
            {
                &&& is_names(a, i, names, (n - 1) as nat, p)
                &&& #[trigger] separated(a, p, COMMA, m)
                &&& is_binder(a, m, names[n - 1])
                &&& k == word_end(a, m)
            };
        let (before, q) = lemma_same_names(a, i, names, (n - 1) as nat, p, b, j);
        let o = lemma_alike_separated(a, p, m, b, q, COMMA);
        lemma_alike_word(a, m, b, o);
        let binder = (word(b, o), span_of(o, word_end(b, o)));
        let all = before.push(binder);
        lemma_names_prefix(b, j, before, all, (n - 1) as nat, q);
        assert(separated(b, q, COMMA, o));
        assert(is_binder(b, o, all[n - 1]));
        (all, word_end(b, o))
    }
}

proof fn lemma_same_pattern(
    a: Seq<u8>,
    i: int,
    names: Seq<(Seq<char>, Span)>,
    k: int,
    b: Seq<u8>,
    j: int,
) -> (r: (Seq<(Seq<char>, Span)>, int))
    requires
        alike(a, i, b, j),
        poised(a, i),
        poised(b, j),
        is_pattern(a, i, names, k),
    ensures
        is_pattern(b, j, r.0, r.1),
        same_names(names, r.0),
        alike(a, k, b, r.1),
        j < r.1,
{
    lemma_alike_mark(a, i, b, j, LPAREN);
    lemma_alike_skip(a, i + 1, b, j + 1);
    let (s, t) = (skip(a, i + 1), skip(b, j + 1));
    lemma_tokens_skip(b, j + 1);
    if names.len() == 0 {
        lemma_alike_mark(a, s, b, t, RPAREN);
        (Seq::empty(), t + 1)
    } else {
        let p = choose|p: int|
            {
                &&& is_names(a, s, names, names.len(), p)
                &&& #[trigger] byte_at(a, skip(a, p), RPAREN)
                &&& k == skip(a, p) + 1
            };
        let (found, q) = lemma_same_names(a, s, names, names.len(), p, b, t);
        lemma_names_span(b, t, found, names.len(), q);
        lemma_alike_skip(a, p, b, q);
        lemma_tokens_skip(b, q);
        lemma_alike_mark(a, skip(a, p), b, skip(b, q), RPAREN);
        assert(byte_at(b, skip(b, q), RPAREN));
        (found, skip(b, q) + 1)
    }
}

pub proof fn lemma_names_span(
    src: Seq<u8>,
    i: int,
    names: Seq<(Seq<char>, Span)>,
    n: nat,
    j: int,
)
    requires
        is_names(src, i, names, n, j),
    ensures
        0 <= i < j <= src.len(),
    decreases n,
{
    if n == 1 {
        lemma_word(src, i);
    } else {
        let (p, m) = choose|p: int, m: int|
            {
                &&& is_names(src, i, names, (n - 1) as nat, p)
                &&& #[trigger] separated(src, p, COMMA, m)
                &&& is_binder(src, m, names[n - 1])
                &&& j == word_end(src, m)
            };
        lemma_names_span(src, i, names, (n - 1) as nat, p);
        lemma_word(src, m);
    }
}

proof fn lemma_same_expr(
    a: Seq<u8>,
    i: int,
    expr: ExprView,
    k: int,
    b: Seq<u8>,
    j: int,
) -> (r: (ExprView, int))
    requires
        alike(a, i, b, j),
        poised(a, i),
        poised(b, j),
        is_expr(a, i, expr, k),
    ensures
        is_expr(b, j, r.0, r.1),
        same_shape(expr, r.0),
        alike(a, k, b, r.1),
    decreases k - i, 7nat,
{
    if is_chain(a, i, expr, k) {
        lemma_same_chain(a, i, expr, k, b, j)
    } else if is_let(a, i, expr, k) {
        lemma_same_let(a, i, expr, k, b, j)
    } else {
        let first = *expr->Sequence_first;
        let second = *expr->Sequence_second;
        let (p, m) = choose|p: int, m: int|
            {
                &&& i < p < m < k
                &&& #[trigger] separated(a, p, SEMICOLON, m)
                &&& is_chain(a, i, first, p)
                &&& is_let(a, m, second, k)
            };
        let (x, q) = lemma_same_chain(a, i, first, p, b, j);
        let o = lemma_alike_separated(a, p, m, b, q, SEMICOLON);
        let (y, r) = lemma_same_let(a, m, second, k, b, o);
        lemma_make_let_chain(b, j, x, q, o, y, r);
        (sequence_of(x, y), r)
    }
}

proof fn lemma_same_chain(
    a: Seq<u8>,
    i: int,
    expr: ExprView,
    k: int,
    b: Seq<u8>,
    j: int,
) -> (r: (ExprView, int))
    requires
        alike(a, i, b, j),
        poised(a, i),
        poised(b, j),
        is_chain(a, i, expr, k),
    ensures
        is_chain(b, j, r.0, r.1),
        same_shape(expr, r.0),
        alike(a, k, b, r.1),
    decreases k - i, 6nat,
{
    if is_add(a, i, expr, k) {
        lemma_same_add(a, i, expr, k, b, j)
    } else {
        let first = *expr->Sequence_first;
        let second = *expr->Sequence_second;
        let (p, m) = choose|p: int, m: int|
            {
                &&& i < p < m < k
                &&& #[trigger] separated(a, p, SEMICOLON, m)
                &&& is_chain(a, i, first, p)
                &&& is_add(a, m, second, k)
            };
        let (x, q) = lemma_same_chain(a, i, first, p, b, j);
        let o = lemma_alike_separated(a, p, m, b, q, SEMICOLON);
        let (y, r) = lemma_same_add(a, m, second, k, b, o);
        lemma_make_chain(b, j, x, q, o, y, r);
        (sequence_of(x, y), r)
    }
}

proof fn lemma_same_let(
    a: Seq<u8>,
    i: int,
    expr: ExprView,
    k: int,
    b: Seq<u8>,
    j: int,
) -> (r: (ExprView, int))
    requires
        alike(a, i, b, j),
        poised(a, i),
        poised(b, j),
        is_let(a, i, expr, k),
    ensures
        is_let(b, j, r.0, r.1),
        j < r.1 <= b.len(),
        same_shape(expr, r.0),
        alike(a, k, b, r.1),
    decreases k - i, 5nat,
{
    lemma_alike_word(a, i, b, j);
    lemma_alike_skip(a, word_end(a, i), b, word_end(b, j));
    lemma_tokens_skip(b, word_end(b, j));
    let (s, t) = (skip(a, word_end(a, i)), skip(b, word_end(b, j)));
    let let_span = span_of(j, word_end(b, j));
    match expr {
        ExprView::Let { usage, name, name_span, value, body, .. } => {
            lemma_alike_word(a, s, b, t);
            lemma_alike_skip(a, word_end(a, s), b, word_end(b, t));
            lemma_tokens_skip(b, word_end(b, t));
            let (n, o) = (skip(a, word_end(a, s)), skip(b, word_end(b, t)));
            lemma_alike_word(a, n, b, o);
            lemma_alike_skip(a, word_end(a, n), b, word_end(b, o));
            lemma_tokens_skip(b, word_end(b, o));
            let (e, f) = (skip(a, word_end(a, n)), skip(b, word_end(b, o)));
            let (x, y, r) = lemma_same_binding(a, e, *value, *body, k, b, f);
            let made = ExprView::Let {
                usage,
                name,
                name_span: span_of(o, word_end(b, o)),
                value: Box::new(x),
                body: Box::new(y),
                span: joined(let_span, y.span()),
            };
            assert(is_usage(b, t, usage));
            assert(is_binder(b, o, (name, span_of(o, word_end(b, o)))));
            assert(is_let(b, j, made, r));
            (made, r)
        },
        ExprView::TupleDestructure { names, value, body, .. } => {
            let end = choose|end: int|
                {
                    &&& #[trigger] is_pattern(a, s, names, end)
                    &&& i < skip(a, end) < k
                    &&& is_binding(a, skip(a, end), *value, *body, k)
                };
            let (found, stop) = lemma_same_pattern(a, s, names, end, b, t);
            lemma_alike_skip(a, end, b, stop);
            lemma_tokens_skip(b, stop);
            let (x, y, r) = lemma_same_binding(
                a,
                skip(a, end),
                *value,
                *body,
                k,
                b,
                skip(b, stop),
            );
            lemma_destructure_form(b, j, found, stop, x, y, r);
            (
                ExprView::TupleDestructure {
                    names: found,
                    value: Box::new(x),
                    body: Box::new(y),
                    span: joined(let_span, y.span()),
                },
                r,
            )
        },
        _ => (expr, k),
    }
}

proof fn lemma_same_binding(
    a: Seq<u8>,
    i: int,
    value: ExprView,
    body: ExprView,
    k: int,
    b: Seq<u8>,
    j: int,
) -> (r: (ExprView, ExprView, int))
    requires
        alike(a, i, b, j),
        poised(a, i),
        poised(b, j),
        is_binding(a, i, value, body, k),
    ensures
        is_binding(b, j, r.0, r.1, r.2),
        j < r.2 <= b.len(),
        same_shape(value, r.0),
        same_shape(body, r.1),
        alike(a, k, b, r.2),
    decreases k - i, 4nat,
{
    let s = skip(a, i + 1);
    let p = choose|p: int|
        {
            let rest = skip(a, word_end(a, skip(a, p)));
            &&& i < skip(a, i + 1) < p < rest < k
            &&& is_expr(a, skip(a, i + 1), value, p)
            &&& #[trigger] keyword_at(a, skip(a, p), "in"@)
            &&& is_expr(a, rest, body, k)
        };
    lemma_alike_mark(a, i, b, j, EQUALS);
    lemma_alike_skip(a, i + 1, b, j + 1);
    lemma_tokens_skip(b, j + 1);
    let t = skip(b, j + 1);
    let (x, q) = lemma_same_expr(a, s, value, p, b, t);
    lemma_alike_skip(a, p, b, q);
    lemma_tokens_skip(b, q);
    let (m, o) = (skip(a, p), skip(b, q));
    lemma_alike_word(a, m, b, o);
    lemma_alike_skip(a, word_end(a, m), b, word_end(b, o));
    lemma_tokens_skip(b, word_end(b, o));
    let (y, r) = lemma_same_expr(
        a,
        skip(a, word_end(a, m)),
        body,
        k,
        b,
        skip(b, word_end(b, o)),
    );
    lemma_make_binding(b, j, x, q, y, r);
    (x, y, r)
}

proof fn lemma_same_add(
    a: Seq<u8>,
    i: int,
    expr: ExprView,
    k: int,
    b: Seq<u8>,
    j: int,
) -> (r: (ExprView, int))
    requires
        alike(a, i, b, j),
        poised(a, i),
        poised(b, j),
        is_add(a, i, expr, k),
    ensures
        is_add(b, j, r.0, r.1),
        same_shape(expr, r.0),
        alike(a, k, b, r.1),
    decreases k - i, 3nat,
{
    if is_postfix(a, i, expr, k) {
        lemma_same_postfix(a, i, expr, k, b, j)
    } else {
        let lhs = *expr->lhs;
        let rhs = *expr->rhs;
        let (p, m) = choose|p: int, m: int|
            {
                &&& i < p < m < k
                &&& #[trigger] separated(a, p, PLUS, m)
                &&& is_add(a, i, lhs, p)
                &&& is_postfix(a, m, rhs, k)
            };
        let (x, q) = lemma_same_add(a, i, lhs, p, b, j);
        let o = lemma_alike_separated(a, p, m, b, q, PLUS);
        let (y, r) = lemma_same_postfix(a, m, rhs, k, b, o);
        lemma_make_sum(b, j, x, q, o, y, r);
        (sum_of(x, y), r)
    }
}

proof fn lemma_same_postfix(
    a: Seq<u8>,
    i: int,
    expr: ExprView,
    k: int,
    b: Seq<u8>,
    j: int,
) -> (r: (ExprView, int))
    requires
        alike(a, i, b, j),
        poised(a, i),
        poised(b, j),
        is_postfix(a, i, expr, k),
    ensures
        is_postfix(b, j, r.0, r.1),
        same_shape(expr, r.0),
        alike(a, k, b, r.1),
    decreases k - i, 2nat,
{
    if is_atom(a, i, expr, k) {
        lemma_same_atom(a, i, expr, k, b, j)
    } else {
        let tuple = *expr->tuple;
        let (p, m) = choose|p: int, m: int|
            {
                &&& i < p < m < k
                &&& #[trigger] separated(a, p, DOT, m)
                &&& is_postfix(a, i, tuple, p)
                &&& digit_at(a, m)
                &&& k == digits_end(a, m)
                &&& expr->index == digits_value(a.subrange(m, k))
                &&& expr->TupleProj_span == joined(tuple.span(), span_of(m, k))
            };
        let (x, q) = lemma_same_postfix(a, i, tuple, p, b, j);
        let o = lemma_alike_separated(a, p, m, b, q, DOT);
        lemma_alike_int(a, m, b, o);
        let r = digits_end(b, o);
        let made = ExprView::TupleProj {
            tuple: Box::new(x),
            index: expr->index,
            span: joined(x.span(), span_of(o, r)),
        };
        assert(separated(b, q, DOT, o));
        assert(is_postfix(b, j, *made->tuple, q));
        assert(is_postfix(b, j, made, r));
        (made, r)
    }
}

proof fn lemma_same_atom(
    a: Seq<u8>,
    i: int,
    expr: ExprView,
    k: int,
    b: Seq<u8>,
    j: int,
) -> (r: (ExprView, int))
    requires
        alike(a, i, b, j),
        poised(a, i),
        poised(b, j),
        is_atom(a, i, expr, k),
    ensures
        is_atom(b, j, r.0, r.1),
        same_shape(expr, r.0),
        alike(a, k, b, r.1),
    decreases k - i, 1nat,
{
    let s = skip(a, i + 1);
    let t = skip(b, j + 1);
    lemma_alike_mark(a, i, b, j, LPAREN);
    if byte_at(a, i, LPAREN) {
        lemma_alike_skip(a, i + 1, b, j + 1);
        lemma_tokens_skip(b, j + 1);
    }
    if byte_at(a, i, LPAREN) && exists|p: int|
        {
            &&& i < skip(a, i + 1) < p < k
            &&& is_expr(a, skip(a, i + 1), expr, p)
            &&& #[trigger] byte_at(a, skip(a, p), RPAREN)
            &&& k == skip(a, p) + 1
        } {
        let p = choose|p: int|
            {
                &&& i < skip(a, i + 1) < p < k
                &&& is_expr(a, skip(a, i + 1), expr, p)
                &&& #[trigger] byte_at(a, skip(a, p), RPAREN)
                &&& k == skip(a, p) + 1
            };
        let (x, q) = lemma_same_expr(a, s, expr, p, b, t);
        lemma_alike_skip(a, p, b, q);
        lemma_tokens_skip(b, q);
        lemma_alike_mark(a, skip(a, p), b, skip(b, q), RPAREN);
        lemma_make_group(b, j, x, q);
        (x, skip(b, q) + 1)
    } else {
        match expr {
            ExprView::IntLit { value, .. } => {
                lemma_alike_int(a, i, b, j);
                (ExprView::IntLit { value, span: span_of(j, int_end(b, j)) }, int_end(b, j))
            },
            ExprView::Var { name, .. } => {
                lemma_alike_word(a, i, b, j);
                (ExprView::Var { name, span: span_of(j, word_end(b, j)) }, word_end(b, j))
            },
            ExprView::Tuple { elems, .. } => {
                if elems.len() == 0 {
                    lemma_alike_mark(a, s, b, t, RPAREN);
                    let made = ExprView::Tuple { elems: Seq::empty(), span: span_of(j, t + 1) };
                    (made, t + 1)
                } else {
                    let p = choose|p: int|
                        {
                            &&& i < skip(a, i + 1) < p < k
                            &&& is_elems(a, skip(a, i + 1), elems, elems.len(), p)
                            &&& #[trigger] byte_at(a, skip(a, p), RPAREN)
                            &&& k == skip(a, p) + 1
                        };
                    let (found, q) = lemma_same_elems(a, s, elems, elems.len(), p, b, t);
                    lemma_alike_skip(a, p, b, q);
                    lemma_tokens_skip(b, q);
                    lemma_alike_mark(a, skip(a, p), b, skip(b, q), RPAREN);
                    let r = skip(b, q) + 1;
                    let made = ExprView::Tuple { elems: found, span: span_of(j, r) };
                    assert(byte_at(b, skip(b, q), RPAREN));
                    assert(is_elems(b, t, made->Tuple_elems, made->Tuple_elems.len(), q));
                    assert(is_atom(b, j, made, r));
                    (made, r)
                }
            },
            _ => (expr, k),
        }
    }
}

proof fn lemma_same_elems(
    a: Seq<u8>,
    i: int,
    elems: Seq<ExprView>,
    n: nat,
    k: int,
    b: Seq<u8>,
    j: int,
) -> (r: (Seq<ExprView>, int))
    requires
        alike(a, i, b, j),
        poised(a, i),
        poised(b, j),
        is_elems(a, i, elems, n, k),
    ensures
        r.0.len() == n,
        j < r.1,
        is_elems(b, j, r.0, n, r.1),
        forall|x: int| 0 <= x < n ==> same_shape(elems[x], #[trigger] r.0[x]),
        alike(a, k, b, r.1),
    decreases k - i, 8nat,
{
    if n == 1 {
        let (x, q) = lemma_same_expr(a, i, elems[0], k, b, j);
        (seq![x], q)
    } else {
        let (p, m) = choose|p: int, m: int|
            {
                &&& i < p < m < k
                &&& #[trigger] separated(a, p, COMMA, m)
                &&& is_elems(a, i, elems, (n - 1) as nat, p)
                &&& is_expr(a, m, elems[n - 1], k)
            };
        let (before, q) = lemma_same_elems(a, i, elems, (n - 1) as nat, p, b, j);
        let o = lemma_alike_separated(a, p, m, b, q, COMMA);
        let (x, r) = lemma_same_expr(a, m, elems[n - 1], k, b, o);
        let all = before.push(x);
        lemma_elems_prefix(b, j, before, all, (n - 1) as nat, q);
        assert(separated(b, q, COMMA, o));
        assert(is_expr(b, o, all[n - 1], r));
        (all, r)
    }
}

/// Two sources with the same tokens both parse or both do not, and they parse to the
/// same expression but for the spans. White space and comments between tokens, whatever
/// they are and whether or not there are any, do not matter.
pub proof fn law_reading_depends_on_tokens_alone(a: Seq<u8>, b: Seq<u8>)
    requires
        tokens(a) == tokens(b),
    ensures
        read_source(a) is Ok <==> read_source(b) is Ok,
        read_source(a) is Ok ==> same_shape(read_source(a)->Ok_0.0, read_source(b)->Ok_0.0),
{
    if read_source(a) is Ok {
        lemma_retold(a, b);
    } else if read_source(b) is Ok {
        lemma_retold(b, a);
    }
}

proof fn lemma_retold(a: Seq<u8>, b: Seq<u8>)
    requires
        tokens(a) == tokens(b),
        read_source(a) is Ok,
    ensures
        read_source(b) is Ok,
        same_shape(read_source(a)->Ok_0.0, read_source(b)->Ok_0.0),
{
    law_parsing_is_sound(a);
    let expr = read_source(a)->Ok_0.0;
    let k = choose|k: int| #[trigger] is_expr(a, skip(a, 0), expr, k) && skip(a, k) == a.len();
    lemma_alike_skip(a, 0, b, 0);
    let (x, r) = lemma_same_expr(a, skip(a, 0), expr, k, b, skip(b, 0));
    lemma_alike_skip(a, k, b, r);
    lemma_alike_token(a, skip(a, k), b, skip(b, r));
    assert(is_program(b, x));
    law_parsing_is_complete(b, x);
}

// -----------------------------------------------------------------------------
// Every program can be written
// -----------------------------------------------------------------------------

/// The bytes that spell an ASCII text.
pub open spec fn spelling(text: Seq<char>) -> Seq<u8> {
    Seq::new(text.len(), |i: int| text[i] as u8)
}

/// `text` can name a variable: letters, digits and underscores, the first no digit, and
/// none of the words of the language.
pub open spec fn proper(text: Seq<char>) -> bool {
    &&& text.len() > 0
    &&& !('0' <= text[0] <= '9')
    &&& forall|i: int|
        0 <= i < text.len() ==> {
            let c = #[trigger] text[i];
            'a' <= c <= 'z' || 'A' <= c <= 'Z' || '0' <= c <= '9' || c == '_'
        }
    &&& text != "let"@ && text != "in"@ && text != "linear"@ && text != "shared"@
    &&& text != "ordinary"@ && text != "method"@ && text != "returns"@ && text != "enum"@
    &&& text != "match"@ && text != "inout"@ && text != "int"@
}

/// The expression is one of a program: numbers, variables with proper names, sums,
/// sequences, `let` forms that are not shared, tuples and patterns with any number of
/// parts but one, and projections.
pub open spec fn writable(expr: ExprView) -> bool
    decreases expr,
{
    match expr {
        ExprView::IntLit { .. } => true,
        ExprView::Var { name, .. } => proper(name),
        ExprView::Add { lhs, rhs, .. } => writable(*lhs) && writable(*rhs),
        ExprView::Sequence { first, second, .. } => writable(*first) && writable(*second),
        ExprView::Let { usage, name, value, body, .. } => usage != Usage::Shared && proper(name)
            && writable(*value) && writable(*body),
        ExprView::Tuple { elems, .. } => elems.len() != 1 && forall|k: int|
            0 <= k < elems.len() ==> writable(#[trigger] elems[k]),
        ExprView::TupleProj { tuple, .. } => writable(*tuple),
        ExprView::TupleDestructure { names, value, body, .. } => names.len() != 1 && (forall|
            k: int,
        |
            0 <= k < names.len() ==> proper((#[trigger] names[k]).0)) && writable(*value)
            && writable(*body),
        _ => false,
    }
}

/// The digits of a number.
pub open spec fn numeral(n: nat) -> Seq<u8>
    decreases n,
{
    if n < 10 {
        seq![(48 + n) as u8]
    } else {
        numeral(n / 10).push((48 + n % 10) as u8)
    }
}

/// The tokens of an expression, written with parentheses around every part.
pub open spec fn written(expr: ExprView) -> Seq<Seq<u8>>
    decreases expr, 0nat,
{
    match expr {
        ExprView::IntLit { value, .. } => seq![
            if value < 0 {
                seq![45u8] + numeral((-value) as nat)
            } else {
                numeral(value as nat)
            },
        ],
        ExprView::Var { name, .. } => seq![spelling(name)],
        ExprView::Add { lhs, rhs, .. } => seq![seq![40u8]] + written(*lhs) + seq![seq![43u8]]
            + written(*rhs) + seq![seq![41u8]],
        ExprView::Sequence { first, second, .. } => seq![seq![40u8]] + written(*first) + seq![
            seq![59u8],
        ] + written(*second) + seq![seq![41u8]],
        ExprView::Let { usage, name, value, body, .. } => seq![
            seq![40u8],
            spelling("let"@),
            spelling(
                if usage == Usage::Linear {
                    "linear"@
                } else {
                    "ordinary"@
                },
            ),
            spelling(name),
            seq![61u8],
        ] + written(*value) + seq![spelling("in"@)] + written(*body) + seq![seq![41u8]],
        ExprView::Tuple { elems, .. } => seq![seq![40u8]] + written_list(elems, elems.len())
            + seq![seq![41u8]],
        ExprView::TupleProj { tuple, index, .. } => seq![seq![40u8]] + written(*tuple) + seq![
            seq![46u8],
            numeral(index as nat),
            seq![41u8],
        ],
        ExprView::TupleDestructure { names, value, body, .. } => seq![
            seq![40u8],
            spelling("let"@),
            seq![40u8],
        ] + written_names(names, names.len()) + seq![seq![41u8], seq![61u8]] + written(*value)
            + seq![spelling("in"@)] + written(*body) + seq![seq![41u8]],
        _ => Seq::empty(),
    }
}

/// The first `n` of `elems`, with commas between.
pub open spec fn written_list(elems: Seq<ExprView>, n: nat) -> Seq<Seq<u8>>
    decreases elems, n,
{
    if n == 0 || n > elems.len() {
        Seq::empty()
    } else if n == 1 {
        written(elems[0])
    } else {
        written_list(elems, (n - 1) as nat) + seq![seq![44u8]] + written(elems[n - 1])
    }
}

/// The first `n` of `names`, with commas between.
pub open spec fn written_names(names: Seq<(Seq<char>, Span)>, n: nat) -> Seq<Seq<u8>>
    decreases n,
{
    if n == 0 || n > names.len() {
        Seq::empty()
    } else if n == 1 {
        seq![spelling(names[0].0)]
    } else {
        written_names(names, (n - 1) as nat) + seq![seq![44u8], spelling(names[n - 1].0)]
    }
}

/// Where the tokens begin with `first`, that token stands there and the others follow.
proof fn lemma_take(src: Seq<u8>, i: int, first: Seq<u8>, rest: Seq<Seq<u8>>)
    requires
        0 <= i <= src.len(),
        tokens_from(src, i) == seq![first] + rest,
    ensures
        ({
            let s = skip(src, i);
            let e = token_stop(src, s);
            &&& i <= s < e <= src.len()
            &&& poised(src, s)
            &&& src.subrange(s, e) == first
            &&& src[s] == first[0]
            &&& first.len() == e - s
            &&& tokens_from(src, e) == rest
        }),
{
    lemma_tokens_skip(src, i);
    let s = skip(src, i);
    let all = tokens_from(src, s);
    assert(all.len() > 0);
    lemma_token_stop(src, s);
    let e = token_stop(src, s);
    let after = tokens_from(src, e);
    assert(all == seq![src.subrange(s, e)] + after);
    assert(all[0] == first);
    assert(after =~= all.drop_first());
    assert(rest =~= (seq![first] + rest).drop_first());
    assert(src.subrange(s, e)[0] == src[s]);
}

proof fn lemma_take_mark(src: Seq<u8>, i: int, mark: u8, rest: Seq<Seq<u8>>)
    requires
        0 <= i <= src.len(),
        tokens_from(src, i) == seq![seq![mark]] + rest,
        is_mark(mark),
    ensures
        byte_at(src, skip(src, i), mark),
        i <= skip(src, i) < src.len(),
        tokens_from(src, skip(src, i) + 1) == rest,
{
    lemma_take(src, i, seq![mark], rest);
}

/// The spelling of a word.
spec fn is_word(text: Seq<char>) -> bool {
    &&& text.len() > 0
    &&& !('0' <= text[0] <= '9')
    &&& forall|i: int|
        0 <= i < text.len() ==> {
            let c = #[trigger] text[i];
            'a' <= c <= 'z' || 'A' <= c <= 'Z' || '0' <= c <= '9' || c == '_'
        }
}

proof fn lemma_take_word(src: Seq<u8>, i: int, text: Seq<char>, rest: Seq<Seq<u8>>)
    requires
        0 <= i <= src.len(),
        tokens_from(src, i) == seq![spelling(text)] + rest,
        is_word(text),
    ensures
        ({
            let s = skip(src, i);
            &&& word_at(src, s)
            &&& word(src, s) == text
            &&& i <= s < word_end(src, s) <= src.len()
            &&& tokens_from(src, word_end(src, s)) == rest
        }),
{
    lemma_take(src, i, spelling(text), rest);
    let s = skip(src, i);
    assert(text[0] == text[0]);
    assert(spelling(text)[0] == text[0] as u8);
    lemma_word_token(src, s);
    assert(word(src, s) =~= text) by {
        assert forall|k: int| 0 <= k < text.len() implies #[trigger] word(src, s)[k] == text[k] by {
            assert(spelling(text)[k] == text[k] as u8);
            assert(word(src, s)[k] == spelling(text)[k] as char);
        }
    }
}

proof fn lemma_words()
    ensures
        is_word("let"@),
        is_word("in"@),
        is_word("linear"@),
        is_word("ordinary"@),
{
    reveal_strlit("let");
    reveal_strlit("in");
    reveal_strlit("linear");
    reveal_strlit("ordinary");
}

pub proof fn lemma_numeral(n: nat)
    ensures
        numeral(n).len() > 0,
        forall|i: int| 0 <= i < numeral(n).len() ==> num(#[trigger] numeral(n)[i]),
        digits_value(numeral(n)) == n,
    decreases n,
{
    if n < 10 {
        assert(numeral(n).drop_last() =~= Seq::empty());
        assert(digits_value(Seq::empty()) == 0);
    } else {
        lemma_numeral(n / 10);
        assert(numeral(n).drop_last() =~= numeral(n / 10));
    }
}

proof fn lemma_take_number(src: Seq<u8>, i: int, n: nat, rest: Seq<Seq<u8>>)
    requires
        0 <= i <= src.len(),
        tokens_from(src, i) == seq![numeral(n)] + rest,
    ensures
        ({
            let s = skip(src, i);
            &&& digit_at(src, s)
            &&& int_at(src, s)
            &&& int_end(src, s) == digits_end(src, s)
            &&& int_value(src, s) == n
            &&& digits_value(src.subrange(s, digits_end(src, s))) == n
            &&& i <= s < digits_end(src, s) <= src.len()
            &&& tokens_from(src, digits_end(src, s)) == rest
        }),
{
    lemma_take(src, i, numeral(n), rest);
    lemma_numeral(n);
    let s = skip(src, i);
    assert(num(numeral(n)[0]));
    lemma_int_token(src, s);
}

proof fn lemma_take_negative(src: Seq<u8>, i: int, n: nat, rest: Seq<Seq<u8>>)
    requires
        0 <= i <= src.len(),
        tokens_from(src, i) == seq![seq![45u8] + numeral(n)] + rest,
    ensures
        ({
            let s = skip(src, i);
            &&& int_at(src, s)
            &&& int_value(src, s) == -n
            &&& i <= s < int_end(src, s) <= src.len()
            &&& tokens_from(src, int_end(src, s)) == rest
        }),
{
    let token = seq![45u8] + numeral(n);
    lemma_take(src, i, token, rest);
    lemma_numeral(n);
    let s = skip(src, i);
    let e = token_stop(src, s);
    assert(token[1] == numeral(n)[0]);
    assert(src.subrange(s, e)[1] == src[s + 1]);
    assert(num(src[s + 1]));
    lemma_int_token(src, s);
    assert(src.subrange(s + 1, e) =~= numeral(n)) by {
        assert forall|k: int| 0 <= k < numeral(n).len() implies #[trigger] src.subrange(
            s + 1,
            e,
        )[k] == numeral(n)[k] by {
            assert(src.subrange(s, e)[k + 1] == token[k + 1]);
        }
    }
}

proof fn lemma_written(src: Seq<u8>, i: int, expr: ExprView, rest: Seq<Seq<u8>>) -> (r: (
    ExprView,
    int,
))
    requires
        0 <= i <= src.len(),
        tokens_from(src, i) == written(expr) + rest,
        writable(expr),
    ensures
        is_atom(src, skip(src, i), r.0, r.1),
        i <= skip(src, i) < r.1 <= src.len(),
        same_shape(expr, r.0),
        tokens_from(src, r.1) == rest,
    decreases expr, 2nat,
{
    let s = skip(src, i);
    let close = seq![seq![41u8]] + rest;
    match expr {
        ExprView::IntLit { value, .. } => {
            if value < 0 {
                lemma_take_negative(src, i, (-value) as nat, rest);
            } else {
                lemma_take_number(src, i, value as nat, rest);
            }
            let e = int_end(src, s);
            (ExprView::IntLit { value, span: span_of(s, e) }, e)
        },
        ExprView::Var { name, .. } => {
            lemma_take_word(src, i, name, rest);
            let e = word_end(src, s);
            assert(is_binder(src, s, (name, span_of(s, e))));
            (ExprView::Var { name, span: span_of(s, e) }, e)
        },
        ExprView::Tuple { .. } => lemma_written_tuple(src, i, expr, rest),
        _ => {
            let inside = lemma_inside(expr, rest);
            lemma_take_mark(src, i, 40, inside);
            let (x, k) = lemma_written_inside(src, s + 1, expr, close);
            lemma_take_mark(src, k, 41, rest);
            lemma_make_group(src, s, x, k);
            (x, skip(src, k) + 1)
        },
    }
}

/// What stands in the parentheses around an expression.
proof fn lemma_inside(expr: ExprView, rest: Seq<Seq<u8>>) -> (inside: Seq<Seq<u8>>)
    requires
        expr is Add || expr is Sequence || expr is Let || expr is TupleProj
            || expr is TupleDestructure,
    ensures
        written(expr) + rest == seq![seq![40u8]] + inside,
        inside == unparenthesised(expr) + (seq![seq![41u8]] + rest),
{
    let inside = unparenthesised(expr) + (seq![seq![41u8]] + rest);
    assert(written(expr) + rest =~= seq![seq![40u8]] + inside);
    inside
}

/// The tokens of an expression without the parentheses around the whole.
spec fn unparenthesised(expr: ExprView) -> Seq<Seq<u8>> {
    match expr {
        ExprView::Add { lhs, rhs, .. } => written(*lhs) + (seq![seq![43u8]] + written(*rhs)),
        ExprView::Sequence { first, second, .. } => written(*first) + (seq![seq![59u8]] + written(
            *second,
        )),
        ExprView::Let { usage, name, value, body, .. } => seq![spelling("let"@)] + (seq![
            spelling(
                if usage == Usage::Linear {
                    "linear"@
                } else {
                    "ordinary"@
                },
            ),
        ] + (seq![spelling(name)] + (seq![seq![61u8]] + (written(*value) + (seq![
            spelling("in"@),
        ] + written(*body)))))),
        ExprView::TupleProj { tuple, index, .. } => written(*tuple) + (seq![seq![46u8]] + seq![
            numeral(index as nat),
        ]),
        ExprView::TupleDestructure { names, value, body, .. } => seq![spelling("let"@)] + (seq![
            seq![40u8],
        ] + (written_names(names, names.len()) + (seq![seq![41u8]] + (seq![seq![61u8]] + (written(
            *value,
        ) + (seq![spelling("in"@)] + written(*body))))))),
        _ => Seq::empty(),
    }
}

proof fn lemma_written_inside(
    src: Seq<u8>,
    i: int,
    expr: ExprView,
    rest: Seq<Seq<u8>>,
) -> (r: (ExprView, int))
    requires
        0 <= i <= src.len(),
        expr is Add || expr is Sequence || expr is Let || expr is TupleProj
            || expr is TupleDestructure,
        tokens_from(src, i) == unparenthesised(expr) + rest,
        writable(expr),
    ensures
        is_expr(src, skip(src, i), r.0, r.1),
        i <= skip(src, i) < r.1 <= src.len(),
        same_shape(expr, r.0),
        tokens_from(src, r.1) == rest,
    decreases expr, 1nat,
{
    let s = skip(src, i);
    match expr {
        ExprView::Add { lhs, rhs, .. } => {
            let two = written(*rhs) + rest;
            let one = seq![seq![43u8]] + two;
            assert(unparenthesised(expr) + rest =~= written(*lhs) + one);
            let (x, k) = lemma_written(src, i, *lhs, one);
            lemma_take_mark(src, k, 43, two);
            let (y, r) = lemma_written(src, skip(src, k) + 1, *rhs, rest);
            let m = skip(src, skip(src, k) + 1);
            assert(separated(src, k, PLUS, m));
            assert(is_postfix(src, s, x, k));
            assert(is_add(src, s, x, k));
            assert(is_postfix(src, m, y, r));
            lemma_make_sum(src, s, x, k, m, y, r);
            assert(is_chain(src, s, sum_of(x, y), r));
            (sum_of(x, y), r)
        },
        ExprView::Sequence { first, second, .. } => {
            let two = written(*second) + rest;
            let one = seq![seq![59u8]] + two;
            assert(unparenthesised(expr) + rest =~= written(*first) + one);
            let (x, k) = lemma_written(src, i, *first, one);
            lemma_take_mark(src, k, 59, two);
            let (y, r) = lemma_written(src, skip(src, k) + 1, *second, rest);
            let m = skip(src, skip(src, k) + 1);
            assert(separated(src, k, SEMICOLON, m));
            assert(is_postfix(src, s, x, k));
            assert(is_add(src, s, x, k));
            assert(is_chain(src, s, x, k));
            assert(is_postfix(src, m, y, r));
            assert(is_add(src, m, y, r));
            lemma_make_chain(src, s, x, k, m, y, r);
            (sequence_of(x, y), r)
        },
        ExprView::TupleProj { tuple, index, .. } => {
            let two = seq![numeral(index as nat)] + rest;
            let one = seq![seq![46u8]] + two;
            assert(unparenthesised(expr) + rest =~= written(*tuple) + one);
            let (x, k) = lemma_written(src, i, *tuple, one);
            lemma_take_mark(src, k, 46, two);
            lemma_take_number(src, skip(src, k) + 1, index as nat, rest);
            let m = skip(src, skip(src, k) + 1);
            let r = digits_end(src, m);
            let made = ExprView::TupleProj {
                tuple: Box::new(x),
                index,
                span: joined(x.span(), span_of(m, r)),
            };
            assert(separated(src, k, DOT, m));
            assert(is_postfix(src, s, *made->tuple, k));
            assert(is_postfix(src, s, made, r));
            assert(is_add(src, s, made, r));
            assert(is_chain(src, s, made, r));
            (made, r)
        },
        ExprView::Let { usage, name, value, body, .. } => {
            let word_of = if usage == Usage::Linear {
                "linear"@
            } else {
                "ordinary"@
            };
            let five = written(*value) + (seq![spelling("in"@)] + (written(*body) + rest));
            let four = seq![seq![61u8]] + five;
            let three = seq![spelling(name)] + four;
            let two = seq![spelling(word_of)] + three;
            assert(unparenthesised(expr) + rest =~= seq![spelling("let"@)] + two);
            lemma_words();
            lemma_take_word(src, i, "let"@, two);
            let p = word_end(src, s);
            lemma_take_word(src, p, word_of, three);
            let n = skip(src, p);
            lemma_take_word(src, word_end(src, n), name, four);
            let o = skip(src, word_end(src, n));
            let (x, y, r) = lemma_written_binding(src, word_end(src, o), expr, *value, *body, rest);
            let made = ExprView::Let {
                usage,
                name,
                name_span: span_of(o, word_end(src, o)),
                value: Box::new(x),
                body: Box::new(y),
                span: joined(span_of(s, word_end(src, s)), y.span()),
            };
            assert(is_usage(src, n, usage));
            assert(is_binder(src, o, (name, span_of(o, word_end(src, o)))));
            assert(is_let(src, s, made, r));
            (made, r)
        },
        ExprView::TupleDestructure { names, value, body, .. } => {
            let five = written(*value) + (seq![spelling("in"@)] + (written(*body) + rest));
            let four = seq![seq![61u8]] + five;
            let three = written_names(names, names.len()) + (seq![seq![41u8]] + four);
            let two = seq![seq![40u8]] + three;
            assert(unparenthesised(expr) + rest =~= seq![spelling("let"@)] + two);
            lemma_words();
            lemma_take_word(src, i, "let"@, two);
            let p = word_end(src, s);
            let (found, end) = lemma_written_pattern(src, p, names, four);
            let (x, y, r) = lemma_written_binding(src, end, expr, *value, *body, rest);
            lemma_destructure_form(src, s, found, end, x, y, r);
            let made = ExprView::TupleDestructure {
                names: found,
                value: Box::new(x),
                body: Box::new(y),
                span: joined(span_of(s, word_end(src, s)), y.span()),
            };
            (made, r)
        },
        _ => (expr, i),
    }
}

proof fn lemma_written_binding(
    src: Seq<u8>,
    i: int,
    expr: ExprView,
    value: ExprView,
    body: ExprView,
    rest: Seq<Seq<u8>>,
) -> (r: (ExprView, ExprView, int))
    requires
        expr is Let || expr is TupleDestructure,
        expr is Let ==> value == *expr->Let_value && body == *expr->Let_body,
        expr is TupleDestructure ==> value == *expr->TupleDestructure_value && body
            == *expr->TupleDestructure_body,
        0 <= i <= src.len(),
        tokens_from(src, i) == seq![seq![61u8]] + (written(value) + (seq![spelling("in"@)] + (
        written(body) + rest))),
        writable(value),
        writable(body),
    ensures
        is_binding(src, skip(src, i), r.0, r.1, r.2),
        i <= skip(src, i) < r.2 <= src.len(),
        same_shape(value, r.0),
        same_shape(body, r.1),
        tokens_from(src, r.2) == rest,
    decreases expr, 0nat,
{
    let s = skip(src, i);
    let two = written(body) + rest;
    let one = seq![spelling("in"@)] + two;
    lemma_words();
    lemma_take_mark(src, i, 61, written(value) + one);
    let (x, k) = lemma_written(src, s + 1, value, one);
    lemma_take_word(src, k, "in"@, two);
    let m = skip(src, k);
    let (y, r) = lemma_written(src, word_end(src, m), body, rest);
    let t = skip(src, s + 1);
    assert(is_postfix(src, t, x, k));
    assert(is_add(src, t, x, k));
    assert(is_chain(src, t, x, k));
    let b = skip(src, word_end(src, m));
    assert(is_postfix(src, b, y, r));
    assert(is_add(src, b, y, r));
    assert(is_chain(src, b, y, r));
    lemma_make_binding(src, s, x, k, y, r);
    (x, y, r)
}

proof fn lemma_written_pattern(
    src: Seq<u8>,
    i: int,
    names: Seq<(Seq<char>, Span)>,
    rest: Seq<Seq<u8>>,
) -> (r: (Seq<(Seq<char>, Span)>, int))
    requires
        0 <= i <= src.len(),
        tokens_from(src, i) == seq![seq![40u8]] + (written_names(names, names.len()) + (seq![
            seq![41u8],
        ] + rest)),
        names.len() != 1,
        forall|k: int| 0 <= k < names.len() ==> proper((#[trigger] names[k]).0),
    ensures
        is_pattern(src, skip(src, i), r.0, r.1),
        i <= skip(src, i) < r.1 <= src.len(),
        same_names(names, r.0),
        tokens_from(src, r.1) == rest,
{
    let s = skip(src, i);
    let one = seq![seq![41u8]] + rest;
    lemma_take_mark(src, i, 40, written_names(names, names.len()) + one);
    if names.len() == 0 {
        assert(written_names(names, names.len()) + one =~= one);
        lemma_take_mark(src, s + 1, 41, rest);
        (Seq::empty(), skip(src, s + 1) + 1)
    } else {
        let (found, k) = lemma_written_names(src, s + 1, names, names.len(), one);
        lemma_take_mark(src, k, 41, rest);
        assert(byte_at(src, skip(src, k), RPAREN));
        (found, skip(src, k) + 1)
    }
}

proof fn lemma_written_names(
    src: Seq<u8>,
    i: int,
    names: Seq<(Seq<char>, Span)>,
    n: nat,
    rest: Seq<Seq<u8>>,
) -> (r: (Seq<(Seq<char>, Span)>, int))
    requires
        0 <= i <= src.len(),
        0 < n <= names.len(),
        tokens_from(src, i) == written_names(names, n) + rest,
        forall|k: int| 0 <= k < names.len() ==> proper((#[trigger] names[k]).0),
    ensures
        is_names(src, skip(src, i), r.0, n, r.1),
        i < r.1 <= src.len(),
        r.0.len() == n,
        forall|x: int| 0 <= x < n ==> (#[trigger] r.0[x]).0 == names[x].0,
        tokens_from(src, r.1) == rest,
    decreases n,
{
    let last = names[n - 1].0;
    if n == 1 {
        lemma_take_word(src, i, last, rest);
        let s = skip(src, i);
        let e = word_end(src, s);
        (seq![(last, span_of(s, e))], e)
    } else {
        let two = seq![spelling(last)] + rest;
        let one = seq![seq![44u8]] + two;
        assert(written_names(names, n) + rest =~= written_names(names, (n - 1) as nat) + one);
        let (before, k) = lemma_written_names(src, i, names, (n - 1) as nat, one);
        lemma_take_mark(src, k, 44, two);
        lemma_take_word(src, skip(src, k) + 1, last, rest);
        let m = skip(src, skip(src, k) + 1);
        let e = word_end(src, m);
        let all = before.push((last, span_of(m, e)));
        lemma_names_prefix(src, skip(src, i), before, all, (n - 1) as nat, k);
        assert(separated(src, k, COMMA, m));
        assert(is_binder(src, m, all[n - 1]));
        (all, e)
    }
}

proof fn lemma_written_tuple(
    src: Seq<u8>,
    i: int,
    expr: ExprView,
    rest: Seq<Seq<u8>>,
) -> (r: (ExprView, int))
    requires
        expr is Tuple,
        0 <= i <= src.len(),
        tokens_from(src, i) == written(expr) + rest,
        writable(expr),
    ensures
        is_atom(src, skip(src, i), r.0, r.1),
        i <= skip(src, i) < r.1 <= src.len(),
        same_shape(expr, r.0),
        tokens_from(src, r.1) == rest,
    decreases expr, 1nat,
{
    let s = skip(src, i);
    let one = seq![seq![41u8]] + rest;
    let elems = expr->Tuple_elems;
    assert(written(expr) + rest =~= seq![seq![40u8]] + (written_list(elems, elems.len()) + one));
    lemma_take_mark(src, i, 40, written_list(elems, elems.len()) + one);
    if elems.len() == 0 {
        assert(written_list(elems, elems.len()) + one =~= one);
        lemma_take_mark(src, s + 1, 41, rest);
        let e = skip(src, s + 1) + 1;
        (ExprView::Tuple { elems: Seq::empty(), span: span_of(s, e) }, e)
    } else {
        let (found, k) = lemma_written_list(src, s + 1, elems, elems.len(), one);
        lemma_take_mark(src, k, 41, rest);
        let e = skip(src, k) + 1;
        let made = ExprView::Tuple { elems: found, span: span_of(s, e) };
        assert(byte_at(src, skip(src, k), RPAREN));
        assert(is_elems(src, skip(src, s + 1), made->Tuple_elems, made->Tuple_elems.len(), k));
        assert(is_atom(src, s, made, e));
        (made, e)
    }
}

proof fn lemma_written_list(
    src: Seq<u8>,
    i: int,
    elems: Seq<ExprView>,
    n: nat,
    rest: Seq<Seq<u8>>,
) -> (r: (Seq<ExprView>, int))
    requires
        0 <= i <= src.len(),
        0 < n <= elems.len(),
        tokens_from(src, i) == written_list(elems, n) + rest,
        forall|k: int| 0 <= k < elems.len() ==> writable(#[trigger] elems[k]),
    ensures
        is_elems(src, skip(src, i), r.0, n, r.1),
        i <= skip(src, i) < r.1 <= src.len(),
        r.0.len() == n,
        forall|x: int| 0 <= x < n ==> same_shape(elems[x], #[trigger] r.0[x]),
        tokens_from(src, r.1) == rest,
    decreases elems, n,
{
    let last = elems[n - 1];
    assert(writable(last));
    if n == 1 {
        let (x, k) = lemma_written(src, i, last, rest);
        let s = skip(src, i);
        assert(is_postfix(src, s, x, k));
        assert(is_add(src, s, x, k));
        assert(is_chain(src, s, x, k));
        assert(is_expr(src, s, x, k));
        (seq![x], k)
    } else {
        let two = written(last) + rest;
        let one = seq![seq![44u8]] + two;
        assert(written_list(elems, n) + rest =~= written_list(elems, (n - 1) as nat) + one);
        let (before, k) = lemma_written_list(src, i, elems, (n - 1) as nat, one);
        lemma_take_mark(src, k, 44, two);
        let (x, r) = lemma_written(src, skip(src, k) + 1, last, rest);
        let m = skip(src, skip(src, k) + 1);
        let all = before.push(x);
        lemma_elems_prefix(src, skip(src, i), before, all, (n - 1) as nat, k);
        assert(is_postfix(src, m, x, r));
        assert(is_add(src, m, x, r));
        assert(is_chain(src, m, x, r));
        assert(separated(src, k, COMMA, m));
        assert(is_expr(src, m, all[n - 1], r));
        (all, r)
    }
}

/// Every program can be written: a source whose tokens are those of an expression, with
/// parentheses around its parts, parses to that expression. There is no limit on how
/// many parts a tuple or a pattern has, how deep parts are nested, how long names are or
/// which numbers stand where.
pub proof fn law_every_program_can_be_written(src: Seq<u8>, expr: ExprView)
    requires
        writable(expr),
        tokens(src) == written(expr),
    ensures
        read_source(src) is Ok,
        same_shape(expr, read_source(src)->Ok_0.0),
{
    assert(tokens_from(src, 0) =~= written(expr) + Seq::<Seq<u8>>::empty());
    let (x, k) = lemma_written(src, 0, expr, Seq::empty());
    let s = skip(src, 0);
    assert(is_postfix(src, s, x, k));
    assert(is_add(src, s, x, k));
    assert(is_chain(src, s, x, k));
    assert(is_expr(src, s, x, k));
    lemma_tokens_skip(src, k);
    if skip(src, k) < src.len() {
        lemma_token_stop(src, skip(src, k));
        assert(tokens_from(src, skip(src, k)).len() > 0);
    }
    assert(is_program(src, x));
    law_parsing_is_complete(src, x);
}

} // verus!
