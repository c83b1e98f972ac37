//! What is read is what was written.
//!
//! [`law_every_token_is_accounted_for`] says that no token of a source is passed over
//! and none is made up: but for parentheses, the tokens are those of the expression.

use crate::ast::{joined, span_of, ExprView, Span, Usage};
use crate::diagnostics::{is_ident_char, is_name, law_parsed_programs_are_well_formed, well_formed};
use crate::grammar::{
    is_add, is_atom, is_binder, is_binding, is_chain, is_elems, is_expr, is_let, is_names,
    is_pattern, is_postfix, law_parsing_is_sound, separated,
};
use crate::lexical::{
    byte_at, digit_at, digits_end, digits_value, int_at, int_digits_start, int_end, int_value,
    keyword_at, lemma_int, lemma_word, skip, word, word_at, word_end, COMMA, DOT, EQUALS, LPAREN,
    PLUS, RPAREN, SEMICOLON,
};
use crate::reading::read_source;
use crate::tokens::{
    is_mark, lemma_int_token, lemma_numeral, lemma_token_stop, lemma_tokens_skip, lemma_word_token,
    num, numeral, poised, proper, spelling, token_stop, tokens, tokens_from, writable, written,
    written_list, written_names,
};
use vstd::prelude::*;

verus! {

/// The number that decimal digits denote.
pub open spec fn worth(digits: Seq<u8>) -> int
    decreases digits.len(),
{
    if digits.len() == 0 {
        0
    } else {
        10 * worth(digits.drop_last()) + (digits.last() - 48)
    }
}

/// The number that a numeral denotes, which may begin with a minus sign.
pub open spec fn denoted(token: Seq<u8>) -> int {
    if token.len() > 0 && token[0] == 45 {
        -worth(token.drop_first())
    } else {
        worth(token)
    }
}

/// Digits, at least one of them, with or without a minus sign before.
pub open spec fn is_numeral(token: Seq<u8>) -> bool {
    let digits = unsigned(token);
    digits.len() > 0 && forall|i: int| 0 <= i < digits.len() ==> num(#[trigger] digits[i])
}

/// The token without a minus sign at its front.
pub open spec fn unsigned(token: Seq<u8>) -> Seq<u8> {
    if token.len() > 0 && token[0] == 45 {
        token.drop_first()
    } else {
        token
    }
}

/// The same token, or two numerals for the same number.
pub open spec fn same_token(a: Seq<u8>, b: Seq<u8>) -> bool {
    a == b || is_numeral(a) && is_numeral(b) && denoted(a) == denoted(b)
}

/// The same tokens in the same order.
pub open spec fn same_tokens(a: Seq<Seq<u8>>, b: Seq<Seq<u8>>) -> bool {
    a.len() == b.len() && forall|i: int| 0 <= i < a.len() ==> same_token(#[trigger] a[i], b[i])
}

/// The tokens that are no parentheses.
pub open spec fn bare(tokens: Seq<Seq<u8>>) -> Seq<Seq<u8>>
    decreases tokens.len(),
{
    if tokens.len() == 0 {
        Seq::empty()
    } else if tokens.last() == seq![40u8] || tokens.last() == seq![41u8] {
        bare(tokens.drop_last())
    } else {
        bare(tokens.drop_last()).push(tokens.last())
    }
}

/// How many parentheses are opened and not closed.
pub open spec fn open_ones(tokens: Seq<Seq<u8>>) -> int
    decreases tokens.len(),
{
    if tokens.len() == 0 {
        0
    } else {
        open_ones(tokens.drop_last()) + (if tokens.last() == seq![40u8] {
            1int
        } else if tokens.last() == seq![41u8] {
            -1
        } else {
            0
        })
    }
}

proof fn lemma_concat(a: Seq<Seq<u8>>, b: Seq<Seq<u8>>)
    ensures
        bare(a + b) == bare(a) + bare(b),
        open_ones(a + b) == open_ones(a) + open_ones(b),
    decreases b.len(),
{
    if b.len() == 0 {
        assert(a + b =~= a);
        assert(bare(a) + bare(b) =~= bare(a));
    } else {
        lemma_concat(a, b.drop_last());
        assert((a + b).drop_last() =~= a + b.drop_last());
        assert((a + b).last() == b.last());
        assert(bare(a + b) =~= bare(a) + bare(b));
    }
}

proof fn lemma_single(t: Seq<u8>)
    ensures
        t == seq![40u8] ==> bare(seq![t]) == Seq::<Seq<u8>>::empty() && open_ones(seq![t]) == 1,
        t == seq![41u8] ==> bare(seq![t]) == Seq::<Seq<u8>>::empty() && open_ones(seq![t]) == -1,
        t != seq![40u8] && t != seq![41u8] ==> bare(seq![t]) == seq![t] && open_ones(seq![t]) == 0,
{
    let none = Seq::<Seq<u8>>::empty();
    assert(seq![t].drop_last() =~= none);
    assert(bare(none) =~= none);
    assert(open_ones(none) == 0);
    assert(seq![t].last() == t);
    assert(seq![40u8][0] != seq![41u8][0]);
    assert(bare(none).push(t) =~= seq![t]);
}

/// The two stretches of tokens say the same but for parentheses, and the parentheses of
/// each are closed.
spec fn agree(a: Seq<Seq<u8>>, b: Seq<Seq<u8>>) -> bool {
    same_tokens(bare(a), bare(b)) && open_ones(a) == open_ones(b)
}

proof fn lemma_agree_concat(
    a: Seq<Seq<u8>>,
    b: Seq<Seq<u8>>,
    c: Seq<Seq<u8>>,
    d: Seq<Seq<u8>>,
)
    requires
        agree(a, b),
        agree(c, d),
    ensures
        agree(a + c, b + d),
{
    lemma_concat(a, c);
    lemma_concat(b, d);
}

proof fn lemma_agree_token(a: Seq<u8>, b: Seq<u8>)
    requires
        same_token(a, b),
    ensures
        agree(seq![a], seq![b]),
{
    lemma_single(a);
    lemma_single(b);
    if a != b {
        assert(num(unsigned(a)[0]));
        assert(num(unsigned(b)[0]));
        assert(a[0] == 45 || num(a[0]));
        assert(b[0] == 45 || num(b[0]));
        assert(seq![40u8][0] == 40 && seq![41u8][0] == 41);
    }
}

proof fn lemma_agree_same(a: Seq<Seq<u8>>)
    ensures
        agree(a, a),
{
}

/// Parentheses around a stretch make no difference.
proof fn lemma_agree_group(a: Seq<Seq<u8>>, b: Seq<Seq<u8>>)
    requires
        agree(a, b),
    ensures
        agree(seq![seq![40u8]] + a + seq![seq![41u8]], b),
        agree(a, seq![seq![40u8]] + b + seq![seq![41u8]]),
{
    let open = seq![seq![40u8]];
    let close = seq![seq![41u8]];
    lemma_single(seq![40u8]);
    lemma_single(seq![41u8]);
    lemma_concat(open, a);
    lemma_concat(open + a, close);
    lemma_concat(open, b);
    lemma_concat(open + b, close);
    assert(bare(open + a + close) =~= bare(a));
    assert(bare(open + b + close) =~= bare(b));
}

// -----------------------------------------------------------------------------
// The tokens between two places
// -----------------------------------------------------------------------------

/// From `i` to `j` stand the tokens `part`.
spec fn holds(src: Seq<u8>, i: int, part: Seq<Seq<u8>>, j: int) -> bool {
    &&& 0 <= i <= src.len()
    &&& 0 <= j <= src.len()
    &&& tokens_from(src, i) == part + tokens_from(src, j)
}

proof fn lemma_holds_then(
    src: Seq<u8>,
    i: int,
    a: Seq<Seq<u8>>,
    k: int,
    b: Seq<Seq<u8>>,
    j: int,
)
    requires
        holds(src, i, a, k),
        holds(src, k, b, j),
    ensures
        holds(src, i, a + b, j),
{
    assert(a + (b + tokens_from(src, j)) =~= (a + b) + tokens_from(src, j));
}

/// What follows may begin behind white space and comments.
proof fn lemma_holds_skip(src: Seq<u8>, i: int, a: Seq<Seq<u8>>, k: int)
    requires
        holds(src, i, a, k),
    ensures
        holds(src, i, a, skip(src, k)),
        poised(src, skip(src, k)),
{
    lemma_tokens_skip(src, k);
}

proof fn lemma_holds_token(src: Seq<u8>, i: int)
    requires
        poised(src, i),
        i < src.len(),
    ensures
        holds(src, i, seq![src.subrange(i, token_stop(src, i))], token_stop(src, i)),
{
    lemma_token_stop(src, i);
}

proof fn lemma_holds_mark(src: Seq<u8>, i: int, mark: u8)
    requires
        byte_at(src, i, mark),
        is_mark(mark),
    ensures
        holds(src, i, seq![seq![mark]], i + 1),
        poised(src, i),
{
    lemma_holds_token(src, i);
    assert(src.subrange(i, i + 1) =~= seq![mark]);
}

proof fn lemma_holds_word(src: Seq<u8>, i: int)
    requires
        word_at(src, i),
    ensures
        holds(src, i, seq![spelling(word(src, i))], word_end(src, i)),
        poised(src, i),
{
    lemma_word(src, i);
    assert(poised(src, i));
    lemma_word_token(src, i);
    lemma_holds_token(src, i);
    let token = src.subrange(i, word_end(src, i));
    assert(spelling(word(src, i)) =~= token) by {
        assert forall|k: int| 0 <= k < token.len() implies #[trigger] spelling(word(src, i))[k]
            == token[k] by {
            assert(token[k] < 128);
        }
    }
}

proof fn lemma_worth(digits: Seq<u8>)
    ensures
        (forall|i: int| 0 <= i < digits.len() ==> num(#[trigger] digits[i])) ==> worth(digits)
            == digits_value(digits),
    decreases digits.len(),
{
    if digits.len() > 0 && forall|i: int| 0 <= i < digits.len() ==> num(#[trigger] digits[i]) {
        let shorter = digits.drop_last();
        assert forall|i: int| 0 <= i < shorter.len() implies num(#[trigger] shorter[i]) by {
            assert(shorter[i] == digits[i]);
        }
        lemma_worth(shorter);
        assert(num(digits[digits.len() - 1]));
    }
}

proof fn lemma_numeral_denotes(value: int)
    ensures
        value >= 0 ==> is_numeral(numeral(value as nat)) && denoted(numeral(value as nat)) == value,
        value < 0 ==> is_numeral(seq![45u8] + numeral((-value) as nat)) && denoted(
            seq![45u8] + numeral((-value) as nat),
        ) == value,
{
    let n = if value >= 0 {
        value as nat
    } else {
        (-value) as nat
    };
    lemma_numeral(n);
    lemma_worth(numeral(n));
    assert(num(numeral(n)[0]));
    assert((seq![45u8] + numeral(n)).drop_first() =~= numeral(n));
    assert((seq![45u8] + numeral(n))[0] == 45);
}

/// An integer literal is a numeral for its number.
proof fn lemma_holds_int(src: Seq<u8>, i: int) -> (token: Seq<u8>)
    requires
        int_at(src, i),
    ensures
        holds(src, i, seq![token], int_end(src, i)),
        is_numeral(token),
        denoted(token) == int_value(src, i),
        poised(src, i),
{
    assert(poised(src, i));
    lemma_int(src, i);
    lemma_int_token(src, i);
    lemma_holds_token(src, i);
    let token = src.subrange(i, int_end(src, i));
    let start = int_digits_start(src, i);
    let digits = src.subrange(start, int_end(src, i));
    assert forall|k: int| 0 <= k < digits.len() implies num(#[trigger] digits[k]) by {
        assert(digits[k] == src[start + k]);
    }
    lemma_worth(digits);
    assert(token[0] == src[i]);
    if src[i] == 45 {
        assert(token.drop_first() =~= digits);
    } else {
        assert(token =~= digits);
    }
    token
}

proof fn lemma_holds_index(src: Seq<u8>, i: int) -> (token: Seq<u8>)
    requires
        digit_at(src, i),
    ensures
        holds(src, i, seq![token], digits_end(src, i)),
        is_numeral(token),
        denoted(token) == digits_value(src.subrange(i, digits_end(src, i))),
        poised(src, i),
{
    lemma_int_token(src, i);
    let token = lemma_holds_int(src, i);
    lemma_int(src, i);
    assert(int_digits_start(src, i) == i);
    token
}

// -----------------------------------------------------------------------------
// Forms
// -----------------------------------------------------------------------------

/// The tokens from `i` to `j` are those of `expr`, but for parentheses.
spec fn accounts(src: Seq<u8>, i: int, part: Seq<Seq<u8>>, expr: ExprView, j: int) -> bool {
    holds(src, i, part, j) && agree(part, written(expr))
}

/// The token that `separated` speaks of, with what is before.
proof fn lemma_holds_separated(
    src: Seq<u8>,
    i: int,
    a: Seq<Seq<u8>>,
    k: int,
    mark: u8,
    m: int,
)
    requires
        holds(src, i, a, k),
        separated(src, k, mark, m),
        is_mark(mark),
    ensures
        holds(src, i, a + seq![seq![mark]], m),
{
    lemma_holds_skip(src, i, a, k);
    let s = skip(src, k);
    lemma_holds_mark(src, s, mark);
    lemma_holds_then(src, i, a, s, seq![seq![mark]], s + 1);
    lemma_holds_skip(src, i, a + seq![seq![mark]], s + 1);
}

/// Two parts with a mark between, and what the whole is written as.
proof fn lemma_agree_binary(
    p: Seq<Seq<u8>>,
    x: ExprView,
    mark: u8,
    q: Seq<Seq<u8>>,
    y: ExprView,
)
    requires
        agree(p, written(x)),
        agree(q, written(y)),
    ensures
        agree(
            p + seq![seq![mark]] + q,
            seq![seq![40u8]] + written(x) + seq![seq![mark]] + written(y) + seq![seq![41u8]],
        ),
{
    let m = seq![seq![mark]];
    lemma_agree_same(m);
    lemma_agree_concat(p, written(x), m, m);
    lemma_agree_concat(p + m, written(x) + m, q, written(y));
    let inner = written(x) + m + written(y);
    lemma_agree_group(p + m + q, inner);
    assert(seq![seq![40u8]] + inner + seq![seq![41u8]] =~= seq![seq![40u8]] + written(x) + m
        + written(y) + seq![seq![41u8]]);
}

proof fn lemma_account_expr(src: Seq<u8>, i: int, expr: ExprView, j: int) -> (p: Seq<Seq<u8>>)
    requires
        is_expr(src, i, expr, j),
    ensures
        accounts(src, i, p, expr, j),
    decreases j - i, 7nat,
{
    if is_chain(src, i, expr, j) {
        lemma_account_chain(src, i, expr, j)
    } else if is_let(src, i, expr, j) {
        lemma_account_let(src, i, expr, j)
    } else {
        let first = *expr->Sequence_first;
        let second = *expr->Sequence_second;
        let (k, m) = choose|k: int, m: int|
            {
                &&& i < k < m < j
                &&& #[trigger] separated(src, k, SEMICOLON, m)
                &&& is_chain(src, i, first, k)
                &&& is_let(src, m, second, j)
            };
        let p = lemma_account_chain(src, i, first, k);
        let q = lemma_account_let(src, m, second, j);
        lemma_holds_separated(src, i, p, k, SEMICOLON, m);
        lemma_holds_then(src, i, p + seq![seq![59u8]], m, q, j);
        lemma_agree_binary(p, first, 59, q, second);
        p + seq![seq![59u8]] + q
    }
}

proof fn lemma_account_chain(src: Seq<u8>, i: int, expr: ExprView, j: int) -> (p: Seq<Seq<u8>>)
    requires
        is_chain(src, i, expr, j),
    ensures
        accounts(src, i, p, expr, j),
    decreases j - i, 6nat,
{
    if is_add(src, i, expr, j) {
        lemma_account_add(src, i, expr, j)
    } else {
        let first = *expr->Sequence_first;
        let second = *expr->Sequence_second;
        let (k, m) = choose|k: int, m: int|
            {
                &&& i < k < m < j
                &&& #[trigger] separated(src, k, SEMICOLON, m)
                &&& is_chain(src, i, first, k)
                &&& is_add(src, m, second, j)
            };
        let p = lemma_account_chain(src, i, first, k);
        let q = lemma_account_add(src, m, second, j);
        lemma_holds_separated(src, i, p, k, SEMICOLON, m);
        lemma_holds_then(src, i, p + seq![seq![59u8]], m, q, j);
        lemma_agree_binary(p, first, 59, q, second);
        p + seq![seq![59u8]] + q
    }
}

proof fn lemma_account_add(src: Seq<u8>, i: int, expr: ExprView, j: int) -> (p: Seq<Seq<u8>>)
    requires
        is_add(src, i, expr, j),
    ensures
        accounts(src, i, p, expr, j),
    decreases j - i, 3nat,
{
    if is_postfix(src, i, expr, j) {
        lemma_account_postfix(src, i, expr, j)
    } else {
        let lhs = *expr->lhs;
        let rhs = *expr->rhs;
        let (k, m) = choose|k: int, m: int|
            {
                &&& i < k < m < j
                &&& #[trigger] separated(src, k, PLUS, m)
                &&& is_add(src, i, lhs, k)
                &&& is_postfix(src, m, rhs, j)
            };
        let p = lemma_account_add(src, i, lhs, k);
        let q = lemma_account_postfix(src, m, rhs, j);
        lemma_holds_separated(src, i, p, k, PLUS, m);
        lemma_holds_then(src, i, p + seq![seq![43u8]], m, q, j);
        lemma_agree_binary(p, lhs, 43, q, rhs);
        p + seq![seq![43u8]] + q
    }
}

proof fn lemma_account_postfix(src: Seq<u8>, i: int, expr: ExprView, j: int) -> (p: Seq<Seq<u8>>)
    requires
        is_postfix(src, i, expr, j),
    ensures
        accounts(src, i, p, expr, j),
    decreases j - i, 2nat,
{
    if is_atom(src, i, expr, j) {
        lemma_account_atom(src, i, expr, j)
    } else {
        let tuple = *expr->tuple;
        let index = expr->index;
        let (k, m) = choose|k: int, m: int|
            {
                &&& i < k < m < j
                &&& #[trigger] separated(src, k, DOT, m)
                &&& is_postfix(src, i, tuple, k)
                &&& digit_at(src, m)
                &&& j == digits_end(src, m)
                &&& expr->index == digits_value(src.subrange(m, j))
                &&& expr->TupleProj_span == joined(tuple.span(), span_of(m, j))
            };
        let p = lemma_account_postfix(src, i, tuple, k);
        let token = lemma_holds_index(src, m);
        let dot = seq![seq![46u8]];
        lemma_holds_separated(src, i, p, k, DOT, m);
        lemma_holds_then(src, i, p + dot, m, seq![token], j);
        let w = numeral(index as nat);
        lemma_numeral_denotes(index as int);
        lemma_agree_token(token, w);
        lemma_agree_same(dot);
        lemma_agree_concat(p, written(tuple), dot, dot);
        lemma_agree_concat(p + dot, written(tuple) + dot, seq![token], seq![w]);
        let inner = written(tuple) + dot + seq![w];
        lemma_agree_group(p + dot + seq![token], inner);
        assert(seq![seq![40u8]] + inner + seq![seq![41u8]] =~= written(expr));
        p + dot + seq![token]
    }
}

proof fn lemma_account_atom(src: Seq<u8>, i: int, expr: ExprView, j: int) -> (p: Seq<Seq<u8>>)
    requires
        is_atom(src, i, expr, j),
    ensures
        accounts(src, i, p, expr, j),
    decreases j - i, 1nat,
{
    let s = skip(src, i + 1);
    let open = seq![seq![40u8]];
    let close = seq![seq![41u8]];
    if byte_at(src, i, LPAREN) {
        lemma_holds_mark(src, i, LPAREN);
        lemma_holds_skip(src, i, open, i + 1);
    }
    if byte_at(src, i, LPAREN) && exists|k: int|
        {
            &&& i < skip(src, i + 1) < k < j
            &&& is_expr(src, skip(src, i + 1), expr, k)
            &&& #[trigger] byte_at(src, skip(src, k), RPAREN)
            &&& j == skip(src, k) + 1
        } {
        let k = choose|k: int|
            {
                &&& i < skip(src, i + 1) < k < j
                &&& is_expr(src, skip(src, i + 1), expr, k)
                &&& #[trigger] byte_at(src, skip(src, k), RPAREN)
                &&& j == skip(src, k) + 1
            };
        let p = lemma_account_expr(src, s, expr, k);
        lemma_holds_then(src, i, open, s, p, k);
        lemma_holds_skip(src, i, open + p, k);
        lemma_holds_mark(src, skip(src, k), RPAREN);
        lemma_holds_then(src, i, open + p, skip(src, k), close, j);
        lemma_agree_group(p, written(expr));
        open + p + close
    } else {
        match expr {
            ExprView::IntLit { value, .. } => {
                let token = lemma_holds_int(src, i);
                lemma_numeral_denotes(value as int);
                let w = written(expr)[0];
                assert(written(expr) =~= seq![w]);
                lemma_agree_token(token, w);
                seq![token]
            },
            ExprView::Var { name, .. } => {
                lemma_holds_word(src, i);
                lemma_agree_same(seq![spelling(name)]);
                seq![spelling(name)]
            },
            ExprView::Tuple { elems, .. } => {
                lemma_agree_same(open);
                lemma_agree_same(close);
                if elems.len() == 0 {
                    lemma_holds_mark(src, s, RPAREN);
                    lemma_holds_then(src, i, open, s, close, j);
                    assert(written_list(elems, 0) =~= Seq::empty());
                    assert(written(expr) =~= open + close);
                    lemma_agree_same(open + close);
                    open + close
                } else {
                    let k = choose|k: int|
                        {
                            &&& i < skip(src, i + 1) < k < j
                            &&& is_elems(src, skip(src, i + 1), elems, elems.len(), k)
                            &&& #[trigger] byte_at(src, skip(src, k), RPAREN)
                            &&& j == skip(src, k) + 1
                        };
                    let p = lemma_account_elems(src, s, elems, elems.len(), k);
                    let w = written_list(elems, elems.len());
                    lemma_holds_then(src, i, open, s, p, k);
                    lemma_holds_skip(src, i, open + p, k);
                    lemma_holds_mark(src, skip(src, k), RPAREN);
                    lemma_holds_then(src, i, open + p, skip(src, k), close, j);
                    lemma_agree_concat(open, open, p, w);
                    lemma_agree_concat(open + p, open + w, close, close);
                    open + p + close
                }
            },
            _ => Seq::empty(),
        }
    }
}

proof fn lemma_account_elems(
    src: Seq<u8>,
    i: int,
    elems: Seq<ExprView>,
    n: nat,
    j: int,
) -> (p: Seq<Seq<u8>>)
    requires
        is_elems(src, i, elems, n, j),
    ensures
        holds(src, i, p, j),
        agree(p, written_list(elems, n)),
    decreases j - i, 8nat,
{
    if n == 1 {
        lemma_account_expr(src, i, elems[0], j)
    } else {
        let (k, m) = choose|k: int, m: int|
            {
                &&& i < k < m < j
                &&& #[trigger] separated(src, k, COMMA, m)
                &&& is_elems(src, i, elems, (n - 1) as nat, k)
                &&& is_expr(src, m, elems[n - 1], j)
            };
        let p = lemma_account_elems(src, i, elems, (n - 1) as nat, k);
        let q = lemma_account_expr(src, m, elems[n - 1], j);
        let comma = seq![seq![44u8]];
        let w = written_list(elems, (n - 1) as nat);
        lemma_holds_separated(src, i, p, k, COMMA, m);
        lemma_holds_then(src, i, p + comma, m, q, j);
        lemma_agree_same(comma);
        lemma_agree_concat(p, w, comma, comma);
        lemma_agree_concat(p + comma, w + comma, q, written(elems[n - 1]));
        p + comma + q
    }
}

proof fn lemma_account_names(
    src: Seq<u8>,
    i: int,
    names: Seq<(Seq<char>, Span)>,
    n: nat,
    j: int,
)
    requires
        is_names(src, i, names, n, j),
    ensures
        holds(src, i, written_names(names, n), j),
    decreases n,
{
    if n == 1 {
        lemma_holds_word(src, i);
    } else {
        let (k, m) = choose|k: int, m: int|
            {
                &&& is_names(src, i, names, (n - 1) as nat, k)
                &&& #[trigger] separated(src, k, COMMA, m)
                &&& is_binder(src, m, names[n - 1])
                &&& j == word_end(src, m)
            };
        lemma_account_names(src, i, names, (n - 1) as nat, k);
        let w = written_names(names, (n - 1) as nat);
        let comma = seq![seq![44u8]];
        let last = seq![spelling(names[n - 1].0)];
        lemma_holds_separated(src, i, w, k, COMMA, m);
        lemma_holds_word(src, m);
        lemma_holds_then(src, i, w + comma, m, last, j);
        assert(w + comma + last =~= written_names(names, n));
    }
}

/// `= value in body`.
proof fn lemma_account_binding(
    src: Seq<u8>,
    i: int,
    value: ExprView,
    body: ExprView,
    j: int,
) -> (p: Seq<Seq<u8>>)
    requires
        is_binding(src, i, value, body, j),
    ensures
        holds(src, i, p, j),
        agree(
            p,
            seq![seq![61u8]] + written(value) + seq![spelling("in"@)] + written(body),
        ),
    decreases j - i, 4nat,
{
    let s = skip(src, i + 1);
    let k = choose|k: int|
        {
            let rest = skip(src, word_end(src, skip(src, k)));
            &&& i < skip(src, i + 1) < k < rest < j
            &&& is_expr(src, skip(src, i + 1), value, k)
            &&& #[trigger] keyword_at(src, skip(src, k), "in"@)
            &&& is_expr(src, rest, body, j)
        };
    let eq = seq![seq![61u8]];
    let kw = seq![spelling("in"@)];
    lemma_holds_mark(src, i, EQUALS);
    lemma_holds_skip(src, i, eq, i + 1);
    let p = lemma_account_expr(src, s, value, k);
    lemma_holds_then(src, i, eq, s, p, k);
    lemma_holds_skip(src, i, eq + p, k);
    let m = skip(src, k);
    lemma_holds_word(src, m);
    lemma_holds_then(src, i, eq + p, m, kw, word_end(src, m));
    lemma_holds_skip(src, i, eq + p + kw, word_end(src, m));
    let rest = skip(src, word_end(src, m));
    let q = lemma_account_expr(src, rest, body, j);
    lemma_holds_then(src, i, eq + p + kw, rest, q, j);
    lemma_agree_same(eq);
    lemma_agree_same(kw);
    lemma_agree_concat(eq, eq, p, written(value));
    lemma_agree_concat(eq + p, eq + written(value), kw, kw);
    lemma_agree_concat(eq + p + kw, eq + written(value) + kw, q, written(body));
    eq + p + kw + q
}

proof fn lemma_account_let(src: Seq<u8>, i: int, expr: ExprView, j: int) -> (p: Seq<Seq<u8>>)
    requires
        is_let(src, i, expr, j),
    ensures
        accounts(src, i, p, expr, j),
    decreases j - i, 5nat,
{
    let kw = seq![spelling("let"@)];
    let open = seq![seq![40u8]];
    let close = seq![seq![41u8]];
    lemma_holds_word(src, i);
    lemma_word(src, i);
    lemma_holds_skip(src, i, kw, word_end(src, i));
    let next = skip(src, word_end(src, i));
    match expr {
        ExprView::Let { usage, name, value, body, .. } => {
            let usage_word = seq![
                spelling(
                    if usage == Usage::Linear {
                        "linear"@
                    } else {
                        "ordinary"@
                    },
                ),
            ];
            let name_word = seq![spelling(name)];
            lemma_holds_word(src, next);
            lemma_holds_then(src, i, kw, next, usage_word, word_end(src, next));
            lemma_holds_skip(src, i, kw + usage_word, word_end(src, next));
            let named = skip(src, word_end(src, next));
            lemma_holds_word(src, named);
            let head = kw + usage_word + name_word;
            lemma_holds_then(src, i, kw + usage_word, named, name_word, word_end(src, named));
            lemma_holds_skip(src, i, head, word_end(src, named));
            let equals = skip(src, word_end(src, named));
            let p = lemma_account_binding(src, equals, *value, *body, j);
            lemma_holds_then(src, i, head, equals, p, j);
            let w = seq![seq![61u8]] + written(*value) + seq![spelling("in"@)] + written(*body);
            lemma_agree_same(head);
            lemma_agree_concat(head, head, p, w);
            lemma_agree_group(head + p, head + w);
            assert(open + (head + w) + close =~= written(expr));
            head + p
        },
        ExprView::TupleDestructure { names, value, body, .. } => {
            let end = choose|end: int|
                {
                    &&& #[trigger] is_pattern(src, next, names, end)
                    &&& i < skip(src, end) < j
                    &&& is_binding(src, skip(src, end), *value, *body, j)
                };
            lemma_account_pattern(src, next, names, end);
            let pattern = open + written_names(names, names.len()) + close;
            let head = kw + pattern;
            lemma_holds_then(src, i, kw, next, pattern, end);
            lemma_holds_skip(src, i, head, end);
            let p = lemma_account_binding(src, skip(src, end), *value, *body, j);
            lemma_holds_then(src, i, head, skip(src, end), p, j);
            let w = seq![seq![61u8]] + written(*value) + seq![spelling("in"@)] + written(*body);
            lemma_agree_same(head);
            lemma_agree_concat(head, head, p, w);
            lemma_agree_group(head + p, head + w);
            assert(open + (head + w) + close =~= written(expr));
            head + p
        },
        _ => Seq::empty(),
    }
}

proof fn lemma_account_pattern(
    src: Seq<u8>,
    i: int,
    names: Seq<(Seq<char>, Span)>,
    j: int,
)
    requires
        is_pattern(src, i, names, j),
    ensures
        holds(
            src,
            i,
            seq![seq![40u8]] + written_names(names, names.len()) + seq![seq![41u8]],
            j,
        ),
{
    let open = seq![seq![40u8]];
    let close = seq![seq![41u8]];
    let w = written_names(names, names.len());
    let s = skip(src, i + 1);
    lemma_holds_mark(src, i, LPAREN);
    lemma_holds_skip(src, i, open, i + 1);
    if names.len() == 0 {
        lemma_holds_mark(src, s, RPAREN);
        lemma_holds_then(src, i, open, s, close, j);
        assert(open + w + close =~= open + close);
    } else {
        let k = choose|k: int|
            {
                &&& is_names(src, s, names, names.len(), k)
                &&& #[trigger] byte_at(src, skip(src, k), RPAREN)
                &&& j == skip(src, k) + 1
            };
        lemma_account_names(src, s, names, names.len(), k);
        lemma_holds_then(src, i, open, s, w, k);
        lemma_holds_skip(src, i, open + w, k);
        lemma_holds_mark(src, skip(src, k), RPAREN);
        lemma_holds_then(src, i, open + w, skip(src, k), close, j);
    }
}

proof fn lemma_grouped_closed(inner: Seq<Seq<u8>>)
    requires
        open_ones(inner) == 0,
    ensures
        open_ones(seq![seq![40u8]] + inner + seq![seq![41u8]]) == 0,
{
    lemma_agree_same(inner);
    lemma_agree_group(inner, inner);
}

proof fn lemma_closed_then(a: Seq<Seq<u8>>, b: Seq<Seq<u8>>)
    requires
        open_ones(a) == 0,
        open_ones(b) == 0,
    ensures
        open_ones(a + b) == 0,
{
    lemma_concat(a, b);
}

/// A spelled name or a numeral opens nothing.
proof fn lemma_closed_token(t: Seq<u8>)
    requires
        t != seq![40u8] && t != seq![41u8],
    ensures
        open_ones(seq![t]) == 0,
{
    lemma_single(t);
}

proof fn lemma_written_closed(expr: ExprView)
    requires
        writable(expr),
    ensures
        open_ones(written(expr)) == 0,
    decreases expr, 0nat,
{
    let w = written(expr);
    let open = seq![seq![40u8]];
    let close = seq![seq![41u8]];
    assert(seq![40u8][0] == 40 && seq![41u8][0] == 41);
    match expr {
        ExprView::IntLit { value, .. } => {
            lemma_numeral_denotes(value as int);
            let n = if value < 0 {
                (-value) as nat
            } else {
                value as nat
            };
            lemma_numeral(n);
            assert(num(numeral(n)[0]));
            assert(w =~= seq![w[0]]);
            assert(w[0][0] == 45 || num(w[0][0]));
            lemma_closed_token(w[0]);
        },
        ExprView::Var { name, .. } => {
            lemma_closed_name(name);
        },
        ExprView::Add { lhs, rhs, .. } => {
            lemma_written_closed(*lhs);
            lemma_written_closed(*rhs);
            assert(seq![43u8][0] == 43);
            lemma_closed_token(seq![43u8]);
            lemma_closed_then(written(*lhs), seq![seq![43u8]]);
            lemma_closed_then(written(*lhs) + seq![seq![43u8]], written(*rhs));
            let inner = written(*lhs) + seq![seq![43u8]] + written(*rhs);
            lemma_grouped_closed(inner);
            assert(w =~= open + inner + close);
        },
        ExprView::Sequence { first, second, .. } => {
            lemma_written_closed(*first);
            lemma_written_closed(*second);
            assert(seq![59u8][0] == 59);
            lemma_closed_token(seq![59u8]);
            lemma_closed_then(written(*first), seq![seq![59u8]]);
            lemma_closed_then(written(*first) + seq![seq![59u8]], written(*second));
            let inner = written(*first) + seq![seq![59u8]] + written(*second);
            lemma_grouped_closed(inner);
            assert(w =~= open + inner + close);
        },
        ExprView::TupleProj { tuple, index, .. } => {
            lemma_written_closed(*tuple);
            assert(seq![46u8][0] == 46);
            lemma_numeral(index as nat);
            assert(num(numeral(index as nat)[0]));
            lemma_closed_token(seq![46u8]);
            lemma_closed_token(numeral(index as nat));
            lemma_closed_then(written(*tuple), seq![seq![46u8]]);
            lemma_closed_then(written(*tuple) + seq![seq![46u8]], seq![numeral(index as nat)]);
            let inner = written(*tuple) + seq![seq![46u8]] + seq![numeral(index as nat)];
            lemma_grouped_closed(inner);
            assert(w =~= open + inner + close);
        },
        ExprView::Tuple { elems, .. } => {
            lemma_list_closed(elems, elems.len());
            lemma_grouped_closed(written_list(elems, elems.len()));
        },
        ExprView::Let { usage, name, value, body, .. } => {
            lemma_written_closed(*value);
            lemma_written_closed(*body);
            let u = if usage == Usage::Linear {
                "linear"@
            } else {
                "ordinary"@
            };
            lemma_closed_words();
            lemma_closed_name(name);
            let head = seq![spelling("let"@)] + seq![spelling(u)] + seq![spelling(name)];
            lemma_closed_then(seq![spelling("let"@)], seq![spelling(u)]);
            lemma_closed_then(
                seq![spelling("let"@)] + seq![spelling(u)],
                seq![spelling(name)],
            );
            let inner = lemma_binding_closed(head, *value, *body);
            lemma_grouped_closed(inner);
            assert(w =~= open + inner + close);
        },
        ExprView::TupleDestructure { names, value, body, .. } => {
            lemma_written_closed(*value);
            lemma_written_closed(*body);
            lemma_closed_words();
            lemma_names_closed(names, names.len());
            let list = written_names(names, names.len());
            lemma_grouped_closed(list);
            let head = seq![spelling("let"@)] + (open + list + close);
            lemma_closed_then(seq![spelling("let"@)], open + list + close);
            let inner = lemma_binding_closed(head, *value, *body);
            lemma_grouped_closed(inner);
            assert(w =~= open + inner + close);
        },
        _ => {},
    }
}

proof fn lemma_binding_closed(head: Seq<Seq<u8>>, value: ExprView, body: ExprView) -> (inner: Seq<
    Seq<u8>,
>)
    requires
        open_ones(head) == 0,
        open_ones(written(value)) == 0,
        open_ones(written(body)) == 0,
    ensures
        inner == head + seq![seq![61u8]] + written(value) + seq![spelling("in"@)] + written(body),
        open_ones(inner) == 0,
{
    let eq = seq![seq![61u8]];
    let kw = seq![spelling("in"@)];
    assert(seq![61u8][0] == 61 && seq![40u8][0] == 40 && seq![41u8][0] == 41);
    lemma_closed_token(seq![61u8]);
    lemma_closed_words();
    lemma_closed_then(head, eq);
    lemma_closed_then(head + eq, written(value));
    lemma_closed_then(head + eq + written(value), kw);
    lemma_closed_then(head + eq + written(value) + kw, written(body));
    head + eq + written(value) + kw + written(body)
}

proof fn lemma_closed_words()
    ensures
        open_ones(seq![spelling("let"@)]) == 0,
        open_ones(seq![spelling("in"@)]) == 0,
        open_ones(seq![spelling("linear"@)]) == 0,
        open_ones(seq![spelling("ordinary"@)]) == 0,
{
    reveal_strlit("let");
    reveal_strlit("in");
    reveal_strlit("linear");
    reveal_strlit("ordinary");
    assert(seq![40u8].len() == 1 && seq![41u8].len() == 1);
    assert(spelling("let"@).len() == 3 && spelling("in"@).len() == 2);
    assert(spelling("linear"@).len() == 6 && spelling("ordinary"@).len() == 8);
    lemma_closed_token(spelling("let"@));
    lemma_closed_token(spelling("in"@));
    lemma_closed_token(spelling("linear"@));
    lemma_closed_token(spelling("ordinary"@));
}

proof fn lemma_closed_name(name: Seq<char>)
    requires
        proper(name),
    ensures
        open_ones(seq![spelling(name)]) == 0,
{
    let c = name[0];
    assert(spelling(name)[0] == c as u8);
    assert(seq![40u8][0] == 40 && seq![41u8][0] == 41);
    lemma_closed_token(spelling(name));
}

proof fn lemma_list_closed(elems: Seq<ExprView>, n: nat)
    requires
        n <= elems.len(),
        forall|k: int| 0 <= k < elems.len() ==> writable(#[trigger] elems[k]),
    ensures
        open_ones(written_list(elems, n)) == 0,
    decreases elems, n,
{
    if n > 0 {
        assert(writable(elems[n - 1]));
        lemma_written_closed(elems[n - 1]);
        if n > 1 {
            let before = written_list(elems, (n - 1) as nat);
            lemma_list_closed(elems, (n - 1) as nat);
            assert(seq![44u8][0] == 44 && seq![40u8][0] == 40 && seq![41u8][0] == 41);
            lemma_closed_token(seq![44u8]);
            lemma_closed_then(before, seq![seq![44u8]]);
            lemma_closed_then(before + seq![seq![44u8]], written(elems[n - 1]));
        }
    }
}

proof fn lemma_names_closed(names: Seq<(Seq<char>, Span)>, n: nat)
    requires
        n <= names.len(),
        forall|k: int| 0 <= k < names.len() ==> proper((#[trigger] names[k]).0),
    ensures
        open_ones(written_names(names, n)) == 0,
    decreases n,
{
    if n > 0 {
        let last = names[n - 1].0;
        lemma_closed_name(last);
        if n > 1 {
            let before = written_names(names, (n - 1) as nat);
            lemma_names_closed(names, (n - 1) as nat);
            assert(seq![44u8][0] == 44 && seq![40u8][0] == 40 && seq![41u8][0] == 41);
            lemma_closed_token(seq![44u8]);
            lemma_closed_then(before, seq![seq![44u8]]);
            lemma_closed_then(before + seq![seq![44u8]], seq![spelling(last)]);
            assert(before + seq![seq![44u8]] + seq![spelling(last)] =~= written_names(names, n));
        }
    }
}

/// A well-formed expression can be written.
proof fn lemma_writable(expr: ExprView)
    requires
        well_formed(expr),
    ensures
        writable(expr),
    decreases expr,
{
    match expr {
        ExprView::Add { lhs, rhs, .. } => {
            lemma_writable(*lhs);
            lemma_writable(*rhs);
        },
        ExprView::Sequence { first, second, .. } => {
            lemma_writable(*first);
            lemma_writable(*second);
        },
        ExprView::Let { name, value, body, .. } => {
            lemma_proper(name);
            lemma_writable(*value);
            lemma_writable(*body);
        },
        ExprView::Tuple { elems, .. } => {
            assert forall|k: int| 0 <= k < elems.len() implies writable(#[trigger] elems[k]) by {
                lemma_writable(elems[k]);
            }
        },
        ExprView::TupleProj { tuple, .. } => {
            lemma_writable(*tuple);
        },
        ExprView::TupleDestructure { names, value, body, .. } => {
            assert forall|k: int| 0 <= k < names.len() implies proper((#[trigger] names[k]).0) by {
                lemma_proper(names[k].0);
            }
            lemma_writable(*value);
            lemma_writable(*body);
        },
        ExprView::Var { name, .. } => {
            lemma_proper(name);
        },
        _ => {},
    }
}

proof fn lemma_proper(name: Seq<char>)
    requires
        is_name(name),
    ensures
        proper(name),
{
    assert forall|i: int| 0 <= i < name.len() implies {
        let c = #[trigger] name[i];
        'a' <= c <= 'z' || 'A' <= c <= 'Z' || '0' <= c <= '9' || c == '_'
    } by {
        assert(is_ident_char(name[i]));
    }
}

/// What parses is an expression that can be written: the names in it are proper, no
/// `let` in it is shared, and no tuple or pattern has a single part.
pub proof fn law_what_parses_can_be_written(src: Seq<u8>)
    requires
        src.len() <= usize::MAX,
    ensures
        read_source(src) matches Ok((expr, _)) ==> writable(expr),
{
    law_parsed_programs_are_well_formed(src);
    if let Ok((expr, _)) = read_source(src) {
        lemma_writable(expr);
    }
}

/// Every token of a source that parses is accounted for by the expression: but for
/// parentheses, which are all closed, the tokens are those that the expression is
/// written with, in the same order, and numerals denote its numbers.
pub proof fn law_every_token_is_accounted_for(src: Seq<u8>)
    requires
        src.len() <= usize::MAX,
    ensures
        read_source(src) matches Ok((expr, _)) ==> same_tokens(
            bare(tokens(src)),
            bare(written(expr)),
        ) && open_ones(tokens(src)) == 0,
{
    if read_source(src) is Ok {
        law_parsing_is_sound(src);
        let expr = read_source(src)->Ok_0.0;
        let k = choose|k: int| #[trigger]
            is_expr(src, skip(src, 0), expr, k) && skip(src, k) == src.len();
        lemma_tokens_skip(src, 0);
        let p = lemma_account_expr(src, skip(src, 0), expr, k);
        lemma_holds_skip(src, skip(src, 0), p, k);
        assert(tokens_from(src, src.len() as int) =~= Seq::empty());
        assert(tokens(src) =~= p);
        law_what_parses_can_be_written(src);
        lemma_written_closed(expr);
    }
}

} // verus!
