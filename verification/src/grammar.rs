//! The language of the parser.
//!
//! The relations here say which text is which expression, as a grammar does:
//!
//! ```text
//! program    ::= expr
//! expr       ::= chain | let_form | chain ';' let_form
//! chain      ::= add_expr | chain ';' add_expr
//! let_form   ::= 'let' usage ident '=' expr 'in' expr
//!              | 'let' '(' (ident (',' ident)+)? ')' '=' expr 'in' expr
//! usage      ::= 'ordinary' | 'linear'
//! add_expr   ::= postfix | add_expr '+' postfix
//! postfix    ::= atom | postfix '.' nonneg_int
//! atom       ::= int_literal
//!              | ident
//!              | '(' ')'                       // empty tuple
//!              | '(' expr ')'                  // grouping
//!              | '(' expr (',' expr)+ ')'      // tuple with two or more elements
//! ```
//!
//! Projection binds tighter than `+`, and `+` tighter than `;`; both `+` and `;`
//! group to the left. A `let` form stands last in its sequence, so its body
//! extends as far right as possible. Trivia may stand between any two tokens.
//!
//! [`law_parsing_is_sound`] and [`law_parsing_is_complete`] say that the parser
//! accepts exactly this language.

use crate::ast::{joined, span_of, ExprView, Span, Usage};
use crate::error::ErrorView;
use crate::lexical::{
    at_token, byte_at, digit_at, digits_end, digits_value, int_at, int_end, int_value,
    is_reserved_word, keyword_at, lemma_int, lemma_skip, lemma_word, skip, word, word_at, word_end,
    COMMA, DOT, EQUALS, LPAREN, PLUS, RPAREN, SEMICOLON,
};
use crate::reading::{
    advances, lemma_after, lemma_read_binder, lemma_read_index, lemma_read_pattern,
    lemma_read_usage, read_add, read_atom, read_binder, read_binding, read_expr, read_index,
    read_let, read_more_add, read_more_elems, read_more_names, read_more_proj, read_more_seq,
    read_names, read_paren, read_pattern, read_postfix, read_seq_atom, read_source, read_usage,
    Reading,
};
use vstd::prelude::*;

verus! {

// -----------------------------------------------------------------------------
// The grammar
// -----------------------------------------------------------------------------

/// Between `k`, where something ends, and `m`, where something begins, stands the
/// one-byte token `b`.
pub open spec fn separated(src: Seq<u8>, k: int, b: u8, m: int) -> bool {
    &&& 0 <= k < m <= src.len()
    &&& byte_at(src, skip(src, k), b)
    &&& m == skip(src, skip(src, k) + 1)
}

/// The identifier at `i` is `name`, and `span` is where it stands.
pub open spec fn is_binder(src: Seq<u8>, i: int, binder: (Seq<char>, Span)) -> bool {
    &&& word_at(src, i)
    &&& !is_reserved_word(word(src, i))
    &&& binder.0 == word(src, i)
    &&& binder.1 == span_of(i, word_end(src, i))
}

/// `ident (',' ident)*` from `i` to `j`: the first `n` of `names`.
pub open spec fn is_names(
    src: Seq<u8>,
    i: int,
    names: Seq<(Seq<char>, Span)>,
    n: nat,
    j: int,
) -> bool
    decreases n,
{
    if n == 0 || n > names.len() {
        false
    } else if n == 1 {
        is_binder(src, i, names[0]) && j == word_end(src, i)
    } else {
        exists|k: int, m: int|
            {
                &&& is_names(src, i, names, (n - 1) as nat, k)
                &&& #[trigger] separated(src, k, COMMA, m)
                &&& is_binder(src, m, names[n - 1])
                &&& j == word_end(src, m)
            }
    }
}

/// A deconstruction pattern with its parentheses, from `i` to `j`.
pub open spec fn is_pattern(src: Seq<u8>, i: int, names: Seq<(Seq<char>, Span)>, j: int) -> bool {
    &&& byte_at(src, i, LPAREN)
    &&& if names.len() == 0 {
        byte_at(src, skip(src, i + 1), RPAREN) && j == skip(src, i + 1) + 1
    } else {
        &&& names.len() >= 2
        &&& exists|k: int|
            {
                &&& is_names(src, skip(src, i + 1), names, names.len(), k)
                &&& #[trigger] byte_at(src, skip(src, k), RPAREN)
                &&& j == skip(src, k) + 1
            }
    }
}

/// The usage keyword at `i` is that of `usage`.
pub open spec fn is_usage(src: Seq<u8>, i: int, usage: Usage) -> bool {
    ||| usage == Usage::Ordinary && keyword_at(src, i, "ordinary"@)
    ||| usage == Usage::Linear && keyword_at(src, i, "linear"@)
}

/// The text from `i` to `j` is the expression `expr`.
pub open spec fn is_expr(src: Seq<u8>, i: int, expr: ExprView, j: int) -> bool
    decreases j - i, 7nat,
{
    &&& 0 <= i < j <= src.len()
    &&& {
        ||| is_chain(src, i, expr, j)
        ||| is_let(src, i, expr, j)
        ||| match expr {
            ExprView::Sequence { first, second, span } => {
                &&& span == joined(first.span(), second.span())
                &&& exists|k: int, m: int|
                    {
                        &&& i < k < m < j
                        &&& #[trigger] separated(src, k, SEMICOLON, m)
                        &&& is_chain(src, i, *first, k)
                        &&& is_let(src, m, *second, j)
                    }
            },
            _ => false,
        }
    }
}

/// The text from `i` to `j` is the sequence `expr` of one or more sums.
pub open spec fn is_chain(src: Seq<u8>, i: int, expr: ExprView, j: int) -> bool
    decreases j - i, 6nat,
{
    &&& 0 <= i < j <= src.len()
    &&& {
        ||| is_add(src, i, expr, j)
        ||| match expr {
            ExprView::Sequence { first, second, span } => {
                &&& span == joined(first.span(), second.span())
                &&& exists|k: int, m: int|
                    {
                        &&& i < k < m < j
                        &&& #[trigger] separated(src, k, SEMICOLON, m)
                        &&& is_chain(src, i, *first, k)
                        &&& is_add(src, m, *second, j)
                    }
            },
            _ => false,
        }
    }
}

/// The text from `i` to `j` is the `let` form `expr`.
pub open spec fn is_let(src: Seq<u8>, i: int, expr: ExprView, j: int) -> bool
    decreases j - i, 5nat,
{
    let let_span = span_of(i, word_end(src, i));
    let next = skip(src, word_end(src, i));
    &&& keyword_at(src, i, "let"@)
    &&& match expr {
        ExprView::Let { usage, name, name_span, value, body, span } => {
            let named = skip(src, word_end(src, next));
            let equals = skip(src, word_end(src, named));
            &&& is_usage(src, next, usage)
            &&& is_binder(src, named, (name, name_span))
            &&& i < equals < j
            &&& is_binding(src, equals, *value, *body, j)
            &&& span == joined(let_span, body.span())
        },
        ExprView::TupleDestructure { names, value, body, span } => {
            &&& exists|end: int|
                {
                    &&& #[trigger] is_pattern(src, next, names, end)
                    &&& i < skip(src, end) < j
                    &&& is_binding(src, skip(src, end), *value, *body, j)
                }
            &&& span == joined(let_span, body.span())
        },
        _ => false,
    }
}

/// The text from `i` to `j` is `= value in body`.
pub open spec fn is_binding(
    src: Seq<u8>,
    i: int,
    value: ExprView,
    body: ExprView,
    j: int,
) -> bool
    decreases j - i, 4nat,
{
    &&& byte_at(src, i, EQUALS)
    &&& exists|k: int|
        {
            let rest = skip(src, word_end(src, skip(src, k)));
            &&& i < skip(src, i + 1) < k < rest < j
            &&& is_expr(src, skip(src, i + 1), value, k)
            &&& #[trigger] keyword_at(src, skip(src, k), "in"@)
            &&& is_expr(src, rest, body, j)
        }
}

/// The text from `i` to `j` is the sum `expr` of one or more terms.
pub open spec fn is_add(src: Seq<u8>, i: int, expr: ExprView, j: int) -> bool
    decreases j - i, 3nat,
{
    &&& 0 <= i < j <= src.len()
    &&& {
        ||| is_postfix(src, i, expr, j)
        ||| match expr {
            ExprView::Add { lhs, rhs, span } => {
                &&& span == joined(lhs.span(), rhs.span())
                &&& exists|k: int, m: int|
                    {
                        &&& i < k < m < j
                        &&& #[trigger] separated(src, k, PLUS, m)
                        &&& is_add(src, i, *lhs, k)
                        &&& is_postfix(src, m, *rhs, j)
                    }
            },
            _ => false,
        }
    }
}

/// The text from `i` to `j` is an atom with zero or more projections.
pub open spec fn is_postfix(src: Seq<u8>, i: int, expr: ExprView, j: int) -> bool
    decreases j - i, 2nat,
{
    &&& 0 <= i < j <= src.len()
    &&& {
        ||| is_atom(src, i, expr, j)
        ||| match expr {
            ExprView::TupleProj { tuple, index, span } => exists|k: int, m: int|
                {
                    &&& i < k < m < j
                    &&& #[trigger] separated(src, k, DOT, m)
                    &&& is_postfix(src, i, *tuple, k)
                    &&& digit_at(src, m)
                    &&& j == digits_end(src, m)
                    &&& index == digits_value(src.subrange(m, j))
                    &&& span == joined(tuple.span(), span_of(m, j))
                },
            _ => false,
        }
    }
}

/// The text from `i` to `j` is the atom `expr`.
pub open spec fn is_atom(src: Seq<u8>, i: int, expr: ExprView, j: int) -> bool
    decreases j - i, 1nat,
{
    &&& 0 <= i < j <= src.len()
    &&& {
        ||| match expr {
            ExprView::IntLit { value, span } => {
                &&& int_at(src, i)
                &&& j == int_end(src, i)
                &&& value == int_value(src, i)
                &&& span == span_of(i, j)
            },
            ExprView::Var { name, span } => is_binder(src, i, (name, span)) && j == word_end(
                src,
                i,
            ),
            ExprView::Tuple { elems, span } => {
                &&& byte_at(src, i, LPAREN)
                &&& span == span_of(i, j)
                &&& if elems.len() == 0 {
                    byte_at(src, skip(src, i + 1), RPAREN) && j == skip(src, i + 1) + 1
                } else {
                    &&& elems.len() >= 2
                    &&& exists|k: int|
                        {
                            &&& i < skip(src, i + 1) < k < j
                            &&& is_elems(src, skip(src, i + 1), elems, elems.len(), k)
                            &&& #[trigger] byte_at(src, skip(src, k), RPAREN)
                            &&& j == skip(src, k) + 1
                        }
                }
            },
            _ => false,
        }
        ||| byte_at(src, i, LPAREN) && exists|k: int|
            {
                &&& i < skip(src, i + 1) < k < j
                &&& is_expr(src, skip(src, i + 1), expr, k)
                &&& #[trigger] byte_at(src, skip(src, k), RPAREN)
                &&& j == skip(src, k) + 1
            }
    }
}

/// `expr (',' expr)*` from `i` to `j`: the first `n` of `elems`.
pub open spec fn is_elems(src: Seq<u8>, i: int, elems: Seq<ExprView>, n: nat, j: int) -> bool
    decreases j - i, 8nat,
{
    if n == 0 || n > elems.len() || !(0 <= i < j <= src.len()) {
        false
    } else if n == 1 {
        is_expr(src, i, elems[0], j)
    } else {
        exists|k: int, m: int|
            {
                &&& i < k < m < j
                &&& #[trigger] separated(src, k, COMMA, m)
                &&& is_elems(src, i, elems, (n - 1) as nat, k)
                &&& is_expr(src, m, elems[n - 1], j)
            }
    }
}

/// The source is the program `expr`, with nothing but trivia around it.
pub open spec fn is_program(src: Seq<u8>, expr: ExprView) -> bool {
    exists|j: int| #[trigger] is_expr(src, skip(src, 0), expr, j) && skip(src, j) == src.len()
}

// -----------------------------------------------------------------------------
// Completeness
// -----------------------------------------------------------------------------

/// The token after `j` is none of `.`, `+` and `;`, which would go on with an
/// expression that ends at `j`.
pub open spec fn ends_expr(src: Seq<u8>, j: int) -> bool {
    &&& !byte_at(src, skip(src, j), DOT)
    &&& !byte_at(src, skip(src, j), PLUS)
    &&& !byte_at(src, skip(src, j), SEMICOLON)
}

proof fn lemma_names_complete(
    src: Seq<u8>,
    i: int,
    names: Seq<(Seq<char>, Span)>,
    n: nat,
    j: int,
)
    requires
        is_names(src, i, names, n, j),
    ensures
        0 <= i < j <= src.len(),
        is_binder(src, i, names[0]),
        read_more_names(src, seq![names[0]], word_end(src, i)) == read_more_names(
            src,
            names.take(n as int),
            j,
        ),
    decreases n,
{
    if n == 1 {
        lemma_word(src, i);
        assert(names.take(1) =~= seq![names[0]]);
    } else {
        let (k, m) = choose|k: int, m: int|
            {
                &&& is_names(src, i, names, (n - 1) as nat, k)
                &&& #[trigger] separated(src, k, COMMA, m)
                &&& is_binder(src, m, names[n - 1])
                &&& j == word_end(src, m)
            };
        lemma_names_complete(src, i, names, (n - 1) as nat, k);
        lemma_word(src, m);
        assert(names.take(n as int) =~= names.take(n - 1).push(names[n - 1]));
    }
}

proof fn lemma_pattern_complete(src: Seq<u8>, i: int, names: Seq<(Seq<char>, Span)>, j: int)
    requires
        is_pattern(src, i, names, j),
    ensures
        read_pattern(src, i) == Reading::<Seq<(Seq<char>, Span)>>::Ok((names, j)),
{
    let first = skip(src, i + 1);
    if names.len() == 0 {
        assert(names =~= Seq::empty());
    } else {
        let k = choose|k: int|
            {
                &&& is_names(src, first, names, names.len(), k)
                &&& #[trigger] byte_at(src, skip(src, k), RPAREN)
                &&& j == skip(src, k) + 1
            };
        lemma_names_complete(src, first, names, names.len(), k);
        assert(names.take(names.len() as int) =~= names);
    }
}

/// No expression begins with `)`.
proof fn lemma_no_expr_at_paren(src: Seq<u8>, i: int)
    requires
        byte_at(src, i, RPAREN),
    ensures
        read_expr(src, i) is Err,
{
    assert(read_atom(src, i) is Err);
    assert(read_postfix(src, i) is Err);
    assert(read_add(src, i) is Err);
    assert(read_seq_atom(src, i) is Err);
}

/// No sum begins with `let`.
proof fn lemma_no_add_at_let(src: Seq<u8>, i: int)
    requires
        keyword_at(src, i, "let"@),
    ensures
        read_add(src, i) is Err,
{
    assert(read_atom(src, i) is Err);
    assert(read_postfix(src, i) is Err);
}

/// Reading on does not depend on trivia that was skipped.
proof fn lemma_more_after_trivia(src: Seq<u8>, expr: ExprView, j: int)
    requires
        0 <= j <= src.len(),
    ensures
        read_more_seq(src, expr, skip(src, j)) == read_more_seq(src, expr, j),
        read_more_add(src, expr, skip(src, j)) == read_more_add(src, expr, j),
{
    lemma_skip(src, j);
}

pub proof fn lemma_expr_complete(src: Seq<u8>, i: int, expr: ExprView, j: int)
    requires
        is_expr(src, i, expr, j),
        ends_expr(src, j),
    ensures
        read_expr(src, i) == Reading::<ExprView>::Ok((expr, skip(src, j))),
    decreases j - i, 7nat,
{
    lemma_skip(src, j);
    if is_chain(src, i, expr, j) {
        lemma_chain_complete(src, i, expr, j);
    } else if is_let(src, i, expr, j) {
        lemma_let_complete(src, i, expr, j);
    } else {
        let first = *expr->Sequence_first;
        let second = *expr->Sequence_second;
        let (k, m) = choose|k: int, m: int|
            {
                &&& i < k < m < j
                &&& #[trigger] separated(src, k, SEMICOLON, m)
                &&& is_chain(src, i, first, k)
                &&& is_let(src, m, second, j)
            };
        lemma_chain_complete(src, i, first, k);
        lemma_let_complete(src, m, second, j);
        lemma_more_after_trivia(src, expr, j);
        assert(read_more_seq(src, first, k) == read_more_seq(src, expr, j));
    }
}

proof fn lemma_chain_complete(src: Seq<u8>, i: int, expr: ExprView, j: int)
    requires
        is_chain(src, i, expr, j),
        !byte_at(src, skip(src, j), DOT),
        !byte_at(src, skip(src, j), PLUS),
    ensures
        read_expr(src, i) == read_more_seq(src, expr, j),
    decreases j - i, 6nat,
{
    lemma_skip(src, j);
    lemma_more_after_trivia(src, expr, j);
    if is_add(src, i, expr, j) {
        lemma_add_complete(src, i, expr, j);
        assert(read_add(src, i) == Reading::<ExprView>::Ok((expr, skip(src, j))));
        if keyword_at(src, i, "let"@) {
            lemma_no_add_at_let(src, i);
        }
    } else {
        let first = *expr->Sequence_first;
        let second = *expr->Sequence_second;
        let (k, m) = choose|k: int, m: int|
            {
                &&& i < k < m < j
                &&& #[trigger] separated(src, k, SEMICOLON, m)
                &&& is_chain(src, i, first, k)
                &&& is_add(src, m, second, j)
            };
        lemma_chain_complete(src, i, first, k);
        lemma_add_complete(src, m, second, j);
        assert(read_add(src, m) == Reading::<ExprView>::Ok((second, skip(src, j))));
        if keyword_at(src, m, "let"@) {
            lemma_no_add_at_let(src, m);
        }
        assert(read_seq_atom(src, m) == Reading::<ExprView>::Ok((second, skip(src, j))));
    }
}

proof fn lemma_let_complete(src: Seq<u8>, i: int, expr: ExprView, j: int)
    requires
        is_let(src, i, expr, j),
        ends_expr(src, j),
    ensures
        read_let(src, i) == Reading::<ExprView>::Ok((expr, skip(src, j))),
        read_seq_atom(src, i) == Reading::<ExprView>::Ok((expr, skip(src, j))),
        i < j <= src.len(),
    decreases j - i, 5nat,
{
    let next = skip(src, word_end(src, i));
    match expr {
        ExprView::Let { usage, name, name_span, value, body, span } => {
            let named = skip(src, word_end(src, next));
            let equals = skip(src, word_end(src, named));
            lemma_usage_complete(src, next, usage);
            lemma_binding_complete(
                src,
                equals,
                *value,
                *body,
                j,
                "expected `=` after let-binding name"@,
                "expected `in` after let-binding value"@,
            );
        },
        ExprView::TupleDestructure { names, value, body, span } => {
            let end = choose|end: int|
                {
                    &&& #[trigger] is_pattern(src, next, names, end)
                    &&& i < skip(src, end) < j
                    &&& is_binding(src, skip(src, end), *value, *body, j)
                };
            lemma_pattern_complete(src, next, names, end);
            lemma_binding_complete(
                src,
                skip(src, end),
                *value,
                *body,
                j,
                "expected `=` after deconstruction pattern"@,
                "expected `in` after deconstruction value"@,
            );
        },
        _ => {},
    }
}

proof fn lemma_usage_complete(src: Seq<u8>, i: int, usage: Usage)
    requires
        is_usage(src, i, usage),
    ensures
        read_usage(src, i) == Reading::<Usage>::Ok((usage, word_end(src, i))),
{
    reveal_strlit("ordinary");
    reveal_strlit("linear");
    assert("ordinary"@.len() != "linear"@.len());
}

proof fn lemma_binding_complete(
    src: Seq<u8>,
    i: int,
    value: ExprView,
    body: ExprView,
    j: int,
    no_equals: Seq<char>,
    no_in: Seq<char>,
)
    requires
        is_binding(src, i, value, body, j),
        ends_expr(src, j),
    ensures
        read_binding(src, i, no_equals, no_in) == Reading::<(ExprView, ExprView)>::Ok(
            ((value, body), skip(src, j)),
        ),
        i < j <= src.len(),
    decreases j - i, 4nat,
{
    let start = skip(src, i + 1);
    let k = choose|k: int|
        {
            let rest = skip(src, word_end(src, skip(src, k)));
            &&& i < skip(src, i + 1) < k < rest < j
            &&& is_expr(src, skip(src, i + 1), value, k)
            &&& #[trigger] keyword_at(src, skip(src, k), "in"@)
            &&& is_expr(src, rest, body, j)
        };
    lemma_skip(src, k);
    lemma_expr_complete(src, start, value, k);
    lemma_expr_complete(src, skip(src, word_end(src, skip(src, k))), body, j);
}

pub proof fn lemma_add_complete(src: Seq<u8>, i: int, expr: ExprView, j: int)
    requires
        is_add(src, i, expr, j),
        !byte_at(src, skip(src, j), DOT),
    ensures
        read_add(src, i) == read_more_add(src, expr, j),
    decreases j - i, 3nat,
{
    lemma_skip(src, j);
    lemma_more_after_trivia(src, expr, j);
    if is_postfix(src, i, expr, j) {
        lemma_postfix_complete(src, i, expr, j);
    } else {
        let lhs = *expr->lhs;
        let rhs = *expr->rhs;
        let (k, m) = choose|k: int, m: int|
            {
                &&& i < k < m < j
                &&& #[trigger] separated(src, k, PLUS, m)
                &&& is_add(src, i, lhs, k)
                &&& is_postfix(src, m, rhs, j)
            };
        lemma_add_complete(src, i, lhs, k);
        lemma_postfix_complete(src, m, rhs, j);
    }
}

proof fn lemma_postfix_complete(src: Seq<u8>, i: int, expr: ExprView, j: int)
    requires
        is_postfix(src, i, expr, j),
    ensures
        read_postfix(src, i) == read_more_proj(src, expr, j),
    decreases j - i, 2nat,
{
    if is_atom(src, i, expr, j) {
        lemma_atom_complete(src, i, expr, j);
    } else {
        let tuple = *expr->tuple;
        let (k, m) = choose|k: int, m: int|
            {
                &&& i < k < m < j
                &&& #[trigger] separated(src, k, DOT, m)
                &&& is_postfix(src, i, tuple, k)
                &&& digit_at(src, m)
                &&& j == digits_end(src, m)
                &&& expr->index == digits_value(src.subrange(m, j))
                &&& expr->TupleProj_span == joined(tuple.span(), span_of(m, j))
            };
        lemma_postfix_complete(src, i, tuple, k);
    }
}

proof fn lemma_atom_complete(src: Seq<u8>, i: int, expr: ExprView, j: int)
    requires
        is_atom(src, i, expr, j),
    ensures
        read_atom(src, i) == Reading::<ExprView>::Ok((expr, j)),
    decreases j - i, 1nat,
{
    let start = skip(src, i + 1);
    if byte_at(src, i, LPAREN) && exists|k: int|
        {
            &&& i < skip(src, i + 1) < k < j
            &&& is_expr(src, skip(src, i + 1), expr, k)
            &&& #[trigger] byte_at(src, skip(src, k), RPAREN)
            &&& j == skip(src, k) + 1
        } {
        let k = choose|k: int|
            {
                &&& i < skip(src, i + 1) < k < j
                &&& is_expr(src, skip(src, i + 1), expr, k)
                &&& #[trigger] byte_at(src, skip(src, k), RPAREN)
                &&& j == skip(src, k) + 1
            };
        lemma_skip(src, k);
        lemma_expr_complete(src, start, expr, k);
        if byte_at(src, start, RPAREN) {
            lemma_no_expr_at_paren(src, start);
        }
    } else if let ExprView::Tuple { elems, span } = expr {
        if elems.len() == 0 {
            assert(elems =~= Seq::empty());
        } else {
            let k = choose|k: int|
                {
                    &&& i < skip(src, i + 1) < k < j
                    &&& is_elems(src, skip(src, i + 1), elems, elems.len(), k)
                    &&& #[trigger] byte_at(src, skip(src, k), RPAREN)
                    &&& j == skip(src, k) + 1
                };
            lemma_tuple_complete(src, start, elems, k);
        }
    }
}

/// Elements that a comma follows: reading the first one and then going on leads to
/// that comma with all of them read.
proof fn lemma_elems_complete(
    src: Seq<u8>,
    i: int,
    elems: Seq<ExprView>,
    n: nat,
    j: int,
) -> (comma: int)
    requires
        is_elems(src, i, elems, n, j),
        byte_at(src, skip(src, j), COMMA),
    ensures
        read_expr(src, i) == Reading::<ExprView>::Ok((elems[0], comma)),
        advances(src, i, comma),
        at_token(src, comma),
        byte_at(src, comma, COMMA),
        read_more_elems(src, seq![elems[0]], comma) == read_more_elems(
            src,
            elems.take(n as int),
            skip(src, j),
        ),
    decreases j - i, 8nat,
{
    lemma_skip(src, j);
    if n == 1 {
        lemma_expr_complete(src, i, elems[0], j);
        assert(elems.take(1) =~= seq![elems[0]]);
        skip(src, j)
    } else {
        let (k, m) = choose|k: int, m: int|
            {
                &&& i < k < m < j
                &&& #[trigger] separated(src, k, COMMA, m)
                &&& is_elems(src, i, elems, (n - 1) as nat, k)
                &&& is_expr(src, m, elems[n - 1], j)
            };
        let comma = lemma_elems_complete(src, i, elems, (n - 1) as nat, k);
        lemma_expr_complete(src, m, elems[n - 1], j);
        if byte_at(src, m, RPAREN) {
            lemma_no_expr_at_paren(src, m);
        }
        assert(elems.take(n as int) =~= elems.take(n - 1).push(elems[n - 1]));
        comma
    }
}

proof fn lemma_tuple_complete(src: Seq<u8>, i: int, elems: Seq<ExprView>, j: int)
    requires
        elems.len() >= 2,
        is_elems(src, i, elems, elems.len(), j),
        byte_at(src, skip(src, j), RPAREN),
    ensures
        !byte_at(src, i, RPAREN),
        read_expr(src, i) matches Ok((first, comma)) && {
            &&& first == elems[0]
            &&& advances(src, i, comma)
            &&& at_token(src, comma)
            &&& byte_at(src, comma, COMMA)
            &&& read_more_elems(src, seq![first], comma) == Reading::<Seq<ExprView>>::Ok(
                (elems, skip(src, j) + 1),
            )
        },
    decreases j - i, 9nat,
{
    let n = elems.len();
    let (k, m) = choose|k: int, m: int|
        {
            &&& i < k < m < j
            &&& #[trigger] separated(src, k, COMMA, m)
            &&& is_elems(src, i, elems, (n - 1) as nat, k)
            &&& is_expr(src, m, elems[n - 1], j)
        };
    lemma_skip(src, j);
    let comma = lemma_elems_complete(src, i, elems, (n - 1) as nat, k);
    lemma_expr_complete(src, m, elems[n - 1], j);
    if byte_at(src, m, RPAREN) {
        lemma_no_expr_at_paren(src, m);
    }
    if byte_at(src, i, RPAREN) {
        lemma_no_expr_at_paren(src, i);
    }
    assert(elems =~= elems.take(n - 1).push(elems[n - 1]));
}

/// Every program of the grammar parses, to the expression that it is.
pub proof fn law_parsing_is_complete(src: Seq<u8>, expr: ExprView)
    requires
        is_program(src, expr),
    ensures
        read_source(src) == Result::<(ExprView, Span), ErrorView>::Ok(
            (expr, span_of(skip(src, 0), src.len() as int)),
        ),
{
    let start = skip(src, 0);
    let j = choose|j: int| #[trigger]
        is_expr(src, skip(src, 0), expr, j) && skip(src, j) == src.len();
    lemma_skip(src, j);
    lemma_expr_complete(src, start, expr, j);
}

// -----------------------------------------------------------------------------
// Soundness
// -----------------------------------------------------------------------------

/// Names after the first `n` do not matter to the first `n`.
pub proof fn lemma_names_prefix(
    src: Seq<u8>,
    i: int,
    names: Seq<(Seq<char>, Span)>,
    more: Seq<(Seq<char>, Span)>,
    n: nat,
    j: int,
)
    requires
        is_names(src, i, names, n, j),
        n <= more.len(),
        forall|t: int| 0 <= t < n ==> #[trigger] names[t] == more[t],
    ensures
        is_names(src, i, more, n, j),
    decreases n,
{
    if n > 1 {
        let (k, m) = choose|k: int, m: int|
            {
                &&& is_names(src, i, names, (n - 1) as nat, k)
                &&& #[trigger] separated(src, k, COMMA, m)
                &&& is_binder(src, m, names[n - 1])
                &&& j == word_end(src, m)
            };
        lemma_names_prefix(src, i, names, more, (n - 1) as nat, k);
        assert(names[n - 1] == more[n - 1]);
        assert(separated(src, k, COMMA, m));
    } else {
        assert(names[0] == more[0]);
    }
}

proof fn lemma_more_names_sound(
    src: Seq<u8>,
    names: Seq<(Seq<char>, Span)>,
    i: int,
    k: int,
) -> (j: int)
    requires
        is_names(src, i, names, names.len(), k),
        0 <= k <= src.len(),
        read_more_names(src, names, k) is Ok,
    ensures
        read_more_names(src, names, k) matches Ok((all, end)) && {
            &&& is_names(src, i, all, all.len(), j)
            &&& end == skip(src, j)
        },
    decreases src.len() - k,
{
    lemma_skip(src, k);
    if byte_at(src, skip(src, k), COMMA) {
        let m = skip(src, skip(src, k) + 1);
        lemma_after(src, k, COMMA);
        lemma_read_binder(src, m);
        let (binder, end) = read_binder(src, m)->Ok_0;
        let more = names.push(binder);
        lemma_names_prefix(src, i, names, more, names.len(), k);
        assert(separated(src, k, COMMA, m));
        assert(is_names(src, i, more, more.len(), end));
        lemma_more_names_sound(src, more, i, end)
    } else {
        k
    }
}

proof fn lemma_pattern_sound(src: Seq<u8>, i: int)
    requires
        byte_at(src, i, LPAREN),
        read_pattern(src, i) is Ok,
    ensures
        read_pattern(src, i) matches Ok((names, j)) && is_pattern(src, i, names, j),
{
    let first = skip(src, i + 1);
    lemma_skip(src, i + 1);
    if !byte_at(src, first, RPAREN) {
        let (binder, end) = read_binder(src, first)->Ok_0;
        lemma_read_binder(src, first);
        assert(is_names(src, first, seq![binder], 1, end));
        let k = lemma_more_names_sound(src, seq![binder], first, end);
        let (names, close) = read_names(src, i)->Ok_0;
        assert(is_names(src, first, names, names.len(), k));
        assert(byte_at(src, skip(src, k), RPAREN));
    }
}

proof fn lemma_expr_sound(src: Seq<u8>, i: int) -> (j: int)
    requires
        0 <= i <= src.len(),
        read_expr(src, i) is Ok,
    ensures
        read_expr(src, i) matches Ok((expr, end)) && is_expr(src, i, expr, j) && end == skip(
            src,
            j,
        ),
        i < j <= src.len(),
        ends_expr(src, j),
    decreases src.len() - i, 6nat,
{
    let (first, end) = read_seq_atom(src, i)->Ok_0;
    if keyword_at(src, i, "let"@) {
        let j = lemma_let_sound(src, i);
        lemma_skip(src, j);
        j
    } else {
        let j = lemma_add_sound(src, i);
        lemma_skip(src, j);
        lemma_more_after_trivia(src, first, j);
        lemma_more_seq_sound(src, first, i, j)
    }
}

proof fn lemma_more_seq_sound(src: Seq<u8>, lhs: ExprView, i: int, k: int) -> (j: int)
    requires
        is_chain(src, i, lhs, k),
        !byte_at(src, skip(src, k), DOT),
        !byte_at(src, skip(src, k), PLUS),
        read_more_seq(src, lhs, k) is Ok,
    ensures
        read_more_seq(src, lhs, k) matches Ok((expr, end)) && is_expr(src, i, expr, j) && end
            == skip(src, j),
        i < j <= src.len(),
        ends_expr(src, j),
    decreases src.len() - k, 7nat,
{
    lemma_skip(src, k);
    if byte_at(src, skip(src, k), SEMICOLON) {
        let m = skip(src, skip(src, k) + 1);
        lemma_after(src, k, SEMICOLON);
        assert(separated(src, k, SEMICOLON, m));
        let (rhs, end) = read_seq_atom(src, m)->Ok_0;
        let longer = ExprView::Sequence {
            first: Box::new(lhs),
            second: Box::new(rhs),
            span: joined(lhs.span(), rhs.span()),
        };
        if keyword_at(src, m, "let"@) {
            let j = lemma_let_sound(src, m);
            lemma_skip(src, j);
            assert(is_let(src, m, rhs, j));
            assert(is_expr(src, i, longer, j));
            assert(read_more_seq(src, lhs, k) == read_more_seq(src, longer, end));
            j
        } else {
            let j = lemma_add_sound(src, m);
            lemma_skip(src, j);
            assert(is_chain(src, i, longer, j));
            lemma_more_after_trivia(src, longer, j);
            assert(read_more_seq(src, lhs, k) == read_more_seq(src, longer, j));
            lemma_more_seq_sound(src, longer, i, j)
        }
    } else {
        k
    }
}

proof fn lemma_let_sound(src: Seq<u8>, i: int) -> (j: int)
    requires
        keyword_at(src, i, "let"@),
        read_let(src, i) is Ok,
    ensures
        read_let(src, i) matches Ok((expr, end)) && is_let(src, i, expr, j) && end == skip(src, j),
        i < j <= src.len(),
        ends_expr(src, j),
    decreases src.len() - i, 4nat,
{
    lemma_word(src, i);
    lemma_skip(src, word_end(src, i));
    let next = skip(src, word_end(src, i));
    if byte_at(src, next, LPAREN) {
        let (names, end) = read_pattern(src, next)->Ok_0;
        lemma_read_pattern(src, next);
        lemma_pattern_sound(src, next);
        lemma_skip(src, end);
        assert(is_pattern(src, next, names, end));
        let j = lemma_binding_sound(
            src,
            skip(src, end),
            "expected `=` after deconstruction pattern"@,
            "expected `in` after deconstruction value"@,
        );
        let expr = read_let(src, i)->Ok_0.0;
        assert(is_binding(
            src,
            skip(src, end),
            *expr->TupleDestructure_value,
            *expr->TupleDestructure_body,
            j,
        ));
        assert(expr->TupleDestructure_names == names);
        assert(i < skip(src, end) < j);
        assert(expr->TupleDestructure_span == joined(
            span_of(i, word_end(src, i)),
            expr->TupleDestructure_body.span(),
        ));
        assert(is_let(src, i, expr, j));
        j
    } else {
        let (usage, end) = read_usage(src, next)->Ok_0;
        lemma_read_usage(src, next);
        lemma_skip(src, end);
        let named = skip(src, end);
        let (binder, end) = read_binder(src, named)->Ok_0;
        lemma_read_binder(src, named);
        lemma_skip(src, end);
        let j = lemma_binding_sound(
            src,
            skip(src, end),
            "expected `=` after let-binding name"@,
            "expected `in` after let-binding value"@,
        );
        let expr = read_let(src, i)->Ok_0.0;
        assert(is_usage(src, next, usage));
        assert(is_binder(src, named, binder));
        assert(is_binding(src, skip(src, end), *expr->Let_value, *expr->Let_body, j));
        assert(is_let(src, i, expr, j));
        j
    }
}

proof fn lemma_binding_sound(
    src: Seq<u8>,
    i: int,
    no_equals: Seq<char>,
    no_in: Seq<char>,
) -> (j: int)
    requires
        0 <= i <= src.len(),
        read_binding(src, i, no_equals, no_in) is Ok,
    ensures
        read_binding(src, i, no_equals, no_in) matches Ok(((value, body), end)) && is_binding(
            src,
            i,
            value,
            body,
            j,
        ) && end == skip(src, j),
        i < j <= src.len(),
        ends_expr(src, j),
    decreases src.len() - i, 8nat,
{
    let start = skip(src, i + 1);
    lemma_skip(src, i + 1);
    let (value, end) = read_expr(src, start)->Ok_0;
    let k = lemma_expr_sound(src, start);
    lemma_skip(src, k);
    let next = skip(src, k);
    assert(keyword_at(src, skip(src, k), "in"@));
    lemma_word(src, next);
    lemma_skip(src, word_end(src, next));
    lemma_expr_sound(src, skip(src, word_end(src, next)))
}

proof fn lemma_add_sound(src: Seq<u8>, i: int) -> (j: int)
    requires
        0 <= i <= src.len(),
        read_add(src, i) is Ok,
    ensures
        read_add(src, i) matches Ok((expr, end)) && is_add(src, i, expr, j) && end == skip(src, j),
        i < j <= src.len(),
        !byte_at(src, skip(src, j), DOT),
        !byte_at(src, skip(src, j), PLUS),
    decreases src.len() - i, 3nat,
{
    let (first, end) = read_postfix(src, i)->Ok_0;
    let j = lemma_postfix_sound(src, i);
    lemma_skip(src, j);
    lemma_more_after_trivia(src, first, j);
    lemma_more_add_sound(src, first, i, j)
}

proof fn lemma_more_add_sound(src: Seq<u8>, lhs: ExprView, i: int, k: int) -> (j: int)
    requires
        is_add(src, i, lhs, k),
        !byte_at(src, skip(src, k), DOT),
        read_more_add(src, lhs, k) is Ok,
    ensures
        read_more_add(src, lhs, k) matches Ok((expr, end)) && is_add(src, i, expr, j) && end
            == skip(src, j),
        i < j <= src.len(),
        !byte_at(src, skip(src, j), DOT),
        !byte_at(src, skip(src, j), PLUS),
    decreases src.len() - k, 7nat,
{
    lemma_skip(src, k);
    if byte_at(src, skip(src, k), PLUS) {
        let m = skip(src, skip(src, k) + 1);
        lemma_after(src, k, PLUS);
        assert(separated(src, k, PLUS, m));
        let (rhs, end) = read_postfix(src, m)->Ok_0;
        let longer = ExprView::Add {
            lhs: Box::new(lhs),
            rhs: Box::new(rhs),
            span: joined(lhs.span(), rhs.span()),
        };
        let j = lemma_postfix_sound(src, m);
        lemma_skip(src, j);
        assert(is_add(src, i, longer, j));
        lemma_more_after_trivia(src, longer, j);
        lemma_more_add_sound(src, longer, i, j)
    } else {
        k
    }
}

proof fn lemma_postfix_sound(src: Seq<u8>, i: int) -> (j: int)
    requires
        0 <= i <= src.len(),
        read_postfix(src, i) is Ok,
    ensures
        read_postfix(src, i) matches Ok((expr, end)) && is_postfix(src, i, expr, j) && end == skip(
            src,
            j,
        ),
        i < j <= src.len(),
        !byte_at(src, skip(src, j), DOT),
    decreases src.len() - i, 2nat,
{
    let (atom, end) = read_atom(src, i)->Ok_0;
    lemma_atom_sound(src, i);
    lemma_more_proj_sound(src, atom, i, end)
}

proof fn lemma_more_proj_sound(src: Seq<u8>, tuple: ExprView, i: int, k: int) -> (j: int)
    requires
        is_postfix(src, i, tuple, k),
        read_more_proj(src, tuple, k) is Ok,
    ensures
        read_more_proj(src, tuple, k) matches Ok((expr, end)) && is_postfix(src, i, expr, j) && end
            == skip(src, j),
        i < j <= src.len(),
        !byte_at(src, skip(src, j), DOT),
    decreases src.len() - k,
{
    lemma_skip(src, k);
    if byte_at(src, skip(src, k), DOT) {
        let m = skip(src, skip(src, k) + 1);
        lemma_after(src, k, DOT);
        assert(separated(src, k, DOT, m));
        lemma_read_index(src, m);
        let (index, end) = read_index(src, m)->Ok_0;
        let longer = ExprView::TupleProj {
            tuple: Box::new(tuple),
            index,
            span: joined(tuple.span(), span_of(m, end)),
        };
        assert(is_postfix(src, i, longer, end));
        lemma_more_proj_sound(src, longer, i, end)
    } else {
        k
    }
}

proof fn lemma_atom_sound(src: Seq<u8>, i: int)
    requires
        0 <= i <= src.len(),
        read_atom(src, i) is Ok,
    ensures
        read_atom(src, i) matches Ok((expr, j)) && is_atom(src, i, expr, j),
    decreases src.len() - i, 1nat,
{
    if int_at(src, i) {
        lemma_int(src, i);
    } else if byte_at(src, i, LPAREN) {
        lemma_paren_sound(src, i);
    } else {
        lemma_word(src, i);
    }
}

proof fn lemma_paren_sound(src: Seq<u8>, i: int)
    requires
        byte_at(src, i, LPAREN),
        read_paren(src, i) is Ok,
    ensures
        read_paren(src, i) matches Ok((expr, j)) && is_atom(src, i, expr, j),
    decreases src.len() - i, 0nat,
{
    let start = skip(src, i + 1);
    lemma_skip(src, i + 1);
    if !byte_at(src, start, RPAREN) {
        let (first, end) = read_expr(src, start)->Ok_0;
        let k = lemma_expr_sound(src, start);
        lemma_skip(src, k);
        if byte_at(src, skip(src, k), RPAREN) {
            assert(is_atom(src, i, first, skip(src, k) + 1));
        } else {
            assert(is_elems(src, start, seq![first], 1, k));
            let last = lemma_more_elems_sound(src, seq![first], start, k);
            lemma_skip(src, last);
            assert(byte_at(src, skip(src, last), RPAREN));
        }
    }
}

/// Elements after the first `n` do not matter to the first `n`.
pub proof fn lemma_elems_prefix(
    src: Seq<u8>,
    i: int,
    elems: Seq<ExprView>,
    more: Seq<ExprView>,
    n: nat,
    j: int,
)
    requires
        is_elems(src, i, elems, n, j),
        n <= more.len(),
        forall|t: int| 0 <= t < n ==> #[trigger] elems[t] == more[t],
    ensures
        is_elems(src, i, more, n, j),
    decreases n,
{
    if n > 1 {
        let (k, m) = choose|k: int, m: int|
            {
                &&& i < k < m < j
                &&& #[trigger] separated(src, k, COMMA, m)
                &&& is_elems(src, i, elems, (n - 1) as nat, k)
                &&& is_expr(src, m, elems[n - 1], j)
            };
        lemma_elems_prefix(src, i, elems, more, (n - 1) as nat, k);
        assert(elems[n - 1] == more[n - 1]);
        assert(separated(src, k, COMMA, m));
    } else {
        assert(elems[0] == more[0]);
    }
}

proof fn lemma_more_elems_sound(src: Seq<u8>, elems: Seq<ExprView>, i: int, k: int) -> (j: int)
    requires
        is_elems(src, i, elems, elems.len(), k),
        byte_at(src, skip(src, k), COMMA),
        read_more_elems(src, elems, skip(src, k)) is Ok,
    ensures
        read_more_elems(src, elems, skip(src, k)) matches Ok((all, end)) && {
            &&& all.len() >= 2
            &&& is_elems(src, i, all, all.len(), j)
            &&& byte_at(src, skip(src, j), RPAREN)
            &&& end == skip(src, j) + 1
        },
        i < j <= src.len(),
    decreases src.len() - k, 7nat,
{
    let m = skip(src, skip(src, k) + 1);
    lemma_after(src, k, COMMA);
    let (elem, end) = read_expr(src, m)->Ok_0;
    let j = lemma_expr_sound(src, m);
    lemma_skip(src, j);
    let more = elems.push(elem);
    lemma_elems_prefix(src, i, elems, more, elems.len(), k);
    assert(separated(src, k, COMMA, m));
    assert(is_elems(src, i, more, more.len(), j));
    if byte_at(src, skip(src, j), COMMA) {
        lemma_more_elems_sound(src, more, i, j)
    } else {
        j
    }
}

/// Whatever parses is a program of the grammar: the expression that the parser
/// returns.
pub proof fn law_parsing_is_sound(src: Seq<u8>)
    ensures
        read_source(src) matches Ok((expr, span)) ==> {
            &&& is_program(src, expr)
            &&& span == span_of(skip(src, 0), src.len() as int)
        },
{
    if read_source(src) is Ok {
        lemma_skip(src, 0);
        let j = lemma_expr_sound(src, skip(src, 0));
        lemma_skip(src, j);
    }
}

/// What is read ends after the place where it begins.
pub proof fn law_reading_advances(src: Seq<u8>, i: int)
    requires
        0 <= i <= src.len(),
    ensures
        read_expr(src, i) matches Ok((_, end)) ==> advances(src, i, end),
{
    if read_expr(src, i) is Ok {
        let j = lemma_expr_sound(src, i);
        lemma_skip(src, j);
    }
}

/// A source is at most one program.
pub proof fn law_the_grammar_is_unambiguous(src: Seq<u8>, a: ExprView, b: ExprView)
    requires
        is_program(src, a),
        is_program(src, b),
    ensures
        a == b,
{
    law_parsing_is_complete(src, a);
    law_parsing_is_complete(src, b);
}

} // verus!
