//! When each form of expression is accepted, and what it then yields.
//!
//! Every law here is about one form. It says, of all expressions of that form, how
//! what checking yields of the whole hangs together with what it yields of the
//! parts: which parts are checked, in which scope and mode, when the whole is
//! accepted, which type it has, which variables it uses up and where, and which
//! error is reported where it is rejected.

use crate::ast::{type_text, ExprView, FieldView, Span, TypeView, Usage};
use crate::error::{ErrorCategory, ErrorView, RelatedView};
use crate::linearity::lemma_other_names;
use crate::names::{first_name, is_first_name, lemma_first_name, lemma_first_name_unique};
use crate::text::{decimal, name_before};
use crate::typeck::ConsumeMode;
use crate::typing::{
    apart, bind_fields, bound_again, bound_names, built_usage, check, check_components,
    common_names, component_expected, conflict, deconstructed, destructure_rule, first_leak, leaks,
    lemma_check, let_rule, merged_borrows, merged_consumes, seq_rule, value_expected, value_mode,
    CheckView, Checked, Scope, TypedView, Uses,
};
use vstd::prelude::*;

verus! {

// -----------------------------------------------------------------------------
// Words for what the laws say
// -----------------------------------------------------------------------------

/// No variable is in both.
pub open spec fn share_nothing(a: Uses, b: Uses) -> bool {
    forall|n: Seq<char>| !(#[trigger] a.contains_key(n) && #[trigger] b.contains_key(n))
}

/// `c` holds what `a` holds, and what `b` holds under other names.
pub open spec fn adds_up(c: Uses, a: Uses, b: Uses) -> bool {
    forall|n: Seq<char>| #[trigger]
        c.contains_key(n) == (a.contains_key(n) || b.contains_key(n)) && (c.contains_key(n)
            ==> c[n] == (if a.contains_key(n) {
            a[n]
        } else {
            b[n]
        }))
}

/// `c` holds what `a` holds under names that are not in `gone`, and what `b` holds
/// under other names.
pub open spec fn adds_up_without(c: Uses, a: Uses, gone: Set<Seq<char>>, b: Uses) -> bool {
    forall|n: Seq<char>| #[trigger]
        c.contains_key(n) == (a.contains_key(n) && !gone.contains(n) || b.contains_key(n)) && (
        c.contains_key(n) ==> c[n] == (if a.contains_key(n) && !gone.contains(n) {
            a[n]
        } else {
            b[n]
        }))
}

/// Of the names that are in both, `n` is the first.
pub open spec fn first_shared(n: Seq<char>, a: Uses, b: Uses) -> bool {
    &&& a.contains_key(n)
    &&& b.contains_key(n)
    &&& forall|m: Seq<char>| #[trigger]
        a.contains_key(m) && #[trigger] b.contains_key(m) && m != n ==> name_before(n, m)
}

/// The expression is rejected with a type error at `span` that says `note`.
pub open spec fn rejected(r: Checked, span: Span, note: Seq<char>) -> bool {
    r matches Err(e) && e == (ErrorView {
        category: ErrorCategory::TypeError,
        span,
        note: Some(note),
        related: Seq::empty(),
    })
}

/// The expression is rejected with a type error at `span` that says `note` and points
/// at `other` too.
pub open spec fn rejected_with(
    r: Checked,
    span: Span,
    note: Seq<char>,
    other: Span,
    label: Seq<char>,
) -> bool {
    r matches Err(e) && e == (ErrorView {
        category: ErrorCategory::TypeError,
        span,
        note: Some(note),
        related: seq![RelatedView { span: other, label }],
    })
}

/// What is used up is finite.
spec fn finite_uses(c: CheckView) -> bool {
    c.consumes.dom().finite() && c.borrows.dom().finite()
}

proof fn lemma_rules_finite(
    usage: Usage,
    name: Seq<char>,
    name_span: Span,
    names: Seq<(Seq<char>, Span)>,
    fields: Seq<FieldView>,
    v: CheckView,
    b: CheckView,
)
    requires
        finite_uses(v),
        finite_uses(b),
    ensures
        let_rule(usage, name, name_span, v, b) matches Ok(c) ==> finite_uses(c),
        destructure_rule(names, fields, v, b) matches Ok(c) ==> finite_uses(c),
        seq_rule(v, b) matches Ok(c) ==> finite_uses(c),
        merged_consumes(v.consumes, b.consumes) matches Ok(m) ==> m.dom().finite(),
        merged_borrows(v.borrows, b.borrows).dom().finite(),
{
    reveal(let_rule);
    reveal(destructure_rule);
    reveal(seq_rule);
    let bound = bound_names(names);
    assert(b.consumes.remove_keys(bound).dom() =~= b.consumes.dom().difference(bound));
    assert(b.borrows.remove_keys(bound).dom() =~= b.borrows.dom().difference(bound));
    assert(v.borrows.remove_keys(b.consumes.dom()).dom() =~= v.borrows.dom().difference(
        b.consumes.dom(),
    ));
    assert(b.consumes.remove(name).dom() =~= b.consumes.dom().remove(name));
    assert(b.borrows.remove(name).dom() =~= b.borrows.dom().remove(name));
    assert(forall|x: Uses, y: Uses| #[trigger]
        x.union_prefer_right(y).dom() =~= x.dom().union(y.dom()));
}

proof fn lemma_finite(expr: ExprView, scope: Scope, expected: Option<Usage>, mode: ConsumeMode)
    ensures
        check(expr, scope, expected, mode) matches Ok(c) ==> finite_uses(c),
    decreases expr, 0nat,
{
    lemma_check(expr, scope, expected, mode);
    let none = Seq::<(Seq<char>, Span)>::empty();
    let fields_none = Seq::<FieldView>::empty();
    match expr {
        ExprView::Add { lhs, rhs, span } => {
            lemma_finite(*lhs, scope, Some(Usage::Ordinary), mode);
            lemma_finite(*rhs, scope, Some(Usage::Ordinary), mode);
            if let (Ok(l), Ok(r)) = (
                check(*lhs, scope, Some(Usage::Ordinary), mode),
                check(*rhs, scope, Some(Usage::Ordinary), mode),
            ) {
                lemma_rules_finite(
                    Usage::Ordinary,
                    Seq::empty(),
                    span,
                    none,
                    fields_none,
                    l,
                    r,
                );
            }
        },
        ExprView::Sequence { first, second, span } => {
            lemma_finite(*first, scope, Some(Usage::Ordinary), ConsumeMode::Borrow);
            lemma_finite(*second, scope, expected, mode);
            if let (Ok(f), Ok(s)) = (
                check(*first, scope, Some(Usage::Ordinary), ConsumeMode::Borrow),
                check(*second, scope, expected, mode),
            ) {
                lemma_rules_finite(
                    Usage::Ordinary,
                    Seq::empty(),
                    span,
                    none,
                    fields_none,
                    f,
                    s,
                );
            }
        },
        ExprView::Tuple { elems, .. } => {
            lemma_components_finite(
                elems,
                elems.len(),
                scope,
                built_usage(expected),
                mode,
            );
        },
        ExprView::TupleProj { tuple, .. } => {
            lemma_finite(*tuple, scope, None, mode);
        },
        ExprView::TupleDestructure { names, value, body, span } => {
            lemma_finite(*value, scope, Some(Usage::Linear), ConsumeMode::Consume);
            if let Ok(v) = check(*value, scope, Some(Usage::Linear), ConsumeMode::Consume) {
                if let Ok(fields) = deconstructed(names, v, value.span()) {
                    let inner = bind_fields(scope, names, fields, names.len());
                    lemma_finite(*body, inner, expected, mode);
                    if let Ok(b) = check(*body, inner, expected, mode) {
                        lemma_rules_finite(
                            Usage::Ordinary,
                            Seq::empty(),
                            span,
                            names,
                            fields,
                            v,
                            b,
                        );
                    }
                }
            }
        },
        ExprView::Let { usage, name, name_span, value, body, .. } => {
            let (e, m) = (value_expected(usage), value_mode(usage));
            lemma_finite(*value, scope, e, m);
            if let Ok(v) = check(*value, scope, e, m) {
                let inner = scope.insert(name, v.typed);
                lemma_finite(*body, inner, expected, mode);
                if let Ok(b) = check(*body, inner, expected, mode) {
                    lemma_rules_finite(usage, name, name_span, none, fields_none, v, b);
                }
            }
        },
        _ => {},
    }
}

proof fn lemma_components_finite(
    elems: Seq<ExprView>,
    n: nat,
    scope: Scope,
    outer: Usage,
    mode: ConsumeMode,
)
    ensures
        check_components(elems, n, scope, outer, mode) matches Ok(c) ==> finite_uses(c),
    decreases elems, n,
{
    if 0 < n <= elems.len() {
        let last = elems[n - 1];
        lemma_components_finite(elems, (n - 1) as nat, scope, outer, mode);
        lemma_finite(last, scope, component_expected(outer), mode);
        if let (Ok(t), Ok(c)) = (
            check_components(elems, (n - 1) as nat, scope, outer, mode),
            check(last, scope, component_expected(outer), mode),
        ) {
            lemma_rules_finite(
                Usage::Ordinary,
                Seq::empty(),
                last.span(),
                Seq::empty(),
                Seq::empty(),
                t,
                c,
            );
        }
    }
}

/// The conflict that is reported is about the first name that both sides have.
proof fn lemma_reported(a: Uses, b: Uses, n: Seq<char>)
    requires
        first_shared(n, a, b),
    ensures
        conflict(a, b) == n,
        !apart(a, b),
{
    assert(common_names(a, b).contains(n));
    assert(is_first_name(common_names(a, b), n)) by {
        assert forall|m: Seq<char>| #[trigger] common_names(a, b).contains(m) implies m == n
            || name_before(n, m) by {
            assert(a.contains_key(m) && b.contains_key(m));
        }
    }
    lemma_first_name_unique(common_names(a, b), n);
    assert(a.dom().contains(n) && b.dom().contains(n));
}

proof fn lemma_apart(a: Uses, b: Uses)
    ensures
        apart(a, b) == share_nothing(a, b),
{
    if apart(a, b) {
        assert forall|n: Seq<char>| !(#[trigger] a.contains_key(n) && #[trigger] b.contains_key(n)) by {
            assert(a.dom().contains(n) == a.contains_key(n));
            assert(b.dom().contains(n) == b.contains_key(n));
        }
    } else {
        let n = choose|n: Seq<char>| a.dom().contains(n) && b.dom().contains(n);
        assert(a.contains_key(n) && b.contains_key(n));
    }
}

// -----------------------------------------------------------------------------
// Numbers and variables
// -----------------------------------------------------------------------------

/// A number is an ordinary `int` and uses no variable.
pub proof fn law_a_number_is_an_ordinary_int(
    value: i64,
    span: Span,
    scope: Scope,
    expected: Option<Usage>,
    mode: ConsumeMode,
)
    ensures
        check(ExprView::IntLit { value, span }, scope, expected, mode) matches Ok(c) && {
            &&& c.typed.usage == Usage::Ordinary
            &&& c.typed.ty == TypeView::Int
            &&& c.consumes == Map::<Seq<char>, Span>::empty()
            &&& c.borrows == Map::<Seq<char>, Span>::empty()
        },
{
    lemma_check(ExprView::IntLit { value, span }, scope, expected, mode);
}

/// A variable is what the scope says it is. A linear one is consumed where it stands
/// in Consume mode, and in Borrow mode it is borrowed there and seen as shared; others
/// are not used up. A name that is not in scope is an error.
pub proof fn law_a_variable_is_what_the_scope_says(
    name: Seq<char>,
    span: Span,
    scope: Scope,
    expected: Option<Usage>,
    mode: ConsumeMode,
)
    ensures
        ({
            let r = check(ExprView::Var { name, span }, scope, expected, mode);
            let none = Map::<Seq<char>, Span>::empty();
            &&& !scope.contains_key(name) ==> rejected(r, span, "unbound variable `"@ + name + "`"@)
            &&& scope.contains_key(name) ==> {
                let known = scope[name];
                r matches Ok(c) && {
                    &&& c.typed.ty == known.ty
                    &&& known.usage == Usage::Linear && mode == ConsumeMode::Borrow
                        ==> c.typed.usage == Usage::Shared
                    &&& !(known.usage == Usage::Linear && mode == ConsumeMode::Borrow)
                        ==> c.typed.usage == known.usage
                    &&& c.consumes == (if known.usage == Usage::Linear && mode
                        == ConsumeMode::Consume {
                        none.insert(name, span)
                    } else {
                        none
                    })
                    &&& c.borrows == (if known.usage == Usage::Linear && mode
                        == ConsumeMode::Borrow {
                        none.insert(name, span)
                    } else {
                        none
                    })
                }
            }
        }),
{
    lemma_check(ExprView::Var { name, span }, scope, expected, mode);
}

// -----------------------------------------------------------------------------
// Sums and sequences
// -----------------------------------------------------------------------------

/// A sum is accepted exactly if both operands are accepted as ordinary `int` in the
/// same scope and mode and consume no variable in common. It is an ordinary `int`,
/// and uses up what the operands use up; of two borrows of one variable the one of
/// the left operand counts.
pub proof fn law_a_sum_is_of_two_ordinary_ints(
    lhs: ExprView,
    rhs: ExprView,
    span: Span,
    scope: Scope,
    expected: Option<Usage>,
    mode: ConsumeMode,
)
    ensures
        ({
            let expr = ExprView::Add { lhs: Box::new(lhs), rhs: Box::new(rhs), span };
            let r = check(expr, scope, expected, mode);
            let left = check(lhs, scope, Some(Usage::Ordinary), mode);
            let right = check(rhs, scope, Some(Usage::Ordinary), mode);
            &&& r is Ok <==> {
                &&& left is Ok
                &&& right is Ok
                &&& left->Ok_0.typed.usage == Usage::Ordinary
                &&& left->Ok_0.typed.ty == TypeView::Int
                &&& right->Ok_0.typed.usage == Usage::Ordinary
                &&& right->Ok_0.typed.ty == TypeView::Int
                &&& share_nothing(left->Ok_0.consumes, right->Ok_0.consumes)
            }
            &&& r matches Ok(c) ==> {
                &&& c.typed.usage == Usage::Ordinary
                &&& c.typed.ty == TypeView::Int
                &&& adds_up(c.consumes, left->Ok_0.consumes, right->Ok_0.consumes)
                &&& adds_up(c.borrows, left->Ok_0.borrows, right->Ok_0.borrows)
            }
        }),
{
    let expr = ExprView::Add { lhs: Box::new(lhs), rhs: Box::new(rhs), span };
    lemma_check(expr, scope, expected, mode);
    if let (Ok(l), Ok(r)) = (
        check(lhs, scope, Some(Usage::Ordinary), mode),
        check(rhs, scope, Some(Usage::Ordinary), mode),
    ) {
        lemma_apart(l.consumes, r.consumes);
    }
}

/// A sequence is accepted exactly if its first expression, which is checked in Borrow
/// mode, is accepted as ordinary, its second is accepted in the mode of the whole, and
/// the second uses nothing that the first consumed. It has the type of the second. A
/// borrow in the first ends where the second consumes the variable.
pub proof fn law_a_sequence_discards_an_ordinary_value(
    first: ExprView,
    second: ExprView,
    span: Span,
    scope: Scope,
    expected: Option<Usage>,
    mode: ConsumeMode,
)
    ensures
        ({
            let expr = ExprView::Sequence {
                first: Box::new(first),
                second: Box::new(second),
                span,
            };
            let r = check(expr, scope, expected, mode);
            let one = check(first, scope, Some(Usage::Ordinary), ConsumeMode::Borrow);
            let two = check(second, scope, expected, mode);
            &&& r is Ok <==> {
                &&& one is Ok
                &&& one->Ok_0.typed.usage == Usage::Ordinary
                &&& two is Ok
                &&& share_nothing(one->Ok_0.consumes, two->Ok_0.consumes)
                &&& share_nothing(one->Ok_0.consumes, two->Ok_0.borrows)
            }
            &&& r matches Ok(c) ==> {
                &&& c.typed == two->Ok_0.typed
                &&& adds_up(c.consumes, one->Ok_0.consumes, two->Ok_0.consumes)
                &&& adds_up_without(
                    c.borrows,
                    one->Ok_0.borrows,
                    two->Ok_0.consumes.dom(),
                    two->Ok_0.borrows,
                )
            }
        }),
{
    reveal(seq_rule);
    let expr = ExprView::Sequence { first: Box::new(first), second: Box::new(second), span };
    lemma_check(expr, scope, expected, mode);
    if let (Ok(f), Ok(s)) = (
        check(first, scope, Some(Usage::Ordinary), ConsumeMode::Borrow),
        check(second, scope, expected, mode),
    ) {
        lemma_apart(f.consumes, s.consumes);
        lemma_apart(f.consumes, s.borrows);
    }
}

// -----------------------------------------------------------------------------
// Bindings
// -----------------------------------------------------------------------------

/// A linear or ordinary `let` is accepted exactly if its value is accepted with the
/// annotated usage, its body is accepted where the name is bound to that value, a
/// linear name is consumed by the body, and nothing that the value consumes is used by
/// the body. What the value borrows does not matter: such a borrow ends where the body
/// consumes the variable. The `let` has the type of its body, and what the body does
/// with the name is no concern of the surroundings.
pub proof fn law_a_let_is_accepted_if_its_parts_are(
    usage: Usage,
    name: Seq<char>,
    name_span: Span,
    value: ExprView,
    body: ExprView,
    span: Span,
    scope: Scope,
    expected: Option<Usage>,
    mode: ConsumeMode,
)
    requires
        usage != Usage::Shared,
    ensures
        ({
            let expr = ExprView::Let {
                usage,
                name,
                name_span,
                value: Box::new(value),
                body: Box::new(body),
                span,
            };
            let r = check(expr, scope, expected, mode);
            let bound = check(value, scope, Some(usage), ConsumeMode::Consume);
            let inner = check(body, scope.insert(name, bound->Ok_0.typed), expected, mode);
            let v = bound->Ok_0;
            let b = inner->Ok_0;
            &&& r is Ok <==> {
                &&& bound is Ok
                &&& v.typed.usage == usage
                &&& inner is Ok
                &&& usage == Usage::Linear ==> b.consumes.contains_key(name)
                &&& share_nothing(v.consumes, b.borrows)
                &&& share_nothing(v.consumes, b.consumes.remove(name))
            }
            &&& r matches Ok(c) ==> {
                &&& c.typed == b.typed
                &&& adds_up(c.consumes, v.consumes, b.consumes.remove(name))
                &&& adds_up_without(
                    c.borrows,
                    v.borrows,
                    b.consumes.dom(),
                    b.borrows.remove(name),
                )
            }
        }),
{
    reveal(let_rule);
    let expr = ExprView::Let {
        usage,
        name,
        name_span,
        value: Box::new(value),
        body: Box::new(body),
        span,
    };
    lemma_check(expr, scope, expected, mode);
    if let Ok(v) = check(value, scope, Some(usage), ConsumeMode::Consume) {
        if let Ok(b) = check(body, scope.insert(name, v.typed), expected, mode) {
            lemma_apart(v.consumes, b.borrows);
            lemma_apart(v.consumes, b.consumes.remove(name));
        }
    }
}

/// A shared `let` is accepted exactly if its value, which is checked in Borrow mode
/// with nothing expected, is accepted as shared, its body is accepted where the name
/// is bound to that view, and the body neither uses what the value consumes nor
/// consumes what it borrows. The borrows of the value last through the `let`.
pub proof fn law_a_shared_let_holds_its_borrows(
    name: Seq<char>,
    name_span: Span,
    value: ExprView,
    body: ExprView,
    span: Span,
    scope: Scope,
    expected: Option<Usage>,
    mode: ConsumeMode,
)
    ensures
        ({
            let expr = ExprView::Let {
                usage: Usage::Shared,
                name,
                name_span,
                value: Box::new(value),
                body: Box::new(body),
                span,
            };
            let r = check(expr, scope, expected, mode);
            let bound = check(value, scope, None, ConsumeMode::Borrow);
            let inner = check(body, scope.insert(name, bound->Ok_0.typed), expected, mode);
            let v = bound->Ok_0;
            let b = inner->Ok_0;
            &&& r is Ok <==> {
                &&& bound is Ok
                &&& v.typed.usage == Usage::Shared
                &&& inner is Ok
                &&& share_nothing(v.consumes, b.borrows)
                &&& share_nothing(v.borrows, b.consumes)
                &&& share_nothing(v.consumes, b.consumes.remove(name))
            }
            &&& r matches Ok(c) ==> {
                &&& c.typed == b.typed
                &&& adds_up(c.consumes, v.consumes, b.consumes.remove(name))
                &&& adds_up(c.borrows, v.borrows, b.borrows.remove(name))
            }
        }),
{
    reveal(let_rule);
    let expr = ExprView::Let {
        usage: Usage::Shared,
        name,
        name_span,
        value: Box::new(value),
        body: Box::new(body),
        span,
    };
    lemma_check(expr, scope, expected, mode);
    if let Ok(v) = check(value, scope, None, ConsumeMode::Borrow) {
        if let Ok(b) = check(body, scope.insert(name, v.typed), expected, mode) {
            lemma_apart(v.consumes, b.borrows);
            lemma_apart(v.borrows, b.consumes);
            lemma_apart(v.consumes, b.consumes.remove(name));
        }
    }
}

// -----------------------------------------------------------------------------
// Deconstructions
// -----------------------------------------------------------------------------

/// The names that a pattern binds.
pub open spec fn pattern_names(names: Seq<(Seq<char>, Span)>) -> Set<Seq<char>> {
    Set::new(|n: Seq<char>| exists|i: int| 0 <= i < names.len() && (#[trigger] names[i]).0 == n)
}

/// No name after the `i`-th is the same as the `i`-th.
pub open spec fn binds_last(names: Seq<(Seq<char>, Span)>, i: int) -> bool {
    forall|j: int| i < j < names.len() ==> (#[trigger] names[j]).0 != names[i].0
}

/// `inner` is `scope` with each name of a pattern bound to its field; of fields under
/// one name, the last counts.
pub open spec fn binds_each(
    inner: Scope,
    scope: Scope,
    names: Seq<(Seq<char>, Span)>,
    fields: Seq<FieldView>,
) -> bool {
    &&& forall|n: Seq<char>|
        !pattern_names(names).contains(n) ==> {
            &&& #[trigger] inner.contains_key(n) == scope.contains_key(n)
            &&& scope.contains_key(n) ==> inner[n] == scope[n]
        }
    &&& forall|i: int|
        0 <= i < names.len() ==> {
            &&& inner.contains_key((#[trigger] names[i]).0)
            &&& binds_last(names, i) ==> inner[names[i].0] == (TypedView {
                usage: fields[i].usage,
                ty: fields[i].ty,
            })
        }
}

/// Every name is bound last somewhere.
proof fn lemma_some_binds_last(names: Seq<(Seq<char>, Span)>, i: int) -> (k: int)
    requires
        0 <= i < names.len(),
    ensures
        i <= k < names.len(),
        names[k].0 == names[i].0,
        binds_last(names, k),
    decreases names.len() - i,
{
    if binds_last(names, i) {
        i
    } else {
        let j = choose|j: int| i < j < names.len() && (#[trigger] names[j]).0 == names[i].0;
        lemma_some_binds_last(names, j)
    }
}

proof fn lemma_bound_last(
    scope: Scope,
    names: Seq<(Seq<char>, Span)>,
    fields: Seq<FieldView>,
    n: nat,
    i: int,
)
    requires
        0 <= i < n <= names.len(),
        binds_last(names, i),
    ensures
        bind_fields(scope, names, fields, n).contains_key(names[i].0),
        bind_fields(scope, names, fields, n)[names[i].0] == (TypedView {
            usage: fields[i].usage,
            ty: fields[i].ty,
        }),
    decreases n,
{
    if i < n - 1 {
        assert(names[n - 1].0 != names[i].0);
        lemma_bound_last(scope, names, fields, (n - 1) as nat, i);
    }
}

proof fn lemma_binds_each(
    inner: Scope,
    scope: Scope,
    names: Seq<(Seq<char>, Span)>,
    fields: Seq<FieldView>,
)
    requires
        binds_each(inner, scope, names, fields),
    ensures
        inner == bind_fields(scope, names, fields, names.len()),
{
    let other = bind_fields(scope, names, fields, names.len());
    assert forall|n: Seq<char>| #[trigger] inner.contains_key(n) == other.contains_key(n) && (
    inner.contains_key(n) ==> inner[n] == other[n]) by {
        if pattern_names(names).contains(n) {
            let i = choose|i: int| 0 <= i < names.len() && (#[trigger] names[i]).0 == n;
            let k = lemma_some_binds_last(names, i);
            lemma_bound_last(scope, names, fields, names.len(), k);
            assert(inner.contains_key(names[k].0));
        } else {
            lemma_other_names(scope, names, fields, names.len(), n);
        }
    }
    assert(inner =~= other);
}

proof fn lemma_leaks(
    names: Seq<(Seq<char>, Span)>,
    fields: Seq<FieldView>,
    consumes: Uses,
    from: int,
)
    requires
        0 <= from <= names.len(),
    ensures
        first_leak(names, fields, consumes, from) is None <==> forall|i: int|
            from <= i < names.len() ==> !#[trigger] leaks(names, fields, consumes, i),
        first_leak(names, fields, consumes, from) matches Some(i) ==> from <= i < names.len()
            && leaks(names, fields, consumes, i) && forall|k: int|
            from <= k < i ==> !#[trigger] leaks(names, fields, consumes, k),
    decreases names.len() - from,
{
    if from < names.len() {
        lemma_leaks(names, fields, consumes, from + 1);
    }
}

/// A deconstruction, of any number of names, is accepted exactly if its value is an
/// accepted linear tuple with as many fields, its body is accepted where each name is
/// bound to its field, every linear field is consumed by the body under a name that no
/// later field takes, and the body neither uses what the value consumes nor consumes
/// what it borrows. It has the type of its body, and what the body does with the names
/// is no concern of the surroundings.
pub proof fn law_a_deconstruction_is_accepted_if_its_parts_are(
    names: Seq<(Seq<char>, Span)>,
    value: ExprView,
    body: ExprView,
    span: Span,
    scope: Scope,
    inner: Scope,
    expected: Option<Usage>,
    mode: ConsumeMode,
)
    requires
        ({
            let v = check(value, scope, Some(Usage::Linear), ConsumeMode::Consume)->Ok_0;
            binds_each(inner, scope, names, v.typed.ty->Tuple_0)
        }),
    ensures
        ({
            let expr = ExprView::TupleDestructure {
                names,
                value: Box::new(value),
                body: Box::new(body),
                span,
            };
            let r = check(expr, scope, expected, mode);
            let bound = check(value, scope, Some(Usage::Linear), ConsumeMode::Consume);
            let within = check(body, inner, expected, mode);
            let v = bound->Ok_0;
            let b = within->Ok_0;
            let fields = v.typed.ty->Tuple_0;
            let local = pattern_names(names);
            &&& r is Ok <==> {
                &&& bound is Ok
                &&& v.typed.usage == Usage::Linear
                &&& v.typed.ty is Tuple
                &&& fields.len() == names.len()
                &&& within is Ok
                &&& forall|i: int|
                    0 <= i < names.len() && (#[trigger] fields[i]).usage == Usage::Linear
                        ==> b.consumes.contains_key(names[i].0) && binds_last(names, i)
                &&& share_nothing(v.consumes, b.borrows)
                &&& share_nothing(v.borrows, b.consumes)
                &&& share_nothing(v.consumes, b.consumes.remove_keys(local))
            }
            &&& r matches Ok(c) ==> {
                &&& c.typed == b.typed
                &&& adds_up(c.consumes, v.consumes, b.consumes.remove_keys(local))
                &&& adds_up(c.borrows, v.borrows, b.borrows.remove_keys(local))
            }
        }),
{
    reveal(destructure_rule);
    let expr = ExprView::TupleDestructure {
        names,
        value: Box::new(value),
        body: Box::new(body),
        span,
    };
    lemma_check(expr, scope, expected, mode);
    assert(pattern_names(names) =~= bound_names(names));
    if let Ok(v) = check(value, scope, Some(Usage::Linear), ConsumeMode::Consume) {
        let fields = v.typed.ty->Tuple_0;
        lemma_binds_each(inner, scope, names, fields);
        if let Ok(b) = check(body, inner, expected, mode) {
            let local = pattern_names(names);
            lemma_leaks(names, fields, b.consumes, 0);
            assert forall|i: int| 0 <= i < names.len() implies #[trigger] leaks(
                names,
                fields,
                b.consumes,
                i,
            ) == (fields[i].usage == Usage::Linear && !(b.consumes.contains_key(names[i].0)
                && binds_last(names, i))) by {
                assert(bound_again(names, i) == !binds_last(names, i));
            }
            if check(expr, scope, expected, mode) is Ok {
                assert forall|i: int|
                    0 <= i < names.len() && (#[trigger] fields[i]).usage
                        == Usage::Linear implies b.consumes.contains_key(names[i].0) && binds_last(
                    names,
                    i,
                ) by {
                    assert(!leaks(names, fields, b.consumes, i));
                }
            }
            lemma_apart(v.consumes, b.borrows);
            lemma_apart(v.borrows, b.consumes);
            lemma_apart(v.consumes, b.consumes.remove_keys(local));
        }
    }
}

// -----------------------------------------------------------------------------
// Tuples and projections
// -----------------------------------------------------------------------------

/// What checking yields of the `k`-th component of a tuple. A linear tuple expects
/// nothing of its components, an ordinary one expects them ordinary.
pub open spec fn component(
    elems: Seq<ExprView>,
    k: int,
    scope: Scope,
    linear: bool,
    mode: ConsumeMode,
) -> Checked {
    check(
        elems[k],
        scope,
        if linear {
            None
        } else {
            Some(Usage::Ordinary)
        },
        mode,
    )
}

/// The first `n` components of a tuple are accepted, are values that it may hold, and
/// consume no variable in common.
pub open spec fn components_fit(
    elems: Seq<ExprView>,
    n: int,
    scope: Scope,
    linear: bool,
    mode: ConsumeMode,
) -> bool {
    &&& forall|k: int|
        0 <= k < n ==> {
            let c = #[trigger] component(elems, k, scope, linear, mode);
            &&& c is Ok
            &&& c->Ok_0.typed.usage == Usage::Ordinary || linear && c->Ok_0.typed.usage
                == Usage::Linear
        }
    &&& forall|j: int, k: int|
        0 <= j < k < n ==> share_nothing(
            (#[trigger] component(elems, j, scope, linear, mode))->Ok_0.consumes,
            (#[trigger] component(elems, k, scope, linear, mode))->Ok_0.consumes,
        )
}

/// What the first `n` components of a tuple yield together.
pub open spec fn made_of(
    c: CheckView,
    elems: Seq<ExprView>,
    n: int,
    scope: Scope,
    linear: bool,
    mode: ConsumeMode,
) -> bool {
    let part = |k: int| component(elems, k, scope, linear, mode)->Ok_0;
    &&& c.typed.usage == (if linear {
        Usage::Linear
    } else {
        Usage::Ordinary
    })
    &&& c.typed.ty is Tuple
    &&& c.typed.ty->Tuple_0.len() == n
    &&& forall|k: int|
        0 <= k < n ==> {
            let field = #[trigger] c.typed.ty->Tuple_0[k];
            &&& field.usage == part(k).typed.usage
            &&& field.ty == part(k).typed.ty
        }
    &&& forall|m: Seq<char>| #[trigger]
        c.consumes.contains_key(m) ==> exists|k: int|
            0 <= k < n && (#[trigger] component(elems, k, scope, linear, mode))->Ok_0.consumes.contains_key(m)
    &&& forall|k: int, m: Seq<char>|
        0 <= k < n && #[trigger] component(
            elems,
            k,
            scope,
            linear,
            mode,
        )->Ok_0.consumes.contains_key(m) ==> c.consumes.contains_key(m) && c.consumes[m] == part(
            k,
        ).consumes[m]
    &&& forall|m: Seq<char>| #[trigger]
        c.borrows.contains_key(m) ==> exists|k: int|
            {
                &&& 0 <= k < n
                &&& (#[trigger] component(elems, k, scope, linear, mode))->Ok_0.borrows.contains_key(m)
                &&& c.borrows[m] == part(k).borrows[m]
                &&& forall|j: int|
                    0 <= j < k ==> !(#[trigger] component(elems, j, scope, linear, mode))->Ok_0.borrows.contains_key(m)
            }
    &&& forall|k: int, m: Seq<char>|
        0 <= k < n && #[trigger] component(
            elems,
            k,
            scope,
            linear,
            mode,
        )->Ok_0.borrows.contains_key(m) ==> c.borrows.contains_key(m)
}

proof fn lemma_components_fit(
    elems: Seq<ExprView>,
    n: nat,
    scope: Scope,
    linear: bool,
    mode: ConsumeMode,
)
    requires
        n <= elems.len(),
    ensures
        ({
            let outer = if linear {
                Usage::Linear
            } else {
                Usage::Ordinary
            };
            let r = check_components(elems, n, scope, outer, mode);
            &&& r is Ok <==> components_fit(elems, n as int, scope, linear, mode)
            &&& r matches Ok(c) ==> made_of(c, elems, n as int, scope, linear, mode)
        }),
    decreases n,
{
    if n > 0 {
        let outer = if linear {
            Usage::Linear
        } else {
            Usage::Ordinary
        };
        let before = (n - 1) as nat;
        lemma_components_fit(elems, before, scope, linear, mode);
        let last = component(elems, n - 1, scope, linear, mode);
        let r = check_components(elems, n, scope, outer, mode);
        let t = check_components(elems, before, scope, outer, mode);
        if components_fit(elems, n as int, scope, linear, mode) {
            assert(last is Ok);
            assert(components_fit(elems, before as int, scope, linear, mode));
        }
        if t is Ok && last is Ok {
            let (t, c) = (t->Ok_0, last->Ok_0);
            lemma_apart(t.consumes, c.consumes);
            if share_nothing(t.consumes, c.consumes) {
                assert forall|j: int| 0 <= j < n - 1 implies share_nothing(
                    (#[trigger] component(elems, j, scope, linear, mode))->Ok_0.consumes,
                    c.consumes,
                ) by {
                    assert forall|m: Seq<char>|
                        !(#[trigger] component(
                            elems,
                            j,
                            scope,
                            linear,
                            mode,
                        )->Ok_0.consumes.contains_key(m) && #[trigger] c.consumes.contains_key(m)) by {
                        if component(elems, j, scope, linear, mode)->Ok_0.consumes.contains_key(m) {
                            assert(t.consumes.contains_key(m));
                        }
                    }
                }
            }
            if components_fit(elems, n as int, scope, linear, mode) {
                assert forall|m: Seq<char>|
                    !(#[trigger] t.consumes.contains_key(m) && #[trigger] c.consumes.contains_key(
                        m,
                    )) by {
                    if t.consumes.contains_key(m) {
                        let k = choose|k: int|
                            0 <= k < n - 1 && (#[trigger] component(elems, k, scope, linear, mode))->Ok_0.consumes.contains_key(m);
                        assert(share_nothing(
                            component(elems, k, scope, linear, mode)->Ok_0.consumes,
                            component(elems, n - 1, scope, linear, mode)->Ok_0.consumes,
                        ));
                    }
                }
            }
            if r is Ok {
                lemma_made_of(elems, n, scope, linear, mode);
            }
        }
    }
}

proof fn lemma_made_of(
    elems: Seq<ExprView>,
    n: nat,
    scope: Scope,
    linear: bool,
    mode: ConsumeMode,
)
    requires
        0 < n <= elems.len(),
        ({
            let outer = if linear {
                Usage::Linear
            } else {
                Usage::Ordinary
            };
            let t = check_components(elems, (n - 1) as nat, scope, outer, mode);
            &&& check_components(elems, n, scope, outer, mode) is Ok
            &&& t is Ok
            &&& made_of(t->Ok_0, elems, n - 1, scope, linear, mode)
        }),
    ensures
        ({
            let outer = if linear {
                Usage::Linear
            } else {
                Usage::Ordinary
            };
            made_of(
                check_components(elems, n, scope, outer, mode)->Ok_0,
                elems,
                n as int,
                scope,
                linear,
                mode,
            )
        }),
{
    let outer = if linear {
        Usage::Linear
    } else {
        Usage::Ordinary
    };
    let t = check_components(elems, (n - 1) as nat, scope, outer, mode)->Ok_0;
    let last = component(elems, n - 1, scope, linear, mode);
    assert(last is Ok);
    let l = last->Ok_0;
    let c = check_components(elems, n, scope, outer, mode)->Ok_0;
    assert(c.consumes == t.consumes.union_prefer_right(l.consumes));
    assert(c.borrows == l.borrows.union_prefer_right(t.borrows));
    lemma_apart(t.consumes, l.consumes);
    assert forall|m: Seq<char>| #[trigger] c.consumes.contains_key(m) implies exists|k: int|
        0 <= k < n && (#[trigger] component(elems, k, scope, linear, mode))->Ok_0.consumes.contains_key(m) by {
        if t.consumes.contains_key(m) {
            let k = choose|k: int|
                0 <= k < n - 1 && (#[trigger] component(elems, k, scope, linear, mode))->Ok_0.consumes.contains_key(m);
            assert(component(elems, k, scope, linear, mode)->Ok_0.consumes.contains_key(m));
        } else {
            assert(component(elems, n - 1, scope, linear, mode)->Ok_0.consumes.contains_key(m));
        }
    }
    assert forall|k: int, m: Seq<char>|
        0 <= k < n && #[trigger] component(
            elems,
            k,
            scope,
            linear,
            mode,
        )->Ok_0.consumes.contains_key(m) implies c.consumes.contains_key(m) && c.consumes[m]
        == component(elems, k, scope, linear, mode)->Ok_0.consumes[m] by {
        if k < n - 1 {
            assert(t.consumes.contains_key(m));
        }
    }
    assert forall|m: Seq<char>| #[trigger] c.borrows.contains_key(m) implies exists|k: int|
        {
            &&& 0 <= k < n
            &&& (#[trigger] component(elems, k, scope, linear, mode))->Ok_0.borrows.contains_key(m)
            &&& c.borrows[m] == component(elems, k, scope, linear, mode)->Ok_0.borrows[m]
            &&& forall|j: int|
                0 <= j < k ==> !(#[trigger] component(elems, j, scope, linear, mode))->Ok_0.borrows.contains_key(m)
        } by {
        if t.borrows.contains_key(m) {
            let k = choose|k: int|
                {
                    &&& 0 <= k < n - 1
                    &&& (#[trigger] component(elems, k, scope, linear, mode))->Ok_0.borrows.contains_key(m)
                    &&& t.borrows[m] == component(elems, k, scope, linear, mode)->Ok_0.borrows[m]
                    &&& forall|j: int|
                        0 <= j < k ==> !(#[trigger] component(elems, j, scope, linear, mode))->Ok_0.borrows.contains_key(m)
                };
            assert(component(elems, k, scope, linear, mode)->Ok_0.borrows.contains_key(m));
        } else {
            assert forall|j: int| 0 <= j < n - 1 implies !(#[trigger] component(
                elems,
                j,
                scope,
                linear,
                mode,
            ))->Ok_0.borrows.contains_key(m) by {
                if component(elems, j, scope, linear, mode)->Ok_0.borrows.contains_key(m) {
                    assert(t.borrows.contains_key(m));
                }
            }
            assert(component(elems, n - 1, scope, linear, mode)->Ok_0.borrows.contains_key(m));
        }
    }
    assert forall|k: int, m: Seq<char>|
        0 <= k < n && #[trigger] component(
            elems,
            k,
            scope,
            linear,
            mode,
        )->Ok_0.borrows.contains_key(m) implies c.borrows.contains_key(m) by {
        if k < n - 1 {
            assert(t.borrows.contains_key(m));
        }
    }
    let fields = c.typed.ty->Tuple_0;
    assert(fields == t.typed.ty->Tuple_0.push(
        FieldView { usage: l.typed.usage, ty: l.typed.ty },
    ));
    assert forall|k: int| 0 <= k < n implies {
        let field = #[trigger] fields[k];
        &&& field.usage == component(elems, k, scope, linear, mode)->Ok_0.typed.usage
        &&& field.ty == component(elems, k, scope, linear, mode)->Ok_0.typed.ty
    } by {
        if k < n - 1 {
            assert(fields[k] == t.typed.ty->Tuple_0[k]);
        }
    }
}

/// A tuple, of any number of components, is linear where a linear value is expected
/// and else ordinary. It is accepted exactly if every component is accepted, an
/// ordinary tuple holds ordinary values only, a linear one holds no shared value, and
/// no two components consume the same variable. Its fields are the components in their
/// order, and it uses up what they use up.
pub proof fn law_a_tuple_is_made_of_its_components(
    elems: Seq<ExprView>,
    span: Span,
    scope: Scope,
    expected: Option<Usage>,
    mode: ConsumeMode,
)
    ensures
        ({
            let r = check(ExprView::Tuple { elems, span }, scope, expected, mode);
            let linear = expected == Some(Usage::Linear);
            let n = elems.len() as int;
            &&& r is Ok <==> expected != Some(Usage::Shared) && components_fit(
                elems,
                n,
                scope,
                linear,
                mode,
            )
            &&& r matches Ok(c) ==> made_of(c, elems, n, scope, linear, mode)
            &&& expected == Some(Usage::Shared) ==> rejected(
                r,
                span,
                "shared tuples are produced by borrowing, not by direct construction"@,
            )
        }),
{
    lemma_check(ExprView::Tuple { elems, span }, scope, expected, mode);
    lemma_components_fit(elems, elems.len(), scope, expected == Some(Usage::Linear), mode);
}

/// A projection is accepted exactly if what it projects from is an accepted tuple that
/// is not linear and has a field of that index, counted from zero. It has the type of
/// that field. Its usage is that of the field, but a field that is not ordinary is
/// shared where the tuple is. It uses up what the tuple uses up.
pub proof fn law_a_projection_is_the_field_of_that_index(
    tuple: ExprView,
    index: usize,
    span: Span,
    scope: Scope,
    expected: Option<Usage>,
    mode: ConsumeMode,
)
    ensures
        ({
            let expr = ExprView::TupleProj { tuple: Box::new(tuple), index, span };
            let r = check(expr, scope, expected, mode);
            let whole = check(tuple, scope, None, mode);
            let t = whole->Ok_0;
            let fields = t.typed.ty->Tuple_0;
            &&& whole matches Err(e) ==> r == Checked::Err(e)
            &&& r is Ok <==> {
                &&& whole is Ok
                &&& t.typed.usage != Usage::Linear
                &&& t.typed.ty is Tuple
                &&& index < fields.len()
            }
            &&& r matches Ok(c) ==> {
                &&& c.typed.ty == fields[index as int].ty
                &&& c.typed.usage == (if t.typed.usage == Usage::Shared && fields[index as int].usage
                    != Usage::Ordinary {
                    Usage::Shared
                } else {
                    fields[index as int].usage
                })
                &&& c.consumes == t.consumes
                &&& c.borrows == t.borrows
            }
        }),
{
    lemma_check(
        ExprView::TupleProj { tuple: Box::new(tuple), index, span },
        scope,
        expected,
        mode,
    );
}

/// The projection `.i` of an accepted tuple that is written out is accepted and is what
/// the component at that place is by itself.
pub proof fn law_a_projected_component_is_the_component(
    elems: Seq<ExprView>,
    tuple_span: Span,
    index: usize,
    span: Span,
    scope: Scope,
    expected: Option<Usage>,
    mode: ConsumeMode,
)
    requires
        check(ExprView::Tuple { elems, span: tuple_span }, scope, None, mode) is Ok,
        index < elems.len(),
    ensures
        ({
            let tuple = ExprView::Tuple { elems, span: tuple_span };
            let expr = ExprView::TupleProj { tuple: Box::new(tuple), index, span };
            let alone = check(elems[index as int], scope, Some(Usage::Ordinary), mode);
            &&& alone is Ok
            &&& check(expr, scope, expected, mode) matches Ok(c) && c.typed == alone->Ok_0.typed
        }),
{
    let tuple = ExprView::Tuple { elems, span: tuple_span };
    law_a_tuple_is_made_of_its_components(elems, tuple_span, scope, None, mode);
    law_a_projection_is_the_field_of_that_index(tuple, index, span, scope, expected, mode);
    let t = check(tuple, scope, None, mode)->Ok_0;
    let field = t.typed.ty->Tuple_0[index as int];
    assert(component(elems, index as int, scope, false, mode) is Ok);
    assert(field.usage == component(elems, index as int, scope, false, mode)->Ok_0.typed.usage);
}

/// A method call, a constructor application and a `match` are rejected.
pub proof fn law_other_forms_are_not_supported(
    expr: ExprView,
    scope: Scope,
    expected: Option<Usage>,
    mode: ConsumeMode,
)
    requires
        expr is MethodCall || expr is ConstructorApp || expr is Match,
    ensures
        rejected(
            check(expr, scope, expected, mode),
            expr.span(),
            "this expression form is not supported until a later phase"@,
        ),
{
    lemma_check(expr, scope, expected, mode);
}

// -----------------------------------------------------------------------------
// Rejections
// -----------------------------------------------------------------------------

/// Where two parts share a variable, there is a first one.
proof fn lemma_first_shared(a: Uses, b: Uses) -> (n: Seq<char>)
    requires
        a.dom().finite(),
        !share_nothing(a, b),
    ensures
        first_shared(n, a, b),
{
    let common = common_names(a, b);
    let some = choose|n: Seq<char>| #[trigger] a.contains_key(n) && #[trigger] b.contains_key(n);
    assert(common.contains(some));
    lemma_first_name(common);
    let n = first_name(common);
    assert(common.contains(n));
    assert forall|m: Seq<char>| #[trigger]
        a.contains_key(m) && #[trigger] b.contains_key(m) && m != n implies name_before(n, m) by {
        assert(common.contains(m));
    }
    n
}

/// The rejection is about the first variable that two parts both consume.
pub open spec fn consumed_twice(r: Checked, a: Uses, b: Uses) -> bool {
    exists|n: Seq<char>| #[trigger]
        first_shared(n, a, b) && rejected_with(
            r,
            b[n],
            "linear variable `"@ + n + "` is consumed twice"@,
            a[n],
            "`"@ + n + "` previously consumed here"@,
        )
}

/// Merging what two parts consume fails exactly if they share a variable, and the error
/// is about the first such variable. Else it keeps all that both consume. Merging what
/// they borrow never fails, and the first borrow of a variable counts.
pub proof fn law_merging_keeps_what_both_use(a: Uses, b: Uses)
    requires
        a.dom().finite(),
    ensures
        merged_consumes(a, b) is Ok <==> share_nothing(a, b),
        merged_consumes(a, b) matches Ok(m) ==> adds_up(m, a, b),
        merged_consumes(a, b) matches Err(e) ==> consumed_twice(Checked::Err(e), a, b),
        adds_up(merged_borrows(a, b), a, b),
{
    lemma_apart(a, b);
    let typed = TypedView { usage: Usage::Ordinary, ty: TypeView::Int };
    let none = Map::<Seq<char>, Span>::empty();
    assert(none.dom().finite());
    lemma_merge_rejects(
        CheckView { typed, consumes: a, borrows: none },
        CheckView { typed, consumes: b, borrows: none },
    );
}

/// The name that a conflict is reported about is the first one that both sides have.
pub proof fn law_the_first_shared_name_is_reported(a: Uses, b: Uses, n: Seq<char>)
    requires
        first_shared(n, a, b),
    ensures
        conflict(a, b) == n,
{
    lemma_reported(a, b, n);
}

/// The usage and the type, as they are shown.
pub open spec fn shown(typed: TypedView) -> Seq<char> {
    (match typed.usage {
        Usage::Linear => "linear"@,
        Usage::Shared => "shared"@,
        Usage::Ordinary => "ordinary"@,
    }) + " "@ + type_text(typed.ty)
}

/// The usage, as it is shown.
pub open spec fn shown_usage(usage: Usage) -> Seq<char> {
    match usage {
        Usage::Linear => "linear"@,
        Usage::Shared => "shared"@,
        Usage::Ordinary => "ordinary"@,
    }
}

/// Why a sum is rejected: the first operand that is rejected or is no ordinary `int`,
/// or a variable that both consume.
pub proof fn law_why_a_sum_is_rejected(
    lhs: ExprView,
    rhs: ExprView,
    span: Span,
    scope: Scope,
    expected: Option<Usage>,
    mode: ConsumeMode,
)
    ensures
        ({
            let expr = ExprView::Add { lhs: Box::new(lhs), rhs: Box::new(rhs), span };
            let r = check(expr, scope, expected, mode);
            let left = check(lhs, scope, Some(Usage::Ordinary), mode);
            let right = check(rhs, scope, Some(Usage::Ordinary), mode);
            match (left, right) {
                (Err(e), _) => r == Checked::Err(e),
                (Ok(l), _) if l.typed.usage != Usage::Ordinary || l.typed.ty != TypeView::Int => rejected(
                    r,
                    lhs.span(),
                    "left operand of `+`"@ + " must have type `ordinary int`, found `"@ + shown(
                        l.typed,
                    ) + "`"@,
                ),
                (_, Err(e)) => r == Checked::Err(e),
                (_, Ok(o)) if o.typed.usage != Usage::Ordinary || o.typed.ty != TypeView::Int => rejected(
                    r,
                    rhs.span(),
                    "right operand of `+`"@ + " must have type `ordinary int`, found `"@ + shown(
                        o.typed,
                    ) + "`"@,
                ),
                (Ok(l), Ok(o)) => r is Err ==> consumed_twice(r, l.consumes, o.consumes),
            }
        }),
{
    let expr = ExprView::Add { lhs: Box::new(lhs), rhs: Box::new(rhs), span };
    lemma_check(expr, scope, expected, mode);
    lemma_finite(lhs, scope, Some(Usage::Ordinary), mode);
    if let (Ok(l), Ok(o)) = (
        check(lhs, scope, Some(Usage::Ordinary), mode),
        check(rhs, scope, Some(Usage::Ordinary), mode),
    ) {
        lemma_merge_rejects(l, o);
    }
}

proof fn lemma_merge_rejects(a: CheckView, b: CheckView)
    requires
        finite_uses(a),
    ensures
        merged_consumes(a.consumes, b.consumes) matches Err(e) ==> consumed_twice(
            Checked::Err(e),
            a.consumes,
            b.consumes,
        ),
{
    lemma_apart(a.consumes, b.consumes);
    if merged_consumes(a.consumes, b.consumes) is Err {
        let n = lemma_first_shared(a.consumes, b.consumes);
        lemma_reported(a.consumes, b.consumes, n);
        let e = merged_consumes(a.consumes, b.consumes)->Err_0;
        assert(e.related =~= seq![
            RelatedView {
                span: a.consumes[n],
                label: "`"@ + n + "` previously consumed here"@,
            },
        ]);
        assert(first_shared(n, a.consumes, b.consumes));
    }
}

/// Why a sequence is rejected: a part that is rejected, a first value that cannot be
/// discarded, or a variable that the first part consumes and the second uses.
pub proof fn law_why_a_sequence_is_rejected(
    first: ExprView,
    second: ExprView,
    span: Span,
    scope: Scope,
    expected: Option<Usage>,
    mode: ConsumeMode,
)
    ensures
        ({
            let expr = ExprView::Sequence {
                first: Box::new(first),
                second: Box::new(second),
                span,
            };
            let r = check(expr, scope, expected, mode);
            let one = check(first, scope, Some(Usage::Ordinary), ConsumeMode::Borrow);
            let two = check(second, scope, expected, mode);
            match (one, two) {
                (Err(e), _) => r == Checked::Err(e),
                (Ok(f), _) if f.typed.usage != Usage::Ordinary => rejected(
                    r,
                    first.span(),
                    "the first expression in a sequence `e1 ; e2` must produce an `ordinary` value; this one produces `"@
                        + shown_usage(f.typed.usage) + "` and "@ + (if f.typed.usage
                        == Usage::Linear {
                        "would silently leak (Phase 0/1 invariant)"@
                    } else {
                        "would escape its borrow scope (Phase 2 invariant)"@
                    }),
                ),
                (_, Err(e)) => r == Checked::Err(e),
                (Ok(f), Ok(s)) => r is Err ==> if !share_nothing(f.consumes, s.consumes) {
                    consumed_twice(r, f.consumes, s.consumes)
                } else {
                    exists|n: Seq<char>| #[trigger]
                        first_shared(n, f.consumes, s.borrows) && rejected_with(
                            r,
                            s.borrows[n],
                            "the right-hand side of `;` cannot borrow `"@ + n
                                + "` because it was consumed by the left-hand side"@,
                            f.consumes[n],
                            "`"@ + n + "` was consumed here"@,
                        )
                },
            }
        }),
{
    reveal(seq_rule);
    let expr = ExprView::Sequence { first: Box::new(first), second: Box::new(second), span };
    lemma_check(expr, scope, expected, mode);
    lemma_finite(first, scope, Some(Usage::Ordinary), ConsumeMode::Borrow);
    if let (Ok(f), Ok(s)) = (
        check(first, scope, Some(Usage::Ordinary), ConsumeMode::Borrow),
        check(second, scope, expected, mode),
    ) {
        lemma_merge_rejects(f, s);
        lemma_apart(f.consumes, s.consumes);
        lemma_apart(f.consumes, s.borrows);
        let r = check(expr, scope, expected, mode);
        if r is Err && f.typed.usage == Usage::Ordinary && share_nothing(f.consumes, s.consumes) {
            let n = lemma_first_shared(f.consumes, s.borrows);
            lemma_reported(f.consumes, s.borrows, n);
            assert(r->Err_0.related =~= seq![
                RelatedView { span: f.consumes[n], label: "`"@ + n + "` was consumed here"@ },
            ]);
            assert(first_shared(n, f.consumes, s.borrows));
        }
    }
}

/// Why a `let` is rejected: a part that is rejected, a value of another usage than the
/// annotation, a linear name that the body does not consume, or a variable that the
/// body may not use.
pub proof fn law_why_a_let_is_rejected(
    usage: Usage,
    name: Seq<char>,
    name_span: Span,
    value: ExprView,
    body: ExprView,
    span: Span,
    scope: Scope,
    expected: Option<Usage>,
    mode: ConsumeMode,
)
    ensures
        ({
            let expr = ExprView::Let {
                usage,
                name,
                name_span,
                value: Box::new(value),
                body: Box::new(body),
                span,
            };
            let r = check(expr, scope, expected, mode);
            let bound = if usage == Usage::Shared {
                check(value, scope, None, ConsumeMode::Borrow)
            } else {
                check(value, scope, Some(usage), ConsumeMode::Consume)
            };
            match bound {
                Err(e) => r == Checked::Err(e),
                Ok(v) => if v.typed.usage != usage {
                    rejected(
                        r,
                        value.span(),
                        "let-binding annotated `"@ + shown_usage(usage)
                            + "` but value has usage `"@ + shown_usage(v.typed.usage) + "`"@,
                    )
                } else {
                    match check(body, scope.insert(name, v.typed), expected, mode) {
                        Err(e) => r == Checked::Err(e),
                        Ok(b) => if usage == Usage::Linear && !b.consumes.contains_key(name) {
                            rejected(
                                r,
                                name_span,
                                "linear binding `"@ + name + "` is not consumed in the body"@,
                            )
                        } else {
                            r is Err ==> let_misuse(r, usage, name, v, b)
                        },
                    }
                },
            }
        }),
{
    let expr = ExprView::Let {
        usage,
        name,
        name_span,
        value: Box::new(value),
        body: Box::new(body),
        span,
    };
    lemma_check(expr, scope, expected, mode);
    let (e, m) = if usage == Usage::Shared {
        (None, ConsumeMode::Borrow)
    } else {
        (Some(usage), ConsumeMode::Consume)
    };
    lemma_finite(value, scope, e, m);
    if let Ok(v) = check(value, scope, e, m) {
        if let Ok(b) = check(body, scope.insert(name, v.typed), expected, mode) {
            if v.typed.usage == usage {
                if usage == Usage::Linear && !b.consumes.contains_key(name) {
                    reveal(let_rule);
                } else {
                    lemma_let_rejects(usage, name, name_span, v, b);
                }
            }
        }
    }
}

/// The rejection of a `let` is about the first variable that the body may not use.
pub open spec fn let_misuse(
    r: Checked,
    usage: Usage,
    name: Seq<char>,
    v: CheckView,
    b: CheckView,
) -> bool {
    if !share_nothing(v.consumes, b.borrows) {
        exists|n: Seq<char>| #[trigger]
            first_shared(n, v.consumes, b.borrows) && rejected_with(
                r,
                b.borrows[n],
                "the body of let cannot borrow `"@ + n
                    + "`: the let's value already consumed it"@,
                v.consumes[n],
                "`"@ + n + "` was consumed here"@,
            )
    } else if usage == Usage::Shared && !share_nothing(v.borrows, b.consumes) {
        exists|n: Seq<char>| #[trigger]
            first_shared(n, v.borrows, b.consumes) && rejected_with(
                r,
                b.consumes[n],
                "cannot consume `"@ + n + "` while the shared binding `"@ + name
                    + "` borrows it"@,
                v.borrows[n],
                "`"@ + n + "` is borrowed by `"@ + name + "` here"@,
            )
    } else {
        consumed_twice(r, v.consumes, b.consumes.remove(name))
    }
}

proof fn lemma_let_rejects(
    usage: Usage,
    name: Seq<char>,
    name_span: Span,
    v: CheckView,
    b: CheckView,
)
    requires
        finite_uses(v),
        usage == Usage::Linear ==> b.consumes.contains_key(name),
    ensures
        ({
            let r = let_rule(usage, name, name_span, v, b);
            r is Err ==> let_misuse(r, usage, name, v, b)
        }),
{
    reveal(let_rule);
    let r = let_rule(usage, name, name_span, v, b);
    let outer = CheckView { consumes: b.consumes.remove(name), ..b };
    lemma_apart(v.consumes, b.borrows);
    lemma_apart(v.borrows, b.consumes);
    if !share_nothing(v.consumes, b.borrows) {
        let n = lemma_first_shared(v.consumes, b.borrows);
        lemma_reported(v.consumes, b.borrows, n);
        assert(r->Err_0.related =~= seq![
            RelatedView { span: v.consumes[n], label: "`"@ + n + "` was consumed here"@ },
        ]);
        assert(first_shared(n, v.consumes, b.borrows));
    } else if usage == Usage::Shared && !share_nothing(v.borrows, b.consumes) {
        let n = lemma_first_shared(v.borrows, b.consumes);
        lemma_reported(v.borrows, b.consumes, n);
        assert(r->Err_0.related =~= seq![
            RelatedView {
                span: v.borrows[n],
                label: "`"@ + n + "` is borrowed by `"@ + name + "` here"@,
            },
        ]);
        assert(first_shared(n, v.borrows, b.consumes));
    } else {
        lemma_merge_rejects(v, outer);
    }
}

/// The ending of a noun of which there are `n`.
pub open spec fn ending(n: nat) -> Seq<char> {
    if n == 1 {
        ""@
    } else {
        "s"@
    }
}

/// Why a deconstruction is rejected: a part that is rejected, a value that is no linear
/// tuple with as many fields as there are names, the first linear field that is not
/// consumed, or a variable that the body may not use.
pub proof fn law_why_a_deconstruction_is_rejected(
    names: Seq<(Seq<char>, Span)>,
    value: ExprView,
    body: ExprView,
    span: Span,
    scope: Scope,
    inner: Scope,
    expected: Option<Usage>,
    mode: ConsumeMode,
)
    requires
        ({
            let v = check(value, scope, Some(Usage::Linear), ConsumeMode::Consume)->Ok_0;
            binds_each(inner, scope, names, v.typed.ty->Tuple_0)
        }),
    ensures
        ({
            let expr = ExprView::TupleDestructure {
                names,
                value: Box::new(value),
                body: Box::new(body),
                span,
            };
            let r = check(expr, scope, expected, mode);
            let bound = check(value, scope, Some(Usage::Linear), ConsumeMode::Consume);
            let fields = bound->Ok_0.typed.ty->Tuple_0;
            match (bound, check(body, inner, expected, mode)) {
                (Err(e), _) => r == Checked::Err(e),
                (Ok(v), _) if v.typed.usage != Usage::Linear => rejected(
                    r,
                    value.span(),
                    "deconstruction `let (...) = e in ...` requires a linear tuple, found `"@
                        + shown(v.typed) + "`"@,
                ),
                (Ok(v), _) if !(v.typed.ty is Tuple) => rejected(
                    r,
                    value.span(),
                    "deconstruction requires a tuple type, found `"@ + type_text(v.typed.ty)
                        + "`"@,
                ),
                (Ok(v), _) if fields.len() != names.len() => rejected(
                    r,
                    value.span(),
                    "deconstruction pattern has "@ + decimal(names.len()) + " name"@ + ending(
                        names.len(),
                    ) + " but value is a tuple with "@ + decimal(fields.len()) + " field"@
                        + ending(fields.len()),
                ),
                (_, Err(e)) => r == Checked::Err(e),
                (Ok(v), Ok(b)) => {
                    let held = |i: int|
                        fields[i].usage == Usage::Linear ==> b.consumes.contains_key(names[i].0)
                            && binds_last(names, i);
                    &&& forall|i: int|
                        0 <= i < names.len() && !#[trigger] held(i) && (forall|k: int|
                            0 <= k < i ==> #[trigger] held(k)) ==> rejected(
                            r,
                            names[i].1,
                            "linear field binding `"@ + names[i].0
                                + "` is not consumed in the body"@,
                        )
                    &&& r is Err && (forall|i: int| 0 <= i < names.len() ==> #[trigger] held(i))
                        ==> if !share_nothing(v.consumes, b.borrows) {
                        exists|n: Seq<char>| #[trigger]
                            first_shared(n, v.consumes, b.borrows) && rejected_with(
                                r,
                                b.borrows[n],
                                "the body of deconstruction cannot borrow `"@ + n
                                    + "`: the deconstruction's value already consumed it"@,
                                v.consumes[n],
                                "`"@ + n + "` was consumed here"@,
                            )
                    } else if !share_nothing(v.borrows, b.consumes) {
                        exists|n: Seq<char>| #[trigger]
                            first_shared(n, v.borrows, b.consumes) && rejected_with(
                                r,
                                b.consumes[n],
                                "the body cannot consume `"@ + n
                                    + "`: it is borrowed by the deconstruction's value"@,
                                v.borrows[n],
                                "`"@ + n + "` is borrowed here"@,
                            )
                    } else {
                        consumed_twice(
                            r,
                            v.consumes,
                            b.consumes.remove_keys(pattern_names(names)),
                        )
                    }
                },
            }
        }),
{
    reveal(destructure_rule);
    let expr = ExprView::TupleDestructure {
        names,
        value: Box::new(value),
        body: Box::new(body),
        span,
    };
    lemma_check(expr, scope, expected, mode);
    assert(pattern_names(names) =~= bound_names(names));
    lemma_finite(value, scope, Some(Usage::Linear), ConsumeMode::Consume);
    if let Ok(v) = check(value, scope, Some(Usage::Linear), ConsumeMode::Consume) {
        let fields = v.typed.ty->Tuple_0;
        lemma_binds_each(inner, scope, names, fields);
        if let Ok(b) = check(body, inner, expected, mode) {
            lemma_leaks(names, fields, b.consumes, 0);
            let held = |i: int|
                fields[i].usage == Usage::Linear ==> b.consumes.contains_key(names[i].0)
                    && binds_last(names, i);
            assert forall|i: int| 0 <= i < names.len() implies #[trigger] leaks(
                names,
                fields,
                b.consumes,
                i,
            ) == !held(i) by {
                assert(bound_again(names, i) == !binds_last(names, i));
            }
            assert forall|i: int|
                0 <= i < names.len() && !#[trigger] held(i) && (forall|k: int|
                    0 <= k < i ==> #[trigger] held(k)) implies first_leak(
                names,
                fields,
                b.consumes,
                0,
            ) == Some(i) by {
                assert(leaks(names, fields, b.consumes, i));
                if let Some(k) = first_leak(names, fields, b.consumes, 0) {
                    assert(leaks(names, fields, b.consumes, k));
                    if k < i {
                        assert(held(k));
                    }
                }
            }
            if forall|i: int| 0 <= i < names.len() ==> #[trigger] held(i) {
                if let Some(k) = first_leak(names, fields, b.consumes, 0) {
                    assert(held(k));
                }
                lemma_destructure_rejects(names, fields, v, b);
            }
        }
    }
}

proof fn lemma_destructure_rejects(
    names: Seq<(Seq<char>, Span)>,
    fields: Seq<FieldView>,
    v: CheckView,
    b: CheckView,
)
    requires
        finite_uses(v),
        first_leak(names, fields, b.consumes, 0) is None,
    ensures
        ({
            let r = destructure_rule(names, fields, v, b);
            r is Err ==> if !share_nothing(v.consumes, b.borrows) {
                exists|n: Seq<char>| #[trigger]
                    first_shared(n, v.consumes, b.borrows) && rejected_with(
                        r,
                        b.borrows[n],
                        "the body of deconstruction cannot borrow `"@ + n
                            + "`: the deconstruction's value already consumed it"@,
                        v.consumes[n],
                        "`"@ + n + "` was consumed here"@,
                    )
            } else if !share_nothing(v.borrows, b.consumes) {
                exists|n: Seq<char>| #[trigger]
                    first_shared(n, v.borrows, b.consumes) && rejected_with(
                        r,
                        b.consumes[n],
                        "the body cannot consume `"@ + n
                            + "`: it is borrowed by the deconstruction's value"@,
                        v.borrows[n],
                        "`"@ + n + "` is borrowed here"@,
                    )
            } else {
                consumed_twice(r, v.consumes, b.consumes.remove_keys(pattern_names(names)))
            }
        }),
{
    reveal(destructure_rule);
    assert(pattern_names(names) =~= bound_names(names));
    let r = destructure_rule(names, fields, v, b);
    let outer = CheckView { consumes: b.consumes.remove_keys(pattern_names(names)), ..b };
    lemma_apart(v.consumes, b.borrows);
    lemma_apart(v.borrows, b.consumes);
    if !share_nothing(v.consumes, b.borrows) {
        let n = lemma_first_shared(v.consumes, b.borrows);
        lemma_reported(v.consumes, b.borrows, n);
        assert(r->Err_0.related =~= seq![
            RelatedView { span: v.consumes[n], label: "`"@ + n + "` was consumed here"@ },
        ]);
        assert(first_shared(n, v.consumes, b.borrows));
    } else if !share_nothing(v.borrows, b.consumes) {
        let n = lemma_first_shared(v.borrows, b.consumes);
        lemma_reported(v.borrows, b.consumes, n);
        assert(r->Err_0.related =~= seq![
            RelatedView { span: v.borrows[n], label: "`"@ + n + "` is borrowed here"@ },
        ]);
        assert(first_shared(n, v.borrows, b.consumes));
    } else {
        lemma_merge_rejects(v, outer);
    }
}

/// Why a tuple is rejected: because of its first component that is rejected, that it may
/// not hold, or that consumes what an earlier one consumed.
pub proof fn law_why_a_tuple_is_rejected(
    elems: Seq<ExprView>,
    span: Span,
    k: int,
    scope: Scope,
    expected: Option<Usage>,
    mode: ConsumeMode,
)
    requires
        expected != Some(Usage::Shared),
        0 <= k < elems.len(),
        components_fit(elems, k, scope, expected == Some(Usage::Linear), mode),
        !components_fit(elems, k + 1, scope, expected == Some(Usage::Linear), mode),
    ensures
        ({
            let r = check(ExprView::Tuple { elems, span }, scope, expected, mode);
            let linear = expected == Some(Usage::Linear);
            match component(elems, k, scope, linear, mode) {
                Err(e) => r == Checked::Err(e),
                Ok(c) => if !linear && c.typed.usage != Usage::Ordinary {
                    rejected(
                        r,
                        elems[k].span(),
                        "an ordinary tuple may only contain ordinary values; this component has usage `"@
                            + shown_usage(c.typed.usage) + "`"@,
                    )
                } else if c.typed.usage == Usage::Shared {
                    rejected(
                        r,
                        elems[k].span(),
                        "a linear tuple may only contain linear or ordinary values; this component has usage `"@
                            + shown_usage(c.typed.usage) + "`"@,
                    )
                } else {
                    exists|before: CheckView| #[trigger]
                        made_of(before, elems, k, scope, linear, mode) && consumed_twice(
                            r,
                            before.consumes,
                            c.consumes,
                        )
                },
            }
        }),
{
    let linear = expected == Some(Usage::Linear);
    let outer = if linear {
        Usage::Linear
    } else {
        Usage::Ordinary
    };
    lemma_check(ExprView::Tuple { elems, span }, scope, expected, mode);
    lemma_components_fit(elems, k as nat, scope, linear, mode);
    lemma_components_fit(elems, (k + 1) as nat, scope, linear, mode);
    lemma_components_finite(elems, k as nat, scope, outer, mode);
    let before = check_components(elems, k as nat, scope, outer, mode)->Ok_0;
    lemma_stays_rejected(elems, (k + 1) as nat, elems.len(), scope, outer, mode);
    if let Ok(c) = component(elems, k, scope, linear, mode) {
        lemma_merge_rejects(before, c);
        assert(made_of(before, elems, k, scope, linear, mode));
    }
}

proof fn lemma_stays_rejected(
    elems: Seq<ExprView>,
    k: nat,
    n: nat,
    scope: Scope,
    outer: Usage,
    mode: ConsumeMode,
)
    requires
        k <= n <= elems.len(),
        check_components(elems, k, scope, outer, mode) is Err,
    ensures
        check_components(elems, n, scope, outer, mode) == check_components(
            elems,
            k,
            scope,
            outer,
            mode,
        ),
    decreases n - k,
{
    if k < n {
        lemma_stays_rejected(elems, k, (n - 1) as nat, scope, outer, mode);
    }
}

/// Why a projection is rejected: because what it projects from is rejected, is linear or
/// is no tuple, or because the tuple has no such field.
pub proof fn law_why_a_projection_is_rejected(
    tuple: ExprView,
    index: usize,
    span: Span,
    scope: Scope,
    expected: Option<Usage>,
    mode: ConsumeMode,
)
    ensures
        ({
            let expr = ExprView::TupleProj { tuple: Box::new(tuple), index, span };
            let r = check(expr, scope, expected, mode);
            match check(tuple, scope, None, mode) {
                Err(e) => r == Checked::Err(e),
                Ok(t) => if t.typed.usage == Usage::Linear {
                    rejected(
                        r,
                        tuple.span(),
                        "cannot project from a `linear` tuple; project from a borrowed (shared) view instead"@,
                    )
                } else {
                    match t.typed.ty {
                        TypeView::Tuple(fields) => index >= fields.len() ==> rejected(
                            r,
                            span,
                            "tuple index "@ + decimal(index as nat)
                                + " out of bounds (tuple has "@ + decimal(fields.len())
                                + " field"@ + ending(fields.len()) + ")"@,
                        ),
                        other => rejected(
                            r,
                            tuple.span(),
                            "cannot project field `."@ + decimal(index as nat)
                                + "` from non-tuple type `"@ + type_text(other) + "`"@,
                        ),
                    }
                },
            }
        }),
{
    lemma_check(
        ExprView::TupleProj { tuple: Box::new(tuple), index, span },
        scope,
        expected,
        mode,
    );
}

} // verus!
