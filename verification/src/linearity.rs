//! What the typing rules guarantee.
//!
//! The laws here hold of every expression that [`check`] accepts: which
//! variables it can use up, that a linear variable is consumed exactly once,
//! that what one part of a sequence or binding consumes is not used by the part
//! that follows, and what the types of values can be. A borrow counts as a use
//! where it goes on record, and [`law_borrows_are_kept_unless_rebound`] says where
//! it does not.

use crate::ast::{ExprView, FieldView, Span, TypeView, Usage};
use crate::typeck::ConsumeMode;
use crate::typing::{
    bind_fields, bound_again, bound_names, built_usage, check, check_components, component_expected,
    deconstructed, destructure_rule, first_leak, leaks, lemma_check, let_rule, seq_rule,
    value_expected, value_mode, CheckView, Checked, Scope, TypedView, Uses,
};
use vstd::prelude::*;

verus! {

// -----------------------------------------------------------------------------
// Only linear variables in scope are used up
// -----------------------------------------------------------------------------

/// `name` is a linear variable in `scope`.
pub open spec fn is_linear(scope: Scope, name: Seq<char>) -> bool {
    scope.contains_key(name) && scope[name].usage == Usage::Linear
}

/// Every name in `uses` is a linear variable in `scope`.
pub open spec fn only_linear(uses: Uses, scope: Scope) -> bool {
    forall|n: Seq<char>| #[trigger] uses.contains_key(n) ==> is_linear(scope, n)
}

/// A pattern leaves the variables that it does not bind as they are.
pub proof fn lemma_other_names(
    scope: Scope,
    names: Seq<(Seq<char>, Span)>,
    fields: Seq<FieldView>,
    n: nat,
    name: Seq<char>,
)
    requires
        n <= names.len(),
        !bound_names(names).contains(name),
    ensures
        bind_fields(scope, names, fields, n).contains_key(name) == scope.contains_key(name),
        scope.contains_key(name) ==> bind_fields(scope, names, fields, n)[name] == scope[name],
    decreases n,
{
    if n > 0 {
        assert(names[n - 1].0 != name);
        lemma_other_names(scope, names, fields, (n - 1) as nat, name);
    }
}

/// What `c` consumes and borrows are linear variables in `scope`.
spec fn uses_only_linear(c: CheckView, scope: Scope) -> bool {
    only_linear(c.consumes, scope) && only_linear(c.borrows, scope)
}

proof fn lemma_let_rule_only_linear(
    usage: Usage,
    name: Seq<char>,
    name_span: Span,
    v: CheckView,
    b: CheckView,
    scope: Scope,
)
    requires
        uses_only_linear(v, scope),
        uses_only_linear(b, scope.insert(name, v.typed)),
    ensures
        let_rule(usage, name, name_span, v, b) matches Ok(c) ==> uses_only_linear(c, scope),
{
    reveal(let_rule);
}

proof fn lemma_destructure_rule_only_linear(
    names: Seq<(Seq<char>, Span)>,
    fields: Seq<FieldView>,
    v: CheckView,
    b: CheckView,
    scope: Scope,
)
    requires
        uses_only_linear(v, scope),
        uses_only_linear(b, bind_fields(scope, names, fields, names.len())),
    ensures
        destructure_rule(names, fields, v, b) matches Ok(c) ==> uses_only_linear(c, scope),
{
    reveal(destructure_rule);
    let inner = bind_fields(scope, names, fields, names.len());
    assert forall|n: Seq<char>|
        !bound_names(names).contains(n) && is_linear(inner, n) implies is_linear(scope, n) by {
        lemma_other_names(scope, names, fields, names.len(), n);
    }
}

proof fn lemma_seq_rule_only_linear(f: CheckView, s: CheckView, scope: Scope)
    requires
        uses_only_linear(f, scope),
        uses_only_linear(s, scope),
    ensures
        seq_rule(f, s) matches Ok(c) ==> uses_only_linear(c, scope),
{
    reveal(seq_rule);
}

/// What an accepted expression consumes and borrows are linear variables in
/// scope.
pub proof fn law_only_linear_variables_are_used_up(
    expr: ExprView,
    scope: Scope,
    expected: Option<Usage>,
    mode: ConsumeMode,
)
    ensures
        check(expr, scope, expected, mode) matches Ok(c) ==> only_linear(c.consumes, scope)
            && only_linear(c.borrows, scope),
    decreases expr, 0nat,
{
    lemma_check(expr, scope, expected, mode);
    match expr {
        ExprView::Add { lhs, rhs, .. } => {
            law_only_linear_variables_are_used_up(*lhs, scope, Some(Usage::Ordinary), mode);
            law_only_linear_variables_are_used_up(*rhs, scope, Some(Usage::Ordinary), mode);
        },
        ExprView::Sequence { first, second, .. } => {
            law_only_linear_variables_are_used_up(
                *first,
                scope,
                Some(Usage::Ordinary),
                ConsumeMode::Borrow,
            );
            law_only_linear_variables_are_used_up(*second, scope, expected, mode);
            if let (Ok(f), Ok(s)) = (
                check(*first, scope, Some(Usage::Ordinary), ConsumeMode::Borrow),
                check(*second, scope, expected, mode),
            ) {
                lemma_seq_rule_only_linear(f, s, scope);
            }
        },
        ExprView::Tuple { elems, .. } => {
            lemma_components_only_linear(
                elems,
                elems.len(),
                scope,
                built_usage(expected),
                mode,
            );
        },
        ExprView::TupleProj { tuple, .. } => {
            law_only_linear_variables_are_used_up(*tuple, scope, None, mode);
        },
        ExprView::TupleDestructure { names, value, body, .. } => {
            law_only_linear_variables_are_used_up(
                *value,
                scope,
                Some(Usage::Linear),
                ConsumeMode::Consume,
            );
            if let Ok(v) = check(*value, scope, Some(Usage::Linear), ConsumeMode::Consume) {
                if let Ok(fields) = deconstructed(names, v, value.span()) {
                    let inner = bind_fields(scope, names, fields, names.len());
                    law_only_linear_variables_are_used_up(*body, inner, expected, mode);
                    if let Ok(b) = check(*body, inner, expected, mode) {
                        lemma_destructure_rule_only_linear(names, fields, v, b, scope);
                    }
                }
            }
        },
        ExprView::Let { usage, name, name_span, value, body, .. } => {
            law_only_linear_variables_are_used_up(
                *value,
                scope,
                value_expected(usage),
                value_mode(usage),
            );
            if let Ok(v) = check(*value, scope, value_expected(usage), value_mode(usage)) {
                let inner = scope.insert(name, v.typed);
                law_only_linear_variables_are_used_up(*body, inner, expected, mode);
                if let Ok(b) = check(*body, inner, expected, mode) {
                    lemma_let_rule_only_linear(usage, name, name_span, v, b, scope);
                }
            }
        },
        _ => {},
    }
}

proof fn lemma_components_only_linear(
    elems: Seq<ExprView>,
    n: nat,
    scope: Scope,
    outer: Usage,
    mode: ConsumeMode,
)
    ensures
        check_components(elems, n, scope, outer, mode) matches Ok(c) ==> only_linear(
            c.consumes,
            scope,
        ) && only_linear(c.borrows, scope),
    decreases elems, n,
{
    if 0 < n <= elems.len() {
        lemma_components_only_linear(elems, (n - 1) as nat, scope, outer, mode);
        law_only_linear_variables_are_used_up(
            elems[n - 1],
            scope,
            component_expected(outer),
            mode,
        );
    }
}

/// A program, which is checked with nothing in scope, consumes and borrows no
/// variable of its surroundings.
pub proof fn law_a_program_uses_nothing_up(
    expr: ExprView,
    expected: Option<Usage>,
    mode: ConsumeMode,
)
    ensures
        check(expr, Map::empty(), expected, mode) matches Ok(c) ==> c.consumes == Uses::empty()
            && c.borrows == Uses::empty(),
{
    law_only_linear_variables_are_used_up(expr, Map::empty(), expected, mode);
    if let Ok(c) = check(expr, Map::empty(), expected, mode) {
        assert forall|n: Seq<char>| !c.consumes.contains_key(n) by {
            if c.consumes.contains_key(n) {
                assert(is_linear(Map::empty(), n));
            }
        }
        assert forall|n: Seq<char>| !c.borrows.contains_key(n) by {
            if c.borrows.contains_key(n) {
                assert(is_linear(Map::empty(), n));
            }
        }
        assert(c.consumes =~= Map::empty());
        assert(c.borrows =~= Map::empty());
    }
}

// -----------------------------------------------------------------------------
// Exactly once
// -----------------------------------------------------------------------------

/// How often the variable `name`, where it is free in `expr`, is looked up in the
/// mode `want` when `expr` is checked in the mode `mode`. In Consume mode a lookup
/// of a linear variable consumes it, in Borrow mode it borrows it.
pub open spec fn lookups(
    expr: ExprView,
    name: Seq<char>,
    mode: ConsumeMode,
    want: ConsumeMode,
) -> nat
    decreases expr, 0nat,
{
    match expr {
        ExprView::Var { name: found, .. } => if found == name && mode == want {
            1
        } else {
            0
        },
        ExprView::Add { lhs, rhs, .. } => lookups(*lhs, name, mode, want) + lookups(
            *rhs,
            name,
            mode,
            want,
        ),
        ExprView::Sequence { first, second, .. } => lookups(
            *first,
            name,
            ConsumeMode::Borrow,
            want,
        ) + lookups(*second, name, mode, want),
        ExprView::Tuple { elems, .. } => component_lookups(elems, elems.len(), name, mode, want),
        ExprView::TupleProj { tuple, .. } => lookups(*tuple, name, mode, want),
        ExprView::TupleDestructure { names, value, body, .. } => lookups(
            *value,
            name,
            ConsumeMode::Consume,
            want,
        ) + if bound_names(names).contains(name) {
            0
        } else {
            lookups(*body, name, mode, want)
        },
        ExprView::Let { usage, name: bound, value, body, .. } => lookups(
            *value,
            name,
            value_mode(usage),
            want,
        ) + if bound == name {
            0
        } else {
            lookups(*body, name, mode, want)
        },
        _ => 0,
    }
}

/// The lookups in the first `n` of `elems`.
pub open spec fn component_lookups(
    elems: Seq<ExprView>,
    n: nat,
    name: Seq<char>,
    mode: ConsumeMode,
    want: ConsumeMode,
) -> nat
    decreases elems, n,
{
    if n == 0 || n > elems.len() {
        0
    } else {
        component_lookups(elems, (n - 1) as nat, name, mode, want) + lookups(
            elems[n - 1],
            name,
            mode,
            want,
        )
    }
}

/// How often the variable `name`, where it is free in `expr`, is borrowed with the
/// borrow going on record. The borrows in the value of a linear `let` that binds
/// `name` anew do not: the body consumes the new variable, and a borrow under its
/// name, though of the old one, ends with that.
pub open spec fn kept_borrows(expr: ExprView, name: Seq<char>, mode: ConsumeMode) -> nat
    decreases expr, 0nat,
{
    match expr {
        ExprView::Var { name: found, .. } => if found == name && mode == ConsumeMode::Borrow {
            1
        } else {
            0
        },
        ExprView::Add { lhs, rhs, .. } => kept_borrows(*lhs, name, mode) + kept_borrows(
            *rhs,
            name,
            mode,
        ),
        ExprView::Sequence { first, second, .. } => kept_borrows(*first, name, ConsumeMode::Borrow)
            + kept_borrows(*second, name, mode),
        ExprView::Tuple { elems, .. } => component_kept_borrows(elems, elems.len(), name, mode),
        ExprView::TupleProj { tuple, .. } => kept_borrows(*tuple, name, mode),
        ExprView::TupleDestructure { names, value, body, .. } => kept_borrows(
            *value,
            name,
            ConsumeMode::Consume,
        ) + if bound_names(names).contains(name) {
            0
        } else {
            kept_borrows(*body, name, mode)
        },
        ExprView::Let { usage, name: bound, value, body, .. } => if bound == name {
            if usage == Usage::Linear {
                0
            } else {
                kept_borrows(*value, name, value_mode(usage))
            }
        } else {
            kept_borrows(*value, name, value_mode(usage)) + kept_borrows(*body, name, mode)
        },
        _ => 0,
    }
}

/// The borrows that the first `n` of `elems` put on record.
pub open spec fn component_kept_borrows(
    elems: Seq<ExprView>,
    n: nat,
    name: Seq<char>,
    mode: ConsumeMode,
) -> nat
    decreases elems, n,
{
    if n == 0 || n > elems.len() {
        0
    } else {
        component_kept_borrows(elems, (n - 1) as nat, name, mode) + kept_borrows(
            elems[n - 1],
            name,
            mode,
        )
    }
}

/// `name` is consumed in `expr`, or borrowed with the borrow going on record (see
/// [`kept_borrows`]).
pub open spec fn uses(expr: ExprView, name: Seq<char>, mode: ConsumeMode) -> bool {
    lookups(expr, name, mode, ConsumeMode::Consume) > 0 || kept_borrows(expr, name, mode) > 0
}

/// `name` is consumed or borrowed in `expr`.
pub open spec fn looked_up(expr: ExprView, name: Seq<char>, mode: ConsumeMode) -> bool {
    lookups(expr, name, mode, ConsumeMode::Consume) > 0 || lookups(
        expr,
        name,
        mode,
        ConsumeMode::Borrow,
    ) > 0
}

/// Somewhere in `expr`, where `name` is free, a linear `let` whose value borrows
/// `name` binds that name anew.
pub open spec fn rebinds_borrowed(expr: ExprView, name: Seq<char>) -> bool
    decreases expr, 0nat,
{
    match expr {
        ExprView::Add { lhs, rhs, .. } => rebinds_borrowed(*lhs, name) || rebinds_borrowed(
            *rhs,
            name,
        ),
        ExprView::Sequence { first, second, .. } => rebinds_borrowed(*first, name)
            || rebinds_borrowed(*second, name),
        ExprView::Tuple { elems, .. } => component_rebinds_borrowed(elems, elems.len(), name),
        ExprView::TupleProj { tuple, .. } => rebinds_borrowed(*tuple, name),
        ExprView::TupleDestructure { names, value, body, .. } => rebinds_borrowed(*value, name) || (
        !bound_names(names).contains(name) && rebinds_borrowed(*body, name)),
        ExprView::Let { usage, name: bound, value, body, .. } => rebinds_borrowed(*value, name)
            || if bound == name {
            usage == Usage::Linear && lookups(
                *value,
                name,
                ConsumeMode::Consume,
                ConsumeMode::Borrow,
            ) > 0
        } else {
            rebinds_borrowed(*body, name)
        },
        _ => false,
    }
}

/// One of the first `n` of `elems` binds `name` anew where it is borrowed.
pub open spec fn component_rebinds_borrowed(elems: Seq<ExprView>, n: nat, name: Seq<char>) -> bool
    decreases elems, n,
{
    0 < n <= elems.len() && (component_rebinds_borrowed(elems, (n - 1) as nat, name)
        || rebinds_borrowed(elems[n - 1], name))
}

/// All borrows of a variable go on record, except exactly where a linear `let` binds
/// its name anew and the value of that `let` borrows it.
pub proof fn law_borrows_are_kept_unless_rebound(
    expr: ExprView,
    name: Seq<char>,
    mode: ConsumeMode,
)
    ensures
        kept_borrows(expr, name, mode) <= lookups(expr, name, mode, ConsumeMode::Borrow),
        kept_borrows(expr, name, mode) == lookups(expr, name, mode, ConsumeMode::Borrow)
            <==> !rebinds_borrowed(expr, name),
        !rebinds_borrowed(expr, name) ==> uses(expr, name, mode) == looked_up(expr, name, mode),
    decreases expr, 0nat,
{
    match expr {
        ExprView::Add { lhs, rhs, .. } => {
            law_borrows_are_kept_unless_rebound(*lhs, name, mode);
            law_borrows_are_kept_unless_rebound(*rhs, name, mode);
        },
        ExprView::Sequence { first, second, .. } => {
            law_borrows_are_kept_unless_rebound(*first, name, ConsumeMode::Borrow);
            law_borrows_are_kept_unless_rebound(*second, name, mode);
        },
        ExprView::Tuple { elems, .. } => {
            lemma_component_borrows_are_kept(elems, elems.len(), name, mode);
        },
        ExprView::TupleProj { tuple, .. } => {
            law_borrows_are_kept_unless_rebound(*tuple, name, mode);
        },
        ExprView::TupleDestructure { value, body, .. } => {
            law_borrows_are_kept_unless_rebound(*value, name, ConsumeMode::Consume);
            law_borrows_are_kept_unless_rebound(*body, name, mode);
        },
        ExprView::Let { usage, value, body, .. } => {
            law_borrows_are_kept_unless_rebound(*value, name, value_mode(usage));
            law_borrows_are_kept_unless_rebound(*body, name, mode);
        },
        _ => {},
    }
}

proof fn lemma_component_borrows_are_kept(
    elems: Seq<ExprView>,
    n: nat,
    name: Seq<char>,
    mode: ConsumeMode,
)
    ensures
        component_kept_borrows(elems, n, name, mode) <= component_lookups(
            elems,
            n,
            name,
            mode,
            ConsumeMode::Borrow,
        ),
        component_kept_borrows(elems, n, name, mode) == component_lookups(
            elems,
            n,
            name,
            mode,
            ConsumeMode::Borrow,
        ) <==> !component_rebinds_borrowed(elems, n, name),
    decreases elems, n,
{
    if 0 < n <= elems.len() {
        lemma_component_borrows_are_kept(elems, (n - 1) as nat, name, mode);
        law_borrows_are_kept_unless_rebound(elems[n - 1], name, mode);
    }
}

/// `c` accounts for `consuming` lookups that consume `name` and `borrowing` kept
/// borrows of it: consumed at most once, and on record then and only
/// then; on record as borrowed only if borrowed; and borrowed only if on record as
/// borrowed or consumed.
spec fn accounts_for(c: CheckView, name: Seq<char>, consuming: nat, borrowing: nat) -> bool {
    &&& consuming == (if c.consumes.contains_key(name) {
        1nat
    } else {
        0nat
    })
    &&& c.borrows.contains_key(name) ==> borrowing > 0
    &&& borrowing > 0 ==> c.borrows.contains_key(name) || c.consumes.contains_key(name)
}

/// The lookups of `name` in `expr` that consume it, and the kept borrows.
spec fn account(expr: ExprView, name: Seq<char>, mode: ConsumeMode) -> (nat, nat) {
    (
        lookups(expr, name, mode, ConsumeMode::Consume),
        kept_borrows(expr, name, mode),
    )
}

proof fn lemma_let_rule_accounts(
    usage: Usage,
    bound: Seq<char>,
    bound_span: Span,
    v: CheckView,
    b: CheckView,
    name: Seq<char>,
    value: (nat, nat),
    body: (nat, nat),
)
    requires
        accounts_for(v, name, value.0, value.1),
        bound != name ==> accounts_for(b, name, body.0, body.1),
        bound == name && b.consumes.contains_key(name) ==> usage == Usage::Linear,
    ensures
        let_rule(usage, bound, bound_span, v, b) matches Ok(c) ==> if bound == name {
            accounts_for(
                c,
                name,
                value.0,
                if usage == Usage::Linear {
                    0
                } else {
                    value.1
                },
            )
        } else {
            accounts_for(c, name, value.0 + body.0, value.1 + body.1)
        },
{
    reveal(let_rule);
}

proof fn lemma_destructure_rule_accounts(
    names: Seq<(Seq<char>, Span)>,
    fields: Seq<FieldView>,
    v: CheckView,
    b: CheckView,
    name: Seq<char>,
    value: (nat, nat),
    body: (nat, nat),
)
    requires
        accounts_for(v, name, value.0, value.1),
        !bound_names(names).contains(name) ==> accounts_for(b, name, body.0, body.1),
    ensures
        destructure_rule(names, fields, v, b) matches Ok(c) ==> if bound_names(names).contains(
            name,
        ) {
            accounts_for(c, name, value.0, value.1)
        } else {
            accounts_for(c, name, value.0 + body.0, value.1 + body.1)
        },
{
    reveal(destructure_rule);
}

proof fn lemma_seq_rule_accounts(
    f: CheckView,
    s: CheckView,
    name: Seq<char>,
    first: (nat, nat),
    second: (nat, nat),
)
    requires
        accounts_for(f, name, first.0, first.1),
        accounts_for(s, name, second.0, second.1),
    ensures
        seq_rule(f, s) matches Ok(c) ==> accounts_for(
            c,
            name,
            first.0 + second.0,
            first.1 + second.1,
        ),
{
    reveal(seq_rule);
}

proof fn lemma_account(
    expr: ExprView,
    scope: Scope,
    expected: Option<Usage>,
    mode: ConsumeMode,
    name: Seq<char>,
)
    requires
        is_linear(scope, name),
    ensures
        check(expr, scope, expected, mode) matches Ok(c) ==> accounts_for(
            c,
            name,
            lookups(expr, name, mode, ConsumeMode::Consume),
            kept_borrows(expr, name, mode),
        ),
    decreases expr, 0nat,
{
    lemma_check(expr, scope, expected, mode);
    match expr {
        ExprView::Add { lhs, rhs, .. } => {
            lemma_account(
                *lhs,
                scope,
                Some(Usage::Ordinary),
                mode,
                name,
            );
            lemma_account(
                *rhs,
                scope,
                Some(Usage::Ordinary),
                mode,
                name,
            );
        },
        ExprView::Sequence { first, second, .. } => {
            lemma_account(
                *first,
                scope,
                Some(Usage::Ordinary),
                ConsumeMode::Borrow,
                name,
            );
            lemma_account(*second, scope, expected, mode, name);
            if let (Ok(f), Ok(s)) = (
                check(*first, scope, Some(Usage::Ordinary), ConsumeMode::Borrow),
                check(*second, scope, expected, mode),
            ) {
                lemma_seq_rule_accounts(
                    f,
                    s,
                    name,
                    account(*first, name, ConsumeMode::Borrow),
                    account(*second, name, mode),
                );
            }
        },
        ExprView::Tuple { elems, .. } => {
            lemma_components_account(elems, elems.len(), scope, built_usage(expected), mode, name);
        },
        ExprView::TupleProj { tuple, .. } => {
            lemma_account(*tuple, scope, None, mode, name);
        },
        ExprView::TupleDestructure { names, value, body, .. } => {
            lemma_account(
                *value,
                scope,
                Some(Usage::Linear),
                ConsumeMode::Consume,
                name,
            );
            if let Ok(v) = check(*value, scope, Some(Usage::Linear), ConsumeMode::Consume) {
                if let Ok(fields) = deconstructed(names, v, value.span()) {
                    let inner = bind_fields(scope, names, fields, names.len());
                    if !bound_names(names).contains(name) {
                        lemma_other_names(scope, names, fields, names.len(), name);
                        lemma_account(*body, inner, expected, mode, name);
                    }
                    if let Ok(b) = check(*body, inner, expected, mode) {
                        lemma_destructure_rule_accounts(
                            names,
                            fields,
                            v,
                            b,
                            name,
                            account(*value, name, ConsumeMode::Consume),
                            account(*body, name, mode),
                        );
                    }
                }
            }
        },
        ExprView::Let { usage, name: bound, name_span, value, body, .. } => {
            lemma_account(
                *value,
                scope,
                value_expected(usage),
                value_mode(usage),
                name,
            );
            if let Ok(v) = check(*value, scope, value_expected(usage), value_mode(usage)) {
                let inner = scope.insert(bound, v.typed);
                if bound != name {
                    lemma_account(*body, inner, expected, mode, name);
                } else {
                    law_only_linear_variables_are_used_up(*body, inner, expected, mode);
                }
                if let Ok(b) = check(*body, inner, expected, mode) {
                    if v.typed.usage == usage {
                        assert(b.consumes.contains_key(bound) && bound == name ==> is_linear(
                            inner,
                            name,
                        ));
                        lemma_let_rule_accounts(
                            usage,
                            bound,
                            name_span,
                            v,
                            b,
                            name,
                            account(*value, name, value_mode(usage)),
                            account(*body, name, mode),
                        );
                    }
                }
            }
        },
        _ => {},
    }
}

proof fn lemma_components_account(
    elems: Seq<ExprView>,
    n: nat,
    scope: Scope,
    outer: Usage,
    mode: ConsumeMode,
    name: Seq<char>,
)
    requires
        is_linear(scope, name),
    ensures
        check_components(elems, n, scope, outer, mode) matches Ok(c) ==> accounts_for(
            c,
            name,
            component_lookups(elems, n, name, mode, ConsumeMode::Consume),
            component_kept_borrows(elems, n, name, mode),
        ),
    decreases elems, n,
{
    if 0 < n <= elems.len() {
        lemma_components_account(elems, (n - 1) as nat, scope, outer, mode, name);
        lemma_account(
            elems[n - 1],
            scope,
            component_expected(outer),
            mode,
            name,
        );
    }
}

/// An accepted expression consumes a linear variable at most once, and the
/// variable is on record as consumed exactly if it is consumed.
pub proof fn law_a_linear_variable_is_consumed_at_most_once(
    expr: ExprView,
    scope: Scope,
    expected: Option<Usage>,
    mode: ConsumeMode,
    name: Seq<char>,
)
    requires
        is_linear(scope, name),
    ensures
        check(expr, scope, expected, mode) matches Ok(c) ==> {
            &&& lookups(expr, name, mode, ConsumeMode::Consume) <= 1
            &&& c.consumes.contains_key(name) <==> lookups(expr, name, mode, ConsumeMode::Consume)
                == 1
        },
{
    lemma_account(expr, scope, expected, mode, name);
}

// -----------------------------------------------------------------------------
// The discipline that an accepted expression keeps at every place
// -----------------------------------------------------------------------------

/// What the expression `earlier` consumes, the expression `later` does not use;
/// `hidden` are the names that `later` does not see.
pub open spec fn not_used_again(
    earlier: ExprView,
    earlier_mode: ConsumeMode,
    later: ExprView,
    later_mode: ConsumeMode,
    scope: Scope,
    hidden: Set<Seq<char>>,
) -> bool {
    forall|n: Seq<char>| #[trigger]
        is_linear(scope, n) && !hidden.contains(n) && lookups(
            earlier,
            n,
            earlier_mode,
            ConsumeMode::Consume,
        ) > 0 ==> !uses(later, n, later_mode)
}

/// What the expression `held` borrows, the expression `body` does not consume;
/// `hidden` are the names that `body` does not see.
pub open spec fn not_consumed_while_borrowed(
    held: ExprView,
    held_mode: ConsumeMode,
    body: ExprView,
    body_mode: ConsumeMode,
    scope: Scope,
    hidden: Set<Seq<char>>,
) -> bool {
    forall|n: Seq<char>| #[trigger]
        is_linear(scope, n) && !hidden.contains(n) && kept_borrows(held, n, held_mode) > 0
            ==> lookups(body, n, body_mode, ConsumeMode::Consume) == 0
}

/// `expr` and all its parts treat linear variables as they should:
///
/// - a linear binding is consumed exactly once in its scope, and no pattern hides
///   it by binding its name again;
/// - what the first expression of a sequence, or the value of a `let` or of a
///   deconstruction consumes, is not used by what follows;
/// - what the value of a shared `let` or of a deconstruction borrows is not
///   consumed by the body.
///
/// Borrows are those that go on record; [`law_borrows_are_kept_unless_rebound`] says
/// which do not.
pub open spec fn disciplined(
    expr: ExprView,
    scope: Scope,
    expected: Option<Usage>,
    mode: ConsumeMode,
) -> bool
    decreases expr, 0nat,
{
    match expr {
        ExprView::Add { lhs, rhs, .. } => {
            &&& disciplined(*lhs, scope, Some(Usage::Ordinary), mode)
            &&& disciplined(*rhs, scope, Some(Usage::Ordinary), mode)
        },
        ExprView::Sequence { first, second, .. } => {
            &&& disciplined(*first, scope, Some(Usage::Ordinary), ConsumeMode::Borrow)
            &&& disciplined(*second, scope, expected, mode)
            &&& not_used_again(*first, ConsumeMode::Borrow, *second, mode, scope, Set::empty())
        },
        ExprView::Tuple { elems, .. } => components_disciplined(
            elems,
            elems.len(),
            scope,
            built_usage(expected),
            mode,
        ),
        ExprView::TupleProj { tuple, .. } => disciplined(*tuple, scope, None, mode),
        ExprView::TupleDestructure { names, value, body, .. } => {
            let v = check(*value, scope, Some(Usage::Linear), ConsumeMode::Consume)->Ok_0;
            let fields = v.typed.ty->Tuple_0;
            let inner = bind_fields(scope, names, fields, names.len());
            &&& disciplined(*value, scope, Some(Usage::Linear), ConsumeMode::Consume)
            &&& disciplined(*body, inner, expected, mode)
            &&& forall|i: int|
                0 <= i < names.len() && fields[i].usage == Usage::Linear ==> {
                    &&& lookups(*body, (#[trigger] names[i]).0, mode, ConsumeMode::Consume) == 1
                    &&& !bound_again(names, i)
                }
            &&& not_used_again(
                *value,
                ConsumeMode::Consume,
                *body,
                mode,
                scope,
                bound_names(names),
            )
            &&& not_consumed_while_borrowed(
                *value,
                ConsumeMode::Consume,
                *body,
                mode,
                scope,
                bound_names(names),
            )
        },
        ExprView::Let { usage, name, value, body, .. } => {
            let v = check(*value, scope, value_expected(usage), value_mode(usage))->Ok_0;
            &&& disciplined(*value, scope, value_expected(usage), value_mode(usage))
            &&& disciplined(*body, scope.insert(name, v.typed), expected, mode)
            &&& usage == Usage::Linear ==> lookups(*body, name, mode, ConsumeMode::Consume) == 1
            &&& not_used_again(
                *value,
                value_mode(usage),
                *body,
                mode,
                scope,
                Set::empty().insert(name),
            )
            &&& usage == Usage::Shared ==> not_consumed_while_borrowed(
                *value,
                ConsumeMode::Borrow,
                *body,
                mode,
                scope,
                Set::empty().insert(name),
            )
        },
        _ => true,
    }
}

/// The first `n` of `elems`, as components of a tuple of usage `outer`, and all
/// their parts treat linear variables as they should.
pub open spec fn components_disciplined(
    elems: Seq<ExprView>,
    n: nat,
    scope: Scope,
    outer: Usage,
    mode: ConsumeMode,
) -> bool
    decreases elems, n,
{
    0 < n <= elems.len() ==> {
        &&& components_disciplined(elems, (n - 1) as nat, scope, outer, mode)
        &&& disciplined(elems[n - 1], scope, component_expected(outer), mode)
    }
}

/// No name leaks where there is no first one that leaks.
proof fn lemma_no_leak(
    names: Seq<(Seq<char>, Span)>,
    fields: Seq<FieldView>,
    consumes: Uses,
    from: int,
    i: int,
)
    requires
        0 <= from <= i < names.len(),
        first_leak(names, fields, consumes, from) is None,
    ensures
        !leaks(names, fields, consumes, i),
    decreases i - from,
{
    if from < i {
        lemma_no_leak(names, fields, consumes, from + 1, i);
    }
}

/// A name has the field that its last binding in the pattern gives it.
proof fn lemma_last_binding(
    scope: Scope,
    names: Seq<(Seq<char>, Span)>,
    fields: Seq<FieldView>,
    n: nat,
    i: int,
)
    requires
        0 <= i < n <= names.len(),
        forall|j: int| i < j < n ==> (#[trigger] names[j]).0 != names[i].0,
    ensures
        bind_fields(scope, names, fields, n).contains_key(names[i].0),
        bind_fields(scope, names, fields, n)[names[i].0] == (TypedView {
            usage: fields[i].usage,
            ty: fields[i].ty,
        }),
    decreases n,
{
    if i < n - 1 {
        lemma_last_binding(scope, names, fields, (n - 1) as nat, i);
    }
}

proof fn lemma_destructure_disciplined(
    names: Seq<(Seq<char>, Span)>,
    value: ExprView,
    body: ExprView,
    span: Span,
    scope: Scope,
    expected: Option<Usage>,
    mode: ConsumeMode,
)
    requires
        ({
            let expr = ExprView::TupleDestructure {
                names,
                value: Box::new(value),
                body: Box::new(body),
                span,
            };
            check(expr, scope, expected, mode) is Ok
        }),
        disciplined(value, scope, Some(Usage::Linear), ConsumeMode::Consume),
        ({
            let v = check(value, scope, Some(Usage::Linear), ConsumeMode::Consume)->Ok_0;
            let inner = bind_fields(scope, names, v.typed.ty->Tuple_0, names.len());
            disciplined(body, inner, expected, mode)
        }),
    ensures
        disciplined(
            ExprView::TupleDestructure {
                names,
                value: Box::new(value),
                body: Box::new(body),
                span,
            },
            scope,
            expected,
            mode,
        ),
{
    reveal(destructure_rule);
    let expr = ExprView::TupleDestructure {
        names,
        value: Box::new(value),
        body: Box::new(body),
        span,
    };
    lemma_check(expr, scope, expected, mode);
    let v = check(value, scope, Some(Usage::Linear), ConsumeMode::Consume)->Ok_0;
    let fields = v.typed.ty->Tuple_0;
    let inner = bind_fields(scope, names, fields, names.len());
    let b = check(body, inner, expected, mode)->Ok_0;
    assert forall|i: int|
        0 <= i < names.len() && fields[i].usage == Usage::Linear implies lookups(
        body,
        (#[trigger] names[i]).0,
        mode,
        ConsumeMode::Consume,
    ) == 1 && !bound_again(names, i) by {
        lemma_no_leak(names, fields, b.consumes, 0, i);
        lemma_last_binding(scope, names, fields, names.len(), i);
        lemma_account(body, inner, expected, mode, names[i].0);
    }
    assert forall|n: Seq<char>| #[trigger]
        is_linear(scope, n) && !bound_names(names).contains(n) implies accounts_for(
        v,
        n,
        lookups(value, n, ConsumeMode::Consume, ConsumeMode::Consume),
        kept_borrows(value, n, ConsumeMode::Consume),
    ) && accounts_for(
        b,
        n,
        lookups(body, n, mode, ConsumeMode::Consume),
        kept_borrows(body, n, mode),
    ) by {
        lemma_account(value, scope, Some(Usage::Linear), ConsumeMode::Consume, n);
        lemma_other_names(scope, names, fields, names.len(), n);
        lemma_account(body, inner, expected, mode, n);
    }
}

proof fn lemma_let_disciplined(
    usage: Usage,
    name: Seq<char>,
    name_span: Span,
    value: ExprView,
    body: ExprView,
    span: Span,
    scope: Scope,
    expected: Option<Usage>,
    mode: ConsumeMode,
)
    requires
        ({
            let expr = ExprView::Let {
                usage,
                name,
                name_span,
                value: Box::new(value),
                body: Box::new(body),
                span,
            };
            check(expr, scope, expected, mode) is Ok
        }),
        disciplined(value, scope, value_expected(usage), value_mode(usage)),
        ({
            let v = check(value, scope, value_expected(usage), value_mode(usage))->Ok_0;
            disciplined(body, scope.insert(name, v.typed), expected, mode)
        }),
    ensures
        disciplined(
            ExprView::Let {
                usage,
                name,
                name_span,
                value: Box::new(value),
                body: Box::new(body),
                span,
            },
            scope,
            expected,
            mode,
        ),
{
    reveal(let_rule);
    let expr = ExprView::Let {
        usage,
        name,
        name_span,
        value: Box::new(value),
        body: Box::new(body),
        span,
    };
    lemma_check(expr, scope, expected, mode);
    let v = check(value, scope, value_expected(usage), value_mode(usage))->Ok_0;
    let inner = scope.insert(name, v.typed);
    let b = check(body, inner, expected, mode)->Ok_0;
    if usage == Usage::Linear {
        lemma_account(body, inner, expected, mode, name);
    }
    assert forall|n: Seq<char>| #[trigger] is_linear(scope, n) && n != name implies accounts_for(
        v,
        n,
        lookups(value, n, value_mode(usage), ConsumeMode::Consume),
        kept_borrows(value, n, value_mode(usage)),
    ) && accounts_for(
        b,
        n,
        lookups(body, n, mode, ConsumeMode::Consume),
        kept_borrows(body, n, mode),
    ) by {
        lemma_account(value, scope, value_expected(usage), value_mode(usage), n);
        lemma_account(body, inner, expected, mode, n);
    }
}

/// An accepted expression treats linear variables as it should, itself and in
/// all its parts: see [`disciplined`].
pub proof fn law_accepted_expressions_are_disciplined(
    expr: ExprView,
    scope: Scope,
    expected: Option<Usage>,
    mode: ConsumeMode,
)
    requires
        check(expr, scope, expected, mode) is Ok,
    ensures
        disciplined(expr, scope, expected, mode),
    decreases expr, 0nat,
{
    reveal(seq_rule);
    reveal(let_rule);
    reveal(destructure_rule);
    lemma_check(expr, scope, expected, mode);
    match expr {
        ExprView::Add { lhs, rhs, .. } => {
            law_accepted_expressions_are_disciplined(*lhs, scope, Some(Usage::Ordinary), mode);
            law_accepted_expressions_are_disciplined(*rhs, scope, Some(Usage::Ordinary), mode);
        },
        ExprView::Sequence { first, second, .. } => {
            law_accepted_expressions_are_disciplined(
                *first,
                scope,
                Some(Usage::Ordinary),
                ConsumeMode::Borrow,
            );
            law_accepted_expressions_are_disciplined(*second, scope, expected, mode);
            assert forall|n: Seq<char>| #[trigger]
                is_linear(scope, n) && lookups(
                    *first,
                    n,
                    ConsumeMode::Borrow,
                    ConsumeMode::Consume,
                ) > 0 implies !uses(*second, n, mode) by {
                lemma_account(*first, scope, Some(Usage::Ordinary), ConsumeMode::Borrow, n);
                lemma_account(*second, scope, expected, mode, n);
            }
        },
        ExprView::Tuple { elems, .. } => {
            lemma_components_disciplined(elems, elems.len(), scope, built_usage(expected), mode);
        },
        ExprView::TupleProj { tuple, .. } => {
            law_accepted_expressions_are_disciplined(*tuple, scope, None, mode);
        },
        ExprView::TupleDestructure { names, value, body, span } => {
            law_accepted_expressions_are_disciplined(
                *value,
                scope,
                Some(Usage::Linear),
                ConsumeMode::Consume,
            );
            let v = check(*value, scope, Some(Usage::Linear), ConsumeMode::Consume)->Ok_0;
            let inner = bind_fields(scope, names, v.typed.ty->Tuple_0, names.len());
            law_accepted_expressions_are_disciplined(*body, inner, expected, mode);
            lemma_destructure_disciplined(names, *value, *body, span, scope, expected, mode);
        },
        ExprView::Let { usage, name, name_span, value, body, span } => {
            law_accepted_expressions_are_disciplined(
                *value,
                scope,
                value_expected(usage),
                value_mode(usage),
            );
            let v = check(*value, scope, value_expected(usage), value_mode(usage))->Ok_0;
            law_accepted_expressions_are_disciplined(
                *body,
                scope.insert(name, v.typed),
                expected,
                mode,
            );
            lemma_let_disciplined(
                usage,
                name,
                name_span,
                *value,
                *body,
                span,
                scope,
                expected,
                mode,
            );
        },
        _ => {},
    }
}

proof fn lemma_components_disciplined(
    elems: Seq<ExprView>,
    n: nat,
    scope: Scope,
    outer: Usage,
    mode: ConsumeMode,
)
    requires
        check_components(elems, n, scope, outer, mode) is Ok,
    ensures
        components_disciplined(elems, n, scope, outer, mode),
    decreases elems, n,
{
    if 0 < n <= elems.len() {
        lemma_components_disciplined(elems, (n - 1) as nat, scope, outer, mode);
        law_accepted_expressions_are_disciplined(
            elems[n - 1],
            scope,
            component_expected(outer),
            mode,
        );
    }
}

// -----------------------------------------------------------------------------
// Types
// -----------------------------------------------------------------------------

/// A value of usage `usage` can have the type `ty`: no field of a tuple is
/// shared, and an ordinary tuple, which can be duplicated and discarded, has
/// ordinary fields only. The same holds of the values in the fields.
pub open spec fn sound_type(usage: Usage, ty: TypeView) -> bool
    decreases ty,
{
    match ty {
        TypeView::Tuple(fields) => forall|i: int|
            0 <= i < fields.len() ==> {
                let field = #[trigger] fields[i];
                &&& field.usage != Usage::Shared
                &&& usage == Usage::Ordinary ==> field.usage == Usage::Ordinary
                &&& sound_type(field.usage, field.ty)
            },
        _ => true,
    }
}

/// Every variable in scope has a type that a value of its usage can have.
pub open spec fn sound_scope(scope: Scope) -> bool {
    forall|n: Seq<char>| #[trigger]
        scope.contains_key(n) ==> sound_type(scope[n].usage, scope[n].ty)
}

/// A view of a value may have every type that the value may have.
proof fn lemma_shared_view_sound(usage: Usage, ty: TypeView)
    requires
        sound_type(usage, ty),
    ensures
        sound_type(Usage::Shared, ty),
{
    match ty {
        TypeView::Tuple(fields) => {
            assert forall|i: int| 0 <= i < fields.len() implies (#[trigger] fields[i]).usage
                != Usage::Shared && sound_type(fields[i].usage, fields[i].ty) by {}
        },
        _ => {},
    }
}

pub proof fn lemma_sound_binding(
    scope: Scope,
    names: Seq<(Seq<char>, Span)>,
    fields: Seq<FieldView>,
    n: nat,
)
    requires
        sound_scope(scope),
        n <= fields.len(),
        forall|i: int|
            0 <= i < fields.len() ==> sound_type((#[trigger] fields[i]).usage, fields[i].ty),
    ensures
        sound_scope(bind_fields(scope, names, fields, n)),
    decreases n,
{
    if n > 0 {
        lemma_sound_binding(scope, names, fields, (n - 1) as nat);
        assert(sound_type(fields[n - 1].usage, fields[n - 1].ty));
    }
}

/// Sequences, `let` forms and deconstructions have the type of their last part.
pub proof fn lemma_seq_type(f: CheckView, s: CheckView)
    ensures
        seq_rule(f, s) matches Ok(c) ==> c.typed == s.typed,
{
    reveal(seq_rule);
}

pub proof fn lemma_let_type(
    usage: Usage,
    name: Seq<char>,
    name_span: Span,
    v: CheckView,
    b: CheckView,
)
    ensures
        let_rule(usage, name, name_span, v, b) matches Ok(c) ==> c.typed == b.typed,
{
    reveal(let_rule);
}

pub proof fn lemma_destructure_type(
    names: Seq<(Seq<char>, Span)>,
    fields: Seq<FieldView>,
    v: CheckView,
    b: CheckView,
)
    ensures
        destructure_rule(names, fields, v, b) matches Ok(c) ==> c.typed == b.typed,
{
    reveal(destructure_rule);
}

/// An accepted expression has a sound type: no tuple in it holds a shared value,
/// and an ordinary value holds ordinary values only.
pub proof fn law_accepted_expressions_have_sound_types(
    expr: ExprView,
    scope: Scope,
    expected: Option<Usage>,
    mode: ConsumeMode,
)
    requires
        sound_scope(scope),
    ensures
        check(expr, scope, expected, mode) matches Ok(c) ==> sound_type(c.typed.usage, c.typed.ty),
    decreases expr, 0nat,
{
    lemma_check(expr, scope, expected, mode);
    match expr {
        ExprView::Var { name, .. } => {
            if scope.contains_key(name) {
                lemma_shared_view_sound(scope[name].usage, scope[name].ty);
            }
        },
        ExprView::Sequence { first, second, .. } => {
            law_accepted_expressions_have_sound_types(*second, scope, expected, mode);
            if let (Ok(f), Ok(s)) = (
                check(*first, scope, Some(Usage::Ordinary), ConsumeMode::Borrow),
                check(*second, scope, expected, mode),
            ) {
                lemma_seq_type(f, s);
            }
        },
        ExprView::Tuple { elems, .. } => {
            lemma_components_sound(elems, elems.len(), scope, built_usage(expected), mode);
        },
        ExprView::TupleProj { tuple, index, .. } => {
            law_accepted_expressions_have_sound_types(*tuple, scope, None, mode);
            if let Ok(t) = check(*tuple, scope, None, mode) {
                let fields = t.typed.ty->Tuple_0;
                if t.typed.ty is Tuple && index < fields.len() {
                    let field = fields[index as int];
                    lemma_shared_view_sound(field.usage, field.ty);
                }
            }
        },
        ExprView::TupleDestructure { names, value, body, .. } => {
            law_accepted_expressions_have_sound_types(
                *value,
                scope,
                Some(Usage::Linear),
                ConsumeMode::Consume,
            );
            if let Ok(v) = check(*value, scope, Some(Usage::Linear), ConsumeMode::Consume) {
                if let Ok(fields) = deconstructed(names, v, value.span()) {
                    lemma_sound_binding(scope, names, fields, names.len());
                    let inner = bind_fields(scope, names, fields, names.len());
                    law_accepted_expressions_have_sound_types(*body, inner, expected, mode);
                    if let Ok(b) = check(*body, inner, expected, mode) {
                        lemma_destructure_type(names, fields, v, b);
                    }
                }
            }
        },
        ExprView::Let { usage, name, name_span, value, body, .. } => {
            law_accepted_expressions_have_sound_types(
                *value,
                scope,
                value_expected(usage),
                value_mode(usage),
            );
            if let Ok(v) = check(*value, scope, value_expected(usage), value_mode(usage)) {
                let inner = scope.insert(name, v.typed);
                law_accepted_expressions_have_sound_types(*body, inner, expected, mode);
                if let Ok(b) = check(*body, inner, expected, mode) {
                    lemma_let_type(usage, name, name_span, v, b);
                }
            }
        },
        _ => {},
    }
}

pub proof fn lemma_components_sound(
    elems: Seq<ExprView>,
    n: nat,
    scope: Scope,
    outer: Usage,
    mode: ConsumeMode,
)
    requires
        sound_scope(scope),
    ensures
        check_components(elems, n, scope, outer, mode) matches Ok(c) ==> c.typed.ty is Tuple
            && c.typed.usage == outer && sound_type(c.typed.usage, c.typed.ty),
    decreases elems, n,
{
    if 0 < n <= elems.len() {
        lemma_components_sound(elems, (n - 1) as nat, scope, outer, mode);
        law_accepted_expressions_have_sound_types(
            elems[n - 1],
            scope,
            component_expected(outer),
            mode,
        );
    }
}

/// In Borrow mode, where no linear value is wanted, an accepted expression has no
/// linear value: linear variables are seen as shared views there.
pub proof fn law_borrowing_yields_no_linear_value(
    expr: ExprView,
    scope: Scope,
    expected: Option<Usage>,
)
    requires
        sound_scope(scope),
        expected != Some(Usage::Linear),
    ensures
        check(expr, scope, expected, ConsumeMode::Borrow) matches Ok(c) ==> c.typed.usage
            != Usage::Linear,
    decreases expr,
{
    let mode = ConsumeMode::Borrow;
    lemma_check(expr, scope, expected, mode);
    match expr {
        ExprView::Sequence { first, second, .. } => {
            law_borrowing_yields_no_linear_value(*second, scope, expected);
            if let (Ok(f), Ok(s)) = (
                check(*first, scope, Some(Usage::Ordinary), mode),
                check(*second, scope, expected, mode),
            ) {
                lemma_seq_type(f, s);
            }
        },
        ExprView::Tuple { elems, .. } => {
            lemma_components_sound(elems, elems.len(), scope, built_usage(expected), mode);
        },
        ExprView::TupleProj { tuple, index, .. } => {
            law_accepted_expressions_have_sound_types(*tuple, scope, None, mode);
        },
        ExprView::TupleDestructure { names, value, body, .. } => {
            law_accepted_expressions_have_sound_types(
                *value,
                scope,
                Some(Usage::Linear),
                ConsumeMode::Consume,
            );
            if let Ok(v) = check(*value, scope, Some(Usage::Linear), ConsumeMode::Consume) {
                if let Ok(fields) = deconstructed(names, v, value.span()) {
                    let inner = bind_fields(scope, names, fields, names.len());
                    lemma_sound_binding(scope, names, fields, names.len());
                    law_borrowing_yields_no_linear_value(*body, inner, expected);
                    if let Ok(b) = check(*body, inner, expected, mode) {
                        lemma_destructure_type(names, fields, v, b);
                    }
                }
            }
        },
        ExprView::Let { usage, name, name_span, value, body, .. } => {
            law_accepted_expressions_have_sound_types(
                *value,
                scope,
                value_expected(usage),
                value_mode(usage),
            );
            if let Ok(v) = check(*value, scope, value_expected(usage), value_mode(usage)) {
                let inner = scope.insert(name, v.typed);
                law_borrowing_yields_no_linear_value(*body, inner, expected);
                if let Ok(b) = check(*body, inner, expected, mode) {
                    lemma_let_type(usage, name, name_span, v, b);
                }
            }
        },
        _ => {},
    }
}

/// `expr` projects, at a place that its mode reaches, from an expression that
/// Borrow mode accepts and Consume mode does not accept alike: from the view of a
/// linear variable. (The first part of a sequence and the value of a binding have
/// a mode of their own.)
pub open spec fn projects_view(expr: ExprView, scope: Scope, expected: Option<Usage>) -> bool
    decreases expr, 0nat,
{
    match expr {
        ExprView::Add { lhs, rhs, .. } => projects_view(*lhs, scope, Some(Usage::Ordinary))
            || projects_view(*rhs, scope, Some(Usage::Ordinary)),
        ExprView::Sequence { second, .. } => projects_view(*second, scope, expected),
        ExprView::Tuple { elems, .. } => component_projects_view(
            elems,
            elems.len(),
            scope,
            built_usage(expected),
        ),
        ExprView::TupleProj { tuple, .. } => {
            let borrowed = check(*tuple, scope, None, ConsumeMode::Borrow);
            borrowed is Ok && borrowed != check(*tuple, scope, None, ConsumeMode::Consume)
        },
        ExprView::TupleDestructure { names, value, body, .. } => {
            let v = check(*value, scope, Some(Usage::Linear), ConsumeMode::Consume)->Ok_0;
            let inner = bind_fields(scope, names, v.typed.ty->Tuple_0, names.len());
            projects_view(*body, inner, expected)
        },
        ExprView::Let { usage, name, value, body, .. } => {
            let v = check(*value, scope, value_expected(usage), value_mode(usage))->Ok_0;
            projects_view(*body, scope.insert(name, v.typed), expected)
        },
        _ => false,
    }
}

/// One of the first `n` of `elems`, as components of a tuple of usage `outer`,
/// projects from a view.
pub open spec fn component_projects_view(
    elems: Seq<ExprView>,
    n: nat,
    scope: Scope,
    outer: Usage,
) -> bool
    decreases elems, n,
{
    0 < n <= elems.len() && (component_projects_view(elems, (n - 1) as nat, scope, outer)
        || projects_view(elems[n - 1], scope, component_expected(outer)))
}

/// What Consume mode accepts as no linear value, Borrow mode accepts alike, and no
/// view is projected from.
proof fn lemma_consumed_is_borrowed(expr: ExprView, scope: Scope, expected: Option<Usage>)
    ensures
        check(expr, scope, expected, ConsumeMode::Consume) matches Ok(c) ==> c.typed.usage
            != Usage::Linear ==> {
            &&& check(expr, scope, expected, ConsumeMode::Borrow) == Checked::Ok(c)
            &&& !projects_view(expr, scope, expected)
        },
    decreases expr, 0nat,
{
    lemma_check(expr, scope, expected, ConsumeMode::Consume);
    lemma_check(expr, scope, expected, ConsumeMode::Borrow);
    match expr {
        ExprView::Add { lhs, rhs, .. } => {
            lemma_consumed_is_borrowed(*lhs, scope, Some(Usage::Ordinary));
            lemma_consumed_is_borrowed(*rhs, scope, Some(Usage::Ordinary));
        },
        ExprView::Sequence { first, second, .. } => {
            lemma_consumed_is_borrowed(*second, scope, expected);
            if let (Ok(f), Ok(s)) = (
                check(*first, scope, Some(Usage::Ordinary), ConsumeMode::Borrow),
                check(*second, scope, expected, ConsumeMode::Consume),
            ) {
                lemma_seq_type(f, s);
            }
        },
        ExprView::Tuple { elems, .. } => {
            lemma_consumed_components_are_borrowed(elems, elems.len(), scope);
            lemma_component_usage(
                elems,
                elems.len(),
                scope,
                built_usage(expected),
                ConsumeMode::Consume,
            );
        },
        ExprView::TupleProj { tuple, .. } => {
            lemma_consumed_is_borrowed(*tuple, scope, None);
        },
        ExprView::TupleDestructure { names, value, body, .. } => {
            if let Ok(v) = check(*value, scope, Some(Usage::Linear), ConsumeMode::Consume) {
                if let Ok(fields) = deconstructed(names, v, value.span()) {
                    let inner = bind_fields(scope, names, fields, names.len());
                    lemma_consumed_is_borrowed(*body, inner, expected);
                    if let Ok(b) = check(*body, inner, expected, ConsumeMode::Consume) {
                        lemma_destructure_type(names, fields, v, b);
                    }
                }
            }
        },
        ExprView::Let { usage, name, name_span, value, body, .. } => {
            if let Ok(v) = check(*value, scope, value_expected(usage), value_mode(usage)) {
                let inner = scope.insert(name, v.typed);
                lemma_consumed_is_borrowed(*body, inner, expected);
                if let Ok(b) = check(*body, inner, expected, ConsumeMode::Consume) {
                    lemma_let_type(usage, name, name_span, v, b);
                }
            }
        },
        _ => {},
    }
}

proof fn lemma_component_usage(
    elems: Seq<ExprView>,
    n: nat,
    scope: Scope,
    outer: Usage,
    mode: ConsumeMode,
)
    ensures
        check_components(elems, n, scope, outer, mode) matches Ok(c) ==> c.typed.usage == outer,
    decreases n,
{
    if 0 < n <= elems.len() {
        lemma_component_usage(elems, (n - 1) as nat, scope, outer, mode);
    }
}

proof fn lemma_consumed_components_are_borrowed(elems: Seq<ExprView>, n: nat, scope: Scope)
    ensures
        check_components(elems, n, scope, Usage::Ordinary, ConsumeMode::Consume) matches Ok(c)
            ==> {
            &&& check_components(elems, n, scope, Usage::Ordinary, ConsumeMode::Borrow)
                == Checked::Ok(c)
            &&& !component_projects_view(elems, n, scope, Usage::Ordinary)
        },
    decreases elems, n,
{
    if 0 < n <= elems.len() {
        let outer = Usage::Ordinary;
        lemma_consumed_components_are_borrowed(elems, (n - 1) as nat, scope);
        lemma_consumed_is_borrowed(elems[n - 1], scope, component_expected(outer));
        lemma_component_usage(elems, (n - 1) as nat, scope, outer, ConsumeMode::Consume);
    }
}

/// What Borrow mode accepts as an ordinary value, Consume mode accepts alike, unless
/// a view is projected from.
proof fn lemma_borrowed_is_consumed(expr: ExprView, scope: Scope, expected: Option<Usage>)
    ensures
        check(expr, scope, expected, ConsumeMode::Borrow) matches Ok(c) ==> (c.typed.usage
            == Usage::Ordinary && !projects_view(expr, scope, expected) ==> check(
            expr,
            scope,
            expected,
            ConsumeMode::Consume,
        ) == Checked::Ok(c)),
    decreases expr, 0nat,
{
    lemma_check(expr, scope, expected, ConsumeMode::Consume);
    lemma_check(expr, scope, expected, ConsumeMode::Borrow);
    match expr {
        ExprView::Add { lhs, rhs, .. } => {
            lemma_borrowed_is_consumed(*lhs, scope, Some(Usage::Ordinary));
            lemma_borrowed_is_consumed(*rhs, scope, Some(Usage::Ordinary));
        },
        ExprView::Sequence { first, second, .. } => {
            lemma_borrowed_is_consumed(*second, scope, expected);
            if let (Ok(f), Ok(s)) = (
                check(*first, scope, Some(Usage::Ordinary), ConsumeMode::Borrow),
                check(*second, scope, expected, ConsumeMode::Borrow),
            ) {
                lemma_seq_type(f, s);
            }
        },
        ExprView::Tuple { elems, .. } => {
            lemma_borrowed_components_are_consumed(elems, elems.len(), scope);
            lemma_component_usage(
                elems,
                elems.len(),
                scope,
                built_usage(expected),
                ConsumeMode::Borrow,
            );
        },
        ExprView::TupleDestructure { names, value, body, .. } => {
            if let Ok(v) = check(*value, scope, Some(Usage::Linear), ConsumeMode::Consume) {
                if let Ok(fields) = deconstructed(names, v, value.span()) {
                    let inner = bind_fields(scope, names, fields, names.len());
                    lemma_borrowed_is_consumed(*body, inner, expected);
                    if let Ok(b) = check(*body, inner, expected, ConsumeMode::Borrow) {
                        lemma_destructure_type(names, fields, v, b);
                    }
                }
            }
        },
        ExprView::Let { usage, name, name_span, value, body, .. } => {
            if let Ok(v) = check(*value, scope, value_expected(usage), value_mode(usage)) {
                let inner = scope.insert(name, v.typed);
                lemma_borrowed_is_consumed(*body, inner, expected);
                if let Ok(b) = check(*body, inner, expected, ConsumeMode::Borrow) {
                    lemma_let_type(usage, name, name_span, v, b);
                }
            }
        },
        _ => {},
    }
}

proof fn lemma_borrowed_components_are_consumed(elems: Seq<ExprView>, n: nat, scope: Scope)
    ensures
        check_components(elems, n, scope, Usage::Ordinary, ConsumeMode::Borrow) matches Ok(c)
            ==> (!component_projects_view(elems, n, scope, Usage::Ordinary) ==> check_components(
            elems,
            n,
            scope,
            Usage::Ordinary,
            ConsumeMode::Consume,
        ) == Checked::Ok(c)),
    decreases elems, n,
{
    if 0 < n <= elems.len() {
        let outer = Usage::Ordinary;
        lemma_borrowed_components_are_consumed(elems, (n - 1) as nat, scope);
        lemma_borrowed_is_consumed(elems[n - 1], scope, component_expected(outer));
        lemma_component_usage(elems, (n - 1) as nat, scope, outer, ConsumeMode::Borrow);
    }
}

/// An ordinary tuple that is accepted in Consume mode is accepted in Borrow mode,
/// with the same findings. One that is accepted in Borrow mode is accepted alike in
/// Consume mode, except exactly where a component projects from the view of a
/// linear variable.
pub proof fn law_mode_matters_to_ordinary_tuples_for_projected_views_only(
    elems: Seq<ExprView>,
    span: Span,
    scope: Scope,
    expected: Option<Usage>,
)
    requires
        expected != Some(Usage::Linear),
    ensures
        ({
            let tuple = ExprView::Tuple { elems, span };
            let consumed = check(tuple, scope, expected, ConsumeMode::Consume);
            let borrowed = check(tuple, scope, expected, ConsumeMode::Borrow);
            &&& consumed is Ok ==> borrowed == consumed
            &&& borrowed is Ok ==> (consumed is Ok <==> !projects_view(tuple, scope, expected))
        }),
{
    let tuple = ExprView::Tuple { elems, span };
    lemma_check(tuple, scope, expected, ConsumeMode::Consume);
    lemma_check(tuple, scope, expected, ConsumeMode::Borrow);
    lemma_consumed_components_are_borrowed(elems, elems.len(), scope);
    lemma_borrowed_components_are_consumed(elems, elems.len(), scope);
}

/// A projection stands in `expr` at a place that its mode reaches.
pub open spec fn projects(expr: ExprView) -> bool
    decreases expr,
{
    match expr {
        ExprView::Add { lhs, rhs, .. } => projects(*lhs) || projects(*rhs),
        ExprView::Sequence { second, .. } => projects(*second),
        ExprView::Tuple { elems, .. } => exists|k: int|
            0 <= k < elems.len() && projects(#[trigger] elems[k]),
        ExprView::TupleProj { .. } => true,
        ExprView::TupleDestructure { body, .. } => projects(*body),
        ExprView::Let { body, .. } => projects(*body),
        _ => false,
    }
}

proof fn lemma_no_projection(expr: ExprView, scope: Scope, expected: Option<Usage>)
    requires
        !projects(expr),
    ensures
        !projects_view(expr, scope, expected),
    decreases expr, 0nat,
{
    match expr {
        ExprView::Add { lhs, rhs, .. } => {
            lemma_no_projection(*lhs, scope, Some(Usage::Ordinary));
            lemma_no_projection(*rhs, scope, Some(Usage::Ordinary));
        },
        ExprView::Sequence { second, .. } => {
            lemma_no_projection(*second, scope, expected);
        },
        ExprView::Tuple { elems, .. } => {
            lemma_no_projecting_component(elems, elems.len(), scope, built_usage(expected));
        },
        ExprView::TupleDestructure { names, value, body, .. } => {
            let v = check(*value, scope, Some(Usage::Linear), ConsumeMode::Consume)->Ok_0;
            let inner = bind_fields(scope, names, v.typed.ty->Tuple_0, names.len());
            lemma_no_projection(*body, inner, expected);
        },
        ExprView::Let { usage, name, value, body, .. } => {
            let v = check(*value, scope, value_expected(usage), value_mode(usage))->Ok_0;
            lemma_no_projection(*body, scope.insert(name, v.typed), expected);
        },
        _ => {},
    }
}

proof fn lemma_no_projecting_component(
    elems: Seq<ExprView>,
    n: nat,
    scope: Scope,
    outer: Usage,
)
    requires
        forall|k: int| 0 <= k < elems.len() ==> !projects(#[trigger] elems[k]),
    ensures
        !component_projects_view(elems, n, scope, outer),
    decreases elems, n,
{
    if 0 < n <= elems.len() {
        lemma_no_projecting_component(elems, (n - 1) as nat, scope, outer);
        lemma_no_projection(elems[n - 1], scope, component_expected(outer));
    }
}

/// The mode does not change which ordinary tuples are accepted, nor what is found,
/// where no component holds a projection that the mode reaches.
pub proof fn law_mode_does_not_matter_to_ordinary_tuples(
    elems: Seq<ExprView>,
    span: Span,
    scope: Scope,
    expected: Option<Usage>,
)
    requires
        expected != Some(Usage::Linear),
        forall|k: int| 0 <= k < elems.len() ==> !projects(#[trigger] elems[k]),
    ensures
        ({
            let tuple = ExprView::Tuple { elems, span };
            let consumed = check(tuple, scope, expected, ConsumeMode::Consume);
            let borrowed = check(tuple, scope, expected, ConsumeMode::Borrow);
            &&& consumed is Ok <==> borrowed is Ok
            &&& consumed is Ok ==> consumed == borrowed
        }),
{
    law_mode_matters_to_ordinary_tuples_for_projected_views_only(elems, span, scope, expected);
    lemma_no_projecting_component(elems, elems.len(), scope, built_usage(expected));
}

// -----------------------------------------------------------------------------
// Scopes
// -----------------------------------------------------------------------------

/// Every variable that an accepted expression looks up is in scope: a binding is
/// seen in its body only.
pub proof fn law_variables_are_in_scope(
    expr: ExprView,
    scope: Scope,
    expected: Option<Usage>,
    mode: ConsumeMode,
    name: Seq<char>,
)
    requires
        check(expr, scope, expected, mode) is Ok,
        looked_up(expr, name, mode),
    ensures
        scope.contains_key(name),
    decreases expr, 0nat,
{
    lemma_check(expr, scope, expected, mode);
    match expr {
        ExprView::Add { lhs, rhs, .. } => {
            if looked_up(*lhs, name, mode) {
                law_variables_are_in_scope(*lhs, scope, Some(Usage::Ordinary), mode, name);
            } else {
                law_variables_are_in_scope(*rhs, scope, Some(Usage::Ordinary), mode, name);
            }
        },
        ExprView::Sequence { first, second, .. } => {
            if looked_up(*first, name, ConsumeMode::Borrow) {
                law_variables_are_in_scope(
                    *first,
                    scope,
                    Some(Usage::Ordinary),
                    ConsumeMode::Borrow,
                    name,
                );
            } else {
                law_variables_are_in_scope(*second, scope, expected, mode, name);
            }
        },
        ExprView::Tuple { elems, .. } => {
            lemma_components_in_scope(
                elems,
                elems.len(),
                scope,
                built_usage(expected),
                mode,
                name,
            );
        },
        ExprView::TupleProj { tuple, .. } => {
            law_variables_are_in_scope(*tuple, scope, None, mode, name);
        },
        ExprView::TupleDestructure { names, value, body, .. } => {
            if looked_up(*value, name, ConsumeMode::Consume) {
                law_variables_are_in_scope(
                    *value,
                    scope,
                    Some(Usage::Linear),
                    ConsumeMode::Consume,
                    name,
                );
            } else {
                let v = check(*value, scope, Some(Usage::Linear), ConsumeMode::Consume)->Ok_0;
                let fields = v.typed.ty->Tuple_0;
                let inner = bind_fields(scope, names, fields, names.len());
                law_variables_are_in_scope(*body, inner, expected, mode, name);
                lemma_other_names(scope, names, fields, names.len(), name);
            }
        },
        ExprView::Let { usage, name: bound, value, body, .. } => {
            if looked_up(*value, name, value_mode(usage)) {
                law_variables_are_in_scope(
                    *value,
                    scope,
                    value_expected(usage),
                    value_mode(usage),
                    name,
                );
            } else {
                let v = check(*value, scope, value_expected(usage), value_mode(usage))->Ok_0;
                law_variables_are_in_scope(
                    *body,
                    scope.insert(bound, v.typed),
                    expected,
                    mode,
                    name,
                );
            }
        },
        _ => {},
    }
}

proof fn lemma_components_in_scope(
    elems: Seq<ExprView>,
    n: nat,
    scope: Scope,
    outer: Usage,
    mode: ConsumeMode,
    name: Seq<char>,
)
    requires
        check_components(elems, n, scope, outer, mode) is Ok,
        component_lookups(elems, n, name, mode, ConsumeMode::Consume) > 0 || component_lookups(
            elems,
            n,
            name,
            mode,
            ConsumeMode::Borrow,
        ) > 0,
    ensures
        scope.contains_key(name),
    decreases elems, n,
{
    if looked_up(elems[n - 1], name, mode) {
        law_variables_are_in_scope(elems[n - 1], scope, component_expected(outer), mode, name);
    } else {
        lemma_components_in_scope(elems, (n - 1) as nat, scope, outer, mode, name);
    }
}

} // verus!
