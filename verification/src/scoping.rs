//! What checking depends on, and what it puts on record.
//!
//! The laws here say that a variable which an expression does not mention has no
//! effect on it, that every recorded use is at a lookup of the variable, and that
//! shared values come from shared `let` forms and from borrowing only.

use crate::ast::{ExprView, FieldView, Span, TypeView, Usage};
use crate::diagnostics::{law_parsed_programs_are_well_formed, well_formed};
use crate::linearity::{
    component_lookups, law_accepted_expressions_have_sound_types, lemma_components_sound,
    lemma_destructure_type, lemma_let_type, lemma_seq_type, lemma_sound_binding, looked_up,
    sound_scope,
};
use crate::reading::read_source;
use crate::typeck::ConsumeMode;
use crate::typing::{
    bind_fields, bound_names, built_usage, check, check_components, component_expected,
    deconstructed, destructure_rule, lemma_check, let_rule, seq_rule, value_expected, value_mode,
    CheckView, Scope, TypedView,
};
use vstd::prelude::*;

verus! {

// -----------------------------------------------------------------------------
// Variables that are not looked up
// -----------------------------------------------------------------------------

/// A pattern hides what was bound to its own names, and keeps what was bound to
/// others.
proof fn lemma_bind_over(
    scope: Scope,
    names: Seq<(Seq<char>, Span)>,
    fields: Seq<FieldView>,
    n: nat,
    name: Seq<char>,
    typed: TypedView,
)
    requires
        n <= names.len(),
    ensures
        bind_fields(scope.insert(name, typed), names, fields, n) == (if exists|i: int|
            0 <= i < n && (#[trigger] names[i]).0 == name {
            bind_fields(scope, names, fields, n)
        } else {
            bind_fields(scope, names, fields, n).insert(name, typed)
        }),
    decreases n,
{
    if n > 0 {
        lemma_bind_over(scope, names, fields, (n - 1) as nat, name, typed);
        let with = bind_fields(scope.insert(name, typed), names, fields, n);
        let without = bind_fields(scope, names, fields, n);
        if exists|i: int| 0 <= i < n && (#[trigger] names[i]).0 == name {
            if names[n - 1].0 != name {
                let i = choose|i: int| 0 <= i < n && (#[trigger] names[i]).0 == name;
                assert(0 <= i < n - 1);
            }
            assert(with =~= without);
        } else {
            assert(names[n - 1].0 != name);
            assert(with =~= without.insert(name, typed));
        }
    }
}

/// A variable that an expression does not look up, whatever it is, changes neither
/// whether the expression is accepted, nor what is found or reported.
pub proof fn law_an_unused_variable_does_not_matter(
    expr: ExprView,
    scope: Scope,
    expected: Option<Usage>,
    mode: ConsumeMode,
    name: Seq<char>,
    typed: TypedView,
)
    requires
        !looked_up(expr, name, mode),
    ensures
        check(expr, scope.insert(name, typed), expected, mode) == check(
            expr,
            scope,
            expected,
            mode,
        ),
    decreases expr, 0nat,
{
    let wider = scope.insert(name, typed);
    lemma_check(expr, scope, expected, mode);
    lemma_check(expr, wider, expected, mode);
    match expr {
        ExprView::Add { lhs, rhs, .. } => {
            let ordinary = Some(Usage::Ordinary);
            law_an_unused_variable_does_not_matter(*lhs, scope, ordinary, mode, name, typed);
            law_an_unused_variable_does_not_matter(*rhs, scope, ordinary, mode, name, typed);
        },
        ExprView::Sequence { first, second, .. } => {
            law_an_unused_variable_does_not_matter(
                *first,
                scope,
                Some(Usage::Ordinary),
                ConsumeMode::Borrow,
                name,
                typed,
            );
            law_an_unused_variable_does_not_matter(*second, scope, expected, mode, name, typed);
        },
        ExprView::Tuple { elems, .. } => {
            lemma_unused_by_components(
                elems,
                elems.len(),
                scope,
                built_usage(expected),
                mode,
                name,
                typed,
            );
        },
        ExprView::TupleProj { tuple, .. } => {
            law_an_unused_variable_does_not_matter(*tuple, scope, None, mode, name, typed);
        },
        ExprView::TupleDestructure { names, value, body, .. } => {
            law_an_unused_variable_does_not_matter(
                *value,
                scope,
                Some(Usage::Linear),
                ConsumeMode::Consume,
                name,
                typed,
            );
            if let Ok(v) = check(*value, scope, Some(Usage::Linear), ConsumeMode::Consume) {
                if let Ok(fields) = deconstructed(names, v, value.span()) {
                    let inner = bind_fields(scope, names, fields, names.len());
                    lemma_bind_over(scope, names, fields, names.len(), name, typed);
                    if !bound_names(names).contains(name) {
                        law_an_unused_variable_does_not_matter(
                            *body,
                            inner,
                            expected,
                            mode,
                            name,
                            typed,
                        );
                    }
                }
            }
        },
        ExprView::Let { usage, name: bound, value, body, .. } => {
            law_an_unused_variable_does_not_matter(
                *value,
                scope,
                value_expected(usage),
                value_mode(usage),
                name,
                typed,
            );
            if let Ok(v) = check(*value, scope, value_expected(usage), value_mode(usage)) {
                let inner = scope.insert(bound, v.typed);
                if bound == name {
                    assert(wider.insert(bound, v.typed) =~= inner);
                } else {
                    assert(wider.insert(bound, v.typed) =~= inner.insert(name, typed));
                    law_an_unused_variable_does_not_matter(
                        *body,
                        inner,
                        expected,
                        mode,
                        name,
                        typed,
                    );
                }
            }
        },
        _ => {},
    }
}

proof fn lemma_unused_by_components(
    elems: Seq<ExprView>,
    n: nat,
    scope: Scope,
    outer: Usage,
    mode: ConsumeMode,
    name: Seq<char>,
    typed: TypedView,
)
    requires
        component_lookups(elems, n, name, mode, ConsumeMode::Consume) == 0,
        component_lookups(elems, n, name, mode, ConsumeMode::Borrow) == 0,
    ensures
        check_components(elems, n, scope.insert(name, typed), outer, mode) == check_components(
            elems,
            n,
            scope,
            outer,
            mode,
        ),
    decreases elems, n,
{
    if 0 < n <= elems.len() {
        lemma_unused_by_components(elems, (n - 1) as nat, scope, outer, mode, name, typed);
        law_an_unused_variable_does_not_matter(
            elems[n - 1],
            scope,
            component_expected(outer),
            mode,
            name,
            typed,
        );
    }
}

// -----------------------------------------------------------------------------
// Recorded places
// -----------------------------------------------------------------------------

/// The variable `name`, free in `expr`, stands at `span` there and is looked up in
/// the mode `want` when `expr` is checked in the mode `mode`.
pub open spec fn looked_up_at(
    expr: ExprView,
    name: Seq<char>,
    mode: ConsumeMode,
    want: ConsumeMode,
    at: Span,
) -> bool
    decreases expr, 0nat,
{
    match expr {
        ExprView::Var { name: found, span } => found == name && mode == want && span == at,
        ExprView::Add { lhs, rhs, .. } => looked_up_at(*lhs, name, mode, want, at) || looked_up_at(
            *rhs,
            name,
            mode,
            want,
            at,
        ),
        ExprView::Sequence { first, second, .. } => looked_up_at(
            *first,
            name,
            ConsumeMode::Borrow,
            want,
            at,
        ) || looked_up_at(*second, name, mode, want, at),
        ExprView::Tuple { elems, .. } => component_looked_up_at(
            elems,
            elems.len(),
            name,
            mode,
            want,
            at,
        ),
        ExprView::TupleProj { tuple, .. } => looked_up_at(*tuple, name, mode, want, at),
        ExprView::TupleDestructure { names, value, body, .. } => looked_up_at(
            *value,
            name,
            ConsumeMode::Consume,
            want,
            at,
        ) || !bound_names(names).contains(name) && looked_up_at(*body, name, mode, want, at),
        ExprView::Let { usage, name: bound, value, body, .. } => looked_up_at(
            *value,
            name,
            value_mode(usage),
            want,
            at,
        ) || bound != name && looked_up_at(*body, name, mode, want, at),
        _ => false,
    }
}

/// One of the first `n` of `elems` looks `name` up at `at`.
pub open spec fn component_looked_up_at(
    elems: Seq<ExprView>,
    n: nat,
    name: Seq<char>,
    mode: ConsumeMode,
    want: ConsumeMode,
    at: Span,
) -> bool
    decreases elems, n,
{
    0 < n <= elems.len() && (component_looked_up_at(elems, (n - 1) as nat, name, mode, want, at)
        || looked_up_at(elems[n - 1], name, mode, want, at))
}

/// What `c` has on record of `name`, `a` has, or `b` where `seen`.
spec fn from_either(c: CheckView, a: CheckView, b: CheckView, name: Seq<char>, seen: bool) -> bool {
    &&& c.consumes.contains_key(name) ==> {
        ||| a.consumes.contains_key(name) && c.consumes[name] == a.consumes[name]
        ||| seen && b.consumes.contains_key(name) && c.consumes[name] == b.consumes[name]
    }
    &&& c.borrows.contains_key(name) ==> {
        ||| a.borrows.contains_key(name) && c.borrows[name] == a.borrows[name]
        ||| seen && b.borrows.contains_key(name) && c.borrows[name] == b.borrows[name]
    }
}

/// What a `let` has on record of a name is what its value has, or its body unless
/// the name is bound.
proof fn lemma_let_places(
    usage: Usage,
    bound: Seq<char>,
    bound_span: Span,
    v: CheckView,
    b: CheckView,
    name: Seq<char>,
)
    ensures
        let_rule(usage, bound, bound_span, v, b) matches Ok(c) ==> from_either(
            c,
            v,
            b,
            name,
            bound != name,
        ),
{
    reveal(let_rule);
}

proof fn lemma_destructure_places(
    names: Seq<(Seq<char>, Span)>,
    fields: Seq<FieldView>,
    v: CheckView,
    b: CheckView,
    name: Seq<char>,
)
    ensures
        destructure_rule(names, fields, v, b) matches Ok(c) ==> from_either(
            c,
            v,
            b,
            name,
            !bound_names(names).contains(name),
        ),
{
    reveal(destructure_rule);
}

proof fn lemma_seq_places(f: CheckView, s: CheckView, name: Seq<char>)
    ensures
        seq_rule(f, s) matches Ok(c) ==> from_either(c, f, s, name, true),
{
    reveal(seq_rule);
}

/// Where an accepted expression has a variable on record as consumed, the variable
/// stands there and is consumed; and where it has one on record as borrowed, the
/// variable stands there and is borrowed.
pub proof fn law_recorded_uses_are_lookups(
    expr: ExprView,
    scope: Scope,
    expected: Option<Usage>,
    mode: ConsumeMode,
    name: Seq<char>,
)
    ensures
        check(expr, scope, expected, mode) matches Ok(c) ==> {
            &&& c.consumes.contains_key(name) ==> looked_up_at(
                expr,
                name,
                mode,
                ConsumeMode::Consume,
                c.consumes[name],
            )
            &&& c.borrows.contains_key(name) ==> looked_up_at(
                expr,
                name,
                mode,
                ConsumeMode::Borrow,
                c.borrows[name],
            )
        },
    decreases expr, 0nat,
{
    lemma_check(expr, scope, expected, mode);
    match expr {
        ExprView::Add { lhs, rhs, .. } => {
            law_recorded_uses_are_lookups(*lhs, scope, Some(Usage::Ordinary), mode, name);
            law_recorded_uses_are_lookups(*rhs, scope, Some(Usage::Ordinary), mode, name);
        },
        ExprView::Sequence { first, second, .. } => {
            let ordinary = Some(Usage::Ordinary);
            law_recorded_uses_are_lookups(*first, scope, ordinary, ConsumeMode::Borrow, name);
            law_recorded_uses_are_lookups(*second, scope, expected, mode, name);
            if let (Ok(f), Ok(s)) = (
                check(*first, scope, ordinary, ConsumeMode::Borrow),
                check(*second, scope, expected, mode),
            ) {
                lemma_seq_places(f, s, name);
            }
        },
        ExprView::Tuple { elems, .. } => {
            lemma_component_places(elems, elems.len(), scope, built_usage(expected), mode, name);
        },
        ExprView::TupleProj { tuple, .. } => {
            law_recorded_uses_are_lookups(*tuple, scope, None, mode, name);
        },
        ExprView::TupleDestructure { names, value, body, .. } => {
            let linear = Some(Usage::Linear);
            law_recorded_uses_are_lookups(*value, scope, linear, ConsumeMode::Consume, name);
            if let Ok(v) = check(*value, scope, linear, ConsumeMode::Consume) {
                if let Ok(fields) = deconstructed(names, v, value.span()) {
                    let inner = bind_fields(scope, names, fields, names.len());
                    law_recorded_uses_are_lookups(*body, inner, expected, mode, name);
                    if let Ok(b) = check(*body, inner, expected, mode) {
                        lemma_destructure_places(names, fields, v, b, name);
                    }
                }
            }
        },
        ExprView::Let { usage, name: bound, name_span, value, body, .. } => {
            law_recorded_uses_are_lookups(
                *value,
                scope,
                value_expected(usage),
                value_mode(usage),
                name,
            );
            if let Ok(v) = check(*value, scope, value_expected(usage), value_mode(usage)) {
                let inner = scope.insert(bound, v.typed);
                law_recorded_uses_are_lookups(*body, inner, expected, mode, name);
                if let Ok(b) = check(*body, inner, expected, mode) {
                    lemma_let_places(usage, bound, name_span, v, b, name);
                }
            }
        },
        _ => {},
    }
}

proof fn lemma_component_places(
    elems: Seq<ExprView>,
    n: nat,
    scope: Scope,
    outer: Usage,
    mode: ConsumeMode,
    name: Seq<char>,
)
    ensures
        check_components(elems, n, scope, outer, mode) matches Ok(c) ==> {
            &&& c.consumes.contains_key(name) ==> component_looked_up_at(
                elems,
                n,
                name,
                mode,
                ConsumeMode::Consume,
                c.consumes[name],
            )
            &&& c.borrows.contains_key(name) ==> component_looked_up_at(
                elems,
                n,
                name,
                mode,
                ConsumeMode::Borrow,
                c.borrows[name],
            )
        },
    decreases elems, n,
{
    if 0 < n <= elems.len() {
        lemma_component_places(elems, (n - 1) as nat, scope, outer, mode, name);
        law_recorded_uses_are_lookups(
            elems[n - 1],
            scope,
            component_expected(outer),
            mode,
            name,
        );
    }
}

// -----------------------------------------------------------------------------
// Shared values
// -----------------------------------------------------------------------------

/// No shared `let` stands where the value of `expr` can come from.
pub open spec fn binds_nothing_shared(expr: ExprView) -> bool
    decreases expr,
{
    match expr {
        ExprView::Sequence { second, .. } => binds_nothing_shared(*second),
        ExprView::TupleProj { tuple, .. } => binds_nothing_shared(*tuple),
        ExprView::TupleDestructure { body, .. } => binds_nothing_shared(*body),
        ExprView::Let { usage, body, .. } => usage != Usage::Shared && binds_nothing_shared(*body),
        _ => true,
    }
}

/// No variable in `scope` is shared.
pub open spec fn nothing_shared(scope: Scope) -> bool {
    forall|n: Seq<char>| #[trigger] scope.contains_key(n) ==> scope[n].usage != Usage::Shared
}

proof fn lemma_bind_nothing_shared(
    scope: Scope,
    names: Seq<(Seq<char>, Span)>,
    fields: Seq<FieldView>,
    n: nat,
)
    requires
        nothing_shared(scope),
        n <= fields.len(),
        forall|i: int| 0 <= i < fields.len() ==> (#[trigger] fields[i]).usage != Usage::Shared,
    ensures
        nothing_shared(bind_fields(scope, names, fields, n)),
    decreases n,
{
    if n > 0 {
        lemma_bind_nothing_shared(scope, names, fields, (n - 1) as nat);
        assert(fields[n - 1].usage != Usage::Shared);
    }
}

/// Where nothing in scope is shared and no shared `let` stands in the way, an
/// expression that is checked in Consume mode has no shared value.
pub proof fn law_shared_values_come_from_borrowing(
    expr: ExprView,
    scope: Scope,
    expected: Option<Usage>,
)
    requires
        sound_scope(scope),
        nothing_shared(scope),
        binds_nothing_shared(expr),
    ensures
        check(expr, scope, expected, ConsumeMode::Consume) matches Ok(c) ==> c.typed.usage
            != Usage::Shared,
    decreases expr,
{
    let mode = ConsumeMode::Consume;
    lemma_check(expr, scope, expected, mode);
    match expr {
        ExprView::Sequence { first, second, .. } => {
            law_shared_values_come_from_borrowing(*second, scope, expected);
            if let (Ok(f), Ok(s)) = (
                check(*first, scope, Some(Usage::Ordinary), ConsumeMode::Borrow),
                check(*second, scope, expected, mode),
            ) {
                lemma_seq_type(f, s);
            }
        },
        ExprView::Tuple { elems, .. } => {
            lemma_components_sound(elems, elems.len(), scope, built_usage(expected), mode);
        },
        ExprView::TupleProj { tuple, index, .. } => {
            law_shared_values_come_from_borrowing(*tuple, scope, None);
            law_accepted_expressions_have_sound_types(*tuple, scope, None, mode);
            if let Ok(t) = check(*tuple, scope, None, mode) {
                if let TypeView::Tuple(fields) = t.typed.ty {
                    if index < fields.len() {
                        assert(fields[index as int].usage != Usage::Shared);
                    }
                }
            }
        },
        ExprView::TupleDestructure { names, value, body, .. } => {
            let linear = Some(Usage::Linear);
            law_accepted_expressions_have_sound_types(*value, scope, linear, mode);
            if let Ok(v) = check(*value, scope, linear, mode) {
                if let Ok(fields) = deconstructed(names, v, value.span()) {
                    let inner = bind_fields(scope, names, fields, names.len());
                    lemma_sound_binding(scope, names, fields, names.len());
                    lemma_bind_nothing_shared(scope, names, fields, names.len());
                    law_shared_values_come_from_borrowing(*body, inner, expected);
                    if let Ok(b) = check(*body, inner, expected, mode) {
                        lemma_destructure_type(names, fields, v, b);
                    }
                }
            }
        },
        ExprView::Let { usage, name, name_span, value, body, .. } => {
            law_accepted_expressions_have_sound_types(
                *value,
                scope,
                value_expected(usage),
                value_mode(usage),
            );
            if let Ok(v) = check(*value, scope, value_expected(usage), value_mode(usage)) {
                if v.typed.usage == usage {
                    let inner = scope.insert(name, v.typed);
                    law_shared_values_come_from_borrowing(*body, inner, expected);
                    if let Ok(b) = check(*body, inner, expected, mode) {
                        lemma_let_type(usage, name, name_span, v, b);
                    }
                }
            }
        },
        _ => {},
    }
}

proof fn lemma_well_formed_binds_nothing_shared(expr: ExprView)
    requires
        well_formed(expr),
    ensures
        binds_nothing_shared(expr),
    decreases expr,
{
    match expr {
        ExprView::Sequence { second, .. } => lemma_well_formed_binds_nothing_shared(*second),
        ExprView::TupleProj { tuple, .. } => lemma_well_formed_binds_nothing_shared(*tuple),
        ExprView::TupleDestructure { body, .. } => lemma_well_formed_binds_nothing_shared(*body),
        ExprView::Let { body, .. } => lemma_well_formed_binds_nothing_shared(*body),
        _ => {},
    }
}

/// The type of an accepted program is never shared.
pub proof fn law_no_program_has_a_shared_value(src: Seq<u8>)
    requires
        src.len() <= usize::MAX,
    ensures
        read_source(src) matches Ok((expr, _)) ==> (check(
            expr,
            Map::empty(),
            None,
            ConsumeMode::Consume,
        ) matches Ok(c) ==> c.typed.usage != Usage::Shared),
{
    if let Ok((expr, span)) = read_source(src) {
        law_parsed_programs_are_well_formed(src);
        lemma_well_formed_binds_nothing_shared(expr);
        law_shared_values_come_from_borrowing(expr, Map::empty(), None);
    }
}

} // verus!
