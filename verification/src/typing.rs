//! The typing rules.
//!
//! [`check`] says, for every expression, environment, expected usage and mode,
//! which typed value the expression has, which linear variables it consumes and
//! which it borrows, or which error is reported. Each rule function takes what
//! the parts of an expression yield and gives what the expression yields.
//!
//! `consumes` and `borrows` map a variable's name to the span of the use. Their
//! merge policies differ: `consumes` requires disjointness (a name in both
//! halves is a "consumed twice" error), while `borrows` simply unions and keeps
//! the first-seen span on collision (multiple borrows of the same variable are
//! valid).

use crate::ast::{type_text, usage_text, ExprView, FieldView, Span, TypeView, Usage};
use crate::error::{and_related, plain_error, ErrorCategory, ErrorView};
use crate::names::first_name;
use crate::text::decimal;
use crate::typeck::ConsumeMode;
use vstd::prelude::*;

verus! {

// -----------------------------------------------------------------------------
// Models
// -----------------------------------------------------------------------------

/// A usage together with a type.
pub struct TypedView {
    pub usage: Usage,
    pub ty: TypeView,
}

/// Uses of variables: for each name, where it is used.
pub type Uses = Map<Seq<char>, Span>;

/// What each variable in scope is.
pub type Scope = Map<Seq<char>, TypedView>;

/// What checking an expression finds.
pub struct CheckView {
    pub typed: TypedView,
    pub consumes: Uses,
    pub borrows: Uses,
}

/// What checking yields: findings or an error.
pub type Checked = Result<CheckView, ErrorView>;

/// A typed value as it is shown in messages: its usage, then its type.
pub open spec fn typed_text(typed: TypedView) -> Seq<char> {
    usage_text(typed.usage) + " "@ + type_text(typed.ty)
}

/// An error of the type checker at `span`.
pub open spec fn type_error(span: Span, note: Seq<char>) -> ErrorView {
    plain_error(ErrorCategory::TypeError, span, note)
}

/// `ordinary int`.
pub open spec fn ordinary_int() -> TypedView {
    TypedView { usage: Usage::Ordinary, ty: TypeView::Int }
}

/// A value that uses no linear variable.
pub open spec fn unused(typed: TypedView) -> CheckView {
    CheckView { typed, consumes: Map::empty(), borrows: Map::empty() }
}

// -----------------------------------------------------------------------------
// Merging uses
// -----------------------------------------------------------------------------

/// The names that occur in both.
pub open spec fn common_names(a: Uses, b: Uses) -> Set<Seq<char>> {
    a.dom().intersect(b.dom())
}

/// The first name, in the order of names, that occurs in both.
pub open spec fn conflict(a: Uses, b: Uses) -> Seq<char> {
    first_name(common_names(a, b))
}

/// No name occurs in both.
pub open spec fn apart(a: Uses, b: Uses) -> bool {
    a.dom().disjoint(b.dom())
}

/// The consumed variables of two parts, which must not overlap. On collision,
/// the error points at the second site and names the first as related.
pub open spec fn merged_consumes(a: Uses, b: Uses) -> Result<Uses, ErrorView> {
    if apart(a, b) {
        Ok(a.union_prefer_right(b))
    } else {
        let n = conflict(a, b);
        Err(
            and_related(
                type_error(b[n], "linear variable `"@ + n + "` is consumed twice"@),
                a[n],
                "`"@ + n + "` previously consumed here"@,
            ),
        )
    }
}

/// The borrowed variables of two parts. On collision the first-seen span stays.
pub open spec fn merged_borrows(a: Uses, b: Uses) -> Uses {
    b.union_prefer_right(a)
}

/// Merging consumed variables loses none and adds none; it fails exactly if a
/// variable is consumed on both sides.
pub proof fn law_merging_consumes_keeps_every_use(a: Uses, b: Uses)
    ensures
        merged_consumes(a, b) is Ok <==> apart(a, b),
        merged_consumes(a, b) matches Ok(m) ==> {
            &&& m.dom() == a.dom().union(b.dom())
            &&& forall|n: Seq<char>| #[trigger] a.contains_key(n) ==> m[n] == a[n]
            &&& forall|n: Seq<char>| #[trigger] b.contains_key(n) ==> m[n] == b[n]
        },
{
    if let Ok(m) = merged_consumes(a, b) {
        assert(m.dom() =~= a.dom().union(b.dom()));
        assert forall|n: Seq<char>| #[trigger] a.contains_key(n) implies m[n] == a[n] by {
            assert(a.dom().contains(n));
        }
    }
}

/// Merging borrows never fails, and of two borrows of one variable the one that
/// was seen first stays.
pub proof fn law_the_first_borrow_stays(a: Uses, b: Uses)
    ensures
        merged_borrows(a, b).dom() == a.dom().union(b.dom()),
        forall|n: Seq<char>| #[trigger] a.contains_key(n) ==> merged_borrows(a, b)[n] == a[n],
        forall|n: Seq<char>| #[trigger]
            b.contains_key(n) && !a.contains_key(n) ==> merged_borrows(a, b)[n] == b[n],
{
    assert(merged_borrows(a, b).dom() =~= a.dom().union(b.dom()));
}

// -----------------------------------------------------------------------------
// Rules
// -----------------------------------------------------------------------------

/// A variable. In Consume mode a linear variable is consumed; in Borrow mode it
/// becomes a shared view and is borrowed. Other variables are not used up.
pub open spec fn var_rule(name: Seq<char>, span: Span, scope: Scope, mode: ConsumeMode) -> Checked {
    if !scope.contains_key(name) {
        Err(type_error(span, "unbound variable `"@ + name + "`"@))
    } else {
        let typed = scope[name];
        let here: Uses = Map::empty().insert(name, span);
        if typed.usage != Usage::Linear {
            Ok(unused(typed))
        } else if mode == ConsumeMode::Consume {
            Ok(CheckView { typed, consumes: here, borrows: Map::empty() })
        } else {
            Ok(
                CheckView {
                    typed: TypedView { usage: Usage::Shared, ty: typed.ty },
                    consumes: Map::empty(),
                    borrows: here,
                },
            )
        }
    }
}

/// The error about an operand that is not an `ordinary int`.
pub open spec fn not_ordinary_int(typed: TypedView, span: Span, what: Seq<char>) -> ErrorView {
    type_error(
        span,
        what + " must have type `ordinary int`, found `"@ + typed_text(typed) + "`"@,
    )
}

/// `lhs + rhs`.
pub open spec fn add_rule(l: Checked, l_span: Span, r: Checked, r_span: Span) -> Checked {
    match l {
        Err(e) => Err(e),
        Ok(l) => if l.typed != ordinary_int() {
            Err(not_ordinary_int(l.typed, l_span, "left operand of `+`"@))
        } else {
            match r {
                Err(e) => Err(e),
                Ok(r) => if r.typed != ordinary_int() {
                    Err(not_ordinary_int(r.typed, r_span, "right operand of `+`"@))
                } else {
                    match merged_consumes(l.consumes, r.consumes) {
                        Err(e) => Err(e),
                        Ok(consumes) => Ok(
                            CheckView {
                                typed: ordinary_int(),
                                consumes,
                                borrows: merged_borrows(l.borrows, r.borrows),
                            },
                        ),
                    }
                },
            }
        },
    }
}

/// Why the first expression of a sequence cannot have this usage.
pub open spec fn discard_reason(usage: Usage) -> Seq<char> {
    if usage == Usage::Linear {
        "would silently leak (Phase 0/1 invariant)"@
    } else {
        "would escape its borrow scope (Phase 2 invariant)"@
    }
}

/// The error about a first expression of a sequence whose value cannot be
/// discarded.
pub open spec fn not_discardable(usage: Usage, span: Span) -> ErrorView {
    type_error(
        span,
        "the first expression in a sequence `e1 ; e2` must produce an `ordinary` value; this one produces `"@
            + usage_text(usage) + "` and "@ + discard_reason(usage),
    )
}

/// `first ; second`, where the value of `first` is ordinary. The borrows of
/// `first` end before `second`, so `second` may consume what `first` borrowed, but
/// may not use what `first` consumed.
#[verifier::opaque]
pub open spec fn seq_rule(f: CheckView, s: CheckView) -> Checked {
    match merged_consumes(f.consumes, s.consumes) {
        Err(e) => Err(e),
        Ok(consumes) => if !apart(f.consumes, s.borrows) {
            let n = conflict(f.consumes, s.borrows);
            Err(
                and_related(
                    type_error(
                        s.borrows[n],
                        "the right-hand side of `;` cannot borrow `"@ + n
                            + "` because it was consumed by the left-hand side"@,
                    ),
                    f.consumes[n],
                    "`"@ + n + "` was consumed here"@,
                ),
            )
        } else {
            Ok(
                CheckView {
                    typed: s.typed,
                    consumes,
                    borrows: merged_borrows(f.borrows.remove_keys(s.consumes.dom()), s.borrows),
                },
            )
        },
    }
}

/// The usage of a tuple that is built where `expected` is expected, unless that
/// is `shared`.
pub open spec fn built_usage(expected: Option<Usage>) -> Usage {
    if expected == Some(Usage::Linear) {
        Usage::Linear
    } else {
        Usage::Ordinary
    }
}

/// What is expected of the components of a tuple of the given usage.
pub open spec fn component_expected(outer: Usage) -> Option<Usage> {
    if outer == Usage::Linear {
        None
    } else {
        Some(Usage::Ordinary)
    }
}

/// A tuple of usage `outer` may hold a component of usage `inner`: an ordinary
/// tuple holds ordinary values only, and no tuple holds a shared value.
pub open spec fn may_hold(outer: Usage, inner: Usage) -> bool {
    inner == Usage::Ordinary || outer == Usage::Linear && inner == Usage::Linear
}

/// The error about a component that its tuple may not hold.
pub open spec fn bad_component(outer: Usage, inner: Usage, span: Span) -> ErrorView {
    if outer == Usage::Ordinary {
        type_error(
            span,
            "an ordinary tuple may only contain ordinary values; this component has usage `"@
                + usage_text(inner) + "`"@,
        )
    } else {
        type_error(
            span,
            "a linear tuple may only contain linear or ordinary values; this component has usage `"@
                + usage_text(inner) + "`"@,
        )
    }
}

/// One more component `c`, at `span`, after the components that `t` stands for.
pub open spec fn component_rule(t: CheckView, c: Checked, span: Span) -> Checked {
    match c {
        Err(e) => Err(e),
        Ok(c) => if !may_hold(t.typed.usage, c.typed.usage) {
            Err(bad_component(t.typed.usage, c.typed.usage, span))
        } else {
            match merged_consumes(t.consumes, c.consumes) {
                Err(e) => Err(e),
                Ok(consumes) => Ok(
                    CheckView {
                        typed: TypedView {
                            usage: t.typed.usage,
                            ty: TypeView::Tuple(
                                t.typed.ty->Tuple_0.push(
                                    FieldView { usage: c.typed.usage, ty: c.typed.ty },
                                ),
                            ),
                        },
                        consumes,
                        borrows: merged_borrows(t.borrows, c.borrows),
                    },
                ),
            }
        },
    }
}

/// The usage of a field seen through a tuple: an ordinary tuple keeps each
/// field's usage; through a shared tuple, every linear or shared field becomes
/// shared.
pub open spec fn shared_as(outer: Usage, inner: Usage) -> Usage {
    if outer == Usage::Shared && inner != Usage::Ordinary {
        Usage::Shared
    } else {
        inner
    }
}

/// The ending of a noun of which there are `n`.
pub open spec fn plural(n: nat) -> Seq<char> {
    if n == 1 {
        ""@
    } else {
        "s"@
    }
}

/// `tuple.index`, where the whole projection is at `span`.
pub open spec fn projection_rule(t: Checked, t_span: Span, index: usize, span: Span) -> Checked {
    match t {
        Err(e) => Err(e),
        Ok(t) => if t.typed.usage == Usage::Linear {
            Err(
                type_error(
                    t_span,
                    "cannot project from a `linear` tuple; project from a borrowed (shared) view instead"@,
                ),
            )
        } else {
            match t.typed.ty {
                TypeView::Tuple(fields) => if index >= fields.len() {
                    Err(
                        type_error(
                            span,
                            "tuple index "@ + decimal(index as nat)
                                + " out of bounds (tuple has "@ + decimal(fields.len())
                                + " field"@ + plural(fields.len()) + ")"@,
                        ),
                    )
                } else {
                    Ok(
                        CheckView {
                            typed: TypedView {
                                usage: shared_as(t.typed.usage, fields[index as int].usage),
                                ty: fields[index as int].ty,
                            },
                            consumes: t.consumes,
                            borrows: t.borrows,
                        },
                    )
                },
                _ => Err(
                    type_error(
                        t_span,
                        "cannot project field `."@ + decimal(index as nat)
                            + "` from non-tuple type `"@ + type_text(t.typed.ty) + "`"@,
                    ),
                ),
            }
        },
    }
}

/// The names that a pattern binds.
pub open spec fn bound_names(names: Seq<(Seq<char>, Span)>) -> Set<Seq<char>> {
    Set::new(|n: Seq<char>| exists|i: int| 0 <= i < names.len() && (#[trigger] names[i]).0 == n)
}

/// `scope` with the first `n` names bound to the first `n` fields, in order.
pub open spec fn bind_fields(
    scope: Scope,
    names: Seq<(Seq<char>, Span)>,
    fields: Seq<FieldView>,
    n: nat,
) -> Scope
    decreases n,
{
    if n == 0 {
        scope
    } else {
        let field = fields[n - 1];
        bind_fields(scope, names, fields, (n - 1) as nat).insert(
            names[n - 1].0,
            TypedView { usage: field.usage, ty: field.ty },
        )
    }
}

/// A later name of the pattern is the same as the `i`-th.
pub open spec fn bound_again(names: Seq<(Seq<char>, Span)>, i: int) -> bool {
    exists|j: int| i < j < names.len() && (#[trigger] names[j]).0 == names[i].0
}

/// The `i`-th name is bound to a linear field that the body does not consume:
/// the name is not consumed, or it stands for a later field.
pub open spec fn leaks(
    names: Seq<(Seq<char>, Span)>,
    fields: Seq<FieldView>,
    consumes: Uses,
    i: int,
) -> bool {
    fields[i].usage == Usage::Linear && (!consumes.contains_key(names[i].0) || bound_again(
        names,
        i,
    ))
}

/// The first of the names from the `i`-th on that leaks.
pub open spec fn first_leak(
    names: Seq<(Seq<char>, Span)>,
    fields: Seq<FieldView>,
    consumes: Uses,
    i: int,
) -> Option<int>
    decreases names.len() - i,
{
    if i < 0 || i >= names.len() {
        None
    } else if leaks(names, fields, consumes, i) {
        Some(i)
    } else {
        first_leak(names, fields, consumes, i + 1)
    }
}

/// The fields that a deconstruction of `v` binds: those of a linear tuple with as
/// many fields as there are names.
pub open spec fn deconstructed(
    names: Seq<(Seq<char>, Span)>,
    v: CheckView,
    v_span: Span,
) -> Result<Seq<FieldView>, ErrorView> {
    if v.typed.usage != Usage::Linear {
        Err(
            type_error(
                v_span,
                "deconstruction `let (...) = e in ...` requires a linear tuple, found `"@
                    + typed_text(v.typed) + "`"@,
            ),
        )
    } else {
        match v.typed.ty {
            TypeView::Tuple(fields) => if fields.len() != names.len() {
                Err(
                    type_error(
                        v_span,
                        "deconstruction pattern has "@ + decimal(names.len()) + " name"@ + plural(
                            names.len(),
                        ) + " but value is a tuple with "@ + decimal(fields.len()) + " field"@
                            + plural(fields.len()),
                    ),
                )
            } else {
                Ok(fields)
            },
            _ => Err(
                type_error(
                    v_span,
                    "deconstruction requires a tuple type, found `"@ + type_text(v.typed.ty) + "`"@,
                ),
            ),
        }
    }
}

/// `let (names) = value in body`, where `fields` are those of the value.
#[verifier::opaque]
pub open spec fn destructure_rule(
    names: Seq<(Seq<char>, Span)>,
    fields: Seq<FieldView>,
    v: CheckView,
    b: CheckView,
) -> Checked {
    match first_leak(names, fields, b.consumes, 0) {
        Some(i) => Err(
            type_error(
                names[i].1,
                "linear field binding `"@ + names[i].0 + "` is not consumed in the body"@,
            ),
        ),
        None => if !apart(v.consumes, b.borrows) {
            let n = conflict(v.consumes, b.borrows);
            Err(
                and_related(
                    type_error(
                        b.borrows[n],
                        "the body of deconstruction cannot borrow `"@ + n
                            + "`: the deconstruction's value already consumed it"@,
                    ),
                    v.consumes[n],
                    "`"@ + n + "` was consumed here"@,
                ),
            )
        } else if !apart(v.borrows, b.consumes) {
            let n = conflict(v.borrows, b.consumes);
            Err(
                and_related(
                    type_error(
                        b.consumes[n],
                        "the body cannot consume `"@ + n
                            + "`: it is borrowed by the deconstruction's value"@,
                    ),
                    v.borrows[n],
                    "`"@ + n + "` is borrowed here"@,
                ),
            )
        } else {
            match merged_consumes(v.consumes, b.consumes.remove_keys(bound_names(names))) {
                Err(e) => Err(e),
                Ok(consumes) => Ok(
                    CheckView {
                        typed: b.typed,
                        consumes,
                        borrows: merged_borrows(
                            v.borrows,
                            b.borrows.remove_keys(bound_names(names)),
                        ),
                    },
                ),
            }
        },
    }
}

/// The mode in which the value of a `let` is checked.
pub open spec fn value_mode(usage: Usage) -> ConsumeMode {
    if usage == Usage::Shared {
        ConsumeMode::Borrow
    } else {
        ConsumeMode::Consume
    }
}

/// The usage expected of the value of a `let`. A shared `let` does not drive
/// tuple construction toward shared.
pub open spec fn value_expected(usage: Usage) -> Option<Usage> {
    if usage == Usage::Shared {
        None
    } else {
        Some(usage)
    }
}

/// The error about a `let` whose value has another usage than its annotation.
pub open spec fn wrong_usage(usage: Usage, found: Usage, span: Span) -> ErrorView {
    type_error(
        span,
        "let-binding annotated `"@ + usage_text(usage) + "` but value has usage `"@ + usage_text(
            found,
        ) + "`"@,
    )
}

/// `let usage name = value in body`, where the value has the annotated usage. A
/// shared binding extends the borrows of its value through the body; otherwise
/// they end before the body, which may then consume what was borrowed. A borrow
/// ends with whatever the body consumes under its name: where the value borrows an
/// outer variable of the bound name, consuming the bound variable ends that borrow.
#[verifier::opaque]
pub open spec fn let_rule(
    usage: Usage,
    name: Seq<char>,
    name_span: Span,
    v: CheckView,
    b: CheckView,
) -> Checked {
    if usage == Usage::Linear && !b.consumes.contains_key(name) {
        Err(
            type_error(
                name_span,
                "linear binding `"@ + name + "` is not consumed in the body"@,
            ),
        )
    } else if !apart(v.consumes, b.borrows) {
        let n = conflict(v.consumes, b.borrows);
        Err(
            and_related(
                type_error(
                    b.borrows[n],
                    "the body of let cannot borrow `"@ + n
                        + "`: the let's value already consumed it"@,
                ),
                v.consumes[n],
                "`"@ + n + "` was consumed here"@,
            ),
        )
    } else if usage == Usage::Shared && !apart(v.borrows, b.consumes) {
        let n = conflict(v.borrows, b.consumes);
        Err(
            and_related(
                type_error(
                    b.consumes[n],
                    "cannot consume `"@ + n + "` while the shared binding `"@ + name
                        + "` borrows it"@,
                ),
                v.borrows[n],
                "`"@ + n + "` is borrowed by `"@ + name + "` here"@,
            ),
        )
    } else {
        match merged_consumes(v.consumes, b.consumes.remove(name)) {
            Err(e) => Err(e),
            Ok(consumes) => Ok(
                CheckView {
                    typed: b.typed,
                    consumes,
                    borrows: merged_borrows(
                        if usage == Usage::Shared {
                            v.borrows
                        } else {
                            v.borrows.remove_keys(b.consumes.dom())
                        },
                        b.borrows.remove(name),
                    ),
                },
            ),
        }
    }
}

// -----------------------------------------------------------------------------
// Expressions
// -----------------------------------------------------------------------------

/// What checking `expr` yields: what the rule for its form says.
#[verifier::opaque]
pub open spec fn check(
    expr: ExprView,
    scope: Scope,
    expected: Option<Usage>,
    mode: ConsumeMode,
) -> Checked
    decreases expr, 1nat,
{
    check_form(expr, scope, expected, mode)
}

pub proof fn lemma_check(
    expr: ExprView,
    scope: Scope,
    expected: Option<Usage>,
    mode: ConsumeMode,
)
    ensures
        check(expr, scope, expected, mode) == check_form(expr, scope, expected, mode),
{
    reveal_with_fuel(check, 1);
}

/// What the rule for the form of `expr` says, given what checking its parts
/// yields.
pub open spec fn check_form(
    expr: ExprView,
    scope: Scope,
    expected: Option<Usage>,
    mode: ConsumeMode,
) -> Checked
    decreases expr, 0nat,
{
    match expr {
        ExprView::IntLit { .. } => Ok(unused(ordinary_int())),
        ExprView::Var { name, span } => var_rule(name, span, scope, mode),
        ExprView::Add { lhs, rhs, .. } => add_rule(
            check(*lhs, scope, Some(Usage::Ordinary), mode),
            lhs.span(),
            check(*rhs, scope, Some(Usage::Ordinary), mode),
            rhs.span(),
        ),
        ExprView::Sequence { first, second, .. } => match check(
            *first,
            scope,
            Some(Usage::Ordinary),
            ConsumeMode::Borrow,
        ) {
            Err(e) => Err(e),
            Ok(f) => if f.typed.usage != Usage::Ordinary {
                Err(not_discardable(f.typed.usage, first.span()))
            } else {
                match check(*second, scope, expected, mode) {
                    Err(e) => Err(e),
                    Ok(s) => seq_rule(f, s),
                }
            },
        },
        ExprView::Tuple { elems, span } => if expected == Some(Usage::Shared) {
            Err(
                type_error(
                    span,
                    "shared tuples are produced by borrowing, not by direct construction"@,
                ),
            )
        } else {
            check_components(elems, elems.len(), scope, built_usage(expected), mode)
        },
        ExprView::TupleProj { tuple, index, span } => projection_rule(
            check(*tuple, scope, None, mode),
            tuple.span(),
            index,
            span,
        ),
        ExprView::TupleDestructure { names, value, body, .. } => match check(
            *value,
            scope,
            Some(Usage::Linear),
            ConsumeMode::Consume,
        ) {
            Err(e) => Err(e),
            Ok(v) => match deconstructed(names, v, value.span()) {
                Err(e) => Err(e),
                Ok(fields) => match check(
                    *body,
                    bind_fields(scope, names, fields, names.len()),
                    expected,
                    mode,
                ) {
                    Err(e) => Err(e),
                    Ok(b) => destructure_rule(names, fields, v, b),
                },
            },
        },
        ExprView::Let { usage, name, name_span, value, body, .. } => match check(
            *value,
            scope,
            value_expected(usage),
            value_mode(usage),
        ) {
            Err(e) => Err(e),
            Ok(v) => if v.typed.usage != usage {
                Err(wrong_usage(usage, v.typed.usage, value.span()))
            } else {
                match check(*body, scope.insert(name, v.typed), expected, mode) {
                    Err(e) => Err(e),
                    Ok(b) => let_rule(usage, name, name_span, v, b),
                }
            },
        },
        ExprView::MethodCall { span, .. } => Err(unsupported(span)),
        ExprView::ConstructorApp { span, .. } => Err(unsupported(span)),
        ExprView::Match { span, .. } => Err(unsupported(span)),
    }
}

/// The error about a form that the checker does not know.
pub open spec fn unsupported(span: Span) -> ErrorView {
    type_error(span, "this expression form is not supported until a later phase"@)
}

/// What a tuple of usage `outer` made of the first `n` of `elems` yields.
pub open spec fn check_components(
    elems: Seq<ExprView>,
    n: nat,
    scope: Scope,
    outer: Usage,
    mode: ConsumeMode,
) -> Checked
    decreases elems, n,
{
    if n == 0 || n > elems.len() {
        Ok(unused(TypedView { usage: outer, ty: TypeView::Tuple(Seq::empty()) }))
    } else {
        match check_components(elems, (n - 1) as nat, scope, outer, mode) {
            Err(e) => Err(e),
            Ok(t) => component_rule(
                t,
                check(elems[n - 1], scope, component_expected(outer), mode),
                elems[n - 1].span(),
            ),
        }
    }
}

} // verus!
