//! Type checker for the mini-linear language.
//!
//! The module [`typing`](crate::typing) gives the rules and says, for every
//! expression, what it yields and which error is reported; the functions here
//! compute it. Both `borrows` and `consumes` are tracked, with a mode-sensitive
//! variable rule that turns linear variables into shared views in Borrow mode.
//!
//! Top-level invariant: with no methods or parameters, the initial env is
//! empty, the let / decon rules' "linear must be consumed" check
//! transitively prevents leakage, and the top-level program's `consumes`
//! and `borrows` are both empty.

use crate::ast::{
    binder_views, expr_views, field_view, Expr, ExprView, FieldView, Program, Span, TupleField,
    Type, TypeView, Usage,
};
use crate::error::{Error, ErrorCategory, ErrorView};
use crate::linearity::law_a_program_uses_nothing_up;
use crate::names::NameMap;
use crate::text::{decimal_text, join3, same_text};
use crate::typing::{
    add_rule, apart, bad_component, bind_fields, bound_again, bound_names, built_usage, check,
    check_components, check_form, component_expected, conflict, destructure_rule, first_leak,
    lemma_check, let_rule, merged_borrows, merged_consumes, not_ordinary_int, ordinary_int, plural,
    projection_rule, seq_rule, shared_as, type_error, typed_text, unsupported, unused, var_rule,
    CheckView, Checked, Scope, TypedView, Uses,
};
use vstd::prelude::*;
use vstd::string::*;

verus! {

// -----------------------------------------------------------------------------
// Typed values, modes and findings
// -----------------------------------------------------------------------------

/// A typed value: a usage qualifier plus a type.
#[derive(Debug, PartialEq, Eq)]
pub struct Typed {
    pub usage: Usage,
    pub ty: Type,
}

impl View for Typed {
    type V = TypedView;

    open spec fn view(&self) -> TypedView {
        TypedView { usage: self.usage, ty: self.ty@ }
    }
}

impl Clone for Typed {
    /// A copy with the same view.
    fn clone(&self) -> (r: Self)
        ensures
            r@ == self@,
    {
        Typed { usage: self.usage, ty: self.ty.clone() }
    }
}

impl Typed {
    /// The typed value as it is shown in messages: its usage, then its type.
    pub fn to_string(&self) -> (r: String)
        ensures
            r@ == typed_text(self@),
    {
        let ty = self.ty.to_string();
        join3(self.usage.as_str(), " ", ty.as_str())
    }
}

/// Expected consumption mode passed down into each subexpression. In Borrow
/// mode, linear variable lookups produce shared views and record into `borrows`
/// instead of `consumes`.
#[derive(Debug, Clone, Copy, PartialEq, Eq, Structural)]
pub enum ConsumeMode {
    Consume,
    Borrow,
}

/// The variables in scope.
pub type Env = NameMap<Typed>;

/// Per-expression checking result. Both `consumes` and `borrows` are
/// keyed by variable name with the use-site span as the value. See module
/// docs of [`typing`](crate::typing) for their differing merge policies.
#[derive(Debug)]
pub struct Check {
    pub typed: Typed,
    pub consumes: NameMap<Span>,
    pub borrows: NameMap<Span>,
}

impl View for Check {
    type V = CheckView;

    open spec fn view(&self) -> CheckView {
        CheckView { typed: self.typed@, consumes: self.consumes@, borrows: self.borrows@ }
    }
}

impl Check {
    /// The findings for an expression of type `ordinary int` that uses no
    /// variable.
    pub fn ordinary_int() -> (r: Self)
        ensures
            r@ == unused(ordinary_int()),
    {
        Self {
            typed: Typed { usage: Usage::Ordinary, ty: Type::Int },
            consumes: NameMap::new(),
            borrows: NameMap::new(),
        }
    }
}

/// The view of what a checking function returns.
pub open spec fn outcome(r: Result<Check, Error>) -> Checked {
    match r {
        Ok(c) => Ok(c@),
        Err(e) => Err(e@),
    }
}

// -----------------------------------------------------------------------------
// Helpers
// -----------------------------------------------------------------------------

fn error_at(span: Span, note: String) -> (r: Error)
    ensures
        r@ == type_error(span, note@),
{
    Error::new(ErrorCategory::TypeError, span, Some(note))
}

/// The ending of a noun of which there are `n`.
fn plural_ending(n: usize) -> (r: &'static str)
    ensures
        r@ == plural(n as nat),
{
    if n == 1 {
        ""
    } else {
        "s"
    }
}

/// Require `ordinary int` of the operand `what` at `span`.
pub fn require_ordinary_int(typed: &Typed, span: Span, what: &str) -> (r: Result<(), Error>)
    ensures
        match r {
            Ok(_) => typed@ == ordinary_int(),
            Err(e) => typed@ != ordinary_int() && e@ == not_ordinary_int(typed@, span, what@),
        },
{
    let is_int = match &typed.ty {
        Type::Int => true,
        _ => false,
    };
    if typed.usage == Usage::Ordinary && is_int {
        Ok(())
    } else {
        let found = typed.to_string();
        let mut note = join3(what, " must have type `ordinary int`, found `", found.as_str());
        note.append("`");
        Err(error_at(span, note))
    }
}

/// The usage of a field of usage `inner` seen through a tuple of usage `outer`:
/// projecting through an ordinary tuple keeps each field's usage; through
/// a shared tuple, every linear/shared field becomes shared.
///
/// The projection rule rejects a linear tuple before its fields are looked at.
pub fn share_as(outer: Usage, inner: Usage) -> (r: Usage)
    requires
        outer != Usage::Linear,
    ensures
        r == shared_as(outer, inner),
{
    match outer {
        // Ordinary tuple: field's own usage stands.
        Usage::Ordinary | Usage::Linear => inner,
        // Shared tuple: ordinary stays ordinary; linear/shared collapse to shared.
        Usage::Shared => match inner {
            Usage::Ordinary => Usage::Ordinary,
            Usage::Linear | Usage::Shared => Usage::Shared,
        },
    }
}

/// Merge two consumes maps. On collision, error: the variable was
/// consumed twice. Primary span at the second site, related at the first.
pub fn merge_consumes_disjoint(a: NameMap<Span>, b: NameMap<Span>) -> (r: Result<
    NameMap<Span>,
    Error,
>)
    ensures
        match r {
            Ok(m) => merged_consumes(a@, b@) == Result::<Uses, ErrorView>::Ok(m@),
            Err(e) => merged_consumes(a@, b@) == Result::<Uses, ErrorView>::Err(e@),
        },
{
    match find_borrow_consume_collision(&a, &b) {
        Some((name, b_span, a_span)) => {
            let note = join3("linear variable `", name.as_str(), "` is consumed twice");
            let label = join3("`", name.as_str(), "` previously consumed here");
            Err(error_at(b_span, note).with_related(a_span, label.as_str()))
        },
        None => {
            let r = a.keep_first(b);
            assert(r@ =~= a@.union_prefer_right(b@));
            Ok(r)
        },
    }
}

/// Merge two borrows maps. **No disjointness check** — multiple borrows of
/// the same variable are valid (that's the whole point of `shared`). On a
/// name collision, the *first-seen* span is kept (the existing entry
/// wins; the new one is dropped). This is a deliberate choice — it gives
/// stable error spans regardless of which subexpression was processed
/// last. Don't accidentally flip this to last-seen.
pub fn merge_borrows_union(a: NameMap<Span>, b: NameMap<Span>) -> (r: NameMap<Span>)
    ensures
        r@ == merged_borrows(a@, b@),
{
    a.keep_first(b)
}

/// Find a name that appears in both `consumes` and `borrows`. Returns
/// `(name, borrow_span, consume_span)` for the first conflict, or `None`.
/// Used by the seq / decon / let rules' checks that nothing consumed is
/// borrowed afterwards.
pub fn find_consume_borrow_collision(
    consumes: &NameMap<Span>,
    borrows: &NameMap<Span>,
) -> (r: Option<(String, Span, Span)>)
    ensures
        match r {
            None => apart(consumes@, borrows@),
            Some((name, b_span, c_span)) => {
                &&& !apart(consumes@, borrows@)
                &&& name@ == conflict(consumes@, borrows@)
                &&& borrows@.contains_key(name@)
                &&& b_span == borrows@[name@]
                &&& consumes@.contains_key(name@)
                &&& c_span == consumes@[name@]
            },
        },
{
    match consumes.first_common(borrows) {
        None => None,
        Some(name) => match (borrows.get(name), consumes.get(name)) {
            (Some(b_span), Some(c_span)) => {
                assert(!apart(consumes@, borrows@)) by {
                    assert(consumes@.dom().contains(name@) && borrows@.dom().contains(name@));
                }
                Some((name.to_owned(), *b_span, *c_span))
            },
            _ => None,
        },
    }
}

/// Find a name that appears in both `borrows` and `consumes`. Returns
/// `(name, consume_span, borrow_span)` for the first conflict, or `None`.
/// Used by the decon / let-shared rules' checks, where the consume site is the
/// action being rejected.
pub fn find_borrow_consume_collision(
    borrows: &NameMap<Span>,
    consumes: &NameMap<Span>,
) -> (r: Option<(String, Span, Span)>)
    ensures
        match r {
            None => apart(borrows@, consumes@),
            Some((name, c_span, b_span)) => {
                &&& !apart(borrows@, consumes@)
                &&& name@ == conflict(borrows@, consumes@)
                &&& consumes@.contains_key(name@)
                &&& c_span == consumes@[name@]
                &&& borrows@.contains_key(name@)
                &&& b_span == borrows@[name@]
            },
        },
{
    find_consume_borrow_collision(borrows, consumes)
}

// -----------------------------------------------------------------------------
// The recursive checker
// -----------------------------------------------------------------------------

/// How many nodes the checker visits below and at `expr`.
pub open spec fn expr_size(expr: ExprView) -> nat
    decreases expr, 0nat,
{
    match expr {
        ExprView::Add { lhs, rhs, .. } => 1 + expr_size(*lhs) + expr_size(*rhs),
        ExprView::Sequence { first, second, .. } => 1 + expr_size(*first) + expr_size(*second),
        ExprView::Let { value, body, .. } => 1 + expr_size(*value) + expr_size(*body),
        ExprView::Tuple { elems, .. } => 1 + elems_size(elems, elems.len()),
        ExprView::TupleProj { tuple, .. } => 1 + expr_size(*tuple),
        ExprView::TupleDestructure { value, body, .. } => 1 + expr_size(*value) + expr_size(*body),
        _ => 1,
    }
}

/// The sizes of the first `n` of `elems`, added up.
pub open spec fn elems_size(elems: Seq<ExprView>, n: nat) -> nat
    decreases elems, n,
{
    if n == 0 || n > elems.len() {
        0
    } else {
        elems_size(elems, (n - 1) as nat) + expr_size(elems[n - 1])
    }
}

proof fn lemma_elem_size(elems: Seq<ExprView>, n: nat, i: int)
    requires
        0 <= i < n <= elems.len(),
    ensures
        expr_size(elems[i]) <= elems_size(elems, n),
    decreases n,
{
    if i < n - 1 {
        lemma_elem_size(elems, (n - 1) as nat, i);
    }
}

/// Type-check a complete program.
pub fn check_program(program: &Program) -> (r: Result<Typed, Error>)
    requires
        program.decls@.len() == 0,
    ensures
        match r {
            Ok(typed) => check(program.main_expr@, Map::empty(), None, ConsumeMode::Consume)
                == Checked::Ok(unused(typed@)),
            Err(e) => check(program.main_expr@, Map::empty(), None, ConsumeMode::Consume)
                == Checked::Err(e@),
        },
{
    let env = Env::new();
    let result = check_expr(&program.main_expr, &env, None, ConsumeMode::Consume)?;
    proof {
        law_a_program_uses_nothing_up(program.main_expr@, None, ConsumeMode::Consume);
    }
    Ok(result.typed)
}

/// Check `expr` in the scope `env`, where a value of usage `expected_usage` is
/// wanted.
pub fn check_expr(
    expr: &Expr,
    env: &Env,
    expected_usage: Option<Usage>,
    mode: ConsumeMode,
) -> (r: Result<Check, Error>)
    ensures
        outcome(r) == check(expr@, env@, expected_usage, mode),
    decreases expr_size(expr@), 0nat,
{
    proof {
        lemma_check(expr@, env@, expected_usage, mode);
    }
    match expr {
        Expr::IntLit { .. } => Ok(Check::ordinary_int()),
        Expr::Var { name, span } => check_var(name.as_str(), *span, env, mode),
        Expr::Add { lhs, rhs, .. } => check_add(lhs, rhs, env, mode),
        Expr::Sequence { first, second, .. } => check_seq(
            first,
            second,
            env,
            expected_usage,
            mode,
        ),
        Expr::Tuple { elems, span } => {
            assert(expr@->Tuple_elems =~= expr_views(elems@));
            check_tuple_construction(elems.as_slice(), env, expected_usage, *span, mode)
        },
        Expr::TupleProj { tuple, index, span } => check_projection(
            tuple,
            *index,
            *span,
            env,
            mode,
        ),
        Expr::TupleDestructure { names, value, body, span } => check_destructure(
            names.as_slice(),
            value,
            body,
            *span,
            env,
            expected_usage,
            mode,
        ),
        Expr::Let { usage, name, name_span, value, body, span } => check_let(
            *usage,
            name.as_str(),
            *name_span,
            value,
            body,
            *span,
            env,
            expected_usage,
            mode,
        ),
        Expr::MethodCall { span, .. } => Err(unsupported_form(*span)),
        Expr::ConstructorApp { span, .. } => Err(unsupported_form(*span)),
        Expr::Match { span, .. } => Err(unsupported_form(*span)),
    }
}

fn unsupported_form(span: Span) -> (r: Error)
    ensures
        r@ == unsupported(span),
{
    error_at(span, "this expression form is not supported until a later phase".to_owned())
}

// -----------------------------------------------------------------------------
// Per-form checkers
// -----------------------------------------------------------------------------

/// Check a variable.
pub fn check_var(name: &str, span: Span, env: &Env, mode: ConsumeMode) -> (r: Result<Check, Error>)
    ensures
        forall|expected: Option<Usage>|
            outcome(r) == #[trigger] check(
                ExprView::Var { name: name@, span },
                env@,
                expected,
                mode,
            ),
{
    assert forall|expected: Option<Usage>| #[trigger]
        check(ExprView::Var { name: name@, span }, env@, expected, mode) == var_rule(
            name@,
            span,
            env@,
            mode,
        ) by {
        lemma_check(ExprView::Var { name: name@, span }, env@, expected, mode);
    }
    let typed = match env.get(name) {
        Some(typed) => typed.clone(),
        None => {
            return Err(error_at(span, join3("unbound variable `", name, "`")));
        },
    };
    let mut consumes: NameMap<Span> = NameMap::new();
    let mut borrows: NameMap<Span> = NameMap::new();
    if typed.usage != Usage::Linear {
        return Ok(Check { typed, consumes, borrows });
    }
    match mode {
        ConsumeMode::Consume => {
            consumes.insert(name.to_owned(), span);
            Ok(Check { typed, consumes, borrows })
        },
        ConsumeMode::Borrow => {
            // Linear variables become shared views and record a borrow.
            borrows.insert(name.to_owned(), span);
            Ok(Check { typed: Typed { usage: Usage::Shared, ty: typed.ty }, consumes, borrows })
        },
    }
}

/// Check `lhs + rhs`.
pub fn check_add(lhs: &Expr, rhs: &Expr, env: &Env, mode: ConsumeMode) -> (r: Result<Check, Error>)
    ensures
        forall|span: Span, expected: Option<Usage>|
            outcome(r) == #[trigger] check(
                ExprView::Add { lhs: Box::new(lhs@), rhs: Box::new(rhs@), span },
                env@,
                expected,
                mode,
            ),
    decreases expr_size(lhs@) + expr_size(rhs@), 1nat,
{
    assert forall|span: Span, expected: Option<Usage>| #[trigger]
        check(
            ExprView::Add { lhs: Box::new(lhs@), rhs: Box::new(rhs@), span },
            env@,
            expected,
            mode,
        ) == add_rule(
            check(lhs@, env@, Some(Usage::Ordinary), mode),
            lhs@.span(),
            check(rhs@, env@, Some(Usage::Ordinary), mode),
            rhs@.span(),
        ) by {
        lemma_check(
            ExprView::Add { lhs: Box::new(lhs@), rhs: Box::new(rhs@), span },
            env@,
            expected,
            mode,
        );
    }
    // Both operands in outer mode, expected to be ordinary int.
    let l = check_expr(lhs, env, Some(Usage::Ordinary), mode)?;
    require_ordinary_int(&l.typed, lhs.span(), "left operand of `+`")?;
    let r = check_expr(rhs, env, Some(Usage::Ordinary), mode)?;
    require_ordinary_int(&r.typed, rhs.span(), "right operand of `+`")?;
    let consumes = merge_consumes_disjoint(l.consumes, r.consumes)?;
    let borrows = merge_borrows_union(l.borrows, r.borrows);
    Ok(Check { typed: Typed { usage: Usage::Ordinary, ty: Type::Int }, consumes, borrows })
}

/// Check `first ; second`.
pub fn check_seq(
    first: &Expr,
    second: &Expr,
    env: &Env,
    expected_usage: Option<Usage>,
    mode: ConsumeMode,
) -> (r: Result<Check, Error>)
    ensures
        forall|span: Span|
            outcome(r) == #[trigger] check(
                ExprView::Sequence { first: Box::new(first@), second: Box::new(second@), span },
                env@,
                expected_usage,
                mode,
            ),
    decreases expr_size(first@) + expr_size(second@), 1nat,
{
    let ghost expr = |span: Span|
        ExprView::Sequence { first: Box::new(first@), second: Box::new(second@), span };
    assert forall|span: Span| #[trigger]
        check(
            ExprView::Sequence { first: Box::new(first@), second: Box::new(second@), span },
            env@,
            expected_usage,
            mode,
        ) == check_form(expr(first@.span()), env@, expected_usage, mode) by {
        lemma_check(expr(span), env@, expected_usage, mode);
    }
    proof {
        reveal(seq_rule);
    }
    // e1 always in Borrow mode (the borrow scope is e1; e2 sees `e1` as
    // having "completed and discarded").
    let f = check_expr(first, env, Some(Usage::Ordinary), ConsumeMode::Borrow)?;
    if f.typed.usage != Usage::Ordinary {
        let why = match f.typed.usage {
            Usage::Linear => "would silently leak (Phase 0/1 invariant)",
            _ => "would escape its borrow scope (Phase 2 invariant)",
        };
        let mut note =
            "the first expression in a sequence `e1 ; e2` must produce an `ordinary` value; this one produces `".to_owned();
        note.append(f.typed.usage.as_str());
        note.append("` and ");
        note.append(why);
        return Err(error_at(first.span(), note));
    }
    // e2 inherits the outer mode and outer expected_usage.
    let s = check_expr(second, env, expected_usage, mode)?;

    // Disjointness: e1's consumes vs e2's consumes; e1's consumes vs e2's
    // borrows (e2 can't borrow what e1 just consumed).
    let collision = find_consume_borrow_collision(&f.consumes, &s.borrows);
    let b1 = f.borrows.without(&s.consumes);
    let consumes = merge_consumes_disjoint(f.consumes, s.consumes)?;
    if let Some((name, b_span, c_span)) = collision {
        let note = join3(
            "the right-hand side of `;` cannot borrow `",
            name.as_str(),
            "` because it was consumed by the left-hand side",
        );
        let label = join3("`", name.as_str(), "` was consumed here");
        return Err(error_at(b_span, note).with_related(c_span, label.as_str()));
    }
    // Result borrows: B1 minus anything e2 consumed (those nested borrows
    // got "resolved" by the consume) ∪ B2.
    let borrows = merge_borrows_union(b1, s.borrows);
    Ok(Check { typed: s.typed, consumes, borrows })
}

/// Tuple construction. The `mode` parameter is threaded through to the
/// components. It does not matter where they are variables: a linear variable
/// becomes shared in Borrow mode, and the ordinary-tuple's "components must be
/// ordinary" check rejects shared just as it rejects linear in Consume mode.
pub fn check_tuple_construction(
    elems: &[Expr],
    env: &Env,
    expected_usage: Option<Usage>,
    span: Span,
    mode: ConsumeMode,
) -> (r: Result<Check, Error>)
    ensures
        outcome(r) == check(
            ExprView::Tuple { elems: expr_views(elems@), span },
            env@,
            expected_usage,
            mode,
        ),
    decreases elems_size(expr_views(elems@), elems@.len()), 1nat,
{
    proof {
        lemma_check(
            ExprView::Tuple { elems: expr_views(elems@), span },
            env@,
            expected_usage,
            mode,
        );
    }
    let outer_usage = match expected_usage {
        Some(Usage::Linear) => Usage::Linear,
        Some(Usage::Ordinary) | None => Usage::Ordinary,
        Some(Usage::Shared) => {
            return Err(
                error_at(
                    span,
                    "shared tuples are produced by borrowing, not by direct construction".to_owned(),
                ),
            );
        },
    };
    let component_usage = if outer_usage == Usage::Linear {
        None
    } else {
        Some(Usage::Ordinary)
    };
    let ghost views = expr_views(elems@);
    let mut field_types: Vec<TupleField> = Vec::new();
    let mut consumes: NameMap<Span> = NameMap::new();
    let mut borrows: NameMap<Span> = NameMap::new();
    let mut i: usize = 0;
    assert(field_views(field_types@) =~= Seq::empty());
    while i < elems.len()
        invariant
            i <= elems@.len(),
            views == expr_views(elems@),
            outer_usage == built_usage(expected_usage),
            component_usage == component_expected(outer_usage),
            check(ExprView::Tuple { elems: views, span }, env@, expected_usage, mode)
                == check_components(views, views.len(), env@, outer_usage, mode),
            check_components(views, i as nat, env@, outer_usage, mode) == Checked::Ok(
                CheckView {
                    typed: TypedView {
                        usage: outer_usage,
                        ty: TypeView::Tuple(field_views(field_types@)),
                    },
                    consumes: consumes@,
                    borrows: borrows@,
                },
            ),
        decreases elems@.len() - i,
    {
        proof {
            lemma_elem_size(views, views.len(), i as int);
            lemma_failed_component(views, (i + 1) as nat, env@, outer_usage, mode);
        }
        let c = check_expr(&elems[i], env, component_usage, mode)?;
        let allowed = c.typed.usage == Usage::Ordinary || (outer_usage == Usage::Linear
            && c.typed.usage == Usage::Linear);
        if !allowed {
            return Err(component_error(outer_usage, c.typed.usage, elems[i].span()));
        }
        let ghost before = field_views(field_types@);
        let field = TupleField { usage: c.typed.usage, ty: c.typed.ty };
        field_types.push(field);
        assert(field_views(field_types@) =~= before.push(field@));
        consumes = merge_consumes_disjoint(consumes, c.consumes)?;
        borrows = merge_borrows_union(borrows, c.borrows);
        i += 1;
    }
    let ty = Type::Tuple(field_types);
    assert(ty@->Tuple_0 =~= field_views(field_types@));
    Ok(Check { typed: Typed { usage: outer_usage, ty }, consumes, borrows })
}

spec fn field_views(fields: Seq<TupleField>) -> Seq<FieldView> {
    fields.map_values(|f: TupleField| f@)
}

/// A component that fails makes the whole tuple fail.
proof fn lemma_failed_component(
    elems: Seq<ExprView>,
    n: nat,
    scope: Scope,
    outer: Usage,
    mode: ConsumeMode,
)
    requires
        n <= elems.len(),
    ensures
        check_components(elems, n, scope, outer, mode) matches Err(e) ==> check_components(
            elems,
            elems.len(),
            scope,
            outer,
            mode,
        ) == Checked::Err(e),
    decreases elems.len() - n,
{
    if n < elems.len() {
        lemma_failed_component(elems, n + 1, scope, outer, mode);
    }
}

/// The error about a component of usage `inner` in a tuple of usage `outer`.
fn component_error(outer: Usage, inner: Usage, span: Span) -> (r: Error)
    ensures
        r@ == bad_component(outer, inner, span),
{
    let what = if outer == Usage::Ordinary {
        "an ordinary tuple may only contain ordinary values; this component has usage `"
    } else {
        "a linear tuple may only contain linear or ordinary values; this component has usage `"
    };
    error_at(span, join3(what, inner.as_str(), "`"))
}

/// Check `tuple.index`, which stands at `span`.
pub fn check_projection(
    tuple: &Expr,
    index: usize,
    span: Span,
    env: &Env,
    mode: ConsumeMode,
) -> (r: Result<Check, Error>)
    ensures
        forall|expected: Option<Usage>|
            outcome(r) == #[trigger] check(
                ExprView::TupleProj { tuple: Box::new(tuple@), index, span },
                env@,
                expected,
                mode,
            ),
    decreases expr_size(tuple@), 1nat,
{
    assert forall|expected: Option<Usage>| #[trigger]
        check(
            ExprView::TupleProj { tuple: Box::new(tuple@), index, span },
            env@,
            expected,
            mode,
        ) == projection_rule(check(tuple@, env@, None, mode), tuple@.span(), index, span) by {
        lemma_check(
            ExprView::TupleProj { tuple: Box::new(tuple@), index, span },
            env@,
            expected,
            mode,
        );
    }
    // Inner in outer mode, expected_usage = None (projection accepts
    // ordinary or shared input; mode + variable rule decide which).
    let t = check_expr(tuple, env, None, mode)?;

    if t.typed.usage == Usage::Linear {
        // In Consume mode, projecting a linear var lookup keeps the var
        // linear. The user wanted an implicit borrow; tell them why this
        // didn't happen. (In Borrow mode the lookup would have already
        // produced shared.)
        return Err(
            error_at(
                tuple.span(),
                "cannot project from a `linear` tuple; project from a borrowed (shared) view instead".to_owned(),
            ),
        );
    }
    let index_text = decimal_text(index as u128);
    let ghost ty_view = t.typed.ty@;
    let fields = match &t.typed.ty {
        Type::Tuple(fields) => fields,
        _ => {
            let ty = t.typed.ty.to_string();
            let mut note = join3(
                "cannot project field `.",
                index_text.as_str(),
                "` from non-tuple type `",
            );
            note.append(ty.as_str());
            note.append("`");
            return Err(error_at(tuple.span(), note));
        },
    };
    if index >= fields.len() {
        let mut note = join3("tuple index ", index_text.as_str(), " out of bounds (tuple has ");
        note.append(decimal_text(fields.len() as u128).as_str());
        note.append(" field");
        note.append(plural_ending(fields.len()));
        note.append(")");
        return Err(error_at(span, note));
    }
    let field_usage = share_as(t.typed.usage, fields[index].usage);
    let ty = fields[index].ty.clone();
    assert(ty_view->Tuple_0[index as int] == field_view(fields@[index as int]));
    Ok(
        Check {
            typed: Typed { usage: field_usage, ty },
            consumes: t.consumes,
            borrows: t.borrows,
        },
    )
}

/// Check `let (names) = value in body`.
pub fn check_destructure(
    names: &[(String, Span)],
    value: &Expr,
    body: &Expr,
    _span: Span,
    env: &Env,
    expected_usage: Option<Usage>,
    mode: ConsumeMode,
) -> (r: Result<Check, Error>)
    ensures
        outcome(r) == check(
            ExprView::TupleDestructure {
                names: binder_views(names@),
                value: Box::new(value@),
                body: Box::new(body@),
                span: _span,
            },
            env@,
            expected_usage,
            mode,
        ),
    decreases expr_size(value@) + expr_size(body@), 1nat,
{
    proof {
        reveal(destructure_rule);
        lemma_check(
            ExprView::TupleDestructure {
                names: binder_views(names@),
                value: Box::new(value@),
                body: Box::new(body@),
                span: _span,
            },
            env@,
            expected_usage,
            mode,
        );
    }
    let ghost binders = binder_views(names@);
    // Value always in Consume mode — deconstruction needs to own the
    // tuple. Outer mode is irrelevant here.
    let v = check_expr(value, env, Some(Usage::Linear), ConsumeMode::Consume)?;
    let ghost v_view = v@;

    if v.typed.usage != Usage::Linear {
        let found = v.typed.to_string();
        let note = join3(
            "deconstruction `let (...) = e in ...` requires a linear tuple, found `",
            found.as_str(),
            "`",
        );
        return Err(error_at(value.span(), note));
    }
    let fields = match v.typed.ty {
        Type::Tuple(fields) => fields,
        other => {
            let found = other.to_string();
            let note = join3("deconstruction requires a tuple type, found `", found.as_str(), "`");
            return Err(error_at(value.span(), note));
        },
    };
    let ghost field_list = field_views(fields@);
    assert(v_view.typed.ty->Tuple_0 =~= field_list);
    if fields.len() != names.len() {
        let mut note = "deconstruction pattern has ".to_owned();
        note.append(decimal_text(names.len() as u128).as_str());
        note.append(" name");
        note.append(plural_ending(names.len()));
        note.append(" but value is a tuple with ");
        note.append(decimal_text(fields.len() as u128).as_str());
        note.append(" field");
        note.append(plural_ending(fields.len()));
        return Err(error_at(value.span(), note));
    }
    let mut body_env = env.copied();
    let mut i: usize = 0;
    while i < names.len()
        invariant
            i <= names@.len() == fields@.len(),
            binders == binder_views(names@),
            field_list == field_views(fields@),
            body_env@ == bind_fields(env@, binders, field_list, i as nat),
        decreases names@.len() - i,
    {
        let typed = Typed { usage: fields[i].usage, ty: fields[i].ty.clone() };
        body_env.insert(names[i].0.clone(), typed);
        i += 1;
    }
    let b = check_expr(body, &body_env, expected_usage, mode)?;

    // Linear field bindings must be consumed in body.
    if let Some(i) = first_unconsumed(names, fields.as_slice(), &b.consumes) {
        let note = join3(
            "linear field binding `",
            names[i].0.as_str(),
            "` is not consumed in the body",
        );
        return Err(error_at(names[i].1, note));
    }
    // The body can't borrow what the value consumed.
    if let Some((name, b_span, c_span)) = find_consume_borrow_collision(&v.consumes, &b.borrows) {
        let note = join3(
            "the body of deconstruction cannot borrow `",
            name.as_str(),
            "`: the deconstruction's value already consumed it",
        );
        let label = join3("`", name.as_str(), "` was consumed here");
        return Err(error_at(b_span, note).with_related(c_span, label.as_str()));
    }
    // The body can't consume what the value borrows. (The value's borrows are
    // not in scope for the body to resolve via consumption, unlike the
    // let-linear/ordinary case.)
    if let Some((name, c_span, b_span)) = find_borrow_consume_collision(&v.borrows, &b.consumes) {
        let note = join3(
            "the body cannot consume `",
            name.as_str(),
            "`: it is borrowed by the deconstruction's value",
        );
        let label = join3("`", name.as_str(), "` is borrowed here");
        return Err(error_at(c_span, note).with_related(b_span, label.as_str()));
    }
    // Strip the field bindings from the body's maps before merging — these are
    // local to the deconstruction.
    let body_consumes = without_bound(b.consumes, names);
    let body_borrows = without_bound(b.borrows, names);

    let consumes = merge_consumes_disjoint(v.consumes, body_consumes)?;
    // The value's borrows propagate entirely; the body's are merged on top.
    let borrows = merge_borrows_union(v.borrows, body_borrows);
    Ok(Check { typed: b.typed, consumes, borrows })
}

/// Whether a later name of the pattern is the same as the `i`-th.
fn is_bound_again(names: &[(String, Span)], i: usize) -> (r: bool)
    requires
        i < names@.len(),
    ensures
        r == bound_again(binder_views(names@), i as int),
{
    let ghost binders = binder_views(names@);
    let n = names.len();
    let mut j: usize = i + 1;
    while j < n
        invariant
            n == names@.len(),
            i < j <= n,
            binders == binder_views(names@),
            forall|k: int| i < k < j ==> (#[trigger] binders[k]).0 != binders[i as int].0,
        decreases names@.len() - j,
    {
        if same_text(names[j].0.as_str(), names[i].0.as_str()) {
            assert(binders[j as int].0 == binders[i as int].0);
            return true;
        }
        j += 1;
    }
    false
}

/// The first name that is bound to a linear field which the body does not
/// consume, given what it consumes.
fn first_unconsumed(
    names: &[(String, Span)],
    fields: &[TupleField],
    consumes: &NameMap<Span>,
) -> (r: Option<usize>)
    requires
        names@.len() == fields@.len(),
    ensures
        match r {
            Some(i) => {
                &&& i < names@.len()
                &&& first_leak(binder_views(names@), field_views(fields@), consumes@, 0) == Some(
                    i as int,
                )
            },
            None => first_leak(binder_views(names@), field_views(fields@), consumes@, 0) is None,
        },
{
    let ghost binders = binder_views(names@);
    let ghost field_list = field_views(fields@);
    let mut i: usize = 0;
    while i < names.len()
        invariant
            i <= names@.len() == fields@.len(),
            binders == binder_views(names@),
            field_list == field_views(fields@),
            first_leak(binders, field_list, consumes@, i as int) == first_leak(
                binders,
                field_list,
                consumes@,
                0,
            ),
        decreases names@.len() - i,
    {
        if fields[i].usage == Usage::Linear {
            // A name that is bound again stands for a later field, so consuming
            // it does not consume this one.
            if !consumes.contains_key(names[i].0.as_str()) || is_bound_again(names, i) {
                return Some(i);
            }
        }
        i += 1;
    }
    None
}

/// `uses` without the names that a pattern binds.
fn without_bound(uses: NameMap<Span>, names: &[(String, Span)]) -> (r: NameMap<Span>)
    ensures
        r@ == uses@.remove_keys(bound_names(binder_views(names@))),
{
    let ghost binders = binder_views(names@);
    let ghost all = uses@;
    let mut r = uses;
    let mut i: usize = 0;
    assert(r@ =~= all.remove_keys(bound_names(binders.take(0))));
    while i < names.len()
        invariant
            i <= names@.len(),
            binders == binder_views(names@),
            r@ == all.remove_keys(bound_names(binders.take(i as int))),
        decreases names@.len() - i,
    {
        r.remove(names[i].0.as_str());
        proof {
            let shorter = binders.take(i as int);
            let longer = binders.take(i + 1);
            assert forall|n: Seq<char>|
                bound_names(longer).contains(n) == (bound_names(shorter).contains(n) || n
                    == binders[i as int].0) by {
                if bound_names(shorter).contains(n) {
                    let k = choose|k: int| 0 <= k < shorter.len() && (#[trigger] shorter[k]).0 == n;
                    assert(longer[k].0 == n);
                }
                assert(longer[i as int] == binders[i as int]);
                if bound_names(longer).contains(n) {
                    let k = choose|k: int| 0 <= k < longer.len() && (#[trigger] longer[k]).0 == n;
                    if k < i {
                        assert(shorter[k].0 == n);
                    }
                }
            }
            assert(all.remove_keys(bound_names(shorter)).remove(binders[i as int].0)
                =~= all.remove_keys(bound_names(longer)));
        }
        i += 1;
    }
    assert(binders.take(i as int) =~= binders);
    r
}

/// Check `let usage name = value in body`.
pub fn check_let(
    usage: Usage,
    name: &str,
    name_span: Span,
    value: &Expr,
    body: &Expr,
    _span: Span,
    env: &Env,
    expected_usage: Option<Usage>,
    mode: ConsumeMode,
) -> (r: Result<Check, Error>)
    ensures
        outcome(r) == check(
            ExprView::Let {
                usage,
                name: name@,
                name_span,
                value: Box::new(value@),
                body: Box::new(body@),
                span: _span,
            },
            env@,
            expected_usage,
            mode,
        ),
    decreases expr_size(value@) + expr_size(body@), 1nat,
{
    proof {
        reveal(let_rule);
        lemma_check(
            ExprView::Let {
                usage,
                name: name@,
                name_span,
                value: Box::new(value@),
                body: Box::new(body@),
                span: _span,
            },
            env@,
            expected_usage,
            mode,
        );
    }
    // Mode and expected usage for the value depend on the annotation.
    let (v_mode, v_expected) = match usage {
        Usage::Linear | Usage::Ordinary => (ConsumeMode::Consume, Some(usage)),
        // For shared lets, the value runs in Borrow mode; nothing is expected
        // (don't drive tuple construction toward shared).
        Usage::Shared => (ConsumeMode::Borrow, None),
    };
    let v = check_expr(value, env, v_expected, v_mode)?;

    if v.typed.usage != usage {
        let mut note = join3(
            "let-binding annotated `",
            usage.as_str(),
            "` but value has usage `",
        );
        note.append(v.typed.usage.as_str());
        note.append("`");
        return Err(error_at(value.span(), note));
    }
    let mut body_env = env.copied();
    body_env.insert(name.to_owned(), v.typed.clone());

    let b = check_expr(body, &body_env, expected_usage, mode)?;

    // Linear binding must be consumed in the body.
    if usage == Usage::Linear && !b.consumes.contains_key(name) {
        let note = join3("linear binding `", name, "` is not consumed in the body");
        return Err(error_at(name_span, note));
    }
    // The body can't borrow what the value consumed.
    if let Some((conflict_name, b_span, c_span)) = find_consume_borrow_collision(
        &v.consumes,
        &b.borrows,
    ) {
        let note = join3(
            "the body of let cannot borrow `",
            conflict_name.as_str(),
            "`: the let's value already consumed it",
        );
        let label = join3("`", conflict_name.as_str(), "` was consumed here");
        return Err(error_at(b_span, note).with_related(c_span, label.as_str()));
    }
    let outgoing_value_borrows = if usage == Usage::Shared {
        // For shared lets, the body also cannot consume a variable that the
        // shared binding is borrowing.
        if let Some((conflict_name, c_span, b_span)) = find_borrow_consume_collision(
            &v.borrows,
            &b.consumes,
        ) {
            let mut note = join3(
                "cannot consume `",
                conflict_name.as_str(),
                "` while the shared binding `",
            );
            note.append(name);
            note.append("` borrows it");
            let mut label = join3("`", conflict_name.as_str(), "` is borrowed by `");
            label.append(name);
            label.append("` here");
            return Err(error_at(c_span, note).with_related(b_span, label.as_str()));
        }
        // Shared binding extends the value's borrows through the let.
        v.borrows
    } else {
        // For linear/ordinary: the value's borrows can be resolved by anything
        // the body consumed (their scope ended at the end of the value).
        v.borrows.without(&b.consumes)
    };

    // Strip the bound name from the body's maps before merging (it's local to
    // the let).
    let mut body_consumes = b.consumes;
    let mut body_borrows = b.borrows;
    body_consumes.remove(name);
    body_borrows.remove(name);

    let consumes = merge_consumes_disjoint(v.consumes, body_consumes)?;
    let borrows = merge_borrows_union(outgoing_value_borrows, body_borrows);
    Ok(Check { typed: b.typed, consumes, borrows })
}

} // verus!
