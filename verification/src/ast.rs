//! Abstract syntax of the language.
//!
//! The syntax covers more than the parser produces: methods, datatypes and
//! `match` have nodes here, and the type checker answers them with an error.
//!
//! Every node carries a [`Span`], a range of byte offsets into the source, so
//! that an error can be shown at a line and a column. Each type has a *view*, a
//! mathematical value of the same shape in which texts are sequences of
//! characters and vectors are sequences; contracts speak of views.

use vstd::prelude::*;
use vstd::string::*;

verus! {

// -----------------------------------------------------------------------------
// Spans
// -----------------------------------------------------------------------------

/// A half-open byte range `[start, end)` into the source text.
#[derive(Debug, Clone, Copy, PartialEq, Eq, Structural)]
pub struct Span {
    pub start: usize,
    pub end: usize,
}

/// The span between two offsets.
pub open spec fn span_of(start: int, end: int) -> Span {
    Span { start: start as usize, end: end as usize }
}

/// The smallest span that covers both `a` and `b`.
pub open spec fn joined(a: Span, b: Span) -> Span {
    Span {
        start: if a.start <= b.start { a.start } else { b.start },
        end: if a.end >= b.end { a.end } else { b.end },
    }
}

impl View for Span {
    type V = Span;

    open spec fn view(&self) -> Span {
        *self
    }
}

impl Span {
    /// The span from `start` up to, not including, `end`.
    pub fn new(start: usize, end: usize) -> (r: Self)
        requires
            start <= end,
        ensures
            r == (Span { start, end }),
    {
        Self { start, end }
    }

    /// Span covering both `self` and `other`. Useful when combining child
    /// spans to span a parent node.
    pub fn join(self, other: Span) -> (r: Span)
        ensures
            r == joined(self, other),
    {
        Span {
            start: if self.start <= other.start { self.start } else { other.start },
            end: if self.end >= other.end { self.end } else { other.end },
        }
    }
}

// -----------------------------------------------------------------------------
// Usages
// -----------------------------------------------------------------------------

/// Variable usage qualifier. Ordinary values can be freely duplicated and
/// discarded; linear values must be consumed exactly once; shared values are
/// temporarily borrowed views of linear values.
#[derive(Debug, Clone, Copy, PartialEq, Eq, Structural)]
pub enum Usage {
    Linear,
    Shared,
    Ordinary,
}

/// The word by which a usage is written.
pub open spec fn usage_text(usage: Usage) -> Seq<char> {
    match usage {
        Usage::Linear => "linear"@,
        Usage::Shared => "shared"@,
        Usage::Ordinary => "ordinary"@,
    }
}

impl Usage {
    /// The word by which this usage is written.
    pub fn as_str(self) -> (r: &'static str)
        ensures
            r@ == usage_text(self),
    {
        match self {
            Usage::Linear => "linear",
            Usage::Shared => "shared",
            Usage::Ordinary => "ordinary",
        }
    }

    /// The usage as it is shown in messages.
    pub fn to_string(&self) -> (r: String)
        ensures
            r@ == usage_text(*self),
    {
        self.as_str().to_owned()
    }
}

// -----------------------------------------------------------------------------
// Types
// -----------------------------------------------------------------------------

/// A type as the type checker computes it. The usage of a tuple field is
/// syntactically free here; the type checker rejects `shared` in tuple fields.
///
/// Methods are not first-class and have their own signature type
/// ([`MethodSig`]), so they don't appear in this enum.
#[derive(Debug, PartialEq, Eq)]
pub enum Type {
    /// `int`
    Int,
    /// `(u1 t1, u2 t2, ...)`: a tuple type with a usage on each field.
    Tuple(Vec<TupleField>),
    /// Reference to a user-defined datatype, e.g. `List`.
    Datatype { name: String },
}

/// One field of a tuple type.
#[derive(Debug, PartialEq, Eq)]
pub struct TupleField {
    pub usage: Usage,
    pub ty: Type,
}

/// The view of a [`Type`].
pub enum TypeView {
    Int,
    Tuple(Seq<FieldView>),
    Datatype { name: Seq<char> },
}

/// The view of a [`TupleField`].
pub struct FieldView {
    pub usage: Usage,
    pub ty: TypeView,
}

pub open spec fn type_view(ty: Type) -> TypeView
    decreases ty,
{
    match ty {
        Type::Int => TypeView::Int,
        Type::Tuple(fields) => TypeView::Tuple(
            Seq::new(
                fields@.len(),
                |i: int|
                    if 0 <= i < fields@.len() {
                        field_view(fields@[i])
                    } else {
                        arbitrary()
                    },
            ),
        ),
        Type::Datatype { name } => TypeView::Datatype { name: name@ },
    }
}

pub open spec fn field_view(field: TupleField) -> FieldView
    decreases field,
{
    FieldView { usage: field.usage, ty: type_view(field.ty) }
}

impl View for Type {
    type V = TypeView;

    open spec fn view(&self) -> TypeView {
        type_view(*self)
    }
}

impl View for TupleField {
    type V = FieldView;

    open spec fn view(&self) -> FieldView {
        field_view(*self)
    }
}

/// A type as it is written: `int`, a datatype's name, or the fields of a tuple
/// in parentheses, each with its usage.
pub open spec fn type_text(ty: TypeView) -> Seq<char>
    decreases ty, 0nat,
{
    match ty {
        TypeView::Int => "int"@,
        TypeView::Datatype { name } => name,
        TypeView::Tuple(fields) => "("@ + fields_text(fields, fields.len()) + ")"@,
    }
}

/// The first `n` of `fields`, separated by commas.
pub open spec fn fields_text(fields: Seq<FieldView>, n: nat) -> Seq<char>
    decreases fields, n,
{
    if n == 0 || n > fields.len() {
        Seq::empty()
    } else {
        let field = fields[n - 1];
        fields_text(fields, (n - 1) as nat) + (if n > 1 {
            ", "@
        } else {
            Seq::empty()
        }) + usage_text(field.usage) + " "@ + type_text(field.ty)
    }
}

impl Clone for Type {
    /// A copy with the same view.
    fn clone(&self) -> (r: Self)
        ensures
            r@ == self@,
        decreases self,
    {
        match self {
            Type::Int => Type::Int,
            Type::Datatype { name } => Type::Datatype { name: name.clone() },
            Type::Tuple(fields) => {
                let mut copies: Vec<TupleField> = Vec::new();
                let mut i: usize = 0;
                while i < fields.len()
                    invariant
                        *self == Type::Tuple(*fields),
                        i <= fields@.len(),
                        copies@.len() == i,
                        forall|k: int|
                            0 <= k < i ==> field_view(#[trigger] copies@[k]) == field_view(
                                fields@[k],
                            ),
                    decreases fields@.len() - i,
                {
                    assert(decreases_to!(self => self->Tuple_0));
                    assert(decreases_to!(self->Tuple_0 => fields@));
                    assert(decreases_to!(fields@ => fields@[i as int]));
                    assert(decreases_to!(fields@[i as int] => fields@[i as int].ty));
                    copies.push(TupleField { usage: fields[i].usage, ty: fields[i].ty.clone() });
                    i += 1;
                }
                let r = Type::Tuple(copies);
                assert(r@->Tuple_0 =~= self@->Tuple_0);
                r
            },
        }
    }
}

impl Clone for TupleField {
    /// A copy with the same view.
    fn clone(&self) -> (r: Self)
        ensures
            r@ == self@,
    {
        TupleField { usage: self.usage, ty: self.ty.clone() }
    }
}

impl Type {
    /// The type as it is shown in messages.
    pub fn to_string(&self) -> (r: String)
        ensures
            r@ == type_text(self@),
        decreases self,
    {
        match self {
            Type::Int => "int".to_owned(),
            Type::Datatype { name } => name.clone(),
            Type::Tuple(fields) => {
                let mut out = "(".to_owned();
                let mut i: usize = 0;
                while i < fields.len()
                    invariant
                        *self == Type::Tuple(*fields),
                        i <= fields@.len(),
                        self@ matches TypeView::Tuple(fs) && fs.len() == fields@.len() && out@
                            == "("@ + fields_text(fs, i as nat),
                    decreases fields@.len() - i,
                {
                    let ghost fs = self@->Tuple_0;
                    assert(decreases_to!(self => self->Tuple_0));
                    assert(decreases_to!(self->Tuple_0 => fields@));
                    assert(decreases_to!(fields@ => fields@[i as int]));
                    assert(decreases_to!(fields@[i as int] => fields@[i as int].ty));
                    let usage = fields[i].usage.as_str();
                    let ty = fields[i].ty.to_string();
                    if i > 0 {
                        out.append(", ");
                    }
                    out.append(usage);
                    out.append(" ");
                    out.append(ty.as_str());
                    i += 1;
                    assert(fs[i - 1] == field_view(fields@[i - 1]));
                    assert(out@ =~= "("@ + fields_text(fs, i as nat));
                }
                out.append(")");
                assert(out@ =~= type_text(self@));
                out
            },
        }
    }
}

/// Shape of a method's parameters and returns. Methods are not first-class,
/// so this lives outside [`Type`].
#[derive(Debug, Clone, PartialEq, Eq)]
pub struct MethodSig {
    pub params: Vec<ParamSig>,
    pub returns: Vec<ParamSig>,
}

/// A single parameter or return slot in a method signature: usage, optional
/// `inout` borrow, and type. Names are not part of the signature.
#[derive(Debug, Clone, PartialEq, Eq)]
pub struct ParamSig {
    pub usage: Usage,
    pub inout: bool,
    pub ty: Type,
}

// -----------------------------------------------------------------------------
// Patterns (for `match`)
// -----------------------------------------------------------------------------

/// The left-hand side of a `match` arm.
#[derive(Debug, PartialEq, Eq)]
pub enum Pattern {
    /// `_`
    Wildcard { span: Span },
    /// `x`: bind the scrutinee to a fresh variable.
    Var { name: String, span: Span },
    /// `Cons { data, tail }`: a datatype constructor with named field bindings.
    Constructor { name: String, fields: Vec<FieldBinding>, span: Span },
}

/// One field of a constructor pattern: the field name, the variable it
/// binds, and the span of the binding. In the shorthand form
/// `Cons { data, tail }`, `field` and `var` are the same string.
#[derive(Debug, PartialEq, Eq)]
pub struct FieldBinding {
    pub field: String,
    pub var: String,
    pub span: Span,
}

/// The view of a [`Pattern`].
pub enum PatternView {
    Wildcard { span: Span },
    Var { name: Seq<char>, span: Span },
    Constructor { name: Seq<char>, fields: Seq<FieldBindingView>, span: Span },
}

/// The view of a [`FieldBinding`].
pub struct FieldBindingView {
    pub field: Seq<char>,
    pub var: Seq<char>,
    pub span: Span,
}

impl View for FieldBinding {
    type V = FieldBindingView;

    open spec fn view(&self) -> FieldBindingView {
        FieldBindingView { field: self.field@, var: self.var@, span: self.span }
    }
}

impl View for Pattern {
    type V = PatternView;

    open spec fn view(&self) -> PatternView {
        match *self {
            Pattern::Wildcard { span } => PatternView::Wildcard { span },
            Pattern::Var { name, span } => PatternView::Var { name: name@, span },
            Pattern::Constructor { name, fields, span } => PatternView::Constructor {
                name: name@,
                fields: fields@.map_values(|f: FieldBinding| f@),
                span,
            },
        }
    }
}

impl Clone for FieldBinding {
    /// A copy with the same view.
    fn clone(&self) -> (r: Self)
        ensures
            r@ == self@,
    {
        FieldBinding { field: self.field.clone(), var: self.var.clone(), span: self.span }
    }
}

impl Clone for Pattern {
    /// A copy with the same view.
    fn clone(&self) -> (r: Self)
        ensures
            r@ == self@,
    {
        match self {
            Pattern::Wildcard { span } => Pattern::Wildcard { span: *span },
            Pattern::Var { name, span } => Pattern::Var { name: name.clone(), span: *span },
            Pattern::Constructor { name, fields, span } => {
                let mut copies: Vec<FieldBinding> = Vec::new();
                let mut i: usize = 0;
                while i < fields.len()
                    invariant
                        i <= fields@.len(),
                        copies@.len() == i,
                        forall|k: int| 0 <= k < i ==> (#[trigger] copies@[k])@ == fields@[k]@,
                    decreases fields@.len() - i,
                {
                    copies.push(fields[i].clone());
                    i += 1;
                }
                assert(copies@.map_values(|f: FieldBinding| f@) =~= fields@.map_values(
                    |f: FieldBinding| f@,
                ));
                Pattern::Constructor { name: name.clone(), fields: copies, span: *span }
            },
        }
    }
}

// -----------------------------------------------------------------------------
// Expressions
// -----------------------------------------------------------------------------

/// An expression.
#[allow(inconsistent_fields)]
#[derive(Debug, PartialEq, Eq)]
pub enum Expr {
    /// Integer literal.
    IntLit { value: i64, span: Span },
    /// Variable reference.
    Var { name: String, span: Span },
    /// `e1 + e2`
    Add { lhs: Box<Expr>, rhs: Box<Expr>, span: Span },
    /// `e1 ; e2`: evaluate `e1` for effect/borrow, then `e2`.
    Sequence { first: Box<Expr>, second: Box<Expr>, span: Span },
    /// `let u x = e1 in e2`. `name_span` covers just the binder, for errors
    /// that point at the name rather than the whole `let`.
    Let {
        usage: Usage,
        name: String,
        name_span: Span,
        value: Box<Expr>,
        body: Box<Expr>,
        span: Span,
    },
    /// `(e1, e2, ...)`: tuple construction. Single-element tuples are not
    /// expressible; `(e)` parses as grouping.
    Tuple { elems: Vec<Expr>, span: Span },
    /// `e.i`: zero-indexed projection.
    TupleProj { tuple: Box<Expr>, index: usize, span: Span },
    /// `let (x1, ..., xn) = e1 in e2`: tuple deconstruction.
    TupleDestructure {
        names: Vec<(String, Span)>,
        value: Box<Expr>,
        body: Box<Expr>,
        span: Span,
    },
    /// `f(e1, ..., en)`: call to a top-level method. (Methods are not
    /// first-class, so the callee is always a name.)
    MethodCall { name: String, name_span: Span, args: Vec<Expr>, span: Span },
    /// `Cons { data: e1, tail: e2 }`: datatype constructor with named field
    /// initialisers.
    ConstructorApp { name: String, name_span: Span, fields: Vec<FieldInit>, span: Span },
    /// `match e { p1 => e1, p2 => e2, ... }`
    Match { scrutinee: Box<Expr>, arms: Vec<MatchArm>, span: Span },
}

/// One initialiser of a constructor application.
#[derive(Debug, PartialEq, Eq)]
pub struct FieldInit {
    pub field: String,
    pub value: Expr,
    pub span: Span,
}

/// One arm of a `match`.
#[derive(Debug, PartialEq, Eq)]
pub struct MatchArm {
    pub pattern: Pattern,
    pub body: Expr,
    pub span: Span,
}

/// The view of an [`Expr`].
#[allow(inconsistent_fields)]
pub enum ExprView {
    IntLit { value: i64, span: Span },
    Var { name: Seq<char>, span: Span },
    Add { lhs: Box<ExprView>, rhs: Box<ExprView>, span: Span },
    Sequence { first: Box<ExprView>, second: Box<ExprView>, span: Span },
    Let {
        usage: Usage,
        name: Seq<char>,
        name_span: Span,
        value: Box<ExprView>,
        body: Box<ExprView>,
        span: Span,
    },
    Tuple { elems: Seq<ExprView>, span: Span },
    TupleProj { tuple: Box<ExprView>, index: usize, span: Span },
    TupleDestructure {
        names: Seq<(Seq<char>, Span)>,
        value: Box<ExprView>,
        body: Box<ExprView>,
        span: Span,
    },
    MethodCall { name: Seq<char>, name_span: Span, args: Seq<ExprView>, span: Span },
    ConstructorApp { name: Seq<char>, name_span: Span, fields: Seq<FieldInitView>, span: Span },
    Match { scrutinee: Box<ExprView>, arms: Seq<MatchArmView>, span: Span },
}

/// The view of a [`FieldInit`].
pub struct FieldInitView {
    pub field: Seq<char>,
    pub value: ExprView,
    pub span: Span,
}

/// The view of a [`MatchArm`].
pub struct MatchArmView {
    pub pattern: PatternView,
    pub body: ExprView,
    pub span: Span,
}

/// The view of a binder with its span.
pub open spec fn binder_view(binder: (String, Span)) -> (Seq<char>, Span) {
    (binder.0@, binder.1)
}

/// The views of binders.
pub open spec fn binder_views(binders: Seq<(String, Span)>) -> Seq<(Seq<char>, Span)> {
    binders.map_values(|b: (String, Span)| binder_view(b))
}

/// The views of expressions.
pub open spec fn expr_views(exprs: Seq<Expr>) -> Seq<ExprView> {
    exprs.map_values(|e: Expr| e@)
}

pub open spec fn expr_view(expr: Expr) -> ExprView
    decreases expr,
{
    match expr {
        Expr::IntLit { value, span } => ExprView::IntLit { value, span },
        Expr::Var { name, span } => ExprView::Var { name: name@, span },
        Expr::Add { lhs, rhs, span } => ExprView::Add {
            lhs: Box::new(expr_view(*lhs)),
            rhs: Box::new(expr_view(*rhs)),
            span,
        },
        Expr::Sequence { first, second, span } => ExprView::Sequence {
            first: Box::new(expr_view(*first)),
            second: Box::new(expr_view(*second)),
            span,
        },
        Expr::Let { usage, name, name_span, value, body, span } => ExprView::Let {
            usage,
            name: name@,
            name_span,
            value: Box::new(expr_view(*value)),
            body: Box::new(expr_view(*body)),
            span,
        },
        Expr::Tuple { elems, span } => ExprView::Tuple {
            elems: Seq::new(
                elems@.len(),
                |i: int|
                    if 0 <= i < elems@.len() {
                        expr_view(elems@[i])
                    } else {
                        arbitrary()
                    },
            ),
            span,
        },
        Expr::TupleProj { tuple, index, span } => ExprView::TupleProj {
            tuple: Box::new(expr_view(*tuple)),
            index,
            span,
        },
        Expr::TupleDestructure { names, value, body, span } => ExprView::TupleDestructure {
            names: binder_views(names@),
            value: Box::new(expr_view(*value)),
            body: Box::new(expr_view(*body)),
            span,
        },
        Expr::MethodCall { name, name_span, args, span } => ExprView::MethodCall {
            name: name@,
            name_span,
            args: Seq::new(
                args@.len(),
                |i: int|
                    if 0 <= i < args@.len() {
                        expr_view(args@[i])
                    } else {
                        arbitrary()
                    },
            ),
            span,
        },
        Expr::ConstructorApp { name, name_span, fields, span } => ExprView::ConstructorApp {
            name: name@,
            name_span,
            fields: Seq::new(
                fields@.len(),
                |i: int|
                    if 0 <= i < fields@.len() {
                        field_init_view(fields@[i])
                    } else {
                        arbitrary()
                    },
            ),
            span,
        },
        Expr::Match { scrutinee, arms, span } => ExprView::Match {
            scrutinee: Box::new(expr_view(*scrutinee)),
            arms: Seq::new(
                arms@.len(),
                |i: int|
                    if 0 <= i < arms@.len() {
                        match_arm_view(arms@[i])
                    } else {
                        arbitrary()
                    },
            ),
            span,
        },
    }
}

pub open spec fn field_init_view(init: FieldInit) -> FieldInitView
    decreases init,
{
    FieldInitView { field: init.field@, value: expr_view(init.value), span: init.span }
}

pub open spec fn match_arm_view(arm: MatchArm) -> MatchArmView
    decreases arm,
{
    MatchArmView { pattern: arm.pattern@, body: expr_view(arm.body), span: arm.span }
}

impl View for Expr {
    type V = ExprView;

    open spec fn view(&self) -> ExprView {
        expr_view(*self)
    }
}

impl Clone for Expr {
    /// A copy with the same view.
    fn clone(&self) -> (r: Self)
        ensures
            r@ == self@,
        decreases self,
    {
        match self {
            Expr::IntLit { value, span } => Expr::IntLit { value: *value, span: *span },
            Expr::Var { name, span } => Expr::Var { name: name.clone(), span: *span },
            Expr::Add { lhs, rhs, span } => {
                let lhs = Box::new((**lhs).clone());
                Expr::Add { lhs, rhs: Box::new((**rhs).clone()), span: *span }
            },
            Expr::Sequence { first, second, span } => {
                let first = Box::new((**first).clone());
                Expr::Sequence { first, second: Box::new((**second).clone()), span: *span }
            },
            Expr::Let { usage, name, name_span, value, body, span } => {
                let value = Box::new((**value).clone());
                let body = Box::new((**body).clone());
                Expr::Let {
                    usage: *usage,
                    name: name.clone(),
                    name_span: *name_span,
                    value,
                    body,
                    span: *span,
                }
            },
            Expr::Tuple { elems, span } => {
                let mut copies: Vec<Expr> = Vec::new();
                let mut i: usize = 0;
                while i < elems.len()
                    invariant
                        self is Tuple,
                        self->Tuple_elems == *elems,
                        i <= elems@.len(),
                        copies@.len() == i,
                        forall|k: int|
                            0 <= k < i ==> expr_view(#[trigger] copies@[k]) == expr_view(elems@[k]),
                    decreases elems@.len() - i,
                {
                    assert(decreases_to!(self => self->Tuple_elems));
                    assert(decreases_to!(self->Tuple_elems => elems@));
                    assert(decreases_to!(elems@ => elems@[i as int]));
                    copies.push(elems[i].clone());
                    i += 1;
                }
                let r = Expr::Tuple { elems: copies, span: *span };
                assert(r@->Tuple_elems =~= self@->Tuple_elems);
                r
            },
            Expr::TupleProj { tuple, index, span } => {
                let tuple = Box::new((**tuple).clone());
                Expr::TupleProj { tuple, index: *index, span: *span }
            },
            Expr::TupleDestructure { names, value, body, span } => {
                let mut copies: Vec<(String, Span)> = Vec::new();
                let mut i: usize = 0;
                while i < names.len()
                    invariant
                        i <= names@.len(),
                        copies@.len() == i,
                        forall|k: int|
                            0 <= k < i ==> binder_view(#[trigger] copies@[k]) == binder_view(
                                names@[k],
                            ),
                    decreases names@.len() - i,
                {
                    copies.push((names[i].0.clone(), names[i].1));
                    i += 1;
                }
                assert(binder_views(copies@) =~= binder_views(names@));
                let value = Box::new((**value).clone());
                let body = Box::new((**body).clone());
                Expr::TupleDestructure { names: copies, value, body, span: *span }
            },
            Expr::MethodCall { name, name_span, args, span } => {
                let mut copies: Vec<Expr> = Vec::new();
                let mut i: usize = 0;
                while i < args.len()
                    invariant
                        self is MethodCall,
                        self->MethodCall_args == *args,
                        i <= args@.len(),
                        copies@.len() == i,
                        forall|k: int|
                            0 <= k < i ==> expr_view(#[trigger] copies@[k]) == expr_view(args@[k]),
                    decreases args@.len() - i,
                {
                    assert(decreases_to!(self => self->MethodCall_args));
                    assert(decreases_to!(self->MethodCall_args => args@));
                    assert(decreases_to!(args@ => args@[i as int]));
                    copies.push(args[i].clone());
                    i += 1;
                }
                let r = Expr::MethodCall {
                    name: name.clone(),
                    name_span: *name_span,
                    args: copies,
                    span: *span,
                };
                assert(r@->MethodCall_args =~= self@->MethodCall_args);
                r
            },
            Expr::ConstructorApp { name, name_span, fields, span } => {
                let mut copies: Vec<FieldInit> = Vec::new();
                let mut i: usize = 0;
                while i < fields.len()
                    invariant
                        self is ConstructorApp,
                        self->ConstructorApp_fields == *fields,
                        i <= fields@.len(),
                        copies@.len() == i,
                        forall|k: int|
                            0 <= k < i ==> field_init_view(#[trigger] copies@[k])
                                == field_init_view(fields@[k]),
                    decreases fields@.len() - i,
                {
                    assert(decreases_to!(self => self->ConstructorApp_fields));
                    assert(decreases_to!(self->ConstructorApp_fields => fields@));
                    assert(decreases_to!(fields@ => fields@[i as int]));
                    assert(decreases_to!(fields@[i as int] => fields@[i as int].value));
                    copies.push(FieldInit {
                        field: fields[i].field.clone(),
                        value: fields[i].value.clone(),
                        span: fields[i].span,
                    });
                    i += 1;
                }
                let r = Expr::ConstructorApp {
                    name: name.clone(),
                    name_span: *name_span,
                    fields: copies,
                    span: *span,
                };
                assert(r@->ConstructorApp_fields =~= self@->ConstructorApp_fields);
                r
            },
            Expr::Match { scrutinee, arms, span } => {
                let mut copies: Vec<MatchArm> = Vec::new();
                let mut i: usize = 0;
                while i < arms.len()
                    invariant
                        self is Match,
                        self->Match_arms == *arms,
                        i <= arms@.len(),
                        copies@.len() == i,
                        forall|k: int|
                            0 <= k < i ==> match_arm_view(#[trigger] copies@[k])
                                == match_arm_view(arms@[k]),
                    decreases arms@.len() - i,
                {
                    assert(decreases_to!(self => self->Match_arms));
                    assert(decreases_to!(self->Match_arms => arms@));
                    assert(decreases_to!(arms@ => arms@[i as int]));
                    assert(decreases_to!(arms@[i as int] => arms@[i as int].body));
                    copies.push(MatchArm {
                        pattern: arms[i].pattern.clone(),
                        body: arms[i].body.clone(),
                        span: arms[i].span,
                    });
                    i += 1;
                }
                let scrutinee = Box::new((**scrutinee).clone());
                let r = Expr::Match { scrutinee, arms: copies, span: *span };
                assert(r@->Match_arms =~= self@->Match_arms);
                r
            },
        }
    }
}

impl View for FieldInit {
    type V = FieldInitView;

    open spec fn view(&self) -> FieldInitView {
        field_init_view(*self)
    }
}

impl View for MatchArm {
    type V = MatchArmView;

    open spec fn view(&self) -> MatchArmView {
        match_arm_view(*self)
    }
}

impl Clone for FieldInit {
    /// A copy with the same view.
    fn clone(&self) -> (r: Self)
        ensures
            r@ == self@,
    {
        FieldInit { field: self.field.clone(), value: self.value.clone(), span: self.span }
    }
}

impl Clone for MatchArm {
    /// A copy with the same view.
    fn clone(&self) -> (r: Self)
        ensures
            r@ == self@,
    {
        MatchArm { pattern: self.pattern.clone(), body: self.body.clone(), span: self.span }
    }
}

impl ExprView {
    /// The span recorded at the root of the expression.
    pub open spec fn span(self) -> Span {
        match self {
            ExprView::IntLit { span, .. } => span,
            ExprView::Var { span, .. } => span,
            ExprView::Add { span, .. } => span,
            ExprView::Sequence { span, .. } => span,
            ExprView::Let { span, .. } => span,
            ExprView::Tuple { span, .. } => span,
            ExprView::TupleProj { span, .. } => span,
            ExprView::TupleDestructure { span, .. } => span,
            ExprView::MethodCall { span, .. } => span,
            ExprView::ConstructorApp { span, .. } => span,
            ExprView::Match { span, .. } => span,
        }
    }
}

impl Expr {
    /// Span covering this expression in the source.
    pub fn span(&self) -> (r: Span)
        ensures
            r == self@.span(),
    {
        match self {
            Expr::IntLit { span, .. } => *span,
            Expr::Var { span, .. } => *span,
            Expr::Add { span, .. } => *span,
            Expr::Sequence { span, .. } => *span,
            Expr::Let { span, .. } => *span,
            Expr::Tuple { span, .. } => *span,
            Expr::TupleProj { span, .. } => *span,
            Expr::TupleDestructure { span, .. } => *span,
            Expr::MethodCall { span, .. } => *span,
            Expr::ConstructorApp { span, .. } => *span,
            Expr::Match { span, .. } => *span,
        }
    }
}

// -----------------------------------------------------------------------------
// Top-level declarations
// -----------------------------------------------------------------------------

/// A top-level declaration.
#[derive(Debug, Clone, PartialEq, Eq)]
pub enum Decl {
    Method(MethodDecl),
    Datatype(DatatypeDecl),
}

/// A method declaration:
/// `method foo(linear inout x: int, ordinary y: int) returns (a: int, b: int) { body }`
#[derive(Debug, Clone, PartialEq, Eq)]
pub struct MethodDecl {
    pub name: String,
    pub name_span: Span,
    pub params: Vec<Param>,
    pub returns: Vec<Param>,
    pub body: Expr,
    pub span: Span,
}

/// A named parameter or return slot, carrying source-level information that
/// [`ParamSig`] discards (name, identifier span).
#[derive(Debug, Clone, PartialEq, Eq)]
pub struct Param {
    pub usage: Usage,
    pub inout: bool,
    pub name: String,
    pub name_span: Span,
    pub ty: Type,
    pub span: Span,
}

/// An algebraic datatype declaration:
/// ```text
/// enum List {
///     Nil,
///     Cons { data: int, linear tail: List },
/// }
/// ```
#[derive(Debug, Clone, PartialEq, Eq)]
pub struct DatatypeDecl {
    pub name: String,
    pub name_span: Span,
    pub variants: Vec<VariantDecl>,
    pub span: Span,
}

/// One variant of a datatype.
#[derive(Debug, Clone, PartialEq, Eq)]
pub struct VariantDecl {
    pub name: String,
    pub name_span: Span,
    pub fields: Vec<VariantField>,
    pub span: Span,
}

/// One field of a datatype variant.
#[derive(Debug, Clone, PartialEq, Eq)]
pub struct VariantField {
    pub usage: Usage,
    pub name: String,
    pub name_span: Span,
    pub ty: Type,
    pub span: Span,
}

// -----------------------------------------------------------------------------
// Program
// -----------------------------------------------------------------------------

/// A whole compilation unit: zero or more top-level declarations followed by
/// a single top-level expression that is the "main" expression to type-check.
///
/// The parser reads no declarations, so `decls` is empty in what it returns.
#[derive(Debug, Clone, PartialEq, Eq)]
pub struct Program {
    pub decls: Vec<Decl>,
    pub main_expr: Expr,
    pub span: Span,
}

} // verus!
