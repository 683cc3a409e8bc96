use vstd::prelude::*;

use crate::ast::intrinsics::Intrinsic;
use crate::codebase::Codebase;
use crate::pools::exprs::{ExprId, Exprs};
use crate::pools::modules::Span;
use crate::pools::names::NameId;
use crate::tokens::token::{Duration, FloatLitType, Symbol};
use crate::tokens::tokenstream::rest_kept;

verus! {

/// A piece of a string literal: literal text, or an interpolated
/// expression.
#[derive(Debug)]
pub enum StringComp {
    String(String),
    Expr(ExprId),
}

/// A name together with the place it was written.
#[derive(Debug, Clone, Copy)]
pub struct Ident(pub NameId, pub Span);

/// A path of names such as `std::ops::add`, with the place it was written.
#[derive(Debug)]
pub struct IdentPath(pub Vec<Ident>, pub Span);

impl IdentPath {
    /// The path made of the names `comps` (each interned), all at `span`.
    pub fn from_components(comps: &[&str], span: Span, codebase: &mut Codebase) -> (res: IdentPath)
        ensures
            res.1 == span,
            res.0@.len() == comps@.len(),
            forall|i: int|
                0 <= i < comps@.len() ==> (#[trigger] res.0@[i]).1 == span && res.0@[i].0.0
                    < final(codebase).names.spec_names().len() && final(codebase).names.spec_names()[res.0@[i].0.0 as int]
                    == comps@[i]@,
            final(codebase).names.spec_names().take(old(codebase).names.spec_names().len() as int)
                == old(codebase).names.spec_names(),
            final(codebase).names.spec_names().len() >= old(codebase).names.spec_names().len(),
            final(codebase).packages == old(codebase).packages,
            final(codebase).modules == old(codebase).modules,
            final(codebase).messages == old(codebase).messages,
            rest_kept(*old(codebase), *final(codebase)),
    {
        let mut idents: Vec<Ident> = Vec::new();
        let mut i: usize = 0;
        let ghost n0 = codebase.names.spec_names();
        assert(n0.take(n0.len() as int) =~= n0);
        while i < comps.len()
            invariant
                i <= comps@.len(),
                idents@.len() == i,
                n0.len() <= codebase.names.spec_names().len(),
                codebase.names.spec_names().take(n0.len() as int) == n0,
                forall|j: int|
                    0 <= j < i ==> (#[trigger] idents@[j]).1 == span && idents@[j].0.0
                        < codebase.names.spec_names().len() && codebase.names.spec_names()[idents@[j].0.0 as int]
                        == comps@[j]@,
                codebase.packages == old(codebase).packages,
                codebase.modules == old(codebase).modules,
                codebase.messages == old(codebase).messages,
                rest_kept(*old(codebase), *codebase),
            decreases comps@.len() - i,
        {
            let ghost nb = codebase.names.spec_names();
            let id = codebase.names.add(comps[i]);
            proof {
                assert forall|j: int| 0 <= j < nb.len() implies codebase.names.spec_names()[j] == nb[j] by {
                    assert(codebase.names.spec_names().take(nb.len() as int)[j] == codebase.names.spec_names()[j]);
                }
                assert(codebase.names.spec_names().take(n0.len() as int) =~= n0) by {
                    assert forall|j: int| 0 <= j < n0.len() implies codebase.names.spec_names()[j] == n0[j] by {
                        assert(nb.take(n0.len() as int)[j] == nb[j]);
                    }
                }
            }
            idents.push(Ident(id, span));
            i = i + 1;
        }
        IdentPath(idents, span)
    }
}

/// What a `using` path ends in.
#[derive(Debug)]
pub enum UsingIdentItem {
    /// This path segment ends in all items, like `std::ops::{...}`
    AllItems,
    /// This path segment ends in a list of specific items, like `std::ops::{add, sub}`
    Items(Vec<Ident>),
}

/// The path of a `using` item: the module it names, and what of it is used.
#[derive(Debug)]
pub struct UsingIdentPath {
    pub parent: IdentPath,
    pub item: UsingIdentItem,
    pub span: Span,
}

/// How a chain of logic operators combines its values.
#[derive(Debug)]
pub enum LogicChainType {
    And,
    Or,
}

/// How a function parameter is passed.
#[derive(Debug)]
pub enum FunctionParamKind {
    /// Ordinary function param that is passed by ownership / copy
    Normal,
    /// Function param that is passed by (mutable) reference
    Ref,
    /// Constant property (only allowed in functions whose parameters are
    /// properties, aka clips & effects)
    Const,
}

/// A parameter of a function: its name, optional type and default value.
#[derive(Debug)]
pub struct FunctionParam {
    pub name: Ident,
    pub ty: Option<ExprId>,
    pub default_value: Option<ExprId>,
    pub kind: FunctionParamKind,
}

#[derive(Debug, Clone, Copy, PartialEq, Eq, Structural)]
pub enum Visibility {
    Public,
    Private,
}

/// The kinds of function definition.
#[derive(Debug)]
pub enum FunctionType {
    Function,
    Effect,
    Clip,
}

/// A field of a struct type.
#[derive(Debug)]
pub enum StructTypeField {
    /// Field with a type
    Field(Ident, ExprId),
    /// Only one of these fields may be active at a time. If type is omitted,
    /// then the field receives an unique type
    Enum(Vec<(Ident, Option<ExprId>)>),
}

/// An expression (definitions and types are expressions too). Float
/// literals are kept exactly as written.
#[derive(Debug)]
pub enum Expr {
    Bool(bool, Span),
    Int(u64, Span),
    Float(String, FloatLitType, Span),
    Duration(Duration, Span),
    String(Vec<StringComp>, Span),
    Ident(IdentPath),
    /// `let a: B = 5`
    Var {
        visibility: Visibility,
        name: Ident,
        ty: Option<ExprId>,
        value: Option<ExprId>,
        is_const: bool,
        span: Span,
    },
    Function {
        visibility: Visibility,
        ty: FunctionType,
        name: IdentPath,
        params: Vec<FunctionParam>,
        return_ty: Option<ExprId>,
        body: ExprId,
        is_const: bool,
        span: Span,
    },
    ArrowFunction { params: Vec<FunctionParam>, body: ExprId, span: Span },
    Module { visibility: Visibility, name: IdentPath, items: Vec<ExprId>, span: Span },
    Using { visibility: Visibility, path: UsingIdentPath, span: Span },
    TypeDef { visibility: Visibility, name: IdentPath, ty: ExprId, span: Span },
    /// `a(b, c: 5)`
    Call {
        target: ExprId,
        args: Vec<(Option<Ident>, ExprId)>,
        op: Option<(Symbol, Span)>,
        span: Span,
    },
    InvokeIntrinsic { intrinsic: Intrinsic, args: Vec<ExprId>, span: Span },
    /// `a.b` or `a?.b`
    FieldAccess { target: ExprId, field: IdentPath, optional: bool, span: Span },
    /// `a = 5`
    Assign { target: ExprId, value: ExprId, op: (Symbol, Span), span: Span },
    /// `a = from prop1, prop2 { .. }`
    AssignFrom { target: ExprId, properties: Vec<Ident>, body: ExprId, span: Span },
    /// `a and b and c`
    LogicChain { values: Vec<ExprId>, ty: LogicChainType, span: Span },
    /// `if a { b } else { c }`
    If { clause: ExprId, truthy: ExprId, falsy: Option<ExprId>, span: Span },
    Return(Option<ExprId>, Span),
    Yield(ExprId, Span),
    /// `{ .. }`
    Block(Vec<ExprId>, Span),
    Await(ExprId, Span),
    TyNamed { name: Ident, span: Span },
    TyAccess { from: ExprId, item: IdentPath, span: Span },
    TyFunction { params: Vec<ExprId>, return_ty: ExprId, span: Span },
    TyArray { inner: ExprId, span: Span },
    TyObject { fields: Vec<StructTypeField>, span: Span },
    TyOptional { inner: ExprId, span: Span },
    TypeOf { eval: ExprId, span: Span },
}

/// `p` holds of `o`'s expression, if it has one.
pub open spec fn opt_ok(o: Option<ExprId>, p: spec_fn(ExprId) -> bool) -> bool {
    o matches Some(e) ==> p(e)
}

/// `p` holds of every expression that `e` refers to directly.
pub open spec fn refs_all(e: Expr, p: spec_fn(ExprId) -> bool) -> bool {
    match e {
        Expr::String(comps, _) => forall|i: int|
            0 <= i < comps@.len() ==> ((#[trigger] comps@[i]) matches StringComp::Expr(x) ==> p(x)),
        Expr::Var { ty, value, .. } => opt_ok(ty, p) && opt_ok(value, p),
        Expr::Function { params, return_ty, body, .. } => params_ok(params@, p) && opt_ok(return_ty, p)
            && p(body),
        Expr::ArrowFunction { params, body, .. } => params_ok(params@, p) && p(body),
        Expr::Module { items, .. } => forall|i: int| 0 <= i < items@.len() ==> p(#[trigger] items@[i]),
        Expr::TypeDef { ty, .. } => p(ty),
        Expr::Call { target, args, .. } => p(target) && forall|i: int|
            0 <= i < args@.len() ==> p((#[trigger] args@[i]).1),
        Expr::InvokeIntrinsic { args, .. } => forall|i: int| 0 <= i < args@.len() ==> p(#[trigger] args@[i]),
        Expr::FieldAccess { target, .. } => p(target),
        Expr::Assign { target, value, .. } => p(target) && p(value),
        Expr::AssignFrom { target, body, .. } => p(target) && p(body),
        Expr::LogicChain { values, .. } => forall|i: int|
            0 <= i < values@.len() ==> p(#[trigger] values@[i]),
        Expr::If { clause, truthy, falsy, .. } => p(clause) && p(truthy) && opt_ok(falsy, p),
        Expr::Return(value, _) => opt_ok(value, p),
        Expr::Yield(value, _) => p(value),
        Expr::Block(list, _) => forall|i: int| 0 <= i < list@.len() ==> p(#[trigger] list@[i]),
        Expr::Await(value, _) => p(value),
        Expr::TyAccess { from, .. } => p(from),
        Expr::TyFunction { params, return_ty, .. } => p(return_ty) && forall|i: int|
            0 <= i < params@.len() ==> p(#[trigger] params@[i]),
        Expr::TyArray { inner, .. } => p(inner),
        Expr::TyObject { fields, .. } => forall|i: int|
            0 <= i < fields@.len() ==> field_ok(#[trigger] fields@[i], p),
        Expr::TyOptional { inner, .. } => p(inner),
        Expr::TypeOf { eval, .. } => p(eval),
        _ => true,
    }
}

/// `p` holds of the type and default value of every parameter.
pub open spec fn params_ok(params: Seq<FunctionParam>, p: spec_fn(ExprId) -> bool) -> bool {
    forall|i: int|
        0 <= i < params.len() ==> opt_ok((#[trigger] params[i]).ty, p) && opt_ok(params[i].default_value, p)
}

/// `p` holds of the types a struct field names.
pub open spec fn field_ok(f: StructTypeField, p: spec_fn(ExprId) -> bool) -> bool {
    match f {
        StructTypeField::Field(_, t) => p(t),
        StructTypeField::Enum(vs) => forall|i: int|
            0 <= i < vs@.len() ==> opt_ok((#[trigger] vs@[i]).1, p),
    }
}

/// What holds of every expression holds of those `e` refers to.
pub proof fn lemma_refs_all_weaken(e: Expr, p: spec_fn(ExprId) -> bool, q: spec_fn(ExprId) -> bool)
    requires
        refs_all(e, p),
        forall|x: ExprId| #[trigger] p(x) ==> q(x),
    ensures
        refs_all(e, q),
{
    match e {
        Expr::TyObject { fields, .. } => {
            assert forall|i: int| 0 <= i < fields@.len() implies field_ok(#[trigger] fields@[i], q) by {
                assert(field_ok(fields@[i], p));
            }
        },
        _ => {},
    }
}

impl Expr {
    /// Where the expression was written.
    pub open spec fn spec_span(&self) -> Span {
        match self {
            Expr::Bool(_, span) => *span,
            Expr::Int(_, span) => *span,
            Expr::Float(_, _, span) => *span,
            Expr::Duration(_, span) => *span,
            Expr::String(_, span) => *span,
            Expr::Ident(ident) => ident.1,
            Expr::Var { span, .. } => *span,
            Expr::Function { span, .. } => *span,
            Expr::ArrowFunction { span, .. } => *span,
            Expr::Module { span, .. } => *span,
            Expr::Using { span, .. } => *span,
            Expr::TypeDef { span, .. } => *span,
            Expr::Call { span, .. } => *span,
            Expr::InvokeIntrinsic { span, .. } => *span,
            Expr::FieldAccess { span, .. } => *span,
            Expr::Assign { span, .. } => *span,
            Expr::AssignFrom { span, .. } => *span,
            Expr::LogicChain { span, .. } => *span,
            Expr::If { span, .. } => *span,
            Expr::Return(_, span) => *span,
            Expr::Yield(_, span) => *span,
            Expr::Block(_, span) => *span,
            Expr::Await(_, span) => *span,
            Expr::TyNamed { span, .. } => *span,
            Expr::TyAccess { span, .. } => *span,
            Expr::TyFunction { span, .. } => *span,
            Expr::TyArray { span, .. } => *span,
            Expr::TyObject { span, .. } => *span,
            Expr::TyOptional { span, .. } => *span,
            Expr::TypeOf { span, .. } => *span,
        }
    }

    pub fn span(&self) -> (res: Span)
        ensures
            res == self.spec_span(),
    {
        match self {
            Expr::Bool(_, span) => *span,
            Expr::Int(_, span) => *span,
            Expr::Float(_, _, span) => *span,
            Expr::Duration(_, span) => *span,
            Expr::String(_, span) => *span,
            Expr::Ident(ident) => ident.1,
            Expr::Var { span, .. } => *span,
            Expr::Function { span, .. } => *span,
            Expr::ArrowFunction { span, .. } => *span,
            Expr::Module { span, .. } => *span,
            Expr::Using { span, .. } => *span,
            Expr::TypeDef { span, .. } => *span,
            Expr::Call { span, .. } => *span,
            Expr::InvokeIntrinsic { span, .. } => *span,
            Expr::FieldAccess { span, .. } => *span,
            Expr::Assign { span, .. } => *span,
            Expr::AssignFrom { span, .. } => *span,
            Expr::LogicChain { span, .. } => *span,
            Expr::If { span, .. } => *span,
            Expr::Return(_, span) => *span,
            Expr::Yield(_, span) => *span,
            Expr::Block(_, span) => *span,
            Expr::Await(_, span) => *span,
            Expr::TyNamed { span, .. } => *span,
            Expr::TyAccess { span, .. } => *span,
            Expr::TyFunction { span, .. } => *span,
            Expr::TyArray { span, .. } => *span,
            Expr::TyObject { span, .. } => *span,
            Expr::TyOptional { span, .. } => *span,
            Expr::TypeOf { span, .. } => *span,
        }
    }
}

/// Whether an expression `e` must be followed by a semicolon in a list of
/// statements: a definition or block-like construct does not need one,
/// and some constructs need one exactly when the expression they end with
/// does. `r` bounds the positions of the pool's expressions that are
/// followed.
pub open spec fn semicolon_needed(exprs: Exprs, e: Expr, r: nat) -> bool
    decreases r, 1nat,
{
    match e {
        Expr::Function { body, .. } => sub_needed(exprs, body, r),
        Expr::ArrowFunction { body, .. } => sub_needed(exprs, body, r),
        Expr::Module { .. } => false,
        Expr::TypeDef { ty, .. } => sub_needed(exprs, ty, r),
        Expr::AssignFrom { .. } => false,
        Expr::If { truthy, falsy, .. } => sub_needed(
            exprs,
            match falsy {
                Some(f) => f,
                None => truthy,
            },
            r,
        ),
        Expr::Return(value, _) => match value {
            Some(v) => sub_needed(exprs, v, r),
            None => true,
        },
        Expr::Yield(value, _) => sub_needed(exprs, value, r),
        Expr::Block(..) => false,
        Expr::Await(value, _) => sub_needed(exprs, value, r),
        Expr::TyObject { .. } => false,
        _ => true,
    }
}

/// Whether expression `id` of the pool must be followed by a semicolon.
pub open spec fn sub_needed(exprs: Exprs, id: ExprId, r: nat) -> bool
    decreases r, 0nat,
{
    if exprs.spec_contains(id) && exprs.spec_rank(id) < r {
        semicolon_needed(exprs, exprs.spec_get(id), exprs.spec_rank(id))
    } else {
        true
    }
}

/// Whether expression `id` of the pool must be followed by a semicolon.
fn sub_requires_semicolon(exprs: &Exprs, id: ExprId, Ghost(r): Ghost<nat>) -> (res: bool)
    requires
        exprs.wf(),
        exprs.below(r)(id),
    ensures
        res == sub_needed(*exprs, id, r),
    decreases r, 0nat,
{
    proof {
        exprs.lemma_refs_below(id);
    }
    exprs.get(id).requires_semicolon_below(exprs, Ghost(exprs.spec_rank(id)))
}

impl Expr {
    /// Whether the expression must be followed by a semicolon, when all it
    /// refers to comes before position `r` of the pool.
    fn requires_semicolon_below(&self, exprs: &Exprs, Ghost(r): Ghost<nat>) -> (res: bool)
        requires
            exprs.wf(),
            refs_all(*self, exprs.below(r)),
        ensures
            res == semicolon_needed(*exprs, *self, r),
        decreases r, 1nat,
    {
        match self {
            Expr::Bool(..) => true,
            Expr::Int(..) => true,
            Expr::Float(..) => true,
            Expr::Duration(..) => true,
            Expr::String(..) => true,
            Expr::Ident(..) => true,
            Expr::Var { .. } => true,
            Expr::Function { body, .. } => sub_requires_semicolon(exprs, *body, Ghost(r)),
            Expr::ArrowFunction { body, .. } => sub_requires_semicolon(exprs, *body, Ghost(r)),
            Expr::Module { .. } => false,
            Expr::Using { .. } => true,
            Expr::TypeDef { ty, .. } => sub_requires_semicolon(exprs, *ty, Ghost(r)),
            Expr::Call { .. } => true,
            Expr::InvokeIntrinsic { .. } => true,
            Expr::FieldAccess { .. } => true,
            Expr::Assign { .. } => true,
            Expr::AssignFrom { .. } => false,
            Expr::LogicChain { .. } => true,
            Expr::If { truthy, falsy, .. } => {
                let last = match falsy {
                    Some(f) => *f,
                    None => *truthy,
                };
                sub_requires_semicolon(exprs, last, Ghost(r))
            },
            Expr::Return(value, ..) => match value {
                Some(v) => sub_requires_semicolon(exprs, *v, Ghost(r)),
                None => true,
            },
            Expr::Yield(value, ..) => sub_requires_semicolon(exprs, *value, Ghost(r)),
            Expr::Block(..) => false,
            Expr::Await(value, _) => sub_requires_semicolon(exprs, *value, Ghost(r)),
            Expr::TyNamed { .. } => true,
            Expr::TyAccess { .. } => true,
            Expr::TyFunction { .. } => true,
            Expr::TyArray { .. } => true,
            Expr::TyObject { .. } => false,
            Expr::TyOptional { .. } => true,
            Expr::TypeOf { .. } => true,
        }
    }

    /// Whether the expression must be followed by a semicolon in a list of
    /// statements (see `semicolon_needed`).
    pub fn requires_semicolon(&self, codebase: &Codebase) -> (res: bool)
        requires
            codebase.exprs.wf(),
            refs_all(*self, codebase.exprs.held()),
        ensures
            res == semicolon_needed(
                codebase.exprs,
                *self,
                codebase.exprs.spec_exprs().dom().len(),
            ),
    {
        let ghost n = codebase.exprs.spec_exprs().dom().len();
        proof {
            assert forall|x: ExprId| #[trigger] codebase.exprs.held()(x) implies codebase.exprs.below(
                n,
            )(x) by {
                codebase.exprs.lemma_refs_below(x);
            }
            lemma_refs_all_weaken(*self, codebase.exprs.held(), codebase.exprs.below(n));
        }
        self.requires_semicolon_below(&codebase.exprs, Ghost(n))
    }

    /// Stores the expression in the codebase's pool.
    pub fn add_into(self, codebase: &mut Codebase) -> (res: ExprId)
        requires
            old(codebase).exprs.wf(),
            refs_all(self, old(codebase).exprs.held()),
            old(codebase).exprs.spec_exprs().dom().len() + 1 < u32::MAX,
        ensures
            final(codebase).exprs.wf(),
            !old(codebase).exprs.spec_contains(res),
            final(codebase).exprs.spec_exprs() == old(codebase).exprs.spec_exprs().insert(res.0, self),
    {
        codebase.exprs.add(self)
    }
}

/// Options for parsing a module.
#[derive(Debug, Clone, Copy)]
pub struct ParseArgs {
    /// Whether expressions other than definitions may stand at the root
    /// (useful for tests)
    pub allow_non_definitions_at_root: bool,
    /// Whether `using std::prelude::{...}` is added in front
    pub add_std_prelude_import: bool,
}

impl Default for ParseArgs {
    fn default() -> (res: Self)
        ensures
            !res.allow_non_definitions_at_root,
            !res.add_std_prelude_import,
    {
        Self { allow_non_definitions_at_root: false, add_std_prelude_import: false }
    }
}

/// The parsed expressions at the root of a module, in order.
#[derive(Debug)]
pub struct Ast(pub Vec<ExprId>);

impl Ast {
    pub fn exprs(&self) -> (res: &[ExprId])
        ensures
            res@ == self.0@,
    {
        self.0.as_slice()
    }
}

} // verus!
