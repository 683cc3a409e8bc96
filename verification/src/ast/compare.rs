use vstd::prelude::*;

use crate::ast::expr::{
    lemma_refs_all_weaken, opt_ok, params_ok, field_ok, refs_all, Expr, FunctionParam, FunctionParamKind,
    FunctionType, Ident, LogicChainType, StringComp, StructTypeField, UsingIdentItem,
};
use crate::entities::src::str_eq;
use crate::pools::exprs::{ExprId, Exprs};
use crate::tokens::token::Duration;

verus! {

/// Which expressions of the pool are the same tree, spans aside, when
/// only what lies before position `r` of the pool is looked at: those that
/// lie there and are `same_expr` with what they refer to compared one
/// position lower.
pub open spec fn same_rel(exprs: Exprs, r: nat) -> spec_fn(ExprId, ExprId) -> bool
    decreases r,
{
    if r == 0 {
        |x: ExprId, y: ExprId| false
    } else {
        let prev = same_rel(exprs, (r - 1) as nat);
        |x: ExprId, y: ExprId|
            exprs.spec_contains(x) && exprs.spec_contains(y) && exprs.spec_rank(x) < r && exprs.spec_rank(y) < r
                && same_expr(exprs.spec_get(x), exprs.spec_get(y), prev)
    }
}

/// Expressions `x` and `y` of the pool are the same tree, spans aside,
/// looking only at what lies before position `r` of the pool.
pub open spec fn same_id(exprs: Exprs, x: ExprId, y: ExprId, r: nat) -> bool {
    same_rel(exprs, r)(x, y)
}

/// Both or neither of `x` and `y` hold an expression, and those held are
/// the same tree.
pub open spec fn same_opt(x: Option<ExprId>, y: Option<ExprId>, rel: spec_fn(ExprId, ExprId) -> bool) -> bool
{
    match (x, y) {
        (Some(a), Some(b)) => rel(a, b),
        (None, None) => true,
        _ => false,
    }
}

/// `xs` and `ys` are as long, and hold the same trees, in order.
pub open spec fn same_ids(xs: Seq<ExprId>, ys: Seq<ExprId>, rel: spec_fn(ExprId, ExprId) -> bool) -> bool
{
    xs.len() == ys.len() && forall|i: int| 0 <= i < xs.len() ==> rel(#[trigger] xs[i], ys[i])
}

/// `a` and `b` name the same names, in order (spans aside).
pub open spec fn same_names(a: Seq<Ident>, b: Seq<Ident>) -> bool {
    a.len() == b.len() && forall|i: int| 0 <= i < a.len() ==> (#[trigger] a[i]).0 == b[i].0
}

/// The parameters `a` and `b` have the same names, kinds, types and default
/// values, in order.
pub open spec fn same_params(a: Seq<FunctionParam>, b: Seq<FunctionParam>, rel: spec_fn(ExprId, ExprId) -> bool) -> bool
{
    a.len() == b.len() && forall|i: int|
        0 <= i < a.len() ==> {
            &&& (#[trigger] a[i]).name.0 == b[i].name.0
            &&& a[i].kind == b[i].kind
            &&& same_opt(a[i].ty, b[i].ty, rel)
            &&& same_opt(a[i].default_value, b[i].default_value, rel)
        }
}

/// The pieces `a` and `b` of string literals are the same text and the same
/// interpolated trees, in order.
pub open spec fn same_comps(a: Seq<StringComp>, b: Seq<StringComp>, rel: spec_fn(ExprId, ExprId) -> bool) -> bool
{
    a.len() == b.len() && forall|i: int|
        0 <= i < a.len() ==> match (#[trigger] a[i], b[i]) {
            (StringComp::String(s), StringComp::String(t)) => s@ == t@,
            (StringComp::Expr(x), StringComp::Expr(y)) => rel(x, y),
            _ => false,
        }
}

/// The arguments `a` and `b` of calls have the same names (or none) and
/// the same trees, in order.
pub open spec fn same_args(a: Seq<(Option<Ident>, ExprId)>, b: Seq<(Option<Ident>, ExprId)>, rel: spec_fn(ExprId, ExprId) -> bool) -> bool
{
    a.len() == b.len() && forall|i: int|
        0 <= i < a.len() ==> {
            &&& match ((#[trigger] a[i]).0, b[i].0) {
                (Some(m), Some(n)) => m.0 == n.0,
                (None, None) => true,
                _ => false,
            }
            &&& rel(a[i].1, b[i].1)
        }
}

/// The fields `a` and `b` of struct types are the same, in order.
pub open spec fn same_fields(a: Seq<StructTypeField>, b: Seq<StructTypeField>, rel: spec_fn(ExprId, ExprId) -> bool) -> bool
{
    a.len() == b.len() && forall|i: int|
        0 <= i < a.len() ==> match (#[trigger] a[i], b[i]) {
            (StructTypeField::Field(m, x), StructTypeField::Field(n, y)) => m.0 == n.0 && rel(x, y),
            (StructTypeField::Enum(v), StructTypeField::Enum(w)) => v@.len() == w@.len() && forall|j: int|
                0 <= j < v@.len() ==> (#[trigger] v@[j]).0.0 == w@[j].0.0 && same_opt(v@[j].1, w@[j].1, rel),
            _ => false,
        }
}

/// The expressions `a` and `b` are the same tree, spans aside: the same
/// kind with the same values, names and symbols, and expressions below
/// them that `rel` relates.
pub open spec fn same_expr(a: Expr, b: Expr, rel: spec_fn(ExprId, ExprId) -> bool) -> bool
{
    match a {
        Expr::Bool(x, _) => b matches Expr::Bool(y, _) && x == y,
        Expr::Int(x, _) => b matches Expr::Int(y, _) && x == y,
        Expr::Float(x, t, _) => b matches Expr::Float(y, u, _) && x@ == y@ && t == u,
        Expr::Duration(x, _) => b matches Expr::Duration(y, _) && same_duration(x, y),
        Expr::String(x, _) => b matches Expr::String(y, _) && same_comps(x@, y@, rel),
        Expr::Ident(x) => b matches Expr::Ident(y) && same_names(x.0@, y.0@),
        Expr::Var { visibility, name, ty, value, is_const, .. } => b matches Expr::Var {
            visibility: v2,
            name: n2,
            ty: t2,
            value: x2,
            is_const: c2,
            ..
        } && visibility == v2 && name.0 == n2.0 && same_opt(ty, t2, rel) && same_opt(value, x2, rel)
            && is_const == c2,
        Expr::Function { visibility, ty, name, params, return_ty, body, is_const, .. } => b matches Expr::Function {
            visibility: v2,
            ty: t2,
            name: n2,
            params: p2,
            return_ty: r2,
            body: b2,
            is_const: c2,
            ..
        } && visibility == v2 && ty == t2 && same_names(name.0@, n2.0@) && same_params(params@, p2@, rel)
            && same_opt(return_ty, r2, rel) && rel(body, b2) && is_const == c2,
        Expr::ArrowFunction { params, body, .. } => b matches Expr::ArrowFunction { params: p2, body: b2, .. }
            && same_params(params@, p2@, rel) && rel(body, b2),
        Expr::Module { visibility, name, items, .. } => b matches Expr::Module {
            visibility: v2,
            name: n2,
            items: i2,
            ..
        } && visibility == v2 && same_names(name.0@, n2.0@) && same_ids(items@, i2@, rel),
        Expr::Using { visibility, path, .. } => b matches Expr::Using { visibility: v2, path: p2, .. }
            && visibility == v2 && same_names(path.parent.0@, p2.parent.0@) && match (path.item, p2.item) {
            (UsingIdentItem::AllItems, UsingIdentItem::AllItems) => true,
            (UsingIdentItem::Items(x), UsingIdentItem::Items(y)) => same_names(x@, y@),
            _ => false,
        },
        Expr::TypeDef { visibility, name, ty, .. } => b matches Expr::TypeDef {
            visibility: v2,
            name: n2,
            ty: t2,
            ..
        } && visibility == v2 && same_names(name.0@, n2.0@) && rel(ty, t2),
        Expr::Call { target, args, op, .. } => b matches Expr::Call { target: t2, args: a2, op: o2, .. }
            && rel(target, t2) && same_args(args@, a2@, rel) && match (op, o2) {
            (Some(x), Some(y)) => x.0 == y.0,
            (None, None) => true,
            _ => false,
        },
        Expr::InvokeIntrinsic { intrinsic, args, .. } => b matches Expr::InvokeIntrinsic {
            intrinsic: i2,
            args: a2,
            ..
        } && intrinsic == i2 && same_ids(args@, a2@, rel),
        Expr::FieldAccess { target, field, optional, .. } => b matches Expr::FieldAccess {
            target: t2,
            field: f2,
            optional: o2,
            ..
        } && rel(target, t2) && same_names(field.0@, f2.0@) && optional == o2,
        Expr::Assign { target, value, op, .. } => b matches Expr::Assign { target: t2, value: v2, op: o2, .. }
            && rel(target, t2) && rel(value, v2) && op.0 == o2.0,
        Expr::AssignFrom { target, properties, body, .. } => b matches Expr::AssignFrom {
            target: t2,
            properties: p2,
            body: b2,
            ..
        } && rel(target, t2) && same_names(properties@, p2@) && rel(body, b2),
        Expr::LogicChain { values, ty, .. } => b matches Expr::LogicChain { values: v2, ty: t2, .. }
            && same_ids(values@, v2@, rel) && ty == t2,
        Expr::If { clause, truthy, falsy, .. } => b matches Expr::If { clause: c2, truthy: t2, falsy: f2, .. }
            && rel(clause, c2) && rel(truthy, t2) && same_opt(falsy, f2, rel),
        Expr::Return(x, _) => b matches Expr::Return(y, _) && same_opt(x, y, rel),
        Expr::Yield(x, _) => b matches Expr::Yield(y, _) && rel(x, y),
        Expr::Block(x, _) => b matches Expr::Block(y, _) && same_ids(x@, y@, rel),
        Expr::Await(x, _) => b matches Expr::Await(y, _) && rel(x, y),
        Expr::TyNamed { name, .. } => b matches Expr::TyNamed { name: n2, .. } && name.0 == n2.0,
        Expr::TyAccess { from, item, .. } => b matches Expr::TyAccess { from: f2, item: i2, .. }
            && rel(from, f2) && same_names(item.0@, i2.0@),
        Expr::TyFunction { params, return_ty, .. } => b matches Expr::TyFunction {
            params: p2,
            return_ty: r2,
            ..
        } && same_ids(params@, p2@, rel) && rel(return_ty, r2),
        Expr::TyArray { inner, .. } => b matches Expr::TyArray { inner: i2, .. } && rel(inner, i2),
        Expr::TyObject { fields, .. } => b matches Expr::TyObject { fields: f2, .. } && same_fields(fields@, f2@, rel),
        Expr::TyOptional { inner, .. } => b matches Expr::TyOptional { inner: i2, .. } && rel(inner, i2),
        Expr::TypeOf { eval, .. } => b matches Expr::TypeOf { eval: e2, .. } && rel(eval, e2),
    }
}

/// `a` and `b` are the same duration, as written.
pub open spec fn same_duration(a: Duration, b: Duration) -> bool {
    match (a, b) {
        (Duration::Seconds(t, p), Duration::Seconds(u, q)) => t@ == u@ && p == q,
        (Duration::Frames(n), Duration::Frames(m)) => n == m,
        _ => false,
    }
}

/// An expression is the same tree as itself when every expression it
/// refers to is.
proof fn lemma_same_expr_refl(e: Expr, rel: spec_fn(ExprId, ExprId) -> bool, p: spec_fn(ExprId) -> bool)
    requires
        refs_all(e, p),
        forall|c: ExprId| #[trigger] p(c) ==> rel(c, c),
    ensures
        same_expr(e, e, rel),
{
    match e {
        Expr::Function { params, .. } => {
            assert(same_params(params@, params@, rel));
        },
        Expr::ArrowFunction { params, .. } => {
            assert(same_params(params@, params@, rel));
        },
        Expr::TyObject { fields, .. } => {
            assert forall|i: int| 0 <= i < fields@.len() implies match (#[trigger] fields@[i], fields@[i]) {
                (StructTypeField::Field(m, x), StructTypeField::Field(n, y)) => m.0 == n.0 && rel(x, y),
                (StructTypeField::Enum(v), StructTypeField::Enum(w)) => v@.len() == w@.len() && forall|j: int|
                    0 <= j < v@.len() ==> (#[trigger] v@[j]).0.0 == w@[j].0.0 && same_opt(v@[j].1, w@[j].1, rel),
                _ => false,
            } by {
                assert(field_ok(fields@[i], p));
            }
        },
        _ => {},
    }
}

/// Every expression of the pool is the same tree as itself.
pub proof fn lemma_same_refl(exprs: Exprs, x: ExprId, r: nat)
    requires
        exprs.wf(),
        exprs.spec_contains(x),
        exprs.spec_rank(x) < r,
    ensures
        same_id(exprs, x, x, r),
    decreases r,
{
    let m = (r - 1) as nat;
    exprs.lemma_refs_below(x);
    lemma_refs_all_weaken(exprs.spec_get(x), exprs.below(exprs.spec_rank(x)), exprs.below(m));
    assert forall|c: ExprId| #[trigger] exprs.below(m)(c) implies same_rel(exprs, m)(c, c) by {
        lemma_same_refl(exprs, c, m);
    }
    lemma_same_expr_refl(exprs.spec_get(x), same_rel(exprs, m), exprs.below(m));
}

/// Comparing two expressions the other way round gives the same answer,
/// when `rel` does.
proof fn lemma_same_expr_symm(a: Expr, b: Expr, rel: spec_fn(ExprId, ExprId) -> bool)
    requires
        forall|c: ExprId, d: ExprId| #[trigger] rel(c, d) ==> rel(d, c),
        same_expr(a, b, rel),
    ensures
        same_expr(b, a, rel),
{
    match (a, b) {
        (Expr::String(x, _), Expr::String(y, _)) => {
            assert forall|i: int| 0 <= i < y@.len() implies match (#[trigger] y@[i], x@[i]) {
                (StringComp::String(s), StringComp::String(t)) => s@ == t@,
                (StringComp::Expr(p), StringComp::Expr(q)) => rel(p, q),
                _ => false,
            } by {
                assert(match (x@[i], y@[i]) {
                    (StringComp::String(s), StringComp::String(t)) => s@ == t@,
                    (StringComp::Expr(p), StringComp::Expr(q)) => rel(p, q),
                    _ => false,
                });
            }
        },
        (Expr::Function { params: p1, .. }, Expr::Function { params: p2, .. }) => {
            assert forall|i: int| 0 <= i < p2@.len() implies {
                &&& (#[trigger] p2@[i]).name.0 == p1@[i].name.0
                &&& p2@[i].kind == p1@[i].kind
                &&& same_opt(p2@[i].ty, p1@[i].ty, rel)
                &&& same_opt(p2@[i].default_value, p1@[i].default_value, rel)
            } by {
                assert(p1@[i].name.0 == p2@[i].name.0);
            }
        },
        (Expr::ArrowFunction { params: p1, .. }, Expr::ArrowFunction { params: p2, .. }) => {
            assert forall|i: int| 0 <= i < p2@.len() implies {
                &&& (#[trigger] p2@[i]).name.0 == p1@[i].name.0
                &&& p2@[i].kind == p1@[i].kind
                &&& same_opt(p2@[i].ty, p1@[i].ty, rel)
                &&& same_opt(p2@[i].default_value, p1@[i].default_value, rel)
            } by {
                assert(p1@[i].name.0 == p2@[i].name.0);
            }
        },
        (Expr::Call { args: a1, .. }, Expr::Call { args: a2, .. }) => {
            assert forall|i: int| 0 <= i < a2@.len() implies {
                &&& match ((#[trigger] a2@[i]).0, a1@[i].0) {
                    (Some(m), Some(n)) => m.0 == n.0,
                    (None, None) => true,
                    _ => false,
                }
                &&& rel(a2@[i].1, a1@[i].1)
            } by {
                assert(rel(a1@[i].1, a2@[i].1));
            }
        },
        (Expr::TyObject { fields: f1, .. }, Expr::TyObject { fields: f2, .. }) => {
            assert forall|i: int| 0 <= i < f2@.len() implies match (#[trigger] f2@[i], f1@[i]) {
                (StructTypeField::Field(m, x), StructTypeField::Field(n, y)) => m.0 == n.0 && rel(x, y),
                (StructTypeField::Enum(v), StructTypeField::Enum(w)) => v@.len() == w@.len() && forall|j: int|
                    0 <= j < v@.len() ==> (#[trigger] v@[j]).0.0 == w@[j].0.0 && same_opt(v@[j].1, w@[j].1, rel),
                _ => false,
            } by {
                assert(match (f1@[i], f2@[i]) {
                    (StructTypeField::Field(m, x), StructTypeField::Field(n, y)) => m.0 == n.0 && rel(x, y),
                    (StructTypeField::Enum(v), StructTypeField::Enum(w)) => v@.len() == w@.len() && forall|j: int|
                        0 <= j < v@.len() ==> (#[trigger] v@[j]).0.0 == w@[j].0.0 && same_opt(v@[j].1, w@[j].1, rel),
                    _ => false,
                });
                if let (StructTypeField::Enum(v), StructTypeField::Enum(w)) = (f1@[i], f2@[i]) {
                    assert forall|j: int| 0 <= j < w@.len() implies (#[trigger] w@[j]).0.0 == v@[j].0.0 && same_opt(
                        w@[j].1,
                        v@[j].1,
                        rel,
                    ) by {
                        assert(v@[j].0.0 == w@[j].0.0);
                    }
                }
            }
        },
        _ => {},
    }
}

/// Whether two expressions of the pool are the same tree does not depend
/// on which is named first.
pub proof fn lemma_same_symm(exprs: Exprs, x: ExprId, y: ExprId, r: nat)
    requires
        same_id(exprs, x, y, r),
    ensures
        same_id(exprs, y, x, r),
    decreases r,
{
    let m = (r - 1) as nat;
    assert forall|c: ExprId, d: ExprId| #[trigger] same_rel(exprs, m)(c, d) implies same_rel(exprs, m)(d, c) by {
        lemma_same_symm(exprs, c, d, m);
    }
    lemma_same_expr_symm(exprs.spec_get(x), exprs.spec_get(y), same_rel(exprs, m));
}

/// `a` and `b` are the same duration, as written.
fn duration_eq(a: &Duration, b: &Duration) -> (res: bool)
    ensures
        res == same_duration(*a, *b),
{
    match a {
        Duration::Seconds(t, p) => match b {
            Duration::Seconds(u, q) => str_eq(t.as_str(), u.as_str()) && *p == *q,
            _ => false,
        },
        Duration::Frames(n) => match b {
            Duration::Frames(m) => *n == *m,
            _ => false,
        },
    }
}

/// `a` and `b` are the same kind of parameter.
fn kind_eq(a: &FunctionParamKind, b: &FunctionParamKind) -> (res: bool)
    ensures
        res == (*a == *b),
{
    match a {
        FunctionParamKind::Normal => matches!(b, FunctionParamKind::Normal),
        FunctionParamKind::Ref => matches!(b, FunctionParamKind::Ref),
        FunctionParamKind::Const => matches!(b, FunctionParamKind::Const),
    }
}

/// `a` and `b` are the same kind of function.
fn function_type_eq(a: &FunctionType, b: &FunctionType) -> (res: bool)
    ensures
        res == (*a == *b),
{
    match a {
        FunctionType::Function => matches!(b, FunctionType::Function),
        FunctionType::Effect => matches!(b, FunctionType::Effect),
        FunctionType::Clip => matches!(b, FunctionType::Clip),
    }
}

/// `a` and `b` combine their values alike.
fn chain_type_eq(a: &LogicChainType, b: &LogicChainType) -> (res: bool)
    ensures
        res == (*a == *b),
{
    match a {
        LogicChainType::And => matches!(b, LogicChainType::And),
        LogicChainType::Or => matches!(b, LogicChainType::Or),
    }
}

/// `a` and `b` name the same names, in order.
fn names_eq(a: &Vec<Ident>, b: &Vec<Ident>) -> (res: bool)
    ensures
        res == same_names(a@, b@),
{
    if a.len() != b.len() {
        return false;
    }
    let mut i: usize = 0;
    while i < a.len()
        invariant
            a.len() == b.len(),
            i <= a.len(),
            forall|j: int| 0 <= j < i ==> (#[trigger] a@[j]).0 == b@[j].0,
        decreases a.len() - i,
    {
        if a[i].0 != b[i].0 {
            return false;
        }
        i = i + 1;
    }
    true
}

/// Expressions `x` and `y` of the pool are the same tree.
fn id_eq(exprs: &Exprs, x: ExprId, y: ExprId, Ghost(r): Ghost<nat>) -> (res: bool)
    requires
        exprs.wf(),
        exprs.below(r)(x),
        exprs.below(r)(y),
    ensures
        res == same_id(*exprs, x, y, r),
    decreases r, 0nat,
{
    let ghost m = (r - 1) as nat;
    proof {
        exprs.lemma_refs_below(x);
        exprs.lemma_refs_below(y);
        lemma_refs_all_weaken(exprs.spec_get(x), exprs.below(exprs.spec_rank(x)), exprs.below(m));
        lemma_refs_all_weaken(exprs.spec_get(y), exprs.below(exprs.spec_rank(y)), exprs.below(m));
    }
    exprs.get(x).eq_below(exprs.get(y), exprs, Ghost(m))
}

/// Both or neither of `x` and `y` hold an expression, the same tree.
fn opt_eq(exprs: &Exprs, x: Option<ExprId>, y: Option<ExprId>, Ghost(r): Ghost<nat>) -> (res: bool)
    requires
        exprs.wf(),
        opt_ok(x, exprs.below(r)),
        opt_ok(y, exprs.below(r)),
    ensures
        res == same_opt(x, y, same_rel(*exprs, r)),
    decreases r, 1nat,
{
    match x {
        Some(a) => match y {
            Some(b) => id_eq(exprs, a, b, Ghost(r)),
            None => false,
        },
        None => y.is_none(),
    }
}

/// `xs` and `ys` hold the same trees, in order.
fn ids_eq(exprs: &Exprs, xs: &Vec<ExprId>, ys: &Vec<ExprId>, Ghost(r): Ghost<nat>) -> (res: bool)
    requires
        exprs.wf(),
        forall|i: int| 0 <= i < xs@.len() ==> exprs.below(r)(#[trigger] xs@[i]),
        forall|i: int| 0 <= i < ys@.len() ==> exprs.below(r)(#[trigger] ys@[i]),
    ensures
        res == same_ids(xs@, ys@, same_rel(*exprs, r)),
    decreases r, 1nat,
{
    if xs.len() != ys.len() {
        return false;
    }
    let mut i: usize = 0;
    while i < xs.len()
        invariant
            exprs.wf(),
            xs@.len() == ys@.len(),
            i <= xs@.len(),
            forall|k: int| 0 <= k < xs@.len() ==> exprs.below(r)(#[trigger] xs@[k]),
            forall|k: int| 0 <= k < ys@.len() ==> exprs.below(r)(#[trigger] ys@[k]),
            forall|j: int| 0 <= j < i ==> same_id(*exprs, #[trigger] xs@[j], ys@[j], r),
        decreases xs.len() - i,
    {
        if !id_eq(exprs, xs[i], ys[i], Ghost(r)) {
            return false;
        }
        i = i + 1;
    }
    true
}

/// The parameters `a` and `b` are the same, in order.
fn params_eq(exprs: &Exprs, a: &Vec<FunctionParam>, b: &Vec<FunctionParam>, Ghost(r): Ghost<nat>) -> (res: bool)
    requires
        exprs.wf(),
        params_ok(a@, exprs.below(r)),
        params_ok(b@, exprs.below(r)),
    ensures
        res == same_params(a@, b@, same_rel(*exprs, r)),
    decreases r, 2nat,
{
    if a.len() != b.len() {
        return false;
    }
    let mut i: usize = 0;
    while i < a.len()
        invariant
            exprs.wf(),
            a@.len() == b@.len(),
            i <= a@.len(),
            params_ok(a@, exprs.below(r)),
            params_ok(b@, exprs.below(r)),
            forall|j: int|
                0 <= j < i ==> {
                    &&& (#[trigger] a@[j]).name.0 == b@[j].name.0
                    &&& a@[j].kind == b@[j].kind
                    &&& same_opt(a@[j].ty, b@[j].ty, same_rel(*exprs, r))
                    &&& same_opt(a@[j].default_value, b@[j].default_value, same_rel(*exprs, r))
                },
        decreases a.len() - i,
    {
        let pa = &a[i];
        let pb = &b[i];
        proof {
            assert(opt_ok(a@[i as int].ty, exprs.below(r)));
            assert(opt_ok(b@[i as int].ty, exprs.below(r)));
        }
        if pa.name.0 != pb.name.0 || !kind_eq(&pa.kind, &pb.kind) || !opt_eq(exprs, pa.ty, pb.ty, Ghost(r))
            || !opt_eq(exprs, pa.default_value, pb.default_value, Ghost(r)) {
            return false;
        }
        i = i + 1;
    }
    true
}

/// The pieces `a` and `b` of string literals are the same, in order.
fn comps_eq(exprs: &Exprs, a: &Vec<StringComp>, b: &Vec<StringComp>, Ghost(r): Ghost<nat>) -> (res: bool)
    requires
        exprs.wf(),
        forall|i: int| 0 <= i < a@.len() ==> ((#[trigger] a@[i]) matches StringComp::Expr(x) ==> exprs.below(r)(x)),
        forall|i: int| 0 <= i < b@.len() ==> ((#[trigger] b@[i]) matches StringComp::Expr(x) ==> exprs.below(r)(x)),
    ensures
        res == same_comps(a@, b@, same_rel(*exprs, r)),
    decreases r, 2nat,
{
    if a.len() != b.len() {
        return false;
    }
    let mut i: usize = 0;
    while i < a.len()
        invariant
            exprs.wf(),
            a@.len() == b@.len(),
            i <= a@.len(),
            forall|k: int| 0 <= k < a@.len() ==> ((#[trigger] a@[k]) matches StringComp::Expr(x) ==> exprs.below(r)(x)),
            forall|k: int| 0 <= k < b@.len() ==> ((#[trigger] b@[k]) matches StringComp::Expr(x) ==> exprs.below(r)(x)),
            forall|j: int|
                0 <= j < i ==> match (#[trigger] a@[j], b@[j]) {
                    (StringComp::String(s), StringComp::String(t)) => s@ == t@,
                    (StringComp::Expr(x), StringComp::Expr(y)) => same_id(*exprs, x, y, r),
                    _ => false,
                },
        decreases a.len() - i,
    {
        let same = match &a[i] {
            StringComp::String(s) => match &b[i] {
                StringComp::String(t) => str_eq(s.as_str(), t.as_str()),
                _ => false,
            },
            StringComp::Expr(x) => match &b[i] {
                StringComp::Expr(y) => id_eq(exprs, *x, *y, Ghost(r)),
                _ => false,
            },
        };
        if !same {
            return false;
        }
        i = i + 1;
    }
    true
}

/// The arguments `a` and `b` of calls are the same, in order.
fn args_eq(
    exprs: &Exprs,
    a: &Vec<(Option<Ident>, ExprId)>,
    b: &Vec<(Option<Ident>, ExprId)>,
    Ghost(r): Ghost<nat>,
) -> (res: bool)
    requires
        exprs.wf(),
        forall|i: int| 0 <= i < a@.len() ==> exprs.below(r)((#[trigger] a@[i]).1),
        forall|i: int| 0 <= i < b@.len() ==> exprs.below(r)((#[trigger] b@[i]).1),
    ensures
        res == same_args(a@, b@, same_rel(*exprs, r)),
    decreases r, 2nat,
{
    if a.len() != b.len() {
        return false;
    }
    let mut i: usize = 0;
    while i < a.len()
        invariant
            exprs.wf(),
            a@.len() == b@.len(),
            i <= a@.len(),
            forall|k: int| 0 <= k < a@.len() ==> exprs.below(r)((#[trigger] a@[k]).1),
            forall|k: int| 0 <= k < b@.len() ==> exprs.below(r)((#[trigger] b@[k]).1),
            forall|j: int|
                0 <= j < i ==> {
                    &&& match ((#[trigger] a@[j]).0, b@[j].0) {
                        (Some(m), Some(n)) => m.0 == n.0,
                        (None, None) => true,
                        _ => false,
                    }
                    &&& same_id(*exprs, a@[j].1, b@[j].1, r)
                },
        decreases a.len() - i,
    {
        let names_same = match &a[i].0 {
            Some(m) => match &b[i].0 {
                Some(n) => m.0 == n.0,
                None => false,
            },
            None => b[i].0.is_none(),
        };
        if !names_same || !id_eq(exprs, a[i].1, b[i].1, Ghost(r)) {
            return false;
        }
        i = i + 1;
    }
    true
}

/// The entries `v` and `w` of an enum field have the same names and types.
fn entries_eq(
    exprs: &Exprs,
    v: &Vec<(Ident, Option<ExprId>)>,
    w: &Vec<(Ident, Option<ExprId>)>,
    Ghost(r): Ghost<nat>,
) -> (res: bool)
    requires
        exprs.wf(),
        forall|i: int| 0 <= i < v@.len() ==> opt_ok((#[trigger] v@[i]).1, exprs.below(r)),
        forall|i: int| 0 <= i < w@.len() ==> opt_ok((#[trigger] w@[i]).1, exprs.below(r)),
    ensures
        res == (v@.len() == w@.len() && forall|j: int|
            0 <= j < v@.len() ==> (#[trigger] v@[j]).0.0 == w@[j].0.0 && same_opt(v@[j].1, w@[j].1, same_rel(*exprs, r))),
    decreases r, 2nat,
{
    if v.len() != w.len() {
        return false;
    }
    let mut i: usize = 0;
    while i < v.len()
        invariant
            exprs.wf(),
            v@.len() == w@.len(),
            i <= v@.len(),
            forall|k: int| 0 <= k < v@.len() ==> opt_ok((#[trigger] v@[k]).1, exprs.below(r)),
            forall|k: int| 0 <= k < w@.len() ==> opt_ok((#[trigger] w@[k]).1, exprs.below(r)),
            forall|j: int| 0 <= j < i ==> (#[trigger] v@[j]).0.0 == w@[j].0.0 && same_opt(v@[j].1, w@[j].1, same_rel(*exprs, r)),
        decreases v.len() - i,
    {
        if v[i].0.0 != w[i].0.0 || !opt_eq(exprs, v[i].1, w[i].1, Ghost(r)) {
            return false;
        }
        i = i + 1;
    }
    true
}

/// The fields `a` and `b` of struct types are the same, in order.
fn fields_eq(exprs: &Exprs, a: &Vec<StructTypeField>, b: &Vec<StructTypeField>, Ghost(r): Ghost<nat>) -> (res: bool)
    requires
        exprs.wf(),
        forall|i: int| 0 <= i < a@.len() ==> field_ok(#[trigger] a@[i], exprs.below(r)),
        forall|i: int| 0 <= i < b@.len() ==> field_ok(#[trigger] b@[i], exprs.below(r)),
    ensures
        res == same_fields(a@, b@, same_rel(*exprs, r)),
    decreases r, 3nat,
{
    if a.len() != b.len() {
        return false;
    }
    let mut i: usize = 0;
    while i < a.len()
        invariant
            exprs.wf(),
            a@.len() == b@.len(),
            i <= a@.len(),
            forall|k: int| 0 <= k < a@.len() ==> field_ok(#[trigger] a@[k], exprs.below(r)),
            forall|k: int| 0 <= k < b@.len() ==> field_ok(#[trigger] b@[k], exprs.below(r)),
            forall|j: int|
                0 <= j < i ==> match (#[trigger] a@[j], b@[j]) {
                    (StructTypeField::Field(m, x), StructTypeField::Field(n, y)) => m.0 == n.0 && same_id(*exprs, x, y, r),
                    (StructTypeField::Enum(v), StructTypeField::Enum(w)) => v@.len() == w@.len() && forall|k: int|
                        0 <= k < v@.len() ==> (#[trigger] v@[k]).0.0 == w@[k].0.0 && same_opt(v@[k].1, w@[k].1, same_rel(*exprs, r)),
                    _ => false,
                },
        decreases a.len() - i,
    {
        proof {
            assert(field_ok(a@[i as int], exprs.below(r)));
            assert(field_ok(b@[i as int], exprs.below(r)));
        }
        let same = match &a[i] {
            StructTypeField::Field(m, x) => match &b[i] {
                StructTypeField::Field(n, y) => m.0 == n.0 && id_eq(exprs, *x, *y, Ghost(r)),
                _ => false,
            },
            StructTypeField::Enum(v) => match &b[i] {
                StructTypeField::Enum(w) => entries_eq(exprs, v, w, Ghost(r)),
                _ => false,
            },
        };
        if !same {
            return false;
        }
        i = i + 1;
    }
    true
}

/// Expressions `x` and `y` of `exprs` are the same tree, spans aside (see
/// `same_expr`).
pub fn same_tree(exprs: &Exprs, x: ExprId, y: ExprId) -> (res: bool)
    requires
        exprs.wf(),
        exprs.spec_contains(x),
        exprs.spec_contains(y),
    ensures
        res == same_id(*exprs, x, y, exprs.spec_exprs().dom().len()),
{
    proof {
        exprs.lemma_refs_below(x);
        exprs.lemma_refs_below(y);
    }
    id_eq(exprs, x, y, Ghost(exprs.spec_exprs().dom().len()))
}

impl Expr {
    /// Whether `self` and `other` are the same tree, spans aside, when all
    /// they refer to comes before position `r` of the pool.
    #[verifier::rlimit(100)]
    #[verifier::spinoff_prover]
    fn eq_below(&self, other: &Expr, exprs: &Exprs, Ghost(r): Ghost<nat>) -> (res: bool)
        requires
            exprs.wf(),
            refs_all(*self, exprs.below(r)),
            refs_all(*other, exprs.below(r)),
        ensures
            res == same_expr(*self, *other, same_rel(*exprs, r)),
        decreases r, 4nat,
    {
        match self {
            Expr::Bool(x, _) => match other {
                Expr::Bool(y, _) => *x == *y,
                _ => false,
            },
            Expr::Int(x, _) => match other {
                Expr::Int(y, _) => *x == *y,
                _ => false,
            },
            Expr::Float(x, t, _) => match other {
                Expr::Float(y, u, _) => str_eq(x.as_str(), y.as_str()) && *t == *u,
                _ => false,
            },
            Expr::Duration(x, _) => match other {
                Expr::Duration(y, _) => duration_eq(x, y),
                _ => false,
            },
            Expr::String(x, _) => match other {
                Expr::String(y, _) => comps_eq(exprs, x, y, Ghost(r)),
                _ => false,
            },
            Expr::Ident(x) => match other {
                Expr::Ident(y) => names_eq(&x.0, &y.0),
                _ => false,
            },
            Expr::Var { visibility, name, ty, value, is_const, .. } => match other {
                Expr::Var { visibility: v2, name: n2, ty: t2, value: x2, is_const: c2, .. } => *visibility == *v2
                    && name.0 == n2.0 && opt_eq(exprs, *ty, *t2, Ghost(r)) && opt_eq(exprs, *value, *x2, Ghost(r))
                    && *is_const == *c2,
                _ => false,
            },
            Expr::Function { visibility, ty, name, params, return_ty, body, is_const, .. } => match other {
                Expr::Function {
                    visibility: v2,
                    ty: t2,
                    name: n2,
                    params: p2,
                    return_ty: r2,
                    body: b2,
                    is_const: c2,
                    ..
                } => *visibility == *v2 && function_type_eq(ty, t2) && names_eq(&name.0, &n2.0) && params_eq(
                    exprs,
                    params,
                    p2,
                    Ghost(r),
                ) && opt_eq(exprs, *return_ty, *r2, Ghost(r)) && id_eq(exprs, *body, *b2, Ghost(r)) && *is_const
                    == *c2,
                _ => false,
            },
            Expr::ArrowFunction { params, body, .. } => match other {
                Expr::ArrowFunction { params: p2, body: b2, .. } => params_eq(exprs, params, p2, Ghost(r)) && id_eq(
                    exprs,
                    *body,
                    *b2,
                    Ghost(r),
                ),
                _ => false,
            },
            Expr::Module { visibility, name, items, .. } => match other {
                Expr::Module { visibility: v2, name: n2, items: i2, .. } => *visibility == *v2 && names_eq(
                    &name.0,
                    &n2.0,
                ) && ids_eq(exprs, items, i2, Ghost(r)),
                _ => false,
            },
            Expr::Using { visibility, path, .. } => match other {
                Expr::Using { visibility: v2, path: p2, .. } => *visibility == *v2 && names_eq(
                    &path.parent.0,
                    &p2.parent.0,
                ) && match &path.item {
                    UsingIdentItem::AllItems => matches!(p2.item, UsingIdentItem::AllItems),
                    UsingIdentItem::Items(x) => match &p2.item {
                        UsingIdentItem::Items(y) => names_eq(x, y),
                        _ => false,
                    },
                },
                _ => false,
            },
            Expr::TypeDef { visibility, name, ty, .. } => match other {
                Expr::TypeDef { visibility: v2, name: n2, ty: t2, .. } => *visibility == *v2 && names_eq(
                    &name.0,
                    &n2.0,
                ) && id_eq(exprs, *ty, *t2, Ghost(r)),
                _ => false,
            },
            Expr::Call { target, args, op, .. } => match other {
                Expr::Call { target: t2, args: a2, op: o2, .. } => id_eq(exprs, *target, *t2, Ghost(r)) && args_eq(
                    exprs,
                    args,
                    a2,
                    Ghost(r),
                ) && match op {
                    Some(x) => match o2 {
                        Some(y) => x.0 == y.0,
                        None => false,
                    },
                    None => o2.is_none(),
                },
                _ => false,
            },
            Expr::InvokeIntrinsic { intrinsic, args, .. } => match other {
                Expr::InvokeIntrinsic { intrinsic: i2, args: a2, .. } => *intrinsic == *i2 && ids_eq(
                    exprs,
                    args,
                    a2,
                    Ghost(r),
                ),
                _ => false,
            },
            Expr::FieldAccess { target, field, optional, .. } => match other {
                Expr::FieldAccess { target: t2, field: f2, optional: o2, .. } => id_eq(exprs, *target, *t2, Ghost(r))
                    && names_eq(&field.0, &f2.0) && *optional == *o2,
                _ => false,
            },
            Expr::Assign { target, value, op, .. } => match other {
                Expr::Assign { target: t2, value: v2, op: o2, .. } => id_eq(exprs, *target, *t2, Ghost(r)) && id_eq(
                    exprs,
                    *value,
                    *v2,
                    Ghost(r),
                ) && op.0 == o2.0,
                _ => false,
            },
            Expr::AssignFrom { target, properties, body, .. } => match other {
                Expr::AssignFrom { target: t2, properties: p2, body: b2, .. } => id_eq(exprs, *target, *t2, Ghost(r))
                    && names_eq(properties, p2) && id_eq(exprs, *body, *b2, Ghost(r)),
                _ => false,
            },
            Expr::LogicChain { values, ty, .. } => match other {
                Expr::LogicChain { values: v2, ty: t2, .. } => ids_eq(exprs, values, v2, Ghost(r)) && chain_type_eq(
                    ty,
                    t2,
                ),
                _ => false,
            },
            Expr::If { clause, truthy, falsy, .. } => match other {
                Expr::If { clause: c2, truthy: t2, falsy: f2, .. } => id_eq(exprs, *clause, *c2, Ghost(r)) && id_eq(
                    exprs,
                    *truthy,
                    *t2,
                    Ghost(r),
                ) && opt_eq(exprs, *falsy, *f2, Ghost(r)),
                _ => false,
            },
            Expr::Return(x, _) => match other {
                Expr::Return(y, _) => opt_eq(exprs, *x, *y, Ghost(r)),
                _ => false,
            },
            Expr::Yield(x, _) => match other {
                Expr::Yield(y, _) => id_eq(exprs, *x, *y, Ghost(r)),
                _ => false,
            },
            Expr::Block(x, _) => match other {
                Expr::Block(y, _) => ids_eq(exprs, x, y, Ghost(r)),
                _ => false,
            },
            Expr::Await(x, _) => match other {
                Expr::Await(y, _) => id_eq(exprs, *x, *y, Ghost(r)),
                _ => false,
            },
            Expr::TyNamed { name, .. } => match other {
                Expr::TyNamed { name: n2, .. } => name.0 == n2.0,
                _ => false,
            },
            Expr::TyAccess { from, item, .. } => match other {
                Expr::TyAccess { from: f2, item: i2, .. } => id_eq(exprs, *from, *f2, Ghost(r)) && names_eq(
                    &item.0,
                    &i2.0,
                ),
                _ => false,
            },
            Expr::TyFunction { params, return_ty, .. } => match other {
                Expr::TyFunction { params: p2, return_ty: r2, .. } => ids_eq(exprs, params, p2, Ghost(r)) && id_eq(
                    exprs,
                    *return_ty,
                    *r2,
                    Ghost(r),
                ),
                _ => false,
            },
            Expr::TyArray { inner, .. } => match other {
                Expr::TyArray { inner: i2, .. } => id_eq(exprs, *inner, *i2, Ghost(r)),
                _ => false,
            },
            Expr::TyObject { fields, .. } => match other {
                Expr::TyObject { fields: f2, .. } => fields_eq(exprs, fields, f2, Ghost(r)),
                _ => false,
            },
            Expr::TyOptional { inner, .. } => match other {
                Expr::TyOptional { inner: i2, .. } => id_eq(exprs, *inner, *i2, Ghost(r)),
                _ => false,
            },
            Expr::TypeOf { eval, .. } => match other {
                Expr::TypeOf { eval: e2, .. } => id_eq(exprs, *eval, *e2, Ghost(r)),
                _ => false,
            },
        }
    }
}

} // verus!
