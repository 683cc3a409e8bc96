use vstd::prelude::*;
use slotmap::{DefaultKey, Key, KeyData, SlotMap};

use crate::ast::expr::{lemma_refs_all_weaken, refs_all, Expr};

verus! {

/// Identifies an expression in the pool of expressions (the `u64` form of
/// its slot map key).
#[derive(Debug, Clone, Copy, PartialEq, Eq, Structural, Hash)]
pub struct ExprId(pub u64);

/// A `slotmap::SlotMap<DefaultKey, Expr>`, held here for the same reason as
/// the module pool's slot map. Keys are handled as their `u64` form.
#[verifier::external_body]
#[derive(Debug)]
pub struct ExprPool {
    inner: SlotMap<DefaultKey, Expr>,
}

/// The expressions a pool holds, by the `u64` form of their keys.
pub uninterp spec fn expr_pool(p: ExprPool) -> Map<u64, Expr>;

/// `SlotMap::new`: an empty slot map of expressions.
#[verifier::external_body]
fn expr_pool_new() -> (res: ExprPool)
    ensures
        expr_pool(res).dom() == Set::<u64>::empty(),
{
    ExprPool { inner: SlotMap::new() }
}

/// `SlotMap::insert`: stores `e` under a key that no stored expression
/// has. The slot map panics once it holds `u32::MAX - 1` values.
#[verifier::external_body]
fn expr_pool_insert(p: &mut ExprPool, e: Expr) -> (k: u64)
    requires
        expr_pool(*old(p)).dom().len() + 1 < u32::MAX,
    ensures
        !expr_pool(*old(p)).dom().contains(k),
        expr_pool(*final(p)) == expr_pool(*old(p)).insert(k, e),
{
    p.inner.insert(e).data().as_ffi()
}

/// `SlotMap::get` on a stored key.
#[verifier::external_body]
fn expr_pool_get(p: &ExprPool, k: u64) -> (res: &Expr)
    requires
        expr_pool(*p).dom().contains(k),
    ensures
        *res == expr_pool(*p)[k],
{
    p.inner.get(KeyData::from_ffi(k).into()).unwrap()
}

/// The pool of parsed expressions. Each expression only refers to
/// expressions added before it, so following references always ends.
pub struct Exprs {
    map: ExprPool,
    rank: Ghost<Map<u64, nat>>,
    count: usize,
}

impl Exprs {
    /// The expressions, by the number in their `ExprId`.
    pub closed spec fn spec_exprs(&self) -> Map<u64, Expr> {
        expr_pool(self.map)
    }

    pub open spec fn spec_contains(&self, id: ExprId) -> bool {
        self.spec_exprs().dom().contains(id.0)
    }

    pub open spec fn spec_get(&self, id: ExprId) -> Expr {
        self.spec_exprs()[id.0]
    }

    /// The position of an expression in the order expressions were added.
    pub closed spec fn spec_rank(&self, id: ExprId) -> nat {
        self.rank@[id.0]
    }

    /// The expressions of the pool.
    pub open spec fn held(self) -> spec_fn(ExprId) -> bool {
        |x: ExprId| self.spec_contains(x)
    }

    /// The expressions of the pool added before position `r`.
    pub open spec fn below(self, r: nat) -> spec_fn(ExprId) -> bool {
        |x: ExprId| self.spec_contains(x) && self.spec_rank(x) < r
    }

    /// Every expression refers only to expressions added before it.
    pub closed spec fn wf(&self) -> bool {
        let pool = self.spec_exprs();
        &&& pool.dom().finite()
        &&& self.count == pool.dom().len()
        &&& forall|k: u64| pool.dom().contains(k) ==> #[trigger] self.rank@[k] < pool.dom().len()
        &&& forall|k: u64|
            pool.dom().contains(k) ==> refs_all(#[trigger] pool[k], self.below(self.rank@[k]))
    }

    /// In a well-formed pool, an expression refers only to expressions
    /// added before it, and no expression comes after the last one.
    pub proof fn lemma_refs_below(&self, id: ExprId)
        requires
            self.wf(),
            self.spec_contains(id),
        ensures
            refs_all(self.spec_get(id), self.below(self.spec_rank(id))),
            self.spec_rank(id) < self.spec_exprs().dom().len(),
    {
    }

    /// How many expressions the pool holds.
    pub fn len(&self) -> (res: usize)
        requires
            self.wf(),
        ensures
            res == self.spec_exprs().dom().len(),
    {
        self.count
    }

    pub fn new() -> (res: Self)
        ensures
            res.wf(),
            res.spec_exprs().dom() == Set::<u64>::empty(),
    {
        Self { map: expr_pool_new(), rank: Ghost(Map::empty()), count: 0 }
    }

    /// Stores `expr`, which refers only to expressions of the pool.
    pub fn add(&mut self, expr: Expr) -> (res: ExprId)
        requires
            old(self).wf(),
            refs_all(expr, old(self).held()),
            old(self).spec_exprs().dom().len() + 1 < u32::MAX,
        ensures
            final(self).wf(),
            !old(self).spec_contains(res),
            final(self).spec_exprs() == old(self).spec_exprs().insert(res.0, expr),
            final(self).spec_exprs().dom().len() == old(self).spec_exprs().dom().len() + 1,
            forall|x: ExprId| old(self).spec_contains(x) ==> final(self).spec_rank(x) == old(
                self,
            ).spec_rank(x),
    {
        let ghost before = *self;
        let ghost n = self.spec_exprs().dom().len();
        let k = expr_pool_insert(&mut self.map, expr);
        self.rank = Ghost(self.rank@.insert(k, n));
        self.count = self.count + 1;
        proof {
            let pool = self.spec_exprs();
            assert forall|k2: u64| pool.dom().contains(k2) implies #[trigger] self.rank@[k2] < pool.dom().len() by {
                if k2 != k {
                    assert(before.spec_exprs().dom().contains(k2));
                    assert(before.rank@[k2] < n);
                }
            }
            assert forall|k2: u64| pool.dom().contains(k2) implies refs_all(
                #[trigger] pool[k2],
                self.below(self.rank@[k2]),
            ) by {
                if k2 == k {
                    assert forall|x: ExprId| #[trigger] before.held()(x) implies self.below(
                        self.rank@[k2],
                    )(x) by {
                        assert(before.rank@[x.0] < n);
                    }
                    lemma_refs_all_weaken(expr, before.held(), self.below(self.rank@[k2]));
                } else {
                    assert(before.spec_exprs().dom().contains(k2));
                    assert forall|x: ExprId| #[trigger] before.below(before.rank@[k2])(x) implies self.below(
                        self.rank@[k2],
                    )(x) by {}
                    lemma_refs_all_weaken(pool[k2], before.below(before.rank@[k2]), self.below(self.rank@[k2]));
                }
            }
        }
        ExprId(k)
    }

    /// The expression `id` (which this pool handed out).
    pub fn get(&self, id: ExprId) -> (res: &Expr)
        requires
            self.spec_contains(id),
        ensures
            *res == self.spec_get(id),
    {
        expr_pool_get(&self.map, id.0)
    }
}

} // verus!
