use vstd::prelude::*;

use vstd::string::*;

use crate::ast::expr::{Expr, StringComp, Visibility};
use crate::check::ty::{converted, names_ok, Ty, TyModel};
use crate::check::ty::Item;
use crate::entities::messages::{lemma_msgs_added_none, lemma_msgs_added_trans, msgs_added, Message, MessageLevel, NoteLevel};
use crate::pools::exprs::{ExprId, Exprs};
use crate::pools::modules::Span;
use crate::codebase::{Codebase, Package};
use crate::pools::items::{ItemId, Items};
use crate::pools::modules::{ModId, Modules};
use crate::pools::names::{NameId, Names};
use crate::tokens::tokenizer::{grows, lemma_grows_refl, lemma_grows_trans};

verus! {

/// What a name being looked up probably names.
#[derive(Debug, PartialEq, Eq, Clone, Copy, Structural)]
pub enum NameHint {
    /// This is probably the name of a variable
    Variable,
    /// This is probably the name of a function
    Function,
    /// This is probably the name of a module
    Module,
}

/// The two passes of the checker.
#[derive(Debug, PartialEq, Eq, Clone, Copy, Structural)]
pub enum CheckPhase {
    /// Find item names
    Discovery,
    /// Check types
    Check { name_hint: Option<NameHint> },
}

/// How many items the module `id` and everything under it make: one per
/// module, counted once for each place it is listed.
pub open spec fn tree_size(m: Modules, id: ModId) -> nat
    decreases m.spec_pool().dom().len() - m.spec_depth(id), 1nat, 0nat,
{
    if m.wf() && m.spec_contains(id) {
        1 + subs_size(m, id, m.spec_get(id).submodules@.len())
    } else {
        1
    }
}

/// How many items the first `n` submodules of `id` make, with everything
/// under them.
pub open spec fn subs_size(m: Modules, id: ModId, n: nat) -> nat
    decreases m.spec_pool().dom().len() - m.spec_depth(id), 0nat, n,
{
    if m.wf() && m.spec_contains(id) && 0 < n <= m.spec_get(id).submodules@.len() {
        proof {
            m.lemma_sub_deeper(id, n - 1);
        }
        subs_size(m, id, (n - 1) as nat) + tree_size(m, m.spec_get(id).submodules@[n - 1].1)
    } else {
        0
    }
}

/// Item `it` of `items` is the public module item for module `id`, named
/// `name`, holding for each submodule (in order, under the submodule's
/// name) the item made for it the same way, and no anonymous items.
pub open spec fn mirrors(
    items: Map<u64, Item>,
    names: Seq<Seq<char>>,
    m: Modules,
    id: ModId,
    it: ItemId,
    name: Seq<char>,
) -> bool
    decreases m.spec_pool().dom().len() - m.spec_depth(id), 1nat, 0nat,
{
    &&& items.dom().contains(it.0)
    &&& match items[it.0] {
        Item::Module { visibility, name: n, definition, items: subs, anon_items } => {
            &&& visibility == Visibility::Public
            &&& n.0 < names.len()
            &&& names[n.0 as int] == name
            &&& definition == id
            &&& anon_items@.len() == 0
            &&& m.wf() && m.spec_contains(id) ==> subs@.len() == m.spec_get(id).submodules@.len()
                && mirrors_subs(items, names, m, id, subs@, subs@.len())
        },
        _ => false,
    }
}

/// The first `n` entries of `list` stand for the first `n` submodules of
/// `id` as `mirrors` says.
pub open spec fn mirrors_subs(
    items: Map<u64, Item>,
    names: Seq<Seq<char>>,
    m: Modules,
    id: ModId,
    list: Seq<(NameId, ItemId)>,
    n: nat,
) -> bool
    decreases m.spec_pool().dom().len() - m.spec_depth(id), 0nat, n,
{
    if m.wf() && m.spec_contains(id) && 0 < n <= list.len() && n <= m.spec_get(id).submodules@.len() {
        proof {
            m.lemma_sub_deeper(id, n - 1);
        }
        let s = m.spec_get(id).submodules@[n - 1];
        &&& mirrors_subs(items, names, m, id, list, (n - 1) as nat)
        &&& list[n - 1].0.0 < names.len()
        &&& names[list[n - 1].0.0 as int] == s.0@
        &&& mirrors(items, names, m, s.1, list[n - 1].1, s.0@)
    } else {
        true
    }
}

/// `b` holds every item of `a`, unchanged.
pub open spec fn keeps_items(a: Map<u64, Item>, b: Map<u64, Item>) -> bool {
    forall|k: u64| #[trigger] a.dom().contains(k) ==> b.dom().contains(k) && b[k] == a[k]
}

/// What `mirrors` says stays true when items are added and names are
/// interned.
pub proof fn lemma_mirrors_grow(
    a: Map<u64, Item>,
    b: Map<u64, Item>,
    na: Seq<Seq<char>>,
    nb: Seq<Seq<char>>,
    m: Modules,
    id: ModId,
    it: ItemId,
    name: Seq<char>,
)
    requires
        mirrors(a, na, m, id, it, name),
        keeps_items(a, b),
        grows(na, nb),
    ensures
        mirrors(b, nb, m, id, it, name),
    decreases m.spec_pool().dom().len() - m.spec_depth(id), 1nat, 0nat,
{
    assert(nb.take(na.len() as int)[a[it.0]->Module_name.0 as int] == nb[a[it.0]->Module_name.0 as int]);
    if m.wf() && m.spec_contains(id) {
        let subs = a[it.0]->Module_items@;
        lemma_mirrors_subs_grow(a, b, na, nb, m, id, subs, subs.len());
    }
}

/// What `mirrors_subs` says stays true when items are added and names are
/// interned.
pub proof fn lemma_mirrors_subs_grow(
    a: Map<u64, Item>,
    b: Map<u64, Item>,
    na: Seq<Seq<char>>,
    nb: Seq<Seq<char>>,
    m: Modules,
    id: ModId,
    list: Seq<(NameId, ItemId)>,
    n: nat,
)
    requires
        mirrors_subs(a, na, m, id, list, n),
        keeps_items(a, b),
        grows(na, nb),
    ensures
        mirrors_subs(b, nb, m, id, list, n),
    decreases m.spec_pool().dom().len() - m.spec_depth(id), 0nat, n,
{
    if m.wf() && m.spec_contains(id) && 0 < n <= list.len() && n <= m.spec_get(id).submodules@.len() {
        m.lemma_sub_deeper(id, n - 1);
        let s = m.spec_get(id).submodules@[n - 1];
        lemma_mirrors_subs_grow(a, b, na, nb, m, id, list, (n - 1) as nat);
        assert(nb.take(na.len() as int)[list[n - 1].0.0 as int] == nb[list[n - 1].0.0 as int]);
        lemma_mirrors_grow(a, b, na, nb, m, s.1, list[n - 1].1, s.0@);
    }
}

/// Whether the first `n` entries stand for the first `n` submodules depends
/// only on those entries.
pub proof fn lemma_mirrors_subs_prefix(
    items: Map<u64, Item>,
    names: Seq<Seq<char>>,
    m: Modules,
    id: ModId,
    a: Seq<(NameId, ItemId)>,
    b: Seq<(NameId, ItemId)>,
    n: nat,
)
    requires
        mirrors_subs(items, names, m, id, a, n),
        n <= a.len(),
        n <= b.len(),
        b.take(n as int) == a.take(n as int),
    ensures
        mirrors_subs(items, names, m, id, b, n),
    decreases n,
{
    if m.wf() && m.spec_contains(id) && 0 < n && n <= m.spec_get(id).submodules@.len() {
        assert(b.take(n - 1) =~= a.take(n - 1)) by {
            assert forall|k: int| 0 <= k < n - 1 implies #[trigger] b.take(n - 1)[k] == a.take(n - 1)[k] by {
                assert(b.take(n as int)[k] == a.take(n as int)[k]);
            }
        }
        assert(b[n - 1] == a[n - 1]) by {
            assert(b.take(n as int)[n - 1] == a.take(n as int)[n - 1]);
        }
        lemma_mirrors_subs_prefix(items, names, m, id, a, b, (n - 1) as nat);
    }
}

/// How many items making the module items of the packages `pkgs` takes at
/// most.
pub open spec fn packages_size(m: Modules, pkgs: Seq<(String, Package)>) -> nat
    decreases pkgs.len(),
{
    if pkgs.len() == 0 {
        0
    } else {
        packages_size(m, pkgs.drop_last()) + tree_size(m, pkgs.last().1.root_id)
    }
}

/// Whether `roots` holds an entry for module `id`.
pub open spec fn has_root(roots: Seq<(ModId, ItemId)>, id: ModId) -> bool {
    exists|j: int| 0 <= j < roots.len() && (#[trigger] roots[j]).0 == id
}

/// What `Checker::init_items` does to a codebase: the root module of every
/// package gets a module item (those that had one keep it), which mirrors
/// the package's module tree under the package's name; nothing else but the
/// items, the names and the list of root items changes.
pub open spec fn items_initialized(old: Codebase, new: Codebase) -> bool {
    &&& new.packages == old.packages
    &&& new.modules == old.modules
    &&& new.messages == old.messages
    &&& new.items.spec_items().dom().finite()
    &&& keeps_items(old.items.spec_items(), new.items.spec_items())
    &&& grows(old.names.spec_names(), new.names.spec_names())
    &&& new.root_items@.len() >= old.root_items@.len()
    &&& new.root_items@.take(old.root_items@.len() as int) == old.root_items@
    &&& forall|i: int|
        0 <= i < old.packages@.len() ==> has_root(new.root_items@, (#[trigger] old.packages@[i]).1.root_id)
    &&& forall|j: int|
        old.root_items@.len() <= j < new.root_items@.len() ==> exists|i: int|
            0 <= i < old.packages@.len() && (#[trigger] old.packages@[i]).1.root_id == (
            #[trigger] new.root_items@[j]).0 && mirrors(
                new.items.spec_items(),
                new.names.spec_names(),
                new.modules,
                new.root_items@[j].0,
                new.root_items@[j].1,
                old.packages@[i].0@,
            )
}

/// The first item listed under name `n` in `list`, if any.
pub open spec fn entry_named(list: Seq<(NameId, ItemId)>, n: NameId) -> Option<ItemId>
    decreases list.len(),
{
    if list.len() == 0 {
        None
    } else if list[0].0 == n {
        Some(list[0].1)
    } else {
        entry_named(list.drop_first(), n)
    }
}

/// No two entries of `list` share a name.
pub open spec fn names_unique(list: Seq<(NameId, ItemId)>) -> bool {
    forall|i: int, j: int| 0 <= i < j < list.len() ==> (#[trigger] list[i]).0 != (#[trigger] list[j]).0
}

/// No entry of `list` is named `n` when looking it up finds none.
pub proof fn lemma_entry_named_none(list: Seq<(NameId, ItemId)>, n: NameId)
    requires
        entry_named(list, n) is None,
    ensures
        forall|i: int| 0 <= i < list.len() ==> (#[trigger] list[i]).0 != n,
    decreases list.len(),
{
    if list.len() > 0 {
        lemma_entry_named_none(list.drop_first(), n);
        assert forall|i: int| 0 <= i < list.len() implies (#[trigger] list[i]).0 != n by {
            if i > 0 {
                assert(list[i] == list.drop_first()[i - 1]);
            }
        }
    }
}

/// The names an item lists stay distinct as items are added to it: `add_item`
/// lists a new item under a name only when no entry has that name yet.
pub proof fn lemma_listed_names_stay_unique(list: Seq<(NameId, ItemId)>, n: NameId, id: ItemId)
    requires
        names_unique(list),
        entry_named(list, n) is None,
    ensures
        names_unique(list.push((n, id))),
{
    lemma_entry_named_none(list, n);
    let l2 = list.push((n, id));
    assert forall|i: int, j: int| 0 <= i < j < l2.len() implies (#[trigger] l2[i]).0 != (#[trigger] l2[j]).0 by {
        if j == list.len() {
            assert(l2[i] == list[i]);
        } else {
            assert(l2[i] == list[i] && l2[j] == list[j]);
        }
    }
}

/// Item `c` can take more items: it is in the pool and is no constant, and
/// each item it lists by name is in the pool and (unless it is a module) is
/// defined by an expression of the pool.
pub open spec fn scope_ok(items: Map<u64, Item>, exprs: Exprs, c: ItemId) -> bool {
    &&& items.dom().contains(c.0)
    &&& !(items[c.0] is Constant)
    &&& forall|i: int|
        0 <= i < items[c.0].spec_subitems().len() ==> {
            let e = (#[trigger] items[c.0].spec_subitems()[i]).1;
            &&& items.dom().contains(e.0)
            &&& !(items[e.0] is Module) ==> exprs.spec_contains(items[e.0].spec_definition())
        }
}

/// The name `name` does not stand for a module among the items item `c`
/// lists (the span of a whole module is not defined, so such a clash could
/// not be reported).
pub open spec fn no_module_clash(items: Map<u64, Item>, c: ItemId, name: Option<NameId>) -> bool {
    name matches Some(n) ==> (entry_named(items[c.0].spec_subitems(), n) matches Some(e) ==> !(
    items[e.0] is Module))
}

/// `b` is the item `a` with only its lists of items changed.
pub open spec fn same_shell(a: Item, b: Item) -> bool {
    match a {
        Item::Constant { .. } => b == a,
        Item::Module { visibility, name, definition, .. } => b matches Item::Module {
            visibility: v2,
            name: n2,
            definition: d2,
            ..
        } && v2 == visibility && n2 == name && d2 == definition,
        Item::Function { visibility, name, definition, variables, .. } => b matches Item::Function {
            visibility: v2,
            name: n2,
            definition: d2,
            variables: var2,
            ..
        } && v2 == visibility && n2 == name && d2 == definition && var2@ == variables@,
        Item::BlockScope { definition, variables, .. } => b matches Item::BlockScope {
            definition: d2,
            variables: var2,
            ..
        } && d2 == definition && var2@ == variables@,
    }
}

/// The text of the error for an item whose name is taken. (The `{}` is
/// part of the text.)
pub open spec fn duplicate_item_text() -> Seq<char> {
    "item with name {} defined multiple times"@
}

/// Looking a name up finds an entry of that name.
pub proof fn lemma_entry_named(list: Seq<(NameId, ItemId)>, n: NameId)
    ensures
        entry_named(list, n) matches Some(e) ==> exists|i: int|
            0 <= i < list.len() && (#[trigger] list[i]).0 == n && list[i].1 == e,
        entry_named(list, n) is None ==> forall|i: int| 0 <= i < list.len() ==> (#[trigger] list[i]).0 != n,
    decreases list.len(),
{
    if list.len() > 0 {
        lemma_entry_named(list.drop_first(), n);
        if list[0].0 != n {
            if let Some(e) = entry_named(list, n) {
                let i = choose|i: int|
                    0 <= i < list.drop_first().len() && (#[trigger] list.drop_first()[i]).0 == n
                        && list.drop_first()[i].1 == e;
                assert(list[i + 1] == list.drop_first()[i]);
            } else {
                assert forall|i: int| 0 <= i < list.len() implies (#[trigger] list[i]).0 != n by {
                    if i > 0 {
                        assert(list[i] == list.drop_first()[i - 1]);
                    }
                }
            }
        }
    }
}

/// The first entry of `list` named `n`, if any.
fn find_entry(list: &Vec<(NameId, ItemId)>, n: NameId) -> (res: Option<ItemId>)
    ensures
        res == entry_named(list@, n),
{
    let mut i: usize = 0;
    assert(list@.skip(0) =~= list@);
    while i < list.len()
        invariant
            i <= list@.len(),
            entry_named(list@, n) == entry_named(list@.skip(i as int), n),
        decreases list@.len() - i,
    {
        assert(list@.skip(i as int).drop_first() =~= list@.skip(i + 1));
        assert(list@.skip(i as int)[0] == list@[i as int]);
        if list[i].0 == n {
            return Some(list[i].1);
        }
        i = i + 1;
    }
    assert(list@.skip(i as int) =~= Seq::<(NameId, ItemId)>::empty());
    None
}

/// The expression `id` (at a position below `r`) is one the checker can
/// check in the phase given (`discovery` for the first pass): a literal, a
/// string whose interpolated expressions can be checked, and in the first
/// pass also a name or a variable whose type and value can be checked. (The
/// checker does not handle other expressions yet.)
pub open spec fn checkable(exprs: Exprs, id: ExprId, discovery: bool, r: nat) -> bool
    decreases r, 0nat, 0nat,
{
    if exprs.spec_contains(id) && exprs.spec_rank(id) < r {
        let rk = exprs.spec_rank(id);
        match exprs.spec_get(id) {
            Expr::Bool(..) => true,
            Expr::Int(..) => true,
            Expr::Float(..) => true,
            Expr::Duration(..) => true,
            Expr::String(comps, _) => ids_checkable(exprs, comp_exprs(comps@), discovery, rk),
            Expr::Ident(..) => discovery,
            Expr::Var { ty, value, .. } => discovery && opt_checkable(exprs, ty, discovery, rk)
                && opt_checkable(exprs, value, discovery, rk),
            _ => false,
        }
    } else {
        false
    }
}

/// The interpolated expressions among the pieces of a string, in order.
pub open spec fn comp_exprs(cs: Seq<StringComp>) -> Seq<ExprId>
    decreases cs.len(),
{
    if cs.len() == 0 {
        Seq::empty()
    } else {
        match cs.last() {
            StringComp::Expr(x) => comp_exprs(cs.drop_last()).push(x),
            StringComp::String(_) => comp_exprs(cs.drop_last()),
        }
    }
}

/// Every expression of `ids` can be checked.
pub open spec fn ids_checkable(exprs: Exprs, ids: Seq<ExprId>, discovery: bool, r: nat) -> bool
    decreases r, 1nat, ids.len(),
{
    if ids.len() == 0 {
        true
    } else {
        ids_checkable(exprs, ids.drop_last(), discovery, r) && checkable(exprs, ids.last(), discovery, r)
    }
}

/// The expression, if any, can be checked.
pub open spec fn opt_checkable(exprs: Exprs, o: Option<ExprId>, discovery: bool, r: nat) -> bool
    decreases r, 1nat, 0nat,
{
    match o {
        Some(x) => checkable(exprs, x, discovery, r),
        None => true,
    }
}

/// How many constants checking expression `id` in the first pass defines.
pub open spec fn consts_in(exprs: Exprs, id: ExprId, r: nat) -> nat
    decreases r, 0nat, 0nat,
{
    if exprs.spec_contains(id) && exprs.spec_rank(id) < r {
        let rk = exprs.spec_rank(id);
        match exprs.spec_get(id) {
            Expr::String(comps, _) => ids_consts(exprs, comp_exprs(comps@), rk),
            Expr::Var { ty, value, is_const, .. } => opt_consts(exprs, ty, rk) + opt_consts(
                exprs,
                value,
                rk,
            ) + if is_const {
                1nat
            } else {
                0nat
            },
            _ => 0,
        }
    } else {
        0
    }
}

/// How many constants checking each of `ids` in turn defines.
pub open spec fn ids_consts(exprs: Exprs, ids: Seq<ExprId>, r: nat) -> nat
    decreases r, 1nat, ids.len(),
{
    if ids.len() == 0 {
        0
    } else {
        ids_consts(exprs, ids.drop_last(), r) + consts_in(exprs, ids.last(), r)
    }
}

/// How many constants checking the expression, if any, defines.
pub open spec fn opt_consts(exprs: Exprs, o: Option<ExprId>, r: nat) -> nat
    decreases r, 1nat, 0nat,
{
    match o {
        Some(x) => consts_in(exprs, x, r),
        None => 0,
    }
}

/// No constant defined by checking expression `id` is named like a module
/// that item `c` lists (`clear` tells of each name whether that holds).
pub open spec fn consts_clear(exprs: Exprs, id: ExprId, r: nat, clear: spec_fn(NameId) -> bool) -> bool
    decreases r, 0nat, 0nat,
{
    if exprs.spec_contains(id) && exprs.spec_rank(id) < r {
        let rk = exprs.spec_rank(id);
        match exprs.spec_get(id) {
            Expr::String(comps, _) => ids_clear(exprs, comp_exprs(comps@), rk, clear),
            Expr::Var { name, ty, value, is_const, .. } => opt_clear(exprs, ty, rk, clear)
                && opt_clear(exprs, value, rk, clear) && (is_const ==> clear(name.0)),
            _ => true,
        }
    } else {
        true
    }
}

/// `consts_clear` for each of `ids`.
pub open spec fn ids_clear(exprs: Exprs, ids: Seq<ExprId>, r: nat, clear: spec_fn(NameId) -> bool) -> bool
    decreases r, 1nat, ids.len(),
{
    if ids.len() == 0 {
        true
    } else {
        ids_clear(exprs, ids.drop_last(), r, clear) && consts_clear(exprs, ids.last(), r, clear)
    }
}

/// `consts_clear` for the expression, if any.
pub open spec fn opt_clear(exprs: Exprs, o: Option<ExprId>, r: nat, clear: spec_fn(NameId) -> bool) -> bool
    decreases r, 1nat, 0nat,
{
    match o {
        Some(x) => consts_clear(exprs, x, r, clear),
        None => true,
    }
}

/// The text of the error for an interpolated expression that is no string.
pub open spec fn interpolation_text() -> Seq<char> {
    "component in string interpolation is not convertible to string"@
}

/// What the second pass reports while checking expression `id`: for a
/// string, what its interpolated expressions report, in order.
pub open spec fn check_msgs(exprs: Exprs, id: ExprId, r: nat, names: Seq<Seq<char>>) -> Seq<
    (MessageLevel, Seq<char>, Option<Span>, Seq<(NoteLevel, Seq<char>, Option<Span>)>),
>
    decreases r, 0nat, 0nat,
{
    if exprs.spec_contains(id) && exprs.spec_rank(id) < r {
        match exprs.spec_get(id) {
            Expr::String(comps, _) => ids_msgs(exprs, comp_exprs(comps@), exprs.spec_rank(id), names),
            _ => seq![],
        }
    } else {
        seq![]
    }
}

/// What checking each of the interpolated expressions `ids` in turn reports.
pub open spec fn ids_msgs(exprs: Exprs, ids: Seq<ExprId>, r: nat, names: Seq<Seq<char>>) -> Seq<
    (MessageLevel, Seq<char>, Option<Span>, Seq<(NoteLevel, Seq<char>, Option<Span>)>),
>
    decreases r, 1nat, ids.len(),
{
    if ids.len() == 0 {
        seq![]
    } else {
        ids_msgs(exprs, ids.drop_last(), r, names) + comp_msgs(exprs, ids.last(), r, names)
    }
}

/// What an interpolated expression reports: what checking it reports, and
/// an error (with a note saying why) where its type does not convert into
/// a string.
pub open spec fn comp_msgs(exprs: Exprs, id: ExprId, r: nat, names: Seq<Seq<char>>) -> Seq<
    (MessageLevel, Seq<char>, Option<Span>, Seq<(NoteLevel, Seq<char>, Option<Span>)>),
>
    decreases r, 1nat, 0nat,
{
    check_msgs(exprs, id, r, names) + match converted(expr_ty(exprs, id), TyModel::String, names) {
        Err(e) => seq![
            (
                MessageLevel::Error,
                interpolation_text(),
                Some(exprs.spec_get(id).spec_span()),
                seq![(NoteLevel::Note, e, None::<Span>)],
            ),
        ],
        Ok(_) => seq![],
    }
}

/// Whether checking expression `id` in the first pass defines the constant
/// variable `d`.
pub open spec fn defines(exprs: Exprs, id: ExprId, r: nat, d: ExprId) -> bool
    decreases r, 0nat, 0nat,
{
    if exprs.spec_contains(id) && exprs.spec_rank(id) < r {
        let rk = exprs.spec_rank(id);
        match exprs.spec_get(id) {
            Expr::String(comps, _) => ids_define(exprs, comp_exprs(comps@), rk, d),
            Expr::Var { ty, value, is_const, .. } => opt_defines(exprs, ty, rk, d) || opt_defines(
                exprs,
                value,
                rk,
                d,
            ) || (is_const && d == id),
            _ => false,
        }
    } else {
        false
    }
}

/// Whether checking one of `ids` defines the variable `d`.
pub open spec fn ids_define(exprs: Exprs, ids: Seq<ExprId>, r: nat, d: ExprId) -> bool
    decreases r, 1nat, ids.len(),
{
    if ids.len() == 0 {
        false
    } else {
        ids_define(exprs, ids.drop_last(), r, d) || defines(exprs, ids.last(), r, d)
    }
}

/// Whether checking the expression, if any, defines the variable `d`.
pub open spec fn opt_defines(exprs: Exprs, o: Option<ExprId>, r: nat, d: ExprId) -> bool
    decreases r, 1nat, 0nat,
{
    match o {
        Some(x) => defines(exprs, x, r, d),
        None => false,
    }
}

/// The constant item made for the variable `d`.
pub open spec fn made_constant(exprs: Exprs, d: ExprId) -> Item {
    match exprs.spec_get(d) {
        Expr::Var { visibility, name, .. } => Item::Constant {
            visibility,
            name: name.0,
            definition: d,
            ty: Ty::Undecided,
        },
        _ => arbitrary(),
    }
}

/// The variables that checking expression `id` in the first pass defines.
pub open spec fn defined_by(exprs: Exprs, id: ExprId, r: nat) -> spec_fn(ExprId) -> bool {
    |d: ExprId| defines(exprs, id, r, d)
}

/// The variables that checking `ids` in turn defines.
pub open spec fn ids_defined_by(exprs: Exprs, ids: Seq<ExprId>, r: nat) -> spec_fn(ExprId) -> bool {
    |d: ExprId| ids_define(exprs, ids, r, d)
}

/// The variables that checking the expression, if any, defines.
pub open spec fn opt_defined_by(exprs: Exprs, o: Option<ExprId>, r: nat) -> spec_fn(ExprId) -> bool {
    |d: ExprId| opt_defines(exprs, o, r, d)
}

/// Only the variable `e`.
pub open spec fn only(e: ExprId) -> spec_fn(ExprId) -> bool {
    |d: ExprId| d == e
}

/// The name of the variable `d`.
pub open spec fn var_name(exprs: Exprs, d: ExprId) -> NameId {
    match exprs.spec_get(d) {
        Expr::Var { name, .. } => name.0,
        _ => arbitrary(),
    }
}

/// From `a` to `b` in the first pass, with current item `c`: every variable
/// that `defs` holds is listed in `c` under its name; no entry added to the
/// list repeats a name listed before it; and the entries added and the
/// messages added (one per variable that found its name taken) number `k`.
pub open spec fn names_listed(a: Codebase, b: Codebase, c: ItemId, defs: spec_fn(ExprId) -> bool, k: nat) -> bool {
    let la = a.items.spec_items()[c.0].spec_subitems();
    let lb = b.items.spec_items()[c.0].spec_subitems();
    &&& forall|d: ExprId| #[trigger] defs(d) ==> entry_named(lb, var_name(b.exprs, d)) is Some
    &&& forall|i: int, j: int| 0 <= i < j < lb.len() && la.len() <= j ==> (#[trigger] lb[i]).0 != (#[trigger] lb[j]).0
    &&& (lb.len() - la.len()) + (b.messages.spec_messages().len() - a.messages.spec_messages().len()) == k
}

/// From `a` to `b`, every item added to the pool is the constant made for
/// a variable that `defs` holds, and every message added is an error about
/// a name defined twice.
pub open spec fn consts_added(a: Codebase, b: Codebase, defs: spec_fn(ExprId) -> bool) -> bool {
    let ai = a.items.spec_items();
    let bi = b.items.spec_items();
    let am = a.messages.spec_messages();
    let bm = b.messages.spec_messages();
    &&& forall|k: u64|
        #[trigger] bi.dom().contains(k) && !ai.dom().contains(k) ==> defs(bi[k].spec_definition())
            && bi[k] == made_constant(b.exprs, bi[k].spec_definition())
    &&& forall|i: int|
        am.len() <= i < bm.len() ==> (#[trigger] bm[i]).spec_level() == MessageLevel::Error
            && bm[i].spec_text() == duplicate_item_text()
}

/// The type the checker gives expression `id`.
pub open spec fn expr_ty(exprs: Exprs, id: ExprId) -> TyModel {
    match exprs.spec_get(id) {
        Expr::Bool(..) => TyModel::Bool,
        Expr::Int(..) => TyModel::Int,
        Expr::Float(..) => TyModel::Float,
        Expr::Duration(..) => TyModel::Duration,
        Expr::String(..) => TyModel::String,
        _ => TyModel::Undecided,
    }
}

/// From `a` to `b`, item `c` only gained entries, each a new constant, and
/// no other item changed.
pub open spec fn scope_grew(a: Map<u64, Item>, b: Map<u64, Item>, c: ItemId) -> bool {
    &&& forall|k: u64| #[trigger] a.dom().contains(k) ==> b.dom().contains(k)
    &&& forall|k: u64| a.dom().contains(k) && k != c.0 ==> #[trigger] b[k] == a[k]
    &&& same_shell(a[c.0], b[c.0])
    &&& a[c.0].spec_subitems().len() <= b[c.0].spec_subitems().len()
    &&& b[c.0].spec_subitems().take(a[c.0].spec_subitems().len() as int) == a[c.0].spec_subitems()
    &&& forall|i: int|
        a[c.0].spec_subitems().len() <= i < b[c.0].spec_subitems().len() ==> {
            let e = (#[trigger] b[c.0].spec_subitems()[i]).1;
            &&& !a.dom().contains(e.0)
            &&& b.dom().contains(e.0)
            &&& b[e.0] is Constant
        }
}

/// Looking a name up in a list that grew at its end finds what it found
/// before, if anything.
pub proof fn lemma_entry_named_grow(a: Seq<(NameId, ItemId)>, b: Seq<(NameId, ItemId)>, n: NameId)
    requires
        a.len() <= b.len(),
        b.take(a.len() as int) == a,
    ensures
        entry_named(a, n) is Some ==> entry_named(b, n) == entry_named(a, n),
        entry_named(a, n) is None ==> (entry_named(b, n) matches Some(e) ==> exists|i: int|
            a.len() <= i < b.len() && (#[trigger] b[i]).0 == n && b[i].1 == e),
    decreases a.len(),
{
    if a.len() > 0 {
        assert(b[0] == a[0]) by {
            assert(b.take(a.len() as int)[0] == b[0]);
        }
        if a[0].0 != n {
            assert(b.drop_first().take(a.drop_first().len() as int) =~= a.drop_first()) by {
                assert forall|i: int| 0 <= i < a.drop_first().len() implies #[trigger] b.drop_first().take(
                    a.drop_first().len() as int,
                )[i] == a.drop_first()[i] by {
                    assert(b.take(a.len() as int)[i + 1] == b[i + 1]);
                }
            }
            lemma_entry_named_grow(a.drop_first(), b.drop_first(), n);
            if entry_named(a, n) is None {
                if let Some(e) = entry_named(b, n) {
                    let i = choose|i: int|
                        a.drop_first().len() <= i < b.drop_first().len() && (
                        #[trigger] b.drop_first()[i]).0 == n && b.drop_first()[i].1 == e;
                    assert(b[i + 1] == b.drop_first()[i]);
                }
            }
        }
    } else {
        if let Some(e) = entry_named(b, n) {
            lemma_entry_named(b, n);
        }
    }
}

/// A name with no module clash keeps having none while the scope only
/// gains new constants.
pub proof fn lemma_no_clash_grow(a: Map<u64, Item>, b: Map<u64, Item>, c: ItemId, n: NameId)
    requires
        a.dom().contains(c.0),
        forall|i: int|
            0 <= i < a[c.0].spec_subitems().len() ==> a.dom().contains(
                (#[trigger] a[c.0].spec_subitems()[i]).1.0,
            ),
        no_module_clash(a, c, Some(n)),
        scope_grew(a, b, c),
    ensures
        no_module_clash(b, c, Some(n)),
{
    let la = a[c.0].spec_subitems();
    let lb = b[c.0].spec_subitems();
    lemma_entry_named_grow(la, lb, n);
    if let Some(e) = entry_named(lb, n) {
        if let Some(e0) = entry_named(la, n) {
            assert(e == e0);
            lemma_entry_named(la, n);
            let i = choose|i: int| 0 <= i < la.len() && (#[trigger] la[i]).0 == n && la[i].1 == e0;
            assert(a.dom().contains(e.0));
            assert(!(a[e.0] is Module));
            if e.0 != c.0 {
                assert(b[e.0] == a[e.0]);
            } else {
                assert(same_shell(a[c.0], b[c.0]));
            }
        } else {
            let i = choose|i: int| la.len() <= i < lb.len() && (#[trigger] lb[i]).0 == n && lb[i].1 == e;
            assert(b[e.0] is Constant);
        }
    }
}

/// A name is clear when it stands for no module that item `c` lists.
pub open spec fn clear_in(items: Map<u64, Item>, c: ItemId) -> spec_fn(NameId) -> bool {
    |n: NameId| no_module_clash(items, c, Some(n))
}

/// What checking expression `id` needs of the codebase `cb` in the phase
/// given: the expression can be checked, and in the first pass there is a
/// current item that can take the constants it defines (none named like a
/// module the item lists), with room in the pool for them.
pub open spec fn check_pre(cb: Codebase, discovery: bool, current: Option<ItemId>, id: ExprId) -> bool {
    let x = cb.exprs;
    let n = x.spec_exprs().dom().len();
    let items = cb.items.spec_items();
    &&& x.wf()
    &&& checkable(x, id, discovery, n)
    &&& discovery ==> {
        &&& current is Some
        &&& scope_ok(items, x, current->0)
        &&& items.dom().finite()
        &&& items.dom().len() + consts_in(x, id, n) < u32::MAX
        &&& consts_clear(x, id, n, clear_in(items, current->0))
    }
}

/// What checking an expression that defines `consts` constants does to the
/// codebase: in the first pass the current item gains those constants
/// (and nothing else changes but the names of the pool); in the second pass
/// only messages are added.
pub open spec fn check_effect(a: Codebase, b: Codebase, discovery: bool, current: Option<ItemId>, consts: nat) -> bool {
    &&& b.packages == a.packages
    &&& b.modules == a.modules
    &&& b.names == a.names
    &&& b.exprs == a.exprs
    &&& b.parsed_asts == a.parsed_asts
    &&& b.root_items == a.root_items
    &&& grows(a.messages.spec_messages(), b.messages.spec_messages())
    &&& discovery ==> {
        &&& scope_grew(a.items.spec_items(), b.items.spec_items(), current->0)
        &&& scope_ok(b.items.spec_items(), b.exprs, current->0)
        &&& b.items.spec_items().dom().finite()
        &&& b.items.spec_items().dom().len() == a.items.spec_items().dom().len() + consts
    }
    &&& !discovery ==> b.items == a.items
}

/// The scope keeps growing over two steps.
pub proof fn lemma_scope_grew_trans(a: Map<u64, Item>, b: Map<u64, Item>, d: Map<u64, Item>, c: ItemId)
    requires
        a.dom().contains(c.0),
        scope_grew(a, b, c),
        scope_grew(b, d, c),
    ensures
        scope_grew(a, d, c),
{
    let la = a[c.0].spec_subitems();
    let lb = b[c.0].spec_subitems();
    let ld = d[c.0].spec_subitems();
    assert(ld.take(la.len() as int) =~= la) by {
        assert forall|i: int| 0 <= i < la.len() implies #[trigger] ld.take(la.len() as int)[i] == la[i] by {
            assert(ld.take(lb.len() as int)[i] == lb[i]);
            assert(lb.take(la.len() as int)[i] == la[i]);
        }
    }
    assert forall|i: int| la.len() <= i < ld.len() implies {
        let e = (#[trigger] ld[i]).1;
        &&& !a.dom().contains(e.0)
        &&& d.dom().contains(e.0)
        &&& d[e.0] is Constant
    } by {
        if i < lb.len() {
            assert(ld.take(lb.len() as int)[i] == lb[i]);
            let e = lb[i].1;
            assert(b.dom().contains(e.0) && b[e.0] is Constant && !a.dom().contains(e.0));
            assert(e.0 != c.0);
            assert(d[e.0] == b[e.0]);
        }
    }
    assert forall|k: u64| a.dom().contains(k) && k != c.0 implies #[trigger] d[k] == a[k] by {
        assert(b[k] == a[k]);
        assert(b.dom().contains(k));
    }
    assert(same_shell(a[c.0], d[c.0])) by {
        assert(same_shell(a[c.0], b[c.0]));
        assert(same_shell(b[c.0], d[c.0]));
    }
}

/// Nothing changing is growing.
pub proof fn lemma_scope_grew_refl(a: Map<u64, Item>, c: ItemId)
    ensures
        scope_grew(a, a, c),
{
    assert(a[c.0].spec_subitems().take(a[c.0].spec_subitems().len() as int) =~= a[c.0].spec_subitems());
}

/// What is clear for one test of names stays clear for a weaker one.
pub proof fn lemma_consts_clear_weaken(
    x: Exprs,
    id: ExprId,
    r: nat,
    p: spec_fn(NameId) -> bool,
    q: spec_fn(NameId) -> bool,
)
    requires
        consts_clear(x, id, r, p),
        forall|n: NameId| #[trigger] p(n) ==> q(n),
    ensures
        consts_clear(x, id, r, q),
    decreases r, 0nat, 0nat,
{
    if x.spec_contains(id) && x.spec_rank(id) < r {
        let rk = x.spec_rank(id);
        match x.spec_get(id) {
            Expr::String(comps, _) => {
                lemma_ids_clear_weaken(x, comp_exprs(comps@), rk, p, q);
            },
            Expr::Var { ty, value, .. } => {
                if let Some(t) = ty {
                    lemma_consts_clear_weaken(x, t, rk, p, q);
                }
                if let Some(v) = value {
                    lemma_consts_clear_weaken(x, v, rk, p, q);
                }
            },
            _ => {},
        }
    }
}

/// What is clear for one test of names stays clear for a weaker one, for a list of ids.
pub proof fn lemma_ids_clear_weaken(
    x: Exprs,
    ids: Seq<ExprId>,
    r: nat,
    p: spec_fn(NameId) -> bool,
    q: spec_fn(NameId) -> bool,
)
    requires
        ids_clear(x, ids, r, p),
        forall|n: NameId| #[trigger] p(n) ==> q(n),
    ensures
        ids_clear(x, ids, r, q),
    decreases r, 1nat, ids.len(),
{
    if ids.len() > 0 {
        lemma_ids_clear_weaken(x, ids.drop_last(), r, p, q);
        lemma_consts_clear_weaken(x, ids.last(), r, p, q);
    }
}

/// What holds of all of a list of ids holds of each of its prefixes, and
/// a prefix defines no more constants than the whole list.
pub proof fn lemma_ids_prefix(x: Exprs, ids: Seq<ExprId>, d: bool, r: nat, clear: spec_fn(NameId) -> bool, k: int)
    requires
        0 <= k <= ids.len(),
    ensures
        ids_checkable(x, ids, d, r) ==> ids_checkable(x, ids.take(k), d, r),
        ids_clear(x, ids, r, clear) ==> ids_clear(x, ids.take(k), r, clear),
        ids_consts(x, ids.take(k), r) <= ids_consts(x, ids, r),
    decreases ids.len(),
{
    if k == ids.len() {
        assert(ids.take(k) =~= ids);
    } else {
        let p = ids.drop_last();
        lemma_ids_prefix(x, p, d, r, clear, k);
        assert(p.take(k) =~= ids.take(k));
    }
}

/// What holds of all of a list of ids holds of each, and the constants
/// of a prefix and the next id add up to those of the longer prefix.
pub proof fn lemma_ids_take(x: Exprs, ids: Seq<ExprId>, d: bool, r: nat, clear: spec_fn(NameId) -> bool, i: int)
    requires
        0 <= i < ids.len(),
    ensures
        ids_checkable(x, ids, d, r) ==> checkable(x, ids[i], d, r),
        ids_clear(x, ids, r, clear) ==> consts_clear(x, ids[i], r, clear),
        ids_clear(x, ids.take(i), r, clear) && consts_clear(x, ids[i], r, clear) ==> ids_clear(x, ids.take(i + 1), r, clear),
        ids_consts(x, ids.take(i + 1), r) == ids_consts(x, ids.take(i), r) + consts_in(x, ids[i], r),
        ids_consts(x, ids.take(i + 1), r) <= ids_consts(x, ids, r),
{
    lemma_ids_prefix(x, ids, d, r, clear, i + 1);
    let t0 = ids.take(i);
    let t1 = ids.take(i + 1);
    assert(t1.drop_last() =~= t0);
    assert(t1.last() == ids[i]);
}

/// The interpolated expressions of the pieces up to one, and that piece's
/// expression if it has one, make those of the longer prefix.
pub proof fn lemma_comp_exprs_take(cs: Seq<StringComp>, i: int)
    requires
        0 <= i < cs.len(),
    ensures
        comp_exprs(cs.take(i + 1)) == match cs[i] {
            StringComp::Expr(x) => comp_exprs(cs.take(i)).push(x),
            StringComp::String(_) => comp_exprs(cs.take(i)),
        },
{
    assert(cs.take(i + 1).drop_last() =~= cs.take(i));
    assert(cs.take(i + 1).last() == cs[i]);
}

/// What a prefix of ids reports, and what the next reports, make what the
/// longer prefix reports.
pub proof fn lemma_ids_msgs_take(x: Exprs, ids: Seq<ExprId>, r: nat, names: Seq<Seq<char>>, i: int)
    requires
        0 <= i < ids.len(),
    ensures
        ids_msgs(x, ids.take(i + 1), r, names) == ids_msgs(x, ids.take(i), r, names) + comp_msgs(x, ids[i], r, names),
{
    assert(ids.take(i + 1).drop_last() =~= ids.take(i));
    assert(ids.take(i + 1).last() == ids[i]);
}

/// Past its own position, the level an expression is looked at from does
/// not matter.
pub proof fn lemma_level_shift(
    x: Exprs,
    id: ExprId,
    d: bool,
    r1: nat,
    r2: nat,
    clear: spec_fn(NameId) -> bool,
)
    requires
        x.spec_contains(id),
        x.spec_rank(id) < r1,
        x.spec_rank(id) < r2,
    ensures
        checkable(x, id, d, r1) == checkable(x, id, d, r2),
        consts_in(x, id, r1) == consts_in(x, id, r2),
        consts_clear(x, id, r1, clear) == consts_clear(x, id, r2, clear),
        forall|names: Seq<Seq<char>>| #[trigger] check_msgs(x, id, r1, names) == check_msgs(x, id, r2, names),
        forall|d: ExprId| #[trigger] defines(x, id, r1, d) == defines(x, id, r2, d),
{
}

/// The state the first pass needs: a current item that can take items.
pub open spec fn scope_pre(cb: Codebase, discovery: bool, current: Option<ItemId>) -> bool {
    discovery ==> {
        &&& current is Some
        &&& scope_ok(cb.items.spec_items(), cb.exprs, current->0)
        &&& cb.items.spec_items().dom().finite()
    }
}

/// Doing nothing defines no constants.
pub proof fn lemma_check_effect_refl(cb: Codebase, discovery: bool, current: Option<ItemId>)
    requires
        scope_pre(cb, discovery, current),
    ensures
        check_effect(cb, cb, discovery, current, 0),
{
    lemma_grows_refl(cb.messages.spec_messages());
    if discovery {
        lemma_scope_grew_refl(cb.items.spec_items(), current->0);
    }
}

/// Two steps define the constants of both.
pub proof fn lemma_check_effect_trans(
    a: Codebase,
    b: Codebase,
    d: Codebase,
    discovery: bool,
    current: Option<ItemId>,
    k1: nat,
    k2: nat,
)
    requires
        scope_pre(a, discovery, current),
        check_effect(a, b, discovery, current, k1),
        check_effect(b, d, discovery, current, k2),
    ensures
        check_effect(a, d, discovery, current, k1 + k2),
{
    lemma_grows_trans(a.messages.spec_messages(), b.messages.spec_messages(), d.messages.spec_messages());
    if discovery {
        lemma_scope_grew_trans(a.items.spec_items(), b.items.spec_items(), d.items.spec_items(), current->0);
    }
}

/// Nothing added, nothing to say.
pub proof fn lemma_consts_added_refl(a: Codebase, defs: spec_fn(ExprId) -> bool)
    ensures
        consts_added(a, a, defs),
{
}

/// A weaker test of variables holds of what a stronger one held of.
pub proof fn lemma_consts_added_weaken(
    a: Codebase,
    b: Codebase,
    p: spec_fn(ExprId) -> bool,
    q: spec_fn(ExprId) -> bool,
)
    requires
        consts_added(a, b, p),
        forall|d: ExprId| #[trigger] p(d) ==> q(d),
    ensures
        consts_added(a, b, q),
{
    let ai = a.items.spec_items();
    let bi = b.items.spec_items();
    assert forall|k: u64| #[trigger] bi.dom().contains(k) && !ai.dom().contains(k) implies q(
        bi[k].spec_definition(),
    ) && bi[k] == made_constant(b.exprs, bi[k].spec_definition()) by {
        assert(p(bi[k].spec_definition()));
    }
}

/// Two steps of the first pass add the constants of both.
pub proof fn lemma_consts_added_trans(
    a: Codebase,
    b: Codebase,
    d: Codebase,
    c: ItemId,
    p: spec_fn(ExprId) -> bool,
    q: spec_fn(ExprId) -> bool,
)
    requires
        a.items.spec_items().dom().contains(c.0),
        consts_added(a, b, p),
        consts_added(b, d, q),
        scope_grew(a.items.spec_items(), b.items.spec_items(), c),
        scope_grew(b.items.spec_items(), d.items.spec_items(), c),
        b.exprs == d.exprs,
        grows(a.messages.spec_messages(), b.messages.spec_messages()),
        grows(b.messages.spec_messages(), d.messages.spec_messages()),
    ensures
        consts_added(a, d, |e: ExprId| p(e) || q(e)),
{
    let ai = a.items.spec_items();
    let bi = b.items.spec_items();
    let di = d.items.spec_items();
    assert forall|k: u64| #[trigger] di.dom().contains(k) && !ai.dom().contains(k) implies (|e: ExprId|
        p(e) || q(e))(di[k].spec_definition()) && di[k] == made_constant(d.exprs, di[k].spec_definition()) by {
        if bi.dom().contains(k) {
            assert(bi[k] == made_constant(b.exprs, bi[k].spec_definition()));
            assert(k != c.0);
            assert(di[k] == bi[k]);
        }
    }
    let am = a.messages.spec_messages();
    let bm = b.messages.spec_messages();
    let dm = d.messages.spec_messages();
    assert forall|i: int| am.len() <= i < dm.len() implies (#[trigger] dm[i]).spec_level() == MessageLevel::Error
        && dm[i].spec_text() == duplicate_item_text() by {
        if i < bm.len() {
            assert(dm.take(bm.len() as int)[i] == dm[i]);
            assert(bm[i].spec_level() == MessageLevel::Error);
        }
    }
}

/// A list with an entry appended finds a name under that entry's name.
pub proof fn lemma_entry_named_push(l: Seq<(NameId, ItemId)>, x: (NameId, ItemId))
    ensures
        entry_named(l.push(x), x.0) is Some,
    decreases l.len(),
{
    if l.len() > 0 && l[0].0 != x.0 {
        assert(l.push(x).drop_first() =~= l.drop_first().push(x));
        lemma_entry_named_push(l.drop_first(), x);
    }
}

/// Nothing done, no variable to list.
pub proof fn lemma_names_listed_none(a: Codebase, c: ItemId)
    ensures
        names_listed(a, a, c, |d: ExprId| false, 0),
{
}

/// Listing a set of variables lists each of its subsets.
pub proof fn lemma_names_listed_weaken(
    a: Codebase,
    b: Codebase,
    c: ItemId,
    p: spec_fn(ExprId) -> bool,
    q: spec_fn(ExprId) -> bool,
    k: nat,
)
    requires
        names_listed(a, b, c, p, k),
        forall|d: ExprId| #[trigger] q(d) ==> p(d),
    ensures
        names_listed(a, b, c, q, k),
{
    let lb = b.items.spec_items()[c.0].spec_subitems();
    assert forall|d: ExprId| #[trigger] q(d) implies entry_named(lb, var_name(b.exprs, d)) is Some by {
        assert(p(d));
    }
}

/// Two steps of the first pass list the variables of both.
pub proof fn lemma_names_listed_trans(
    a: Codebase,
    b: Codebase,
    d: Codebase,
    c: ItemId,
    p: spec_fn(ExprId) -> bool,
    q: spec_fn(ExprId) -> bool,
    k1: nat,
    k2: nat,
)
    requires
        a.items.spec_items().dom().contains(c.0),
        names_listed(a, b, c, p, k1),
        names_listed(b, d, c, q, k2),
        scope_grew(a.items.spec_items(), b.items.spec_items(), c),
        scope_grew(b.items.spec_items(), d.items.spec_items(), c),
        b.exprs == d.exprs,
        grows(a.messages.spec_messages(), b.messages.spec_messages()),
        grows(b.messages.spec_messages(), d.messages.spec_messages()),
    ensures
        names_listed(a, d, c, |e: ExprId| p(e) || q(e), k1 + k2),
{
    let la = a.items.spec_items()[c.0].spec_subitems();
    let lb = b.items.spec_items()[c.0].spec_subitems();
    let ld = d.items.spec_items()[c.0].spec_subitems();
    assert forall|e: ExprId| p(e) || q(e) implies #[trigger] entry_named(ld, var_name(d.exprs, e)) is Some by {
        if p(e) {
            lemma_entry_named_grow(lb, ld, var_name(b.exprs, e));
        }
    }
    assert forall|i: int, j: int| 0 <= i < j < ld.len() && la.len() <= j implies (#[trigger] ld[i]).0 != (#[trigger] ld[j]).0 by {
        if j < lb.len() {
            assert(ld.take(lb.len() as int)[i] == ld[i]);
            assert(ld.take(lb.len() as int)[j] == ld[j]);
            assert(lb[i].0 != lb[j].0);
        }
    }
}

/// What a prefix of ids defines, and what the next defines, make what the
/// longer prefix defines.
pub proof fn lemma_ids_define_take(x: Exprs, ids: Seq<ExprId>, r: nat, i: int)
    requires
        0 <= i < ids.len(),
    ensures
        forall|d: ExprId| #[trigger] ids_define(x, ids.take(i + 1), r, d) == (ids_define(x, ids.take(i), r, d)
            || defines(x, ids[i], r, d)),
{
    assert(ids.take(i + 1).drop_last() =~= ids.take(i));
    assert(ids.take(i + 1).last() == ids[i]);
}

/// A test of names that holds before the scope grows holds after.
pub proof fn lemma_clear_grow(a: Map<u64, Item>, b: Map<u64, Item>, x: Exprs, c: ItemId)
    requires
        scope_ok(a, x, c),
        scope_grew(a, b, c),
    ensures
        forall|n: NameId| #[trigger] clear_in(a, c)(n) ==> clear_in(b, c)(n),
{
    assert forall|n: NameId| #[trigger] clear_in(a, c)(n) implies clear_in(b, c)(n) by {
        lemma_no_clash_grow(a, b, c, n);
    }
}

/// The interpolated expressions among the pieces of a string, in order.
fn string_exprs(comps: &Vec<StringComp>) -> (res: Vec<ExprId>)
    ensures
        res@ == comp_exprs(comps@),
{
    let mut res: Vec<ExprId> = Vec::new();
    let mut i: usize = 0;
    while i < comps.len()
        invariant
            i <= comps@.len(),
            res@ == comp_exprs(comps@.take(i as int)),
        decreases comps@.len() - i,
    {
        proof {
            lemma_comp_exprs_take(comps@, i as int);
        }
        match &comps[i] {
            StringComp::String(_) => {},
            StringComp::Expr(e) => {
                res.push(*e);
            },
        }
        i = i + 1;
    }
    proof {
        assert(comps@.take(i as int) =~= comps@);
    }
    res
}

/// The codebases differ at most in their messages, which only grew.
pub open spec fn only_messages_grew(a: Codebase, b: Codebase) -> bool {
    &&& b.packages == a.packages
    &&& b.modules == a.modules
    &&& b.names == a.names
    &&& b.exprs == a.exprs
    &&& b.items == a.items
    &&& b.parsed_asts == a.parsed_asts
    &&& b.root_items == a.root_items
    &&& grows(a.messages.spec_messages(), b.messages.spec_messages())
}

/// Checks the items of a codebase, in two passes.
pub struct Checker<'cb> {
    pub codebase: &'cb mut Codebase,
    pub check_phase: CheckPhase,
    pub current_item: Option<ItemId>,
}

/// The packages up to one take the packages before it and that one.
pub proof fn lemma_packages_size_take(m: Modules, pkgs: Seq<(String, Package)>, i: int)
    requires
        0 <= i < pkgs.len(),
    ensures
        packages_size(m, pkgs.take(i + 1)) == packages_size(m, pkgs.take(i)) + tree_size(m, pkgs[i].1.root_id),
        packages_size(m, pkgs.take(i + 1)) <= packages_size(m, pkgs),
    decreases pkgs.len() - i,
{
    assert(pkgs.take(i + 1).drop_last() =~= pkgs.take(i));
    assert(pkgs.take(pkgs.len() as int) =~= pkgs);
    if i + 1 < pkgs.len() {
        lemma_packages_size_take(m, pkgs, i + 1);
    }
}

/// Counting the submodules one at a time never lowers the count.
pub proof fn lemma_subs_size_mono(m: Modules, id: ModId, i: nat, j: nat)
    requires
        m.wf(),
        m.spec_contains(id),
        i <= j <= m.spec_get(id).submodules@.len(),
    ensures
        subs_size(m, id, i) <= subs_size(m, id, j),
    decreases j - i,
{
    if i < j {
        lemma_subs_size_mono(m, id, i, (j - 1) as nat);
    }
}

impl<'cb> Checker<'cb> {
    /// Makes the public module item for module `id`, named `name`, and
    /// (first) those for everything under it, each holding the items of its
    /// submodules under their names.
    fn init_modules(items: &mut Items, names: &mut Names, modules: &Modules, name: &str, id: ModId) -> (res:
        ItemId)
        requires
            modules.wf(),
            modules.spec_contains(id),
            old(items).spec_items().dom().finite(),
            old(items).spec_items().dom().len() + tree_size(*modules, id) < u32::MAX,
        ensures
            final(items).spec_items().dom().finite(),
            final(items).spec_items().dom().len() == old(items).spec_items().dom().len() + tree_size(
                *modules,
                id,
            ),
            keeps_items(old(items).spec_items(), final(items).spec_items()),
            grows(old(names).spec_names(), final(names).spec_names()),
            mirrors(final(items).spec_items(), final(names).spec_names(), *modules, id, res, name@),
        decreases modules.spec_pool().dom().len() - modules.spec_depth(id),
    {
        let ghost i0 = items.spec_items();
        let ghost n0 = names.spec_names();
        proof {
            lemma_grows_refl(n0);
        }
        let subs = modules.get_submodules_for(id);
        let mut result: Vec<(NameId, ItemId)> = Vec::new();
        let mut i: usize = 0;
        while i < subs.len()
            invariant
                modules.wf(),
                modules.spec_contains(id),
                *subs == modules.spec_get(id).submodules,
                i <= subs@.len(),
                result@.len() == i,
                i0.dom().finite(),
                i0.dom().len() + tree_size(*modules, id) < u32::MAX,
                items.spec_items().dom().finite(),
                items.spec_items().dom().len() == i0.dom().len() + subs_size(*modules, id, i as nat),
                keeps_items(i0, items.spec_items()),
                grows(n0, names.spec_names()),
                mirrors_subs(items.spec_items(), names.spec_names(), *modules, id, result@, i as nat),
            decreases subs@.len() - i,
        {
            proof {
                modules.lemma_sub_deeper(id, i as int);
                lemma_subs_size_mono(*modules, id, (i + 1) as nat, subs@.len());
            }
            let ghost ib = items.spec_items();
            let ghost nb = names.spec_names();
            let nid = names.add(subs[i].0.as_str());
            let ghost nm = names.spec_names();
            let sub_item = Self::init_modules(items, names, modules, subs[i].0.as_str(), subs[i].1);
            let ghost before = result@;
            result.push((nid, sub_item));
            proof {
                assert(nm.take(nb.len() as int) =~= nb);
                lemma_grows_trans(nb, nm, names.spec_names());
                lemma_grows_trans(n0, nb, names.spec_names());
                assert(names.spec_names().take(nm.len() as int)[nid.0 as int] == names.spec_names()[nid.0 as int]);
                assert forall|k: u64| i0.dom().contains(k) implies items.spec_items().dom().contains(k)
                    && items.spec_items()[k] == i0[k] by {
                    assert(ib.dom().contains(k) && ib[k] == i0[k]);
                }
                lemma_mirrors_subs_grow(ib, items.spec_items(), nb, names.spec_names(), *modules, id, before, i as nat);
                assert(result@.take(i as int) =~= before);
                assert(before.take(i as int) =~= before);
                lemma_mirrors_subs_prefix(items.spec_items(), names.spec_names(), *modules, id, before, result@, i as nat);
                assert(result@[i as int] == (nid, sub_item));
            }
            i = i + 1;
        }
        let ghost ib = items.spec_items();
        let ghost nb = names.spec_names();
        let own = names.add(name);
        let res = items.add(
            Item::Module {
                visibility: Visibility::Public,
                name: own,
                definition: id,
                items: result,
                anon_items: Vec::new(),
            },
        );
        proof {
            assert(names.spec_names().take(nb.len() as int) =~= nb);
            lemma_grows_trans(n0, nb, names.spec_names());
            assert forall|k: u64| ib.dom().contains(k) implies items.spec_items().dom().contains(k)
                && items.spec_items()[k] == ib[k] by {}
            assert forall|k: u64| i0.dom().contains(k) implies items.spec_items().dom().contains(k)
                && items.spec_items()[k] == i0[k] by {
                assert(ib.dom().contains(k));
            }
            lemma_mirrors_subs_grow(ib, items.spec_items(), nb, names.spec_names(), *modules, id, result@, i as nat);
        }
        res
    }

    /// Whether `roots` holds an entry for module `id`.
    fn root_known(roots: &Vec<(ModId, ItemId)>, id: ModId) -> (res: bool)
        ensures
            res == has_root(roots@, id),
    {
        let mut j: usize = 0;
        while j < roots.len()
            invariant
                j <= roots@.len(),
                forall|k: int| 0 <= k < j ==> (#[trigger] roots@[k]).0 != id,
            decreases roots@.len() - j,
        {
            if roots[j].0 == id {
                return true;
            }
            j = j + 1;
        }
        false
    }

    /// Makes the module item of each package's root module that has none
    /// yet (see `items_initialized`).
    fn init_items(codebase: &mut Codebase)
        requires
            old(codebase).wf(),
            old(codebase).items.spec_items().dom().finite(),
            old(codebase).items.spec_items().dom().len() + packages_size(
                old(codebase).modules,
                old(codebase).packages@,
            ) < u32::MAX,
        ensures
            items_initialized(*old(codebase), *final(codebase)),
    {
        let ghost c0 = *codebase;
        let ghost pk = codebase.packages@;
        proof {
            lemma_grows_refl(c0.names.spec_names());
            assert(codebase.root_items@.take(c0.root_items@.len() as int) =~= c0.root_items@);
        }
        let mut i: usize = 0;
        while i < codebase.packages.len()
            invariant
                i <= pk.len(),
                codebase.packages@ == pk,
                codebase.packages == c0.packages,
                codebase.modules == c0.modules,
                codebase.messages == c0.messages,
                c0.wf(),
                c0.items.spec_items().dom().len() + packages_size(c0.modules, pk) < u32::MAX,
                codebase.items.spec_items().dom().finite(),
                codebase.items.spec_items().dom().len() <= c0.items.spec_items().dom().len()
                    + packages_size(c0.modules, pk.take(i as int)),
                keeps_items(c0.items.spec_items(), codebase.items.spec_items()),
                grows(c0.names.spec_names(), codebase.names.spec_names()),
                codebase.root_items@.len() >= c0.root_items@.len(),
                codebase.root_items@.take(c0.root_items@.len() as int) == c0.root_items@,
                forall|k: int| 0 <= k < i ==> has_root(codebase.root_items@, (#[trigger] pk[k]).1.root_id),
                forall|j: int|
                    c0.root_items@.len() <= j < codebase.root_items@.len() ==> exists|k: int|
                        0 <= k < pk.len() && (#[trigger] pk[k]).1.root_id == (
                        #[trigger] codebase.root_items@[j]).0 && mirrors(
                            codebase.items.spec_items(),
                            codebase.names.spec_names(),
                            c0.modules,
                            codebase.root_items@[j].0,
                            codebase.root_items@[j].1,
                            pk[k].0@,
                        ),
            decreases pk.len() - i,
        {
            proof {
                lemma_packages_size_take(c0.modules, pk, i as int);
            }
            let root_id = codebase.packages[i].1.root_id;
            if !Self::root_known(&codebase.root_items, root_id) {
                let ghost ib = codebase.items.spec_items();
                let ghost nb = codebase.names.spec_names();
                let ghost rb = codebase.root_items@;
                let root = Self::init_modules(
                    &mut codebase.items,
                    &mut codebase.names,
                    &codebase.modules,
                    codebase.packages[i].0.as_str(),
                    root_id,
                );
                codebase.root_items.push((root_id, root));
                proof {
                    lemma_grows_trans(c0.names.spec_names(), nb, codebase.names.spec_names());
                    assert forall|k: u64| c0.items.spec_items().dom().contains(k) implies codebase.items.spec_items().dom().contains(k)
                        && codebase.items.spec_items()[k] == c0.items.spec_items()[k] by {
                        assert(ib.dom().contains(k));
                    }
                    assert(codebase.root_items@.take(c0.root_items@.len() as int) =~= rb.take(
                        c0.root_items@.len() as int,
                    ));
                    assert forall|k: int| 0 <= k < i + 1 implies has_root(
                        codebase.root_items@,
                        (#[trigger] pk[k]).1.root_id,
                    ) by {
                        if k < i {
                            let j = choose|j: int| 0 <= j < rb.len() && (#[trigger] rb[j]).0 == pk[k].1.root_id;
                            assert(codebase.root_items@[j] == rb[j]);
                        } else {
                            assert(codebase.root_items@[rb.len() as int].0 == root_id);
                        }
                    }
                    assert forall|j: int|
                        c0.root_items@.len() <= j < codebase.root_items@.len() implies exists|k: int|
                            0 <= k < pk.len() && (#[trigger] pk[k]).1.root_id == (
                            #[trigger] codebase.root_items@[j]).0 && mirrors(
                                codebase.items.spec_items(),
                                codebase.names.spec_names(),
                                c0.modules,
                                codebase.root_items@[j].0,
                                codebase.root_items@[j].1,
                                pk[k].0@,
                            ) by {
                        if j < rb.len() {
                            assert(codebase.root_items@[j] == rb[j]);
                            let k = choose|k: int|
                                0 <= k < pk.len() && (#[trigger] pk[k]).1.root_id == (#[trigger] rb[j]).0
                                    && mirrors(ib, nb, c0.modules, rb[j].0, rb[j].1, pk[k].0@);
                            lemma_mirrors_grow(
                                ib,
                                codebase.items.spec_items(),
                                nb,
                                codebase.names.spec_names(),
                                c0.modules,
                                rb[j].0,
                                rb[j].1,
                                pk[k].0@,
                            );
                        } else {
                            assert(codebase.root_items@[j] == (root_id, root));
                            assert(pk[i as int].1.root_id == root_id);
                        }
                    }
                }
            } else {
                proof {
                    assert forall|k: int| 0 <= k < i + 1 implies has_root(
                        codebase.root_items@,
                        (#[trigger] pk[k]).1.root_id,
                    ) by {}
                }
            }
            i = i + 1;
        }
        proof {
            assert(pk.take(i as int) =~= pk);
        }
    }

    /// A checker in its first pass, over `codebase`, after giving every
    /// package's root module its module item.
    pub fn new(codebase: &'cb mut Codebase) -> (res: Self)
        requires
            old(codebase).wf(),
            old(codebase).items.spec_items().dom().finite(),
            old(codebase).items.spec_items().dom().len() + packages_size(
                old(codebase).modules,
                old(codebase).packages@,
            ) < u32::MAX,
        ensures
            res.check_phase == CheckPhase::Discovery,
            res.current_item is None,
            items_initialized(*old(codebase), *res.codebase),
    {
        Self::init_items(codebase);
        Self { codebase, check_phase: CheckPhase::Discovery, current_item: None }
    }

    /// Stores `item` and lists it in the current item: under its name, or
    /// among the unnamed items. A name the current item lists already is
    /// reported as an error (with a note at the first definition) and the
    /// new item is not listed.
    pub fn add_item(&mut self, item: Item) -> (res: ItemId)
        requires
            old(self).current_item is Some,
            scope_ok(
                old(self).codebase.items.spec_items(),
                old(self).codebase.exprs,
                old(self).current_item->0,
            ),
            !(item is Module),
            old(self).codebase.exprs.spec_contains(item.spec_definition()),
            no_module_clash(old(self).codebase.items.spec_items(), old(self).current_item->0, item.spec_name()),
            old(self).codebase.items.spec_items().dom().finite(),
            old(self).codebase.items.spec_items().dom().len() + 1 < u32::MAX,
        ensures
            ({
                let c = old(self).current_item->0;
                let oi = old(self).codebase.items.spec_items();
                let fi = final(self).codebase.items.spec_items();
                let om = old(self).codebase.messages.spec_messages();
                let fm = final(self).codebase.messages.spec_messages();
                let ol = oi[c.0].spec_subitems();
                &&& !oi.dom().contains(res.0)
                &&& fi.dom() == oi.dom().insert(res.0)
                &&& fi[res.0] == item
                &&& forall|k: u64| oi.dom().contains(k) && k != c.0 ==> fi[k] == oi[k]
                &&& same_shell(oi[c.0], fi[c.0])
                &&& scope_ok(fi, final(self).codebase.exprs, c)
                &&& match item.spec_name() {
                    Some(n) => match entry_named(ol, n) {
                        Some(e) => {
                            &&& fi[c.0].spec_subitems() == ol
                            &&& fi[c.0].spec_anon_items() == oi[c.0].spec_anon_items()
                            &&& fm.len() == om.len() + 1
                            &&& fm.drop_last() == om
                            &&& fm.last().spec_level() == MessageLevel::Error
                            &&& fm.last().spec_text() == duplicate_item_text()
                            &&& fm.last().spec_span() == Some(
                                old(self).codebase.exprs.spec_get(item.spec_definition()).spec_span(),
                            )
                            &&& fm.last().spec_notes() == seq![
                                (
                                    NoteLevel::Note,
                                    "first definition here"@,
                                    Some(
                                        old(self).codebase.exprs.spec_get(
                                            oi[e.0].spec_definition(),
                                        ).spec_span(),
                                    ),
                                ),
                            ]
                        },
                        None => {
                            &&& fi[c.0].spec_subitems() == ol.push((n, res))
                            &&& fi[c.0].spec_anon_items() == oi[c.0].spec_anon_items()
                            &&& fm == om
                        },
                    },
                    None => {
                        &&& fi[c.0].spec_subitems() == ol
                        &&& fi[c.0].spec_anon_items() == oi[c.0].spec_anon_items().push(res)
                        &&& fm == om
                    },
                }
            }),
            final(self).codebase.packages == old(self).codebase.packages,
            final(self).codebase.modules == old(self).codebase.modules,
            final(self).codebase.names == old(self).codebase.names,
            final(self).codebase.exprs == old(self).codebase.exprs,
            final(self).codebase.parsed_asts == old(self).codebase.parsed_asts,
            final(self).codebase.root_items == old(self).codebase.root_items,
            final(self).check_phase == old(self).check_phase,
            final(self).current_item == old(self).current_item,
    {
        let name = item.name();
        let span = item.span(self.codebase);
        let c = match self.current_item {
            Some(c) => c,
            None => ItemId(0),
        };
        let existing = match name {
            Some(n) => {
                let cur = self.codebase.items.get(c);
                let list = match cur {
                    Item::Module { items, .. } => items,
                    Item::Function { items, .. } => items,
                    Item::BlockScope { items, .. } => items,
                    Item::Constant { .. } => {
                        assert(false);
                        return ItemId(0);
                    },
                };
                find_entry(list, n)
            },
            None => None,
        };
        let ghost oi = self.codebase.items.spec_items();
        let ghost ol = oi[c.0].spec_subitems();
        let existing_span: Option<Span> = match existing {
            Some(e) => {
                proof {
                    lemma_entry_named(ol, name->0);
                }
                Some(self.codebase.items.get(e).span(self.codebase))
            },
            None => None,
        };
        let id = self.codebase.items.add(item);
        let ghost mid = self.codebase.items.spec_items();
        let listed = match self.codebase.items.get_mut(c) {
            Item::Module { items, anon_items, .. } => match name {
                Some(n) => {
                    if existing.is_none() {
                        items.push((n, id));
                    }
                    true
                },
                None => {
                    anon_items.push(id);
                    true
                },
            },
            Item::Function { items, anon_items, .. } => match name {
                Some(n) => {
                    if existing.is_none() {
                        items.push((n, id));
                    }
                    true
                },
                None => {
                    anon_items.push(id);
                    true
                },
            },
            Item::BlockScope { items, anon_items, .. } => match name {
                Some(n) => {
                    if existing.is_none() {
                        items.push((n, id));
                    }
                    true
                },
                None => {
                    anon_items.push(id);
                    true
                },
            },
            Item::Constant { .. } => false,
        };
        match existing_span {
            Some(es) => {
                self.codebase.messages.add(
                    Message::new_error(
                        String::from_str("item with name {} defined multiple times"),
                        span,
                    ).with_note(String::from_str("first definition here"), Some(es)),
                );
            },
            None => {},
        }
        proof {
            let fi = self.codebase.items.spec_items();
            assert(fi.dom() =~= oi.dom().insert(id.0));
            assert forall|i: int| 0 <= i < fi[c.0].spec_subitems().len() implies {
                let e = (#[trigger] fi[c.0].spec_subitems()[i]).1;
                &&& fi.dom().contains(e.0)
                &&& !(fi[e.0] is Module) ==> self.codebase.exprs.spec_contains(fi[e.0].spec_definition())
            } by {
                if i < ol.len() {
                    assert(fi[c.0].spec_subitems()[i] == ol[i]);
                    let e = ol[i].1;
                    assert(oi.dom().contains(e.0));
                    if e.0 != c.0 {
                        assert(fi[e.0] == oi[e.0]);
                    }
                }
            }
        }
        id
    }

    /// In the first pass, `Undecided`, with nothing done. In the second,
    /// what converting `from` into `into` gives; where they do not convert,
    /// `Invalid`, and an error with the text and span that `msg` gives and
    /// a note saying why.
    fn ensure_convertible<F: FnOnce() -> (String, Span)>(&mut self, from: &Ty, into: &Ty, msg: F) -> (res:
        Ty)
        requires
            names_ok(from@, old(self).codebase.names.spec_names().len()),
            names_ok(into@, old(self).codebase.names.spec_names().len()),
            msg.requires(()),
        ensures
            final(self).check_phase == old(self).check_phase,
            final(self).current_item == old(self).current_item,
            old(self).check_phase == CheckPhase::Discovery ==> res == Ty::Undecided && *final(self).codebase
                == *old(self).codebase,
            old(self).check_phase != CheckPhase::Discovery ==> match converted(
                from@,
                into@,
                old(self).codebase.names.spec_names(),
            ) {
                Ok(t) => res@ == t && *final(self).codebase == *old(self).codebase,
                Err(e) => {
                    let om = old(self).codebase.messages.spec_messages();
                    let fm = final(self).codebase.messages.spec_messages();
                    &&& res == Ty::Invalid
                    &&& only_messages_grew(*old(self).codebase, *final(self).codebase)
                    &&& fm.len() == om.len() + 1
                    &&& fm.last().spec_level() == MessageLevel::Error
                    &&& fm.last().spec_notes() == seq![(NoteLevel::Note, e, None::<Span>)]
                    &&& exists|m: (String, Span)|
                        msg.ensures((), m) && fm.last().spec_text() == m.0@ && fm.last().spec_span() == Some(
                            m.1,
                        )
                },
            },
    {
        if self.discovering() {
            return Ty::Undecided;
        }
        match from.convert_to(into, self.codebase) {
            Ok(ty) => ty,
            Err(e) => {
                let (text, span) = msg();
                let ghost om = self.codebase.messages.spec_messages();
                self.codebase.messages.add(Message::new_error(text, span).with_note(e, None));
                proof {
                    let fm = self.codebase.messages.spec_messages();
                    assert(fm.take(om.len() as int) =~= om);
                }
                Ty::Invalid
            },
        }
    }

    /// Checks expression `from` and then that its type converts into
    /// `into`; where it does not (in the second pass), the error has the
    /// text `msg` gives and the span of the expression.
    fn check_and_ensure<F: FnOnce() -> String>(&mut self, from: ExprId, into: &Ty, msg: F) -> (res: Ty)
        requires
            check_pre(
                *old(self).codebase,
                old(self).check_phase == CheckPhase::Discovery,
                old(self).current_item,
                from,
            ),
            names_ok(into@, old(self).codebase.names.spec_names().len()),
            msg.requires(()),
        ensures
            final(self).check_phase == old(self).check_phase,
            final(self).current_item == old(self).current_item,
            check_effect(
                *old(self).codebase,
                *final(self).codebase,
                old(self).check_phase == CheckPhase::Discovery,
                old(self).current_item,
                consts_in(
                    old(self).codebase.exprs,
                    from,
                    old(self).codebase.exprs.spec_exprs().dom().len(),
                ),
            ),
            old(self).check_phase != CheckPhase::Discovery ==> {
                let x = old(self).codebase.exprs;
                let names = old(self).codebase.names.spec_names();
                let inner = check_msgs(x, from, x.spec_exprs().dom().len(), names);
                let om = old(self).codebase.messages.spec_messages();
                let fm = final(self).codebase.messages.spec_messages();
                match converted(expr_ty(x, from), into@, names) {
                    Ok(_) => msgs_added(om, fm, inner),
                    Err(e) => exists|s: String|
                        msg.ensures((), s) && msgs_added(
                            om,
                            fm,
                            inner.push(
                                (
                                    MessageLevel::Error,
                                    s@,
                                    Some(x.spec_get(from).spec_span()),
                                    seq![(NoteLevel::Note, e, None::<Span>)],
                                ),
                            ),
                        ),
                }
            },
            old(self).check_phase == CheckPhase::Discovery ==> consts_added(
                *old(self).codebase,
                *final(self).codebase,
                defined_by(old(self).codebase.exprs, from, old(self).codebase.exprs.spec_exprs().dom().len()),
            ),
            old(self).check_phase == CheckPhase::Discovery ==> names_listed(
                *old(self).codebase,
                *final(self).codebase,
                old(self).current_item->0,
                defined_by(old(self).codebase.exprs, from, old(self).codebase.exprs.spec_exprs().dom().len()),
                consts_in(old(self).codebase.exprs, from, old(self).codebase.exprs.spec_exprs().dom().len()),
            ),
        decreases old(self).codebase.exprs.spec_rank(from), 4nat,
    {
        let ghost start = *self.codebase;
        let ghost disc = self.check_phase == CheckPhase::Discovery;
        let span = self.codebase.exprs.get(from).span();
        let from_ty = self.check_expr(from);
        let ghost mid = *self.codebase;
        let with_span = (move || -> (r: (String, Span))
            requires
                msg.requires(()),
            ensures
                msg.ensures((), r.0),
                r.1 == span,
            { (msg(), span) });
        let ghost ws = with_span;
        let res = self.ensure_convertible(&from_ty, into, with_span);
        proof {
            lemma_check_effect_refl(mid, disc, self.current_item);
            lemma_check_effect_trans(start, mid, *self.codebase, disc, self.current_item, consts_in(
                start.exprs,
                from,
                start.exprs.spec_exprs().dom().len(),
            ), 0);
            if !disc {
                let x = start.exprs;
                let names = start.names.spec_names();
                let inner = check_msgs(x, from, x.spec_exprs().dom().len(), names);
                let om = start.messages.spec_messages();
                let mm = mid.messages.spec_messages();
                let fm = self.codebase.messages.spec_messages();
                match converted(expr_ty(x, from), into@, names) {
                    Ok(_) => {
                        lemma_msgs_added_none(mm);
                        lemma_msgs_added_trans(om, mm, fm, inner, seq![]);
                        assert(inner + seq![] =~= inner);
                    },
                    Err(e) => {
                        let m = choose|m: (String, Span)|
                            ws.ensures((), m) && fm.last().spec_text() == m.0@ && fm.last().spec_span() == Some(
                                m.1,
                            );
                        let model = (
                            MessageLevel::Error,
                            m.0@,
                            Some(x.spec_get(from).spec_span()),
                            seq![(NoteLevel::Note, e, None::<Span>)],
                        );
                        assert(fm.take(mm.len() as int) == mm);
                        assert(fm[mm.len() as int] == fm.last());
                        assert(msgs_added(mm, fm, seq![model]));
                        lemma_msgs_added_trans(om, mm, fm, inner, seq![model]);
                        assert(inner + seq![model] =~= inner.push(model));
                        assert(msg.ensures((), m.0));
                    },
                }
            }
        }
        res
    }

    /// Checks the expression, if there is one; `Undecided` if not.
    fn check_opt(&mut self, expr: Option<ExprId>) -> (res: Ty)
        requires
            old(self).codebase.exprs.wf(),
            scope_pre(*old(self).codebase, old(self).check_phase == CheckPhase::Discovery, old(self).current_item),
            expr matches Some(x) ==> check_pre(
                *old(self).codebase,
                old(self).check_phase == CheckPhase::Discovery,
                old(self).current_item,
                x,
            ),
        ensures
            final(self).check_phase == old(self).check_phase,
            final(self).current_item == old(self).current_item,
            res@ == match expr {
                Some(x) => expr_ty(old(self).codebase.exprs, x),
                None => TyModel::Undecided,
            },
            check_effect(
                *old(self).codebase,
                *final(self).codebase,
                old(self).check_phase == CheckPhase::Discovery,
                old(self).current_item,
                opt_consts(old(self).codebase.exprs, expr, old(self).codebase.exprs.spec_exprs().dom().len()),
            ),
            old(self).check_phase != CheckPhase::Discovery ==> msgs_added(
                old(self).codebase.messages.spec_messages(),
                final(self).codebase.messages.spec_messages(),
                match expr {
                    Some(x) => check_msgs(
                        old(self).codebase.exprs,
                        x,
                        old(self).codebase.exprs.spec_exprs().dom().len(),
                        old(self).codebase.names.spec_names(),
                    ),
                    None => seq![],
                },
            ),
            old(self).check_phase == CheckPhase::Discovery ==> consts_added(
                *old(self).codebase,
                *final(self).codebase,
                opt_defined_by(old(self).codebase.exprs, expr, old(self).codebase.exprs.spec_exprs().dom().len()),
            ),
            old(self).check_phase == CheckPhase::Discovery ==> names_listed(
                *old(self).codebase,
                *final(self).codebase,
                old(self).current_item->0,
                opt_defined_by(old(self).codebase.exprs, expr, old(self).codebase.exprs.spec_exprs().dom().len()),
                opt_consts(old(self).codebase.exprs, expr, old(self).codebase.exprs.spec_exprs().dom().len()),
            ),
        decreases match expr {
            Some(x) => old(self).codebase.exprs.spec_rank(x),
            None => 0,
        }, match expr {
            Some(_) => 4nat,
            None => 0nat,
        },
    {
        let ghost start = *self.codebase;
        let ghost n = start.exprs.spec_exprs().dom().len();
        match expr {
            Some(x) => {
                let t = self.check_expr(x);
                proof {
                    if self.check_phase == CheckPhase::Discovery {
                        lemma_consts_added_weaken(
                            start,
                            *self.codebase,
                            defined_by(start.exprs, x, n),
                            opt_defined_by(start.exprs, expr, n),
                        );
                        lemma_names_listed_weaken(
                            start,
                            *self.codebase,
                            self.current_item->0,
                            defined_by(start.exprs, x, n),
                            opt_defined_by(start.exprs, expr, n),
                            consts_in(start.exprs, x, n),
                        );
                    }
                }
                t
            },
            None => {
                proof {
                    lemma_check_effect_refl(*self.codebase, self.check_phase == CheckPhase::Discovery, self.current_item);
                    lemma_msgs_added_none(self.codebase.messages.spec_messages());
                    lemma_consts_added_refl(*self.codebase, opt_defined_by(start.exprs, expr, n));
                    lemma_names_listed_none(start, self.current_item->0);
                    lemma_names_listed_weaken(
                        start,
                        start,
                        self.current_item->0,
                        |d: ExprId| false,
                        opt_defined_by(start.exprs, expr, n),
                        0,
                    );
                }
                Ty::Undecided
            },
        }
    }

    /// Checks expression `expr` and gives its type. A literal has its own
    /// type. A string checks each interpolated expression, which must
    /// convert into a string, and is a string. In the first pass a name is
    /// `Undecided`, and a variable checks its type and value (the value must
    /// convert into the type), is `Undecided`, and if it is a constant is
    /// added to the current item.
    pub fn check_expr(&mut self, expr: ExprId) -> (res: Ty)
        requires
            check_pre(
                *old(self).codebase,
                old(self).check_phase == CheckPhase::Discovery,
                old(self).current_item,
                expr,
            ),
        ensures
            final(self).check_phase == old(self).check_phase,
            final(self).current_item == old(self).current_item,
            res@ == expr_ty(old(self).codebase.exprs, expr),
            check_effect(
                *old(self).codebase,
                *final(self).codebase,
                old(self).check_phase == CheckPhase::Discovery,
                old(self).current_item,
                consts_in(
                    old(self).codebase.exprs,
                    expr,
                    old(self).codebase.exprs.spec_exprs().dom().len(),
                ),
            ),
            old(self).check_phase != CheckPhase::Discovery ==> msgs_added(
                old(self).codebase.messages.spec_messages(),
                final(self).codebase.messages.spec_messages(),
                check_msgs(
                    old(self).codebase.exprs,
                    expr,
                    old(self).codebase.exprs.spec_exprs().dom().len(),
                    old(self).codebase.names.spec_names(),
                ),
            ),
            old(self).check_phase == CheckPhase::Discovery ==> consts_added(
                *old(self).codebase,
                *final(self).codebase,
                defined_by(old(self).codebase.exprs, expr, old(self).codebase.exprs.spec_exprs().dom().len()),
            ),
            old(self).check_phase == CheckPhase::Discovery ==> names_listed(
                *old(self).codebase,
                *final(self).codebase,
                old(self).current_item->0,
                defined_by(old(self).codebase.exprs, expr, old(self).codebase.exprs.spec_exprs().dom().len()),
                consts_in(old(self).codebase.exprs, expr, old(self).codebase.exprs.spec_exprs().dom().len()),
            ),
        decreases old(self).codebase.exprs.spec_rank(expr), 3nat,
    {
        let ghost start = *self.codebase;
        let ghost x = start.exprs;
        let ghost n = x.spec_exprs().dom().len();
        let ghost disc = self.check_phase == CheckPhase::Discovery;
        let ghost cur = self.current_item;
        let ghost rk = x.spec_rank(expr);
        let ghost cl0 = clear_in(start.items.spec_items(), cur->0);
        let ghost names = start.names.spec_names();
        let ghost m0 = start.messages.spec_messages();
        proof {
            x.lemma_refs_below(expr);
            lemma_check_effect_refl(start, disc, cur);
            lemma_msgs_added_none(m0);
            lemma_consts_added_refl(start, defined_by(x, expr, n));
            lemma_names_listed_none(start, cur->0);
        }
        match self.codebase.exprs.get(expr) {
            Expr::Bool(..) => {
                proof {
                    lemma_names_listed_weaken(start, start, cur->0, |d: ExprId| false, defined_by(x, expr, n), 0);
                }
                Ty::Bool
            },
            Expr::Int(..) => {
                proof {
                    lemma_names_listed_weaken(start, start, cur->0, |d: ExprId| false, defined_by(x, expr, n), 0);
                }
                Ty::Int
            },
            Expr::Float(..) => {
                proof {
                    lemma_names_listed_weaken(start, start, cur->0, |d: ExprId| false, defined_by(x, expr, n), 0);
                }
                Ty::Float
            },
            Expr::Duration(..) => {
                proof {
                    lemma_names_listed_weaken(start, start, cur->0, |d: ExprId| false, defined_by(x, expr, n), 0);
                }
                Ty::Duration
            },
            Expr::String(comps, _) => {
                let ids = string_exprs(comps);
                proof {
                    assert(ids@.take(0) =~= Seq::<ExprId>::empty());
                    lemma_consts_added_refl(start, ids_defined_by(x, ids@.take(0), rk));
                    lemma_names_listed_weaken(start, start, cur->0, |d: ExprId| false, ids_defined_by(x, ids@.take(0), rk), 0);
                }
                let mut i: usize = 0;
                while i < ids.len()
                    invariant
                        i <= ids@.len(),
                        x == start.exprs,
                        x == old(self).codebase.exprs,
                        rk == x.spec_rank(expr),
                        n == x.spec_exprs().dom().len(),
                        x.wf(),
                        rk < n,
                        cl0 == clear_in(start.items.spec_items(), cur->0),
                        ids_checkable(x, ids@, disc, rk),
                        self.check_phase == old(self).check_phase,
                        self.current_item == cur,
                        disc == (self.check_phase == CheckPhase::Discovery),
                        scope_pre(start, disc, cur),
                        disc ==> start.items.spec_items().dom().len() + ids_consts(x, ids@, rk) < u32::MAX,
                        disc ==> ids_clear(x, ids@, rk, cl0),
                        check_effect(start, *self.codebase, disc, cur, ids_consts(x, ids@.take(i as int), rk)),
                        names == start.names.spec_names(),
                        m0 == start.messages.spec_messages(),
                        !disc ==> msgs_added(
                            m0,
                            self.codebase.messages.spec_messages(),
                            ids_msgs(x, ids@.take(i as int), rk, names),
                        ),
                        disc ==> consts_added(start, *self.codebase, ids_defined_by(x, ids@.take(i as int), rk)),
                        disc ==> names_listed(
                            start,
                            *self.codebase,
                            cur->0,
                            ids_defined_by(x, ids@.take(i as int), rk),
                            ids_consts(x, ids@.take(i as int), rk),
                        ),
                    decreases ids@.len() - i,
                {
                    let id = ids[i];
                    let ghost before = *self.codebase;
                    proof {
                        lemma_ids_take(x, ids@, disc, rk, cl0, i as int);
                        lemma_level_shift(x, id, disc, rk, n, cl0);
                        if disc {
                            lemma_clear_grow(start.items.spec_items(), before.items.spec_items(), x, cur->0);
                            lemma_consts_clear_weaken(x, id, n, cl0, clear_in(before.items.spec_items(), cur->0));
                        }
                    }
                    let msg = (|| -> (r: String)
                        ensures
                            r@ == "component in string interpolation is not convertible to string"@,
                        { String::from_str("component in string interpolation is not convertible to string") });
                    assert(checkable(x, id, disc, rk));
                    assert(x.spec_rank(id) < rk);
                    assert(self.codebase.exprs.spec_rank(id) < old(self).codebase.exprs.spec_rank(expr));
                    self.check_and_ensure(id, &Ty::String, msg);
                    proof {
                        if !disc {
                            lemma_ids_msgs_take(x, ids@, rk, names, i as int);
                            let bm = before.messages.spec_messages();
                            let am = self.codebase.messages.spec_messages();
                            match converted(expr_ty(x, id), TyModel::String, names) {
                                Ok(_) => {},
                                Err(e) => {
                                    let m = choose|m: String|
                                        msg.ensures((), m) && msgs_added(
                                            bm,
                                            am,
                                            check_msgs(x, id, n, names).push(
                                                (
                                                    MessageLevel::Error,
                                                    m@,
                                                    Some(x.spec_get(id).spec_span()),
                                                    seq![(NoteLevel::Note, e, None::<Span>)],
                                                ),
                                            ),
                                        );
                                    assert(m@ == interpolation_text());
                                },
                            }
                            assert(comp_msgs(x, id, rk, names) =~= check_msgs(x, id, n, names) + match converted(
                                expr_ty(x, id),
                                TyModel::String,
                                names,
                            ) {
                                Err(e) => seq![
                                    (
                                        MessageLevel::Error,
                                        interpolation_text(),
                                        Some(x.spec_get(id).spec_span()),
                                        seq![(NoteLevel::Note, e, None::<Span>)],
                                    ),
                                ],
                                Ok(_) => seq![],
                            });
                            lemma_msgs_added_trans(m0, bm, am, ids_msgs(x, ids@.take(i as int), rk, names), comp_msgs(x, id, rk, names));
                        }
                        if disc {
                            let p = ids_defined_by(x, ids@.take(i as int), rk);
                            let q = defined_by(x, id, n);
                            lemma_consts_added_trans(start, before, *self.codebase, cur->0, p, q);
                            lemma_ids_define_take(x, ids@, rk, i as int);
                            lemma_consts_added_weaken(
                                start,
                                *self.codebase,
                                |e: ExprId| p(e) || q(e),
                                ids_defined_by(x, ids@.take(i + 1), rk),
                            );
                            let k1 = ids_consts(x, ids@.take(i as int), rk);
                            let k2 = consts_in(x, id, n);
                            lemma_names_listed_trans(start, before, *self.codebase, cur->0, p, q, k1, k2);
                            lemma_names_listed_weaken(
                                start,
                                *self.codebase,
                                cur->0,
                                |e: ExprId| p(e) || q(e),
                                ids_defined_by(x, ids@.take(i + 1), rk),
                                k1 + k2,
                            );
                        }
                        lemma_check_effect_trans(
                            start,
                            before,
                            *self.codebase,
                            disc,
                            cur,
                            ids_consts(x, ids@.take(i as int), rk),
                            consts_in(x, id, n),
                        );
                    }
                    i = i + 1;
                }
                proof {
                    assert(ids@.take(ids@.len() as int) =~= ids@);
                    if disc {
                        lemma_consts_added_weaken(start, *self.codebase, ids_defined_by(x, ids@, rk), defined_by(x, expr, n));
                        lemma_names_listed_weaken(
                            start,
                            *self.codebase,
                            cur->0,
                            ids_defined_by(x, ids@, rk),
                            defined_by(x, expr, n),
                            ids_consts(x, ids@, rk),
                        );
                    }
                }
                Ty::String
            },
            Expr::Ident(..) => {
                proof {
                    lemma_names_listed_weaken(start, start, cur->0, |d: ExprId| false, defined_by(x, expr, n), 0);
                }
                Ty::Undecided
            },
            Expr::Var { visibility, name, ty, value, is_const, .. } => {
                let visibility = *visibility;
                let name = *name;
                let ty = *ty;
                let value = *value;
                let is_const = *is_const;
                proof {
                    if let Some(t) = ty {
                        lemma_level_shift(x, t, disc, rk, n, cl0);
                    }
                    if let Some(v) = value {
                        lemma_level_shift(x, v, disc, rk, n, cl0);
                    }
                }
                assert(ty matches Some(t) ==> self.codebase.exprs.spec_rank(t) < old(self).codebase.exprs.spec_rank(expr));
                let decl_ty = self.check_opt(ty);
                let ghost mid = *self.codebase;
                proof {
                    if let Some(v) = value {
                        lemma_clear_grow(start.items.spec_items(), mid.items.spec_items(), x, cur->0);
                        lemma_consts_clear_weaken(x, v, n, cl0, clear_in(mid.items.spec_items(), cur->0));
                    }
                }
                assert(value matches Some(v) ==> self.codebase.exprs.spec_rank(v) < old(self).codebase.exprs.spec_rank(expr));
                let value_ty = self.check_opt(value);
                let ghost mid2 = *self.codebase;
                let ghost both = |e: ExprId| opt_defined_by(x, ty, n)(e) || opt_defined_by(x, value, n)(e);
                proof {
                    lemma_check_effect_trans(start, mid, mid2, disc, cur, opt_consts(x, ty, n), opt_consts(x, value, n));
                    lemma_consts_added_trans(start, mid, mid2, cur->0, opt_defined_by(x, ty, n), opt_defined_by(x, value, n));
                    lemma_names_listed_trans(
                        start,
                        mid,
                        mid2,
                        cur->0,
                        opt_defined_by(x, ty, n),
                        opt_defined_by(x, value, n),
                        opt_consts(x, ty, n),
                        opt_consts(x, value, n),
                    );
                }
                let msg = (move || -> (r: (String, Span))
                    ensures
                        r.0@ == "value of constant does not match its type"@,
                        r.1 == name.1,
                    { (String::from_str("value of constant does not match its type"), name.1) });
                let t = self.ensure_convertible(&decl_ty, &value_ty, msg);
                if self.discovering() && is_const {
                    proof {
                        lemma_clear_grow(start.items.spec_items(), mid2.items.spec_items(), x, cur->0);
                    }
                    let ghost oi = self.codebase.items.spec_items();
                    let ghost om = self.codebase.messages.spec_messages();
                    let ghost mid3 = *self.codebase;
                    let item = Item::Constant { visibility, name: name.0, definition: expr, ty: t };
                    let id = self.add_item(item);
                    proof {
                        let fi = self.codebase.items.spec_items();
                        let c = cur->0;
                        let ol = oi[c.0].spec_subitems();
                        let fl = fi[c.0].spec_subitems();
                        assert(fl.take(ol.len() as int) =~= ol);
                        assert(fi.dom() == oi.dom().insert(id.0));
                        assert(scope_grew(oi, fi, c));
                        lemma_grows_refl(om);
                        assert(self.codebase.messages.spec_messages().take(om.len() as int) =~= om);
                        assert(check_effect(mid3, *self.codebase, disc, cur, 1));
                        lemma_check_effect_trans(start, mid2, *self.codebase, disc, cur, opt_consts(x, ty, n) + opt_consts(x, value, n), 1);
                        let fm = self.codebase.messages.spec_messages();
                        assert forall|k: u64| #[trigger] fi.dom().contains(k) && !oi.dom().contains(k) implies only(expr)(
                            fi[k].spec_definition(),
                        ) && fi[k] == made_constant(self.codebase.exprs, fi[k].spec_definition()) by {
                            assert(k == id.0);
                        }
                        assert forall|i: int| om.len() <= i < fm.len() implies (#[trigger] fm[i]).spec_level()
                            == MessageLevel::Error && fm[i].spec_text() == duplicate_item_text() by {
                            assert(fm[i] == fm.last());
                        }
                        assert(consts_added(mid3, *self.codebase, only(expr)));
                        lemma_consts_added_trans(start, mid2, *self.codebase, c, both, only(expr));
                        assert forall|d: ExprId| (|e: ExprId| both(e) || only(expr)(e))(d) implies #[trigger] defined_by(
                            x,
                            expr,
                            n,
                        )(d) by {
                            if let Some(t) = ty {
                                assert(defines(x, t, rk, d) == defines(x, t, n, d));
                            }
                            if let Some(v) = value {
                                assert(defines(x, v, rk, d) == defines(x, v, n, d));
                            }
                        }
                        lemma_consts_added_weaken(
                            start,
                            *self.codebase,
                            |e: ExprId| both(e) || only(expr)(e),
                            defined_by(x, expr, n),
                        );
                        assert(names_listed(mid3, *self.codebase, c, only(expr), 1)) by {
                            let n_ = name.0;
                            if let Some(e) = entry_named(ol, n_) {
                                assert(fl == ol);
                            } else {
                                lemma_entry_named_push(ol, (n_, id));
                                lemma_entry_named(ol, n_);
                                assert forall|i: int, j: int| 0 <= i < j < fl.len() && ol.len() <= j implies (#[trigger] fl[i]).0 != (#[trigger] fl[j]).0 by {
                                    assert(fl[i] == ol[i]);
                                }
                            }
                        }
                        let k12 = opt_consts(x, ty, n) + opt_consts(x, value, n);
                        lemma_names_listed_trans(start, mid2, *self.codebase, c, both, only(expr), k12, 1);
                        assert forall|d: ExprId| #[trigger] defined_by(x, expr, n)(d) implies (|e: ExprId| both(e) || only(expr)(e))(d) by {
                            if let Some(t) = ty {
                                assert(defines(x, t, rk, d) == defines(x, t, n, d));
                            }
                            if let Some(v) = value {
                                assert(defines(x, v, rk, d) == defines(x, v, n, d));
                            }
                        }
                        lemma_names_listed_weaken(
                            start,
                            *self.codebase,
                            c,
                            |e: ExprId| both(e) || only(expr)(e),
                            defined_by(x, expr, n),
                            k12 + 1,
                        );
                    }
                } else {
                    proof {
                        assert(*self.codebase == mid2);
                        if disc {
                            assert forall|d: ExprId| both(d) implies #[trigger] defined_by(x, expr, n)(d) by {
                                if let Some(t) = ty {
                                    assert(defines(x, t, rk, d) == defines(x, t, n, d));
                                }
                                if let Some(v) = value {
                                    assert(defines(x, v, rk, d) == defines(x, v, n, d));
                                }
                            }
                            lemma_consts_added_weaken(start, *self.codebase, both, defined_by(x, expr, n));
                            assert forall|d: ExprId| #[trigger] defined_by(x, expr, n)(d) implies both(d) by {
                                if let Some(t) = ty {
                                    assert(defines(x, t, rk, d) == defines(x, t, n, d));
                                }
                                if let Some(v) = value {
                                    assert(defines(x, v, rk, d) == defines(x, v, n, d));
                                }
                            }
                            lemma_names_listed_weaken(
                                start,
                                *self.codebase,
                                cur->0,
                                both,
                                defined_by(x, expr, n),
                                opt_consts(x, ty, n) + opt_consts(x, value, n),
                            );
                        }
                    }
                }
                Ty::Undecided
            },
            _ => {
                proof {
                    assert(false);
                }
                Ty::Undecided
            },
        }
    }

    /// Whether the checker is in its first pass, finding item names.
    pub fn discovering(&self) -> (res: bool)
        ensures
            res == (self.check_phase == CheckPhase::Discovery),
    {
        match self.check_phase {
            CheckPhase::Discovery => true,
            _ => false,
        }
    }

    pub fn phase(&self) -> (res: &CheckPhase)
        ensures
            *res == self.check_phase,
    {
        &self.check_phase
    }
}

/// A literal has the type of its kind: a boolean is `bool`, an integer
/// `int`, a float `float`, a duration `duration` and a string `string`.
pub proof fn law_literal_types(exprs: Exprs, id: ExprId)
    ensures
        exprs.spec_get(id) is Bool ==> expr_ty(exprs, id) == TyModel::Bool,
        exprs.spec_get(id) is Int ==> expr_ty(exprs, id) == TyModel::Int,
        exprs.spec_get(id) is Float ==> expr_ty(exprs, id) == TyModel::Float,
        exprs.spec_get(id) is Duration ==> expr_ty(exprs, id) == TyModel::Duration,
        exprs.spec_get(id) is String ==> expr_ty(exprs, id) == TyModel::String,
{
}

} // verus!
