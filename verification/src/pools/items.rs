use vstd::prelude::*;
use slotmap::{DefaultKey, Key, KeyData, SlotMap};

use crate::check::ty::Item;

verus! {

/// Identifies an item in the pool of items (the `u64` form of its slot map
/// key).
#[derive(Debug, Clone, Copy, PartialEq, Eq, Structural, Hash)]
pub struct ItemId(pub u64);

/// A `slotmap::SlotMap<DefaultKey, Item>`, held here for the same reason as
/// the module pool's slot map. Keys are handled as their `u64` form.
#[verifier::external_body]
#[derive(Debug)]
pub struct ItemPool {
    inner: SlotMap<DefaultKey, Item>,
}

/// The items a pool holds, by the `u64` form of their keys.
pub uninterp spec fn item_pool(p: ItemPool) -> Map<u64, Item>;

/// `SlotMap::new`: an empty slot map of items.
#[verifier::external_body]
fn item_pool_new() -> (res: ItemPool)
    ensures
        item_pool(res).dom() == Set::<u64>::empty(),
{
    ItemPool { inner: SlotMap::new() }
}

/// `SlotMap::insert`: stores `item` under a key that no stored item has.
/// The slot map panics once it holds `u32::MAX - 1` values.
#[verifier::external_body]
fn item_pool_insert(p: &mut ItemPool, item: Item) -> (k: u64)
    requires
        item_pool(*old(p)).dom().len() + 1 < u32::MAX,
    ensures
        !item_pool(*old(p)).dom().contains(k),
        item_pool(*final(p)) == item_pool(*old(p)).insert(k, item),
{
    p.inner.insert(item).data().as_ffi()
}

/// `SlotMap::get` on a stored key.
#[verifier::external_body]
fn item_pool_get(p: &ItemPool, k: u64) -> (res: &Item)
    requires
        item_pool(*p).dom().contains(k),
    ensures
        *res == item_pool(*p)[k],
{
    p.inner.get(KeyData::from_ffi(k).into()).unwrap()
}

/// `SlotMap::get_mut` on a stored key: what is written through the result
/// is what the slot map holds under `k` afterwards.
#[verifier::external_body]
fn item_pool_get_mut(p: &mut ItemPool, k: u64) -> (res: &mut Item)
    requires
        item_pool(*old(p)).dom().contains(k),
    ensures
        *res == item_pool(*old(p))[k],
        item_pool(*final(p)) == item_pool(*old(p)).insert(k, *final(res)),
{
    p.inner.get_mut(KeyData::from_ffi(k).into()).unwrap()
}

/// The pool of items (modules, functions, constants and scopes) found while
/// checking.
#[derive(Debug)]
pub struct Items {
    map: ItemPool,
}

impl Items {
    /// The items, by the number in their `ItemId`.
    pub closed spec fn spec_items(&self) -> Map<u64, Item> {
        item_pool(self.map)
    }

    pub open spec fn spec_contains(&self, id: ItemId) -> bool {
        self.spec_items().dom().contains(id.0)
    }

    pub fn new() -> (res: Self)
        ensures
            res.spec_items().dom() == Set::<u64>::empty(),
    {
        Self { map: item_pool_new() }
    }

    /// Stores `item` under a new id.
    pub fn add(&mut self, item: Item) -> (res: ItemId)
        requires
            old(self).spec_items().dom().len() + 1 < u32::MAX,
        ensures
            !old(self).spec_contains(res),
            final(self).spec_items() == old(self).spec_items().insert(res.0, item),
    {
        ItemId(item_pool_insert(&mut self.map, item))
    }

    /// The item `id` (which this pool handed out).
    pub fn get(&self, id: ItemId) -> (res: &Item)
        requires
            self.spec_contains(id),
        ensures
            *res == self.spec_items()[id.0],
    {
        item_pool_get(&self.map, id.0)
    }

    /// The item `id` (which this pool handed out), to change it in place.
    pub fn get_mut(&mut self, id: ItemId) -> (res: &mut Item)
        requires
            old(self).spec_contains(id),
        ensures
            *res == old(self).spec_items()[id.0],
            final(self).spec_items() == old(self).spec_items().insert(id.0, *final(res)),
    {
        item_pool_get_mut(&mut self.map, id.0)
    }
}

} // verus!
