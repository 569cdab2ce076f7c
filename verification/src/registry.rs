//! The callback registry: the sole owner of every callback adapter, keyed by
//! the identity of the menu item the adapter serves. An entry lives exactly as
//! long as its item: registering an item whose entry exists replaces the old
//! adapter and releases its claim; unregistering removes the entry and
//! releases the claim. Nothing else holds a strong claim on an adapter
//! long-term — closures reach adapters only through weak references — so the
//! registry's release is the one that lets an adapter die.

use vstd::prelude::*;
use std::collections::HashMap;
use crate::adapter::CallbackAdapter;
use crate::handles::Runtime;
use crate::handles::deposit_total;

verus! {

broadcast use vstd::std_specs::hash::group_hash_axioms;

/// The mapping from menu-item identity to the adapter the registry owns for
/// it. Viewed as a `Map` from item identity to adapter.
pub struct CallbackRegistry {
    entries: HashMap<usize, CallbackAdapter>,
}

impl View for CallbackRegistry {
    type V = Map<usize, CallbackAdapter>;

    closed spec fn view(&self) -> Map<usize, CallbackAdapter> {
        self.entries@
    }
}

impl CallbackRegistry {
    /// An empty registry.
    pub fn new() -> (r: CallbackRegistry)
        ensures
            r@ == Map::<usize, CallbackAdapter>::empty(),
    {
        CallbackRegistry { entries: HashMap::new() }
    }

    /// Whether `item` currently has an entry.
    pub fn is_registered(&self, item: usize) -> (r: bool)
        ensures
            r == self@.contains_key(item),
    {
        self.entries.contains_key(&item)
    }

    /// The action of the adapter registered for `item`, if any.
    pub fn action_of(&self, item: usize) -> (r: Option<crate::adapter::Action>)
        ensures
            r == if self@.contains_key(item) {
                Some(self@[item].action())
            } else {
                None::<crate::adapter::Action>
            },
    {
        match self.entries.get(&item) {
            Some(a) => Some(a.invoke()),
            None => None,
        }
    }

    /// Takes ownership of `adapter` as the entry for `item`. If `item` already
    /// had an entry, the old adapter's claim is released — which may destroy
    /// it — and the old adapter must therefore still be releasable.
    pub fn register(&mut self, rt: &mut Runtime, item: usize, adapter: CallbackAdapter)
        requires
            old(rt).wf(),
            old(self)@.contains_key(item) ==> old(self)@[item].id() < old(rt).counts().len()
                && old(rt).counts()[old(self)@[item].id() as int] > deposit_total(
                old(rt).scopes(),
                old(self)@[item].id(),
            ),
        ensures
            final(rt).wf(),
            final(self)@ == old(self)@.insert(item, adapter),
            final(rt).scopes() == old(rt).scopes(),
            final(rt).counts() == if old(self)@.contains_key(item) {
                old(rt).counts().update(
                    old(self)@[item].id() as int,
                    (old(rt).counts()[old(self)@[item].id() as int] - 1) as u64,
                )
            } else {
                old(rt).counts()
            },
    {
        let prev = self.entries.insert(item, adapter);
        match prev {
            Some(a) => rt.drop_strong(a.into_handle()),
            None => {},
        }
    }

    /// Removes and releases the entry for `item`, reporting whether one
    /// existed. The release may destroy the adapter; callers must unregister
    /// whenever an item leaves the tree, or the adapter leaks.
    pub fn unregister(&mut self, rt: &mut Runtime, item: usize) -> (r: bool)
        requires
            old(rt).wf(),
            old(self)@.contains_key(item) ==> old(self)@[item].id() < old(rt).counts().len()
                && old(rt).counts()[old(self)@[item].id() as int] > deposit_total(
                old(rt).scopes(),
                old(self)@[item].id(),
            ),
        ensures
            final(rt).wf(),
            r == old(self)@.contains_key(item),
            final(self)@ == old(self)@.remove(item),
            final(rt).scopes() == old(rt).scopes(),
            final(rt).counts() == if old(self)@.contains_key(item) {
                old(rt).counts().update(
                    old(self)@[item].id() as int,
                    (old(rt).counts()[old(self)@[item].id() as int] - 1) as u64,
                )
            } else {
                old(rt).counts()
            },
    {
        match self.entries.remove(&item) {
            Some(a) => {
                rt.drop_strong(a.into_handle());
                true
            },
            None => {
                proof {
                    assert(final(self)@ =~= old(self)@.remove(item));
                }
                false
            },
        }
    }
}

/// Registry lifecycle law: after registering an adapter for an item and then
/// unregistering that item, the entry is gone — a further unregister finds
/// nothing — and the one release performed by the unregister exactly cancels
/// the one retain that produced the claim the registry took, so the adapter's
/// count is back at its value from before the registration was prepared: no
/// leak.
pub proof fn lemma_registry_lifecycle(
    m: Map<usize, CallbackAdapter>,
    c: Seq<u64>,
    item: usize,
    adapter: CallbackAdapter,
)
    requires
        adapter.id() < c.len(),
        c[adapter.id() as int] < u64::MAX,
    ensures
        !m.insert(item, adapter).remove(item).contains_key(item),
        m.insert(item, adapter).remove(item) == m.remove(item),
        c.update(adapter.id() as int, (c[adapter.id() as int] + 1) as u64).update(
            adapter.id() as int,
            ((c[adapter.id() as int] + 1) - 1) as u64,
        ) == c,
{
    assert(m.insert(item, adapter).remove(item) =~= m.remove(item));
    assert(c.update(adapter.id() as int, (c[adapter.id() as int] + 1) as u64).update(
        adapter.id() as int,
        ((c[adapter.id() as int] + 1) - 1) as u64,
    ) =~= c);
}

} // verus!
