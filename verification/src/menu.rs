//! The reactive menu model: one menu tree of items (labels, separators,
//! clickables), a baseline snapshot of the item count, and a derived view —
//! Baseline or Expanded(n) — recomputed from the live tree on every structural
//! change. Each recompute discards the previous submenu wholesale and builds a
//! fresh one holding one delete action per item added since the baseline; each
//! delete action captures only a weak reference to the tree and the absolute
//! index to delete, so a stale activation resolves and validates before
//! mutating and is a silent no-op when the tree has moved on.

use vstd::prelude::*;
use crate::adapter::Action;
use crate::adapter::CallbackAdapter;
use crate::handles::Runtime;
use crate::handles::StrongHandle;
use crate::handles::WeakHandle;
use crate::handles::deposit_total;
use crate::handles::live_at;
use crate::registry::CallbackRegistry;

verus! {

/// The kind of one tree item.
#[derive(Clone, Copy, PartialEq, Eq, Structural, Debug)]
pub enum ItemKind {
    Label,
    Separator,
    Clickable,
}

/// The derived classification of the tree: nothing added beyond the baseline
/// snapshot, or `Expanded(n)` with `n >= 1` items added since it.
#[derive(Clone, Copy, PartialEq, Eq, Structural, Debug)]
pub enum MenuState {
    Baseline,
    Expanded(usize),
}

/// The structural content the derived view is computed from and the derived
/// view itself: item kinds in tree order, the baseline snapshot, the absolute
/// index each submenu delete action targets, and whether the info label is
/// enabled.
#[verifier::ext_equal]
pub struct ModelView {
    pub tree: Seq<ItemKind>,
    pub baseline: usize,
    pub submenu: Seq<usize>,
    pub enabled: bool,
}

/// Whether `k` occurs in `s`.
pub open spec fn seq_has(s: Seq<usize>, k: usize) -> bool {
    exists|i: int| 0 <= i < s.len() && s[i] == k
}

/// The classification derived from a tree length and a baseline.
pub open spec fn spec_state(len: int, baseline: int) -> MenuState {
    if len <= baseline {
        MenuState::Baseline
    } else {
        MenuState::Expanded((len - baseline) as usize)
    }
}

/// The absolute indices the rebuilt submenu's delete actions target: one per
/// item added since the baseline, in order.
pub open spec fn derived_abs(len: int, baseline: int) -> Seq<usize> {
    if len <= baseline {
        Seq::<usize>::empty()
    } else {
        Seq::new((len - baseline) as nat, |k: int| (baseline + k) as usize)
    }
}

/// What one recompute does to the model: the tree and baseline are read, not
/// written; the submenu and the info label's enabled flag are derived afresh
/// from them.
pub open spec fn recompute_spec(m: ModelView) -> ModelView {
    ModelView {
        tree: m.tree,
        baseline: m.baseline,
        submenu: derived_abs(m.tree.len() as int, m.baseline as int),
        enabled: m.tree.len() > m.baseline,
    }
}

/// The classification of a model.
pub open spec fn state_of(m: ModelView) -> MenuState {
    spec_state(m.tree.len() as int, m.baseline as int)
}

/// Recompute idempotence law: recomputing reads only the tree and the
/// baseline and leaves both unchanged, so a second recompute with no
/// intervening mutation derives an identical model — the same
/// Baseline/Expanded classification and the same submenu, entry for entry.
pub proof fn lemma_recompute_idempotent(m: ModelView)
    ensures
        recompute_spec(recompute_spec(m)) == recompute_spec(m),
        state_of(recompute_spec(m)) == state_of(m),
{
    assert(recompute_spec(recompute_spec(m)) =~= recompute_spec(m));
}

/// One tree item: the menu's owning claim on the item's foreign object, and
/// the item's kind.
struct Entry {
    handle: StrongHandle,
    kind: ItemKind,
}

/// One submenu delete item: the owning claim on its foreign object and the
/// absolute tree index its action deletes.
struct SubEntry {
    handle: StrongHandle,
    abs: usize,
}

/// The menu system: the modelled foreign runtime, the registry owning every
/// callback adapter, the top-level item tree, the info label's submenu of
/// delete items, and the baseline snapshot.
pub struct MenuSystem {
    runtime: Runtime,
    registry: CallbackRegistry,
    menu: StrongHandle,
    menu_weak: WeakHandle,
    tree: Vec<Entry>,
    submenu: Vec<SubEntry>,
    info_enabled: bool,
    base: usize,
}

impl MenuSystem {
    /// The modelled foreign runtime.
    pub closed spec fn rt(self) -> Runtime {
        self.runtime
    }

    /// The registry's mapping from item identity to owned adapter.
    pub closed spec fn reg(self) -> Map<usize, CallbackAdapter> {
        self.registry@
    }

    /// The identity of the menu tree's own foreign object.
    pub closed spec fn menu_id(self) -> usize {
        self.menu.id()
    }

    /// The baseline snapshot of the item count.
    pub closed spec fn baseline(self) -> usize {
        self.base
    }

    /// The identities of the tree items, in order.
    pub closed spec fn tree_ids(self) -> Seq<usize> {
        Seq::new(self.tree@.len(), |i: int| self.tree@[i].handle.id())
    }

    /// The kinds of the tree items, in order.
    pub closed spec fn tree_kinds(self) -> Seq<ItemKind> {
        Seq::new(self.tree@.len(), |i: int| self.tree@[i].kind)
    }

    /// The identities of the submenu delete items, in order.
    pub closed spec fn sub_ids(self) -> Seq<usize> {
        Seq::new(self.submenu@.len(), |j: int| self.submenu@[j].handle.id())
    }

    /// The absolute index each submenu delete action targets, in order.
    pub closed spec fn sub_abs(self) -> Seq<usize> {
        Seq::new(self.submenu@.len(), |j: int| self.submenu@[j].abs)
    }

    /// Whether the info label is enabled.
    pub closed spec fn enabled(self) -> bool {
        self.info_enabled
    }

    /// The model the derived view is computed from, together with that view.
    pub open spec fn model(self) -> ModelView {
        ModelView {
            tree: self.tree_kinds(),
            baseline: self.baseline(),
            submenu: self.sub_abs(),
            enabled: self.enabled(),
        }
    }

    /// Well-formedness: no scopes are open around menu mutation; the menu
    /// object, every tree item, every submenu item and every registered
    /// adapter is live; all those identities are pairwise distinct, so
    /// releasing one claim never touches another owner's referent; and every
    /// registry key names a created object.
    pub closed spec fn wf(self) -> bool {
        let c = self.runtime.counts();
        let n = c.len();
        &&& self.runtime.wf()
        &&& self.runtime.scopes().len() == 0
        &&& self.menu.id() < n
        &&& 1 <= c[self.menu.id() as int] < u64::MAX
        &&& self.menu_weak.id() == self.menu.id()
        &&& (forall|i: int|
            0 <= i < self.tree@.len() ==> live_at(c, #[trigger] self.tree@[i].handle.id()))
        &&& (forall|i: int|
            0 <= i < self.tree@.len() ==> (#[trigger] self.tree@[i].handle.id())
                != self.menu.id())
        &&& (forall|i: int, j: int|
            0 <= i < j < self.tree@.len() ==> (#[trigger] self.tree@[i].handle.id())
                != (#[trigger] self.tree@[j].handle.id()))
        &&& (forall|j: int|
            0 <= j < self.submenu@.len() ==> live_at(c, #[trigger] self.submenu@[j].handle.id()))
        &&& (forall|j: int|
            0 <= j < self.submenu@.len() ==> (#[trigger] self.submenu@[j].handle.id())
                != self.menu.id())
        &&& (forall|i: int, j: int|
            0 <= i < j < self.submenu@.len() ==> (#[trigger] self.submenu@[i].handle.id())
                != (#[trigger] self.submenu@[j].handle.id()))
        &&& (forall|i: int, j: int|
            0 <= i < self.tree@.len() && 0 <= j < self.submenu@.len() ==> (
            #[trigger] self.tree@[i].handle.id()) != (#[trigger] self.submenu@[j].handle.id()))
        &&& (forall|k: usize| #[trigger] self.registry@.contains_key(k) ==> k < n)
        &&& (forall|k: usize|
            #[trigger] self.registry@.contains_key(k) ==> live_at(c, self.registry@[k].id())
                && self.registry@[k].id() != self.menu.id())
        &&& (forall|k: usize, i: int|
            self.registry@.contains_key(k) && 0 <= i < self.tree@.len() ==> (
            #[trigger] self.registry@[k].id()) != (#[trigger] self.tree@[i].handle.id()))
        &&& (forall|k: usize, j: int|
            self.registry@.contains_key(k) && 0 <= j < self.submenu@.len() ==> (
            #[trigger] self.registry@[k].id()) != (#[trigger] self.submenu@[j].handle.id()))
        &&& (forall|k1: usize, k2: usize|
            k1 != k2 && self.registry@.contains_key(k1) && self.registry@.contains_key(k2) ==> (
            #[trigger] self.registry@[k1].id()) != (#[trigger] self.registry@[k2].id()))
        &&& (forall|i: int|
            0 <= i < self.tree@.len() && self.tree@[i].kind is Clickable
                ==> self.registry@.contains_key(#[trigger] self.tree@[i].handle.id()))
        &&& (forall|i: int|
            0 <= i < self.tree@.len() && !(self.tree@[i].kind is Clickable)
                ==> !self.registry@.contains_key(#[trigger] self.tree@[i].handle.id()))
        &&& (forall|j: int|
            0 <= j < self.submenu@.len() ==> self.registry@.contains_key(
                #[trigger] self.submenu@[j].handle.id(),
            ))
    }

    /// A fresh system: its own runtime holding only the menu tree's object, an
    /// empty registry, an empty tree, and a baseline of zero.
    pub fn new() -> (s: MenuSystem)
        ensures
            s.wf(),
            s.tree_ids() == Seq::<usize>::empty(),
            s.reg() == Map::<usize, CallbackAdapter>::empty(),
            s.baseline() == 0,
            s.model() == (ModelView {
                tree: Seq::<ItemKind>::empty(),
                baseline: 0,
                submenu: Seq::<usize>::empty(),
                enabled: false,
            }),
    {
        let mut rt = Runtime::new();
        let menu = rt.create();
        let menu_weak = menu.downgrade();
        let s = MenuSystem {
            runtime: rt,
            registry: CallbackRegistry::new(),
            menu,
            menu_weak,
            tree: Vec::new(),
            submenu: Vec::new(),
            info_enabled: false,
            base: 0,
        };
        proof {
            assert(s.tree_ids() =~= Seq::<usize>::empty());
            assert(s.tree_kinds() =~= Seq::<ItemKind>::empty());
            assert(s.sub_ids() =~= Seq::<usize>::empty());
            assert(s.sub_abs() =~= Seq::<usize>::empty());
        }
        s
    }

    /// Recomputes the derived view from the live tree: the previous submenu is
    /// discarded wholesale — every delete item's adapter unregistered and
    /// released, every delete item's object released — and, when items have
    /// been added beyond the baseline, a fresh submenu is built with one
    /// delete action per added item, each registered as the owner of its
    /// adapter. Entries for items outside the old submenu are untouched, and
    /// every surviving or new registry key is either an old key or fresh.
    pub fn recompute(&mut self)
        requires
            old(self).wf(),
        ensures
            final(self).wf(),
            final(self).tree_ids() == old(self).tree_ids(),
            final(self).menu_id() == old(self).menu_id(),
            final(self).model() == recompute_spec(old(self).model()),
            final(self).rt().counts().len() >= old(self).rt().counts().len(),
            forall|k: usize|
                old(self).reg().contains_key(k) && !seq_has(old(self).sub_ids(), k)
                    ==> final(self).reg().contains_key(k) && final(self).reg()[k] == old(self).reg()[k],
            forall|k: usize|
                #[trigger] final(self).reg().contains_key(k) ==> old(self).reg().contains_key(k)
                    || k >= old(self).rt().counts().len(),
            forall|j: int|
                0 <= j < final(self).sub_ids().len() ==> final(self).reg().contains_key(
                    #[trigger] final(self).sub_ids()[j],
                ) && final(self).reg()[final(self).sub_ids()[j]].action() == (Action::Delete {
                    abs: final(self).sub_abs()[j],
                }),
    {
        let ghost pre = *old(self);
        // discard the old submenu wholesale
        while self.submenu.len() > 0
            invariant
                self.wf(),
                self.tree@ == pre.tree@,
                self.menu == pre.menu,
                self.menu_weak == pre.menu_weak,
                self.base == pre.base,
                self.info_enabled == pre.info_enabled,
                self.submenu@.len() <= pre.submenu@.len(),
                self.submenu@ == pre.submenu@.take(self.submenu@.len() as int),
                self.runtime.counts().len() == pre.runtime.counts().len(),
                self.runtime.scopes() == pre.runtime.scopes(),
                forall|k: usize|
                    pre.registry@.contains_key(k) && !seq_has(pre.sub_ids(), k)
                        ==> self.registry@.contains_key(k) && self.registry@[k]
                        == pre.registry@[k],
                forall|k: usize|
                    #[trigger] self.registry@.contains_key(k) ==> pre.registry@.contains_key(k),
            decreases self.submenu@.len(),
        {
            let ghost m = self.submenu@.len() as int;
            let se = self.submenu.pop().unwrap();
            let key = se.handle.target();
            proof {
                assert(pre.submenu@.take(m)[m - 1] == pre.submenu@[m - 1]);
                assert(pre.sub_ids()[m - 1] == se.handle.id());
                assert(seq_has(pre.sub_ids(), key));
                assert(deposit_total(self.runtime.scopes(), se.handle.id()) == 0);
                if self.registry@.contains_key(key) {
                    assert(deposit_total(self.runtime.scopes(), self.registry@[key].id()) == 0);
                }
            }
            let _ = self.registry.unregister(&mut self.runtime, key);
            proof {
                assert(deposit_total(self.runtime.scopes(), se.handle.id()) == 0);
            }
            self.runtime.drop_strong(se.handle);
        }
        proof {
            assert(self.submenu@ =~= Seq::<SubEntry>::empty());
        }
        let ghost mid = *self;
        let len = self.tree.len();
        if len <= self.base {
            self.info_enabled = false;
            proof {
                assert(self.sub_abs() =~= derived_abs(
                    self.tree@.len() as int,
                    self.base as int,
                ));
                assert(self.model() =~= recompute_spec(pre.model()));
                assert(self.tree_ids() =~= pre.tree_ids());
            }
        } else {
            let added = len - self.base;
            let mut rel: usize = 0;
            while rel < added
                invariant
                    self.wf(),
                    rel <= added,
                    added == self.tree@.len() - self.base,
                    self.tree@.len() <= usize::MAX,
                    self.tree@ == pre.tree@,
                    self.menu == pre.menu,
                    self.menu_weak == pre.menu_weak,
                    self.base == pre.base,
                    self.submenu@.len() == rel as int,
                    self.runtime.counts().len() >= pre.runtime.counts().len(),
                    self.runtime.scopes() == pre.runtime.scopes(),
                    forall|j: int|
                        0 <= j < rel as int ==> (#[trigger] self.submenu@[j].abs) == self.base
                            + j,
                    forall|j: int|
                        0 <= j < rel as int ==> self.registry@.contains_key(
                            #[trigger] self.submenu@[j].handle.id(),
                        ) && self.registry@[self.submenu@[j].handle.id()].action()
                            == (Action::Delete { abs: self.submenu@[j].abs }),
                    forall|k: usize|
                        pre.registry@.contains_key(k) && !seq_has(pre.sub_ids(), k)
                            ==> self.registry@.contains_key(k) && self.registry@[k]
                            == pre.registry@[k],
                    forall|k: usize|
                        #[trigger] self.registry@.contains_key(k) ==> pre.registry@.contains_key(
                            k,
                        ) || k >= pre.runtime.counts().len(),
                decreases added - rel,
            {
                let ghost before = *self;
                let item = self.runtime.create();
                let key = item.target();
                let abs = self.base + rel;
                let a = CallbackAdapter::new(&mut self.runtime, Action::Delete { abs });
                proof {
                    assert(!before.registry@.contains_key(key));
                }
                self.registry.register(&mut self.runtime, key, a);
                self.submenu.push(SubEntry { handle: item, abs });
                rel = rel + 1;
            }
            self.info_enabled = true;
            proof {
                assert(self.sub_abs() =~= derived_abs(
                    self.tree@.len() as int,
                    self.base as int,
                ));
                assert(self.model() =~= recompute_spec(pre.model()));
                assert(self.tree_ids() =~= pre.tree_ids());
            }
        }
    }

    /// Appends one item object without an adapter to the tree: fresh, live,
    /// owned by the tree, and unregistered. Does not recompute.
    fn push_entry(&mut self, kind: ItemKind) -> (id: usize)
        requires
            old(self).wf(),
            kind != ItemKind::Clickable,
        ensures
            final(self).wf(),
            id == old(self).rt().counts().len(),
            final(self).tree_ids() == old(self).tree_ids().push(id),
            final(self).tree_kinds() == old(self).tree_kinds().push(kind),
            final(self).sub_ids() == old(self).sub_ids(),
            final(self).sub_abs() == old(self).sub_abs(),
            final(self).enabled() == old(self).enabled(),
            final(self).baseline() == old(self).baseline(),
            final(self).menu_id() == old(self).menu_id(),
            final(self).reg() == old(self).reg(),
            final(self).rt().counts() == old(self).rt().counts().push(1u64),
            final(self).rt().scopes() == old(self).rt().scopes(),
    {
        let h = self.runtime.create();
        let id = h.target();
        self.tree.push(Entry { handle: h, kind });
        proof {
            assert(self.tree_ids() =~= old(self).tree_ids().push(id));
            assert(self.tree_kinds() =~= old(self).tree_kinds().push(kind));
            assert(self.sub_ids() =~= old(self).sub_ids());
            assert(self.sub_abs() =~= old(self).sub_abs());
        }
        id
    }

    /// Appends a label item (enabled, no action) and recomputes.
    pub fn add_label(&mut self) -> (id: usize)
        requires
            old(self).wf(),
        ensures
            final(self).wf(),
            final(self).tree_ids() == old(self).tree_ids().push(id),
            !final(self).reg().contains_key(id),
            final(self).baseline() == old(self).baseline(),
            final(self).menu_id() == old(self).menu_id(),
            final(self).model() == recompute_spec(
                ModelView { tree: old(self).model().tree.push(ItemKind::Label), ..old(self).model() },
            ),
            forall|k: usize|
                old(self).reg().contains_key(k) && !seq_has(old(self).sub_ids(), k)
                    ==> final(self).reg().contains_key(k) && final(self).reg()[k] == old(self).reg()[k],
            forall|k: usize|
                #[trigger] final(self).reg().contains_key(k) ==> old(self).reg().contains_key(k)
                    || k >= old(self).rt().counts().len(),
    {
        let id = self.push_entry(ItemKind::Label);
        let ghost mid = *self;
        self.recompute();
        proof {
            assert(recompute_spec(mid.model()) =~= recompute_spec(
                ModelView { tree: old(self).model().tree.push(ItemKind::Label), ..old(self).model() },
            ));
            assert(!mid.reg().contains_key(id));
        }
        id
    }

    /// Appends a separator item and recomputes.
    pub fn add_separator(&mut self) -> (id: usize)
        requires
            old(self).wf(),
        ensures
            final(self).wf(),
            final(self).tree_ids() == old(self).tree_ids().push(id),
            !final(self).reg().contains_key(id),
            final(self).baseline() == old(self).baseline(),
            final(self).menu_id() == old(self).menu_id(),
            final(self).model() == recompute_spec(
                ModelView {
                    tree: old(self).model().tree.push(ItemKind::Separator),
                    ..old(self).model()
                },
            ),
            forall|k: usize|
                old(self).reg().contains_key(k) && !seq_has(old(self).sub_ids(), k)
                    ==> final(self).reg().contains_key(k) && final(self).reg()[k] == old(
                    self,
                ).reg()[k],
            forall|k: usize|
                #[trigger] final(self).reg().contains_key(k) ==> old(self).reg().contains_key(k)
                    || k >= old(self).rt().counts().len(),
    {
        let id = self.push_entry(ItemKind::Separator);
        let ghost mid = *self;
        self.recompute();
        proof {
            assert(recompute_spec(mid.model()) =~= recompute_spec(
                ModelView {
                    tree: old(self).model().tree.push(ItemKind::Separator),
                    ..old(self).model()
                },
            ));
            assert(!mid.reg().contains_key(id));
        }
        id
    }

    /// Appends a clickable item bound to `action`: one adapter is created for
    /// it, owned by the registry under the item's identity, and the view is
    /// recomputed.
    pub fn add_clickable(&mut self, action: Action) -> (id: usize)
        requires
            old(self).wf(),
        ensures
            final(self).wf(),
            final(self).tree_ids() == old(self).tree_ids().push(id),
            final(self).reg().contains_key(id),
            final(self).reg()[id].action() == action,
            final(self).baseline() == old(self).baseline(),
            final(self).menu_id() == old(self).menu_id(),
            final(self).model() == recompute_spec(
                ModelView {
                    tree: old(self).model().tree.push(ItemKind::Clickable),
                    ..old(self).model()
                },
            ),
            forall|k: usize|
                old(self).reg().contains_key(k) && !seq_has(old(self).sub_ids(), k)
                    ==> final(self).reg().contains_key(k) && final(self).reg()[k] == old(
                    self,
                ).reg()[k],
            forall|k: usize|
                #[trigger] final(self).reg().contains_key(k) ==> old(self).reg().contains_key(k)
                    || k >= old(self).rt().counts().len(),
    {
        let h = self.runtime.create();
        let id = h.target();
        let a = CallbackAdapter::new(&mut self.runtime, action);
        proof {
            assert(!self.registry@.contains_key(id));
        }
        self.registry.register(&mut self.runtime, id, a);
        self.tree.push(Entry { handle: h, kind: ItemKind::Clickable });
        let ghost mid = *self;
        proof {
            assert(mid.tree_ids() =~= old(self).tree_ids().push(id));
            assert(mid.tree_kinds() =~= old(self).tree_kinds().push(ItemKind::Clickable));
            assert(mid.sub_ids() =~= old(self).sub_ids());
            assert(mid.sub_abs() =~= old(self).sub_abs());
            assert(mid.wf());
        }
        self.recompute();
        proof {
            assert(recompute_spec(mid.model()) =~= recompute_spec(
                ModelView {
                    tree: old(self).model().tree.push(ItemKind::Clickable),
                    ..old(self).model()
                },
            ));
            assert(!seq_has(mid.sub_ids(), id));
        }
        id
    }

    /// Takes the current item count as the new baseline and recomputes.
    pub fn snapshot_baseline(&mut self)
        requires
            old(self).wf(),
        ensures
            final(self).wf(),
            final(self).tree_ids() == old(self).tree_ids(),
            final(self).menu_id() == old(self).menu_id(),
            final(self).baseline() == old(self).tree_ids().len(),
            final(self).model() == recompute_spec(
                ModelView {
                    baseline: old(self).tree_ids().len() as usize,
                    ..old(self).model()
                },
            ),
            forall|k: usize|
                old(self).reg().contains_key(k) && !seq_has(old(self).sub_ids(), k)
                    ==> final(self).reg().contains_key(k) && final(self).reg()[k] == old(
                    self,
                ).reg()[k],
            forall|k: usize|
                #[trigger] final(self).reg().contains_key(k) ==> old(self).reg().contains_key(k)
                    || k >= old(self).rt().counts().len(),
    {
        self.base = self.tree.len();
        let ghost mid = *self;
        self.recompute();
        proof {
            assert(mid.sub_ids() =~= old(self).sub_ids());
            assert(mid.reg() == old(self).reg());
            assert(recompute_spec(mid.model()) =~= recompute_spec(
                ModelView {
                    baseline: old(self).tree_ids().len() as usize,
                    ..old(self).model()
                },
            ));
        }
    }

    /// Removes the tree item at absolute index `abs`, unregisters and releases
    /// its adapter if it had one, releases the tree's claim on the item — which
    /// destroys it — and recomputes.
    fn remove_abs(&mut self, abs: usize)
        requires
            old(self).wf(),
            abs < old(self).tree_ids().len(),
        ensures
            final(self).wf(),
            final(self).tree_ids() == old(self).tree_ids().remove(abs as int),
            final(self).baseline() == old(self).baseline(),
            final(self).menu_id() == old(self).menu_id(),
            final(self).model() == recompute_spec(
                ModelView { tree: old(self).model().tree.remove(abs as int), ..old(self).model() },
            ),
            !final(self).reg().contains_key(old(self).tree_ids()[abs as int]),
            forall|k: usize|
                old(self).reg().contains_key(k) && k != old(self).tree_ids()[abs as int]
                    && !seq_has(old(self).sub_ids(), k) ==> final(self).reg().contains_key(k)
                    && final(self).reg()[k] == old(self).reg()[k],
            forall|k: usize|
                #[trigger] final(self).reg().contains_key(k) ==> old(self).reg().contains_key(k)
                    || k >= old(self).rt().counts().len(),
    {
        let ghost pre = *old(self);
        let e = self.tree.remove(abs);
        let key = e.handle.target();
        proof {
            assert forall|i: int| 0 <= i < self.tree@.len() implies self.tree@[i]
                == if i < abs as int {
                pre.tree@[i]
            } else {
                pre.tree@[i + 1]
            } by {
                assert(self.tree@ == pre.tree@.remove(abs as int));
            }
            assert(self.wf());
            assert(deposit_total(self.runtime.scopes(), key) == 0);
            if self.registry@.contains_key(key) {
                assert(deposit_total(self.runtime.scopes(), self.registry@[key].id()) == 0);
            }
        }
        let _ = self.registry.unregister(&mut self.runtime, key);
        proof {
            assert(deposit_total(self.runtime.scopes(), e.handle.id()) == 0);
        }
        self.runtime.drop_strong(e.handle);
        let ghost mid = *self;
        proof {
            assert(mid.wf());
            assert(!mid.reg().contains_key(key));
        }
        self.recompute();
        proof {
            assert(mid.tree_kinds() =~= pre.tree_kinds().remove(abs as int));
            assert(mid.tree_ids() =~= pre.tree_ids().remove(abs as int));
            assert(mid.sub_ids() =~= pre.sub_ids());
            assert(mid.reg() == pre.reg().remove(key));
            assert(recompute_spec(mid.model()) =~= recompute_spec(
                ModelView { tree: pre.model().tree.remove(abs as int), ..pre.model() },
            ));
        }
    }

    /// The consumed tree primitive: removes the item at an absolute index and
    /// recomputes; an index past the end is a no-op.
    pub fn remove_item_at(&mut self, abs: usize)
        requires
            old(self).wf(),
        ensures
            final(self).wf(),
            final(self).baseline() == old(self).baseline(),
            final(self).menu_id() == old(self).menu_id(),
            abs < old(self).tree_ids().len() ==> final(self).tree_ids() == old(self).tree_ids().remove(abs as int) && final(self).model() == recompute_spec(
                ModelView { tree: old(self).model().tree.remove(abs as int), ..old(self).model() },
            ) && !final(self).reg().contains_key(old(self).tree_ids()[abs as int]),
            abs >= old(self).tree_ids().len() ==> *final(self) == *old(self),
    {
        if abs < self.tree.len() {
            self.remove_abs(abs);
        }
    }

    /// The DeleteItem transition: `rel` is an index among the items added
    /// since the baseline, so the absolute position is the baseline plus
    /// `rel`. The tree's weak reference is resolved and the index validated
    /// before anything is mutated: a stale index — the tree has already shrunk
    /// past it — is a silent no-op that changes neither the tree, nor the
    /// registry, nor any retain count. A valid index removes the item,
    /// unregisters and releases its adapter, and recomputes.
    pub fn delete_item(&mut self, rel: usize)
        requires
            old(self).wf(),
        ensures
            final(self).wf(),
            final(self).baseline() == old(self).baseline(),
            final(self).menu_id() == old(self).menu_id(),
            old(self).baseline() + rel >= old(self).tree_ids().len() ==> final(self).model()
                == old(self).model() && final(self).tree_ids() == old(self).tree_ids() && final(self).reg() == old(self).reg() && final(self).rt().counts() == old(self).rt().counts(),
            old(self).baseline() + rel < old(self).tree_ids().len() ==> final(self).tree_ids()
                == old(self).tree_ids().remove(old(self).baseline() + rel) && final(self).model()
                == recompute_spec(
                ModelView {
                    tree: old(self).model().tree.remove(old(self).baseline() + rel),
                    ..old(self).model()
                },
            ) && !final(self).reg().contains_key(
                old(self).tree_ids()[old(self).baseline() + rel],
            ),
            forall|k: usize|
                old(self).baseline() + rel < old(self).tree_ids().len() && old(
                    self,
                ).reg().contains_key(k) && k != old(self).tree_ids()[old(self).baseline() + rel]
                    && !seq_has(old(self).sub_ids(), k) ==> final(self).reg().contains_key(k)
                    && final(self).reg()[k] == old(self).reg()[k],
            forall|k: usize|
                #[trigger] final(self).reg().contains_key(k) ==> old(self).reg().contains_key(k)
                    || k >= old(self).rt().counts().len(),
    {
        let w = self.menu_weak;
        let resolved = w.resolve(&mut self.runtime);
        match resolved {
            None => {
                proof {
                    assert(false);
                }
            },
            Some(mh) => {
                proof {
                    assert(deposit_total(self.runtime.scopes(), mh.id()) == 0);
                }
                self.runtime.drop_strong(mh);
                proof {
                    assert(self.runtime.counts() =~= old(self).rt().counts());
                    assert(self.wf());
                }
                let ghost mid = *self;
                proof {
                    assert(mid.sub_ids() =~= old(self).sub_ids());
                    assert(mid.tree_ids() =~= old(self).tree_ids());
                    assert(mid.model() =~= old(self).model());
                    assert(mid.reg() == old(self).reg());
                }
                let stale = self.base >= self.tree.len() || rel >= self.tree.len() - self.base;
                if !stale {
                    self.remove_abs(self.base + rel);
                }
            },
        }
    }

    /// The foreign runtime's activation of the item `item`: looks the item's
    /// adapter up in the registry and carries its action out — appending a
    /// clickable item (whose own action merely announces itself), appending a
    /// label, deleting the captured absolute index after resolving the tree's
    /// weak reference and validating the index, or announcing and nothing
    /// more. An item without an entry is a no-op.
    pub fn invoke(&mut self, item: usize)
        requires
            old(self).wf(),
        ensures
            final(self).wf(),
            final(self).baseline() == old(self).baseline(),
            final(self).menu_id() == old(self).menu_id(),
            !old(self).reg().contains_key(item) ==> *final(self) == *old(self),
            old(self).reg().contains_key(item) && old(self).reg()[item].action() == Action::Announce
                ==> *final(self) == *old(self),
            old(self).reg().contains_key(item) && old(self).reg()[item].action()
                == Action::AddClickable ==> final(self).model() == recompute_spec(
                ModelView {
                    tree: old(self).model().tree.push(ItemKind::Clickable),
                    ..old(self).model()
                },
            ),
            old(self).reg().contains_key(item) && old(self).reg()[item].action() == Action::AddLabel
                ==> final(self).model() == recompute_spec(
                ModelView { tree: old(self).model().tree.push(ItemKind::Label), ..old(self).model() },
            ),
            forall|abs: usize|
                old(self).reg().contains_key(item) && old(self).reg()[item].action() == (
                Action::Delete { abs }) ==> {
                    &&& abs < old(self).tree_ids().len() ==> final(self).model() == recompute_spec(
                        ModelView {
                            tree: old(self).model().tree.remove(abs as int),
                            ..old(self).model()
                        },
                    ) && !final(self).reg().contains_key(old(self).tree_ids()[abs as int])
                    &&& abs >= old(self).tree_ids().len() ==> final(self).model() == old(self).model() && final(self).reg() == old(self).reg() && final(self).rt().counts()
                        == old(self).rt().counts()
                },
            forall|k: usize|
                #[trigger] final(self).reg().contains_key(k) ==> old(self).reg().contains_key(k)
                    || k >= old(self).rt().counts().len(),
            forall|k: usize|
                old(self).reg().contains_key(k) && !seq_has(old(self).sub_ids(), k) && !(old(
                    self,
                ).reg().contains_key(item) && old(self).reg()[item].action() is Delete)
                    ==> final(self).reg().contains_key(k) && final(self).reg()[k] == old(
                    self,
                ).reg()[k],
            forall|k: usize, abs: usize|
                old(self).reg().contains_key(item) && old(self).reg()[item].action() == (
                Action::Delete { abs }) && abs < old(self).tree_ids().len() && old(
                    self,
                ).reg().contains_key(k) && k != old(self).tree_ids()[abs as int] && !seq_has(
                    old(self).sub_ids(),
                    k,
                ) ==> final(self).reg().contains_key(k) && final(self).reg()[k] == old(
                    self,
                ).reg()[k],
    {
        let act = self.registry.action_of(item);
        match act {
            None => {},
            Some(Action::Announce) => {},
            Some(Action::AddClickable) => {
                let _ = self.add_clickable(Action::Announce);
            },
            Some(Action::AddLabel) => {
                let _ = self.add_label();
            },
            Some(Action::Delete { abs }) => {
                let w = self.menu_weak;
                let resolved = w.resolve(&mut self.runtime);
                match resolved {
                    None => {
                        proof {
                            assert(false);
                        }
                    },
                    Some(mh) => {
                        proof {
                            assert(deposit_total(self.runtime.scopes(), mh.id()) == 0);
                        }
                        self.runtime.drop_strong(mh);
                        proof {
                            assert(self.runtime.counts() =~= old(self).rt().counts());
                            assert(self.wf());
                        }
                        let ghost mid = *self;
                        proof {
                            assert(mid.sub_ids() =~= old(self).sub_ids());
                            assert(mid.tree_ids() =~= old(self).tree_ids());
                            assert(mid.model() =~= old(self).model());
                            assert(mid.reg() == old(self).reg());
                        }
                        if abs < self.tree.len() {
                            self.remove_abs(abs);
                        }
                    },
                }
            },
        }
    }

    /// In a well-formed system a tree item's identity never names a submenu
    /// delete item, the menu object is neither, and every submenu identity is
    /// a registry key of its own: callers may rely on a tree item's registry
    /// entry surviving any recompute.
    pub proof fn lemma_tracked_disjoint(self)
        requires
            self.wf(),
        ensures
            forall|i: int|
                0 <= i < self.tree_ids().len() ==> !seq_has(
                    self.sub_ids(),
                    #[trigger] self.tree_ids()[i],
                ),
            !seq_has(self.sub_ids(), self.menu_id()),
            !seq_has(self.tree_ids(), self.menu_id()),
    {
        assert forall|i: int|
            0 <= i < self.tree_ids().len() implies !seq_has(
            self.sub_ids(),
            self.tree_ids()[i],
        ) by {
            assert(forall|j: int|
                0 <= j < self.sub_ids().len() ==> (#[trigger] self.sub_ids()[j])
                    != self.tree_ids()[i]);
        }
        assert(forall|j: int|
            0 <= j < self.sub_ids().len() ==> (#[trigger] self.sub_ids()[j]) != self.menu_id());
        assert(forall|i: int|
            0 <= i < self.tree_ids().len() ==> (#[trigger] self.tree_ids()[i]) != self.menu_id());
    }

    /// The registry owns an adapter for every clickable tree item and for
    /// every submenu delete item, and owns none for a label or a separator:
    /// each adapter lives exactly as long as the item it serves.
    pub proof fn lemma_registry_tracks_items(self)
        requires
            self.wf(),
        ensures
            forall|i: int|
                0 <= i < self.tree_ids().len() && self.model().tree[i] is Clickable
                    ==> self.reg().contains_key(#[trigger] self.tree_ids()[i]),
            forall|i: int|
                0 <= i < self.tree_ids().len() && !(self.model().tree[i] is Clickable)
                    ==> !self.reg().contains_key(#[trigger] self.tree_ids()[i]),
            forall|j: int|
                0 <= j < self.sub_ids().len() ==> self.reg().contains_key(
                    #[trigger] self.sub_ids()[j],
                ),
    {
    }

    /// The current item count of the tree.
    pub fn tree_len(&self) -> (n: usize)
        ensures
            n == self.tree_ids().len(),
    {
        self.tree.len()
    }

    /// The baseline snapshot.
    pub fn baseline_count(&self) -> (b: usize)
        ensures
            b == self.baseline(),
    {
        self.base
    }

    /// The derived classification: Baseline, or Expanded(n) with n the number
    /// of items added since the baseline.
    pub fn state(&self) -> (st: MenuState)
        ensures
            st == state_of(self.model()),
    {
        if self.tree.len() <= self.base {
            MenuState::Baseline
        } else {
            MenuState::Expanded(self.tree.len() - self.base)
        }
    }

    /// How many delete items the submenu currently holds.
    pub fn submenu_len(&self) -> (n: usize)
        ensures
            n == self.sub_abs().len(),
    {
        self.submenu.len()
    }

    /// The absolute index the `j`-th submenu delete action targets.
    pub fn submenu_abs_at(&self, j: usize) -> (abs: usize)
        requires
            j < self.sub_abs().len(),
        ensures
            abs == self.sub_abs()[j as int],
    {
        self.submenu[j].abs
    }

    /// The identity of the `j`-th submenu delete item.
    pub fn submenu_item_id_at(&self, j: usize) -> (id: usize)
        requires
            j < self.sub_ids().len(),
        ensures
            id == self.sub_ids()[j as int],
    {
        self.submenu[j].handle.target()
    }

    /// Whether the info label is currently enabled.
    pub fn info_is_enabled(&self) -> (e: bool)
        ensures
            e == self.enabled(),
    {
        self.info_enabled
    }

    /// Whether the registry holds an adapter for `item`.
    pub fn is_registered(&self, item: usize) -> (r: bool)
        ensures
            r == self.reg().contains_key(item),
    {
        self.registry.is_registered(item)
    }

    /// The identity of the tree item at absolute index `i`.
    pub fn item_id_at(&self, i: usize) -> (id: usize)
        requires
            i < self.tree_ids().len(),
        ensures
            id == self.tree_ids()[i as int],
    {
        self.tree[i].handle.target()
    }

    /// The kind of the tree item at absolute index `i`.
    pub fn item_kind_at(&self, i: usize) -> (k: ItemKind)
        requires
            i < self.tree_ids().len(),
        ensures
            k == self.model().tree[i as int],
    {
        self.tree[i].kind
    }

    /// The retain count of `id` in the modelled runtime, if such an object was
    /// ever created.
    pub fn object_count(&self, id: usize) -> (r: Option<u64>)
        ensures
            r == if id < self.rt().counts().len() {
                Some(self.rt().counts()[id as int])
            } else {
                None::<u64>
            },
    {
        self.runtime.count_of(id)
    }
}

} // verus!
