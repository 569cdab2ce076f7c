//! The handle model and autorelease scopes: a foreign runtime owns objects that
//! carry a retain count; the host holds strong (owning) and weak (non-owning)
//! handles over them and may defer releases into nested, LIFO deposit regions.
//!
//! The runtime is modelled as an explicit value: `Runtime` records every
//! object's retain count and the stack of open deposit regions. A
//! `StrongHandle` stands for exactly one claim on its referent's count; it is
//! only ever produced by an operation that establishes that claim (creation,
//! retain, clone, weak resolution), and consuming it (a drop or a deposit)
//! spends the claim. A `WeakHandle` records identity alone and never extends a
//! lifetime. All mutation is synchronous on one thread, so a weak resolution's
//! check-and-retain cannot race with destruction.

use vstd::prelude::*;

verus! {

/// How many times `id` occurs in the deposit list `s`.
pub open spec fn occ(s: Seq<usize>, id: usize) -> nat
    decreases s.len(),
{
    if s.len() == 0 {
        0
    } else {
        (if s[0] == id {
            1nat
        } else {
            0nat
        }) + occ(s.skip(1), id)
    }
}

/// How many deposits of `id` are pending across all open scopes.
pub open spec fn deposit_total(scopes: Seq<Seq<usize>>, id: usize) -> nat
    decreases scopes.len(),
{
    if scopes.len() == 0 {
        0
    } else {
        deposit_total(scopes.drop_last(), id) + occ(scopes.last(), id)
    }
}

/// The retain count of `id`, or zero for an identity that was never created.
pub open spec fn count_or_zero(c: Seq<u64>, id: usize) -> nat {
    if id < c.len() {
        c[id as int] as nat
    } else {
        0
    }
}

/// An object is live while its retain count is above zero.
pub open spec fn live_at(c: Seq<u64>, id: usize) -> bool {
    id < c.len() && c[id as int] >= 1
}

/// The counts after releasing each identity in `l` once, in order.
pub open spec fn release_all(c: Seq<u64>, l: Seq<usize>) -> Seq<u64>
    decreases l.len(),
{
    if l.len() == 0 {
        c
    } else {
        release_all(c.update(l[0] as int, (c[l[0] as int] - 1) as u64), l.skip(1))
    }
}

/// An owning claim on one foreign object: cloning retains, dropping releases.
pub struct StrongHandle {
    obj: usize,
}

/// A non-owning reference: records identity, never extends a lifetime.
#[derive(Clone, Copy)]
pub struct WeakHandle {
    obj: usize,
}

/// A token bound to one open deposit region; regions close in LIFO order.
pub struct ScopeToken {
    depth: usize,
}

/// The foreign runtime, modelled as an explicit value: per-object retain
/// counts (an object's identity is its index; count zero means destroyed)
/// and the stack of open autorelease regions with their pending deposits.
pub struct Runtime {
    store: Vec<u64>,
    regions: Vec<Vec<usize>>,
}

impl StrongHandle {
    /// The identity of the referent.
    pub closed spec fn id(self) -> usize {
        self.obj
    }

    /// The identity of the referent, as a value.
    pub fn target(&self) -> (r: usize)
        ensures
            r == self.id(),
    {
        self.obj
    }

    /// Records the referent's identity without touching its count.
    pub fn downgrade(&self) -> (w: WeakHandle)
        ensures
            w.id() == self.id(),
    {
        WeakHandle { obj: self.obj }
    }
}

impl WeakHandle {
    /// The identity this weak handle remembers.
    pub closed spec fn id(self) -> usize {
        self.obj
    }

    /// Resolves to a fresh strong handle exactly when the referent is still
    /// live at the instant of the call; a dead or never-created referent
    /// yields nothing and the runtime is untouched. Destruction and this
    /// check-and-retain are both confined to one thread, so no destruction
    /// can fall between the check and the increment.
    pub fn resolve(&self, rt: &mut Runtime) -> (r: Option<StrongHandle>)
        requires
            old(rt).wf(),
            old(rt).live(self.id()) ==> old(rt).counts()[self.id() as int] < u64::MAX,
        ensures
            final(rt).wf(),
            final(rt).scopes() == old(rt).scopes(),
            r.is_some() <==> old(rt).live(self.id()),
            r.is_some() ==> r.unwrap().id() == self.id() && final(rt).counts() == old(
                rt,
            ).counts().update(
                self.id() as int,
                (old(rt).counts()[self.id() as int] + 1) as u64,
            ),
            r.is_none() ==> final(rt).counts() == old(rt).counts(),
    {
        if self.obj < rt.store.len() {
            let c = rt.store[self.obj];
            if c >= 1 {
                Some(rt.retain(self.obj))
            } else {
                None
            }
        } else {
            None
        }
    }
}

/// One step in the life of a single handle: acquiring one more claim on the
/// referent (a retain, a clone, a successful weak resolution) or releasing one
/// (a drop).
pub enum HandleOp {
    Acquire,
    Release,
}

/// The running total `v` after applying each step's one-unit change in order.
pub open spec fn net_claims(v: int, ops: Seq<HandleOp>) -> int
    decreases ops.len(),
{
    if ops.len() == 0 {
        v
    } else {
        net_claims(
            v + (if ops[0] is Acquire {
                1int
            } else {
                -1int
            }),
            ops.skip(1),
        )
    }
}

/// A sequence of handle steps never releases a claim it does not hold: the
/// number of live claims stays non-negative after every prefix.
pub open spec fn claims_ok(v: int, ops: Seq<HandleOp>) -> bool
    decreases ops.len(),
{
    if ops.len() == 0 {
        v >= 0
    } else {
        v >= 0 && claims_ok(
            v + (if ops[0] is Acquire {
                1int
            } else {
                -1int
            }),
            ops.skip(1),
        )
    }
}

/// Balanced retain/release law: over any sequence of retains, clones and
/// drops on one object, the retain count stays exactly one above the number
/// of live handle claims (the one being the creator's own claim), so the
/// count stays positive — the object is not destroyed — until after the last
/// handle is gone, and destruction happens exactly once, when the final
/// claim is released outside any deposit backing it.
pub proof fn lemma_balanced_retain_release(ops: Seq<HandleOp>, handles: int, count: int)
    requires
        count == 1 + handles,
        claims_ok(handles, ops),
    ensures
        net_claims(count, ops) == 1 + net_claims(handles, ops),
        net_claims(handles, ops) >= 0,
        net_claims(count, ops) >= 1,
    decreases ops.len(),
{
    if ops.len() == 0 {
    } else {
        let d: int = if ops[0] is Acquire {
            1int
        } else {
            -1int
        };
        lemma_balanced_retain_release(ops.skip(1), handles + d, count + d);
    }
}

/// No destruction inside a scope that still backs the object: while any
/// deposit of an object is pending, well-formedness keeps its count above the
/// pending total, so the count is positive and the object cannot yet have been
/// destroyed — destruction comes only from a release performed when no deposit
/// backs it any longer, at the earliest from the close of the scope holding
/// its last deposit.
pub proof fn lemma_deposited_object_is_live(rt: Runtime, id: usize)
    requires
        rt.wf(),
        deposit_total(rt.scopes(), id) >= 1,
    ensures
        rt.live(id),
{
    assert(deposit_total(rt.scopes(), id) <= count_or_zero(rt.counts(), id));
}

/// Weak resolution law: while the last claim is held the referent is live, so
/// a weak handle resolves to a fresh strong handle; once that claim is
/// released the count is zero and the referent is no longer live, so the same
/// weak handle resolves to nothing — never to a destroyed object.
pub proof fn lemma_weak_resolution(c: Seq<u64>, id: usize)
    requires
        id < c.len(),
        c[id as int] == 1,
    ensures
        live_at(c, id),
        !live_at(c.update(id as int, (c[id as int] - 1) as u64), id),
{
}

impl ScopeToken {
    /// The index of the region this token closes.
    pub closed spec fn depth(self) -> usize {
        self.depth
    }
}

impl Runtime {
    /// The retain count of each object created so far.
    pub closed spec fn counts(self) -> Seq<u64> {
        self.store@
    }

    /// The open deposit regions, innermost last.
    pub closed spec fn scopes(self) -> Seq<Seq<usize>> {
        Seq::new(self.regions@.len(), |i: int| self.regions@[i]@)
    }

    /// An object is live while its count is above zero.
    pub open spec fn live(self, id: usize) -> bool {
        live_at(self.counts(), id)
    }

    /// An object is destroyed when its count has reached zero.
    pub open spec fn destroyed(self, id: usize) -> bool {
        id < self.counts().len() && self.counts()[id as int] == 0
    }

    /// Every pending deposit is backed by a claim on its object's count, so a
    /// scope can always perform the releases it owes on close.
    pub open spec fn wf(self) -> bool {
        forall|id: usize|
            #[trigger] deposit_total(self.scopes(), id) <= count_or_zero(self.counts(), id)
    }

    /// A runtime with no objects and no open scopes.
    pub fn new() -> (rt: Runtime)
        ensures
            rt.wf(),
            rt.counts() == Seq::<u64>::empty(),
            rt.scopes() == Seq::<Seq<usize>>::empty(),
    {
        let rt = Runtime { store: Vec::new(), regions: Vec::new() };
        proof {
            assert(rt.scopes() =~= Seq::<Seq<usize>>::empty());
            assert forall|id: usize|
                #[trigger] deposit_total(rt.scopes(), id) <= count_or_zero(rt.counts(), id) by {
            }
        }
        rt
    }

    /// Creates a fresh foreign object with a retain count of one; the returned
    /// handle owns that initial claim.
    pub fn create(&mut self) -> (h: StrongHandle)
        requires
            old(self).wf(),
        ensures
            final(self).wf(),
            final(self).counts() == old(self).counts().push(1u64),
            final(self).scopes() == old(self).scopes(),
            h.id() == old(self).counts().len(),
    {
        let id = self.store.len();
        self.store.push(1u64);
        proof {
            assert(final(self).scopes() =~= old(self).scopes());
            assert forall|x: usize|
                #[trigger] deposit_total(final(self).scopes(), x) <= count_or_zero(
                    final(self).counts(),
                    x,
                ) by {
                assert(deposit_total(old(self).scopes(), x) <= count_or_zero(
                    old(self).counts(),
                    x,
                ));
            }
        }
        StrongHandle { obj: id }
    }

    /// Increments a live object's count and returns a handle owning the new
    /// claim. The caller must guarantee liveness through an existing handle; a
    /// count at the machine maximum is an unrecoverable condition and is ruled
    /// out here.
    pub fn retain(&mut self, id: usize) -> (h: StrongHandle)
        requires
            old(self).wf(),
            old(self).live(id),
            old(self).counts()[id as int] < u64::MAX,
        ensures
            final(self).wf(),
            final(self).counts() == old(self).counts().update(
                id as int,
                (old(self).counts()[id as int] + 1) as u64,
            ),
            final(self).scopes() == old(self).scopes(),
            h.id() == id,
    {
        let c = self.store[id];
        self.store[id] = c + 1;
        proof {
            assert(final(self).scopes() =~= old(self).scopes());
            assert forall|x: usize|
                #[trigger] deposit_total(final(self).scopes(), x) <= count_or_zero(
                    final(self).counts(),
                    x,
                ) by {
                assert(deposit_total(old(self).scopes(), x) <= count_or_zero(
                    old(self).counts(),
                    x,
                ));
            }
        }
        StrongHandle { obj: id }
    }

    /// Clones a strong handle: one more claim on the same referent.
    pub fn clone_strong(&mut self, h: &StrongHandle) -> (r: StrongHandle)
        requires
            old(self).wf(),
            old(self).live(h.id()),
            old(self).counts()[h.id() as int] < u64::MAX,
        ensures
            final(self).wf(),
            final(self).counts() == old(self).counts().update(
                h.id() as int,
                (old(self).counts()[h.id() as int] + 1) as u64,
            ),
            final(self).scopes() == old(self).scopes(),
            r.id() == h.id(),
    {
        self.retain(h.obj)
    }

    /// Releases the handle's claim. The count drops by one; the referent is
    /// destroyed exactly when the count reaches zero, which pending deposits
    /// (each backed by its own claim) rule out until their scope closes.
    pub fn drop_strong(&mut self, h: StrongHandle)
        requires
            old(self).wf(),
            h.id() < old(self).counts().len(),
            old(self).counts()[h.id() as int] > deposit_total(old(self).scopes(), h.id()),
        ensures
            final(self).wf(),
            final(self).counts() == old(self).counts().update(
                h.id() as int,
                (old(self).counts()[h.id() as int] - 1) as u64,
            ),
            final(self).scopes() == old(self).scopes(),
            final(self).destroyed(h.id()) <==> old(self).counts()[h.id() as int] == 1,
    {
        let c = self.store[h.obj];
        self.store[h.obj] = c - 1;
        proof {
            assert(final(self).scopes() =~= old(self).scopes());
            assert forall|x: usize|
                #[trigger] deposit_total(final(self).scopes(), x) <= count_or_zero(
                    final(self).counts(),
                    x,
                ) by {
                assert(deposit_total(old(self).scopes(), x) <= count_or_zero(
                    old(self).counts(),
                    x,
                ));
            }
        }
    }

    /// The count of `id`, if such an object was ever created.
    pub fn count_of(&self, id: usize) -> (r: Option<u64>)
        ensures
            r == if id < self.counts().len() {
                Some(self.counts()[id as int])
            } else {
                None::<u64>
            },
    {
        if id < self.store.len() {
            Some(self.store[id])
        } else {
            None
        }
    }

    /// Whether `id` names a live object.
    pub fn is_live(&self, id: usize) -> (r: bool)
        ensures
            r == self.live(id),
    {
        id < self.store.len() && self.store[id] >= 1
    }

    /// How many deposit regions are open.
    pub fn open_scopes(&self) -> (n: usize)
        ensures
            n == self.scopes().len(),
    {
        self.regions.len()
    }

    /// Opens a new deposit region; the token closes exactly this region.
    pub fn enter_scope(&mut self) -> (t: ScopeToken)
        requires
            old(self).wf(),
        ensures
            final(self).wf(),
            final(self).counts() == old(self).counts(),
            final(self).scopes() == old(self).scopes().push(Seq::<usize>::empty()),
            t.depth() == old(self).scopes().len(),
    {
        let d = self.regions.len();
        self.regions.push(Vec::new());
        proof {
            assert(final(self).scopes() =~= old(self).scopes().push(Seq::<usize>::empty()));
            assert forall|x: usize|
                #[trigger] deposit_total(final(self).scopes(), x) <= count_or_zero(
                    final(self).counts(),
                    x,
                ) by {
                lemma_deposit_push(old(self).scopes(), Seq::<usize>::empty(), x);
                assert(occ(Seq::<usize>::empty(), x) == 0);
                assert(deposit_total(old(self).scopes(), x) <= count_or_zero(
                    old(self).counts(),
                    x,
                ));
            }
        }
        ScopeToken { depth: d }
    }

    /// Moves the handle's claim into the innermost open region: the count does
    /// not change now, and the region owes one release on close.
    pub fn deposit(&mut self, h: StrongHandle)
        requires
            old(self).wf(),
            old(self).scopes().len() > 0,
            h.id() < old(self).counts().len(),
            old(self).counts()[h.id() as int] > deposit_total(old(self).scopes(), h.id()),
        ensures
            final(self).wf(),
            final(self).counts() == old(self).counts(),
            final(self).scopes() == old(self).scopes().update(
                old(self).scopes().len() - 1,
                old(self).scopes().last().push(h.id()),
            ),
    {
        let n = self.regions.len();
        let mut last = self.regions.pop().unwrap();
        last.push(h.obj);
        self.regions.push(last);
        proof {
            let pre = old(self).scopes();
            let post = pre.update(pre.len() - 1, pre.last().push(h.id()));
            assert(final(self).scopes() =~= post);
            assert forall|x: usize|
                #[trigger] deposit_total(post, x) <= count_or_zero(final(self).counts(), x) by {
                lemma_deposit_update_last(pre, pre.last().push(h.id()), x);
                lemma_occ_push(pre.last(), h.id(), x);
                assert(deposit_total(pre, x) == deposit_total(pre.drop_last(), x) + occ(
                    pre.last(),
                    x,
                ));
                assert(deposit_total(pre, x) <= count_or_zero(old(self).counts(), x));
            }
        }
    }

    /// Closes the innermost region, which must be the one the token opened,
    /// and performs one release for every deposit made into it: each object's
    /// count drops by exactly the number of times it was deposited there.
    pub fn close_scope(&mut self, t: ScopeToken)
        requires
            old(self).wf(),
            old(self).scopes().len() == t.depth() + 1,
        ensures
            final(self).wf(),
            final(self).scopes() == old(self).scopes().drop_last(),
            final(self).counts() == release_all(old(self).counts(), old(self).scopes().last()),
            final(self).counts().len() == old(self).counts().len(),
            forall|id: usize|
                id < old(self).counts().len() ==> final(self).counts()[id as int] == old(
                    self,
                ).counts()[id as int] - occ(old(self).scopes().last(), id),
    {
        let ghost pre_counts = old(self).counts();
        let ghost rest = old(self).scopes().drop_last();
        let l = self.regions.pop().unwrap();
        let ghost dl = l@;
        proof {
            assert(self.scopes() =~= rest);
            assert(dl == old(self).scopes().last());
            assert forall|x: usize|
                occ(dl.skip(0), x) + deposit_total(rest, x) <= #[trigger] count_or_zero(
                    self.counts(),
                    x,
                ) by {
                assert(dl.skip(0) =~= dl);
                assert(deposit_total(old(self).scopes(), x) == deposit_total(rest, x) + occ(
                    dl,
                    x,
                ));
                assert(deposit_total(old(self).scopes(), x) <= count_or_zero(pre_counts, x));
            }
            assert(dl.skip(0) =~= dl);
            assert(self.counts() == pre_counts);
            assert(release_all(pre_counts, dl) == release_all(self.counts(), dl.skip(0)));
        }
        let mut i: usize = 0;
        while i < l.len()
            invariant
                i <= dl.len(),
                l@ == dl,
                self.scopes() == rest,
                self.counts().len() == pre_counts.len(),
                release_all(pre_counts, dl) == release_all(self.counts(), dl.skip(i as int)),
                forall|x: usize|
                    occ(dl.skip(i as int), x) + deposit_total(rest, x) <= #[trigger] count_or_zero(
                        self.counts(),
                        x,
                    ),
            decreases dl.len() - i,
        {
            let id = l[i];
            proof {
                lemma_occ_skip_step(dl, i as int, id);
                assert(occ(dl.skip(i as int), id) >= 1);
                assert(count_or_zero(self.counts(), id) >= 1);
                assert(id < self.counts().len());
            }
            let c = self.store[id];
            let ghost mid = self.counts();
            self.store[id] = c - 1;
            proof {
                let stepped = mid.update(id as int, (mid[id as int] - 1) as u64);
                assert(self.counts() == stepped);
                assert(dl.skip(i as int).skip(1) =~= dl.skip(i as int + 1));
                assert(dl.skip(i as int)[0] == dl[i as int]);
                assert(release_all(mid, dl.skip(i as int)) == release_all(
                    stepped,
                    dl.skip(i as int + 1),
                ));
                assert forall|x: usize|
                    occ(dl.skip(i as int + 1), x) + deposit_total(rest, x) <= #[trigger] count_or_zero(
                        self.counts(),
                        x,
                    ) by {
                    lemma_occ_skip_step(dl, i as int, x);
                    assert(occ(dl.skip(i as int), x) + deposit_total(rest, x) <= count_or_zero(
                        mid,
                        x,
                    ));
                    if x == id {
                        assert(count_or_zero(stepped, x) == count_or_zero(mid, x) - 1);
                    } else {
                        assert(count_or_zero(stepped, x) == count_or_zero(mid, x));
                    }
                }
            }
            i = i + 1;
        }
        proof {
            assert(dl.skip(dl.len() as int) =~= Seq::<usize>::empty());
            assert(final(self).counts() == release_all(pre_counts, dl));
            assert forall|x: usize| occ(dl, x) <= #[trigger] count_or_zero(pre_counts, x) by {
                assert(deposit_total(old(self).scopes(), x) == deposit_total(rest, x) + occ(
                    dl,
                    x,
                ));
                assert(deposit_total(old(self).scopes(), x) <= count_or_zero(pre_counts, x));
            }
            assert forall|x: usize|
                #[trigger] deposit_total(final(self).scopes(), x) <= count_or_zero(
                    final(self).counts(),
                    x,
                ) by {
                assert(occ(dl.skip(dl.len() as int), x) == 0);
            }
            assert forall|id: usize|
                id < pre_counts.len() implies final(self).counts()[id as int] == pre_counts[id as int]
                - occ(dl, id) by {
                lemma_release_all(pre_counts, dl, id);
            }
            assert(final(self).counts().len() == pre_counts.len()) by {
                lemma_release_all(pre_counts, dl, 0);
            }
        }
    }
}

/// Pushing a list onto the scope stack adds exactly that list's deposits.
proof fn lemma_deposit_push(scopes: Seq<Seq<usize>>, l: Seq<usize>, id: usize)
    ensures
        deposit_total(scopes.push(l), id) == deposit_total(scopes, id) + occ(l, id),
{
    assert(scopes.push(l).drop_last() =~= scopes);
    assert(scopes.push(l).last() == l);
}

/// Replacing the innermost list replaces exactly its deposits.
proof fn lemma_deposit_update_last(scopes: Seq<Seq<usize>>, l: Seq<usize>, id: usize)
    requires
        scopes.len() > 0,
    ensures
        deposit_total(scopes.update(scopes.len() - 1, l), id) == deposit_total(
            scopes.drop_last(),
            id,
        ) + occ(l, id),
{
    let s2 = scopes.update(scopes.len() - 1, l);
    assert(s2.drop_last() =~= scopes.drop_last());
    assert(s2.last() == l);
}

/// Appending one deposit raises its object's pending total by one.
proof fn lemma_occ_push(s: Seq<usize>, x: usize, id: usize)
    ensures
        occ(s.push(x), id) == occ(s, id) + (if x == id {
            1nat
        } else {
            0nat
        }),
    decreases s.len(),
{
    if s.len() == 0 {
        assert(s.push(x).skip(1) =~= Seq::<usize>::empty());
        assert(s.push(x)[0] == x);
        assert(occ(s.push(x), id) == (if x == id {
            1nat
        } else {
            0nat
        }) + occ(Seq::<usize>::empty(), id));
    } else {
        assert(s.push(x).skip(1) =~= s.skip(1).push(x));
        assert(s.push(x)[0] == s[0]);
        lemma_occ_push(s.skip(1), x, id);
        assert(occ(s.push(x), id) == (if s[0] == id {
            1nat
        } else {
            0nat
        }) + occ(s.skip(1).push(x), id));
        assert(occ(s, id) == (if s[0] == id {
            1nat
        } else {
            0nat
        }) + occ(s.skip(1), id));
    }
}

/// One step of walking a deposit list from the front.
proof fn lemma_occ_skip_step(s: Seq<usize>, i: int, id: usize)
    requires
        0 <= i < s.len(),
    ensures
        occ(s.skip(i), id) == (if s[i] == id {
            1nat
        } else {
            0nat
        }) + occ(s.skip(i + 1), id),
{
    assert(s.skip(i).skip(1) =~= s.skip(i + 1));
    assert(s.skip(i)[0] == s[i]);
}

/// Scope deferral law: deposits change no count when made, and closing the
/// scope performs exactly one release per deposit, so after `release_all` every
/// object's count has dropped by precisely the number of times it was
/// deposited — no more, no fewer, and none of it before the close.
pub proof fn lemma_release_all(c: Seq<u64>, l: Seq<usize>, id: usize)
    requires
        forall|x: usize| occ(l, x) <= #[trigger] count_or_zero(c, x),
    ensures
        release_all(c, l).len() == c.len(),
        id < c.len() ==> release_all(c, l)[id as int] == c[id as int] - occ(l, id),
    decreases l.len(),
{
    if l.len() == 0 {
    } else {
        let hd = l[0];
        assert(occ(l, hd) >= 1) by {
            assert(l.skip(0) =~= l);
            lemma_occ_skip_step(l, 0, hd);
        }
        assert(occ(l, hd) <= count_or_zero(c, hd));
        assert(hd < c.len());
        let c2 = c.update(hd as int, (c[hd as int] - 1) as u64);
        assert forall|x: usize| occ(l.skip(1), x) <= #[trigger] count_or_zero(c2, x) by {
            assert(l.skip(0) =~= l);
            lemma_occ_skip_step(l, 0, x);
            assert(occ(l, x) <= count_or_zero(c, x));
            if x == hd {
                assert(count_or_zero(c2, x) == count_or_zero(c, x) - 1);
            } else {
                assert(count_or_zero(c2, x) == count_or_zero(c, x));
            }
        }
        lemma_release_all(c2, l.skip(1), id);
        assert(l.skip(0) =~= l);
        lemma_occ_skip_step(l, 0, id);
    }
}

} // verus!
