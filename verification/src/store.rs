//! The store: the façade over the state cell, the middleware chain and the
//! subscription registry.

use crate::cell::InternalStore;
use crate::errors::DispatchError;
use crate::middleware::{chain_trace, HookEvent, Middleware};
use crate::reducer::{lemma_reachable_refl, lemma_reachable_step, lemma_reachable_trans, reachable, Reducer};
use crate::registry::{
    active_ids, active_sel, deactivate, drop_listed, has_id, ids_below, inactive_idx,
    inactive_idx_from, is_active_in, is_inactive_in, never_revived, only_fresh_ids, sorted_ids,
};
use vstd::prelude::*;

verus! {

/// A handle for one registration of an observer with a store. Identity is the
/// id the store minted at registration: two subscriptions with identical
/// callbacks are distinct. The handle can be copied freely; any holder may
/// cancel it.
#[derive(Clone, Copy)]
pub struct Subscription {
    id: u64,
}

impl View for Subscription {
    type V = u64;

    closed spec fn view(&self) -> u64 {
        self.id
    }
}

/// The subscriber capability: an observer invoked once per successful
/// dispatch while its subscription is active.
///
/// A callback receives the store itself, so it may read state, dispatch
/// further actions, subscribe new observers, or cancel subscriptions - its
/// contract only pins down what no sequence of store operations can do:
/// break well-formedness, reorder the middleware chain, revive a cancelled
/// subscription, forge an old id, leave a reduction in progress, or move the
/// state anywhere the reducer cannot take it (the state it leaves behind is
/// reachable, by successful reductions, from the one it found).
pub trait Subscriber<R: Reducer, M>: Sized {
    /// Produce a value equal to this subscriber: a dispatch invokes the
    /// snapshot's copies, so a callback stays callable even while the
    /// registry is being changed under it.
    fn dup(&self) -> (r: Self)
        ensures
            r == *self,
    ;

    /// Observe one successful dispatch. `own` is the handle of this
    /// subscriber's own registration, so a callback can cancel itself.
    fn notify(&self, store: &mut Store<R, M, Self>, own: &Subscription)
        requires
            old(store).wf(),
            !old(store).in_reduction(),
        ensures
            final(store).wf(),
            !final(store).in_reduction(),
            final(store).mws() == old(store).mws(),
            final(store).next_id() >= old(store).next_id(),
            never_revived(old(store).regs(), final(store).regs()),
            only_fresh_ids(old(store).regs(), old(store).next_id(), final(store).regs()),
            reachable(old(store).state(), final(store).state()),
    ;
}

/// A subscriber that does nothing. It pins down the subscriber type of a
/// store nobody observes, and witnesses that the notification contract is
/// satisfiable.
pub struct NoSubscriber;

impl<R: Reducer, M> Subscriber<R, M> for NoSubscriber {
    fn dup(&self) -> (r: Self) {
        NoSubscriber
    }

    fn notify(&self, store: &mut Store<R, M, Self>, own: &Subscription) {
        proof {
            crate::registry::lemma_registry_refl(store.regs());
            lemma_reachable_refl(store.state());
        }
    }
}

impl Subscription {
    /// Cancel this subscription: flip its entry in the registry to inactive.
    /// A cancelled subscription is never invoked by a dispatch whose snapshot
    /// is taken afterwards; it is physically removed from the registry only
    /// opportunistically, by a later dispatch. Cancellation cannot be undone,
    /// and cancelling twice (or cancelling an already removed entry) changes
    /// nothing.
    pub fn cancel<R: Reducer, M, L>(&self, store: &mut Store<R, M, L>)
        ensures
            final(store).regs() == deactivate(old(store).regs(), self@),
            final(store).cbs() == old(store).cbs(),
            final(store).state() == old(store).state(),
            final(store).in_reduction() == old(store).in_reduction(),
            final(store).mws() == old(store).mws(),
            final(store).next_id() == old(store).next_id(),
            old(store).wf() ==> final(store).wf(),
            has_id(old(store).regs(), self@) ==> is_inactive_in(final(store).regs(), self@),
            old(store).wf() ==> never_revived(old(store).regs(), final(store).regs()),
            only_fresh_ids(old(store).regs(), old(store).next_id(), final(store).regs()),
    {
        let ghost regs0 = store.subs@;
        let ghost rest0 = *store;
        let n = store.subs.len();
        let mut i: usize = 0;
        while i < n
            invariant
                n == store.subs@.len(),
                i <= n,
                store.subs@.len() == regs0.len(),
                forall|j: int| i <= j < regs0.len() ==> store.subs@[j] == regs0[j],
                forall|j: int|
                    0 <= j < i ==> store.subs@[j] == deactivate(regs0, self@)[j],
                store.callbacks == rest0.callbacks,
                store.cell == rest0.cell,
                store.middlewares == rest0.middlewares,
                store.next_id == rest0.next_id,
            decreases n - i,
        {
            let e = store.subs[i];
            if e.0 == self.id {
                store.subs[i] = (e.0, false);
            }
            i += 1;
        }
        proof {
            assert(store.subs@ =~= deactivate(regs0, self@));
            if sorted_ids(regs0) {
                crate::registry::lemma_deactivate(regs0, self@);
            }
            assert forall|x: u64| #[trigger] has_id(store.subs@, x) implies has_id(regs0, x) by {
                let j = choose|j: int|
                    0 <= j < store.subs@.len() && #[trigger] store.subs@[j].0 == x;
                assert(regs0[j].0 == x);
            }
            if has_id(regs0, self@) {
                let k = choose|k: int| 0 <= k < regs0.len() && #[trigger] regs0[k].0 == self@;
                assert(store.subs@[k] == (self@, false));
            }
        }
    }

    /// Whether this subscription is still registered and not cancelled.
    pub fn is_active<R: Reducer, M, L>(&self, store: &Store<R, M, L>) -> (r: bool)
        ensures
            r == is_active_in(store.regs(), self@),
    {
        let n = store.subs.len();
        let mut i: usize = 0;
        let mut found = false;
        while i < n
            invariant
                n == store.subs@.len(),
                i <= n,
                found == exists|j: int|
                    0 <= j < i && #[trigger] store.subs@[j] == (self@, true),
            decreases n - i,
        {
            let e = store.subs[i];
            if e.0 == self.id && e.1 {
                found = true;
                proof {
                    assert(store.subs@[i as int] == (self@, true));
                }
            }
            i += 1;
        }
        found
    }
}

/// The main access point: owns the state cell, the middleware chain and the
/// subscription registry for its whole lifetime. State starts at the
/// reducer's initial value and changes only through [`Store::dispatch`].
pub struct Store<R: Reducer, M, L> {
    cell: InternalStore<R>,
    middlewares: Vec<M>,
    subs: Vec<(u64, bool)>,
    callbacks: Vec<L>,
    next_id: u64,
}

impl<R: Reducer, M, L> Store<R, M, L> {
    /// The current state of record.
    pub closed spec fn state(self) -> R {
        self.cell.data()
    }

    /// Whether a reduction is in progress.
    pub closed spec fn in_reduction(self) -> bool {
        self.cell.flag()
    }

    /// The middleware chain, in construction order.
    pub closed spec fn mws(self) -> Seq<M> {
        self.middlewares@
    }

    /// The registry as `(id, active)` pairs in registration order.
    pub closed spec fn regs(self) -> Seq<(u64, bool)> {
        self.subs@
    }

    /// The registered callbacks, parallel to `regs`.
    pub closed spec fn cbs(self) -> Seq<L> {
        self.callbacks@
    }

    /// The id the next subscription will get.
    pub closed spec fn next_id(self) -> u64 {
        self.next_id
    }

    /// Registry well-formedness: one callback per entry, ids strictly
    /// increasing (so never reused), all below the next-id counter.
    pub open spec fn wf(self) -> bool {
        &&& self.regs().len() == self.cbs().len()
        &&& sorted_ids(self.regs())
        &&& ids_below(self.regs(), self.next_id())
    }

    /// Initialize a new store: state at the reducer's initial value, the
    /// given middleware chain (fixed for the store's lifetime), an empty
    /// registry.
    pub fn new(middlewares: Vec<M>) -> (s: Store<R, M, L>)
        ensures
            s.wf(),
            s.state() == R::spec_initial(),
            !s.in_reduction(),
            s.mws() == middlewares@,
            s.regs() == Seq::<(u64, bool)>::empty(),
            s.cbs() == Seq::<L>::empty(),
            s.next_id() == 0,
    {
        Store {
            cell: InternalStore::new(R::initial()),
            middlewares,
            subs: Vec::new(),
            callbacks: Vec::new(),
            next_id: 0,
        }
    }

    /// How many entries the registry physically holds, cancelled ones that
    /// are still awaiting compaction included.
    pub fn subscription_count(&self) -> (r: usize)
        ensures
            r == self.regs().len(),
    {
        self.subs.len()
    }

    /// The id the next registration will get. Callers that cannot reason
    /// about the store can test it against `u64::MAX` before subscribing:
    /// at that ceiling no fresh id is left to mint.
    pub fn next_subscription_id(&self) -> (r: u64)
        ensures
            r == self.next_id(),
    {
        self.next_id
    }

    /// A clone of the current state. Never observes a partially-constructed
    /// value: reductions replace the state in one step.
    pub fn get_state(&self) -> (r: R)
        ensures
            r == self.state(),
    {
        self.cell.get()
    }

    /// Create a new subscription to this store, to be invoked once per
    /// successful dispatch while active. Registration appends to the registry
    /// under a freshly minted id; nothing else changes, and in particular a
    /// dispatch whose snapshot is already taken will not see the new entry.
    /// The returned handle is the caller's way to cancel.
    pub fn subscribe(&mut self, callback: L) -> (s: Subscription)
        requires
            old(self).wf(),
            old(self).next_id() < u64::MAX,
        ensures
            final(self).wf(),
            s@ == old(self).next_id(),
            final(self).regs() == old(self).regs().push((old(self).next_id(), true)),
            final(self).cbs() == old(self).cbs().push(callback),
            final(self).next_id() == old(self).next_id() + 1,
            final(self).state() == old(self).state(),
            final(self).in_reduction() == old(self).in_reduction(),
            final(self).mws() == old(self).mws(),
            never_revived(old(self).regs(), final(self).regs()),
            only_fresh_ids(old(self).regs(), old(self).next_id(), final(self).regs()),
    {
        let id = self.next_id;
        self.subs.push((id, true));
        self.callbacks.push(callback);
        self.next_id = id + 1;
        proof {
            crate::registry::lemma_push_fresh(old(self).regs(), id);
            assert forall|i: int| 0 <= i < self.subs@.len() implies (#[trigger] self.subs@[i]).0
                < self.next_id() by {
                if i < old(self).regs().len() {
                    assert(old(self).regs()[i].0 < id);
                }
            }
        }
        Subscription { id }
    }
}

impl<R: Reducer, M: Middleware<R>, L: Subscriber<R, M>> Store<R, M, L> {
    /// Snapshot the registry: partition the current entries into the active
    /// ones, to be invoked this round (copies of their callbacks with their
    /// handles, in registration order), and the positions of the cancelled
    /// ones, to be removed. The snapshot is decoupled from the registry, so
    /// callbacks run against it may freely subscribe or cancel without
    /// affecting the round in progress.
    pub fn get_subscriptions(&self) -> (r: (Vec<usize>, Vec<(Subscription, L)>))
        requires
            self.wf(),
        ensures
            r.0@.map_values(|u: usize| u as int) == inactive_idx(self.regs()),
            r.1@.map_values(|p: (Subscription, L)| p.0@) == active_ids(self.regs()),
            r.1@.map_values(|p: (Subscription, L)| p.1) == active_sel(self.regs(), self.cbs()),
    {
        let ghost regs0 = self.subs@;
        let ghost cbs0 = self.callbacks@;
        let n = self.subs.len();
        let mut subs_to_remove: Vec<usize> = Vec::new();
        let mut subs_to_use: Vec<(Subscription, L)> = Vec::new();
        let mut i: usize = 0;
        proof {
            assert(regs0.skip(0) =~= regs0);
            assert(cbs0.skip(0) =~= cbs0);
            assert(subs_to_remove@.map_values(|u: usize| u as int) =~= Seq::<int>::empty());
            assert(subs_to_use@.map_values(|p: (Subscription, L)| p.0@) =~= Seq::<u64>::empty());
            assert(subs_to_use@.map_values(|p: (Subscription, L)| p.1) =~= Seq::<L>::empty());
            assert(Seq::<int>::empty() + inactive_idx(regs0) =~= inactive_idx(regs0));
            assert(Seq::<u64>::empty() + active_ids(regs0) =~= active_ids(regs0));
            assert(Seq::<L>::empty() + active_sel(regs0, cbs0) =~= active_sel(regs0, cbs0));
        }
        while i < n
            invariant
                self.wf(),
                regs0 == self.subs@,
                cbs0 == self.callbacks@,
                n == regs0.len(),
                i <= n,
                subs_to_remove@.map_values(|u: usize| u as int) + inactive_idx_from(
                    regs0.skip(i as int),
                    i as int,
                ) == inactive_idx(regs0),
                subs_to_use@.map_values(|p: (Subscription, L)| p.0@) + active_sel(
                    regs0.skip(i as int),
                    regs0.skip(i as int),
                ).map_values(|e: (u64, bool)| e.0) == active_ids(regs0),
                subs_to_use@.map_values(|p: (Subscription, L)| p.1) + active_sel(
                    regs0.skip(i as int),
                    cbs0.skip(i as int),
                ) == active_sel(regs0, cbs0),
            decreases n - i,
        {
            let ghost pre_rem = subs_to_remove@;
            let ghost pre_use = subs_to_use@;
            proof {
                crate::registry::lemma_suffix_step(regs0, cbs0, i as int);
                crate::registry::lemma_suffix_step(regs0, regs0, i as int);
            }
            let e = self.subs[i];
            if e.1 {
                let cb = self.callbacks[i].dup();
                subs_to_use.push((Subscription { id: e.0 }, cb));
                proof {
                    assert(active_sel(regs0.skip(i as int), regs0.skip(i as int)).map_values(
                        |x: (u64, bool)| x.0,
                    ) =~= seq![e.0] + active_sel(regs0.skip(i + 1), regs0.skip(i + 1)).map_values(
                        |x: (u64, bool)| x.0,
                    ));
                    assert(subs_to_use@.map_values(|p: (Subscription, L)| p.0@) + active_sel(
                        regs0.skip(i + 1),
                        regs0.skip(i + 1),
                    ).map_values(|x: (u64, bool)| x.0) =~= pre_use.map_values(
                        |p: (Subscription, L)| p.0@,
                    ) + active_sel(regs0.skip(i as int), regs0.skip(i as int)).map_values(
                        |x: (u64, bool)| x.0,
                    ));
                    assert(subs_to_use@.map_values(|p: (Subscription, L)| p.1) + active_sel(
                        regs0.skip(i + 1),
                        cbs0.skip(i + 1),
                    ) =~= pre_use.map_values(|p: (Subscription, L)| p.1) + active_sel(
                        regs0.skip(i as int),
                        cbs0.skip(i as int),
                    ));
                }
            } else {
                subs_to_remove.push(i);
                proof {
                    assert(subs_to_remove@.map_values(|u: usize| u as int) + inactive_idx_from(
                        regs0.skip(i + 1),
                        i + 1,
                    ) =~= pre_rem.map_values(|u: usize| u as int) + inactive_idx_from(
                        regs0.skip(i as int),
                        i as int,
                    ));
                }
            }
            i += 1;
        }
        proof {
            assert(regs0.skip(n as int) =~= Seq::<(u64, bool)>::empty());
            assert(cbs0.skip(n as int) =~= Seq::<L>::empty());
            assert(subs_to_remove@.map_values(|u: usize| u as int) =~= inactive_idx(regs0));
            assert(subs_to_use@.map_values(|p: (Subscription, L)| p.0@) =~= active_ids(regs0));
            assert(subs_to_use@.map_values(|p: (Subscription, L)| p.1) =~= active_sel(
                regs0,
                cbs0,
            ));
        }
        (subs_to_remove, subs_to_use)
    }

    /// Compact the registry: physically remove the entries at the given
    /// positions (ascending, in range - what a snapshot reported as
    /// cancelled), keeping everything else in order. Correctness of the store
    /// never depends on prompt compaction - a cancelled entry is already
    /// unreachable by any later snapshot - so this is pure bookkeeping; with
    /// the registry exclusively borrowed there is no contention to make it
    /// fail.
    pub fn try_to_remove_subscriptions(&mut self, subs_to_remove: Vec<usize>)
        requires
            old(self).wf(),
            forall|k: int, l: int|
                0 <= k < l < subs_to_remove@.len() ==> subs_to_remove@[k] < subs_to_remove@[l],
            forall|k: int|
                0 <= k < subs_to_remove@.len() ==> subs_to_remove@[k] < old(self).regs().len(),
        ensures
            final(self).wf(),
            final(self).regs() == drop_listed(
                old(self).regs(),
                subs_to_remove@.map_values(|u: usize| u as int),
                0,
            ),
            final(self).cbs() == drop_listed(
                old(self).cbs(),
                subs_to_remove@.map_values(|u: usize| u as int),
                0,
            ),
            final(self).state() == old(self).state(),
            final(self).in_reduction() == old(self).in_reduction(),
            final(self).mws() == old(self).mws(),
            final(self).next_id() == old(self).next_id(),
    {
        let ghost regs0 = self.subs@;
        let ghost cbs0 = self.callbacks@;
        let ghost idxs0 = subs_to_remove@.map_values(|u: usize| u as int);
        let ghost rest0 = *self;
        let mut tmp_cbs: Vec<L> = Vec::new();
        core::mem::swap(&mut self.callbacks, &mut tmp_cbs);
        let mut new_subs: Vec<(u64, bool)> = Vec::new();
        let mut new_cbs: Vec<L> = Vec::new();
        let n = self.subs.len();
        let mut j: usize = 0;
        let mut c: usize = 0;
        proof {
            assert(regs0.skip(0) =~= regs0);
            assert(cbs0.skip(0) =~= cbs0);
            assert(idxs0.skip(0) =~= idxs0);
            assert(new_subs@ + drop_listed(regs0, idxs0, 0) =~= drop_listed(regs0, idxs0, 0));
            assert(new_cbs@ + drop_listed(cbs0, idxs0, 0) =~= drop_listed(cbs0, idxs0, 0));
        }
        while j < n
            invariant
                self.subs@ == regs0,
                self.cell == rest0.cell,
                self.middlewares == rest0.middlewares,
                self.next_id == rest0.next_id,
                n == regs0.len(),
                regs0.len() == cbs0.len(),
                idxs0 == subs_to_remove@.map_values(|u: usize| u as int),
                forall|k: int, l: int| 0 <= k < l < idxs0.len() ==> idxs0[k] < idxs0[l],
                forall|k: int| 0 <= k < idxs0.len() ==> idxs0[k] < n,
                j <= n,
                c <= idxs0.len(),
                tmp_cbs@ == cbs0.skip(j as int),
                forall|k: int| c <= k < idxs0.len() ==> idxs0[k] >= j,
                new_subs@ + drop_listed(regs0.skip(j as int), idxs0.skip(c as int), j as int)
                    == drop_listed(regs0, idxs0, 0),
                new_cbs@ + drop_listed(cbs0.skip(j as int), idxs0.skip(c as int), j as int)
                    == drop_listed(cbs0, idxs0, 0),
            decreases n - j,
        {
            let ghost pre_subs = new_subs@;
            let ghost pre_cbs = new_cbs@;
            let cb = tmp_cbs.remove(0);
            let e = self.subs[j];
            proof {
                assert(regs0.skip(j as int).first() == regs0[j as int]);
                assert(cbs0.skip(j as int).first() == cbs0[j as int]);
                assert(regs0.skip(j as int).drop_first() =~= regs0.skip(j + 1));
                assert(cbs0.skip(j as int).drop_first() =~= cbs0.skip(j + 1));
                assert(tmp_cbs@ =~= cbs0.skip(j + 1));
            }
            let listed = c < subs_to_remove.len() && subs_to_remove[c] == j;
            proof {
                if c < idxs0.len() {
                    assert(idxs0.skip(c as int).first() == idxs0[c as int]);
                    assert(idxs0[c as int] == subs_to_remove@[c as int] as int);
                }
                assert(listed == (idxs0.skip(c as int).len() > 0 && idxs0.skip(c as int).first()
                    == j));
            }
            if listed {
                c += 1;
                proof {
                    assert(idxs0.skip(c - 1).drop_first() =~= idxs0.skip(c as int));
                }
            } else {
                new_subs.push(e);
                new_cbs.push(cb);
                proof {
                    assert(new_subs@ + drop_listed(regs0.skip(j + 1), idxs0.skip(c as int), j + 1)
                        =~= pre_subs + drop_listed(
                        regs0.skip(j as int),
                        idxs0.skip(c as int),
                        j as int,
                    ));
                    assert(new_cbs@ + drop_listed(cbs0.skip(j + 1), idxs0.skip(c as int), j + 1)
                        =~= pre_cbs + drop_listed(
                        cbs0.skip(j as int),
                        idxs0.skip(c as int),
                        j as int,
                    ));
                }
            }
            j += 1;
        }
        proof {
            assert(regs0.skip(n as int) =~= Seq::<(u64, bool)>::empty());
            assert(cbs0.skip(n as int) =~= Seq::<L>::empty());
            assert(new_subs@ =~= drop_listed(regs0, idxs0, 0));
            assert(new_cbs@ =~= drop_listed(cbs0, idxs0, 0));
            crate::registry::lemma_drop_listed_sorted(regs0, idxs0, 0);
            crate::registry::lemma_drop_listed_parallel(regs0, cbs0, idxs0, 0);
        }
        self.subs = new_subs;
        self.callbacks = new_cbs;
    }

    /// Run the middleware chain around one guarded reduction attempt, and
    /// report the exact call sequence as a ghost trace: `before` hooks in
    /// construction order, the reduction attempt, `after` hooks in reverse
    /// order - strict nesting, last-registered innermost. Hooks run with the
    /// guard held, so a dispatch attempted from inside one fails with
    /// `AlreadyReducing`; they also run, and observe the outcome, when the
    /// reduction step itself fails, which is what lets instrumentation see
    /// failed dispatches. The registry is untouched.
    pub fn run_chain(&mut self, action: &R::Action) -> (r: (
        Result<R, DispatchError<R::Error>>,
        Ghost<Seq<HookEvent>>,
    ))
        ensures
            r.1@ == chain_trace(old(self).mws().len() as int),
            final(self).regs() == old(self).regs(),
            final(self).cbs() == old(self).cbs(),
            final(self).next_id() == old(self).next_id(),
            final(self).mws() == old(self).mws(),
            old(self).in_reduction() ==> {
                &&& r.0 == Result::<R, DispatchError<R::Error>>::Err(DispatchError::AlreadyReducing)
                &&& final(self).state() == old(self).state()
                &&& final(self).in_reduction()
            },
            !old(self).in_reduction() ==> {
                &&& !final(self).in_reduction()
                &&& match old(self).state().spec_reduce(*action) {
                    Result::Ok(s) => final(self).state() == s && r.0 == Result::<
                        R,
                        DispatchError<R::Error>,
                    >::Ok(s),
                    Result::Err(e) => final(self).state() == old(self).state() && r.0 == Result::<
                        R,
                        DispatchError<R::Error>,
                    >::Err(DispatchError::ReducerFailed(e)),
                }
            },
    {
        let ghost rest0 = *self;
        let ghost mut t: Seq<HookEvent> = Seq::empty();
        let n = self.middlewares.len();
        let busy = self.cell.is_reducing();
        if !busy {
            self.cell.begin();
        }
        let ghost d0 = self.cell.data();
        let mut i: usize = 0;
        while i < n
            invariant
                i <= n,
                n == self.middlewares@.len(),
                self.middlewares == rest0.middlewares,
                self.subs == rest0.subs,
                self.callbacks == rest0.callbacks,
                self.next_id == rest0.next_id,
                self.cell.flag(),
                self.cell.data() == d0,
                t == Seq::new(i as nat, |k: int| HookEvent::Before(k as usize)),
            decreases n - i,
        {
            let mw = &self.middlewares[i];
            mw.before(&mut self.cell, action);
            proof {
                t = t.push(HookEvent::Before(i));
                assert(t =~= Seq::new((i + 1) as nat, |k: int| HookEvent::Before(k as usize)));
            }
            i += 1;
        }
        let outcome: Result<R, DispatchError<R::Error>> = if busy {
            Result::Err(DispatchError::AlreadyReducing)
        } else {
            self.cell.reduce_guarded(action)
        };
        proof {
            t = t.push(HookEvent::Reduce);
        }
        let ghost d1 = self.cell.data();
        let ghost mid_t = t;
        let mut j: usize = n;
        while j > 0
            invariant
                j <= n,
                n == self.middlewares@.len(),
                self.middlewares == rest0.middlewares,
                self.subs == rest0.subs,
                self.callbacks == rest0.callbacks,
                self.next_id == rest0.next_id,
                self.cell.flag(),
                self.cell.data() == d1,
                t == mid_t + Seq::new(
                    (n - j) as nat,
                    |k: int| HookEvent::After((n - 1 - k) as usize),
                ),
            decreases j,
        {
            j -= 1;
            let mw = &self.middlewares[j];
            mw.after(&mut self.cell, action, &outcome);
            proof {
                t = t.push(HookEvent::After(j));
                assert(t =~= mid_t + Seq::new(
                    (n - j) as nat,
                    |k: int| HookEvent::After((n - 1 - k) as usize),
                ));
            }
        }
        if !busy {
            self.cell.release();
        }
        proof {
            assert(t =~= chain_trace(n as int));
        }
        (outcome, Ghost(t))
    }

    /// Invoke the callbacks a snapshot selected, in the snapshot's order -
    /// registration order - each with the store and its own handle, and
    /// report as a ghost trace exactly which subscriptions were invoked. The
    /// registry holds no lock across these calls, so a callback may freely
    /// subscribe, cancel or dispatch: it affects only future snapshots, never
    /// this round. Whatever the callbacks do, the state they leave behind is
    /// reachable from the one this round starts with - every change they make
    /// goes through the reducer.
    pub fn notify_subscriptions(&mut self, snapshot: &Vec<(Subscription, L)>) -> (t: Ghost<
        Seq<u64>,
    >)
        requires
            old(self).wf(),
            !old(self).in_reduction(),
        ensures
            t@ == snapshot@.map_values(|p: (Subscription, L)| p.0@),
            final(self).wf(),
            !final(self).in_reduction(),
            final(self).mws() == old(self).mws(),
            final(self).next_id() >= old(self).next_id(),
            never_revived(old(self).regs(), final(self).regs()),
            only_fresh_ids(old(self).regs(), old(self).next_id(), final(self).regs()),
            reachable(old(self).state(), final(self).state()),
            snapshot@.len() == 0 ==> *final(self) == *old(self),
    {
        let ghost mid = *old(self);
        let ghost mut t: Seq<u64> = Seq::empty();
        proof {
            lemma_reachable_refl(self.state());
        }
        let mut k: usize = 0;
        #[verifier::loop_isolation(false)]
        while k < snapshot.len()
            invariant
                k <= snapshot@.len(),
                t == snapshot@.take(k as int).map_values(|p: (Subscription, L)| p.0@),
                self.wf(),
                !self.in_reduction(),
                self.mws() == mid.mws(),
                self.next_id() >= mid.next_id(),
                never_revived(mid.regs(), self.regs()),
                only_fresh_ids(mid.regs(), mid.next_id(), self.regs()),
                reachable(mid.state(), self.state()),
                snapshot@.len() == 0 ==> *self == mid,
            decreases snapshot@.len() - k,
        {
            let ghost prev = *self;
            let p = &snapshot[k];
            let own = p.0;
            p.1.notify(self, &own);
            proof {
                t = t.push(own@);
                assert(snapshot@.take(k + 1) =~= snapshot@.take(k as int).push(snapshot@[k as int]));
                assert(t =~= snapshot@.take(k + 1).map_values(|p: (Subscription, L)| p.0@));
                crate::registry::lemma_never_revived_trans(
                    mid.regs(),
                    prev.regs(),
                    self.regs(),
                    mid.next_id(),
                    prev.next_id(),
                );
                crate::registry::lemma_only_fresh_trans(
                    mid.regs(),
                    mid.next_id(),
                    prev.regs(),
                    prev.next_id(),
                    self.regs(),
                );
                lemma_reachable_trans(mid.state(), prev.state(), self.state());
            }
            k += 1;
        }
        proof {
            assert(snapshot@.take(snapshot@.len() as int) =~= snapshot@);
        }
        Ghost(t)
    }

    /// Dispatch one action: run the middleware chain around the guarded
    /// reduction, then - only on success - snapshot the registry, compact the
    /// cancelled entries away, and invoke the snapshot's callbacks in
    /// registration order, each free to use the store again. Returns the
    /// original action on success (an echo, for chained callers).
    ///
    /// If a reduction is already in progress, everything is left exactly as
    /// it was and the caller gets `AlreadyReducing`; if the reducer rejects
    /// the action, the state and registry are unchanged and the caller gets
    /// `ReducerFailed` - a failed dispatch runs zero subscriber callbacks.
    /// On success with no active subscriber, the new state is exactly the
    /// reducer's result and the registry is exactly the compacted one; with
    /// subscribers, the callbacks may have dispatched further, but the state
    /// passed through the reducer's result and moved on only by further
    /// successful reductions, well-formedness holds, the middleware chain is
    /// untouched, no cancelled subscription has come back, and every new
    /// registration got a fresh id.
    pub fn dispatch(&mut self, action: R::Action) -> (r: Result<
        R::Action,
        DispatchError<R::Error>,
    >)
        requires
            old(self).wf(),
        ensures
            final(self).wf(),
            final(self).mws() == old(self).mws(),
            final(self).next_id() >= old(self).next_id(),
            never_revived(old(self).regs(), final(self).regs()),
            only_fresh_ids(old(self).regs(), old(self).next_id(), final(self).regs()),
            reachable(old(self).state(), final(self).state()),
            old(self).in_reduction() ==> {
                &&& r == Result::<R::Action, DispatchError<R::Error>>::Err(
                    DispatchError::AlreadyReducing,
                )
                &&& final(self).state() == old(self).state()
                &&& final(self).in_reduction()
                &&& final(self).regs() == old(self).regs()
                &&& final(self).cbs() == old(self).cbs()
                &&& final(self).next_id() == old(self).next_id()
            },
            !old(self).in_reduction() ==> {
                &&& !final(self).in_reduction()
                &&& match old(self).state().spec_reduce(action) {
                    Result::Ok(s) => {
                        &&& r matches Result::Ok(a) && a == action
                        &&& reachable(s, final(self).state())
                        &&& active_ids(old(self).regs()).len() == 0 ==> {
                            &&& final(self).state() == s
                            &&& final(self).regs() == active_sel(old(self).regs(), old(self).regs())
                            &&& final(self).cbs() == active_sel(old(self).regs(), old(self).cbs())
                            &&& final(self).next_id() == old(self).next_id()
                        }
                    },
                    Result::Err(e) => {
                        &&& r == Result::<R::Action, DispatchError<R::Error>>::Err(
                            DispatchError::ReducerFailed(e),
                        )
                        &&& final(self).state() == old(self).state()
                        &&& final(self).regs() == old(self).regs()
                        &&& final(self).cbs() == old(self).cbs()
                        &&& final(self).next_id() == old(self).next_id()
                    },
                }
            },
    {
        let (outcome, _trace) = self.run_chain(&action);
        match outcome {
            Result::Err(e) => {
                proof {
                    crate::registry::lemma_registry_refl(old(self).regs());
                    lemma_reachable_refl(self.state());
                }
                return Result::Err(e);
            },
            Result::Ok(_new_state) => {},
        }
        let ghost reduced = self.state();
        // Snapshot the active subscriptions before calling them: this both
        // decouples the round from the live registry and frees it up, so a
        // callback can itself subscribe or dispatch; the same pass collects
        // the positions that are safe to remove.
        let (subs_to_remove, subs_to_use) = self.get_subscriptions();
        let ghost regs_pre = self.regs();
        let ghost cbs_pre = self.cbs();
        proof {
            crate::registry::lemma_inactive_idx_bounds(regs_pre, 0);
            assert forall|k: int, l: int|
                0 <= k < l < subs_to_remove@.len() implies subs_to_remove@[k]
                < subs_to_remove@[l] by {
                assert(subs_to_remove@.map_values(|u: usize| u as int)[k] == subs_to_remove@[k]
                    as int);
                assert(subs_to_remove@.map_values(|u: usize| u as int)[l] == subs_to_remove@[l]
                    as int);
            }
            assert forall|k: int| 0 <= k < subs_to_remove@.len() implies subs_to_remove@[k]
                < regs_pre.len() by {
                assert(subs_to_remove@.map_values(|u: usize| u as int)[k] == subs_to_remove@[k]
                    as int);
            }
        }
        // Best-effort compaction of the entries the snapshot saw as
        // cancelled, before any callback runs.
        self.try_to_remove_subscriptions(subs_to_remove);
        proof {
            crate::registry::lemma_drop_inactive(regs_pre, regs_pre, 0);
            crate::registry::lemma_drop_inactive(regs_pre, cbs_pre, 0);
            crate::registry::lemma_compact(regs_pre);
        }
        let ghost mid = *self;
        let _ = self.notify_subscriptions(&subs_to_use);
        proof {
            crate::registry::lemma_never_revived_trans(
                old(self).regs(),
                mid.regs(),
                self.regs(),
                old(self).next_id(),
                mid.next_id(),
            );
            crate::registry::lemma_only_fresh_trans(
                old(self).regs(),
                old(self).next_id(),
                mid.regs(),
                mid.next_id(),
                self.regs(),
            );
            if active_ids(old(self).regs()).len() == 0 {
                assert(subs_to_use@.map_values(|p: (Subscription, L)| p.0@).len() == 0);
                assert(subs_to_use@.len() == 0);
            }
            lemma_reachable_step(old(self).state(), action, reduced);
            lemma_reachable_trans(old(self).state(), reduced, self.state());
        }
        Result::Ok(action)
    }
}

} // verus!
