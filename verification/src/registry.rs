//! The mathematical model of the subscription registry.
//!
//! A registry is a sequence of `(id, active)` pairs in registration order,
//! beside a parallel sequence of callbacks. Everything the store promises
//! about snapshots, cancellation and compaction is stated over these
//! functions, and the laws at the bottom relate them: a snapshot never
//! selects a cancelled or a later-registered subscription, and no operation
//! ever revives a cancelled one.

use vstd::prelude::*;

verus! {

/// Some entry carries `id`, active or not.
pub open spec fn has_id(regs: Seq<(u64, bool)>, id: u64) -> bool {
    exists|i: int| 0 <= i < regs.len() && #[trigger] regs[i].0 == id
}

/// Some entry carries `id` and is active.
pub open spec fn is_active_in(regs: Seq<(u64, bool)>, id: u64) -> bool {
    exists|i: int| 0 <= i < regs.len() && #[trigger] regs[i] == (id, true)
}

/// Some entry carries `id` and is cancelled.
pub open spec fn is_inactive_in(regs: Seq<(u64, bool)>, id: u64) -> bool {
    exists|i: int| 0 <= i < regs.len() && #[trigger] regs[i] == (id, false)
}

/// Ids appear in strictly increasing order: registration order, no reuse.
pub open spec fn sorted_ids(regs: Seq<(u64, bool)>) -> bool {
    forall|i: int, j: int| 0 <= i < j < regs.len() ==> (#[trigger] regs[i]).0 < (#[trigger] regs[j]).0
}

/// Every id is below `bound` (the next id the store will hand out).
pub open spec fn ids_below(regs: Seq<(u64, bool)>, bound: u64) -> bool {
    forall|i: int| 0 <= i < regs.len() ==> (#[trigger] regs[i]).0 < bound
}

/// The values of `vals` standing beside an active entry of `regs`, in order.
/// With `vals = regs` this is the active sub-registry itself; with the
/// callback sequence it is what a snapshot selects for invocation.
pub open spec fn active_sel<T>(regs: Seq<(u64, bool)>, vals: Seq<T>) -> Seq<T>
    decreases regs.len(),
{
    if regs.len() == 0 || vals.len() == 0 {
        Seq::empty()
    } else {
        let rest = active_sel(regs.drop_first(), vals.drop_first());
        if regs.first().1 {
            seq![vals.first()] + rest
        } else {
            rest
        }
    }
}

/// The ids a snapshot of `regs` selects, in registration order.
pub open spec fn active_ids(regs: Seq<(u64, bool)>) -> Seq<u64> {
    active_sel(regs, regs).map_values(|e: (u64, bool)| e.0)
}

/// The positions of the cancelled entries of `regs`, ascending, counted from
/// `base`: what a snapshot marks for removal.
pub open spec fn inactive_idx_from(regs: Seq<(u64, bool)>, base: int) -> Seq<int>
    decreases regs.len(),
{
    if regs.len() == 0 {
        Seq::empty()
    } else {
        let rest = inactive_idx_from(regs.drop_first(), base + 1);
        if !regs.first().1 {
            seq![base] + rest
        } else {
            rest
        }
    }
}

/// The positions of the cancelled entries of `regs`, ascending.
pub open spec fn inactive_idx(regs: Seq<(u64, bool)>) -> Seq<int> {
    inactive_idx_from(regs, 0)
}

/// `s` with the positions listed in `idxs` removed, positions counted from
/// `base`. `idxs` must be ascending for this to mean anything.
pub open spec fn drop_listed<T>(s: Seq<T>, idxs: Seq<int>, base: int) -> Seq<T>
    decreases s.len(),
{
    if s.len() == 0 {
        Seq::empty()
    } else {
        let listed = idxs.len() > 0 && idxs.first() == base;
        let rest_idxs = if listed {
            idxs.drop_first()
        } else {
            idxs
        };
        let rest = drop_listed(s.drop_first(), rest_idxs, base + 1);
        if listed {
            rest
        } else {
            seq![s.first()] + rest
        }
    }
}

/// `regs` with every entry carrying `id` cancelled and all else unchanged.
pub open spec fn deactivate(regs: Seq<(u64, bool)>, id: u64) -> Seq<(u64, bool)> {
    Seq::new(
        regs.len(),
        |i: int|
            if regs[i].0 == id {
                (regs[i].0, false)
            } else {
                regs[i]
            },
    )
}

/// No subscription cancelled in `pre` is active in `post`: cancellation is
/// irrevocable across whatever happened between the two registries.
pub open spec fn never_revived(pre: Seq<(u64, bool)>, post: Seq<(u64, bool)>) -> bool {
    forall|id: u64| #[trigger] is_inactive_in(pre, id) ==> !is_active_in(post, id)
}

/// Every id of `post` was already in `pre` or was handed out later (it is at
/// least `bound`, the next-id counter of `pre`): ids are never forged.
pub open spec fn only_fresh_ids(pre: Seq<(u64, bool)>, bound: u64, post: Seq<(u64, bool)>) -> bool {
    forall|id: u64| #[trigger] has_id(post, id) ==> has_id(pre, id) || id >= bound
}

/// One step of walking the registry left to right: the selections over the
/// suffix from position `i` decompose into what position `i` contributes and
/// the selections over the suffix from `i + 1`.
pub proof fn lemma_suffix_step<T>(regs: Seq<(u64, bool)>, vals: Seq<T>, i: int)
    requires
        regs.len() == vals.len(),
        0 <= i < regs.len(),
    ensures
        active_sel(regs.skip(i), vals.skip(i)) == (if regs[i].1 {
            seq![vals[i]] + active_sel(regs.skip(i + 1), vals.skip(i + 1))
        } else {
            active_sel(regs.skip(i + 1), vals.skip(i + 1))
        }),
        inactive_idx_from(regs.skip(i), i) == (if !regs[i].1 {
            seq![i] + inactive_idx_from(regs.skip(i + 1), i + 1)
        } else {
            inactive_idx_from(regs.skip(i + 1), i + 1)
        }),
{
    assert(regs.skip(i).len() == regs.len() - i);
    assert(regs.skip(i).first() == regs[i]);
    assert(vals.skip(i).first() == vals[i]);
    assert(regs.skip(i).drop_first() =~= regs.skip(i + 1));
    assert(vals.skip(i).drop_first() =~= vals.skip(i + 1));
}

/// The removal list over the suffix from position `i` names positions in
/// `[i, len)`, in strictly ascending order.
pub proof fn lemma_inactive_idx_bounds(regs: Seq<(u64, bool)>, base: int)
    ensures
        forall|k: int|
            0 <= k < inactive_idx_from(regs, base).len() ==> base <= #[trigger] inactive_idx_from(
                regs,
                base,
            )[k] < base + regs.len(),
        forall|k: int, l: int|
            0 <= k < l < inactive_idx_from(regs, base).len() ==> inactive_idx_from(regs, base)[k]
                < inactive_idx_from(regs, base)[l],
    decreases regs.len(),
{
    let cur = inactive_idx_from(regs, base);
    if regs.len() > 0 {
        lemma_inactive_idx_bounds(regs.drop_first(), base + 1);
        let rest = inactive_idx_from(regs.drop_first(), base + 1);
        if !regs.first().1 {
            assert(cur == seq![base] + rest);
            assert forall|k: int| 0 <= k < cur.len() implies base <= #[trigger] cur[k] < base
                + regs.len() by {
                if k > 0 {
                    assert(cur[k] == rest[k - 1]);
                }
            }
            assert forall|k: int, l: int| 0 <= k < l < cur.len() implies cur[k] < cur[l] by {
                assert(cur[l] == rest[l - 1]);
                if k > 0 {
                    assert(cur[k] == rest[k - 1]);
                }
            }
        } else {
            assert(cur == rest);
            assert forall|k: int| 0 <= k < cur.len() implies base <= #[trigger] cur[k] < base
                + regs.len() by {
                assert(cur[k] == rest[k]);
            }
        }
    }
}

/// Removing listed positions never invents elements: everything left was
/// already there.
pub proof fn lemma_drop_listed_contains<T>(s: Seq<T>, idxs: Seq<int>, base: int)
    ensures
        forall|e: T| #[trigger] drop_listed(s, idxs, base).contains(e) ==> s.contains(e),
    decreases s.len(),
{
    if s.len() > 0 {
        let listed = idxs.len() > 0 && idxs.first() == base;
        let rest_idxs = if listed {
            idxs.drop_first()
        } else {
            idxs
        };
        lemma_drop_listed_contains(s.drop_first(), rest_idxs, base + 1);
        let d = drop_listed(s, idxs, base);
        let dt = drop_listed(s.drop_first(), rest_idxs, base + 1);
        assert forall|e: T| #[trigger] d.contains(e) implies s.contains(e) by {
            let k = choose|k: int| 0 <= k < d.len() && d[k] == e;
            if !listed && k == 0 {
                assert(s[0] == e);
            } else {
                if listed {
                    assert(dt[k] == e);
                } else {
                    assert(dt[k - 1] == e);
                }
                assert(dt.contains(e));
                assert(s.drop_first().contains(e));
                let j = choose|j: int| 0 <= j < s.drop_first().len() && s.drop_first()[j] == e;
                assert(s[j + 1] == e);
            }
        }
    }
}

/// Removing the same positions from two parallel sequences leaves them the
/// same length.
pub proof fn lemma_drop_listed_parallel<T, U>(s: Seq<T>, t: Seq<U>, idxs: Seq<int>, base: int)
    requires
        s.len() == t.len(),
    ensures
        drop_listed(s, idxs, base).len() == drop_listed(t, idxs, base).len(),
    decreases s.len(),
{
    if s.len() > 0 {
        let listed = idxs.len() > 0 && idxs.first() == base;
        let rest_idxs = if listed {
            idxs.drop_first()
        } else {
            idxs
        };
        lemma_drop_listed_parallel(s.drop_first(), t.drop_first(), rest_idxs, base + 1);
    }
}

/// Removing listed positions keeps the remaining entries in their order, so a
/// sorted registry stays sorted and an id bound keeps holding.
pub proof fn lemma_drop_listed_sorted(regs: Seq<(u64, bool)>, idxs: Seq<int>, base: int)
    requires
        sorted_ids(regs),
    ensures
        sorted_ids(drop_listed(regs, idxs, base)),
        forall|bound: u64|
            ids_below(regs, bound) ==> ids_below(#[trigger] drop_listed(regs, idxs, base), bound),
    decreases regs.len(),
{
    let d = drop_listed(regs, idxs, base);
    if regs.len() > 0 {
        let listed = idxs.len() > 0 && idxs.first() == base;
        let rest_idxs = if listed {
            idxs.drop_first()
        } else {
            idxs
        };
        let tail = regs.drop_first();
        assert(sorted_ids(tail)) by {
            assert forall|i: int, j: int| 0 <= i < j < tail.len() implies (#[trigger] tail[i]).0
                < (#[trigger] tail[j]).0 by {
                assert(tail[i] == regs[i + 1]);
                assert(tail[j] == regs[j + 1]);
            }
        }
        lemma_drop_listed_sorted(tail, rest_idxs, base + 1);
        lemma_drop_listed_contains(tail, rest_idxs, base + 1);
        let dt = drop_listed(tail, rest_idxs, base + 1);
        if !listed {
            assert(d == seq![regs.first()] + dt);
            assert forall|i: int, j: int| 0 <= i < j < d.len() implies (#[trigger] d[i]).0
                < (#[trigger] d[j]).0 by {
                assert(d[j] == dt[j - 1]);
                if i == 0 {
                    assert(dt.contains(dt[j - 1]));
                    assert(tail.contains(dt[j - 1]));
                    let k = choose|k: int| 0 <= k < tail.len() && tail[k] == dt[j - 1];
                    assert(regs[k + 1] == dt[j - 1]);
                    assert(regs[0].0 < regs[k + 1].0);
                } else {
                    assert(d[i] == dt[i - 1]);
                }
            }
            assert forall|bound: u64| ids_below(regs, bound) implies ids_below(d, bound) by {
                if ids_below(regs, bound) {
                    assert(ids_below(tail, bound)) by {
                        assert forall|i: int| 0 <= i < tail.len() implies (#[trigger] tail[i]).0
                            < bound by {
                            assert(tail[i] == regs[i + 1]);
                        }
                    }
                    assert forall|i: int| 0 <= i < d.len() implies (#[trigger] d[i]).0 < bound by {
                        if i > 0 {
                            assert(d[i] == dt[i - 1]);
                        }
                    }
                }
            }
        } else {
            assert(d == dt);
            assert forall|bound: u64| ids_below(regs, bound) implies ids_below(d, bound) by {
                if ids_below(regs, bound) {
                    assert(ids_below(tail, bound)) by {
                        assert forall|i: int| 0 <= i < tail.len() implies (#[trigger] tail[i]).0
                            < bound by {
                            assert(tail[i] == regs[i + 1]);
                        }
                    }
                }
            }
        }
    }
}

/// Removing exactly the cancelled positions is the same as selecting the
/// active ones: compaction after a snapshot leaves the active sub-registry.
pub proof fn lemma_drop_inactive<T>(regs: Seq<(u64, bool)>, vals: Seq<T>, base: int)
    requires
        regs.len() == vals.len(),
    ensures
        drop_listed(vals, inactive_idx_from(regs, base), base) == active_sel(regs, vals),
    decreases regs.len(),
{
    let idxs = inactive_idx_from(regs, base);
    if regs.len() > 0 {
        lemma_inactive_idx_bounds(regs.drop_first(), base + 1);
        lemma_drop_inactive(regs.drop_first(), vals.drop_first(), base + 1);
        if !regs.first().1 {
            assert(idxs == seq![base] + inactive_idx_from(regs.drop_first(), base + 1));
            assert(idxs.drop_first() =~= inactive_idx_from(regs.drop_first(), base + 1));
        } else {
            assert(idxs == inactive_idx_from(regs.drop_first(), base + 1));
            if idxs.len() > 0 {
                assert(idxs.first() >= base + 1);
            }
        }
    }
}

/// What compaction (selecting the active entries) does to a sorted registry:
/// it stays sorted under the same id bound, loses every cancelled entry,
/// revives nothing, forges nothing, and what it keeps active was active.
pub proof fn lemma_compact(regs: Seq<(u64, bool)>)
    requires
        sorted_ids(regs),
    ensures
        sorted_ids(active_sel(regs, regs)),
        forall|bound: u64| ids_below(regs, bound) ==> ids_below(active_sel(regs, regs), bound),
        never_revived(regs, active_sel(regs, regs)),
        forall|bound: u64| only_fresh_ids(regs, bound, active_sel(regs, regs)),
        forall|id: u64| #[trigger] is_active_in(active_sel(regs, regs), id) ==> is_active_in(
            regs,
            id,
        ),
{
    let c = active_sel(regs, regs);
    lemma_drop_inactive(regs, regs, 0);
    lemma_drop_listed_sorted(regs, inactive_idx(regs), 0);
    lemma_drop_listed_contains(regs, inactive_idx(regs), 0);
    assert forall|id: u64| #[trigger] is_active_in(c, id) implies is_active_in(regs, id) by {
        let i = choose|i: int| 0 <= i < c.len() && #[trigger] c[i] == (id, true);
        assert(c.contains((id, true)));
        assert(regs.contains((id, true)));
        let j = choose|j: int| 0 <= j < regs.len() && regs[j] == (id, true);
        assert(regs[j] == (id, true));
    }
    assert forall|id: u64| #[trigger] is_inactive_in(regs, id) implies !is_active_in(c, id) by {
        if is_active_in(c, id) {
            let i = choose|i: int| 0 <= i < regs.len() && #[trigger] regs[i] == (id, false);
            let j = choose|j: int| 0 <= j < regs.len() && #[trigger] regs[j] == (id, true);
            assert(regs[i].0 == regs[j].0);
        }
    }
    assert forall|id: u64| #[trigger] has_id(c, id) implies has_id(regs, id) by {
        let i = choose|i: int| 0 <= i < c.len() && #[trigger] c[i].0 == id;
        assert(c.contains(c[i]));
        assert(regs.contains(c[i]));
        let j = choose|j: int| 0 <= j < regs.len() && regs[j] == c[i];
        assert(regs[j].0 == id);
    }
}

/// Irrevocability composes: if nothing cancelled in `a` is active in `b`, and
/// `c` only grew out of `b` by fresh ids, nothing cancelled in `a` is active
/// in `c` either.
pub proof fn lemma_never_revived_trans(
    a: Seq<(u64, bool)>,
    b: Seq<(u64, bool)>,
    c: Seq<(u64, bool)>,
    a_bound: u64,
    b_bound: u64,
)
    requires
        never_revived(a, b),
        never_revived(b, c),
        only_fresh_ids(b, b_bound, c),
        ids_below(a, a_bound),
        a_bound <= b_bound,
    ensures
        never_revived(a, c),
{
    assert forall|id: u64| #[trigger] is_inactive_in(a, id) implies !is_active_in(c, id) by {
        if is_active_in(c, id) {
            let i = choose|i: int| 0 <= i < a.len() && #[trigger] a[i] == (id, false);
            assert(a[i].0 < a_bound);
            let k = choose|k: int| 0 <= k < c.len() && #[trigger] c[k] == (id, true);
            assert(c[k].0 == id);
            assert(has_id(c, id));
            assert(has_id(b, id));
            let j = choose|j: int| 0 <= j < b.len() && #[trigger] b[j].0 == id;
            if b[j].1 {
                assert(b[j] == (id, true));
                assert(is_active_in(b, id));
            } else {
                assert(b[j] == (id, false));
                assert(is_inactive_in(b, id));
            }
        }
    }
}

/// Freshness composes: ids only ever enter above the counter at the time, and
/// the counter never goes down.
pub proof fn lemma_only_fresh_trans(
    a: Seq<(u64, bool)>,
    a_bound: u64,
    b: Seq<(u64, bool)>,
    b_bound: u64,
    c: Seq<(u64, bool)>,
)
    requires
        only_fresh_ids(a, a_bound, b),
        only_fresh_ids(b, b_bound, c),
        a_bound <= b_bound,
    ensures
        only_fresh_ids(a, a_bound, c),
{
}

/// Appending a fresh entry (its id at least the bound every existing id is
/// below) keeps the registry sorted, revives nothing and forges nothing.
pub proof fn lemma_push_fresh(regs: Seq<(u64, bool)>, nid: u64)
    requires
        sorted_ids(regs),
        ids_below(regs, nid),
    ensures
        sorted_ids(regs.push((nid, true))),
        never_revived(regs, regs.push((nid, true))),
        only_fresh_ids(regs, nid, regs.push((nid, true))),
{
    let post = regs.push((nid, true));
    assert forall|id: u64| #[trigger] is_inactive_in(regs, id) implies !is_active_in(post, id) by {
        if is_active_in(post, id) {
            let i = choose|i: int| 0 <= i < regs.len() && #[trigger] regs[i] == (id, false);
            let j = choose|j: int| 0 <= j < post.len() && #[trigger] post[j] == (id, true);
            if j < regs.len() {
                assert(regs[i].0 == regs[j].0);
            } else {
                assert(regs[i].0 < nid);
            }
        }
    }
    assert forall|id: u64| #[trigger] has_id(post, id) implies has_id(regs, id) || id >= nid by {
        let j = choose|j: int| 0 <= j < post.len() && #[trigger] post[j].0 == id;
        if j < regs.len() {
            assert(regs[j].0 == id);
        }
    }
}

/// Cancelling an id keeps the ids of a registry exactly as they were and
/// flips no entry to active, so it keeps sortedness, revives nothing and
/// forges nothing - and if the id is present at all, it is cancelled after.
pub proof fn lemma_deactivate(regs: Seq<(u64, bool)>, id: u64)
    requires
        sorted_ids(regs),
    ensures
        sorted_ids(deactivate(regs, id)),
        never_revived(regs, deactivate(regs, id)),
        forall|bound: u64| only_fresh_ids(regs, bound, deactivate(regs, id)),
        forall|bound: u64| ids_below(regs, bound) ==> ids_below(deactivate(regs, id), bound),
        has_id(regs, id) ==> is_inactive_in(deactivate(regs, id), id),
{
    let post = deactivate(regs, id);
    assert(post.len() == regs.len());
    assert forall|i: int| 0 <= i < post.len() implies (#[trigger] post[i]).0 == regs[i].0 by {}
    assert forall|x: u64| #[trigger] is_inactive_in(regs, x) implies !is_active_in(post, x) by {
        if is_active_in(post, x) {
            let i = choose|i: int| 0 <= i < regs.len() && #[trigger] regs[i] == (x, false);
            let j = choose|j: int| 0 <= j < post.len() && #[trigger] post[j] == (x, true);
            assert(regs[j] == (x, true));
            assert(regs[i].0 == regs[j].0);
        }
    }
    assert forall|x: u64| #[trigger] has_id(post, x) implies has_id(regs, x) by {
        let j = choose|j: int| 0 <= j < post.len() && #[trigger] post[j].0 == x;
        assert(regs[j].0 == x);
    }
    if has_id(regs, id) {
        let i = choose|i: int| 0 <= i < regs.len() && #[trigger] regs[i].0 == id;
        assert(post[i] == (id, false));
    }
}

/// Everything a snapshot selects is an active entry.
pub proof fn lemma_active_sel_active(regs: Seq<(u64, bool)>)
    ensures
        forall|i: int|
            0 <= i < active_sel(regs, regs).len() ==> (#[trigger] active_sel(regs, regs)[i]).1,
    decreases regs.len(),
{
    if regs.len() > 0 {
        let tail = regs.drop_first();
        lemma_active_sel_active(tail);
        let c = active_sel(regs, regs);
        let ct = active_sel(tail, tail);
        assert forall|i: int| 0 <= i < c.len() implies (#[trigger] c[i]).1 by {
            if regs.first().1 {
                assert(c == seq![regs.first()] + ct);
                if i > 0 {
                    assert(c[i] == ct[i - 1]);
                }
            } else {
                assert(c == ct);
                assert(c[i] == ct[i]);
            }
        }
    }
}

/// Cancellation is respected: once a subscription is observed cancelled in a
/// registry without id reuse, no snapshot of that registry selects it for
/// invocation. Together with [`lemma_never_revived_trans`] - no later
/// operation ever re-activates the id - no subsequent dispatch invokes it,
/// however long the cancelled entry physically lingers before compaction.
pub proof fn law_cancelled_never_selected(regs: Seq<(u64, bool)>, id: u64)
    requires
        sorted_ids(regs),
        is_inactive_in(regs, id),
    ensures
        !active_ids(regs).contains(id),
{
    if active_ids(regs).contains(id) {
        let c = active_sel(regs, regs);
        let k = choose|k: int| 0 <= k < active_ids(regs).len() && active_ids(regs)[k] == id;
        assert(c[k].0 == id);
        lemma_active_sel_active(regs);
        assert(c[k] == (id, true));
        assert(is_active_in(c, id));
        lemma_compact(regs);
        let i = choose|i: int| 0 <= i < regs.len() && #[trigger] regs[i] == (id, false);
        let j = choose|j: int| 0 <= j < regs.len() && #[trigger] regs[j] == (id, true);
        assert(regs[i].0 == regs[j].0);
    }
}

/// Subscription during notification is deferred: a subscription handed out
/// after a snapshot was taken carries an id at least the registry's id bound
/// at snapshot time, and such an id is never among the snapshot's selected
/// ids - the new callback is invoked starting with the next dispatch only.
pub proof fn law_deferred_never_selected(regs: Seq<(u64, bool)>, bound: u64, id: u64)
    requires
        ids_below(regs, bound),
        bound <= id,
    ensures
        !active_ids(regs).contains(id),
{
    if active_ids(regs).contains(id) {
        let c = active_sel(regs, regs);
        let k = choose|k: int| 0 <= k < active_ids(regs).len() && active_ids(regs)[k] == id;
        assert(c[k].0 == id);
        assert(c.contains(c[k]));
        lemma_drop_inactive(regs, regs, 0);
        lemma_drop_listed_contains(regs, inactive_idx(regs), 0);
        assert(regs.contains(c[k]));
        let j = choose|j: int| 0 <= j < regs.len() && regs[j] == c[k];
        assert(regs[j].0 == id);
    }
}

/// In a registry without id reuse, an id names at most one entry, so the same
/// id cannot be both active and cancelled. An operation that leaves such a
/// registry alone therefore revives nothing and forges nothing.
pub proof fn lemma_registry_refl(regs: Seq<(u64, bool)>)
    requires
        sorted_ids(regs),
    ensures
        never_revived(regs, regs),
        forall|bound: u64| only_fresh_ids(regs, bound, regs),
{
    assert forall|id: u64| #[trigger] is_inactive_in(regs, id) implies !is_active_in(regs, id) by {
        if is_active_in(regs, id) {
            let i = choose|i: int| 0 <= i < regs.len() && #[trigger] regs[i] == (id, false);
            let j = choose|j: int| 0 <= j < regs.len() && #[trigger] regs[j] == (id, true);
            assert(regs[i].0 == regs[j].0);
        }
    }
}

} // verus!
