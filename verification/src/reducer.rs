//! The capability a state type supplies: a pure transition function.

use vstd::prelude::*;

verus! {

/// The contract a state type must satisfy to live in a [`crate::Store`].
///
/// A reducer is a pure function from the current state and an action to a new
/// state or a domain error, together with a well-defined initial state. The
/// store never interprets state or action contents; it only moves them
/// through the dispatch pipeline.
///
/// Implementations give the transition a specification (`spec_reduce`,
/// `spec_initial`) and prove that the executable methods meet it. A reducer
/// has no access to the store, so it cannot dispatch reentrantly.
pub trait Reducer: Sized {
    /// The unit of work this reducer consumes, usually an enum.
    type Action;

    /// The domain error this reducer can reject an action with.
    type Error;

    /// What the initial state is. The default leaves it unconstrained;
    /// implementations meaning to prove anything about a store override it.
    open spec fn spec_initial() -> Self {
        vstd::pervasive::arbitrary()
    }

    /// What `reduce` returns for a given state and action. The default leaves
    /// the transition unconstrained; implementations meaning to prove
    /// anything about a dispatch override it.
    open spec fn spec_reduce(self, action: Self::Action) -> Result<Self, Self::Error> {
        vstd::pervasive::arbitrary()
    }

    /// Produce the initial state a fresh store starts from.
    fn initial() -> (r: Self)
        ensures
            r == Self::spec_initial(),
    ;

    /// Produce the next state for `action`, or a domain error. The previous
    /// state is untouched either way; the store installs the result only on
    /// success.
    fn reduce(&self, action: &Self::Action) -> (r: Result<Self, Self::Error>)
        ensures
            r == self.spec_reduce(*action),
    ;

    /// Produce a value equal to this state. The store hands clones of the
    /// state out to readers and hooks while keeping the original.
    fn dup(&self) -> (r: Self)
        ensures
            r == *self,
    ;
}

/// `to` is `n` successful reductions away from `from`.
pub open spec fn reachable_in<R: Reducer>(from: R, to: R, n: nat) -> bool
    decreases n,
{
    if n == 0 {
        from == to
    } else {
        exists|mid: R, action: R::Action|
            reachable_in(from, mid, (n - 1) as nat) && #[trigger] mid.spec_reduce(action)
                == Result::<R, R::Error>::Ok(to)
    }
}

/// Some sequence of actions carries `from` to `to` through successful
/// reductions alone. This is how state evolves in a store: every change goes
/// through the reducer, so whatever a callback does with the store, the state
/// it leaves behind is reachable from the one it found.
pub open spec fn reachable<R: Reducer>(from: R, to: R) -> bool {
    exists|n: nat| reachable_in(from, to, n)
}

/// A state is reachable from itself: by the empty sequence of actions.
pub proof fn lemma_reachable_refl<R: Reducer>(s: R)
    ensures
        reachable(s, s),
{
    assert(reachable_in(s, s, 0));
}

/// One successful reduction is one step of reachability.
pub proof fn lemma_reachable_step<R: Reducer>(s: R, action: R::Action, t: R)
    requires
        s.spec_reduce(action) == Result::<R, R::Error>::Ok(t),
    ensures
        reachable(s, t),
{
    assert(reachable_in(s, s, 0));
    assert(reachable_in(s, t, 1));
}

proof fn lemma_reachable_trans_in<R: Reducer>(a: R, b: R, c: R, n: nat)
    requires
        reachable(a, b),
        reachable_in(b, c, n),
    ensures
        reachable(a, c),
    decreases n,
{
    if n == 0 {
        assert(b == c);
    } else {
        let (mid, action): (R, R::Action) = choose|mid: R, action: R::Action|
            reachable_in(b, mid, (n - 1) as nat) && #[trigger] mid.spec_reduce(action)
                == Result::<R, R::Error>::Ok(c);
        lemma_reachable_trans_in(a, b, mid, (n - 1) as nat);
        let m: nat = choose|m: nat| reachable_in(a, mid, m);
        assert(reachable_in(a, c, (m + 1) as nat));
    }
}

/// Reachability composes: the two action sequences run one after the other.
pub proof fn lemma_reachable_trans<R: Reducer>(a: R, b: R, c: R)
    requires
        reachable(a, b),
        reachable(b, c),
    ensures
        reachable(a, c),
{
    let n: nat = choose|n: nat| reachable_in(b, c, n);
    lemma_reachable_trans_in(a, b, c, n);
}

} // verus!
