//! The middleware capability: cross-cutting hooks around the reduction step.

use crate::cell::InternalStore;
use crate::errors::DispatchError;
use crate::reducer::Reducer;
use vstd::prelude::*;

verus! {

/// One event of a dispatch's middleware chain, as recorded in the ghost trace
/// returned by [`crate::Store::run_chain`]: a `before` hook, the guarded
/// reduction attempt, or an `after` hook. The payload is the middleware's
/// position in the list the store was built with.
pub enum HookEvent {
    Before(usize),
    Reduce,
    After(usize),
}

/// The call sequence one dispatch produces over a chain of `n` middlewares:
/// `before` hooks outer-to-inner (construction order), the guarded reduction
/// attempt, then `after` hooks inner-to-outer (reverse order) - a strict
/// nesting, as in a call/return stack.
pub open spec fn chain_trace(n: int) -> Seq<HookEvent> {
    Seq::new(n as nat, |i: int| HookEvent::Before(i as usize)) + seq![HookEvent::Reduce]
        + Seq::new(n as nat, |i: int| HookEvent::After((n - 1 - i) as usize))
}

/// An ordered, cross-cutting wrapper around the dispatch step (logging,
/// metrics, validation). The store fixes the ordering at construction and
/// runs every `before` hook, then the guarded reduction, then every `after`
/// hook, for each dispatch - including failed ones, so instrumentation still
/// observes them. In this hook shape there is no `next` to call or to skip:
/// every dispatch reaches the guarded reduction attempt, so no middleware can
/// suppress it silently.
///
/// Hooks run while the reduction guard is held: they may read the state
/// through the cell and may attempt a dispatch on it, but any such attempt
/// fails with [`DispatchError::AlreadyReducing`], so the contract that hooks
/// leave the cell untouched is honoured by anything built on the cell's own
/// methods.
pub trait Middleware<R: Reducer>: Sized {
    /// Runs immediately before the guarded reduction attempt.
    fn before(&self, cell: &mut InternalStore<R>, action: &R::Action)
        requires
            old(cell).flag(),
        ensures
            final(cell).flag(),
            final(cell).data() == old(cell).data(),
    ;

    /// Runs immediately after the guarded reduction attempt returns, seeing
    /// its outcome - the new state on success, or the error that is about to
    /// propagate to the caller.
    fn after(
        &self,
        cell: &mut InternalStore<R>,
        action: &R::Action,
        outcome: &Result<R, DispatchError<R::Error>>,
    )
        requires
            old(cell).flag(),
        ensures
            final(cell).flag(),
            final(cell).data() == old(cell).data(),
    ;
}

/// A middleware that does nothing. It pins down the middleware type of a
/// store built without any, and witnesses that the hook contracts are
/// satisfiable.
pub struct NoMiddleware;

impl<R: Reducer> Middleware<R> for NoMiddleware {
    fn before(&self, cell: &mut InternalStore<R>, action: &R::Action) {
    }

    fn after(
        &self,
        cell: &mut InternalStore<R>,
        action: &R::Action,
        outcome: &Result<R, DispatchError<R::Error>>,
    ) {
    }
}

} // verus!
