//! A single-writer state container: application state is held in a guarded
//! cell and changed only through a pure reducer, one dispatch at a time.
//! Middleware hooks wrap the guarded reduction step, and observers are
//! notified from a snapshot of the subscription registry taken after each
//! successful transition.
//!
//! Two policies are fixed here, consistently for every call site. First,
//! reentrancy is rejected, never queued: the reduction guard is claimed for
//! the whole middleware chain, so a dispatch attempted from inside a hook
//! fails fast with [`DispatchError::AlreadyReducing`] (a reducer cannot even
//! try - it is a pure function with no store access), while subscriber
//! callbacks run after the guard is released, so a dispatch from a callback
//! is an ordinary fresh dispatch. Genuinely concurrent callers are serialized
//! outside the verified core, by whatever shares the store between threads.
//! Second, `after` hooks run even when the reduction step failed, observing
//! the error on its way to the caller, so instrumentation sees failed
//! dispatches too.
//!
//! What the container guarantees is stated in the contracts: mutual exclusion
//! and reentrancy rejection in [`InternalStore::dispatch`] and
//! [`Store::dispatch`], the middleware nesting order in [`Store::run_chain`],
//! the snapshot discipline - cancelled subscriptions are never selected
//! again, late registrations wait for the next dispatch - in the laws of
//! [`registry`], and single-writer state discipline in [`reducer::reachable`]:
//! a successful dispatch installs exactly the reducer's result, and wherever
//! the notified callbacks then take the store, every further change goes
//! through the reducer too.

pub mod cell;
pub mod errors;
pub mod middleware;
pub mod reducer;
pub mod registry;
pub mod store;

pub use cell::InternalStore;
pub use errors::DispatchError;
pub use middleware::{HookEvent, Middleware, NoMiddleware};
pub use reducer::Reducer;
pub use store::{NoSubscriber, Store, Subscriber, Subscription};
