//! The errors a dispatch can surface to its caller.

use vstd::prelude::*;

verus! {

/// Why a dispatch did not change the state.
///
/// `AlreadyReducing` is transient and recoverable: another reduction holds the
/// guard (an illegal reentrant dispatch, or a second dispatch racing the
/// first). The state is never corrupted by a rejected attempt.
///
/// `ReducerFailed` carries the reducer's own domain error; the state remains
/// at its pre-dispatch value.
#[derive(Debug)]
pub enum DispatchError<E> {
    AlreadyReducing,
    ReducerFailed(E),
}

} // verus!
