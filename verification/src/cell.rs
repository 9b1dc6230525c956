//! The state cell: the store of record, guarded against reentrant reduction.

use crate::errors::DispatchError;
use crate::reducer::Reducer;
use vstd::prelude::*;

verus! {

/// Exclusive holder of the current state value plus a "currently reducing"
/// flag. The flag is the mutual-exclusion guard: while it is set, every
/// further reduction attempt fails immediately with
/// [`DispatchError::AlreadyReducing`] instead of waiting, so reentrancy
/// becomes an observable, recoverable error rather than a deadlock.
pub struct InternalStore<R: Reducer> {
    data: R,
    is_dispatching: bool,
}

impl<R: Reducer> InternalStore<R> {
    /// The state of record held by this cell.
    pub closed spec fn data(self) -> R {
        self.data
    }

    /// Whether a reduction is in progress for this cell.
    pub closed spec fn flag(self) -> bool {
        self.is_dispatching
    }

    /// A fresh cell holding `data`, with no reduction in progress.
    pub fn new(data: R) -> (c: Self)
        ensures
            c.data() == data,
            !c.flag(),
    {
        InternalStore { data, is_dispatching: false }
    }

    /// A consistent snapshot of the current state. Always succeeds; a reader
    /// never observes a value straddling two reductions, because reductions
    /// replace the state in one step.
    pub fn get(&self) -> (r: R)
        ensures
            r == self.data(),
    {
        self.data.dup()
    }

    /// Whether a reduction currently holds the guard.
    pub fn is_reducing(&self) -> (r: bool)
        ensures
            r == self.flag(),
    {
        self.is_dispatching
    }

    /// Claim the guard. Callers must have observed it free.
    pub(crate) fn begin(&mut self)
        requires
            !old(self).flag(),
        ensures
            final(self).flag(),
            final(self).data() == old(self).data(),
    {
        self.is_dispatching = true;
    }

    /// Release the guard after a reduction attempt.
    pub(crate) fn release(&mut self)
        requires
            old(self).flag(),
        ensures
            !final(self).flag(),
            final(self).data() == old(self).data(),
    {
        self.is_dispatching = false;
    }

    /// Run the reducer while the guard is held. On success the returned value
    /// replaces the state; on failure the previous state is retained and the
    /// reducer's error is surfaced. The guard stays held either way.
    pub(crate) fn reduce_guarded(&mut self, action: &R::Action) -> (r: Result<
        R,
        DispatchError<R::Error>,
    >)
        requires
            old(self).flag(),
        ensures
            final(self).flag(),
            match old(self).data().spec_reduce(*action) {
                Result::Ok(s) => final(self).data() == s && r == Result::<R, DispatchError<R::Error>>::Ok(
                    s,
                ),
                Result::Err(e) => final(self).data() == old(self).data() && r == Result::<
                    R,
                    DispatchError<R::Error>,
                >::Err(DispatchError::ReducerFailed(e)),
            },
    {
        match self.data.reduce(action) {
            Result::Ok(new_data) => {
                let out = new_data.dup();
                self.data = new_data;
                Result::Ok(out)
            },
            Result::Err(e) => Result::Err(DispatchError::ReducerFailed(e)),
        }
    }

    /// One guarded reduction attempt: fails with `AlreadyReducing` if a
    /// reduction is already in progress for this cell, otherwise claims the
    /// guard for the duration of the reducer call. On success the reducer's
    /// value replaces the state and a copy of it is returned; on reducer
    /// failure the previous state is retained and the error is propagated,
    /// tagged with the reducer's payload. The guard is free afterwards unless
    /// it was already held by someone else.
    pub fn dispatch(&mut self, action: &R::Action) -> (r: Result<R, DispatchError<R::Error>>)
        ensures
            old(self).flag() ==> {
                &&& r == Result::<R, DispatchError<R::Error>>::Err(DispatchError::AlreadyReducing)
                &&& final(self).data() == old(self).data()
                &&& final(self).flag()
            },
            !old(self).flag() ==> {
                &&& !final(self).flag()
                &&& match old(self).data().spec_reduce(*action) {
                    Result::Ok(s) => final(self).data() == s && r == Result::<
                        R,
                        DispatchError<R::Error>,
                    >::Ok(s),
                    Result::Err(e) => final(self).data() == old(self).data() && r == Result::<
                        R,
                        DispatchError<R::Error>,
                    >::Err(DispatchError::ReducerFailed(e)),
                }
            },
    {
        if self.is_dispatching {
            return Result::Err(DispatchError::AlreadyReducing);
        }
        self.begin();
        let r = self.reduce_guarded(action);
        self.release();
        r
    }
}

} // verus!
