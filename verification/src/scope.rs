//! The scope handle and its broadcast primitive.

use vstd::prelude::*;
use std::rc::Rc;

verus! {

/// A handle over one fork-join invocation: the calling thread (participant
/// index `0`) together with `worker_count()` further participants, indices
/// `1..=worker_count()`.
///
/// The handle is deliberately neither `Send` nor `Sync`, so it cannot be
/// captured by a work item and used to issue a second, overlapping broadcast
/// from inside the first.
pub struct Scope {
    workers: usize,
    // an `Rc` is neither `Send` nor `Sync`, which pins the handle to the
    // thread and the call stack that created it
    not_send: Rc<()>,
}

impl Scope {
    /// How many participants there are beyond the calling thread.
    pub closed spec fn worker_count(self) -> usize {
        self.workers
    }

    #[verifier::type_invariant]
    spec fn wf(self) -> bool {
        self.workers < usize::MAX
    }

    /// A scope with `workers` participants beyond the caller.
    pub fn new(workers: usize) -> (s: Scope)
        requires
            workers < usize::MAX,
        ensures
            s.worker_count() == workers,
    {
        Scope { workers, not_send: Rc::new(()) }
    }

    /// How many participants there are beyond the calling thread, as a
    /// run-time value.
    pub fn worker_count_exec(&self) -> (n: usize)
        ensures
            n == self.worker_count(),
            n < usize::MAX,
    {
        proof {
            use_type_invariant(self);
        }
        self.workers
    }

    /// Execute the work item once per participant: `f(0)` for the caller and
    /// `f(i)` for each worker `i`, returning only when all have finished.
    /// This engine runs the participants in turn; a concurrent engine runs
    /// them in parallel and blocks until the last one has drained.
    pub fn broadcast<F: Fn(usize)>(&self, f: F)
        requires
            forall|i: usize| i <= self.worker_count() ==> call_requires(f, (i,)),
        ensures
            forall|i: usize| i <= self.worker_count() ==> call_ensures(f, (i,), ()),
    {
        let mut i: usize = 0;
        loop
            invariant
                i <= self.worker_count(),
                forall|j: usize| j <= self.worker_count() ==> call_requires(f, (j,)),
                forall|j: usize| j < i ==> call_ensures(f, (j,), ()),
            ensures
                forall|j: usize| j <= self.worker_count() ==> call_ensures(f, (j,), ()),
            decreases self.worker_count() - i,
        {
            f(i);
            if i == self.workers {
                break;
            }
            i = i + 1;
        }
    }
}

} // verus!
