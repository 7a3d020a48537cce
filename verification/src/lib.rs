//! A sequential model of a fork-join execution scope.
//!
//! A `Scope` stands for a pool of `worker_count` background threads plus the
//! calling thread itself, `worker_count + 1` participants in all.  Every
//! operation hands the same work item to each participant, parameterized only
//! by the participant's index, and returns once all of them have finished.
//! The library proves the scheduling rules of that engine — how an index
//! range is partitioned among participants, which indices the dynamic claim
//! protocol hands out, and what each participant's accumulator slot holds
//! after a fold — while an embedding program is free to drive the same rules
//! from real threads.

use vstd::prelude::*;

pub mod scope;
pub mod iter;

pub use scope::Scope;

verus! {

/// One participant's slot in a row of per-thread accumulators.
///
/// Each participant of a fold writes only its own slot, so the slots are kept
/// in a wrapper of their own; a parallel embedding may additionally pad such
/// slots apart to keep independently written values off one cache line.
#[derive(Clone, Copy)]
pub struct Aligned<T>(pub T);

} // verus!
