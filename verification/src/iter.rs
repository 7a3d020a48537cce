//! Partitioning of an index range among the participants of a scope.

use vstd::prelude::*;
use std::ops::Range;
use crate::Aligned;
use crate::scope::Scope;

verus! {

/// How many indices each participant is assigned when a range of `len`
/// indices is split among `p` participants: `len / p`, rounded up.
pub open spec fn chunk_size(len: int, p: int) -> int
    recommends
        0 <= len,
        1 <= p,
{
    if len % p == 0 {
        len / p
    } else {
        len / p + 1
    }
}

/// The first index of participant `i`'s chunk of `[start, end)`, clipped to
/// `end`: participants past the end of the range receive an empty chunk.
pub open spec fn chunk_lo(start: int, end: int, p: int, i: int) -> int
    recommends
        start <= end,
        1 <= p,
        0 <= i,
{
    let lo = start + chunk_size(end - start, p) * i;
    if lo > end {
        end
    } else {
        lo
    }
}

/// The index one past participant `i`'s chunk of `[start, end)`.
pub open spec fn chunk_hi(start: int, end: int, p: int, i: int) -> int
    recommends
        start <= end,
        1 <= p,
        0 <= i,
{
    chunk_lo(start, end, p, i + 1)
}

/// Index `idx` lies in participant `i`'s chunk of `[start, end)`.
pub open spec fn in_chunk(start: int, end: int, p: int, i: int, idx: int) -> bool {
    chunk_lo(start, end, p, i) <= idx < chunk_hi(start, end, p, i)
}

/// The participant whose chunk of `[start, end)` holds index `idx`.
pub open spec fn chunk_index_of(start: int, end: int, p: int, idx: int) -> int
    recommends
        start <= idx < end,
        1 <= p,
{
    (idx - start) / chunk_size(end - start, p)
}

/// The bounds of participant `i`'s chunk when `[start, end)` is split
/// statically among `p` participants.
pub fn chunk_bounds(start: usize, end: usize, p: usize, i: usize) -> (r: (usize, usize))
    requires
        start <= end,
        1 <= p,
        i < p,
    ensures
        r.0 == chunk_lo(start as int, end as int, p as int, i as int),
        r.1 == chunk_hi(start as int, end as int, p as int, i as int),
{
    let len = end - start;
    proof {
        assert(len % p != 0 ==> len / p + 1 <= usize::MAX) by (nonlinear_arith)
            requires
                1 <= p,
                len <= usize::MAX,
        ;
    }
    let c = if len % p != 0 { len / p + 1 } else { len / p };
    let lo = clip_to(start, c, i, end);
    let hi = clip_to(start, c, i + 1, end);
    (lo, hi)
}

/// `min(end, start + c * i)`, computed without overflowing.
fn clip_to(start: usize, c: usize, i: usize, end: usize) -> (r: usize)
    requires
        start <= end,
    ensures
        r == if start + c * i > end { end as int } else { start + c * i },
{
    match c.checked_mul(i) {
        Some(m) => match start.checked_add(m) {
            Some(s) => if s > end {
                end
            } else {
                s
            },
            None => end,
        },
        None => end,
    }
}

impl Scope {
    /// The bounds of participant `i`'s chunk when `[start, end)` is split
    /// statically among all `worker_count() + 1` participants.
    pub fn chunk_of(&self, start: usize, end: usize, i: usize) -> (r: (usize, usize))
        requires
            start <= end,
            i <= self.worker_count(),
        ensures
            r.0 == chunk_lo(start as int, end as int, self.worker_count() + 1, i as int),
            r.1 == chunk_hi(start as int, end as int, self.worker_count() + 1, i as int),
    {
        let p = self.worker_count_exec() + 1;
        chunk_bounds(start, end, p, i)
    }

    /// Split `[work.start, work.end)` statically among the participants and
    /// hand each participant `i` its chunk: `f(i, lo, hi)` with
    /// `[lo, hi) == [chunk_lo(i), chunk_hi(i))`.  The chunks are contiguous,
    /// deterministic and pairwise disjoint, and together cover the range
    /// exactly (`lemma_static_partition_exact`).
    pub fn iter_static<F: Fn(usize, usize, usize)>(&self, work: Range<usize>, f: F)
        requires
            work.start <= work.end,
            forall|i: usize, lo: usize, hi: usize|
                i <= self.worker_count() && lo == chunk_lo(
                    work.start as int,
                    work.end as int,
                    self.worker_count() + 1,
                    i as int,
                ) && hi == chunk_hi(
                    work.start as int,
                    work.end as int,
                    self.worker_count() + 1,
                    i as int,
                ) ==> call_requires(f, (i, lo, hi)),
        ensures
            forall|i: usize, lo: usize, hi: usize|
                i <= self.worker_count() && lo == chunk_lo(
                    work.start as int,
                    work.end as int,
                    self.worker_count() + 1,
                    i as int,
                ) && hi == chunk_hi(
                    work.start as int,
                    work.end as int,
                    self.worker_count() + 1,
                    i as int,
                ) ==> call_ensures(f, (i, lo, hi), ()),
    {
        let start = work.start;
        let end = work.end;
        let mut i: usize = 0;
        loop
            invariant
                start == work.start,
                end == work.end,
                start <= end,
                i <= self.worker_count(),
                forall|j: usize, lo: usize, hi: usize|
                    j <= self.worker_count() && lo == chunk_lo(
                        start as int,
                        end as int,
                        self.worker_count() + 1,
                        j as int,
                    ) && hi == chunk_hi(
                        start as int,
                        end as int,
                        self.worker_count() + 1,
                        j as int,
                    ) ==> call_requires(f, (j, lo, hi)),
                forall|j: usize, lo: usize, hi: usize|
                    j < i && lo == chunk_lo(
                        start as int,
                        end as int,
                        self.worker_count() + 1,
                        j as int,
                    ) && hi == chunk_hi(
                        start as int,
                        end as int,
                        self.worker_count() + 1,
                        j as int,
                    ) ==> call_ensures(f, (j, lo, hi), ()),
            ensures
                forall|j: usize, lo: usize, hi: usize|
                    j <= self.worker_count() && lo == chunk_lo(
                        start as int,
                        end as int,
                        self.worker_count() + 1,
                        j as int,
                    ) && hi == chunk_hi(
                        start as int,
                        end as int,
                        self.worker_count() + 1,
                        j as int,
                    ) ==> call_ensures(f, (j, lo, hi), ()),
            decreases self.worker_count() - i,
        {
            let (lo, hi) = self.chunk_of(start, end, i);
            f(i, lo, hi);
            if i == self.worker_count_exec() {
                break;
            }
            i = i + 1;
        }
    }

    /// Replace every element of `work` with the result of one application of
    /// `f` to it, visiting each participant's static chunk in turn.  Each
    /// element is handed to `f` exactly once.
    pub fn for_each_static<T: Copy, F: Fn(T) -> T>(&self, work: &mut Vec<T>, f: F)
        requires
            forall|j: int| 0 <= j < old(work).len() ==> call_requires(f, (old(work)[j],)),
        ensures
            final(work).len() == old(work).len(),
            forall|j: int|
                0 <= j < final(work).len() ==> call_ensures(
                    f,
                    (old(work)[j],),
                    #[trigger] final(work)[j],
                ),
    {
        let ghost orig = work@;
        let ghost p = self.worker_count() + 1;
        let n = work.len();
        proof {
            lemma_static_partition_exact(0, n as int, p);
        }
        let mut i: usize = 0;
        loop
            invariant_except_break
                forall|j: int|
                    chunk_lo(0, n as int, p, i as int) <= j < orig.len() ==> #[trigger] work[j]
                        == orig[j],
            invariant
                work.len() == orig.len(),
                n == orig.len(),
                p == self.worker_count() + 1,
                i <= self.worker_count(),
                forall|j: int| 0 <= j < orig.len() ==> call_requires(f, (orig[j],)),
                forall|j: int|
                    0 <= j < chunk_lo(0, n as int, p, i as int) ==> call_ensures(
                        f,
                        (orig[j],),
                        #[trigger] work[j],
                    ),
            ensures
                work.len() == orig.len(),
                forall|j: int|
                    0 <= j < orig.len() ==> call_ensures(f, (orig[j],), #[trigger] work[j]),
            decreases self.worker_count() - i,
        {
            proof {
                lemma_static_partition_exact(0, n as int, p);
            }
            let (lo, hi) = self.chunk_of(0, n, i);
            let mut j = lo;
            while j < hi
                invariant
                    work.len() == orig.len(),
                    n == orig.len(),
                    p == self.worker_count() + 1,
                    i <= self.worker_count(),
                    lo == chunk_lo(0, n as int, p, i as int),
                    hi == chunk_hi(0, n as int, p, i as int),
                    lo <= j,
                    j <= hi,
                    hi <= n,
                    forall|k: int| 0 <= k < orig.len() ==> call_requires(f, (orig[k],)),
                    forall|k: int|
                        0 <= k < j ==> call_ensures(f, (orig[k],), #[trigger] work[k]),
                    forall|k: int|
                        j <= k < orig.len() ==> #[trigger] work[k] == orig[k],
                decreases hi - j,
            {
                let v = work[j];
                let w = f(v);
                work.set(j, w);
                j = j + 1;
            }
            if i == self.worker_count_exec() {
                break;
            }
            i = i + 1;
        }
    }
}

/// The chunk sizes of `p` participants together cover a range of `len`
/// indices.
proof fn lemma_chunk_size_covers(len: int, p: int)
    requires
        0 <= len,
        1 <= p,
    ensures
        len <= chunk_size(len, p) * p,
{
    let c = chunk_size(len, p);
    assert(len == (len / p) * p + len % p && 0 <= len % p < p) by (nonlinear_arith)
        requires
            1 <= p,
            0 <= len,
    ;
    if len % p != 0 {
        assert(c * p == (len / p) * p + p) by (nonlinear_arith)
            requires
                c == len / p + 1,
        ;
    }
}

/// Law: the static partition of `[start, end)` among `p` participants is
/// exact.  The `p` chunks start at `start`, are contiguous in index order
/// (each chunk ends where the next begins), end at `end`, and every index of
/// the range lies in exactly one chunk.
pub proof fn lemma_static_partition_exact(start: int, end: int, p: int)
    requires
        start <= end,
        1 <= p,
    ensures
        chunk_lo(start, end, p, 0) == start,
        chunk_lo(start, end, p, p) == end,
        forall|i: int| 0 <= i < p ==> #[trigger] chunk_lo(start, end, p, i) <= chunk_hi(
            start,
            end,
            p,
            i,
        ),
        forall|idx: int|
            start <= idx < end ==> 0 <= #[trigger] chunk_index_of(start, end, p, idx) < p
                && in_chunk(start, end, p, chunk_index_of(start, end, p, idx), idx),
        forall|i: int, j: int, idx: int|
            0 <= i < j < p && #[trigger] in_chunk(start, end, p, i, idx) ==> !(#[trigger] in_chunk(
                start,
                end,
                p,
                j,
                idx,
            )),
{
    let len = end - start;
    let c = chunk_size(len, p);
    lemma_chunk_size_covers(len, p);
    assert(0 <= c) by (nonlinear_arith)
        requires
            0 <= len,
            1 <= p,
            c == chunk_size(len, p),
    ;
    assert(chunk_lo(start, end, p, 0) == start);
    assert(chunk_lo(start, end, p, p) == end) by {
        assert(start + c * p >= end);
    };
    assert forall|i: int, j: int| 0 <= i <= j implies chunk_lo(start, end, p, i) <= chunk_lo(
        start,
        end,
        p,
        j,
    ) by {
        assert(c * i <= c * j) by (nonlinear_arith)
            requires
                0 <= c,
                i <= j,
        ;
    };
    assert forall|idx: int| start <= idx < end implies 0 <= #[trigger] chunk_index_of(
        start,
        end,
        p,
        idx,
    ) < p && in_chunk(start, end, p, chunk_index_of(start, end, p, idx), idx) by {
        // `len > 0`, so each chunk holds `c >= 1` indices and index `idx`
        // falls in the chunk numbered `(idx - start) / c`.
        assert(1 <= c) by (nonlinear_arith)
            requires
                0 < len,
                len <= c * p,
                1 <= p,
        ;
        let i = (idx - start) / c;
        assert(c * i <= idx - start < c * (i + 1) && 0 <= i) by (nonlinear_arith)
            requires
                1 <= c,
                0 <= idx - start,
                i == (idx - start) / c,
        ;
        assert(i < p) by (nonlinear_arith)
            requires
                c * i <= idx - start,
                idx - start < len,
                len <= c * p,
                1 <= c,
        ;
        assert(chunk_lo(start, end, p, i) <= idx < chunk_hi(start, end, p, i));
    };
}

impl Scope {
    /// Iterate `[work.start, work.end)` dynamically: every index of the range
    /// is claimed by exactly one participant (`lemma_dynamic_claims_cover`)
    /// and handed to `f` together with that participant's number.  This
    /// engine runs the participants one after the other, so the claimant of
    /// each index is the one `claimant_of` names; under a concurrent engine
    /// only the exactly-once claim of each index is deterministic.
    pub fn iter_dynamic<F: Fn(usize, usize)>(&self, work: Range<usize>, f: F)
        requires
            work.start <= work.end,
            forall|t: usize, idx: usize|
                t <= self.worker_count() && work.start <= idx < work.end ==> call_requires(
                    f,
                    (t, idx),
                ),
        ensures
            forall|idx: usize|
                work.start <= idx < work.end ==> #[trigger] call_ensures(
                    f,
                    (
                        claimant_of(
                            work.start as int,
                            work.end as int,
                            self.worker_count() + 1,
                            idx as int,
                        ) as usize,
                        idx,
                    ),
                    (),
                ),
    {
        let start = work.start;
        let end = work.end;
        let len = end - start;
        let workers = self.worker_count_exec();
        // the one-shot initial assignment of each participant
        let mut t: usize = 0;
        loop
            invariant
                start <= end,
                len == end - start,
                workers == self.worker_count(),
                t <= workers,
                forall|u: usize, idx: usize|
                    u <= self.worker_count() && start <= idx < end ==> call_requires(f, (u, idx)),
                forall|u: usize|
                    u < t && start + u < end ==> #[trigger] call_ensures(
                        f,
                        (u, (start + u) as usize),
                        (),
                    ),
            ensures
                forall|u: usize|
                    u <= workers && start + u < end ==> #[trigger] call_ensures(
                        f,
                        (u, (start + u) as usize),
                        (),
                    ),
            decreases workers - t,
        {
            if t < len {
                f(t, start + t);
            }
            if t == workers {
                break;
            }
            t = t + 1;
        }
        // participant 0 drains the shared claim counter, which starts just
        // past the initial assignments
        let mut next = if workers < len {
            start + workers + 1
        } else {
            end
        };
        while next < end
            invariant
                start <= end,
                start <= next <= end,
                workers == self.worker_count(),
                forall|u: usize, idx: usize|
                    u <= self.worker_count() && start <= idx < end ==> call_requires(f, (u, idx)),
                forall|idx: usize|
                    start <= idx < next && start + workers + 1 <= idx ==> #[trigger] call_ensures(
                        f,
                        (0usize, idx),
                        (),
                    ),
            decreases end - next,
        {
            f(0, next);
            next = next + 1;
        }
        proof {
            let p = self.worker_count() + 1;
            assert forall|idx: usize| start <= idx < end implies #[trigger] call_ensures(
                f,
                (claimant_of(start as int, end as int, p, idx as int) as usize, idx),
                (),
            ) by {
                if (idx as int) < start + p {
                    let u: usize = (idx - start) as usize;
                    assert(call_ensures(f, (u, (start + u) as usize), ()));
                    assert((start + u) as usize == idx);
                } else {
                    assert(call_ensures(f, (0usize, idx), ()));
                }
            };
        }
    }

    /// Replace every element of `work` with the result of one application of
    /// `f` to it, claiming indices dynamically.  On a range that starts at
    /// `0` the claim order of this engine — the one-shot initial assignments
    /// `0..worker_count() + 1`, then the shared counter — visits the indices
    /// in increasing order.  Each element is handed to `f` exactly once.
    pub fn for_each_dynamic<T: Copy, F: Fn(T) -> T>(&self, work: &mut Vec<T>, f: F)
        requires
            forall|j: int| 0 <= j < old(work).len() ==> call_requires(f, (old(work)[j],)),
        ensures
            final(work).len() == old(work).len(),
            forall|j: int|
                0 <= j < final(work).len() ==> call_ensures(
                    f,
                    (old(work)[j],),
                    #[trigger] final(work)[j],
                ),
    {
        let ghost orig = work@;
        let n = work.len();
        let mut j: usize = 0;
        while j < n
            invariant
                work.len() == orig.len(),
                n == orig.len(),
                j <= n,
                forall|k: int| 0 <= k < orig.len() ==> call_requires(f, (orig[k],)),
                forall|k: int| 0 <= k < j ==> call_ensures(f, (orig[k],), #[trigger] work[k]),
                forall|k: int| j <= k < orig.len() ==> #[trigger] work[k] == orig[k],
            decreases n - j,
        {
            let v = work[j];
            let w = f(v);
            work.set(j, w);
            j = j + 1;
        }
    }
}

/// How many indices the shared claim counter hands out when `[start, end)`
/// is iterated dynamically by `p` participants: the indices past the one-shot
/// initial assignments `start..start + p`.
pub open spec fn counter_claims_len(start: int, end: int, p: int) -> nat {
    if end - start - p >= 0 {
        (end - start - p) as nat
    } else {
        0
    }
}

/// The indices participant `t` claims when `[start, end)` is iterated
/// dynamically by `p` participants and the engine runs the participants one
/// after the other: each participant first takes its one-shot initial index
/// `start + t`, and participant `0`, running first, then drains the shared
/// claim counter, which starts at `start + p`.  A concurrent engine may let
/// any participant win any counter claim; which indices are claimed, and
/// that each is claimed exactly once, does not depend on that
/// (`lemma_dynamic_claims_cover`).
pub open spec fn dynamic_claims(start: int, end: int, p: int, t: int) -> Seq<int>
    recommends
        start <= end,
        1 <= p,
        0 <= t < p,
{
    if t == 0 {
        if start < end {
            seq![start] + Seq::new(counter_claims_len(start, end, p), |k: int| start + p + k)
        } else {
            Seq::empty()
        }
    } else {
        if start + t < end {
            seq![start + t]
        } else {
            Seq::empty()
        }
    }
}

/// The participant that claims index `idx` of `[start, end)` under
/// `dynamic_claims`.
pub open spec fn claimant_of(start: int, end: int, p: int, idx: int) -> int
    recommends
        start <= idx < end,
        1 <= p,
{
    if idx < start + p {
        idx - start
    } else {
        0
    }
}

/// Law: the multiset of indices claimed across all participants during a
/// dynamic iteration of `[start, end)` is exactly that range, each index
/// once.  Every claimed index lies in the range, every index of the range is
/// claimed by its claimant, no index is claimed by two participants, and no
/// participant claims an index twice.
pub proof fn lemma_dynamic_claims_cover(start: int, end: int, p: int)
    requires
        start <= end,
        1 <= p,
    ensures
        forall|t: int, k: int|
            0 <= t < p && 0 <= k < dynamic_claims(start, end, p, t).len() ==> start
                <= #[trigger] dynamic_claims(start, end, p, t)[k] < end,
        forall|idx: int|
            start <= idx < end ==> 0 <= #[trigger] claimant_of(start, end, p, idx) < p
                && dynamic_claims(start, end, p, claimant_of(start, end, p, idx)).contains(idx),
        forall|t1: int, t2: int, idx: int|
            0 <= t1 < p && 0 <= t2 < p && t1 != t2 && #[trigger] dynamic_claims(
                start,
                end,
                p,
                t1,
            ).contains(idx) ==> !(#[trigger] dynamic_claims(start, end, p, t2).contains(idx)),
        forall|t: int, k1: int, k2: int|
            0 <= t < p && 0 <= k1 < dynamic_claims(start, end, p, t).len() && 0 <= k2
                < dynamic_claims(start, end, p, t).len() && #[trigger] dynamic_claims(
                start,
                end,
                p,
                t,
            )[k1] == #[trigger] dynamic_claims(start, end, p, t)[k2] ==> k1 == k2,
{
    assert forall|idx: int| start <= idx < end implies 0 <= #[trigger] claimant_of(
        start,
        end,
        p,
        idx,
    ) < p && dynamic_claims(start, end, p, claimant_of(start, end, p, idx)).contains(idx) by {
        let t = claimant_of(start, end, p, idx);
        let s = dynamic_claims(start, end, p, t);
        if t == 0 {
            if idx == start {
                assert(s[0] == idx);
            } else {
                let k = idx - start - p + 1;
                assert(s[k] == idx);
            }
        } else {
            assert(s[0] == idx);
        }
    };
}

/// The accumulator `a1` is reachable from `a0` by applying `f` once to each
/// element of `s`, in order: some chain of intermediate accumulators starts
/// at `a0`, steps by one application of `f` per element, and ends at `a1`.
/// Where `f` is a reducer, this pins each participant's partial result to
/// its part of the input.
pub open spec fn folds<A, T, F: Fn(A, T) -> A>(f: F, a0: A, s: Seq<T>, a1: A) -> bool {
    exists|accs: Seq<A>|
        #![trigger accs.len()]
        accs.len() == s.len() + 1 && accs[0] == a0 && accs[s.len() as int] == a1 && (forall|k: int|
            0 <= k < s.len() ==> #[trigger] call_ensures(f, (accs[k], s[k]), accs[k + 1]))
}

/// An empty fold leaves the accumulator as it is.
proof fn lemma_folds_nil<A, T, F: Fn(A, T) -> A>(f: F, a0: A)
    ensures
        folds(f, a0, Seq::<T>::empty(), a0),
{
    let accs = seq![a0];
    assert(accs.len() == Seq::<T>::empty().len() + 1);
}

/// A fold of one element is one application of `f`.
proof fn lemma_folds_one<A, T, F: Fn(A, T) -> A>(f: F, a0: A, x: T, a1: A)
    requires
        call_ensures(f, (a0, x), a1),
    ensures
        folds(f, a0, seq![x], a1),
{
    let accs = seq![a0, a1];
    assert(accs.len() == seq![x].len() + 1);
    assert(call_ensures(f, (accs[0], seq![x][0]), accs[1]));
}

/// Law: a fold is determined by a deterministic reducer.  Where every
/// result `f` can return is the one `g` names, the chain of applications a
/// `folds` fact describes collapses to the sequence fold of `g`: each
/// accumulator slot of `fold_static` and `fold_dynamic` then holds exactly
/// the `g`-reduction of its part of the input.
pub proof fn lemma_folds_determined<A, T, F: Fn(A, T) -> A>(
    f: F,
    a0: A,
    s: Seq<T>,
    a1: A,
    g: spec_fn(A, T) -> A,
)
    requires
        folds(f, a0, s, a1),
        forall|a: A, t: T, r: A| #[trigger] call_ensures(f, (a, t), r) ==> r == g(a, t),
    ensures
        a1 == s.fold_left(a0, g),
    decreases s.len(),
{
    reveal_with_fuel(Seq::fold_left, 2);
    let accs = choose|accs: Seq<A>|
        #![trigger accs.len()]
        accs.len() == s.len() + 1 && accs[0] == a0 && accs[s.len() as int] == a1 && (forall|
            k: int,
        |
            0 <= k < s.len() ==> #[trigger] call_ensures(f, (accs[k], s[k]), accs[k + 1]));
    if s.len() != 0 {
        let front = s.drop_last();
        let mid = accs[s.len() - 1];
        let pre = accs.take(s.len() as int);
        assert(pre.len() == front.len() + 1);
        assert(pre[front.len() as int] == mid);
        assert forall|k: int| 0 <= k < front.len() implies #[trigger] call_ensures(
            f,
            (pre[k], front[k]),
            pre[k + 1],
        ) by {
            assert(call_ensures(f, (accs[k], s[k]), accs[k + 1]));
        };
        assert(folds(f, a0, front, mid));
        lemma_folds_determined(f, a0, front, mid, g);
        assert(call_ensures(f, (accs[s.len() - 1], s[s.len() - 1]), accs[s.len() as int]));
        assert(a1 == g(mid, s.last()));
    }
}

/// Appending one element to the input extends a fold by one application.
proof fn lemma_folds_snoc<A, T, F: Fn(A, T) -> A>(f: F, a0: A, s: Seq<T>, mid: A, x: T, a1: A)
    requires
        folds(f, a0, s, mid),
        call_ensures(f, (mid, x), a1),
    ensures
        folds(f, a0, s.push(x), a1),
{
    let accs = choose|accs: Seq<A>|
        #![trigger accs.len()]
        accs.len() == s.len() + 1 && accs[0] == a0 && accs[s.len() as int] == mid && (forall|
            k: int,
        |
            0 <= k < s.len() ==> #[trigger] call_ensures(f, (accs[k], s[k]), accs[k + 1]));
    let accs2 = accs.push(a1);
    assert(accs2.len() == s.push(x).len() + 1);
    assert forall|k: int| 0 <= k < s.push(x).len() implies #[trigger] call_ensures(
        f,
        (accs2[k], s.push(x)[k]),
        accs2[k + 1],
    ) by {
        if k < s.len() {
            assert(call_ensures(f, (accs[k], s[k]), accs[k + 1]));
            assert(accs2[k] == accs[k] && accs2[k + 1] == accs[k + 1]);
            assert(s.push(x)[k] == s[k]);
        } else {
            assert(accs2[k] == mid && s.push(x)[k] == x && accs2[k + 1] == a1);
        }
    };
}

impl Scope {
    /// Reduce `work` into one accumulator slot per participant: `accum` is
    /// reset to `worker_count() + 1` slots and slot `i` receives a fold of
    /// `f`, starting from `init`, over participant `i`'s static chunk of the
    /// input.  The caller combines the slots afterwards.
    pub fn fold_static<T: Copy, A: Copy, F: Fn(A, T) -> A>(
        &self,
        work: &Vec<T>,
        accum: &mut Vec<Aligned<A>>,
        init: A,
        f: F,
    )
        requires
            forall|a: A, j: int| 0 <= j < work.len() ==> #[trigger] call_requires(f, (a, work[j])),
        ensures
            final(accum).len() == self.worker_count() + 1,
            forall|i: int|
                0 <= i <= self.worker_count() ==> folds(
                    f,
                    init,
                    work@.subrange(
                        chunk_lo(0, work.len() as int, self.worker_count() + 1, i),
                        chunk_hi(0, work.len() as int, self.worker_count() + 1, i),
                    ),
                    #[trigger] final(accum)[i].0,
                ),
    {
        let ghost p = self.worker_count() + 1;
        let n = work.len();
        accum.clear();
        let mut i: usize = 0;
        loop
            invariant_except_break
                accum.len() == i,
            invariant
                n == work.len(),
                p == self.worker_count() + 1,
                i <= self.worker_count(),
                forall|a: A, j: int| 0 <= j < work.len() ==> #[trigger] call_requires(
                    f,
                    (a, work[j]),
                ),
                forall|k: int|
                    0 <= k < i ==> folds(
                        f,
                        init,
                        work@.subrange(
                            chunk_lo(0, n as int, p, k),
                            chunk_hi(0, n as int, p, k),
                        ),
                        #[trigger] accum[k].0,
                    ),
            ensures
                accum.len() == p,
                forall|k: int|
                    0 <= k < p ==> folds(
                        f,
                        init,
                        work@.subrange(
                            chunk_lo(0, n as int, p, k),
                            chunk_hi(0, n as int, p, k),
                        ),
                        #[trigger] accum[k].0,
                    ),
            decreases self.worker_count() - i,
        {
            proof {
                lemma_static_partition_exact(0, n as int, p);
            }
            let (lo, hi) = self.chunk_of(0, n, i);
            let mut acc = init;
            proof {
                lemma_folds_nil::<A, T, F>(f, init);
                assert(work@.subrange(lo as int, lo as int) =~= Seq::<T>::empty());
            }
            let mut j = lo;
            while j < hi
                invariant
                    n == work.len(),
                    p == self.worker_count() + 1,
                    lo == chunk_lo(0, n as int, p, i as int),
                    hi == chunk_hi(0, n as int, p, i as int),
                    lo <= j <= hi,
                    hi <= n,
                    forall|a: A, k: int| 0 <= k < work.len() ==> #[trigger] call_requires(
                        f,
                        (a, work[k]),
                    ),
                    folds(f, init, work@.subrange(lo as int, j as int), acc),
                decreases hi - j,
            {
                let v = work[j];
                let next = f(acc, v);
                proof {
                    lemma_folds_snoc(
                        f,
                        init,
                        work@.subrange(lo as int, j as int),
                        acc,
                        work@[j as int],
                        next,
                    );
                    assert(work@.subrange(lo as int, j + 1) =~= work@.subrange(
                        lo as int,
                        j as int,
                    ).push(work@[j as int]));
                }
                acc = next;
                j = j + 1;
            }
            accum.push(Aligned(acc));
            if i == self.worker_count_exec() {
                break;
            }
            i = i + 1;
        }
    }
}

/// The elements participant `t` claims when the elements of `s` are indexed
/// `0..s.len()` and iterated dynamically by `p` participants.
pub open spec fn dynamic_claim_elems<T>(s: Seq<T>, p: int, t: int) -> Seq<T>
    recommends
        1 <= p,
        0 <= t < p,
{
    dynamic_claims(0, s.len() as int, p, t).map_values(|idx: int| s[idx])
}

impl Scope {
    /// Reduce `work` into one accumulator slot per participant, claiming
    /// elements dynamically: `accum` is reset to `worker_count() + 1` slots
    /// and slot `t` receives a fold of `f`, starting from `init`, over the
    /// elements participant `t` claims (`dynamic_claim_elems`).  The caller
    /// combines the slots afterwards.
    pub fn fold_dynamic<T: Copy, A: Copy, F: Fn(A, T) -> A>(
        &self,
        work: &Vec<T>,
        accum: &mut Vec<Aligned<A>>,
        init: A,
        f: F,
    )
        requires
            forall|a: A, j: int| 0 <= j < work.len() ==> #[trigger] call_requires(f, (a, work[j])),
        ensures
            final(accum).len() == self.worker_count() + 1,
            forall|t: int|
                0 <= t <= self.worker_count() ==> folds(
                    f,
                    init,
                    dynamic_claim_elems(work@, self.worker_count() + 1, t),
                    #[trigger] final(accum)[t].0,
                ),
    {
        let n = work.len();
        let workers = self.worker_count_exec();
        let ghost p: int = workers + 1;
        let ghost elems0 = dynamic_claim_elems(work@, p, 0);
        accum.clear();
        // participant 0: its one-shot initial index, then the shared counter
        let mut acc = init;
        if n > 0 {
            let v = work[0];
            acc = f(acc, v);
            proof {
                assert(dynamic_claims(0, n as int, p, 0)[0] == 0);
                assert(elems0.len() == 1 + counter_claims_len(0, n as int, p));
                assert(elems0[0] == work@[0]);
                lemma_folds_one(f, init, work@[0], acc);
                assert(elems0.take(1) =~= seq![work@[0]]);
                assert(folds(f, init, elems0.take(1), acc));
            }
            let mut j = workers + 1;
            if j < n {
                while j < n
                    invariant
                        n == work.len(),
                        workers == self.worker_count(),
                        p == workers + 1,
                        elems0 == dynamic_claim_elems(work@, p, 0),
                        elems0.len() == 1 + n - p,
                        elems0[0] == work@[0],
                        forall|k: int|
                            1 <= k < elems0.len() ==> elems0[k] == work@[p + k - 1],
                        workers + 1 <= j <= n,
                        p < n,
                        forall|a: A, k: int|
                            0 <= k < work.len() ==> #[trigger] call_requires(f, (a, work[k])),
                        folds(f, init, elems0.take(1 + j - p), acc),
                    decreases n - j,
                {
                    let v = work[j];
                    let next = f(acc, v);
                    proof {
                        lemma_folds_snoc(
                            f,
                            init,
                            elems0.take(1 + j - p),
                            acc,
                            work@[j as int],
                            next,
                        );
                        assert(elems0.take(1 + (j + 1) - p) =~= elems0.take(1 + j - p).push(
                            work@[j as int],
                        ));
                    }
                    acc = next;
                    j = j + 1;
                }
                proof {
                    assert(elems0.take(1 + j - p) =~= elems0);
                    assert(folds(f, init, elems0, acc));
                }
            } else {
                proof {
                    assert(elems0.take(1) =~= elems0);
                    assert(folds(f, init, elems0, acc));
                }
            }
        } else {
            proof {
                lemma_folds_nil::<A, T, F>(f, init);
                assert(elems0 =~= Seq::<T>::empty());
                assert(folds(f, init, elems0, acc));
            }
        }
        assert(folds(f, init, elems0, acc));
        accum.push(Aligned(acc));
        // participants 1..=workers: the one-shot initial index each
        let mut t: usize = 1;
        while t <= workers
            invariant
                n == work.len(),
                workers == self.worker_count(),
                p == workers + 1,
                1 <= t <= workers + 1,
                workers < usize::MAX,
                accum.len() == t,
                forall|a: A, k: int|
                    0 <= k < work.len() ==> #[trigger] call_requires(f, (a, work[k])),
                forall|u: int|
                    0 <= u < t ==> folds(
                        f,
                        init,
                        dynamic_claim_elems(work@, p, u),
                        #[trigger] accum[u].0,
                    ),
            decreases workers + 1 - t,
        {
            let slot = if t < n {
                let v = work[t];
                f(init, v)
            } else {
                init
            };
            proof {
                let elems = dynamic_claim_elems(work@, p, t as int);
                if t < n {
                    assert(dynamic_claims(0, n as int, p, t as int) =~= seq![t as int]);
                    lemma_folds_one(f, init, work@[t as int], slot);
                    assert(elems =~= seq![work@[t as int]]);
                    assert(folds(f, init, elems, slot));
                } else {
                    assert(dynamic_claims(0, n as int, p, t as int) =~= Seq::<int>::empty());
                    lemma_folds_nil::<A, T, F>(f, init);
                    assert(elems =~= Seq::<T>::empty());
                    assert(folds(f, init, elems, slot));
                }
            }
            accum.push(Aligned(slot));
            t = t + 1;
        }
    }
}

} // verus!
