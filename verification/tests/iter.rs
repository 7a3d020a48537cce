use std::cell::RefCell;

use fork_join::{Aligned, Scope};

#[test]
fn for_each_static_works() {
    let length = 1_000;

    let mut counts = (0..length).map(|_| 0usize).collect::<Vec<_>>();

    let scope = Scope::new(3);
    scope.for_each_static(&mut counts, |count| count + 1);

    for count in counts {
        assert_eq!(count, 1);
    }
}

#[test]
fn fold_static_works() {
    let length = 1_000;

    let nums = (0..length).map(|index| index).collect::<Vec<usize>>();
    let mut sums: Vec<Aligned<usize>> = Vec::new();

    let scope = Scope::new(3);
    scope.fold_static(&nums, &mut sums, 0usize, |sum, num| sum + num);

    let sum: usize = sums.into_iter().map(|sum| sum.0).sum();

    assert_eq!(sum, length * (length - 1) / 2);
}

#[test]
fn for_each_dynamic_works() {
    let length = 1_000;

    let mut counts = (0..length).map(|_| 0usize).collect::<Vec<_>>();

    let scope = Scope::new(3);
    scope.for_each_dynamic(&mut counts, |count| count + 1);

    for count in counts {
        assert_eq!(count, 1);
    }
}

#[test]
fn fold_dynamic_works() {
    let length = 1_000;

    let nums = (0..length).map(|index| index).collect::<Vec<usize>>();
    let mut sums: Vec<Aligned<usize>> = Vec::new();

    let scope = Scope::new(3);
    scope.fold_dynamic(&nums, &mut sums, 0usize, |sum, num| sum + num);

    let sum: usize = sums.into_iter().map(|sum| sum.0).sum();

    assert_eq!(sum, length * (length - 1) / 2);
}

#[test]
fn for_each_covers_once_for_all_sizes() {
    for &length in &[0usize, 1, 7, 1000] {
        for &workers in &[1usize, 2, 10] {
            let scope = Scope::new(workers);

            let mut counts = vec![0usize; length];
            scope.for_each_static(&mut counts, |count| count + 1);
            assert!(counts.iter().all(|&count| count == 1));

            let mut counts = vec![0usize; length];
            scope.for_each_dynamic(&mut counts, |count| count + 1);
            assert!(counts.iter().all(|&count| count == 1));
        }
    }
}

#[test]
fn fold_sums_for_all_worker_counts() {
    let nums = (0..1000usize).collect::<Vec<_>>();
    for &workers in &[1usize, 2, 10] {
        let scope = Scope::new(workers);

        let mut sums: Vec<Aligned<usize>> = Vec::new();
        scope.fold_static(&nums, &mut sums, 0usize, |sum, num| sum + num);
        assert_eq!(sums.len(), workers + 1);
        assert_eq!(sums.iter().map(|sum| sum.0).sum::<usize>(), 499_500);

        let mut sums: Vec<Aligned<usize>> = Vec::new();
        scope.fold_dynamic(&nums, &mut sums, 0usize, |sum, num| sum + num);
        assert_eq!(sums.len(), workers + 1);
        assert_eq!(sums.iter().map(|sum| sum.0).sum::<usize>(), 499_500);
    }
}

#[test]
fn chunk_of_computes_rounded_up_chunks() {
    // 1000 indices over 3 participants: chunks of 334, the last one short
    let scope = Scope::new(2);
    assert_eq!(scope.chunk_of(0, 1000, 0), (0, 334));
    assert_eq!(scope.chunk_of(0, 1000, 1), (334, 668));
    assert_eq!(scope.chunk_of(0, 1000, 2), (668, 1000));
    // 1 index over 3 participants: the later chunks are empty
    assert_eq!(scope.chunk_of(0, 1, 0), (0, 1));
    assert_eq!(scope.chunk_of(0, 1, 1), (1, 1));
    assert_eq!(scope.chunk_of(0, 1, 2), (1, 1));
    // an empty range gives every participant an empty chunk
    assert_eq!(scope.chunk_of(5, 5, 0), (5, 5));
    // 7 indices over 3 participants: chunks of 3, 3 and 1
    assert_eq!(fork_join::iter::chunk_bounds(0, 7, 3, 0), (0, 3));
    assert_eq!(fork_join::iter::chunk_bounds(0, 7, 3, 1), (3, 6));
    assert_eq!(fork_join::iter::chunk_bounds(0, 7, 3, 2), (6, 7));
}

#[test]
fn iter_static_partitions_exactly() {
    for &length in &[0usize, 1, 7, 1000] {
        for &workers in &[1usize, 2, 10] {
            let scope = Scope::new(workers);
            let chunks = RefCell::new(Vec::new());
            scope.iter_static(0..length, |thread, lo, hi| {
                chunks.borrow_mut().push((thread, lo, hi));
            });
            let chunks = chunks.into_inner();
            assert_eq!(chunks.len(), workers + 1);
            // contiguous in index order, starting at 0 and ending at length
            let mut edge = 0;
            for (i, &(thread, lo, hi)) in chunks.iter().enumerate() {
                assert_eq!(thread, i);
                assert_eq!(lo, edge);
                assert!(lo <= hi);
                edge = hi;
            }
            assert_eq!(edge, length);
        }
    }
}

#[test]
fn iter_dynamic_claims_each_index_once() {
    for &length in &[0usize, 1, 7, 1000] {
        for &workers in &[1usize, 2, 10] {
            let scope = Scope::new(workers);
            let claimed = RefCell::new(Vec::new());
            scope.iter_dynamic(0..length, |_thread, index| {
                claimed.borrow_mut().push(index);
            });
            let mut claimed = claimed.into_inner();
            claimed.sort();
            assert_eq!(claimed, (0..length).collect::<Vec<_>>());
        }
    }
}
