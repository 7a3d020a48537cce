use std::sync::atomic::{AtomicUsize, Ordering};

use fork_join::Scope;

#[test]
fn broadcast_works() {
    let parallelism = 10;

    let mut counts = (0..parallelism).map(|_| AtomicUsize::new(0)).collect::<Vec<_>>();

    let scope = Scope::new(parallelism - 1);
    scope.broadcast(|thread| {
        counts[thread].fetch_add(1, Ordering::Relaxed);
    });

    for count in &mut counts {
        assert_eq!(*count.get_mut(), 1);
    }
}

#[test]
fn sequential_broadcasts_do_not_mix() {
    let parallelism = 10;

    let mut counts = (0..parallelism).map(|_| AtomicUsize::new(0)).collect::<Vec<_>>();

    let scope = Scope::new(parallelism - 1);
    // the first broadcast is fully drained before the second starts, so the
    // second sees every entry already at 1
    scope.broadcast(|thread| {
        counts[thread].fetch_add(1, Ordering::Relaxed);
    });
    scope.broadcast(|thread| {
        assert_eq!(counts[thread].load(Ordering::Relaxed), 1);
        counts[thread].fetch_add(1, Ordering::Relaxed);
    });

    for count in &mut counts {
        assert_eq!(*count.get_mut(), 2);
    }
}

trait Ambiguous<A> {
    fn ambiguous() {}
}

impl<T> Ambiguous<()> for T {}

struct IsSend;

impl<T> Ambiguous<IsSend> for T where T: Send {}

struct IsSync;

impl<T> Ambiguous<IsSync> for T where T: Sync {}

#[test]
fn scope_is_neither_send_nor_sync() {
    let _ = <Scope as Ambiguous<_>>::ambiguous;
}
