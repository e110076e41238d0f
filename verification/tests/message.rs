use meerkat::new_runtime::message::{BasisStamp, Iteration, Timestamp, TxId, TxPriority};
use meerkat::new_runtime::service::{ReactiveName, ReactiveRef};

fn r(service: u64, name: &str) -> ReactiveRef {
    ReactiveRef { service, name: ReactiveName(name.to_string()) }
}

fn stamp(entries: &[(u64, &str, u64)]) -> BasisStamp {
    let mut b = BasisStamp::empty();
    for (s, n, i) in entries {
        b.add(r(*s, n), Iteration(*i));
    }
    b
}

#[test]
fn add_keeps_the_larger_iteration() {
    let b = stamp(&[(1, "x", 3), (1, "x", 2), (2, "y", 1)]);
    assert_eq!(b.latest(&r(1, "x")).0, 3);
    assert_eq!(b.latest(&r(2, "y")).0, 1);
    assert_eq!(b.latest(&r(3, "z")).0, 0);
}

#[test]
fn merging_is_commutative_and_takes_the_larger() {
    let a = stamp(&[(1, "x", 3), (2, "y", 1)]);
    let b = stamp(&[(1, "x", 1), (3, "z", 4)]);
    let mut ab = a.copy();
    ab.merge_from(&b);
    let mut ba = b.copy();
    ba.merge_from(&a);
    for addr in [r(1, "x"), r(2, "y"), r(3, "z")] {
        assert_eq!(ab.latest(&addr).0, ba.latest(&addr).0);
    }
    assert_eq!(ab.latest(&r(1, "x")).0, 3);
    assert_eq!(ab.latest(&r(3, "z")).0, 4);
    let mut aa = a.copy();
    aa.merge_from(&a);
    assert_eq!(aa.latest(&r(1, "x")).0, 3);
}

#[test]
fn precedence_on_roots() {
    let older = stamp(&[(1, "x", 1)]);
    let newer = stamp(&[(1, "x", 2), (2, "y", 7)]);
    let roots = vec![r(1, "x")];
    assert!(older.prec_eq_wrt_roots(&newer, &roots));
    assert!(!newer.prec_eq_wrt_roots(&older, &roots));
    assert!(BasisStamp::empty().prec_eq_wrt_roots(&older, &roots));
    assert!(newer.prec_eq_wrt_roots(&newer, &vec![r(1, "x"), r(2, "y")]));
    assert!(older.prec_eq_wrt_roots(&older, &vec![]));
}

#[test]
fn without_local_keeps_foreign_and_kept_roots() {
    let b = stamp(&[(1, "x", 1), (1, "e", 2), (2, "y", 3)]);
    let w = b.without_local(1, &vec![ReactiveName("e".to_string())]);
    assert_eq!(w.latest(&r(1, "x")).0, 0);
    assert_eq!(w.latest(&r(1, "e")).0, 2);
    assert_eq!(w.latest(&r(2, "y")).0, 3);
}

#[test]
fn transactions_are_ordered_by_priority_time_and_manager() {
    let t = |p: TxPriority, ts: u64, m: &str| TxId { priority: p, timestamp: Timestamp { epoch_micros: ts }, manager: m.to_string() };
    assert!(t(TxPriority::High, 9, "b").precedes(&t(TxPriority::Low, 1, "a")));
    assert!(t(TxPriority::High, 1, "b").precedes(&t(TxPriority::High, 2, "a")));
    assert!(t(TxPriority::High, 1, "a").precedes(&t(TxPriority::High, 1, "b")));
    assert!(!t(TxPriority::High, 1, "a").precedes(&t(TxPriority::High, 1, "a")));
    assert!(t(TxPriority::Low, 1, "a").same(&t(TxPriority::Low, 1, "a")));
}
