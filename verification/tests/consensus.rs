//! Replicated counters, registers and clocks.
use dbstrike::crdt::{comes_before, GCounter, LwwRegister, PnCounter};
use dbstrike::hlc::{Hlc, Timestamp};

#[test]
fn gcounter_converges_regardless_of_order() {
    let mut a = GCounter::new();
    let mut b = GCounter::new();
    a.incr("n1", 3);
    b.incr("n2", 5);
    a.incr("n1", 1); // a: n1=4
    let mut a2 = a.clone();
    a.merge(&b);
    b.merge(&a2);
    a2.merge(&b);
    assert_eq!(a.value(), 9);
    assert_eq!(b.value(), 9);
}

#[test]
fn pncounter_inc_dec() {
    let mut c = PnCounter::new();
    c.incr("n1", 10);
    c.decr("n1", 3);
    assert_eq!(c.value(), 7);
}

#[test]
fn lww_resolves_deterministically() {
    let mut r1 = LwwRegister::new(b"a".to_vec(), 1, "n1");
    let r2 = LwwRegister::new(b"b".to_vec(), 2, "n2");
    r1.merge(&r2);
    assert_eq!(r1.value, b"b");
    // idempotent
    let r3 = r1.clone();
    r1.merge(&r3);
    assert_eq!(r1.value, b"b");
}

#[test]
fn monotonic() {
    let mut c = Hlc::new();
    let a = c.now(1_700_000_000_000);
    let b = c.now(1_700_000_000_000);
    assert!(b > a);
    // A physical clock that steps back does not take the timestamps back.
    let d = c.now(1_600_000_000_000);
    assert!(d > b);
    assert_eq!(d, Timestamp { physical: 1_700_000_000_000, logical: 2 });
}

#[test]
fn causal_merge_advances() {
    let mut node1 = Hlc::new();
    let mut node2 = Hlc::new();
    let t1 = node1.now(1_700_000_000_500);
    // node2 receives t1 and must produce something strictly greater
    let t2 = node2.update(t1, 1_700_000_000_000);
    assert!(t2 > t1);
    assert_eq!(t2, Timestamp { physical: 1_700_000_000_500, logical: 1 });
}

#[test]
fn a_register_keeps_the_later_node_on_a_tie() {
    let mut r = LwwRegister::new(b"x".to_vec(), 7, "n1");
    r.set(b"y".to_vec(), 7, "n2");
    assert_eq!(r.value, b"y");
    r.set(b"z".to_vec(), 7, "n1");
    assert_eq!(r.value, b"y");
    r.set(b"w".to_vec(), 6, "n9");
    assert_eq!(r.value, b"y");
    assert!(comes_before("n1", "n2"));
    assert!(!comes_before("n2", "n1"));
    assert!(comes_before("n", "n1"));
}

#[test]
fn merging_counters_twice_changes_nothing() {
    let mut a = PnCounter::new();
    let mut b = PnCounter::new();
    a.incr("x", 4);
    b.decr("y", 6);
    a.merge(&b);
    a.merge(&b);
    assert_eq!(a.value(), -2);
    b.merge(&a);
    assert_eq!(b.value(), a.value());
}

#[test]
fn registers_with_one_stamp_converge() {
    let mut a = LwwRegister::new(b"x".to_vec(), 7, "n1");
    let mut b = LwwRegister::new(b"y".to_vec(), 7, "n1");
    let first = a.clone();
    a.merge(&b);
    b.merge(&first);
    assert_eq!(a, b);
    assert_eq!(a.value, b"y");
    // A longer value beats its own prefix, and an older write is never taken.
    a.merge(&LwwRegister::new(b"yy".to_vec(), 7, "n1"));
    assert_eq!(a.value, b"yy");
    a.merge(&LwwRegister::new(b"zz".to_vec(), 6, "n1"));
    assert_eq!(a.value, b"yy");
}

#[test]
fn a_counter_goes_below_zero() {
    let mut c = PnCounter::new();
    c.decr("n", 3);
    assert_eq!(c.value(), -3);
    c.incr("m", 1);
    assert_eq!(c.value(), -2);
}
