use kcrdt::gcounter::GCounter;
use kcrdt::pncounter::PNCounter;
use kcrdt::vclock::{VClock, VClockOrdering};

#[test]
fn gcounter_counts_and_merges() {
    let node_a = String::from("a");
    let node_b = String::from("b");

    let mut a = GCounter::new(Some(&node_a));
    assert_eq!(a.get_value(), 0);
    a.increment(&node_a);
    a.increment(&node_a);
    assert_eq!(a.get_value(), 2);
    assert_eq!(a.get_count(&node_a), 2);
    assert_eq!(a.get_count(&node_b), 0);

    let mut b = GCounter::new(Some(&node_b));
    b.increment(&node_b);
    b.increment(&node_a);

    a.merge_from_state(&b);
    assert_eq!(a.get_count(&node_a), 2, "The larger count wins.");
    assert_eq!(a.get_count(&node_b), 1);
    assert_eq!(a.get_value(), 3);
}

#[test]
fn gcounter_merge_is_commutative_and_idempotent() {
    let node_a = String::from("a");
    let node_b = String::from("b");
    let mut a = GCounter::new(Some(&node_a));
    a.increment(&node_a);
    let mut b = GCounter::new(Some(&node_b));
    b.increment(&node_b);
    b.increment(&node_b);

    let mut ab = a.clone();
    ab.merge_from_state(&b);
    let mut ba = b.clone();
    ba.merge_from_state(&a);
    assert_eq!(ab.get_count(&node_a), ba.get_count(&node_a));
    assert_eq!(ab.get_count(&node_b), ba.get_count(&node_b));
    assert_eq!(ab.get_value(), ba.get_value());

    let before = ab.get_value();
    let snapshot = ab.clone();
    ab.merge_from_state(&snapshot);
    assert_eq!(ab.get_value(), before, "Merging a counter with itself changes nothing.");
}

#[test]
fn gcounter_replicas_converge() {
    let nodes = [String::from("a"), String::from("b"), String::from("c")];
    let mut replicas = vec![
        GCounter::new(Some(&nodes[0])),
        GCounter::new(Some(&nodes[1])),
        GCounter::new(Some(&nodes[2])),
    ];
    for (i, node) in nodes.iter().enumerate() {
        for _ in 0..100 {
            replicas[i].increment(node);
        }
    }
    // Pair-wise merges in different orders and repetitions.
    let r2 = replicas[2].clone();
    replicas[0].merge_from_state(&r2);
    let r0 = replicas[0].clone();
    replicas[1].merge_from_state(&r0);
    let r1 = replicas[1].clone();
    replicas[2].merge_from_state(&r1);
    let r2 = replicas[2].clone();
    replicas[0].merge_from_state(&r2);
    let r0 = replicas[0].clone();
    replicas[1].merge_from_state(&r0);
    let r1 = replicas[1].clone();
    replicas[2].merge_from_state(&r1);

    for r in &replicas {
        assert_eq!(
            r.get_value(),
            300,
            "Every replica converges to the total number of increments."
        );
    }
}

#[test]
fn pncounter_counts_both_ways() {
    let node = String::from("n");
    let mut c = PNCounter::new(Some(&node));
    assert_eq!(c.get_value(), 0);
    c.increment(&node);
    c.increment(&node);
    c.decrement(&node);
    assert_eq!(c.get_value(), 1);
    c.decrement(&node);
    c.decrement(&node);
    assert_eq!(c.get_value(), -1, "The value may go below zero.");
}

#[test]
fn pncounter_merge_takes_both_sides() {
    let node_a = String::from("a");
    let node_b = String::from("b");
    let mut a = PNCounter::new(Some(&node_a));
    a.increment(&node_a);
    a.increment(&node_a);
    let mut b = PNCounter::new(Some(&node_b));
    b.decrement(&node_b);

    a.merge_from_state(&b);
    assert_eq!(a.get_value(), 1);
    let mut b2 = b.clone();
    b2.merge_from_state(&a);
    assert_eq!(b2.get_value(), 1, "Merging from either side converges.");
}

#[test]
fn vclock_comparison_works() {
    let a = String::from("a");
    let b = String::from("b");
    let mut vclock_a = VClock::new(Some(&a));
    let mut vclock_b = VClock::new(Some(&b));
    // vclock_a: { a: 0 }, vclock_b: { b: 0 }. Should be EQUAL.
    assert_eq!(vclock_a.compare(&vclock_b), VClockOrdering::Equal);

    vclock_a.increment(&a);
    // vclock_a: { a: 1 }, vclock_b: { b: 0 }. Should be GREATER.
    assert_eq!(vclock_a.compare(&vclock_b), VClockOrdering::Greater);

    vclock_b.increment(&a);
    // vclock_a: { a: 1 }, vclock_b: { a: 1, b: 0 }. Should be EQUAL.
    assert_eq!(vclock_a.compare(&vclock_b), VClockOrdering::Equal);

    vclock_a.increment(&b);
    // vclock_a: { a: 1, b: 1 }, vclock_b: { a: 1, b: 0 }. Should be GREATER.
    assert_eq!(vclock_a.compare(&vclock_b), VClockOrdering::Greater);

    vclock_b.increment(&b);
    // vclock_a: { a: 1, b: 1 }, vclock_b: { a: 1, b: 1 }. Should be EQUAL.
    assert_eq!(vclock_a.compare(&vclock_b), VClockOrdering::Equal);

    vclock_b.increment(&b);
    // vclock_a: { a: 1, b: 1 }, vclock_b: { a: 1, b: 2 }. Should be LESS.
    assert_eq!(vclock_a.compare(&vclock_b), VClockOrdering::Less);

    vclock_a.increment(&a);
    // vclock_a: { a: 2, b: 1 }, vclock_b: { a: 1, b: 2 }. Should be CONCURRENT.
    assert_eq!(vclock_a.compare(&vclock_b), VClockOrdering::Concurrent);
}

#[test]
fn vclock_order_is_reflexive_and_symmetric_on_equals() {
    let a = String::from("a");
    let mut v = VClock::new(Some(&a));
    v.increment(&a);
    let w = v.clone();
    assert_eq!(v.compare(&w), VClockOrdering::Equal);
    assert_eq!(w.compare(&v), VClockOrdering::Equal);
}
