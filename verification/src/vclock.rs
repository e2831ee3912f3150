//! The vector clock: per-node event counts under a partial order.
//!
//! A vector clock is a grow-only counter read logically: one clock precedes
//! another when every node's count is no larger. Two clocks that each hold
//! a count the other lacks are concurrent.
use vstd::prelude::*;

verus! {

use crate::gcounter::GCounter;
use crate::gcounter::lemma_contains_index;
use crate::gcounter::lemma_count_absent;
use crate::gcounter::lemma_count_at_index;
use crate::gcounter::spec_contains_key;
use crate::gcounter::spec_max_u32;

/// How two vector clocks relate: one precedes the other, they are equal,
/// or they are concurrent.
#[derive(Clone, Copy, Debug, PartialEq, Eq, Structural)]
pub enum VClockOrdering {
    /// Every count is no larger, and some count is smaller.
    Less,
    /// Every count agrees.
    Equal,
    /// Every count is no smaller, and some count is larger.
    Greater,
    /// Each clock holds a count larger than the other's.
    Concurrent,
}

/// One clock precedes another: every node's count is no larger, missing
/// entries counting as zero.
pub open spec fn spec_vclock_leq(a: GCounter, b: GCounter) -> bool {
    forall|k: Seq<char>| #![trigger a.spec_count(k)] a.spec_count(k) <= b.spec_count(k)
}

/// A vector clock over per-node event counts.
#[derive(Clone, Debug, PartialEq, Eq)]
pub struct VClock(pub GCounter);

/// Some node counts strictly more events in `a` than in `b`.
fn any_count_greater(a: &GCounter, b: &GCounter) -> (r: bool)
    requires
        a.wf(),
        b.wf(),
    ensures
        r <==> !spec_vclock_leq(*a, *b),
{
    let mut i: usize = 0;
    while i < a.entries.len()
        invariant
            a.wf(),
            b.wf(),
            i <= a.entries@.len(),
            forall|x: int|
                0 <= x < i ==> a.spec_entries()[x].1 <= b.spec_count(a.spec_entries()[x].0),
        decreases a.entries@.len() - i,
    {
        let cnt = a.entries[i].1;
        let other = b.get_count(&a.entries[i].0);
        if cnt > other {
            proof {
                lemma_count_at_index(a.spec_entries(), i as int);
                assert(a.spec_count(a.spec_entries()[i as int].0) > b.spec_count(
                    a.spec_entries()[i as int].0,
                ));
            }
            return true;
        }
        i = i + 1;
    }
    proof {
        assert forall|k: Seq<char>| #![trigger a.spec_count(k)]
            a.spec_count(k) <= b.spec_count(k) by {
            if a.spec_count(k) != 0 {
                if !spec_contains_key(a.spec_entries(), k) {
                    lemma_count_absent(a.spec_entries(), k);
                }
                lemma_contains_index(a.spec_entries(), k);
                let x = choose|x: int|
                    0 <= x < a.spec_entries().len() && a.spec_entries()[x].0 == k;
                lemma_count_at_index(a.spec_entries(), x);
            }
        }
    }
    false
}

impl VClock {
    /// The clock is well formed: no two entries share a node.
    pub open spec fn wf(&self) -> bool {
        self.0.wf()
    }

    /// The event count of a node; zero when the node has no entry.
    pub open spec fn spec_count(&self, key: Seq<char>) -> u32 {
        self.0.spec_count(key)
    }

    /// A fresh clock; with a node given, its count starts at zero.
    pub fn new(node_id: Option<&String>) -> (r: VClock)
        ensures
            r.wf(),
            forall|k: Seq<char>| r.spec_count(k) == 0,
    {
        VClock(GCounter::new(node_id))
    }

    /// Advances a node's count by one.
    pub fn increment(&mut self, node_id: &String)
        requires
            old(self).wf(),
            old(self).spec_count(node_id@) < u32::MAX,
        ensures
            final(self).wf(),
            forall|k: Seq<char>|
                final(self).spec_count(k) == if k == node_id@ {
                    (old(self).spec_count(node_id@) + 1) as u32
                } else {
                    old(self).spec_count(k)
                },
    {
        self.0.increment(node_id);
    }

    /// Merges another clock into this one: every node's count becomes the
    /// larger of the two.
    pub fn merge(&mut self, other: &VClock)
        requires
            old(self).wf(),
            other.wf(),
        ensures
            final(self).wf(),
            forall|k: Seq<char>|
                final(self).spec_count(k) == spec_max_u32(
                    old(self).spec_count(k),
                    other.spec_count(k),
                ),
    {
        self.0.merge_from_state(&other.0);
    }

    /// How this clock relates to another: it precedes, follows, equals, or
    /// is concurrent with the other, by comparing every node's count.
    pub fn compare(&self, other: &VClock) -> (r: VClockOrdering)
        requires
            self.wf(),
            other.wf(),
        ensures
            r == VClockOrdering::Equal <==> (spec_vclock_leq(self.0, other.0) && spec_vclock_leq(
                other.0,
                self.0,
            )),
            r == VClockOrdering::Less <==> (spec_vclock_leq(self.0, other.0)
                && !spec_vclock_leq(other.0, self.0)),
            r == VClockOrdering::Greater <==> (!spec_vclock_leq(self.0, other.0)
                && spec_vclock_leq(other.0, self.0)),
            r == VClockOrdering::Concurrent <==> (!spec_vclock_leq(self.0, other.0)
                && !spec_vclock_leq(other.0, self.0)),
    {
        let self_leq_other = !any_count_greater(&self.0, &other.0);
        let other_leq_self = !any_count_greater(&other.0, &self.0);
        if self_leq_other && other_leq_self {
            VClockOrdering::Equal
        } else if self_leq_other {
            VClockOrdering::Less
        } else if other_leq_self {
            VClockOrdering::Greater
        } else {
            VClockOrdering::Concurrent
        }
    }
}

/// The order on vector clocks is reflexive.
pub proof fn lemma_vclock_reflexive(a: GCounter)
    ensures
        spec_vclock_leq(a, a),
{
}

/// The order on vector clocks is transitive.
pub proof fn lemma_vclock_transitive(a: GCounter, b: GCounter, c: GCounter)
    requires
        spec_vclock_leq(a, b),
        spec_vclock_leq(b, c),
    ensures
        spec_vclock_leq(a, c),
{
    assert forall|k: Seq<char>| #![trigger a.spec_count(k)]
        a.spec_count(k) <= c.spec_count(k) by {
        assert(a.spec_count(k) <= b.spec_count(k));
        assert(b.spec_count(k) <= c.spec_count(k));
    }
}

/// The order on vector clocks is antisymmetric: two clocks that precede
/// each other count the same events for every node.
pub proof fn lemma_vclock_antisymmetric(a: GCounter, b: GCounter)
    requires
        spec_vclock_leq(a, b),
        spec_vclock_leq(b, a),
    ensures
        forall|k: Seq<char>| #![trigger a.spec_count(k)] a.spec_count(k) == b.spec_count(k),
{
    assert forall|k: Seq<char>| #![trigger a.spec_count(k)]
        a.spec_count(k) == b.spec_count(k) by {
        assert(a.spec_count(k) <= b.spec_count(k));
        assert(b.spec_count(k) <= a.spec_count(k));
    }
}

} // verus!
