//! The positive-negative counter.
//!
//! A counter that can also go down: one grow-only counter of increments
//! and one of decrements. Its value is the difference, computed in signed
//! 64-bit arithmetic so it never underflows.
use vstd::prelude::*;

verus! {

use crate::gcounter::GCounter;
use crate::gcounter::spec_max_u32;

/// A positive-negative counter: increments and decrements counted apart.
#[derive(Clone, Debug, PartialEq, Eq)]
pub struct PNCounter {
    /// The per-node increment counts.
    pub positive: GCounter,
    /// The per-node decrement counts.
    pub negative: GCounter,
}

impl PNCounter {
    /// The counter is well formed: both sides are.
    pub open spec fn wf(&self) -> bool {
        self.positive.wf() && self.negative.wf()
    }

    /// The value of the counter: all increments minus all decrements.
    pub open spec fn spec_value(&self) -> int {
        self.positive.spec_total() - self.negative.spec_total()
    }

    /// A fresh counter; with a node given, its counts start at zero on
    /// both sides.
    pub fn new(node_id: Option<&String>) -> (r: PNCounter)
        ensures
            r.wf(),
            r.spec_value() == 0,
            forall|k: Seq<char>| r.positive.spec_count(k) == 0,
            forall|k: Seq<char>| r.negative.spec_count(k) == 0,
    {
        let positive = GCounter::new(node_id);
        let negative = GCounter::new(node_id);
        proof {
            if node_id is Some {
                assert(positive.spec_entries().drop_last() =~= Seq::<(Seq<char>, u32)>::empty());
                assert(negative.spec_entries().drop_last() =~= Seq::<(Seq<char>, u32)>::empty());
            }
        }
        PNCounter { positive, negative }
    }

    /// The value of the counter, in signed 64-bit arithmetic.
    pub fn get_value(&self) -> (r: i64)
        requires
            self.positive.spec_total() <= u32::MAX,
            self.negative.spec_total() <= u32::MAX,
        ensures
            r == self.spec_value(),
    {
        let p = self.positive.get_value();
        let n = self.negative.get_value();
        (p as i64) - (n as i64)
    }

    /// Counts one increment for a node.
    pub fn increment(&mut self, node_id: &String)
        requires
            old(self).wf(),
            old(self).positive.spec_count(node_id@) < u32::MAX,
        ensures
            final(self).wf(),
            forall|k: Seq<char>|
                final(self).positive.spec_count(k) == if k == node_id@ {
                    (old(self).positive.spec_count(node_id@) + 1) as u32
                } else {
                    old(self).positive.spec_count(k)
                },
            final(self).negative == old(self).negative,
            final(self).spec_value() == old(self).spec_value() + 1,
    {
        self.positive.increment(node_id);
    }

    /// Counts one decrement for a node.
    pub fn decrement(&mut self, node_id: &String)
        requires
            old(self).wf(),
            old(self).negative.spec_count(node_id@) < u32::MAX,
        ensures
            final(self).wf(),
            forall|k: Seq<char>|
                final(self).negative.spec_count(k) == if k == node_id@ {
                    (old(self).negative.spec_count(node_id@) + 1) as u32
                } else {
                    old(self).negative.spec_count(k)
                },
            final(self).positive == old(self).positive,
            final(self).spec_value() == old(self).spec_value() - 1,
    {
        self.negative.increment(node_id);
    }

    /// Merges another counter's state into this one: on each side, every
    /// node's count becomes the larger of the two.
    pub fn merge_from_state(&mut self, other_counter: &PNCounter)
        requires
            old(self).wf(),
            other_counter.wf(),
        ensures
            final(self).wf(),
            forall|k: Seq<char>|
                final(self).positive.spec_count(k) == spec_max_u32(
                    old(self).positive.spec_count(k),
                    other_counter.positive.spec_count(k),
                ),
            forall|k: Seq<char>|
                final(self).negative.spec_count(k) == spec_max_u32(
                    old(self).negative.spec_count(k),
                    other_counter.negative.spec_count(k),
                ),
    {
        self.positive.merge_from_state(&other_counter.positive);
        self.negative.merge_from_state(&other_counter.negative);
    }
}

} // verus!
