//! The last-write-wins register.
//!
//! A register pairs a value with the timestamp of its last update. Merging
//! two registers keeps the one with the larger timestamp; a tie on
//! timestamps is broken by the larger node identifier, so that any two
//! replicas that saw the same updates agree, whatever the order.
use vstd::prelude::*;

verus! {

use crate::serialization::Serialize;
use crate::serialization::Deserialize;
use crate::timestamp::Timestamp;
use crate::uid::UID;

/// A last-write-wins register: a value and the timestamp of its last
/// update.
#[derive(Clone, Debug, PartialEq, Eq)]
pub struct LWWRegister<T> {
    /// The timestamp of the last update.
    pub ts: Timestamp,
    /// The value of the register.
    pub value: T,
}

/// The update `a` loses to the update `b`: its timestamp is smaller, or
/// the timestamps tie and its node identifier is smaller.
pub open spec fn spec_lww_less<T>(a: (LWWRegister<T>, UID), b: (LWWRegister<T>, UID)) -> bool {
    a.0.ts.0 < b.0.ts.0 || (a.0.ts.0 == b.0.ts.0 && a.1.0 < b.1.0)
}

/// The winner among two updates: the one with the larger timestamp, ties
/// broken by the larger node identifier, and the left one on a full tie.
pub open spec fn spec_lww_join<T>(a: (LWWRegister<T>, UID), b: (LWWRegister<T>, UID)) -> (
    LWWRegister<T>,
    UID,
) {
    if spec_lww_less(a, b) {
        b
    } else {
        a
    }
}

/// Joining an update with itself changes nothing.
pub proof fn lemma_lww_join_idempotent<T>(a: (LWWRegister<T>, UID))
    ensures
        spec_lww_join(a, a) == a,
{
}

/// Joining two updates with distinct timestamp-and-identifier keys gives
/// the same winner from either side.
pub proof fn lemma_lww_join_commutative<T>(a: (LWWRegister<T>, UID), b: (LWWRegister<T>, UID))
    requires
        a.0.ts.0 != b.0.ts.0 || a.1.0 != b.1.0,
    ensures
        spec_lww_join(a, b) == spec_lww_join(b, a),
{
}

/// Joining updates in any grouping gives the same winner.
pub proof fn lemma_lww_join_associative<T>(
    a: (LWWRegister<T>, UID),
    b: (LWWRegister<T>, UID),
    c: (LWWRegister<T>, UID),
)
    ensures
        spec_lww_join(spec_lww_join(a, b), c) == spec_lww_join(a, spec_lww_join(b, c)),
{
}

/// A replica's register after it merged a sequence of updates, one at a
/// time, in the order given.
pub open spec fn spec_lww_apply<T>(
    state: (LWWRegister<T>, UID),
    updates: Seq<(LWWRegister<T>, UID)>,
) -> (LWWRegister<T>, UID)
    decreases updates.len(),
{
    if updates.len() == 0 {
        state
    } else {
        spec_lww_apply(spec_lww_join(state, updates.first()), updates.drop_first())
    }
}

/// No two updates of the collection share a timestamp-and-identifier key.
pub open spec fn spec_distinct_update_keys<T>(s: Seq<(LWWRegister<T>, UID)>) -> bool {
    forall|i: int, j: int|
        0 <= i < j < s.len() ==> (s[i].0.ts.0 != s[j].0.ts.0 || s[i].1.0 != s[j].1.0)
}

/// The result of applying a sequence of updates is the initial state or
/// one of the updates.
proof fn lemma_lww_apply_in<T>(state: (LWWRegister<T>, UID), updates: Seq<(LWWRegister<T>, UID)>)
    ensures
        spec_lww_apply(state, updates) == state || updates.contains(spec_lww_apply(state, updates)),
    decreases updates.len(),
{
    if updates.len() > 0 {
        let next = spec_lww_join(state, updates.first());
        lemma_lww_apply_in(next, updates.drop_first());
        let m = spec_lww_apply(state, updates);
        if m == next {
            if next == updates.first() {
                assert(updates[0] == m);
            }
        } else {
            let i = choose|i: int|
                0 <= i < updates.drop_first().len() && updates.drop_first()[i] == m;
            assert(updates[i + 1] == m);
        }
    }
}

/// The result of applying a sequence of updates loses neither to the
/// initial state nor to any update.
proof fn lemma_lww_apply_geq<T>(state: (LWWRegister<T>, UID), updates: Seq<(LWWRegister<T>, UID)>)
    ensures
        !spec_lww_less(spec_lww_apply(state, updates), state),
        forall|i: int|
            0 <= i < updates.len() ==> !spec_lww_less(
                spec_lww_apply(state, updates),
                #[trigger] updates[i],
            ),
    decreases updates.len(),
{
    if updates.len() > 0 {
        let next = spec_lww_join(state, updates.first());
        lemma_lww_apply_geq(next, updates.drop_first());
        assert forall|i: int|
            0 <= i < updates.len() implies !spec_lww_less(
            spec_lww_apply(state, updates),
            #[trigger] updates[i],
        ) by {
            if i > 0 {
                assert(updates.drop_first()[i - 1] == updates[i]);
            }
        }
    }
}

/// Two replicas that saw the same set of updates hold the same register,
/// whatever the order the updates arrived in: the winner is the update
/// with the largest timestamp-and-identifier key, wherever it stands.
pub proof fn lemma_lww_convergence<T>(
    init1: (LWWRegister<T>, UID),
    updates1: Seq<(LWWRegister<T>, UID)>,
    init2: (LWWRegister<T>, UID),
    updates2: Seq<(LWWRegister<T>, UID)>,
)
    requires
        (seq![init1] + updates1).to_multiset() == (seq![init2] + updates2).to_multiset(),
        spec_distinct_update_keys(seq![init1] + updates1),
    ensures
        spec_lww_apply(init1, updates1) == spec_lww_apply(init2, updates2),
{
    broadcast use vstd::seq_lib::group_to_multiset_ensures;

    let s1 = seq![init1] + updates1;
    let s2 = seq![init2] + updates2;
    let m1 = spec_lww_apply(init1, updates1);
    let m2 = spec_lww_apply(init2, updates2);
    lemma_lww_apply_in(init1, updates1);
    lemma_lww_apply_in(init2, updates2);
    lemma_lww_apply_geq(init1, updates1);
    lemma_lww_apply_geq(init2, updates2);
    // Each result stands in its own collection, hence in the other's too.
    assert(s1.contains(m1)) by {
        if m1 == init1 {
            assert(s1[0] == m1);
        } else {
            let i = choose|i: int| 0 <= i < updates1.len() && updates1[i] == m1;
            assert(s1[i + 1] == m1);
        }
    }
    assert(s2.contains(m2)) by {
        if m2 == init2 {
            assert(s2[0] == m2);
        } else {
            let i = choose|i: int| 0 <= i < updates2.len() && updates2[i] == m2;
            assert(s2[i + 1] == m2);
        }
    }
    assert(s1.to_multiset().count(m1) > 0);
    assert(s2.to_multiset().count(m2) > 0);
    assert(s2.to_multiset().count(m1) > 0);
    assert(s1.to_multiset().count(m2) > 0);
    assert(s2.contains(m1));
    assert(s1.contains(m2));
    // Each result loses to nothing in the other's collection.
    assert(!spec_lww_less(m2, m1)) by {
        let j = choose|j: int| 0 <= j < s2.len() && s2[j] == m1;
        if j == 0 {
            assert(m1 == init2);
        } else {
            assert(updates2[j - 1] == m1);
        }
    }
    assert(!spec_lww_less(m1, m2)) by {
        let j = choose|j: int| 0 <= j < s1.len() && s1[j] == m2;
        if j == 0 {
            assert(m2 == init1);
        } else {
            assert(updates1[j - 1] == m2);
        }
    }
    // Neither loses to the other, so they share the key; distinct keys in
    // one collection then force them to be the same update.
    if m1 != m2 {
        let i = choose|i: int| 0 <= i < s1.len() && s1[i] == m1;
        let j = choose|j: int| 0 <= j < s1.len() && s1[j] == m2;
        assert(i != j);
        assert(s1[i].0.ts.0 == s1[j].0.ts.0 && s1[i].1.0 == s1[j].1.0);
        assert(false);
    }
}

impl<T> LWWRegister<T> {
    /// A register holding the given value, stamped with the given
    /// timestamp.
    pub fn new(ts: Timestamp, value: T) -> (r: LWWRegister<T>)
        ensures
            r.ts == ts,
            r.value == value,
    {
        LWWRegister { ts, value }
    }

    /// The timestamp of the register's last update.
    pub fn get_timestamp(&self) -> (r: Timestamp)
        ensures
            r == self.ts,
    {
        self.ts
    }

    /// Replaces the value with one stamped strictly later; the caller
    /// sources the timestamp from its own hybrid logical clock.
    pub fn update_value(&mut self, new_ts: Timestamp, new_value: T)
        requires
            old(self).ts.0 < new_ts.0,
        ensures
            final(self).ts == new_ts,
            final(self).value == new_value,
    {
        self.ts = new_ts;
        self.value = new_value;
    }
}

impl<T: Copy> LWWRegister<T> {
    /// A copy of the value of the register.
    pub fn get_value(&self) -> (r: T)
        ensures
            r == self.value,
    {
        self.value
    }

    /// Merges another replica's register into this one: the register with
    /// the larger timestamp wins, ties broken by the larger node
    /// identifier.
    ///
    /// * `other` - the register to merge in.
    /// * `nid` - the identifier of this node.
    /// * `other_id` - the identifier of the other node.
    pub fn merge(&mut self, other: &LWWRegister<T>, nid: UID, other_id: UID)
        ensures
            *final(self) == spec_lww_join((*old(self), nid), (*other, other_id)).0,
    {
        if self.ts.0 < other.ts.0 || (self.ts.0 == other.ts.0 && nid.0 < other_id.0) {
            self.value = other.value;
            self.ts = other.ts;
        }
    }
}

impl<T: Serialize> Serialize for LWWRegister<T> {
    open spec fn spec_size() -> nat {
        8 + T::spec_size()
    }

    open spec fn spec_serialize(&self) -> Seq<u8> {
        self.ts.spec_serialize() + self.value.spec_serialize()
    }

    proof fn lemma_serialized_len(&self) {
        self.ts.lemma_serialized_len();
        self.value.lemma_serialized_len();
    }

    fn serialize(&self) -> (r: Vec<u8>) {
        let mut out = self.ts.serialize();
        let mut tail = self.value.serialize();
        out.append(&mut tail);
        out
    }
}

impl<T: Deserialize> Deserialize for LWWRegister<T> {
    open spec fn spec_deserialize(encoded: Seq<u8>) -> LWWRegister<T> {
        LWWRegister {
            ts: Timestamp::spec_deserialize(encoded.take(8)),
            value: T::spec_deserialize(encoded.skip(8)),
        }
    }

    proof fn lemma_round_trip(&self) {
        self.ts.lemma_serialized_len();
        self.value.lemma_serialized_len();
        self.ts.lemma_round_trip();
        self.value.lemma_round_trip();
        assert(self.spec_serialize().take(8) =~= self.ts.spec_serialize());
        assert(self.spec_serialize().skip(8) =~= self.value.spec_serialize());
    }

    fn deserialize(encoded: &[u8]) -> (r: LWWRegister<T>) {
        let ts = Timestamp::deserialize(&encoded[0..8]);
        let value = T::deserialize(&encoded[8..encoded.len()]);
        proof {
            assert(encoded@.subrange(0, 8) =~= encoded@.take(8));
            assert(encoded@.subrange(8, encoded@.len() as int) =~= encoded@.skip(8));
        }
        LWWRegister { ts, value }
    }
}

} // verus!
