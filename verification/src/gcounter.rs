//! The grow-only counter.
//!
//! A counter keeps one non-negative count per node, never removes an
//! entry, and merges with another counter by taking the larger count for
//! every node: the join of a semilattice, so replicas converge whatever
//! the order of merges. Its value is the sum of all counts.
use vstd::prelude::*;

verus! {

/// The per-node entries as mathematical pairs of key and count.
pub open spec fn spec_entry_views(entries: Seq<(String, u32)>) -> Seq<(Seq<char>, u32)> {
    entries.map_values(|e: (String, u32)| (e.0@, e.1))
}

/// The count recorded for a key: the count of its last entry, or zero
/// when no entry carries the key.
pub open spec fn spec_count_of(s: Seq<(Seq<char>, u32)>, key: Seq<char>) -> u32
    decreases s.len(),
{
    if s.len() == 0 {
        0u32
    } else if s.last().0 == key {
        s.last().1
    } else {
        spec_count_of(s.drop_last(), key)
    }
}

/// Some entry carries the key.
pub open spec fn spec_contains_key(s: Seq<(Seq<char>, u32)>, key: Seq<char>) -> bool
    decreases s.len(),
{
    if s.len() == 0 {
        false
    } else {
        s.last().0 == key || spec_contains_key(s.drop_last(), key)
    }
}

/// The sum of all counts.
pub open spec fn spec_sum(s: Seq<(Seq<char>, u32)>) -> int
    decreases s.len(),
{
    if s.len() == 0 {
        0
    } else {
        spec_sum(s.drop_last()) + s.last().1
    }
}

/// The larger of two counts.
pub open spec fn spec_max_u32(a: u32, b: u32) -> u32 {
    if a >= b {
        a
    } else {
        b
    }
}

/// No two entries carry the same key.
pub open spec fn spec_distinct_keys(s: Seq<(Seq<char>, u32)>) -> bool {
    forall|i: int, j: int| 0 <= i < j < s.len() ==> s[i].0 != s[j].0
}

/// A key without an entry counts as zero.
pub proof fn lemma_count_absent(s: Seq<(Seq<char>, u32)>, key: Seq<char>)
    requires
        !spec_contains_key(s, key),
    ensures
        spec_count_of(s, key) == 0,
    decreases s.len(),
{
    if s.len() > 0 {
        lemma_count_absent(s.drop_last(), key);
    }
}

/// A key is carried by some entry exactly when some index holds it.
pub proof fn lemma_contains_index(s: Seq<(Seq<char>, u32)>, key: Seq<char>)
    ensures
        spec_contains_key(s, key) <==> exists|i: int| 0 <= i < s.len() && s[i].0 == key,
    decreases s.len(),
{
    if s.len() > 0 {
        lemma_contains_index(s.drop_last(), key);
        if s.last().0 == key {
            assert(s[s.len() - 1].0 == key);
        }
        if exists|i: int| 0 <= i < s.len() - 1 && s.drop_last()[i].0 == key {
            let i = choose|i: int| 0 <= i < s.len() - 1 && s.drop_last()[i].0 == key;
            assert(s[i].0 == key);
        }
        if exists|i: int| 0 <= i < s.len() && s[i].0 == key {
            let i = choose|i: int| 0 <= i < s.len() && s[i].0 == key;
            if i < s.len() - 1 {
                assert(s.drop_last()[i].0 == key);
            }
        }
    }
}

/// With distinct keys, the count recorded for an entry's key is that
/// entry's count.
pub proof fn lemma_count_at_index(s: Seq<(Seq<char>, u32)>, i: int)
    requires
        spec_distinct_keys(s),
        0 <= i < s.len(),
    ensures
        spec_count_of(s, s[i].0) == s[i].1,
    decreases s.len(),
{
    if i == s.len() - 1 {
    } else {
        assert(s.last().0 != s[i].0);
        assert(spec_distinct_keys(s.drop_last())) by {
            assert(forall|x: int, y: int|
                0 <= x < y < s.len() - 1 ==> s.drop_last()[x].0 == s[x].0 && s.drop_last()[y].0
                    == s[y].0);
        }
        assert(s.drop_last()[i] == s[i]);
        lemma_count_at_index(s.drop_last(), i);
    }
}

/// Replacing the count at one index changes the count recorded for that
/// entry's key and no other.
pub proof fn lemma_count_update(s: Seq<(Seq<char>, u32)>, i: int, c: u32, key: Seq<char>)
    requires
        spec_distinct_keys(s),
        0 <= i < s.len(),
    ensures
        spec_count_of(s.update(i, (s[i].0, c)), key) == if key == s[i].0 {
            c
        } else {
            spec_count_of(s, key)
        },
    decreases s.len(),
{
    let t = s.update(i, (s[i].0, c));
    if i == s.len() - 1 {
        assert(t.last() == (s[i].0, c));
        assert(t.drop_last() =~= s.drop_last());
        if key != s[i].0 {
        }
    } else {
        assert(t.last() == s.last());
        assert(t.drop_last() =~= s.drop_last().update(i, (s[i].0, c)));
        assert(spec_distinct_keys(s.drop_last())) by {
            assert(forall|x: int, y: int|
                0 <= x < y < s.len() - 1 ==> s.drop_last()[x].0 == s[x].0 && s.drop_last()[y].0
                    == s[y].0);
        }
        assert(s.drop_last()[i] == s[i]);
        lemma_count_update(s.drop_last(), i, c, key);
        assert(s.last().0 != s[i].0);
    }
}

/// Replacing the count at one index changes the sum by the difference.
pub proof fn lemma_sum_update(s: Seq<(Seq<char>, u32)>, i: int, c: u32)
    requires
        0 <= i < s.len(),
    ensures
        spec_sum(s.update(i, (s[i].0, c))) == spec_sum(s) - s[i].1 + c,
    decreases s.len(),
{
    let t = s.update(i, (s[i].0, c));
    if i == s.len() - 1 {
        assert(t.drop_last() =~= s.drop_last());
    } else {
        assert(t.last() == s.last());
        assert(t.drop_last() =~= s.drop_last().update(i, (s[i].0, c)));
        assert(s.drop_last()[i] == s[i]);
        lemma_sum_update(s.drop_last(), i, c);
    }
}

/// The sum of a prefix never exceeds the sum of the whole.
pub proof fn lemma_sum_take(s: Seq<(Seq<char>, u32)>, i: int)
    requires
        0 <= i <= s.len(),
    ensures
        spec_sum(s.take(i)) <= spec_sum(s),
    decreases s.len(),
{
    if i == s.len() {
        assert(s.take(i) =~= s);
    } else {
        assert(s.take(i) =~= s.drop_last().take(i));
        lemma_sum_take(s.drop_last(), i);
    }
}

/// Dropping one entry clears the count recorded for its key and keeps
/// every other count, when keys are distinct.
pub proof fn lemma_count_remove(s: Seq<(Seq<char>, u32)>, i: int, key: Seq<char>)
    requires
        spec_distinct_keys(s),
        0 <= i < s.len(),
    ensures
        spec_count_of(s.remove(i), key) == if key == s[i].0 {
            0u32
        } else {
            spec_count_of(s, key)
        },
    decreases s.len(),
{
    let t = s.remove(i);
    if i == s.len() - 1 {
        assert(t =~= s.drop_last());
        if key == s[i].0 {
            lemma_contains_index(s.drop_last(), key);
            if spec_contains_key(s.drop_last(), key) {
                let x = choose|x: int|
                    0 <= x < s.drop_last().len() && s.drop_last()[x].0 == key;
                assert(s[x].0 == s[i].0);
            }
            lemma_count_absent(s.drop_last(), key);
        }
    } else {
        assert(t.last() == s.last());
        assert(t.drop_last() =~= s.drop_last().remove(i));
        assert(spec_distinct_keys(s.drop_last())) by {
            assert(forall|x: int, y: int|
                0 <= x < y < s.len() - 1 ==> s.drop_last()[x].0 == s[x].0 && s.drop_last()[y].0
                    == s[y].0);
        }
        assert(s.drop_last()[i] == s[i]);
        lemma_count_remove(s.drop_last(), i, key);
        assert(s.last().0 != s[i].0);
    }
}

/// Dropping one entry lowers the sum by that entry's count.
pub proof fn lemma_sum_remove(s: Seq<(Seq<char>, u32)>, i: int)
    requires
        0 <= i < s.len(),
    ensures
        spec_sum(s.remove(i)) == spec_sum(s) - s[i].1,
    decreases s.len(),
{
    let t = s.remove(i);
    if i == s.len() - 1 {
        assert(t =~= s.drop_last());
    } else {
        assert(t.last() == s.last());
        assert(t.drop_last() =~= s.drop_last().remove(i));
        assert(s.drop_last()[i] == s[i]);
        lemma_sum_remove(s.drop_last(), i);
    }
}

/// Two collections of entries with distinct keys that record the same
/// count for every key have the same sum: the value is a function of the
/// counts alone.
pub proof fn lemma_sum_determined_by_counts(s: Seq<(Seq<char>, u32)>, t: Seq<(Seq<char>, u32)>)
    requires
        spec_distinct_keys(s),
        spec_distinct_keys(t),
        forall|k: Seq<char>| #![trigger spec_count_of(s, k)]
            spec_count_of(s, k) == spec_count_of(t, k),
    ensures
        spec_sum(s) == spec_sum(t),
    decreases s.len(), t.len(),
{
    if s.len() == 0 {
        if t.len() > 0 {
            // Every count of `t` is zero, so its last entry counts zero and
            // the rest still matches.
            let k0 = t.last().0;
            assert(spec_count_of(t, k0) == t.last().1);
            assert(spec_count_of(s, k0) == 0);
            assert(spec_distinct_keys(t.drop_last())) by {
                assert(forall|x: int, y: int|
                    0 <= x < y < t.len() - 1 ==> t.drop_last()[x].0 == t[x].0
                        && t.drop_last()[y].0 == t[y].0);
            }
            assert forall|k: Seq<char>| #![trigger spec_count_of(s, k)]
                spec_count_of(s, k) == spec_count_of(t.drop_last(), k) by {
                if k == k0 {
                    lemma_contains_index(t.drop_last(), k0);
                    if spec_contains_key(t.drop_last(), k0) {
                        let x = choose|x: int|
                            0 <= x < t.drop_last().len() && t.drop_last()[x].0 == k0;
                        assert(t[x].0 == t[t.len() - 1].0);
                    }
                    lemma_count_absent(t.drop_last(), k0);
                } else {
                    assert(spec_count_of(t, k) == spec_count_of(t.drop_last(), k));
                }
            }
            lemma_sum_determined_by_counts(s, t.drop_last());
        }
    } else {
        let k0 = s.last().0;
        let v0 = s.last().1;
        let rest = s.drop_last();
        assert(spec_count_of(s, k0) == v0);
        assert(spec_distinct_keys(rest)) by {
            assert(forall|x: int, y: int|
                0 <= x < y < s.len() - 1 ==> rest[x].0 == s[x].0 && rest[y].0 == s[y].0);
        }
        assert(spec_count_of(rest, k0) == 0) by {
            lemma_contains_index(rest, k0);
            if spec_contains_key(rest, k0) {
                let x = choose|x: int| 0 <= x < rest.len() && rest[x].0 == k0;
                assert(s[x].0 == s[s.len() - 1].0);
            }
            lemma_count_absent(rest, k0);
        }
        lemma_contains_index(t, k0);
        if spec_contains_key(t, k0) {
            let i = choose|i: int| 0 <= i < t.len() && t[i].0 == k0;
            lemma_count_at_index(t, i);
            assert(t[i].1 == v0);
            let shrunk = t.remove(i);
            assert(spec_distinct_keys(shrunk)) by {
                assert forall|x: int, y: int|
                    0 <= x < y < shrunk.len() implies shrunk[x].0 != shrunk[y].0 by {
                    let xs = if x < i {
                        x
                    } else {
                        x + 1
                    };
                    let ys = if y < i {
                        y
                    } else {
                        y + 1
                    };
                    assert(shrunk[x] == t[xs]);
                    assert(shrunk[y] == t[ys]);
                }
            }
            assert forall|k: Seq<char>| #![trigger spec_count_of(rest, k)]
                spec_count_of(rest, k) == spec_count_of(shrunk, k) by {
                lemma_count_remove(t, i, k);
                if k != k0 {
                    assert(spec_count_of(s, k) == spec_count_of(rest, k));
                }
            }
            lemma_sum_determined_by_counts(rest, shrunk);
            lemma_sum_remove(t, i);
        } else {
            lemma_count_absent(t, k0);
            assert(v0 == 0);
            assert forall|k: Seq<char>| #![trigger spec_count_of(rest, k)]
                spec_count_of(rest, k) == spec_count_of(t, k) by {
                if k != k0 {
                    assert(spec_count_of(s, k) == spec_count_of(rest, k));
                }
            }
            lemma_sum_determined_by_counts(rest, t);
        }
    }
}

/// A grow-only counter: the counts per node.
#[derive(Clone, Debug, PartialEq, Eq)]
pub struct GCounter {
    /// One entry per node: the node's key and its count.
    pub entries: Vec<(String, u32)>,
}

impl GCounter {
    /// The entries as mathematical pairs.
    pub open spec fn spec_entries(&self) -> Seq<(Seq<char>, u32)> {
        spec_entry_views(self.entries@)
    }

    /// The counter is well formed: no two entries share a key.
    pub open spec fn wf(&self) -> bool {
        spec_distinct_keys(self.spec_entries())
    }

    /// The count recorded for a key; zero when the key has no entry.
    pub open spec fn spec_count(&self, key: Seq<char>) -> u32 {
        spec_count_of(self.spec_entries(), key)
    }

    /// The value of the counter: the sum of all counts.
    pub open spec fn spec_total(&self) -> int {
        spec_sum(self.spec_entries())
    }

    /// A fresh counter; with a node given, its count starts at zero.
    pub fn new(node_id: Option<&String>) -> (r: GCounter)
        ensures
            r.wf(),
            match node_id {
                Some(id) => r.spec_entries() =~= seq![(id@, 0u32)],
                None => r.spec_entries() =~= Seq::<(Seq<char>, u32)>::empty(),
            },
            forall|k: Seq<char>| r.spec_count(k) == 0,
    {
        let mut entries: Vec<(String, u32)> = Vec::new();
        match node_id {
            Some(id) => {
                entries.push((id.clone(), 0));
            },
            None => {},
        }
        let r = GCounter { entries };
        proof {
            assert forall|k: Seq<char>| r.spec_count(k) == 0 by {
                let s = r.spec_entries();
                if s.len() == 0 {
                    assert(spec_count_of(s, k) == 0);
                } else {
                    assert(s.len() == 1);
                    assert(s.last().1 == 0);
                    assert(s.drop_last() =~= Seq::<(Seq<char>, u32)>::empty());
                    assert(spec_count_of(s.drop_last(), k) == 0);
                }
            }
        }
        r
    }

    /// The index of the entry carrying a node's key, if there is one.
    fn position_of(&self, node_id: &String) -> (r: Option<usize>)
        ensures
            match r {
                Some(i) => i < self.entries@.len() && self.spec_entries()[i as int].0 == node_id@,
                None => !spec_contains_key(self.spec_entries(), node_id@),
            },
    {
        let mut i: usize = 0;
        while i < self.entries.len()
            invariant
                i <= self.entries@.len(),
                forall|j: int| 0 <= j < i ==> self.spec_entries()[j].0 != node_id@,
            decreases self.entries@.len() - i,
        {
            if self.entries[i].0 == *node_id {
                return Some(i);
            }
            i = i + 1;
        }
        proof {
            lemma_contains_index(self.spec_entries(), node_id@);
        }
        None
    }

    /// The count recorded for a node; zero when the node has no entry.
    pub fn get_count(&self, node_id: &String) -> (r: u32)
        requires
            self.wf(),
        ensures
            r == self.spec_count(node_id@),
    {
        match self.position_of(node_id) {
            Some(i) => {
                proof {
                    lemma_count_at_index(self.spec_entries(), i as int);
                }
                self.entries[i].1
            },
            None => {
                proof {
                    lemma_count_absent(self.spec_entries(), node_id@);
                }
                0
            },
        }
    }

    /// The value of the counter: the sum of the counts of all nodes.
    pub fn get_value(&self) -> (r: u32)
        requires
            self.spec_total() <= u32::MAX,
        ensures
            r == self.spec_total(),
    {
        let mut total: u32 = 0;
        let mut i: usize = 0;
        while i < self.entries.len()
            invariant
                i <= self.entries@.len(),
                self.spec_total() <= u32::MAX,
                total == spec_sum(self.spec_entries().take(i as int)),
            decreases self.entries@.len() - i,
        {
            proof {
                assert(self.spec_entries().take(i + 1).drop_last() =~= self.spec_entries().take(
                    i as int,
                ));
                assert(self.spec_entries().take(i + 1).last() == self.spec_entries()[i as int]);
                lemma_sum_take(self.spec_entries(), i + 1);
            }
            total = total + self.entries[i].1;
            i = i + 1;
        }
        proof {
            assert(self.spec_entries().take(self.spec_entries().len() as int) =~= self
                .spec_entries());
        }
        total
    }

    /// Advances a node's count by one, creating the entry when the node
    /// has none. Every other count is unchanged and the value grows by
    /// one.
    pub fn increment(&mut self, node_id: &String)
        requires
            old(self).wf(),
            old(self).spec_count(node_id@) < u32::MAX,
        ensures
            final(self).wf(),
            forall|k: Seq<char>|
                final(self).spec_count(k) == if k == node_id@ {
                    (old(self).spec_count(node_id@) + 1) as u32
                } else {
                    old(self).spec_count(k)
                },
            final(self).spec_total() == old(self).spec_total() + 1,
    {
        match self.position_of(node_id) {
            Some(i) => {
                proof {
                    lemma_count_at_index(self.spec_entries(), i as int);
                }
                let c = self.entries[i].1;
                let ghost s = self.spec_entries();
                self.entries[i] = (node_id.clone(), c + 1);
                proof {
                    assert(self.spec_entries() =~= s.update(i as int, (s[i as int].0, (c
                        + 1) as u32)));
                    assert forall|k: Seq<char>|
                        final(self).spec_count(k) == if k == node_id@ {
                            (old(self).spec_count(node_id@) + 1) as u32
                        } else {
                            old(self).spec_count(k)
                        } by {
                        lemma_count_update(s, i as int, (c + 1) as u32, k);
                    }
                    lemma_sum_update(s, i as int, (c + 1) as u32);
                    assert forall|x: int, y: int|
                        0 <= x < y < self.spec_entries().len() implies self.spec_entries()[x].0
                        != self.spec_entries()[y].0 by {
                        assert(s[x].0 == self.spec_entries()[x].0);
                        assert(s[y].0 == self.spec_entries()[y].0);
                    }
                }
            },
            None => {
                proof {
                    lemma_count_absent(self.spec_entries(), node_id@);
                    lemma_contains_index(self.spec_entries(), node_id@);
                }
                let ghost s = self.spec_entries();
                self.entries.push((node_id.clone(), 1));
                proof {
                    assert(self.spec_entries() =~= s.push((node_id@, 1u32)));
                    assert forall|k: Seq<char>|
                        final(self).spec_count(k) == if k == node_id@ {
                            (old(self).spec_count(node_id@) + 1) as u32
                        } else {
                            old(self).spec_count(k)
                        } by {
                        assert(self.spec_entries().drop_last() =~= s);
                    }
                    assert(self.spec_entries().drop_last() =~= s);
                }
            },
        }
    }

    /// Merges another counter's state into this one: every node's count
    /// becomes the larger of the two counts. The value never shrinks.
    pub fn merge_from_state(&mut self, other_counter: &GCounter)
        requires
            old(self).wf(),
            other_counter.wf(),
        ensures
            final(self).wf(),
            forall|k: Seq<char>|
                final(self).spec_count(k) == spec_max_u32(
                    old(self).spec_count(k),
                    other_counter.spec_count(k),
                ),
            final(self).spec_total() >= old(self).spec_total(),
    {
        let ghost o = other_counter.spec_entries();
        let mut j: usize = 0;
        while j < other_counter.entries.len()
            invariant
                j <= other_counter.entries@.len(),
                o == other_counter.spec_entries(),
                other_counter.wf(),
                self.wf(),
                forall|k: Seq<char>|
                    #![trigger self.spec_count(k)]
                    self.spec_count(k) == if spec_contains_key(o.take(j as int), k) {
                        spec_max_u32(old(self).spec_count(k), other_counter.spec_count(k))
                    } else {
                        old(self).spec_count(k)
                    },
                self.spec_total() >= old(self).spec_total(),
            decreases other_counter.entries@.len() - j,
        {
            let c = other_counter.entries[j].1;
            let ghost kj = o[j as int].0;
            proof {
                lemma_count_at_index(o, j as int);
                // The key at position j has not been processed before.
                lemma_contains_index(o.take(j as int), kj);
                assert(forall|x: int| 0 <= x < j ==> o.take(j as int)[x].0 == o[x].0);
                assert(!spec_contains_key(o.take(j as int), kj));
                assert(o.take(j + 1).drop_last() =~= o.take(j as int));
                assert(o.take(j + 1).last() == o[j as int]);
            }
            let node_ref = &other_counter.entries[j].0;
            match self.position_of(node_ref) {
                Some(i) => {
                    proof {
                        lemma_count_at_index(self.spec_entries(), i as int);
                    }
                    let cur = self.entries[i].1;
                    if cur < c {
                        let ghost s = self.spec_entries();
                        proof {
                            assert forall|k: Seq<char>|
                                spec_count_of(s, k) == if spec_contains_key(o.take(j as int), k) {
                                    spec_max_u32(
                                        old(self).spec_count(k),
                                        other_counter.spec_count(k),
                                    )
                                } else {
                                    old(self).spec_count(k)
                                } by {
                                assert(self.spec_count(k) == spec_count_of(s, k));
                            }
                            assert(spec_count_of(s, kj) == cur);
                        }
                        let new_key = node_ref.clone();
                        self.entries[i] = (new_key, c);
                        proof {
                            assert(self.spec_entries() =~= s.update(i as int, (s[i as int].0, c)));
                            lemma_sum_update(s, i as int, c);
                            assert forall|x: int, y: int|
                                0 <= x < y < self.spec_entries().len() implies self.spec_entries()[x].0
                                != self.spec_entries()[y].0 by {
                                assert(s[x].0 == self.spec_entries()[x].0);
                                assert(s[y].0 == self.spec_entries()[y].0);
                            }
                            assert forall|k: Seq<char>|
                                self.spec_count(k) == if spec_contains_key(o.take(j + 1), k) {
                                    spec_max_u32(
                                        old(self).spec_count(k),
                                        other_counter.spec_count(k),
                                    )
                                } else {
                                    old(self).spec_count(k)
                                } by {
                                lemma_count_update(s, i as int, c, k);
                                assert(self.spec_count(k) == spec_count_of(
                                    s.update(i as int, (s[i as int].0, c)),
                                    k,
                                ));
                                if k == kj {
                                    assert(spec_contains_key(o.take(j + 1), k));
                                    assert(self.spec_count(k) == c);
                                    assert(spec_count_of(s, k) == old(self).spec_count(k));
                                    assert(other_counter.spec_count(k) == c);
                                } else {
                                    assert(self.spec_count(k) == spec_count_of(s, k));
                                    assert(spec_contains_key(o.take(j + 1), k)
                                        == spec_contains_key(o.take(j as int), k));
                                }
                            }
                        }
                    } else {
                        proof {
                            assert forall|k: Seq<char>|
                                self.spec_count(k) == if spec_contains_key(o.take(j + 1), k) {
                                    spec_max_u32(
                                        old(self).spec_count(k),
                                        other_counter.spec_count(k),
                                    )
                                } else {
                                    old(self).spec_count(k)
                                } by {
                                if k == kj {
                                    assert(spec_contains_key(o.take(j + 1), k));
                                    assert(self.spec_count(k) == cur);
                                    assert(self.spec_count(k) == old(self).spec_count(k));
                                    assert(other_counter.spec_count(k) == c);
                                } else {
                                    assert(spec_contains_key(o.take(j + 1), k)
                                        == spec_contains_key(o.take(j as int), k));
                                }
                            }
                        }
                    }
                },
                None => {
                    proof {
                        lemma_count_absent(self.spec_entries(), kj);
                        lemma_contains_index(self.spec_entries(), kj);
                    }
                    let ghost s = self.spec_entries();
                    proof {
                        assert forall|k: Seq<char>|
                            spec_count_of(s, k) == if spec_contains_key(o.take(j as int), k) {
                                spec_max_u32(old(self).spec_count(k), other_counter.spec_count(k))
                            } else {
                                old(self).spec_count(k)
                            } by {
                            assert(self.spec_count(k) == spec_count_of(s, k));
                        }
                    }
                    self.entries.push((node_ref.clone(), c));
                    proof {
                        assert(self.spec_entries() =~= s.push((kj, c)));
                        assert(self.spec_entries().drop_last() =~= s);
                        assert forall|k: Seq<char>|
                            self.spec_count(k) == if spec_contains_key(o.take(j + 1), k) {
                                spec_max_u32(old(self).spec_count(k), other_counter.spec_count(k))
                            } else {
                                old(self).spec_count(k)
                            } by {
                            if k == kj {
                                assert(spec_contains_key(o.take(j + 1), k));
                                assert(spec_count_of(self.spec_entries(), k) == c);
                                assert(spec_count_of(s, k) == 0);
                                assert(old(self).spec_count(k) == 0);
                                assert(other_counter.spec_count(k) == c);
                            } else {
                                assert(spec_count_of(self.spec_entries(), k) == spec_count_of(
                                    s,
                                    k,
                                ));
                                assert(spec_contains_key(o.take(j + 1), k)
                                    == spec_contains_key(o.take(j as int), k));
                            }
                        }
                    }
                },
            }
            j = j + 1;
        }
        proof {
            assert(o.take(o.len() as int) =~= o);
            assert forall|k: Seq<char>|
                final(self).spec_count(k) == spec_max_u32(
                    old(self).spec_count(k),
                    other_counter.spec_count(k),
                ) by {
                if !spec_contains_key(o, k) {
                    lemma_count_absent(o, k);
                }
            }
        }
    }
}

/// Two well-formed counters that record the same count for every node have
/// the same value: replicas that converged on their counts agree on the
/// value.
pub proof fn lemma_gcounter_converged_value(a: GCounter, b: GCounter)
    requires
        a.wf(),
        b.wf(),
        forall|k: Seq<char>| #![trigger a.spec_count(k)] a.spec_count(k) == b.spec_count(k),
    ensures
        a.spec_total() == b.spec_total(),
{
    assert forall|k: Seq<char>| #![trigger spec_count_of(a.spec_entries(), k)]
        spec_count_of(a.spec_entries(), k) == spec_count_of(b.spec_entries(), k) by {
        assert(a.spec_count(k) == b.spec_count(k));
    }
    lemma_sum_determined_by_counts(a.spec_entries(), b.spec_entries());
}

/// Merging two counters from either side records the same count for every
/// node: the join is commutative.
pub proof fn lemma_gcounter_merge_commutative(a: GCounter, b: GCounter, k: Seq<char>)
    ensures
        spec_max_u32(a.spec_count(k), b.spec_count(k)) == spec_max_u32(
            b.spec_count(k),
            a.spec_count(k),
        ),
{
}

/// Merging three counters in either grouping records the same count for
/// every node: the join is associative.
pub proof fn lemma_gcounter_merge_associative(a: GCounter, b: GCounter, c: GCounter, k: Seq<char>)
    ensures
        spec_max_u32(spec_max_u32(a.spec_count(k), b.spec_count(k)), c.spec_count(k))
            == spec_max_u32(a.spec_count(k), spec_max_u32(b.spec_count(k), c.spec_count(k))),
{
}

/// Merging a counter with itself records the same count for every node:
/// the join is idempotent.
pub proof fn lemma_gcounter_merge_idempotent(a: GCounter, k: Seq<char>)
    ensures
        spec_max_u32(a.spec_count(k), a.spec_count(k)) == a.spec_count(k),
{
}

} // verus!
