//! Stake positions: for each staked account, the block height of its last
//! staking action.
//!
//! The record is an association list with unique keys. Its abstraction is a
//! partial map from accounts to block heights together with the sequence of
//! staked accounts in insertion order, which fixes the order in which the
//! periodic distributor visits them.

use vstd::prelude::*;

verus! {

/// True when some entry of `s` carries the account `a`.
pub open spec fn has_entry(s: Seq<(u64, u64)>, a: u64) -> bool {
    exists|i: int| 0 <= i < s.len() && (#[trigger] s[i]).0 == a
}

/// The block height that `s` records for `a`.
pub open spec fn entry_block(s: Seq<(u64, u64)>, a: u64) -> u64 {
    s[choose|i: int| 0 <= i < s.len() && (#[trigger] s[i]).0 == a].1
}

/// Block heights of the most recent staking action, keyed by account.
pub struct PositionMap {
    entries: Vec<(u64, u64)>,
}

impl PositionMap {
    /// The stored entries, in insertion order.
    pub closed spec fn entries_seq(self) -> Seq<(u64, u64)> {
        self.entries@
    }

    /// Key uniqueness: no account occurs in two entries.
    pub open spec fn wf(self) -> bool {
        forall|i: int, j: int|
            0 <= i < j < self.entries_seq().len() ==> (#[trigger] self.entries_seq()[i]).0 != (
            #[trigger] self.entries_seq()[j]).0
    }

    /// The staked accounts, in insertion order.
    pub open spec fn key_seq(self) -> Seq<u64> {
        self.entries_seq().map_values(|e: (u64, u64)| e.0)
    }

    /// The abstraction: a partial map from staked accounts to block heights.
    pub open spec fn map_view(self) -> Map<u64, u64> {
        Map::new(|a: u64| has_entry(self.entries_seq(), a), |a: u64| entry_block(self.entries_seq(), a))
    }

    /// An empty record: no account is staked.
    pub fn new() -> (r: PositionMap)
        ensures
            r.wf(),
            r.map_view() == Map::<u64, u64>::empty(),
            r.key_seq() == Seq::<u64>::empty(),
    {
        let r = PositionMap { entries: Vec::new() };
        proof {
            assert(forall|a: u64| !(#[trigger] has_entry(r.entries_seq(), a)));
            assert(r.map_view() =~= Map::<u64, u64>::empty());
            assert(r.key_seq() =~= Seq::<u64>::empty());
        }
        r
    }

    /// Finds the index of the entry that carries `a`, if one does.
    fn find(&self, a: u64) -> (r: Option<usize>)
        requires
            self.wf(),
        ensures
            match r {
                Some(i) => i < self.entries_seq().len() && self.entries_seq()[i as int].0 == a,
                None => !has_entry(self.entries_seq(), a),
            },
    {
        let n = self.entries.len();
        let mut i: usize = 0;
        while i < n
            invariant
                n == self.entries_seq().len(),
                i <= n,
                forall|j: int| 0 <= j < i ==> (#[trigger] self.entries_seq()[j]).0 != a,
            decreases n - i,
        {
            if self.entries[i].0 == a {
                return Some(i);
            }
            i += 1;
        }
        None
    }

    /// The number of staked accounts.
    pub fn len(&self) -> (r: usize)
        ensures
            r == self.key_seq().len(),
    {
        self.entries.len()
    }

    /// The staked account at position `i` of the insertion order.
    pub fn key_at(&self, i: usize) -> (r: u64)
        requires
            i < self.key_seq().len(),
        ensures
            r == self.key_seq()[i as int],
    {
        self.entries[i].0
    }

    /// Reads the recorded block height of `a`.
    pub fn get(&self, a: u64) -> (r: Option<u64>)
        requires
            self.wf(),
        ensures
            r == if self.map_view().dom().contains(a) {
                Some(self.map_view()[a])
            } else {
                None::<u64>
            },
    {
        match self.find(a) {
            Some(i) => {
                proof {
                    lemma_unique_entry(self.entries_seq(), i as int);
                }
                Some(self.entries[i].1)
            },
            None => None,
        }
    }

    /// Records block height `n` for `a`.
    pub fn insert(&mut self, a: u64, n: u64)
        requires
            old(self).wf(),
        ensures
            final(self).wf(),
            final(self).map_view() == old(self).map_view().insert(a, n),
            final(self).key_seq() == if old(self).map_view().dom().contains(a) {
                old(self).key_seq()
            } else {
                old(self).key_seq().push(a)
            },
    {
        let ghost s0 = self.entries_seq();
        match self.find(a) {
            Some(i) => {
                proof {
                    lemma_unique_entry(s0, i as int);
                }
                self.entries[i] = (a, n);
                proof {
                    let t = s0.update(i as int, (a, n));
                    assert(forall|p: int| 0 <= p < t.len() ==> (#[trigger] t[p]).0 == s0[p].0);
                    assert forall|k: u64| #[trigger] has_entry(t, k) == has_entry(s0, k) by {
                        if has_entry(s0, k) {
                            let p = choose|p: int| 0 <= p < s0.len() && (#[trigger] s0[p]).0 == k;
                            assert(t[p].0 == k);
                        }
                        if has_entry(t, k) {
                            let p = choose|p: int| 0 <= p < t.len() && (#[trigger] t[p]).0 == k;
                            assert(s0[p].0 == k);
                        }
                    }
                    assert forall|k: u64| has_entry(t, k) implies #[trigger] entry_block(t, k)
                        == if k == a {
                        n
                    } else {
                        entry_block(s0, k)
                    } by {
                        if k == a {
                            lemma_unique_entry(t, i as int);
                        } else {
                            let p = choose|p: int| 0 <= p < s0.len() && (#[trigger] s0[p]).0 == k;
                            lemma_unique_entry(s0, p);
                            lemma_unique_entry(t, p);
                        }
                    }
                    assert(self.map_view() =~= old(self).map_view().insert(a, n));
                    assert(self.key_seq() =~= old(self).key_seq());
                }
            },
            None => {
                self.entries.push((a, n));
                proof {
                    let t = s0.push((a, n));
                    assert(forall|p: int| 0 <= p < s0.len() ==> (#[trigger] t[p]).0 == s0[p].0);
                    assert(t[s0.len() as int].0 == a);
                    assert forall|k: u64| #[trigger] has_entry(t, k) == (has_entry(s0, k) || k
                        == a) by {
                        if has_entry(s0, k) {
                            let p = choose|p: int| 0 <= p < s0.len() && (#[trigger] s0[p]).0 == k;
                            assert(t[p].0 == k);
                        }
                        if has_entry(t, k) && k != a {
                            let p = choose|p: int| 0 <= p < t.len() && (#[trigger] t[p]).0 == k;
                            assert(s0[p].0 == k);
                        }
                    }
                    assert forall|k: u64| has_entry(t, k) implies #[trigger] entry_block(t, k)
                        == if k == a {
                        n
                    } else {
                        entry_block(s0, k)
                    } by {
                        if k == a {
                            lemma_unique_entry(t, s0.len() as int);
                        } else {
                            let p = choose|p: int| 0 <= p < s0.len() && (#[trigger] s0[p]).0 == k;
                            lemma_unique_entry(s0, p);
                            lemma_unique_entry(t, p);
                        }
                    }
                    assert(self.map_view() =~= old(self).map_view().insert(a, n));
                    assert(self.key_seq() =~= old(self).key_seq().push(a));
                }
            },
        }
    }

    /// Deletes the record of `a`, if one exists.
    pub fn remove(&mut self, a: u64)
        requires
            old(self).wf(),
        ensures
            final(self).wf(),
            final(self).map_view() == old(self).map_view().remove(a),
            final(self).key_seq() == old(self).key_seq().remove_value(a),
    {
        let ghost s0 = self.entries_seq();
        match self.find(a) {
            Some(i) => {
                self.entries.remove(i);
                proof {
                    let t = s0.remove(i as int);
                    assert(forall|p: int| 0 <= p < i ==> (#[trigger] t[p]).0 == s0[p].0);
                    assert(forall|p: int|
                        i <= p < t.len() ==> (#[trigger] t[p]).0 == s0[p + 1].0);
                    assert forall|p: int, q: int|
                        0 <= p < q < t.len() implies (#[trigger] t[p]).0 != (#[trigger] t[q]).0 by {
                        let p0 = if p < i {
                            p
                        } else {
                            p + 1
                        };
                        let q0 = if q < i {
                            q
                        } else {
                            q + 1
                        };
                        assert(t[p] == s0[p0] && t[q] == s0[q0]);
                    }
                    assert forall|k: u64| #[trigger] has_entry(t, k) == (has_entry(s0, k) && k
                        != a) by {
                        lemma_unique_entry(s0, i as int);
                        if has_entry(s0, k) && k != a {
                            let p = choose|p: int| 0 <= p < s0.len() && (#[trigger] s0[p]).0 == k;
                            if p < i {
                                assert(t[p].0 == k);
                            } else {
                                assert(p > i);
                                assert(t[p - 1].0 == k);
                            }
                        }
                        if has_entry(t, k) {
                            let p = choose|p: int| 0 <= p < t.len() && (#[trigger] t[p]).0 == k;
                            let p0 = if p < i {
                                p
                            } else {
                                p + 1
                            };
                            assert(s0[p0].0 == k);
                            assert(p0 != i);
                        }
                    }
                    assert forall|k: u64| has_entry(t, k) implies #[trigger] entry_block(t, k)
                        == entry_block(s0, k) by {
                        let p = choose|p: int| 0 <= p < t.len() && (#[trigger] t[p]).0 == k;
                        let p0 = if p < i {
                            p
                        } else {
                            p + 1
                        };
                        assert(s0[p0] == t[p]);
                        lemma_unique_entry(s0, p0);
                        lemma_unique_entry(t, p);
                    }
                    assert(self.map_view() =~= old(self).map_view().remove(a));
                    lemma_key_remove_value(s0, i as int, a);
                    assert(self.key_seq() == old(self).key_seq().remove_value(a));
                }
            },
            None => {
                proof {
                    assert(!old(self).key_seq().contains(a)) by {
                        if old(self).key_seq().contains(a) {
                            let p = choose|p: int|
                                0 <= p < old(self).key_seq().len() && old(self).key_seq()[p] == a;
                            assert(s0[p].0 == a);
                        }
                    }
                    old(self).key_seq().index_of_first_ensures(a);
                    assert(self.map_view() =~= old(self).map_view().remove(a));
                }
            },
        }
    }
}

/// With unique keys, the entry at `i` is the one that the map reads.
proof fn lemma_unique_entry(s: Seq<(u64, u64)>, i: int)
    requires
        0 <= i < s.len(),
        forall|p: int, q: int|
            0 <= p < q < s.len() ==> (#[trigger] s[p]).0 != (#[trigger] s[q]).0,
    ensures
        has_entry(s, s[i].0),
        entry_block(s, s[i].0) == s[i].1,
{
    assert(has_entry(s, s[i].0));
    let j = choose|j: int| 0 <= j < s.len() && (#[trigger] s[j]).0 == s[i].0;
    assert(j == i);
}

/// Removing the unique entry of `a` removes `a`'s first occurrence from the key order.
proof fn lemma_key_remove_value(s: Seq<(u64, u64)>, i: int, a: u64)
    requires
        0 <= i < s.len(),
        s[i].0 == a,
        forall|p: int, q: int|
            0 <= p < q < s.len() ==> (#[trigger] s[p]).0 != (#[trigger] s[q]).0,
    ensures
        s.remove(i).map_values(|e: (u64, u64)| e.0) == s.map_values(
            |e: (u64, u64)| e.0,
        ).remove_value(a),
{
    let keys = s.map_values(|e: (u64, u64)| e.0);
    assert(keys[i] == a);
    assert(keys.contains(a));
    keys.index_of_first_ensures(a);
    match keys.index_of_first(a) {
        Some(j) => {
            assert(keys[j] == a);
            assert(s[j].0 == a);
            assert(j == i);
            assert(s.remove(i).map_values(|e: (u64, u64)| e.0) =~= keys.remove(i));
        },
        None => {
            assert(false);
        },
    }
}

} // verus!
