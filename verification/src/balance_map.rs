//! Association list from account identifiers to balances.
//!
//! Keys are unique; an absent key reads as zero, matching a ledger in which
//! every account implicitly exists with an empty balance. The abstraction is
//! a total map from accounts to balances together with the sum of all stored
//! balances, which the ledger ties to its total issuance.

use vstd::prelude::*;

verus! {

/// Sum of the balances stored in an entry sequence.
pub open spec fn sum_of(s: Seq<(u64, u128)>) -> int
    decreases s.len(),
{
    if s.len() == 0 {
        0
    } else {
        sum_of(s.drop_last()) + s.last().1
    }
}

/// True when some entry of `s` carries the key `a`.
pub open spec fn has_key(s: Seq<(u64, u128)>, a: u64) -> bool {
    exists|i: int| 0 <= i < s.len() && (#[trigger] s[i]).0 == a
}

/// The balance that `s` stores under `a`, or zero when `a` is absent.
pub open spec fn value_of(s: Seq<(u64, u128)>, a: u64) -> u128 {
    if has_key(s, a) {
        s[choose|i: int| 0 <= i < s.len() && (#[trigger] s[i]).0 == a].1
    } else {
        0
    }
}

/// Balances keyed by account, with unique keys.
pub struct BalanceMap {
    entries: Vec<(u64, u128)>,
}

impl BalanceMap {
    /// The stored entries, in insertion order.
    pub closed spec fn entries_seq(self) -> Seq<(u64, u128)> {
        self.entries@
    }

    /// Key uniqueness: no account occurs in two entries.
    pub open spec fn wf(self) -> bool {
        forall|i: int, j: int|
            0 <= i < j < self.entries_seq().len() ==> (#[trigger] self.entries_seq()[i]).0 != (
            #[trigger] self.entries_seq()[j]).0
    }

    /// The abstraction: a total map in which absent accounts hold zero.
    pub open spec fn map_view(self) -> Map<u64, u128> {
        Map::total(|a: u64| value_of(self.entries_seq(), a))
    }

    /// Sum of all stored balances.
    pub open spec fn total(self) -> int {
        sum_of(self.entries_seq())
    }

    /// An empty map: every account holds zero.
    pub fn new() -> (r: BalanceMap)
        ensures
            r.wf(),
            r.total() == 0,
            forall|a: u64| #[trigger] r.map_view()[a] == 0,
    {
        let r = BalanceMap { entries: Vec::new() };
        proof {
            assert(forall|a: u64| !(#[trigger] has_key(r.entries_seq(), a)));
        }
        r
    }

    /// Finds the index of the entry that carries `a`, if one does.
    fn find(&self, a: u64) -> (r: Option<usize>)
        requires
            self.wf(),
        ensures
            match r {
                Some(i) => i < self.entries_seq().len() && self.entries_seq()[i as int].0 == a,
                None => !has_key(self.entries_seq(), a),
            },
    {
        let n = self.entries.len();
        let mut i: usize = 0;
        while i < n
            invariant
                n == self.entries_seq().len(),
                i <= n,
                forall|j: int| 0 <= j < i ==> (#[trigger] self.entries_seq()[j]).0 != a,
            decreases n - i,
        {
            if self.entries[i].0 == a {
                return Some(i);
            }
            i += 1;
        }
        None
    }

    /// Reads the balance of `a`.
    pub fn get(&self, a: u64) -> (r: u128)
        requires
            self.wf(),
        ensures
            r == self.map_view()[a],
    {
        match self.find(a) {
            Some(i) => {
                proof {
                    lemma_unique_value(self.entries_seq(), i as int);
                }
                self.entries[i].1
            },
            None => 0,
        }
    }

    /// Sets the balance of `a` to `v`.
    pub fn set(&mut self, a: u64, v: u128)
        requires
            old(self).wf(),
        ensures
            final(self).wf(),
            final(self).map_view() == old(self).map_view().insert(a, v),
            final(self).total() == old(self).total() - old(self).map_view()[a] + v,
    {
        let ghost s0 = self.entries_seq();
        match self.find(a) {
            Some(i) => {
                proof {
                    lemma_unique_value(s0, i as int);
                    lemma_sum_update(s0, i as int, (a, v));
                    lemma_view_after_update(s0, i as int, a, v);
                }
                self.entries[i] = (a, v);
                proof {
                    let t = s0.update(i as int, (a, v));
                    assert(self.entries_seq() == t);
                    assert(old(self).map_view()[a] == value_of(s0, a));
                    assert forall|k: u64|
                        self.map_view()[k] == old(self).map_view().insert(a, v)[k] by {
                        assert(value_of(t, k) == if k == a {
                            v
                        } else {
                            value_of(s0, k)
                        });
                    }
                    assert(self.map_view() =~= old(self).map_view().insert(a, v));
                    assert(self.total() == sum_of(t));
                }
            },
            None => {
                proof {
                    lemma_sum_push(s0, (a, v));
                    lemma_view_after_push(s0, a, v);
                }
                self.entries.push((a, v));
                proof {
                    let t = s0.push((a, v));
                    assert(self.entries_seq() == t);
                    assert(old(self).map_view()[a] == value_of(s0, a));
                    assert forall|k: u64|
                        self.map_view()[k] == old(self).map_view().insert(a, v)[k] by {
                        assert(value_of(t, k) == if k == a {
                            v
                        } else {
                            value_of(s0, k)
                        });
                    }
                    assert(self.map_view() =~= old(self).map_view().insert(a, v));
                    assert(self.total() == sum_of(t));
                }
            },
        }
    }

    /// A single balance never exceeds the sum of all balances.
    pub proof fn lemma_value_bound(self, a: u64)
        requires
            self.wf(),
        ensures
            0 <= self.map_view()[a] <= self.total(),
    {
        lemma_sum_nonneg(self.entries_seq());
        if has_key(self.entries_seq(), a) {
            let i = choose|i: int|
                0 <= i < self.entries_seq().len() && (#[trigger] self.entries_seq()[i]).0 == a;
            lemma_entry_le_sum(self.entries_seq(), i);
        }
    }

    /// Two balances of distinct accounts never exceed the sum of all balances.
    pub proof fn lemma_pair_bound(self, a: u64, b: u64)
        requires
            self.wf(),
            a != b,
        ensures
            self.map_view()[a] + self.map_view()[b] <= self.total(),
    {
        let s = self.entries_seq();
        lemma_sum_nonneg(s);
        if has_key(s, a) && has_key(s, b) {
            let i = choose|i: int| 0 <= i < s.len() && (#[trigger] s[i]).0 == a;
            let j = choose|j: int| 0 <= j < s.len() && (#[trigger] s[j]).0 == b;
            lemma_two_entries_le_sum(s, i, j);
        } else if has_key(s, a) {
            let i = choose|i: int| 0 <= i < s.len() && (#[trigger] s[i]).0 == a;
            lemma_entry_le_sum(s, i);
        } else if has_key(s, b) {
            let j = choose|j: int| 0 <= j < s.len() && (#[trigger] s[j]).0 == b;
            lemma_entry_le_sum(s, j);
        }
    }
}

/// With unique keys, the entry at `i` is the one that `value_of` reads.
proof fn lemma_unique_value(s: Seq<(u64, u128)>, i: int)
    requires
        0 <= i < s.len(),
        forall|p: int, q: int|
            0 <= p < q < s.len() ==> (#[trigger] s[p]).0 != (#[trigger] s[q]).0,
    ensures
        has_key(s, s[i].0),
        value_of(s, s[i].0) == s[i].1,
{
    assert(has_key(s, s[i].0));
    let j = choose|j: int| 0 <= j < s.len() && (#[trigger] s[j]).0 == s[i].0;
    assert(j == i);
}

/// Updating the entry at `i` updates the map at its key and leaves other keys alone.
proof fn lemma_view_after_update(s: Seq<(u64, u128)>, i: int, a: u64, v: u128)
    requires
        0 <= i < s.len(),
        s[i].0 == a,
        forall|p: int, q: int|
            0 <= p < q < s.len() ==> (#[trigger] s[p]).0 != (#[trigger] s[q]).0,
    ensures
        forall|p: int, q: int|
            0 <= p < q < s.update(i, (a, v)).len() ==> (#[trigger] s.update(i, (a, v))[p]).0 != (
            #[trigger] s.update(i, (a, v))[q]).0,
        forall|k: u64|
            #[trigger] value_of(s.update(i, (a, v)), k) == if k == a {
                v
            } else {
                value_of(s, k)
            },
{
    let t = s.update(i, (a, v));
    assert(forall|p: int| 0 <= p < t.len() ==> (#[trigger] t[p]).0 == s[p].0);
    assert forall|k: u64| #[trigger] value_of(t, k) == if k == a {
        v
    } else {
        value_of(s, k)
    } by {
        if k == a {
            lemma_unique_value(t, i);
        } else {
            if has_key(s, k) {
                let p = choose|p: int| 0 <= p < s.len() && (#[trigger] s[p]).0 == k;
                lemma_unique_value(s, p);
                lemma_unique_value(t, p);
            } else {
                assert(!has_key(t, k));
            }
        }
    }
}

/// Appending an entry with a fresh key updates the map at that key alone.
proof fn lemma_view_after_push(s: Seq<(u64, u128)>, a: u64, v: u128)
    requires
        !has_key(s, a),
        forall|p: int, q: int|
            0 <= p < q < s.len() ==> (#[trigger] s[p]).0 != (#[trigger] s[q]).0,
    ensures
        forall|p: int, q: int|
            0 <= p < q < s.push((a, v)).len() ==> (#[trigger] s.push((a, v))[p]).0 != (
            #[trigger] s.push((a, v))[q]).0,
        forall|k: u64|
            #[trigger] value_of(s.push((a, v)), k) == if k == a {
                v
            } else {
                value_of(s, k)
            },
{
    let t = s.push((a, v));
    assert(forall|p: int| 0 <= p < s.len() ==> (#[trigger] t[p]).0 == s[p].0);
    assert(t[s.len() as int].0 == a);
    assert forall|k: u64| #[trigger] value_of(t, k) == if k == a {
        v
    } else {
        value_of(s, k)
    } by {
        if k == a {
            lemma_unique_value(t, s.len() as int);
        } else {
            if has_key(s, k) {
                let p = choose|p: int| 0 <= p < s.len() && (#[trigger] s[p]).0 == k;
                lemma_unique_value(s, p);
                lemma_unique_value(t, p);
            } else {
                assert(!has_key(t, k));
            }
        }
    }
}

/// The sum of an entry sequence is never negative.
proof fn lemma_sum_nonneg(s: Seq<(u64, u128)>)
    ensures
        0 <= sum_of(s),
    decreases s.len(),
{
    if s.len() > 0 {
        lemma_sum_nonneg(s.drop_last());
    }
}

/// A single entry's balance never exceeds the sum.
proof fn lemma_entry_le_sum(s: Seq<(u64, u128)>, i: int)
    requires
        0 <= i < s.len(),
    ensures
        s[i].1 <= sum_of(s),
    decreases s.len(),
{
    if i == s.len() - 1 {
        lemma_sum_nonneg(s.drop_last());
    } else {
        lemma_entry_le_sum(s.drop_last(), i);
    }
}

/// The balances of two distinct entries never exceed the sum together.
proof fn lemma_two_entries_le_sum(s: Seq<(u64, u128)>, i: int, j: int)
    requires
        0 <= i < s.len(),
        0 <= j < s.len(),
        i != j,
    ensures
        s[i].1 + s[j].1 <= sum_of(s),
    decreases s.len(),
{
    if i == s.len() - 1 {
        lemma_entry_le_sum(s.drop_last(), j);
    } else if j == s.len() - 1 {
        lemma_entry_le_sum(s.drop_last(), i);
    } else {
        lemma_two_entries_le_sum(s.drop_last(), i, j);
    }
}

/// Replacing the entry at `i` changes the sum by the difference of balances.
proof fn lemma_sum_update(s: Seq<(u64, u128)>, i: int, e: (u64, u128))
    requires
        0 <= i < s.len(),
    ensures
        sum_of(s.update(i, e)) == sum_of(s) - s[i].1 + e.1,
    decreases s.len(),
{
    let t = s.update(i, e);
    if i == s.len() - 1 {
        assert(t.drop_last() =~= s.drop_last());
    } else {
        assert(t.drop_last() =~= s.drop_last().update(i, e));
        lemma_sum_update(s.drop_last(), i, e);
    }
}

/// Appending an entry adds its balance to the sum.
proof fn lemma_sum_push(s: Seq<(u64, u128)>, e: (u64, u128))
    ensures
        sum_of(s.push(e)) == sum_of(s) + e.1,
{
    assert(s.push(e).drop_last() =~= s);
}

} // verus!
