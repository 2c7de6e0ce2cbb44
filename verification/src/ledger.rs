//! A single-token balance ledger.
//!
//! Each account holds a free balance and a reserved balance; the ledger also
//! tracks the total issuance of the token and an existential deposit, the
//! smallest balance an account may be left or created with by a transfer,
//! withdrawal or deposit. The ledger's invariant ties the issuance to the sum
//! of all balances: units are never created or destroyed silently.

use vstd::prelude::*;
use crate::balance_map::BalanceMap;

verus! {

/// The balances of a ledger with no accounts: zero everywhere.
pub open spec fn zero_balances() -> Map<u64, u128> {
    Map::total(|a: u64| 0u128)
}

/// The portion of `amount` that issuing can add to `issuance` without
/// exceeding the capacity of the balance type.
pub open spec fn credited_amount(issuance: u128, amount: u128) -> u128 {
    if issuance + amount <= u128::MAX {
        amount
    } else {
        (u128::MAX - issuance) as u128
    }
}

/// Whether a deposit of `credited` into `a` is kept: the resulting balance
/// must reach the existential deposit.
pub open spec fn deposit_kept(free: Map<u64, u128>, ed: u128, a: u64, credited: u128) -> bool {
    free[a] + credited >= ed
}

/// Whether `a` can withdraw `amount` while staying above the existential
/// deposit.
pub open spec fn can_withdraw(free: Map<u64, u128>, ed: u128, a: u64, amount: u128) -> bool {
    &&& free[a] >= amount
    &&& free[a] - amount >= ed
}

/// Whether `from` can move `amount` to `to`: the sender must keep the
/// existential deposit and the recipient must reach it.
pub open spec fn can_transfer(
    free: Map<u64, u128>,
    ed: u128,
    from: u64,
    to: u64,
    amount: u128,
) -> bool {
    &&& free[from] >= amount
    &&& free[from] - amount >= ed
    &&& free[to] + amount >= ed
}

/// Free and reserved balances of one token, with its total issuance.
pub struct TokenLedger {
    free: BalanceMap,
    reserved: BalanceMap,
    issuance: u128,
    existential_deposit: u128,
}

impl TokenLedger {
    /// Free balance of every account.
    pub closed spec fn free_map(self) -> Map<u64, u128> {
        self.free.map_view()
    }

    /// Reserved balance of every account.
    pub closed spec fn reserved_map(self) -> Map<u64, u128> {
        self.reserved.map_view()
    }

    /// Total units of the token in existence.
    pub closed spec fn spec_issuance(self) -> u128 {
        self.issuance
    }

    /// The existential deposit.
    pub closed spec fn spec_ed(self) -> u128 {
        self.existential_deposit
    }

    /// The ledger's invariant: unique account records, and an issuance equal
    /// to the sum of all free and reserved balances.
    pub closed spec fn wf(self) -> bool {
        &&& self.free.wf()
        &&& self.reserved.wf()
        &&& self.issuance as int == self.free.total() + self.reserved.total()
    }

    /// An empty ledger: no balances, no issuance.
    pub fn new(existential_deposit: u128) -> (r: TokenLedger)
        ensures
            r.wf(),
            r.free_map() == zero_balances(),
            r.reserved_map() == zero_balances(),
            r.spec_issuance() == 0,
            r.spec_ed() == existential_deposit,
    {
        let r = TokenLedger {
            free: BalanceMap::new(),
            reserved: BalanceMap::new(),
            issuance: 0,
            existential_deposit,
        };
        proof {
            assert(r.free_map() =~= zero_balances());
            assert(r.reserved_map() =~= zero_balances());
        }
        r
    }

    /// Reads the total issuance.
    pub fn issuance_value(&self) -> (r: u128)
        ensures
            r == self.spec_issuance(),
    {
        self.issuance
    }

    /// Reads the total balance of `a`, free and reserved together.
    pub fn total_balance(&self, a: u64) -> (r: u128)
        requires
            self.wf(),
        ensures
            r as int == self.free_map()[a] + self.reserved_map()[a],
    {
        proof {
            self.free.lemma_value_bound(a);
            self.reserved.lemma_value_bound(a);
        }
        self.free.get(a) + self.reserved.get(a)
    }

    /// Reads the free balance of `a`.
    pub fn free_balance(&self, a: u64) -> (r: u128)
        requires
            self.wf(),
        ensures
            r == self.free_map()[a],
    {
        self.free.get(a)
    }

    /// Reads the reserved balance of `a`.
    pub fn reserved_balance(&self, a: u64) -> (r: u128)
        requires
            self.wf(),
        ensures
            r == self.reserved_map()[a],
    {
        self.reserved.get(a)
    }

    /// One account's free and reserved balances together never exceed the
    /// issuance.
    pub proof fn lemma_total_le_issuance(self, a: u64)
        requires
            self.wf(),
        ensures
            self.free_map()[a] + self.reserved_map()[a] <= self.spec_issuance(),
    {
        self.free.lemma_value_bound(a);
        self.reserved.lemma_value_bound(a);
    }

    /// Sets the free balance of `a` to `v`, adjusting the issuance to match.
    /// The write is skipped when the adjusted issuance would not fit the
    /// balance type; returns whether it was applied.
    pub fn set_free_balance(&mut self, a: u64, v: u128) -> (applied: bool)
        requires
            old(self).wf(),
        ensures
            final(self).wf(),
            final(self).spec_ed() == old(self).spec_ed(),
            final(self).reserved_map() == old(self).reserved_map(),
            applied <==> old(self).spec_issuance() - old(self).free_map()[a] + v <= u128::MAX,
            applied ==> final(self).free_map() == old(self).free_map().insert(a, v)
                && final(self).spec_issuance() as int == old(self).spec_issuance()
                - old(self).free_map()[a] + v,
            !applied ==> *final(self) == *old(self),
    {
        proof {
            self.free.lemma_value_bound(a);
            self.reserved.lemma_value_bound(a);
        }
        let cur = self.free.get(a);
        let without = self.issuance - cur;
        if v <= u128::MAX - without {
            self.free.set(a, v);
            self.issuance = without + v;
            true
        } else {
            false
        }
    }

    /// Moves `amount` of `a`'s free balance into reserve; returns whether the
    /// free balance sufficed.
    pub fn reserve(&mut self, a: u64, amount: u128) -> (applied: bool)
        requires
            old(self).wf(),
        ensures
            final(self).wf(),
            final(self).spec_ed() == old(self).spec_ed(),
            final(self).spec_issuance() == old(self).spec_issuance(),
            applied <==> old(self).free_map()[a] >= amount,
            applied ==> final(self).free_map() == old(self).free_map().insert(
                a,
                (old(self).free_map()[a] - amount) as u128,
            ) && final(self).reserved_map() == old(self).reserved_map().insert(
                a,
                (old(self).reserved_map()[a] + amount) as u128,
            ),
            !applied ==> *final(self) == *old(self),
    {
        proof {
            self.free.lemma_value_bound(a);
            self.reserved.lemma_value_bound(a);
        }
        let cur = self.free.get(a);
        if cur >= amount {
            let res = self.reserved.get(a);
            self.free.set(a, cur - amount);
            self.reserved.set(a, res + amount);
            true
        } else {
            false
        }
    }

    /// Moves up to `amount` of `a`'s reserved balance back to its free
    /// balance; returns the portion that was not reserved and so not moved.
    pub fn unreserve(&mut self, a: u64, amount: u128) -> (remaining: u128)
        requires
            old(self).wf(),
        ensures
            final(self).wf(),
            final(self).spec_ed() == old(self).spec_ed(),
            final(self).spec_issuance() == old(self).spec_issuance(),
            remaining == if old(self).reserved_map()[a] >= amount {
                0u128
            } else {
                (amount - old(self).reserved_map()[a]) as u128
            },
            final(self).free_map() == old(self).free_map().insert(
                a,
                (old(self).free_map()[a] + (amount - remaining)) as u128,
            ),
            final(self).reserved_map() == old(self).reserved_map().insert(
                a,
                (old(self).reserved_map()[a] - (amount - remaining)) as u128,
            ),
    {
        proof {
            self.free.lemma_value_bound(a);
            self.reserved.lemma_value_bound(a);
        }
        let res = self.reserved.get(a);
        let moved = if res >= amount {
            amount
        } else {
            res
        };
        let cur = self.free.get(a);
        self.free.set(a, cur + moved);
        self.reserved.set(a, res - moved);
        amount - moved
    }

    /// Issues up to `amount` new units, saturating at the capacity of the
    /// balance type, and deposits them into `a`. The deposit is kept only if
    /// it brings `a`'s balance to the existential deposit; otherwise the
    /// issuance is rolled back. Returns the amount actually issued.
    pub fn deposit_creating(&mut self, a: u64, amount: u128) -> (credited: u128)
        requires
            old(self).wf(),
        ensures
            final(self).wf(),
            final(self).spec_ed() == old(self).spec_ed(),
            final(self).reserved_map() == old(self).reserved_map(),
            credited == credited_amount(old(self).spec_issuance(), amount),
            deposit_kept(old(self).free_map(), old(self).spec_ed(), a, credited)
                ==> final(self).free_map() == old(self).free_map().insert(
                a,
                (old(self).free_map()[a] + credited) as u128,
            ) && final(self).spec_issuance() == old(self).spec_issuance() + credited,
            !deposit_kept(old(self).free_map(), old(self).spec_ed(), a, credited)
                ==> *final(self) == *old(self),
    {
        proof {
            self.free.lemma_value_bound(a);
            self.reserved.lemma_value_bound(a);
        }
        let credited = if amount <= u128::MAX - self.issuance {
            amount
        } else {
            u128::MAX - self.issuance
        };
        let cur = self.free.get(a);
        let raised = cur + credited;
        if raised >= self.existential_deposit {
            self.free.set(a, raised);
            self.issuance = self.issuance + credited;
        }
        credited
    }

    /// Withdraws `amount` from `a`'s free balance and retires the units from
    /// the issuance, provided the remaining balance keeps the existential
    /// deposit; returns whether it was applied.
    pub fn withdraw(&mut self, a: u64, amount: u128) -> (applied: bool)
        requires
            old(self).wf(),
        ensures
            final(self).wf(),
            final(self).spec_ed() == old(self).spec_ed(),
            final(self).reserved_map() == old(self).reserved_map(),
            applied <==> can_withdraw(old(self).free_map(), old(self).spec_ed(), a, amount),
            applied ==> final(self).free_map() == old(self).free_map().insert(
                a,
                (old(self).free_map()[a] - amount) as u128,
            ) && final(self).spec_issuance() == old(self).spec_issuance() - amount,
            !applied ==> *final(self) == *old(self),
    {
        proof {
            self.free.lemma_value_bound(a);
            self.reserved.lemma_value_bound(a);
        }
        let cur = self.free.get(a);
        if cur >= amount && cur - amount >= self.existential_deposit {
            self.free.set(a, cur - amount);
            self.issuance = self.issuance - amount;
            true
        } else {
            false
        }
    }

    /// Moves `amount` from `from`'s free balance to `to`'s, provided the
    /// sender keeps the existential deposit and the recipient reaches it;
    /// returns whether it was applied.
    pub fn transfer(&mut self, from: u64, to: u64, amount: u128) -> (applied: bool)
        requires
            old(self).wf(),
            from != to,
        ensures
            final(self).wf(),
            final(self).spec_ed() == old(self).spec_ed(),
            final(self).spec_issuance() == old(self).spec_issuance(),
            final(self).reserved_map() == old(self).reserved_map(),
            applied <==> can_transfer(old(self).free_map(), old(self).spec_ed(), from, to, amount),
            applied ==> final(self).free_map() == old(self).free_map().insert(
                from,
                (old(self).free_map()[from] - amount) as u128,
            ).insert(to, (old(self).free_map()[to] + amount) as u128),
            !applied ==> *final(self) == *old(self),
    {
        proof {
            self.free.lemma_pair_bound(from, to);
            self.free.lemma_value_bound(from);
            self.free.lemma_value_bound(to);
            self.reserved.lemma_value_bound(from);
        }
        let cur_from = self.free.get(from);
        if cur_from >= amount && cur_from - amount >= self.existential_deposit {
            let cur_to = self.free.get(to);
            if cur_to + amount >= self.existential_deposit {
                self.free.set(from, cur_from - amount);
                self.free.set(to, cur_to + amount);
                return true;
            }
        }
        false
    }
}

} // verus!
