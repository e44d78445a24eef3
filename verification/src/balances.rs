use vstd::prelude::*;

verus! {

/// One account's balance: the reservable free part and the part currently
/// held as collateral.
struct Account {
    who: u64,
    free: u64,
    reserved: u64,
}

/// The collateral ledger: per-account free and reserved balances, with
/// reserve and unreserve moving a given amount between the two parts.
///
/// An account that was never credited has a free and a reserved balance
/// of zero.
pub struct Balances {
    accounts: Vec<Account>,
}

spec fn acct_match(accounts: Seq<Account>, who: u64, i: int) -> bool {
    0 <= i < accounts.len() && accounts[i].who == who
}

spec fn unique_accounts(accounts: Seq<Account>) -> bool {
    forall|i: int, j: int| 0 <= i < j < accounts.len() ==> accounts[i].who != accounts[j].who
}

impl Balances {
    /// Account identifiers occur at most once, and an account's total
    /// balance fits the balance type.
    pub closed spec fn wf(self) -> bool {
        &&& unique_accounts(self.accounts@)
        &&& forall|i: int|
            0 <= i < self.accounts@.len() ==> #[trigger] self.accounts@[i].free
                + self.accounts@[i].reserved <= u64::MAX
    }

    pub closed spec fn free(self, who: u64) -> u64 {
        if exists|i: int| acct_match(self.accounts@, who, i) {
            self.accounts@[choose|i: int| acct_match(self.accounts@, who, i)].free
        } else {
            0
        }
    }

    pub closed spec fn reserved(self, who: u64) -> u64 {
        if exists|i: int| acct_match(self.accounts@, who, i) {
            self.accounts@[choose|i: int| acct_match(self.accounts@, who, i)].reserved
        } else {
            0
        }
    }

    /// With unique account identifiers, an index holding `who` is the one
    /// `free` and `reserved` read from.
    proof fn lemma_found(self, who: u64, i: int)
        requires
            unique_accounts(self.accounts@),
            acct_match(self.accounts@, who, i),
        ensures
            self.free(who) == self.accounts@[i].free,
            self.reserved(who) == self.accounts@[i].reserved,
    {
        let j = choose|j: int| acct_match(self.accounts@, who, j);
        assert(acct_match(self.accounts@, who, j));
        if i != j {
            if i < j {
                assert(self.accounts@[i].who != self.accounts@[j].who);
            } else {
                assert(self.accounts@[j].who != self.accounts@[i].who);
            }
        }
    }

    /// An empty ledger: every balance is zero.
    pub fn new() -> (b: Balances)
        ensures
            b.wf(),
            forall|a: u64| b.free(a) == 0 && b.reserved(a) == 0,
    {
        Balances { accounts: Vec::new() }
    }

    fn find_index(&self, who: u64) -> (r: Option<usize>)
        ensures
            match r {
                Some(i) => acct_match(self.accounts@, who, i as int),
                None => forall|i: int| !acct_match(self.accounts@, who, i),
            },
    {
        let mut i: usize = 0;
        while i < self.accounts.len()
            invariant
                i <= self.accounts@.len(),
                forall|j: int| 0 <= j < i ==> !acct_match(self.accounts@, who, j),
            decreases self.accounts@.len() - i,
        {
            if self.accounts[i].who == who {
                return Some(i);
            }
            i = i + 1;
        }
        None
    }

    /// The index of `who`'s entry, adding a zero entry when there is none;
    /// every balance is left as it was.
    fn entry_index(&mut self, who: u64) -> (i: usize)
        requires
            old(self).wf(),
        ensures
            final(self).wf(),
            acct_match(final(self).accounts@, who, i as int),
            forall|a: u64|
                final(self).free(a) == old(self).free(a)
                    && final(self).reserved(a) == old(self).reserved(a),
    {
        match self.find_index(who) {
            Some(i) => i,
            None => {
                let i = self.accounts.len();
                self.accounts.push(Account { who, free: 0, reserved: 0 });
                proof {
                    let pre = old(self).accounts@;
                    let post = self.accounts@;
                    assert(self.wf()) by {
                        assert forall|a: int, b: int| 0 <= a < b < post.len() implies post[a].who
                            != post[b].who by {
                            if b == post.len() - 1 {
                                assert(!acct_match(pre, who, a));
                            }
                        }
                    }
                    assert forall|a: u64|
                        self.free(a) == old(self).free(a) && self.reserved(a) == old(self).reserved(
                            a,
                        ) by {
                        if a == who {
                            self.lemma_found(a, i as int);
                        } else {
                            if exists|k: int| acct_match(pre, a, k) {
                                let k = choose|k: int| acct_match(pre, a, k);
                                old(self).lemma_found(a, k);
                                assert(acct_match(post, a, k));
                                self.lemma_found(a, k);
                            } else {
                                assert forall|k: int| !acct_match(post, a, k) by {
                                    if acct_match(post, a, k) && k < pre.len() {
                                        assert(acct_match(pre, a, k));
                                    }
                                }
                            }
                        }
                    }
                }
                i
            },
        }
    }

    /// Credits `who` with a free balance of `amount`, clearing anything
    /// reserved; the genesis endowment of an account.
    pub fn set_balance(&mut self, who: u64, amount: u64)
        requires
            old(self).wf(),
        ensures
            final(self).wf(),
            final(self).free(who) == amount,
            final(self).reserved(who) == 0,
            forall|a: u64|
                a != who ==> final(self).free(a) == old(self).free(a) && final(self).reserved(a)
                    == old(self).reserved(a),
    {
        let i = self.entry_index(who);
        let ghost mid = *self;
        let entry = &mut self.accounts[i];
        entry.free = amount;
        entry.reserved = 0;
        proof {
            self.lemma_unique_update(mid, i as int, who);
            self.lemma_found(who, i as int);
        }
    }

    /// Whether `who`'s free balance covers `amount`.
    pub fn can_reserve(&self, who: u64, amount: u64) -> (r: bool)
        requires
            self.wf(),
        ensures
            r == (self.free(who) >= amount),
    {
        match self.find_index(who) {
            Some(i) => {
                proof {
                    self.lemma_found(who, i as int);
                }
                self.accounts[i].free >= amount
            },
            None => amount == 0,
        }
    }

    /// Moves `amount` from `who`'s free balance to its reserved balance.
    /// Fails, changing nothing, when the free balance does not cover it.
    pub fn reserve(&mut self, who: u64, amount: u64) -> (r: Result<(), ()>)
        requires
            old(self).wf(),
        ensures
            final(self).wf(),
            r is Ok <==> old(self).free(who) >= amount,
            r is Ok ==> final(self).free(who) == old(self).free(who) - amount
                && final(self).reserved(who) == old(self).reserved(who) + amount,
            r is Err ==> final(self).free(who) == old(self).free(who) && final(self).reserved(who)
                == old(self).reserved(who),
            forall|a: u64|
                a != who ==> final(self).free(a) == old(self).free(a) && final(self).reserved(a)
                    == old(self).reserved(a),
    {
        let i = self.entry_index(who);
        proof {
            self.lemma_found(who, i as int);
        }
        if self.accounts[i].free < amount {
            return Err(());
        }
        let ghost mid = *self;
        let entry = &mut self.accounts[i];
        entry.free = entry.free - amount;
        entry.reserved = entry.reserved + amount;
        proof {
            self.lemma_unique_update(mid, i as int, who);
            self.lemma_found(who, i as int);
        }
        Ok(())
    }

    /// Moves as much of `amount` back from `who`'s reserved balance to its
    /// free balance as is actually reserved.
    pub fn unreserve(&mut self, who: u64, amount: u64)
        requires
            old(self).wf(),
        ensures
            final(self).wf(),
            final(self).free(who) == old(self).free(who) + spec_min(
                amount as int,
                old(self).reserved(who) as int,
            ),
            final(self).reserved(who) == old(self).reserved(who) - spec_min(
                amount as int,
                old(self).reserved(who) as int,
            ),
            forall|a: u64|
                a != who ==> final(self).free(a) == old(self).free(a) && final(self).reserved(a)
                    == old(self).reserved(a),
    {
        let i = self.entry_index(who);
        proof {
            self.lemma_found(who, i as int);
        }
        let ghost mid = *self;
        let entry = &mut self.accounts[i];
        let moved = if amount <= entry.reserved {
            amount
        } else {
            entry.reserved
        };
        entry.free = entry.free + moved;
        entry.reserved = entry.reserved - moved;
        proof {
            self.lemma_unique_update(mid, i as int, who);
            self.lemma_found(who, i as int);
        }
    }

    pub fn free_balance(&self, who: u64) -> (r: u64)
        requires
            self.wf(),
        ensures
            r == self.free(who),
    {
        match self.find_index(who) {
            Some(i) => {
                proof {
                    self.lemma_found(who, i as int);
                }
                self.accounts[i].free
            },
            None => 0,
        }
    }

    pub fn reserved_balance(&self, who: u64) -> (r: u64)
        requires
            self.wf(),
        ensures
            r == self.reserved(who),
    {
        match self.find_index(who) {
            Some(i) => {
                proof {
                    self.lemma_found(who, i as int);
                }
                self.accounts[i].reserved
            },
            None => 0,
        }
    }

    /// An update of entry `i`, which holds `who` and keeps holding it,
    /// leaves every other account's balances unchanged.
    proof fn lemma_unique_update(self, pre: Balances, i: int, who: u64)
        requires
            pre.wf(),
            acct_match(pre.accounts@, who, i),
            self.accounts@.len() == pre.accounts@.len(),
            self.accounts@[i].who == who,
            forall|j: int| 0 <= j < pre.accounts@.len() && j != i ==> self.accounts@[j] == pre.accounts@[j],
        ensures
            self.wf() <==> (self.accounts@[i].free + self.accounts@[i].reserved <= u64::MAX),
            forall|a: u64|
                a != who ==> self.free(a) == pre.free(a) && self.reserved(a) == pre.reserved(a),
    {
        let post = self.accounts@;
        let prev = pre.accounts@;
        assert(forall|j: int| 0 <= j < prev.len() ==> post[j].who == prev[j].who);
        assert forall|a: int, b: int| 0 <= a < b < post.len() implies post[a].who != post[b].who by {}
        assert forall|a: u64| a != who implies self.free(a) == pre.free(a) && self.reserved(a)
            == pre.reserved(a) by {
            if exists|k: int| acct_match(prev, a, k) {
                let k = choose|k: int| acct_match(prev, a, k);
                pre.lemma_found(a, k);
                assert(k != i);
                assert(acct_match(post, a, k));
                self.lemma_found(a, k);
            } else {
                assert forall|k: int| !acct_match(post, a, k) by {
                    if acct_match(post, a, k) {
                        assert(k != i);
                        assert(acct_match(prev, a, k));
                    }
                }
            }
        }
    }
}

/// Both ledgers give every account the same balances.
pub open spec fn same_balances(a: Balances, b: Balances) -> bool {
    forall|w: u64| #![auto] b.free(w) == a.free(w) && b.reserved(w) == a.reserved(w)
}

pub open spec fn spec_min(a: int, b: int) -> int {
    if a <= b {
        a
    } else {
        b
    }
}

} // verus!
