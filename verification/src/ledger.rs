//! A model of the external currency ledger at the interface the engine
//! consumes: per-account free and reserved balances, with reserve,
//! unreserve and transfer over them. Accounts that were never endowed hold
//! zero. Existence rules of a richer currency system (minimum deposits,
//! account reaping) are outside this interface.

use std::collections::HashMap;
use vstd::prelude::*;

use crate::errors::Error;

verus! {

broadcast use vstd::std_specs::hash::group_hash_axioms;

/// The two balances an account holds: freely usable funds and funds
/// reserved as collateral.
#[derive(Clone, Copy, PartialEq, Eq, Structural, Debug)]
pub struct AccountBalance {
    pub free: u64,
    pub reserved: u64,
}

/// The currency ledger: a finite table of endowed accounts; every other
/// account holds zero free and zero reserved funds.
pub struct Ledger {
    accounts: HashMap<u64, AccountBalance>,
}

impl Ledger {
    /// The free balance of an account.
    pub closed spec fn spec_free(self, who: u64) -> u64 {
        if self.accounts@.contains_key(who) {
            self.accounts@[who].free
        } else {
            0
        }
    }

    /// The reserved balance of an account.
    pub closed spec fn spec_reserved(self, who: u64) -> u64 {
        if self.accounts@.contains_key(who) {
            self.accounts@[who].reserved
        } else {
            0
        }
    }

    /// No account's two balances together exceed what the balance type can
    /// carry, so moving funds between the two sides of one account can
    /// never overflow.
    pub open spec fn wf(self) -> bool {
        forall|a: u64|
            #![trigger self.spec_free(a), self.spec_reserved(a)]
            self.spec_free(a) + self.spec_reserved(a) <= u64::MAX
    }

    /// Both balances of every account other than `who` are the same in
    /// `self` as in `other`.
    pub open spec fn same_except(self, other: Ledger, who: u64) -> bool {
        forall|a: u64|
            #![trigger other.spec_free(a)]
            #![trigger other.spec_reserved(a)]
            a != who ==> other.spec_free(a) == self.spec_free(a) && other.spec_reserved(a)
                == self.spec_reserved(a)
    }

    /// Both balances of every account other than `x` and `y` are the same
    /// in `self` as in `other`.
    pub open spec fn same_except_two(self, other: Ledger, x: u64, y: u64) -> bool {
        forall|a: u64|
            #![trigger other.spec_free(a)]
            #![trigger other.spec_reserved(a)]
            a != x && a != y ==> other.spec_free(a) == self.spec_free(a) && other.spec_reserved(a)
                == self.spec_reserved(a)
    }

    /// Both balances of every account are the same in `self` as in `other`.
    pub open spec fn same_balances(self, other: Ledger) -> bool {
        forall|a: u64|
            #![trigger other.spec_free(a)]
            #![trigger other.spec_reserved(a)]
            other.spec_free(a) == self.spec_free(a) && other.spec_reserved(a) == self.spec_reserved(
                a,
            )
    }

    /// An update that touches one account and keeps its combined balance
    /// within range keeps the whole ledger well formed.
    proof fn lemma_wf_update(pre: Ledger, post: Ledger, who: u64)
        requires
            pre.wf(),
            post.spec_free(who) + post.spec_reserved(who) <= u64::MAX,
            pre.same_except(post, who),
        ensures
            post.wf(),
    {
        assert forall|a: u64|
            #[trigger] post.spec_free(a) + #[trigger] post.spec_reserved(a)
                <= u64::MAX by {
            if a != who {
                assert(pre.spec_free(a) + pre.spec_reserved(a) <= u64::MAX);
            }
        }
    }

    /// An update that touches two accounts and keeps both combined
    /// balances within range keeps the whole ledger well formed.
    proof fn lemma_wf_update_two(pre: Ledger, post: Ledger, x: u64, y: u64)
        requires
            pre.wf(),
            post.spec_free(x) + post.spec_reserved(x) <= u64::MAX,
            post.spec_free(y) + post.spec_reserved(y) <= u64::MAX,
            pre.same_except_two(post, x, y),
        ensures
            post.wf(),
    {
        assert forall|a: u64|
            #[trigger] post.spec_free(a) + #[trigger] post.spec_reserved(a)
                <= u64::MAX by {
            if a != x && a != y {
                assert(pre.spec_free(a) + pre.spec_reserved(a) <= u64::MAX);
            }
        }
    }

    /// An empty ledger: every account holds zero.
    pub fn new() -> (r: Ledger)
        ensures
            r.wf(),
            forall|a: u64| #[trigger] r.spec_free(a) == 0 && r.spec_reserved(a) == 0,
    {
        Ledger { accounts: HashMap::new() }
    }

    /// Endows an account with a free balance and no reserved funds, as a
    /// genesis configuration does.
    pub fn set_balance(&mut self, who: u64, free: u64)
        requires
            old(self).wf(),
        ensures
            final(self).wf(),
            final(self).spec_free(who) == free,
            final(self).spec_reserved(who) == 0,
            old(self).same_except(*final(self), who),
    {
        self.accounts.insert(who, AccountBalance { free, reserved: 0 });
        proof {
            Ledger::lemma_wf_update(*old(self), *self, who);
        }
    }

    /// The free balance of an account.
    pub fn free_balance(&self, who: u64) -> (r: u64)
        ensures
            r == self.spec_free(who),
    {
        match self.accounts.get(&who) {
            Some(b) => b.free,
            None => 0,
        }
    }

    /// The reserved balance of an account.
    pub fn reserved_balance(&self, who: u64) -> (r: u64)
        ensures
            r == self.spec_reserved(who),
    {
        match self.accounts.get(&who) {
            Some(b) => b.reserved,
            None => 0,
        }
    }

    /// Moves `amount` from `who`'s free balance into reserve. Succeeds if
    /// and only if the free balance covers the amount; on failure nothing
    /// changes.
    pub fn reserve(&mut self, who: u64, amount: u64) -> (r: Result<(), Error>)
        requires
            old(self).wf(),
        ensures
            final(self).wf(),
            r is Ok <==> old(self).spec_free(who) >= amount,
            r is Err ==> r == Err::<(), Error>(Error::NotEnoughBalance),
            r is Ok ==> final(self).spec_free(who) == old(self).spec_free(who) - amount
                && final(self).spec_reserved(who) == old(self).spec_reserved(who) + amount,
            r is Err ==> *final(self) == *old(self),
            old(self).same_except(*final(self), who),
    {
        let b = match self.accounts.get(&who) {
            Some(b) => *b,
            None => AccountBalance { free: 0, reserved: 0 },
        };
        proof {
            assert(old(self).spec_free(who) + old(self).spec_reserved(who) <= u64::MAX);
        }
        if b.free >= amount {
            self.accounts.insert(
                who,
                AccountBalance { free: b.free - amount, reserved: b.reserved + amount },
            );
            proof {
                Ledger::lemma_wf_update(*old(self), *self, who);
            }
            Ok(())
        } else {
            Err(Error::NotEnoughBalance)
        }
    }

    /// Moves as much of `amount` as is actually reserved back into `who`'s
    /// free balance, and returns the part that was not reserved and so
    /// could not be moved. Never fails.
    pub fn unreserve(&mut self, who: u64, amount: u64) -> (rest: u64)
        requires
            old(self).wf(),
        ensures
            final(self).wf(),
            rest == if old(self).spec_reserved(who) < amount {
                amount - old(self).spec_reserved(who)
            } else {
                0
            },
            final(self).spec_free(who) == old(self).spec_free(who) + (amount - rest),
            final(self).spec_reserved(who) == old(self).spec_reserved(who) - (amount - rest),
            old(self).same_except(*final(self), who),
    {
        let b = match self.accounts.get(&who) {
            Some(b) => *b,
            None => AccountBalance { free: 0, reserved: 0 },
        };
        let moved = if b.reserved < amount {
            b.reserved
        } else {
            amount
        };
        proof {
            assert(old(self).spec_free(who) + old(self).spec_reserved(who) <= u64::MAX);
        }
        self.accounts.insert(
            who,
            AccountBalance { free: b.free + moved, reserved: b.reserved - moved },
        );
        proof {
            Ledger::lemma_wf_update(*old(self), *self, who);
        }
        amount - moved
    }

    /// Pays `amount` from `from`'s free balance into `to`'s free balance.
    /// Succeeds if and only if the source's free balance covers the amount
    /// and the destination can absorb it without overflowing; on failure
    /// nothing changes. A payment to oneself succeeds under the same cover
    /// condition and moves nothing.
    pub fn transfer(&mut self, from: u64, to: u64, amount: u64) -> (r: Result<(), Error>)
        requires
            old(self).wf(),
        ensures
            final(self).wf(),
            r is Ok <==> old(self).spec_free(from) >= amount && (from == to || old(self).spec_free(
                to,
            ) + old(self).spec_reserved(to) + amount <= u64::MAX),
            r is Err ==> r == Err::<(), Error>(Error::NotEnoughBalance),
            r is Err ==> *final(self) == *old(self),
            r is Ok && from == to ==> old(self).same_balances(*final(self)),
            r is Ok && from != to ==> final(self).spec_free(from) == old(self).spec_free(from)
                - amount && final(self).spec_reserved(from) == old(self).spec_reserved(from)
                && final(self).spec_free(to) == old(self).spec_free(to) + amount
                && final(self).spec_reserved(to) == old(self).spec_reserved(to),
            old(self).same_except_two(*final(self), from, to),
    {
        let src = match self.accounts.get(&from) {
            Some(b) => *b,
            None => AccountBalance { free: 0, reserved: 0 },
        };
        if src.free < amount {
            return Err(Error::NotEnoughBalance);
        }
        if from == to {
            return Ok(());
        }
        let dst = match self.accounts.get(&to) {
            Some(b) => *b,
            None => AccountBalance { free: 0, reserved: 0 },
        };
        if amount > u64::MAX - dst.free || dst.free + amount > u64::MAX - dst.reserved {
            return Err(Error::NotEnoughBalance);
        }
        proof {
            assert(old(self).spec_free(from) + old(self).spec_reserved(from) <= u64::MAX);
            assert(old(self).spec_free(to) + old(self).spec_reserved(to) <= u64::MAX);
        }
        self.accounts.insert(
            from,
            AccountBalance { free: src.free - amount, reserved: src.reserved },
        );
        self.accounts.insert(
            to,
            AccountBalance { free: dst.free + amount, reserved: dst.reserved },
        );
        proof {
            Ledger::lemma_wf_update_two(*old(self), *self, from, to);
        }
        Ok(())
    }
}

} // verus!
