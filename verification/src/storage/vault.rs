//! The funds ledger, held in memory.
use crate::error::Error;
use crate::ledger::{
    distinct_slots, holding, lemma_deposit_supply, lemma_holding_within_supply,
    lemma_lock_supply, lemma_recorded, lemma_supply_insert, lemma_transfer_supply,
    lemma_two_holdings_within_supply, lemma_unlock_supply, lemma_withdraw_supply, recorded,
    stake, storable, supply, Balance, Holding, Ledger,
};
use crate::traits::token_vault::{vault_ok, TokenVault};
use crate::types::{same_account, Token};
use ink::primitives::AccountId;
use vstd::prelude::*;

verus! {

/// The ledger: one balance record per (account, asset), created on first use.
#[derive(Debug)]
pub struct Vault {
    slots: Vec<Balance>,
}

/// Overwriting the record of a slot overwrites its entry in the ledger.
proof fn lemma_recorded_update(list: Seq<Balance>, at: int, record: Balance)
    requires
        distinct_slots(list),
        0 <= at < list.len(),
        record.key() == list[at].key(),
    ensures
        distinct_slots(list.update(at, record)),
        recorded(list.update(at, record)) == recorded(list).insert(record.key(), record.holding()),
{
    let after = list.update(at, record);
    assert(distinct_slots(after)) by {
        assert forall|i: int, j: int| 0 <= i < j < after.len() implies after[i].key()
            != after[j].key() by {
            assert(after[i].key() == list[i].key());
            assert(after[j].key() == list[j].key());
        }
    }
    lemma_recorded(list);
    lemma_recorded(after);
    let want = recorded(list).insert(record.key(), record.holding());
    assert forall|k: (AccountId, Token)| recorded(after).contains_key(k) implies want.contains_key(
        k,
    ) && want[k] == recorded(after)[k] by {
        let i = choose|i: int| 0 <= i < after.len() && #[trigger] after[i].key() == k;
        if i != at {
            assert(list[i].key() == k);
        }
    }
    assert forall|k: (AccountId, Token)| want.contains_key(k) implies recorded(
        after,
    ).contains_key(k) by {
        if k != record.key() {
            let i = choose|i: int| 0 <= i < list.len() && #[trigger] list[i].key() == k;
            assert(after[i].key() == k);
        } else {
            assert(after[at].key() == k);
        }
    }
    assert(recorded(after) =~= want);
}

/// Appending the record of a new slot adds its entry to the ledger.
proof fn lemma_recorded_push(list: Seq<Balance>, record: Balance)
    requires
        distinct_slots(list),
        !recorded(list).contains_key(record.key()),
    ensures
        distinct_slots(list.push(record)),
        recorded(list.push(record)) == recorded(list).insert(record.key(), record.holding()),
{
    lemma_recorded(list);
    assert(list.push(record).drop_last() =~= list);
}

/// One more record adds its stake to the supply of the records before it.
proof fn lemma_prefix_supply(list: Seq<Balance>, n: int, token: Token)
    requires
        distinct_slots(list),
        0 <= n < list.len(),
    ensures
        distinct_slots(list.subrange(0, n)),
        supply(recorded(list.subrange(0, n + 1)), token) == supply(
            recorded(list.subrange(0, n)),
            token,
        ) + stake(list[n].key(), list[n].holding(), token),
{
    let front = list.subrange(0, n);
    let grown = list.subrange(0, n + 1);
    assert(grown.drop_last() =~= front);
    assert(grown.last() == list[n]);
    assert(distinct_slots(front)) by {
        assert forall|i: int, j: int| 0 <= i < j < front.len() implies front[i].key()
            != front[j].key() by {
            assert(front[i] == list[i] && front[j] == list[j]);
        }
    }
    lemma_recorded(front);
    assert(!recorded(front).contains_key(list[n].key())) by {
        if recorded(front).contains_key(list[n].key()) {
            let i = choose|i: int| 0 <= i < front.len() && #[trigger] front[i].key() == list[n].key();
            assert(front[i] == list[i]);
        }
    }
    lemma_supply_insert(recorded(front), list[n].key(), list[n].holding(), token);
}

/// The first records hold no more of an asset than all records together.
proof fn lemma_prefix_supply_bounded(list: Seq<Balance>, n: int, token: Token)
    requires
        distinct_slots(list),
        0 <= n <= list.len(),
    ensures
        supply(recorded(list.subrange(0, n)), token) <= supply(recorded(list), token),
    decreases list.len() - n,
{
    if n < list.len() {
        lemma_prefix_supply(list, n, token);
        lemma_prefix_supply_bounded(list, n + 1, token);
    } else {
        assert(list.subrange(0, n) =~= list);
    }
}

/// The sum of two amounts, if it fits 128 bits.
fn sum_within_limit(a: u128, b: u128) -> (sum: Option<u128>)
    ensures
        sum == if a + b <= u128::MAX {
            Some((a + b) as u128)
        } else {
            None
        },
{
    if a <= u128::MAX - b {
        Some(a + b)
    } else {
        None
    }
}

/// What the records of a list hold of `token` between them, if that fits
/// 128 bits.
fn supply_within_limit(list: &Vec<Balance>, token: Token) -> (total: Option<u128>)
    requires
        distinct_slots(list@),
    ensures
        total == if supply(recorded(list@), token) <= u128::MAX {
            Some(supply(recorded(list@), token) as u128)
        } else {
            None
        },
{
    let mut total: u128 = 0;
    let mut i: usize = 0;
    proof {
        assert(list@.subrange(0, 0) =~= Seq::<Balance>::empty());
        assert(supply(recorded(Seq::<Balance>::empty()), token) == 0);
    }
    while i < list.len()
        invariant
            i <= list.len(),
            distinct_slots(list@),
            total == supply(recorded(list@.subrange(0, i as int)), token),
        decreases list.len() - i,
    {
        let record = list[i];
        proof {
            lemma_prefix_supply(list@, i as int, token);
            lemma_prefix_supply_bounded(list@, i + 1, token);
        }
        if record.token == token {
            let held = match sum_within_limit(record.available, record.locked) {
                Some(held) => held,
                None => {
                    return None;
                },
            };
            total = match sum_within_limit(total, held) {
                Some(sum) => sum,
                None => {
                    return None;
                },
            };
        }
        i += 1;
    }
    assert(list@.subrange(0, i as int) =~= list@);
    Some(total)
}

impl View for Vault {
    type V = Ledger;

    closed spec fn view(&self) -> Ledger {
        recorded(self.slots@)
    }
}

impl Vault {
    /// An empty ledger: every balance is zero.
    pub fn new() -> (vault: Self)
        ensures
            vault_ok(&vault),
            vault@ == Map::<(AccountId, Token), Holding>::empty(),
    {
        let vault = Vault { slots: Vec::new() };
        proof {
            assert(supply(vault@, Token::Base) == 0);
            assert(supply(vault@, Token::Quote) == 0);
        }
        vault
    }

    /// The balance records of the ledger, one per slot that was ever touched.
    pub fn balances(&self) -> (list: Vec<Balance>)
        requires
            vault_ok(self),
        ensures
            storable(list@),
            recorded(list@) == self@,
    {
        let mut list: Vec<Balance> = Vec::new();
        let mut i: usize = 0;
        while i < self.slots.len()
            invariant
                i <= self.slots.len(),
                list@ == self.slots@.subrange(0, i as int),
            decreases self.slots.len() - i,
        {
            list.push(self.slots[i]);
            assert(list@ =~= self.slots@.subrange(0, i + 1));
            i += 1;
        }
        assert(list@ =~= self.slots@);
        list
    }

    /// The ledger that a list of balance records stands for, if the list is
    /// one a ledger can be made of.
    pub fn restore(list: &Vec<Balance>) -> (restored: Option<Self>)
        ensures
            match restored {
                Some(vault) => storable(list@) && vault_ok(&vault) && vault@ == recorded(list@),
                None => !storable(list@),
            },
    {
        let mut vault = Vault { slots: Vec::new() };
        let mut i: usize = 0;
        while i < list.len()
            invariant
                i <= list.len(),
                vault.slots@ == list@.subrange(0, i as int),
                distinct_slots(vault.slots@),
            decreases list.len() - i,
        {
            let record = list[i];
            match vault.find(&record.account, record.token) {
                Some(j) => {
                    assert(list[j as int].key() == list[i as int].key());
                    return None;
                },
                None => {},
            }
            proof {
                lemma_recorded_push(vault.slots@, record);
            }
            vault.slots.push(record);
            assert(vault.slots@ =~= list@.subrange(0, i + 1));
            i += 1;
        }
        assert(vault.slots@ =~= list@);
        proof {
            lemma_recorded(list@);
        }
        if supply_within_limit(list, Token::Base).is_none() {
            return None;
        }
        if supply_within_limit(list, Token::Quote).is_none() {
            return None;
        }
        Some(vault)
    }

    /// A copy of the ledger.
    pub fn snapshot(&self) -> (copy: Self)
        ensures
            copy@ == self@,
            copy.wf() == self.wf(),
    {
        let mut slots: Vec<Balance> = Vec::new();
        let mut i: usize = 0;
        while i < self.slots.len()
            invariant
                i <= self.slots.len(),
                slots@ == self.slots@.subrange(0, i as int),
            decreases self.slots.len() - i,
        {
            slots.push(self.slots[i]);
            assert(slots@ =~= self.slots@.subrange(0, i + 1));
            i += 1;
        }
        assert(slots@ =~= self.slots@);
        Vault { slots }
    }

    /// The supply of `token`: what all accounts together hold of it,
    /// spendable or escrowed.
    pub fn total_supply(&self, token: Token) -> (total: u128)
        requires
            vault_ok(self),
        ensures
            total == supply(self@, token),
    {
        match supply_within_limit(&self.slots, token) {
            Some(total) => total,
            None => 0,
        }
    }

    /// Where the record of `acct_id` and `token` is kept, if it exists.
    fn find(&self, acct_id: &AccountId, token: Token) -> (at: Option<usize>)
        requires
            self.wf(),
        ensures
            match at {
                Some(i) => i < self.slots.len() && self.slots[i as int].key() == (*acct_id, token),
                None => !self@.contains_key((*acct_id, token)),
            },
    {
        proof {
            lemma_recorded(self.slots@);
        }
        let mut i: usize = 0;
        while i < self.slots.len()
            invariant
                i <= self.slots.len(),
                forall|j: int| 0 <= j < i ==> self.slots[j].key() != (*acct_id, token),
            decreases self.slots.len() - i,
        {
            if same_account(&self.slots[i].account, acct_id) && self.slots[i].token == token {
                return Some(i);
            }
            i += 1;
        }
        None
    }

    /// The balance record of a slot; all zero if the slot does not exist yet.
    fn get_or_default(&self, acct_id: AccountId, token: Token) -> (record: Balance)
        requires
            self.wf(),
        ensures
            record.key() == (acct_id, token),
            record.holding() == holding(self@, acct_id, token),
    {
        proof {
            lemma_recorded(self.slots@);
        }
        match self.find(&acct_id, token) {
            Some(i) => self.slots[i],
            None => Balance { account: acct_id, token, available: 0, locked: 0 },
        }
    }

    /// Writes the balance record of a slot, creating the slot if need be.
    fn put(&mut self, record: Balance)
        requires
            old(self).wf(),
        ensures
            final(self).wf(),
            final(self)@ == old(self)@.insert(record.key(), record.holding()),
    {
        match self.find(&record.account, record.token) {
            Some(i) => {
                proof {
                    lemma_recorded_update(self.slots@, i as int, record);
                }
                self.slots.set(i, record);
            },
            None => {
                proof {
                    lemma_recorded_push(self.slots@, record);
                }
                self.slots.push(record);
            },
        }
    }
}

impl Default for Vault {
    fn default() -> (vault: Self)
        ensures
            vault_ok(&vault),
            vault@ == Map::<(AccountId, Token), Holding>::empty(),
    {
        Vault::new()
    }
}

impl TokenVault for Vault {
    open spec fn ledger(&self) -> Ledger {
        self@
    }

    closed spec fn wf(&self) -> bool {
        distinct_slots(self.slots@)
    }

    fn get_balance(&self, acct_id: AccountId, token: Token) -> (amt: u128) {
        self.get_or_default(acct_id, token).available
    }

    fn get_locked(&self, acct_id: AccountId, token: Token) -> (amt: u128) {
        self.get_or_default(acct_id, token).locked
    }

    fn deposit(&mut self, acct_id: AccountId, token: Token, amt: u128) {
        let mut acct = self.get_or_default(acct_id, token);
        proof {
            lemma_recorded(self.slots@);
            lemma_holding_within_supply(self@, acct_id, token);
            lemma_deposit_supply(self@, acct_id, token, amt as nat, Token::Base);
            lemma_deposit_supply(self@, acct_id, token, amt as nat, Token::Quote);
        }
        acct.available = acct.available + amt;
        self.put(acct);
    }

    fn withdraw(&mut self, acct_id: AccountId, token: Token, amt: u128) -> (r: Result<(), Error>) {
        let mut acct = self.get_or_default(acct_id, token);
        if acct.available < amt {
            return Err(Error::InsufficientBalance(token));
        }
        proof {
            lemma_recorded(self.slots@);
            lemma_withdraw_supply(self@, acct_id, token, amt as nat, Token::Base);
            lemma_withdraw_supply(self@, acct_id, token, amt as nat, Token::Quote);
        }
        acct.available = acct.available - amt;
        self.put(acct);
        Ok(())
    }

    fn lock(&mut self, acct_id: AccountId, token: Token, amt: u128) -> (r: Result<(), Error>) {
        let mut acct = self.get_or_default(acct_id, token);
        if acct.available < amt {
            return Err(Error::InsufficientBalance(token));
        }
        proof {
            lemma_recorded(self.slots@);
            lemma_holding_within_supply(self@, acct_id, token);
            lemma_lock_supply(self@, acct_id, token, amt as nat, Token::Base);
            lemma_lock_supply(self@, acct_id, token, amt as nat, Token::Quote);
        }
        acct.available = acct.available - amt;
        acct.locked = acct.locked + amt;
        self.put(acct);
        Ok(())
    }

    fn unlock(&mut self, acct_id: AccountId, token: Token, amt: u128) -> (r: Result<(), Error>) {
        let mut acct = self.get_or_default(acct_id, token);
        if acct.locked < amt {
            return Err(Error::InsufficientLockedBalance(token));
        }
        proof {
            lemma_recorded(self.slots@);
            lemma_holding_within_supply(self@, acct_id, token);
            lemma_unlock_supply(self@, acct_id, token, amt as nat, Token::Base);
            lemma_unlock_supply(self@, acct_id, token, amt as nat, Token::Quote);
        }
        acct.locked = acct.locked - amt;
        acct.available = acct.available + amt;
        self.put(acct);
        Ok(())
    }

    fn transfer_locked(&mut self, from: AccountId, to: AccountId, token: Token, amt: u128) -> (r:
        Result<(), Error>) {
        if same_account(&from, &to) {
            return Err(Error::InvalidTransfer("Cannot transfer locked to self".to_string()));
        }
        let mut from_acct = self.get_or_default(from, token);
        if from_acct.locked < amt {
            return Err(Error::InsufficientLockedBalance(token));
        }
        let mut to_acct = self.get_or_default(to, token);
        proof {
            lemma_recorded(self.slots@);
            lemma_two_holdings_within_supply(self@, from, to, token);
            lemma_transfer_supply(self@, from, to, token, amt as nat, Token::Base);
            lemma_transfer_supply(self@, from, to, token, amt as nat, Token::Quote);
        }
        from_acct.locked = from_acct.locked - amt;
        self.put(from_acct);
        to_acct.available = to_acct.available + amt;
        self.put(to_acct);
        Ok(())
    }
}

} // verus!
