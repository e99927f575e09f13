//! The mathematical model of the funds ledger, and the laws it obeys.
//!
//! A ledger is a finite map from (account, asset) to a pair of natural
//! numbers: the funds the account may spend, and the funds held in escrow.
//! A slot that was never touched is absent and counts as zero.
use crate::types::Token;
use ink::primitives::AccountId;
use vstd::prelude::*;

verus! {

/// Spendable and escrowed funds of one account in one asset.
pub struct Holding {
    pub available: nat,
    pub locked: nat,
}

/// The ledger as a mathematical object.
pub type Ledger = Map<(AccountId, Token), Holding>;

/// One balance record as it is kept in memory and handed out for storage.
#[derive(Debug, Clone, Copy, PartialEq, Eq)]
pub struct Balance {
    pub account: AccountId,
    pub token: Token,
    pub available: u128,
    pub locked: u128,
}

impl Balance {
    /// The slot this record belongs to.
    pub open spec fn key(self) -> (AccountId, Token) {
        (self.account, self.token)
    }

    /// The funds this record holds.
    pub open spec fn holding(self) -> Holding {
        Holding { available: self.available as nat, locked: self.locked as nat }
    }
}

/// The ledger that a list of balance records stands for.
pub open spec fn recorded(list: Seq<Balance>) -> Ledger
    decreases list.len(),
{
    if list.len() == 0 {
        Map::empty()
    } else {
        recorded(list.drop_last()).insert(list.last().key(), list.last().holding())
    }
}

/// No two records belong to the same account and asset.
pub open spec fn distinct_slots(list: Seq<Balance>) -> bool {
    forall|i: int, j: int| 0 <= i < j < list.len() ==> list[i].key() != list[j].key()
}

/// A list of balance records that a ledger can be made of: one record per
/// slot, and a supply of each asset that fits the 128-bit balances.
pub open spec fn storable(list: Seq<Balance>) -> bool {
    &&& distinct_slots(list)
    &&& ledger_wf(recorded(list))
}

/// The ledger holds exactly the records' slots, each with its record's funds.
pub proof fn lemma_recorded(list: Seq<Balance>)
    requires
        distinct_slots(list),
    ensures
        recorded(list).dom().finite(),
        forall|i: int|
            0 <= i < list.len() ==> recorded(list).contains_key(#[trigger] list[i].key())
                && recorded(list)[list[i].key()] == list[i].holding(),
        forall|k: (AccountId, Token)|
            recorded(list).contains_key(k) ==> exists|i: int|
                0 <= i < list.len() && #[trigger] list[i].key() == k,
    decreases list.len(),
{
    if list.len() > 0 {
        let front = list.drop_last();
        lemma_recorded(front);
        assert forall|i: int| 0 <= i < list.len() implies recorded(list).contains_key(
            #[trigger] list[i].key(),
        ) && recorded(list)[list[i].key()] == list[i].holding() by {
            if i < list.len() - 1 {
                assert(front[i] == list[i]);
            }
        }
        assert forall|k: (AccountId, Token)| recorded(list).contains_key(k) implies exists|i: int|
            0 <= i < list.len() && #[trigger] list[i].key() == k by {
            if k == list.last().key() {
                assert(list[list.len() - 1].key() == k);
            } else {
                let i = choose|i: int| 0 <= i < front.len() && #[trigger] front[i].key() == k;
                assert(list[i].key() == k);
            }
        }
    }
}

/// The five primitive ledger operations.
pub enum LedgerOp {
    Deposit { who: AccountId, token: Token, amt: nat },
    Withdraw { who: AccountId, token: Token, amt: nat },
    Lock { who: AccountId, token: Token, amt: nat },
    Unlock { who: AccountId, token: Token, amt: nat },
    TransferLocked { from: AccountId, to: AccountId, token: Token, amt: nat },
}

/// The holding of `who` in `token`; zero for a slot that does not exist yet.
pub open spec fn holding(l: Ledger, who: AccountId, token: Token) -> Holding {
    if l.contains_key((who, token)) {
        l[(who, token)]
    } else {
        Holding { available: 0, locked: 0 }
    }
}

pub open spec fn available(l: Ledger, who: AccountId, token: Token) -> nat {
    holding(l, who, token).available
}

pub open spec fn locked(l: Ledger, who: AccountId, token: Token) -> nat {
    holding(l, who, token).locked
}

/// `available += amt`.
pub open spec fn deposited(l: Ledger, who: AccountId, token: Token, amt: nat) -> Ledger {
    let h = holding(l, who, token);
    l.insert((who, token), Holding { available: h.available + amt, locked: h.locked })
}

/// `available -= amt`; meaningful when `amt <= available`.
pub open spec fn withdrawn(l: Ledger, who: AccountId, token: Token, amt: nat) -> Ledger {
    let h = holding(l, who, token);
    l.insert((who, token), Holding { available: (h.available - amt) as nat, locked: h.locked })
}

/// `available -= amt; locked += amt`; meaningful when `amt <= available`.
pub open spec fn reserved(l: Ledger, who: AccountId, token: Token, amt: nat) -> Ledger {
    let h = holding(l, who, token);
    l.insert(
        (who, token),
        Holding { available: (h.available - amt) as nat, locked: h.locked + amt },
    )
}

/// `locked -= amt; available += amt`; meaningful when `amt <= locked`.
pub open spec fn released(l: Ledger, who: AccountId, token: Token, amt: nat) -> Ledger {
    let h = holding(l, who, token);
    l.insert(
        (who, token),
        Holding { available: h.available + amt, locked: (h.locked - amt) as nat },
    )
}

/// `from.locked -= amt; to.available += amt`; meaningful when `from != to`
/// and `amt <= from.locked`.
pub open spec fn transferred(
    l: Ledger,
    from: AccountId,
    to: AccountId,
    token: Token,
    amt: nat,
) -> Ledger {
    let f = holding(l, from, token);
    let debited = l.insert(
        (from, token),
        Holding { available: f.available, locked: (f.locked - amt) as nat },
    );
    deposited(debited, to, token, amt)
}

/// Whether the ledger carries out `op`. An operation that is not permitted
/// would drive a balance below zero, or move funds from an account to itself.
pub open spec fn permitted(l: Ledger, op: LedgerOp) -> bool {
    match op {
        LedgerOp::Deposit { .. } => true,
        LedgerOp::Withdraw { who, token, amt } => amt <= available(l, who, token),
        LedgerOp::Lock { who, token, amt } => amt <= available(l, who, token),
        LedgerOp::Unlock { who, token, amt } => amt <= locked(l, who, token),
        LedgerOp::TransferLocked { from, to, token, amt } => from != to && amt <= locked(
            l,
            from,
            token,
        ),
    }
}

/// The ledger after `op`: a permitted operation is carried out, any other
/// leaves the ledger as it was.
pub open spec fn applied(l: Ledger, op: LedgerOp) -> Ledger {
    if !permitted(l, op) {
        l
    } else {
        match op {
            LedgerOp::Deposit { who, token, amt } => deposited(l, who, token, amt),
            LedgerOp::Withdraw { who, token, amt } => withdrawn(l, who, token, amt),
            LedgerOp::Lock { who, token, amt } => reserved(l, who, token, amt),
            LedgerOp::Unlock { who, token, amt } => released(l, who, token, amt),
            LedgerOp::TransferLocked { from, to, token, amt } => transferred(
                l,
                from,
                to,
                token,
                amt,
            ),
        }
    }
}

/// The ledger after a whole sequence of operations, first to last.
pub open spec fn applied_all(l: Ledger, ops: Seq<LedgerOp>) -> Ledger
    decreases ops.len(),
{
    if ops.len() == 0 {
        l
    } else {
        applied_all(applied(l, ops[0]), ops.subrange(1, ops.len() as int))
    }
}

/// What `op` adds to the supply of `token` when it is carried out on `l`:
/// a deposit adds its amount, a permitted withdrawal takes its amount away,
/// everything else adds nothing.
pub open spec fn inflow(l: Ledger, op: LedgerOp, token: Token) -> int {
    match op {
        LedgerOp::Deposit { who, token: t, amt } => if t == token {
            amt as int
        } else {
            0
        },
        LedgerOp::Withdraw { who, token: t, amt } => if t == token && permitted(l, op) {
            -(amt as int)
        } else {
            0
        },
        _ => 0,
    }
}

/// Deposits minus withdrawals of `token` over a sequence of operations that
/// starts on `l`.
pub open spec fn net_inflow(l: Ledger, ops: Seq<LedgerOp>, token: Token) -> int
    decreases ops.len(),
{
    if ops.len() == 0 {
        0
    } else {
        inflow(l, ops[0], token) + net_inflow(
            applied(l, ops[0]),
            ops.subrange(1, ops.len() as int),
            token,
        )
    }
}

/// What one slot contributes to the supply of `token`.
pub open spec fn stake(key: (AccountId, Token), h: Holding, token: Token) -> nat {
    if key.1 == token {
        h.available + h.locked
    } else {
        0
    }
}

/// The supply of `token`: the sum of `available + locked` over all accounts.
pub open spec fn supply(l: Ledger, token: Token) -> nat
    decreases l.dom().len(),
    when l.dom().finite()
{
    if l.dom().len() == 0 {
        0
    } else {
        let key = l.dom().choose();
        stake(key, l[key], token) + supply(l.remove(key), token)
    }
}

/// A ledger the engine can work on: finitely many slots, and a supply of
/// each asset that fits the 128-bit balances.
pub open spec fn ledger_wf(l: Ledger) -> bool {
    &&& l.dom().finite()
    &&& supply(l, Token::Base) <= u128::MAX
    &&& supply(l, Token::Quote) <= u128::MAX
}

/// The supply can be summed starting from any slot, not only the chosen one.
pub proof fn lemma_supply_split(l: Ledger, key: (AccountId, Token), token: Token)
    requires
        l.dom().finite(),
        l.contains_key(key),
    ensures
        supply(l, token) == stake(key, l[key], token) + supply(l.remove(key), token),
    decreases l.dom().len(),
{
    let first = l.dom().choose();
    if first != key {
        lemma_supply_split(l.remove(first), key, token);
        lemma_supply_split(l.remove(key), first, token);
        assert(l.remove(first).remove(key) =~= l.remove(key).remove(first));
    }
}

/// Writing one slot changes the supply by the difference of its stakes.
pub proof fn lemma_supply_insert(l: Ledger, key: (AccountId, Token), h: Holding, token: Token)
    requires
        l.dom().finite(),
    ensures
        supply(l.insert(key, h), token) + stake(key, holding(l, key.0, key.1), token) == supply(
            l,
            token,
        ) + stake(key, h, token),
{
    let after = l.insert(key, h);
    lemma_supply_split(after, key, token);
    assert(after.remove(key) =~= l.remove(key));
    if l.contains_key(key) {
        lemma_supply_split(l, key, token);
    } else {
        assert(l.remove(key) =~= l);
    }
}

/// No account holds more of an asset than exists of it.
pub proof fn lemma_holding_within_supply(l: Ledger, who: AccountId, token: Token)
    requires
        l.dom().finite(),
    ensures
        available(l, who, token) + locked(l, who, token) <= supply(l, token),
{
    if l.contains_key((who, token)) {
        lemma_supply_split(l, (who, token), token);
    }
}

/// Two distinct accounts together hold no more of an asset than exists of it.
pub proof fn lemma_two_holdings_within_supply(
    l: Ledger,
    a: AccountId,
    b: AccountId,
    token: Token,
)
    requires
        l.dom().finite(),
        a != b,
    ensures
        available(l, a, token) + locked(l, a, token) + available(l, b, token) + locked(
            l,
            b,
            token,
        ) <= supply(l, token),
{
    if l.contains_key((a, token)) {
        lemma_supply_split(l, (a, token), token);
        lemma_holding_within_supply(l.remove((a, token)), b, token);
    } else {
        lemma_holding_within_supply(l, b, token);
    }
}

/// A deposit raises the supply of its asset by its amount and leaves the
/// other asset's supply alone.
pub proof fn lemma_deposit_supply(l: Ledger, who: AccountId, token: Token, amt: nat, of: Token)
    requires
        l.dom().finite(),
    ensures
        deposited(l, who, token, amt).dom().finite(),
        supply(deposited(l, who, token, amt), of) == supply(l, of) + if of == token {
            amt
        } else {
            0
        },
{
    let h = holding(l, who, token);
    lemma_supply_insert(
        l,
        (who, token),
        Holding { available: h.available + amt, locked: h.locked },
        of,
    );
}

/// A permitted withdrawal lowers the supply of its asset by its amount.
pub proof fn lemma_withdraw_supply(l: Ledger, who: AccountId, token: Token, amt: nat, of: Token)
    requires
        l.dom().finite(),
        amt <= available(l, who, token),
    ensures
        withdrawn(l, who, token, amt).dom().finite(),
        supply(withdrawn(l, who, token, amt), of) + (if of == token {
            amt
        } else {
            0
        }) == supply(l, of),
{
    let h = holding(l, who, token);
    lemma_supply_insert(
        l,
        (who, token),
        Holding { available: (h.available - amt) as nat, locked: h.locked },
        of,
    );
}

/// Locking moves funds inside one slot: no supply changes.
pub proof fn lemma_lock_supply(l: Ledger, who: AccountId, token: Token, amt: nat, of: Token)
    requires
        l.dom().finite(),
        amt <= available(l, who, token),
    ensures
        reserved(l, who, token, amt).dom().finite(),
        supply(reserved(l, who, token, amt), of) == supply(l, of),
{
    let h = holding(l, who, token);
    lemma_supply_insert(
        l,
        (who, token),
        Holding { available: (h.available - amt) as nat, locked: h.locked + amt },
        of,
    );
}

/// Unlocking moves funds inside one slot: no supply changes.
pub proof fn lemma_unlock_supply(l: Ledger, who: AccountId, token: Token, amt: nat, of: Token)
    requires
        l.dom().finite(),
        amt <= locked(l, who, token),
    ensures
        released(l, who, token, amt).dom().finite(),
        supply(released(l, who, token, amt), of) == supply(l, of),
{
    let h = holding(l, who, token);
    lemma_supply_insert(
        l,
        (who, token),
        Holding { available: h.available + amt, locked: (h.locked - amt) as nat },
        of,
    );
}

/// A transfer out of escrow moves funds between two slots of one asset: no
/// supply changes.
pub proof fn lemma_transfer_supply(
    l: Ledger,
    from: AccountId,
    to: AccountId,
    token: Token,
    amt: nat,
    of: Token,
)
    requires
        l.dom().finite(),
        amt <= locked(l, from, token),
    ensures
        transferred(l, from, to, token, amt).dom().finite(),
        supply(transferred(l, from, to, token, amt), of) == supply(l, of),
{
    let f = holding(l, from, token);
    let debited = l.insert(
        (from, token),
        Holding { available: f.available, locked: (f.locked - amt) as nat },
    );
    lemma_supply_insert(
        l,
        (from, token),
        Holding { available: f.available, locked: (f.locked - amt) as nat },
        of,
    );
    lemma_deposit_supply(debited, to, token, amt, of);
}

/// One operation changes the supply of an asset by exactly its inflow.
pub proof fn lemma_applied_supply(l: Ledger, op: LedgerOp, token: Token)
    requires
        l.dom().finite(),
    ensures
        applied(l, op).dom().finite(),
        supply(applied(l, op), token) == supply(l, token) + inflow(l, op, token),
{
    if permitted(l, op) {
        match op {
            LedgerOp::Deposit { who, token: t, amt } => lemma_deposit_supply(
                l,
                who,
                t,
                amt,
                token,
            ),
            LedgerOp::Withdraw { who, token: t, amt } => lemma_withdraw_supply(
                l,
                who,
                t,
                amt,
                token,
            ),
            LedgerOp::Lock { who, token: t, amt } => lemma_lock_supply(l, who, t, amt, token),
            LedgerOp::Unlock { who, token: t, amt } => lemma_unlock_supply(l, who, t, amt, token),
            LedgerOp::TransferLocked { from, to, token: t, amt } => lemma_transfer_supply(
                l,
                from,
                to,
                t,
                amt,
                token,
            ),
        }
    }
}

/// Balance conservation: over any sequence of ledger operations, the supply
/// of an asset changes by the deposits minus the withdrawals that were
/// carried out, and by nothing else.
pub proof fn lemma_balance_conservation(l: Ledger, ops: Seq<LedgerOp>, token: Token)
    requires
        l.dom().finite(),
    ensures
        applied_all(l, ops).dom().finite(),
        supply(applied_all(l, ops), token) == supply(l, token) + net_inflow(l, ops, token),
    decreases ops.len(),
{
    if ops.len() > 0 {
        lemma_applied_supply(l, ops[0], token);
        lemma_balance_conservation(applied(l, ops[0]), ops.subrange(1, ops.len() as int), token);
    }
}

/// An operation that would drive a balance below zero changes nothing.
pub proof fn lemma_refused_operation_changes_nothing(l: Ledger, op: LedgerOp)
    requires
        !permitted(l, op),
    ensures
        applied(l, op) == l,
{
}

} // verus!
