//! The interface of a funds ledger.
use crate::error::Error;
use crate::ledger::{
    applied, available, deposited, ledger_wf, locked, released, reserved, supply, transferred,
    withdrawn, Ledger, LedgerOp,
};
use crate::types::Token;
use ink::primitives::AccountId;
use vstd::prelude::*;

verus! {

/// A ledger of per-account, per-asset balances, each split into a spendable
/// and an escrowed part.
///
/// Every operation either applies in full or fails and leaves the ledger as
/// it was: the ledger afterwards is the ledger before with the operation
/// applied to it, in the sense of the ledger model.
pub trait TokenVault: Sized {
    /// The ledger this vault stands for.
    spec fn ledger(&self) -> Ledger;

    /// The validity of the vault's own representation.
    spec fn wf(&self) -> bool;

    /// The spendable balance of `acct_id` in `token`.
    fn get_balance(&self, acct_id: AccountId, token: Token) -> (amt: u128)
        requires
            self.wf(),
            ledger_wf(self.ledger()),
        ensures
            amt == available(self.ledger(), acct_id, token),
    ;

    /// The escrowed balance of `acct_id` in `token`.
    fn get_locked(&self, acct_id: AccountId, token: Token) -> (amt: u128)
        requires
            self.wf(),
            ledger_wf(self.ledger()),
        ensures
            amt == locked(self.ledger(), acct_id, token),
    ;

    /// Adds `amt` to the spendable balance. The supply of the asset must
    /// still fit the 128-bit balances afterwards.
    fn deposit(&mut self, acct_id: AccountId, token: Token, amt: u128)
        requires
            old(self).wf(),
            ledger_wf(old(self).ledger()),
            supply(old(self).ledger(), token) + amt <= u128::MAX,
        ensures
            final(self).wf(),
            ledger_wf(final(self).ledger()),
            final(self).ledger() == applied(
                old(self).ledger(),
                LedgerOp::Deposit { who: acct_id, token, amt: amt as nat },
            ),
            final(self).ledger() == deposited(old(self).ledger(), acct_id, token, amt as nat),
    ;

    /// Takes `amt` from the spendable balance, if it is there.
    fn withdraw(&mut self, acct_id: AccountId, token: Token, amt: u128) -> (r: Result<(), Error>)
        requires
            old(self).wf(),
            ledger_wf(old(self).ledger()),
        ensures
            final(self).wf(),
            ledger_wf(final(self).ledger()),
            final(self).ledger() == applied(
                old(self).ledger(),
                LedgerOp::Withdraw { who: acct_id, token, amt: amt as nat },
            ),
            match r {
                Ok(_) => {
                    &&& amt <= available(old(self).ledger(), acct_id, token)
                    &&& final(self).ledger() == withdrawn(
                        old(self).ledger(),
                        acct_id,
                        token,
                        amt as nat,
                    )
                },
                Err(e) => {
                    &&& amt > available(old(self).ledger(), acct_id, token)
                    &&& e == Error::InsufficientBalance(token)
                    &&& final(self).ledger() == old(self).ledger()
                },
            },
    ;

    /// Moves `amt` from the spendable balance into escrow, if it is there.
    fn lock(&mut self, acct_id: AccountId, token: Token, amt: u128) -> (r: Result<(), Error>)
        requires
            old(self).wf(),
            ledger_wf(old(self).ledger()),
        ensures
            final(self).wf(),
            ledger_wf(final(self).ledger()),
            final(self).ledger() == applied(
                old(self).ledger(),
                LedgerOp::Lock { who: acct_id, token, amt: amt as nat },
            ),
            match r {
                Ok(_) => {
                    &&& amt <= available(old(self).ledger(), acct_id, token)
                    &&& final(self).ledger() == reserved(
                        old(self).ledger(),
                        acct_id,
                        token,
                        amt as nat,
                    )
                },
                Err(e) => {
                    &&& amt > available(old(self).ledger(), acct_id, token)
                    &&& e == Error::InsufficientBalance(token)
                    &&& final(self).ledger() == old(self).ledger()
                },
            },
    ;

    /// Moves `amt` out of escrow back into the spendable balance, if that
    /// much is escrowed.
    fn unlock(&mut self, acct_id: AccountId, token: Token, amt: u128) -> (r: Result<(), Error>)
        requires
            old(self).wf(),
            ledger_wf(old(self).ledger()),
        ensures
            final(self).wf(),
            ledger_wf(final(self).ledger()),
            final(self).ledger() == applied(
                old(self).ledger(),
                LedgerOp::Unlock { who: acct_id, token, amt: amt as nat },
            ),
            match r {
                Ok(_) => {
                    &&& amt <= locked(old(self).ledger(), acct_id, token)
                    &&& final(self).ledger() == released(
                        old(self).ledger(),
                        acct_id,
                        token,
                        amt as nat,
                    )
                },
                Err(e) => {
                    &&& amt > locked(old(self).ledger(), acct_id, token)
                    &&& e == Error::InsufficientLockedBalance(token)
                    &&& final(self).ledger() == old(self).ledger()
                },
            },
    ;

    /// Moves `amt` out of `from`'s escrow into `to`'s spendable balance. An
    /// account cannot pay itself, and cannot pay more than it has escrowed.
    fn transfer_locked(&mut self, from: AccountId, to: AccountId, token: Token, amt: u128) -> (r:
        Result<(), Error>)
        requires
            old(self).wf(),
            ledger_wf(old(self).ledger()),
        ensures
            final(self).wf(),
            ledger_wf(final(self).ledger()),
            final(self).ledger() == applied(
                old(self).ledger(),
                LedgerOp::TransferLocked { from, to, token, amt: amt as nat },
            ),
            match r {
                Ok(_) => {
                    &&& from != to
                    &&& amt <= locked(old(self).ledger(), from, token)
                    &&& final(self).ledger() == transferred(
                        old(self).ledger(),
                        from,
                        to,
                        token,
                        amt as nat,
                    )
                },
                Err(e) => {
                    &&& final(self).ledger() == old(self).ledger()
                    &&& if from == to {
                        e is InvalidTransfer
                    } else {
                        &&& amt > locked(old(self).ledger(), from, token)
                        &&& e == Error::InsufficientLockedBalance(token)
                    }
                },
            },
    ;
}

/// A vault that is valid and stands for a valid ledger.
pub open spec fn vault_ok<V: TokenVault>(vault: &V) -> bool {
    &&& vault.wf()
    &&& ledger_wf(vault.ledger())
}

} // verus!
