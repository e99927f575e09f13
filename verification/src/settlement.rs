//! Settling trades: the executable counterparts of the model's trade
//! arithmetic, and the settlement of one trade on a vault.
use crate::error::Error;
use crate::matching::{
    after_trade, crosses, funded, lemma_trade_within_escrow, opposite, reports, settled,
    trade_fault, trade_of, Trade,
};
use crate::traits::token_vault::{vault_ok, TokenVault};
use crate::types::{same_account, Order, Side};
use vstd::prelude::*;

verus! {

/// Whether an order's escrow covers it.
pub fn is_funded(order: &Order) -> (ok: bool)
    ensures
        ok == funded(*order),
{
    match order.side {
        Side::Buy => match order.price.checked_mul(order.qty) {
            Some(needed) => needed <= order.locked,
            None => false,
        },
        Side::Sell => order.qty == order.locked,
    }
}

/// The trade between a taker and the maker it crosses.
pub fn trade_between(taker: &Order, maker: &Order) -> (t: Trade)
    requires
        funded(*taker),
        funded(*maker),
        maker.side == opposite(taker.side),
        crosses(*taker, *maker),
    ensures
        t == trade_of(*taker, *maker),
{
    proof {
        lemma_trade_within_escrow(*taker, *maker);
    }
    let full = maker.qty <= taker.qty;
    let qty = if full {
        maker.qty
    } else {
        taker.qty
    };
    let (base, quote) = taker.pair;
    match taker.side {
        Side::Buy => {
            let amount = maker.price * qty;
            Trade {
                buyer: taker.owner,
                seller: maker.owner,
                base,
                quote,
                price: maker.price,
                qty,
                amount,
                refund: 0,
            }
        },
        Side::Sell => {
            let amount = taker.price * qty;
            Trade {
                buyer: maker.owner,
                seller: taker.owner,
                base,
                quote,
                price: taker.price,
                qty,
                amount,
                refund: if full {
                    maker.locked - amount
                } else {
                    0
                },
            }
        },
    }
}

/// What is left of an order after it took part in a trade.
pub fn order_after_trade(order: &Order, t: &Trade) -> (left: Order)
    requires
        t.qty <= order.qty,
        match order.side {
            Side::Buy => t.amount <= order.locked,
            Side::Sell => t.qty <= order.locked,
        },
    ensures
        left == after_trade(*order, *t),
{
    Order {
        id: order.id,
        owner: order.owner,
        pair: order.pair,
        side: order.side,
        price: order.price,
        qty: order.qty - t.qty,
        timestamp: order.timestamp,
        locked: match order.side {
            Side::Buy => order.locked - t.amount,
            Side::Sell => order.locked - t.qty,
        },
    }
}

/// Settles one trade on a vault, in full or not at all: the buyer's escrow
/// pays the seller, the seller's escrow delivers to the buyer, and the buyer
/// gets its refund. Fails, and changes nothing, exactly when the trade has a
/// fault.
pub fn settle<V: TokenVault>(vault: &mut V, t: &Trade) -> (r: Result<(), Error>)
    requires
        vault_ok(old(vault)),
        t.amount + t.refund <= u128::MAX,
    ensures
        vault_ok(final(vault)),
        match r {
            Ok(_) => {
                &&& trade_fault(old(vault).ledger(), *t) is None
                &&& final(vault).ledger() == settled(old(vault).ledger(), *t)
            },
            Err(e) => {
                &&& trade_fault(old(vault).ledger(), *t) is Some
                &&& reports(e, trade_fault(old(vault).ledger(), *t)->0)
                &&& final(vault).ledger() == old(vault).ledger()
            },
        },
{
    if same_account(&t.buyer, &t.seller) {
        return Err(Error::InvalidTransfer("Cannot transfer locked to self".to_string()));
    }
    let escrow = vault.get_locked(t.buyer, t.quote);
    if escrow < t.amount {
        return Err(Error::InsufficientLockedBalance(t.quote));
    }
    if vault.get_locked(t.seller, t.base) < t.qty {
        return Err(Error::InsufficientLockedBalance(t.base));
    }
    if escrow < t.amount + t.refund {
        return Err(Error::InsufficientLockedBalance(t.quote));
    }
    match vault.transfer_locked(t.buyer, t.seller, t.quote, t.amount) {
        Ok(_) => {},
        Err(e) => {
            return Err(e);
        },
    }
    match vault.transfer_locked(t.seller, t.buyer, t.base, t.qty) {
        Ok(_) => {},
        Err(e) => {
            return Err(e);
        },
    }
    if t.refund > 0 {
        match vault.unlock(t.buyer, t.quote, t.refund) {
            Ok(_) => {},
            Err(e) => {
                return Err(e);
            },
        }
    }
    Ok(())
}

} // verus!
