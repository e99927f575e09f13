//! The interface of an order book with price-time priority matching.
use crate::error::Error;
use crate::ledger::{ledger_wf, locked};
use crate::matching::{book_wf, cross, delivers, escrow_token, funded, refunded, Orders};
use crate::traits::token_vault::TokenVault;
use crate::types::{EventFilled, Order, Side, Token};
use ink::primitives::AccountId;
use vstd::prelude::*;

verus! {

/// A book of resting limit orders that crosses incoming orders against them.
pub trait OrderBook: Sized {
    /// The resting orders, by id.
    spec fn orders(&self) -> Orders;

    /// The id that the next order made by this book gets.
    spec fn next_id(&self) -> u64;

    /// The validity of the book's own representation.
    spec fn wf(&self) -> bool;

    /// Makes an order under the book's current id, with no escrow yet. The
    /// book itself does not change: the id is taken only once the order is
    /// inserted.
    fn make_new_order(
        &self,
        acct_id: AccountId,
        pair: (Token, Token),
        side: Side,
        price: u128,
        qty: u128,
        now: u64,
    ) -> (order: Order)
        ensures
            order == (Order {
                id: self.next_id(),
                owner: acct_id,
                pair,
                side,
                price,
                qty,
                timestamp: now,
                locked: 0,
            }),
    ;

    /// Rests a funded order in the book and moves on to the next id.
    fn insert_new_order(&mut self, order: Order)
        requires
            old(self).wf(),
            book_wf(old(self).orders()),
            funded(order),
            !old(self).orders().contains_key(order.id),
            old(self).next_id() < u64::MAX,
        ensures
            final(self).wf(),
            book_wf(final(self).orders()),
            final(self).orders() == old(self).orders().insert(order.id, order),
            final(self).next_id() == old(self).next_id() + 1,
    ;

    /// Crosses an incoming buy order against the resting sell orders, best
    /// first, for as long as their price is not above the order's.
    ///
    /// Returns what is left of the order, for the caller to insert, and the
    /// fill events of the trades, two per trade. When the order is used up,
    /// what is left of its escrow goes back to its owner. A trade that
    /// cannot be settled ends the run with an error and is not applied; the
    /// trades before it stay as they are.
    fn match_sell_orders<V: TokenVault>(&mut self, buy_order: Order, vault: &mut V) -> (r: Result<
        (Option<Order>, Vec<EventFilled>),
        Error,
    >)
        requires
            old(self).wf(),
            book_wf(old(self).orders()),
            old(vault).wf(),
            ledger_wf(old(vault).ledger()),
            buy_order.side == Side::Buy,
            funded(buy_order),
        ensures
            final(self).wf(),
            book_wf(final(self).orders()),
            final(vault).wf(),
            ledger_wf(final(vault).ledger()),
            final(self).next_id() == old(self).next_id(),
            delivers(
                cross(old(self).orders(), old(vault).ledger(), buy_order),
                final(self).orders(),
                final(vault).ledger(),
                r,
            ),
    ;

    /// Crosses an incoming sell order against the resting buy orders, best
    /// first, for as long as their price is not below the order's.
    ///
    /// Returns what is left of the order, for the caller to insert, and the
    /// fill events of the trades, two per trade. A resting buy order that is
    /// used up gets what is left of its escrow back as it leaves the book. A
    /// trade that cannot be settled ends the run with an error and is not
    /// applied; the trades before it stay as they are.
    fn match_buy_orders<V: TokenVault>(&mut self, sell_order: Order, vault: &mut V) -> (r: Result<
        (Option<Order>, Vec<EventFilled>),
        Error,
    >)
        requires
            old(self).wf(),
            book_wf(old(self).orders()),
            old(vault).wf(),
            ledger_wf(old(vault).ledger()),
            sell_order.side == Side::Sell,
            funded(sell_order),
        ensures
            final(self).wf(),
            book_wf(final(self).orders()),
            final(vault).wf(),
            ledger_wf(final(vault).ledger()),
            final(self).next_id() == old(self).next_id(),
            delivers(
                cross(old(self).orders(), old(vault).ledger(), sell_order),
                final(self).orders(),
                final(vault).ledger(),
                r,
            ),
    ;

    /// Takes a resting order out of the book for its owner and hands its
    /// remaining escrow back. Fails, and changes nothing, when the order is
    /// not in the book, when it belongs to someone else, or when the vault
    /// does not hold the escrow.
    fn cancel_order<V: TokenVault>(&mut self, acct_id: AccountId, order_id: u64, vault: &mut V) -> (r:
        Result<(), Error>)
        requires
            old(self).wf(),
            book_wf(old(self).orders()),
            old(vault).wf(),
            ledger_wf(old(vault).ledger()),
        ensures
            final(self).wf(),
            book_wf(final(self).orders()),
            final(vault).wf(),
            ledger_wf(final(vault).ledger()),
            final(self).next_id() == old(self).next_id(),
            match r {
                Ok(_) => {
                    let order = old(self).orders()[order_id];
                    &&& old(self).orders().contains_key(order_id)
                    &&& order.owner == acct_id
                    &&& order.locked <= locked(
                        old(vault).ledger(),
                        order.owner,
                        escrow_token(order),
                    )
                    &&& final(self).orders() == old(self).orders().remove(order_id)
                    &&& final(vault).ledger() == refunded(
                        old(vault).ledger(),
                        order.owner,
                        escrow_token(order),
                        order.locked as nat,
                    )
                },
                Err(e) => {
                    let order = old(self).orders()[order_id];
                    &&& final(self).orders() == old(self).orders()
                    &&& final(vault).ledger() == old(vault).ledger()
                    &&& if !old(self).orders().contains_key(order_id) {
                        e == Error::OrderNotFound(order_id)
                    } else if order.owner != acct_id {
                        e is Unauthorized
                    } else {
                        &&& order.locked > locked(
                            old(vault).ledger(),
                            order.owner,
                            escrow_token(order),
                        )
                        &&& e == Error::InsufficientLockedBalance(escrow_token(order))
                    }
                },
            },
    ;
}

/// A book that is valid and holds a valid set of orders.
pub open spec fn book_ok<B: OrderBook>(book: &B) -> bool {
    &&& book.wf()
    &&& book_wf(book.orders())
}

} // verus!
