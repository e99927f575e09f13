//! The exchange engine: one order book and one ledger behind the composite
//! operations of a two-asset limit-order exchange.
//!
//! The engine reads neither the caller's identity nor the time: both are
//! handed in with every request. What it reports for publication (new
//! orders, fills, cancellations, deposits, withdrawals) it returns as values.
use crate::error::Error;
use crate::escrow::{
    escrow_of, lemma_cancelled_reconciled, lemma_crossed_reconciled, lemma_reserved_reconciled,
    lemma_rested_reconciled, lemma_same_escrow_reconciled, reconciled, uniform,
};
use crate::ledger::{
    available, deposited, ledger_wf, lemma_lock_supply, lemma_unlock_supply, locked, recorded,
    reserved, storable, supply, withdrawn, Balance, Holding, Ledger,
};
use crate::matching::{
    book_wf, cross, escrow_token, lemma_crossed_conserves, lemma_crossed_keeps_book,
    lemma_listed, listed, lists_book, refunded, reports, restorable, Crossing, Orders,
};
use crate::storage::btree_order_book::BTreeOrderBook;
use crate::storage::vault::Vault;
use crate::traits::order_book::OrderBook;
use crate::traits::token_vault::TokenVault;
use crate::types::{EventFilled, Order, Side, Token};
use ink::primitives::AccountId;
use vstd::prelude::*;

verus! {

/// Notice that a new order was accepted.
#[derive(Debug, Clone, Copy, PartialEq, Eq, Structural)]
pub struct NewOrder {
    pub order_id: u64,
    pub price: u128,
    pub qty: u128,
}

/// Notice that an order was cancelled.
#[derive(Debug, Clone, Copy, PartialEq, Eq, Structural)]
pub struct OrderCancelled {
    pub order_id: u64,
}

/// Notice that an order was filled, in part or in full.
#[derive(Debug, Clone, Copy, PartialEq, Eq, Structural)]
pub struct OrderFilled {
    pub order_id: u64,
    pub filled_price: u128,
    pub filled_qty: u128,
}

/// Notice that funds were deposited.
#[derive(Debug, Clone, Copy, PartialEq, Eq)]
pub struct Deposit {
    pub account: AccountId,
    pub token: Token,
    pub amount: u128,
}

/// Notice that funds were withdrawn.
#[derive(Debug, Clone, Copy, PartialEq, Eq)]
pub struct Withdraw {
    pub account: AccountId,
    pub token: Token,
    pub amount: u128,
}

impl From<EventFilled> for OrderFilled {
    fn from(e: EventFilled) -> (notice: Self) {
        Self { order_id: e.order_id, filled_price: e.filled_price, filled_qty: e.filled_qty }
    }
}

impl vstd::std_specs::convert::FromSpecImpl<EventFilled> for OrderFilled {
    open spec fn obeys_from_spec() -> bool {
        true
    }

    open spec fn from_spec(e: EventFilled) -> Self {
        notice(e)
    }
}

/// The fill notice for a fill event: the event without its side.
pub open spec fn notice(e: EventFilled) -> OrderFilled {
    OrderFilled { order_id: e.order_id, filled_price: e.filled_price, filled_qty: e.filled_qty }
}

/// What a successful placement reports: the id the order got, the notice of
/// the new order, and one notice per fill event, in the order of the fills.
#[derive(Debug)]
pub struct Placed {
    pub order_id: u64,
    pub new_order: NewOrder,
    pub fills: Vec<OrderFilled>,
}

/// The escrow an order needs at placement: `price * qty` quote units for a
/// buy order, `qty` base units for a sell order.
pub open spec fn escrow_needed(side: Side, price: u128, qty: u128) -> int {
    match side {
        Side::Buy => price * qty,
        Side::Sell => qty as int,
    }
}

/// The order that a placement request becomes once its escrow is locked.
pub open spec fn incoming(
    id: u64,
    caller: AccountId,
    pair: (Token, Token),
    side: Side,
    price: u128,
    qty: u128,
    now: u64,
) -> Order {
    Order {
        id,
        owner: caller,
        pair,
        side,
        price,
        qty,
        timestamp: now,
        locked: escrow_needed(side, price, qty) as u128,
    }
}

/// The fill notices for a sequence of fill events.
pub open spec fn notices(events: Seq<EventFilled>) -> Seq<OrderFilled> {
    events.map_values(|e: EventFilled| notice(e))
}

/// The book after a crossing run, with the taker's remainder rested in it.
pub open spec fn rested(orders: Orders, rest: Option<Order>) -> Orders {
    match rest {
        Some(order) => orders.insert(order.id, order),
        None => orders,
    }
}

/// The supported trading pair.
pub open spec fn supported(pair: (Token, Token)) -> bool {
    pair == (Token::Base, Token::Quote)
}

/// Whether the escrow of an order fits the 128-bit balances.
pub open spec fn can_escrow(side: Side, price: u128, qty: u128) -> bool {
    escrow_needed(side, price, qty) <= u128::MAX
}

/// Whether there is an id after `next_id` to move on to.
pub open spec fn can_number(next_id: u64) -> bool {
    next_id < u64::MAX
}

/// Whether the supply of `token` still fits the 128-bit balances with
/// `amount` more of it.
pub open spec fn can_credit(l: Ledger, token: Token, amount: u128) -> bool {
    supply(l, token) + amount <= u128::MAX
}

/// The fill notices for a list of fill events.
fn notices_of(events: &Vec<EventFilled>) -> (fills: Vec<OrderFilled>)
    ensures
        fills@ == notices(events@),
{
    let mut fills: Vec<OrderFilled> = Vec::new();
    let mut i: usize = 0;
    while i < events.len()
        invariant
            i <= events.len(),
            fills.len() == i,
            forall|j: int| 0 <= j < i ==> fills[j] == notice(events[j]),
        decreases events.len() - i,
    {
        fills.push(OrderFilled::from(events[i]));
        i += 1;
    }
    assert(fills@ =~= notices(events@));
    fills
}

/// What the engine makes of the external token ledger's answer to a transfer
/// it was asked for, in either direction: a transfer that was not carried out
/// is reported as a lack of tokens.
pub fn token_transfer_result(token: Token, carried_out: bool) -> (r: Result<(), Error>)
    ensures
        r == if carried_out {
            Ok::<(), Error>(())
        } else {
            Err::<(), Error>(Error::InsufficientToken(token))
        },
{
    if carried_out {
        Ok(())
    } else {
        Err(Error::InsufficientToken(token))
    }
}

/// The whole state of an engine as plain data, for keeping it in storage
/// between requests.
#[derive(Debug, Clone)]
pub struct DexState {
    /// The resting orders.
    pub orders: Vec<Order>,
    /// The balance records.
    pub balances: Vec<Balance>,
    /// The id that the next accepted order gets.
    pub next_order_id: u64,
}

/// A state that an engine can be made of: its orders make a book, its
/// balance records make a ledger.
pub open spec fn state_wf(state: DexState) -> bool {
    &&& restorable(state.orders@, state.next_order_id)
    &&& storable(state.balances@)
}

/// The engine: the sole owner of the book and the ledger.
#[derive(Debug)]
pub struct MiniDex {
    order_book: BTreeOrderBook,
    vault: Vault,
}

impl MiniDex {
    /// The resting orders, by id.
    pub closed spec fn orders(&self) -> Orders {
        self.order_book.orders()
    }

    /// The id that the next accepted order gets.
    pub closed spec fn next_id(&self) -> u64 {
        self.order_book.next_id()
    }

    /// The balances of all accounts.
    pub closed spec fn ledger(&self) -> Ledger {
        self.vault@
    }

    /// The validity of the two components' own representations.
    pub closed spec fn inv(&self) -> bool {
        &&& self.order_book.wf()
        &&& self.vault.wf()
    }

    /// A valid engine: a valid book over a valid ledger, in which every
    /// resting order has an id that was already given out.
    pub open spec fn wf(&self) -> bool {
        &&& self.inv()
        &&& book_wf(self.orders())
        &&& ledger_wf(self.ledger())
        &&& forall|id: u64| self.orders().contains_key(id) ==> id < self.next_id()
    }

    /// An engine whose escrow is accounted for: every resting order is for
    /// the supported pair, and what the ledger holds in escrow for an account
    /// is exactly the escrow of the account's resting orders.
    ///
    /// A new engine is sound, and every operation keeps a sound engine sound.
    pub open spec fn sound(&self) -> bool {
        &&& uniform(self.orders(), (Token::Base, Token::Quote))
        &&& reconciled(self.orders(), self.ledger(), None)
    }

    /// An engine with an empty book and an empty ledger.
    pub fn new() -> (dex: Self)
        ensures
            dex.wf(),
            dex.sound(),
            dex.orders() == Map::<u64, Order>::empty(),
            dex.ledger() == Map::<(AccountId, Token), Holding>::empty(),
            dex.next_id() == 0,
    {
        let dex = MiniDex { order_book: BTreeOrderBook::new(), vault: Vault::new() };
        proof {
            assert forall|who: AccountId, token: Token|
                #![trigger locked(dex.ledger(), who, token)]
                #![trigger escrow_of(dex.orders(), who, token)]
                locked(dex.ledger(), who, token) == escrow_of(dex.orders(), who, token) by {
                assert(dex.orders().dom().len() == 0);
            }
        }
        dex
    }

    /// The engine's state as plain data.
    pub fn export(&self) -> (state: DexState)
        requires
            self.wf(),
        ensures
            state_wf(state),
            lists_book(state.orders@, self.orders()),
            listed(state.orders@) == self.orders(),
            recorded(state.balances@) == self.ledger(),
            state.next_order_id == self.next_id(),
    {
        let orders = self.order_book.export();
        let balances = self.vault.balances();
        let next_order_id = self.order_book.next_order_id();
        proof {
            lemma_listed(orders@);
        }
        DexState { orders, balances, next_order_id }
    }

    /// The engine that a state stands for, if the state is one an engine can
    /// be made of.
    pub fn restore(state: &DexState) -> (restored: Option<Self>)
        ensures
            match restored {
                Some(dex) => {
                    &&& state_wf(*state)
                    &&& dex.wf()
                    &&& dex.orders() == listed(state.orders@)
                    &&& dex.ledger() == recorded(state.balances@)
                    &&& dex.next_id() == state.next_order_id
                },
                None => !state_wf(*state),
            },
    {
        let order_book = match BTreeOrderBook::restore(&state.orders, state.next_order_id) {
            Some(book) => book,
            None => {
                return None;
            },
        };
        let vault = match Vault::restore(&state.balances) {
            Some(vault) => vault,
            None => {
                return None;
            },
        };
        proof {
            lemma_listed(state.orders@);
        }
        Some(MiniDex { order_book, vault })
    }

    /// Whether a deposit request is one that `deposit` takes: it is refused
    /// anyway, or it leaves the supply of the asset within 128 bits.
    pub fn can_deposit(&self, token: Token, amount: u128, allowance: u128) -> (ok: bool)
        requires
            self.wf(),
        ensures
            ok == (amount != 0 && amount <= allowance ==> can_credit(self.ledger(), token, amount)),
    {
        amount == 0 || amount > allowance || amount <= u128::MAX - self.vault.total_supply(token)
    }

    /// Whether a placement request is one that `place_limit_order` takes: it
    /// is rejected anyway, or there is an id left to give out and the
    /// order's escrow fits 128 bits.
    pub fn within_limits(&self, pair: (Token, Token), side: Side, price: u128, qty: u128) -> (ok:
        bool)
        ensures
            ok == (supported(pair) && price != 0 && qty != 0 ==> can_number(self.next_id())
                && can_escrow(side, price, qty)),
    {
        let (base, quote) = pair;
        if !(base == Token::Base && quote == Token::Quote) || price == 0 || qty == 0 {
            return true;
        }
        if self.order_book.next_order_id() == u64::MAX {
            return false;
        }
        match side {
            Side::Buy => price.checked_mul(qty).is_some(),
            Side::Sell => true,
        }
    }

    /// Credits a deposit of `amount` to `caller`. `allowance` is what the
    /// caller has approved the exchange to draw from the external token
    /// ledger; the deposit is refused when it does not cover `amount`.
    ///
    /// A deposit that is not refused must leave the supply of the asset
    /// within 128 bits. `can_deposit` tells.
    pub fn deposit(&mut self, caller: AccountId, token: Token, amount: u128, allowance: u128) -> (r:
        Result<Deposit, Error>)
        requires
            old(self).wf(),
            amount != 0 && amount <= allowance ==> can_credit(old(self).ledger(), token, amount),
        ensures
            final(self).wf(),
            old(self).sound() ==> final(self).sound(),
            final(self).orders() == old(self).orders(),
            final(self).next_id() == old(self).next_id(),
            match r {
                Ok(notice) => {
                    &&& amount != 0
                    &&& amount <= allowance
                    &&& notice == (Deposit { account: caller, token, amount })
                    &&& final(self).ledger() == deposited(
                        old(self).ledger(),
                        caller,
                        token,
                        amount as nat,
                    )
                },
                Err(e) => {
                    &&& final(self).ledger() == old(self).ledger()
                    &&& if amount == 0 {
                        e is InvalidQuantity
                    } else {
                        allowance < amount && e == Error::InsufficientAllowance(token)
                    }
                },
            },
    {
        if amount == 0 {
            return Err(Error::InvalidQuantity("Deposit amount cannot be zero".to_string()));
        }
        if allowance < amount {
            return Err(Error::InsufficientAllowance(token));
        }
        self.vault.deposit(caller, token, amount);
        proof {
            if old(self).sound() {
                lemma_same_escrow_reconciled(
                    self.orders(),
                    old(self).ledger(),
                    self.ledger(),
                    None,
                );
            }
        }
        Ok(Deposit { account: caller, token, amount })
    }

    /// Debits a withdrawal of `amount` from `caller`'s spendable balance.
    pub fn withdraw(&mut self, caller: AccountId, token: Token, amount: u128) -> (r: Result<
        Withdraw,
        Error,
    >)
        requires
            old(self).wf(),
        ensures
            final(self).wf(),
            old(self).sound() ==> final(self).sound(),
            final(self).orders() == old(self).orders(),
            final(self).next_id() == old(self).next_id(),
            match r {
                Ok(notice) => {
                    &&& amount != 0
                    &&& amount <= available(old(self).ledger(), caller, token)
                    &&& notice == (Withdraw { account: caller, token, amount })
                    &&& final(self).ledger() == withdrawn(
                        old(self).ledger(),
                        caller,
                        token,
                        amount as nat,
                    )
                },
                Err(e) => {
                    &&& final(self).ledger() == old(self).ledger()
                    &&& if amount == 0 {
                        e is InvalidQuantity
                    } else {
                        &&& available(old(self).ledger(), caller, token) < amount
                        &&& e == Error::InsufficientBalance(token)
                    }
                },
            },
    {
        if amount == 0 {
            return Err(Error::InvalidQuantity("Withdrawal amount cannot be zero".to_string()));
        }
        match self.vault.withdraw(caller, token, amount) {
            Ok(_) => {
                proof {
                    if old(self).sound() {
                        lemma_same_escrow_reconciled(
                            self.orders(),
                            old(self).ledger(),
                            self.ledger(),
                            None,
                        );
                    }
                }
                Ok(Withdraw { account: caller, token, amount })
            },
            Err(e) => Err(e),
        }
    }

    /// The spendable balance of `account` in `token`.
    pub fn balance_of(&self, account: AccountId, token: Token) -> (amt: u128)
        requires
            self.wf(),
        ensures
            amt == available(self.ledger(), account, token),
    {
        self.vault.get_balance(account, token)
    }

    /// The escrowed balance of `account` in `token`.
    pub fn locked_of(&self, account: AccountId, token: Token) -> (amt: u128)
        requires
            self.wf(),
        ensures
            amt == locked(self.ledger(), account, token),
    {
        self.vault.get_locked(account, token)
    }

    /// The resting order with this id, if there is one.
    pub fn order(&self, order_id: u64) -> (found: Option<Order>)
        ensures
            found == if self.orders().contains_key(order_id) {
                Some(self.orders()[order_id])
            } else {
                None
            },
    {
        self.order_book.order(order_id)
    }

    /// What all accounts together hold of `token`.
    pub fn total_supply(&self, token: Token) -> (total: u128)
        requires
            self.wf(),
        ensures
            total == supply(self.ledger(), token),
    {
        self.vault.total_supply(token)
    }

    /// Places a limit order for `caller`, arriving at `now`.
    ///
    /// The request is checked, the escrow is locked, and the order is crossed
    /// against the opposite side of the book; what is left of it rests in the
    /// book. Every accepted order uses up one id, whether or not anything of
    /// it comes to rest. A request that fails, at whatever point, changes
    /// nothing: the work is done on a copy that replaces the engine's state
    /// only on success.
    ///
    /// A valid request must be within the machine's limits: there is an id
    /// left to give out, and for a buy order `price * qty` fits 128 bits.
    /// `within_limits` tells.
    pub fn place_limit_order(
        &mut self,
        pair: (Token, Token),
        side: Side,
        price: u128,
        qty: u128,
        caller: AccountId,
        now: u64,
    ) -> (r: Result<Placed, Error>)
        requires
            old(self).wf(),
            supported(pair) && price != 0 && qty != 0 ==> can_number(old(self).next_id())
                && can_escrow(side, price, qty),
        ensures
            final(self).wf(),
            old(self).sound() ==> final(self).sound(),
            old(self).sound() ==> !(r matches Err(Error::InsufficientLockedBalance(_))),
            supply(final(self).ledger(), Token::Base) == supply(old(self).ledger(), Token::Base),
            supply(final(self).ledger(), Token::Quote) == supply(old(self).ledger(), Token::Quote),
            ({
                let order = incoming(old(self).next_id(), caller, pair, side, price, qty, now);
                let token = escrow_token(order);
                let escrowed = reserved(old(self).ledger(), caller, token, order.locked as nat);
                let out = cross(old(self).orders(), escrowed, order);
                match r {
                    Ok(placed) => {
                        &&& supported(pair)
                        &&& price != 0
                        &&& qty != 0
                        &&& order.locked <= available(old(self).ledger(), caller, token)
                        &&& out.fault is None
                        &&& placed.order_id == order.id
                        &&& placed.new_order == (NewOrder { order_id: order.id, price, qty })
                        &&& placed.fills@ == notices(out.events)
                        &&& final(self).orders() == rested(out.orders, out.rest)
                        &&& final(self).ledger() == out.ledger
                        &&& final(self).next_id() == old(self).next_id() + 1
                    },
                    Err(e) => {
                        &&& final(self).orders() == old(self).orders()
                        &&& final(self).ledger() == old(self).ledger()
                        &&& final(self).next_id() == old(self).next_id()
                        &&& if !supported(pair) {
                            e is InvalidOrder
                        } else if price == 0 {
                            e is InvalidPrice
                        } else if qty == 0 {
                            e is InvalidQuantity
                        } else if available(old(self).ledger(), caller, token) < order.locked {
                            e == Error::InsufficientBalance(token)
                        } else {
                            out.fault is Some && reports(e, out.fault->0)
                        }
                    },
                }
            }),
    {
        let (base, quote) = pair;
        if !(base == Token::Base && quote == Token::Quote) {
            return Err(Error::InvalidOrder("Order dex pair not supported".to_string()));
        }
        if price == 0 {
            return Err(Error::InvalidPrice("Order price cannot be zero".to_string()));
        }
        if qty == 0 {
            return Err(Error::InvalidQuantity("Order quantity cannot be zero".to_string()));
        }
        let mut order = self.order_book.make_new_order(caller, pair, side, price, qty, now);
        let order_id = order.id;
        let new_order = NewOrder { order_id, price, qty };

        let mut book = self.order_book.snapshot();
        let mut vault = self.vault.snapshot();
        let ghost before = vault@;
        let crossed = match side {
            Side::Buy => {
                let required = price * qty;
                match vault.lock(caller, quote, required) {
                    Ok(_) => {},
                    Err(e) => {
                        return Err(e);
                    },
                }
                order.locked = required;
                proof {
                    lemma_lock_supply(before, caller, quote, required as nat, Token::Base);
                    lemma_lock_supply(before, caller, quote, required as nat, Token::Quote);
                }
                book.match_sell_orders(order, &mut vault)
            },
            Side::Sell => {
                match vault.lock(caller, base, qty) {
                    Ok(_) => {},
                    Err(e) => {
                        return Err(e);
                    },
                }
                order.locked = qty;
                proof {
                    lemma_lock_supply(before, caller, base, qty as nat, Token::Base);
                    lemma_lock_supply(before, caller, base, qty as nat, Token::Quote);
                }
                book.match_buy_orders(order, &mut vault)
            },
        };
        let ghost start = Crossing {
            orders: self.orders(),
            ledger: reserved(before, caller, escrow_token(order), order.locked as nat),
            taker: order,
            events: Seq::empty(),
        };
        proof {
            if old(self).sound() {
                lemma_reserved_reconciled(self.orders(), before, order);
                lemma_crossed_reconciled(start);
            }
        }
        let (rest, evts) = match crossed {
            Ok(done) => done,
            Err(e) => {
                return Err(e);
            },
        };
        proof {
            lemma_crossed_keeps_book(start);
            lemma_crossed_conserves(start, Token::Base);
            lemma_crossed_conserves(start, Token::Quote);
            if old(self).sound() {
                lemma_rested_reconciled(book.orders(), vault@, rest);
            }
        }
        match rest {
            Some(left) => book.insert_new_order(left),
            None => book.retire_order_id(),
        }
        let fills = notices_of(&evts);
        self.order_book = book;
        self.vault = vault;
        Ok(Placed { order_id, new_order, fills })
    }

    /// Cancels the resting order `order_id` for `caller` and hands its
    /// remaining escrow back.
    pub fn cancel_order(&mut self, order_id: u64, caller: AccountId) -> (r: Result<
        OrderCancelled,
        Error,
    >)
        requires
            old(self).wf(),
        ensures
            final(self).wf(),
            old(self).sound() ==> final(self).sound(),
            old(self).sound() ==> !(r matches Err(Error::InsufficientLockedBalance(_))),
            final(self).next_id() == old(self).next_id(),
            supply(final(self).ledger(), Token::Base) == supply(old(self).ledger(), Token::Base),
            supply(final(self).ledger(), Token::Quote) == supply(old(self).ledger(), Token::Quote),
            match r {
                Ok(notice) => {
                    let order = old(self).orders()[order_id];
                    &&& old(self).orders().contains_key(order_id)
                    &&& order.owner == caller
                    &&& order.locked <= locked(
                        old(self).ledger(),
                        order.owner,
                        escrow_token(order),
                    )
                    &&& notice == (OrderCancelled { order_id })
                    &&& final(self).orders() == old(self).orders().remove(order_id)
                    &&& final(self).ledger() == refunded(
                        old(self).ledger(),
                        order.owner,
                        escrow_token(order),
                        order.locked as nat,
                    )
                },
                Err(e) => {
                    let order = old(self).orders()[order_id];
                    &&& final(self).orders() == old(self).orders()
                    &&& final(self).ledger() == old(self).ledger()
                    &&& if !old(self).orders().contains_key(order_id) {
                        e == Error::OrderNotFound(order_id)
                    } else if order.owner != caller {
                        e is Unauthorized
                    } else {
                        &&& order.locked > locked(
                            old(self).ledger(),
                            order.owner,
                            escrow_token(order),
                        )
                        &&& e == Error::InsufficientLockedBalance(escrow_token(order))
                    }
                },
            },
    {
        let ghost order = self.orders()[order_id];
        let ghost before = self.ledger();
        proof {
            if old(self).sound() && self.orders().contains_key(order_id) {
                lemma_cancelled_reconciled(self.orders(), before, order_id);
            }
        }
        match self.order_book.cancel_order(caller, order_id, &mut self.vault) {
            Ok(_) => {
                proof {
                    if order.locked > 0 {
                        lemma_unlock_supply(
                            before,
                            order.owner,
                            escrow_token(order),
                            order.locked as nat,
                            Token::Base,
                        );
                        lemma_unlock_supply(
                            before,
                            order.owner,
                            escrow_token(order),
                            order.locked as nat,
                            Token::Quote,
                        );
                    }
                }
                Ok(OrderCancelled { order_id })
            },
            Err(e) => Err(e),
        }
    }
}

} // verus!
