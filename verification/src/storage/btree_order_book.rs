//! The order book: a table of resting orders and one ordered index per side.
use crate::error::Error;
use crate::ledger::ledger_wf;
use crate::matching::{
    before, best, book_wf, concluded, cross, crossed, delivers, distinct_ids, fill_events, funded,
    is_best, lemma_listed, lemma_no_cross_no_effect, lemma_none_crosses,
    lemma_trade_within_escrow, listed, lists_book, lists_side, opposite, restorable, step,
    trade_fault, Crossing, Next, Orders,
};
use crate::settlement::{is_funded, order_after_trade, settle, trade_between};
use crate::storage::order_table::OrderTable;
use crate::storage::price_index::{key_le, PriceIndex, PriceKey};
use crate::traits::order_book::{book_ok, OrderBook};
use crate::traits::token_vault::TokenVault;
use crate::types::{same_account, EventFilled, Order, Side, Token};
use ink::primitives::AccountId;
use vstd::prelude::*;

verus! {

/// An order book that keeps its sell orders ascending by
/// `(price, timestamp, id)` and its buy orders ascending by
/// `(u128::MAX - price, timestamp, id)`, so that the first entry of either
/// index is the best order of its side.
#[derive(Debug)]
pub struct BTreeOrderBook {
    orders: OrderTable,
    sell_orders: PriceIndex,
    buy_orders: PriceIndex,
    next_order_id: u64,
    /// No resting sell order is priced below this.
    min_sell_price: u128,
    /// No resting buy order is priced above this.
    max_buy_price: u128,
}

/// The key under which an order is filed in the index of its side.
spec fn index_key(o: Order) -> PriceKey {
    match o.side {
        Side::Sell => (o.price, o.timestamp, o.id),
        Side::Buy => ((u128::MAX - o.price) as u128, o.timestamp, o.id),
    }
}

/// The index holds exactly the orders of `side`, each under its key.
spec fn indexed(index: Map<PriceKey, u64>, orders: Orders, side: Side) -> bool {
    &&& forall|k: PriceKey| #[trigger]
        index.contains_key(k) ==> orders.contains_key(index[k]) && orders[index[k]].side == side
            && index_key(orders[index[k]]) == k
    &&& forall|id: u64|
        orders.contains_key(id) && (#[trigger] orders[id]).side == side ==> index.contains_key(
            index_key(orders[id]),
        ) && index[index_key(orders[id])] == id
}

/// The two price shortcuts bound the prices of their sides.
spec fn bounded(orders: Orders, min_sell_price: u128, max_buy_price: u128) -> bool {
    forall|id: u64|
        orders.contains_key(id) ==> match (#[trigger] orders[id]).side {
            Side::Sell => min_sell_price <= orders[id].price,
            Side::Buy => orders[id].price <= max_buy_price,
        }
}

/// The index keys order the orders of one side by price-time priority.
proof fn lemma_key_order(a: Order, b: Order)
    requires
        a.side == b.side,
    ensures
        key_le(index_key(a), index_key(b)) == before(a.side, a, b),
{
}

/// The order that the first index entry names is the best of its side.
proof fn lemma_first_is_best(
    index: Map<PriceKey, u64>,
    orders: Orders,
    side: Side,
    key: PriceKey,
    id: u64,
)
    requires
        book_wf(orders),
        indexed(index, orders, side),
        index.contains_key(key),
        index[key] == id,
        forall|other: PriceKey| index.contains_key(other) ==> key_le(key, other),
    ensures
        orders.contains_key(id),
        orders[id].side == side,
        best(orders, side) == Some(id),
{
    assert forall|other: u64|
        orders.contains_key(other) && (#[trigger] orders[other]).side == side implies before(
        side,
        orders[id],
        orders[other],
    ) by {
        lemma_key_order(orders[id], orders[other]);
        assert(index.contains_key(index_key(orders[other])));
    }
    assert(is_best(orders, side, id));
    let chosen = choose|c: u64| is_best(orders, side, c);
    assert(before(side, orders[chosen], orders[id]));
    assert(before(side, orders[id], orders[chosen]));
}

/// A side whose index is empty has no best order.
proof fn lemma_empty_side(index: Map<PriceKey, u64>, orders: Orders, side: Side)
    requires
        indexed(index, orders, side),
        index == Map::<PriceKey, u64>::empty(),
    ensures
        best(orders, side) is None,
        forall|id: u64| orders.contains_key(id) ==> (#[trigger] orders[id]).side != side,
{
    assert forall|id: u64| orders.contains_key(id) implies (#[trigger] orders[id]).side
        != side by {
        if orders[id].side == side {
            assert(index.contains_key(index_key(orders[id])));
        }
    }
}

/// The price of the best resting order of `side`; without one, the value
/// that no price is beyond: `u128::MAX` for sell orders, 0 for buy orders.
pub open spec fn best_price(orders: Orders, side: Side) -> u128 {
    match best(orders, side) {
        Some(id) => orders[id].price,
        None => match side {
            Side::Sell => u128::MAX,
            Side::Buy => 0,
        },
    }
}

impl BTreeOrderBook {
    /// The book's shortcut for sell prices: no resting sell order is priced
    /// below it, so a buy order priced below it cannot cross.
    pub closed spec fn min_sell_price(&self) -> u128 {
        self.min_sell_price
    }

    /// The book's shortcut for buy prices: no resting buy order is priced
    /// above it, so a sell order priced above it cannot cross.
    pub closed spec fn max_buy_price(&self) -> u128 {
        self.max_buy_price
    }

    /// The two shortcuts bound the prices of their sides.
    pub proof fn lemma_price_shortcuts(&self, id: u64)
        requires
            self.wf(),
            self.orders().contains_key(id),
        ensures
            match self.orders()[id].side {
                Side::Sell => self.min_sell_price() <= self.orders()[id].price,
                Side::Buy => self.orders()[id].price <= self.max_buy_price(),
            },
    {
    }

    /// An empty book that starts numbering its orders at 0.
    pub fn new() -> (book: Self)
        ensures
            book_ok(&book),
            book.orders() == Map::<u64, Order>::empty(),
            book.next_id() == 0,
            book.min_sell_price() == u128::MAX,
            book.max_buy_price() == 0,
    {
        BTreeOrderBook {
            orders: OrderTable::new(),
            sell_orders: PriceIndex::new(),
            buy_orders: PriceIndex::new(),
            next_order_id: 0,
            min_sell_price: u128::MAX,
            max_buy_price: u128::MIN,
        }
    }

    /// The id that the next order made by this book gets.
    pub fn next_order_id(&self) -> (id: u64)
        ensures
            id == self.next_id(),
    {
        self.next_order_id
    }

    /// The resting order with this id, if there is one.
    pub fn order(&self, order_id: u64) -> (found: Option<Order>)
        ensures
            found == if self.orders().contains_key(order_id) {
                Some(self.orders()[order_id])
            } else {
                None
            },
    {
        self.orders.get(order_id)
    }

    /// A copy of the book.
    pub fn snapshot(&self) -> (copy: Self)
        ensures
            copy.orders() == self.orders(),
            copy.next_id() == self.next_id(),
            copy.min_sell_price() == self.min_sell_price(),
            copy.max_buy_price() == self.max_buy_price(),
            copy.wf() == self.wf(),
    {
        BTreeOrderBook {
            orders: self.orders.snapshot(),
            sell_orders: self.sell_orders.snapshot(),
            buy_orders: self.buy_orders.snapshot(),
            next_order_id: self.next_order_id,
            min_sell_price: self.min_sell_price,
            max_buy_price: self.max_buy_price,
        }
    }

    /// Gives up the current id without resting an order under it, so that
    /// no later order gets it again.
    pub fn retire_order_id(&mut self)
        requires
            old(self).wf(),
            old(self).next_id() < u64::MAX,
        ensures
            final(self).wf(),
            final(self).orders() == old(self).orders(),
            final(self).next_id() == old(self).next_id() + 1,
            final(self).min_sell_price() == old(self).min_sell_price(),
            final(self).max_buy_price() == old(self).max_buy_price(),
    {
        self.next_order_id = self.next_order_id + 1;
    }

    /// The key under which an order is filed in the index of its side.
    fn key_of(order: &Order) -> (key: PriceKey)
        ensures
            key == index_key(*order),
    {
        match order.side {
            Side::Sell => (order.price, order.timestamp, order.id),
            Side::Buy => (u128::MAX - order.price, order.timestamp, order.id),
        }
    }

    /// The best resting order of `side`.
    fn best_maker(&self, side: Side) -> (maker: Option<Order>)
        requires
            self.wf(),
            book_wf(self.orders()),
        ensures
            match maker {
                None => best(self.orders(), side) is None && forall|id: u64|
                    self.orders().contains_key(id) ==> (#[trigger] self.orders()[id]).side != side,
                Some(m) => {
                    &&& best(self.orders(), side) == Some(m.id)
                    &&& self.orders().contains_key(m.id)
                    &&& self.orders()[m.id] == m
                    &&& m.side == side
                },
            },
    {
        let first = match side {
            Side::Sell => self.sell_orders.first(),
            Side::Buy => self.buy_orders.first(),
        };
        let ghost index = match side {
            Side::Sell => self.sell_orders@,
            Side::Buy => self.buy_orders@,
        };
        match first {
            None => {
                proof {
                    lemma_empty_side(index, self.orders@, side);
                }
                None
            },
            Some((key, id)) => {
                proof {
                    lemma_first_is_best(index, self.orders@, side, key, id);
                }
                self.orders.get(id)
            },
        }
    }

    /// The first entry of an index bounds the prices of its whole side, and
    /// a side without a first entry has no orders.
    proof fn lemma_first_bounds(&self, side: Side, first: Option<(PriceKey, u64)>)
        requires
            self.wf(),
            ({
                let index = if side == Side::Sell {
                    self.sell_orders@
                } else {
                    self.buy_orders@
                };
                match first {
                    None => index == Map::<PriceKey, u64>::empty(),
                    Some((key, id)) => forall|other: PriceKey|
                        index.contains_key(other) ==> key_le(key, other),
                }
            }),
        ensures
            forall|id: u64|
                self.orders().contains_key(id) && (#[trigger] self.orders()[id]).side == side
                    ==> match first {
                    None => false,
                    Some((key, _)) => match side {
                        Side::Sell => key.0 <= self.orders()[id].price,
                        Side::Buy => self.orders()[id].price <= u128::MAX - key.0,
                    },
                },
    {
        let index = if side == Side::Sell {
            self.sell_orders@
        } else {
            self.buy_orders@
        };
        assert forall|id: u64|
            self.orders().contains_key(id) && (#[trigger] self.orders()[id]).side
                == side implies match first {
            None => false,
            Some((key, _)) => match side {
                Side::Sell => key.0 <= self.orders()[id].price,
                Side::Buy => self.orders()[id].price <= u128::MAX - key.0,
            },
        } by {
            let o = self.orders()[id];
            assert(indexed(index, self.orders(), side));
            assert(index.contains_key(index_key(o)));
            match first {
                None => {
                    assert(false);
                },
                Some((key, _)) => {
                    assert(key_le(key, index_key(o)));
                },
            }
        }
    }

    /// The first entry of an index carries the price of the best order of
    /// its side.
    proof fn lemma_first_price(&self, side: Side, first: Option<(PriceKey, u64)>)
        requires
            self.wf(),
            book_wf(self.orders()),
            ({
                let index = if side == Side::Sell {
                    self.sell_orders@
                } else {
                    self.buy_orders@
                };
                match first {
                    None => index == Map::<PriceKey, u64>::empty(),
                    Some((key, id)) => index.contains_key(key) && index[key] == id && forall|
                        other: PriceKey,
                    |
                        index.contains_key(other) ==> key_le(key, other),
                }
            }),
        ensures
            best_price(self.orders(), side) == match first {
                None => match side {
                    Side::Sell => u128::MAX,
                    Side::Buy => 0u128,
                },
                Some((key, _)) => match side {
                    Side::Sell => key.0,
                    Side::Buy => (u128::MAX - key.0) as u128,
                },
            },
    {
        let index = if side == Side::Sell {
            self.sell_orders@
        } else {
            self.buy_orders@
        };
        assert(indexed(index, self.orders(), side));
        match first {
            None => {
                lemma_empty_side(index, self.orders(), side);
            },
            Some((key, id)) => {
                lemma_first_is_best(index, self.orders(), side, key, id);
            },
        }
    }

    /// Puts an order into the table and into the index of its side, and
    /// widens the price shortcut of its side if the order is beyond it.
    fn file(&mut self, order: Order)
        requires
            old(self).wf(),
            book_wf(old(self).orders()),
            funded(order),
            !old(self).orders().contains_key(order.id),
        ensures
            final(self).wf(),
            book_wf(final(self).orders()),
            final(self).orders() == old(self).orders().insert(order.id, order),
            final(self).next_id() == old(self).next_id(),
            final(self).min_sell_price() == if order.side == Side::Sell && order.price < old(
                self,
            ).min_sell_price() {
                order.price
            } else {
                old(self).min_sell_price()
            },
            final(self).max_buy_price() == if order.side == Side::Buy && order.price > old(
                self,
            ).max_buy_price() {
                order.price
            } else {
                old(self).max_buy_price()
            },
    {
        self.orders.insert(order.id, order);
        let key = Self::key_of(&order);
        match order.side {
            Side::Buy => {
                self.buy_orders.insert(key, order.id);
                if order.price > self.max_buy_price {
                    self.max_buy_price = order.price;
                }
            },
            Side::Sell => {
                self.sell_orders.insert(key, order.id);
                if order.price < self.min_sell_price {
                    self.min_sell_price = order.price;
                }
            },
        }
    }

    /// The resting orders of `side`, best first.
    pub fn resting(&self, side: Side) -> (list: Vec<Order>)
        requires
            self.wf(),
            book_wf(self.orders()),
        ensures
            lists_side(list@, self.orders(), side),
    {
        let mut index = match side {
            Side::Sell => self.sell_orders.snapshot(),
            Side::Buy => self.buy_orders.snapshot(),
        };
        let ghost full = index@;
        let mut list: Vec<Order> = Vec::new();
        let mut open = true;
        proof {
            index.lemma_finite();
        }
        while open
            invariant
                self.wf(),
                book_wf(self.orders()),
                indexed(full, self.orders(), side),
                index@.dom().finite(),
                !open ==> index@ == Map::<PriceKey, u64>::empty(),
                forall|k: PriceKey| #[trigger]
                    index@.contains_key(k) ==> full.contains_key(k) && full[k] == index@[k],
                forall|k: PriceKey| #[trigger]
                    full.contains_key(k) ==> index@.contains_key(k) || list@.contains(
                        self.orders()[full[k]],
                    ),
                forall|i: int|
                    0 <= i < list.len() ==> (#[trigger] list[i]).side == side
                        && self.orders().contains_key(list[i].id) && self.orders()[list[i].id]
                        == list[i] && !index@.contains_key(index_key(list[i])),
                forall|i: int, k: PriceKey|
                    0 <= i < list.len() && index@.contains_key(k) ==> key_le(
                        index_key(#[trigger] list[i]),
                        k,
                    ) && #[trigger] index@[k] != list[i].id,
                forall|i: int, j: int|
                    0 <= i < j < list.len() ==> before(side, #[trigger] list[i], #[trigger] list[j])
                        && list[i].id != list[j].id,
            decreases
                    index@.dom().len() + if open {
                        1nat
                    } else {
                        0nat
                    },
        {
            match index.first() {
                None => {
                    open = false;
                },
                Some((key, id)) => {
                    let ghost before_list = list@;
                    let ghost before_index = index@;
                    match self.orders.get(id) {
                        Some(order) => {
                            proof {
                                assert forall|i: int| 0 <= i < list.len() implies before(
                                    side,
                                    #[trigger] list[i],
                                    order,
                                ) && list[i].id != order.id by {
                                    lemma_key_order(list[i], order);
                                }
                            }
                            list.push(order);
                            index.remove(key);
                            proof {
                                assert forall|k: PriceKey| #[trigger]
                                    full.contains_key(k) implies index@.contains_key(k)
                                    || list@.contains(self.orders()[full[k]]) by {
                                    if k == key {
                                        assert(list@[list.len() - 1] == order);
                                    } else if !before_index.contains_key(k) {
                                        let i = choose|i: int|
                                            0 <= i < before_list.len() && before_list[i]
                                                == self.orders()[full[k]];
                                        assert(list@[i] == before_list[i]);
                                    }
                                }
                                assert forall|i: int, k: PriceKey|
                                    0 <= i < list.len() && index@.contains_key(k) implies key_le(
                                    index_key(#[trigger] list[i]),
                                    k,
                                ) && #[trigger] index@[k] != list[i].id by {
                                    if i == list.len() - 1 {
                                        assert(before_index.contains_key(k));
                                    }
                                }
                            }
                        },
                        None => {
                            open = false;
                        },
                    }
                },
            }
        }
        proof {
            assert forall|id: u64|
                self.orders().contains_key(id) && (#[trigger] self.orders()[id]).side
                    == side implies list@.contains(self.orders()[id]) by {
                assert(full.contains_key(index_key(self.orders()[id])));
            }
        }
        list
    }

    /// All resting orders: the sell orders, best first, then the buy orders,
    /// best first.
    pub fn export(&self) -> (list: Vec<Order>)
        requires
            self.wf(),
            book_wf(self.orders()),
        ensures
            lists_book(list@, self.orders()),
            distinct_ids(list@),
            listed(list@) == self.orders(),
    {
        let mut list = self.resting(Side::Sell);
        let mut bids = self.resting(Side::Buy);
        let ghost asks = list@;
        let ghost tail = bids@;
        let ghost both = asks + tail;
        list.append(&mut bids);
        proof {
            assert(list@ =~= both);
            assert(both.subrange(0, asks.len() as int) =~= asks);
            assert(both.subrange(asks.len() as int, both.len() as int) =~= tail);
            assert(distinct_ids(both)) by {
                assert forall|i: int, j: int| 0 <= i < j < both.len() implies both[i].id
                    != both[j].id by {
                    if i < asks.len() && j >= asks.len() {
                        assert(both[i] == asks[i]);
                        assert(both[j] == tail[j - asks.len()]);
                    } else if i < asks.len() {
                        assert(both[i] == asks[i] && both[j] == asks[j]);
                    } else {
                        assert(both[i] == tail[i - asks.len()]);
                        assert(both[j] == tail[j - asks.len()]);
                    }
                }
            }
            lemma_listed(both);
            assert forall|id: u64| #[trigger]
                self.orders().contains_key(id) implies listed(both).contains_key(id) && listed(
                both,
            )[id] == self.orders()[id] by {
                let o = self.orders()[id];
                if o.side == Side::Sell {
                    let i = choose|i: int| 0 <= i < asks.len() && asks[i] == o;
                    assert(both[i] == o);
                } else {
                    let i = choose|i: int| 0 <= i < tail.len() && tail[i] == o;
                    assert(both[asks.len() + i] == o);
                }
            }
            assert forall|id: u64| #[trigger]
                listed(both).contains_key(id) implies self.orders().contains_key(id) by {
                let i = choose|i: int| 0 <= i < both.len() && (#[trigger] both[i]).id == id;
                if i < asks.len() {
                    assert(both[i] == asks[i]);
                } else {
                    assert(both[i] == tail[i - asks.len()]);
                }
            }
            assert(listed(both) =~= self.orders());
        }
        list
    }

    /// The book that a list of orders stands for, with `next_order_id` as
    /// the next id to give out, if the list is one a book can be made of.
    pub fn restore(list: &Vec<Order>, next_order_id: u64) -> (restored: Option<Self>)
        ensures
            match restored {
                Some(book) => {
                    &&& restorable(list@, next_order_id)
                    &&& book_ok(&book)
                    &&& book.orders() == listed(list@)
                    &&& book.next_id() == next_order_id
                },
                None => !restorable(list@, next_order_id),
            },
    {
        let mut book = BTreeOrderBook::new();
        let mut i: usize = 0;
        proof {
            assert(list@.subrange(0, 0) =~= Seq::<Order>::empty());
        }
        while i < list.len()
            invariant
                i <= list.len(),
                book.wf(),
                book_wf(book.orders()),
                restorable(list@.subrange(0, i as int), next_order_id),
                book.orders() == listed(list@.subrange(0, i as int)),
            decreases list.len() - i,
        {
            let order = list[i];
            let ghost front = list@.subrange(0, i as int);
            proof {
                lemma_listed(front);
            }
            if !is_funded(&order) || order.id >= next_order_id || book.order(order.id).is_some() {
                proof {
                    if funded(order) && order.id < next_order_id {
                        let j = choose|j: int| 0 <= j < front.len() && (#[trigger] front[j]).id
                            == order.id;
                        assert(list[j].id == list[i as int].id);
                    }
                }
                return None;
            }
            book.file(order);
            proof {
                let grown = list@.subrange(0, i + 1);
                assert(grown.drop_last() =~= front);
                assert(grown.last() == order);
                assert(restorable(grown, next_order_id)) by {
                    assert forall|a: int, b: int| 0 <= a < b < grown.len() implies grown[a].id
                        != grown[b].id by {
                        if b == i {
                            assert(front[a] == grown[a]);
                        } else {
                            assert(front[a] == grown[a] && front[b] == grown[b]);
                        }
                    }
                    assert forall|a: int| 0 <= a < grown.len() implies funded(#[trigger] grown[a])
                        && grown[a].id < next_order_id by {
                        if a < i {
                            assert(front[a] == grown[a]);
                        }
                    }
                }
            }
            i += 1;
        }
        assert(list@.subrange(0, i as int) =~= list@);
        book.next_order_id = next_order_id;
        Some(book)
    }

    /// Takes a resting order out of the table and out of its index.
    fn unlist(&mut self, order: &Order)
        requires
            old(self).wf(),
            book_wf(old(self).orders()),
            old(self).orders().contains_key(order.id),
            old(self).orders()[order.id] == *order,
        ensures
            final(self).wf(),
            book_wf(final(self).orders()),
            final(self).orders() == old(self).orders().remove(order.id),
            final(self).next_id() == old(self).next_id(),
            final(self).min_sell_price == old(self).min_sell_price,
            final(self).max_buy_price == old(self).max_buy_price,
            final(self).sell_orders@ == if order.side == Side::Sell {
                old(self).sell_orders@.remove(index_key(*order))
            } else {
                old(self).sell_orders@
            },
            final(self).buy_orders@ == if order.side == Side::Buy {
                old(self).buy_orders@.remove(index_key(*order))
            } else {
                old(self).buy_orders@
            },
    {
        let key = Self::key_of(order);
        match order.side {
            Side::Sell => self.sell_orders.remove(key),
            Side::Buy => self.buy_orders.remove(key),
        }
        self.orders.remove(order.id);
    }

    /// Crosses a taker against the resting orders of the opposite side, best
    /// first, until nothing crosses any more or the taker is exhausted.
    fn cross_with<V: TokenVault>(&mut self, taker: Order, vault: &mut V) -> (r: Result<
        (Option<Order>, Vec<EventFilled>),
        Error,
    >)
        requires
            old(self).wf(),
            book_wf(old(self).orders()),
            old(vault).wf(),
            ledger_wf(old(vault).ledger()),
            funded(taker),
        ensures
            final(self).wf(),
            book_wf(final(self).orders()),
            final(vault).wf(),
            ledger_wf(final(vault).ledger()),
            final(self).next_id() == old(self).next_id(),
            final(self).min_sell_price() == old(self).min_sell_price(),
            final(self).max_buy_price() == old(self).max_buy_price(),
            delivers(
                cross(old(self).orders(), old(vault).ledger(), taker),
                final(self).orders(),
                final(vault).ledger(),
                r,
            ),
    {
        let ghost start = Crossing {
            orders: self.orders@,
            ledger: vault.ledger(),
            taker,
            events: Seq::empty(),
        };
        let maker_side = match taker.side {
            Side::Buy => Side::Sell,
            Side::Sell => Side::Buy,
        };
        let mut live = taker;
        let mut evts: Vec<EventFilled> = Vec::new();
        let mut open = true;
        while open
            invariant
                self.wf(),
                book_wf(self.orders()),
                vault.wf(),
                ledger_wf(vault.ledger()),
                funded(live),
                maker_side == opposite(live.side),
                self.next_id() == old(self).next_id(),
                self.min_sell_price() == old(self).min_sell_price(),
                self.max_buy_price() == old(self).max_buy_price(),
                crossed(start) == cross(old(self).orders(), old(vault).ledger(), taker),
                ({
                    let now = Crossing {
                        orders: self.orders(),
                        ledger: vault.ledger(),
                        taker: live,
                        events: evts@,
                    };
                    if open {
                        crossed(now) == crossed(start)
                    } else {
                        concluded(now) == crossed(start)
                    }
                }),
            decreases
                    self.orders().dom().len() + if open {
                        1nat
                    } else {
                        0nat
                    },
        {
            let ghost now = Crossing {
                orders: self.orders(),
                ledger: vault.ledger(),
                taker: live,
                events: evts@,
            };
            match self.best_maker(maker_side) {
                None => {
                    open = false;
                },
                Some(maker) => {
                    let compatible = match live.side {
                        Side::Buy => maker.price <= live.price,
                        Side::Sell => maker.price >= live.price,
                    };
                    if !compatible {
                        open = false;
                    } else {
                        proof {
                            lemma_trade_within_escrow(live, maker);
                        }
                        let t = trade_between(&live, &maker);
                        match settle(vault, &t) {
                            Ok(_) => {},
                            Err(e) => {
                                assert(step(now) == Next::Failed(
                                    now,
                                    trade_fault(now.ledger, t)->0,
                                ));
                                return Err(e);
                            },
                        }
                        evts.push(EventFilled::new(maker.id, maker.side, t.price, t.qty));
                        evts.push(EventFilled::new(live.id, live.side, t.price, t.qty));
                        assert(evts@ =~= now.events + fill_events(live, maker, t));
                        let left = order_after_trade(&live, &t);
                        if maker.qty <= live.qty {
                            self.unlist(&maker);
                        } else {
                            let rest = order_after_trade(&maker, &t);
                            self.orders.insert(maker.id, rest);
                            open = false;
                        }
                        live = left;
                    }
                },
            }
        }
        if live.qty > 0 {
            return Ok((Some(live), evts));
        }
        if live.side == Side::Buy && live.locked > 0 {
            match vault.unlock(live.owner, live.pair.1, live.locked) {
                Ok(_) => {},
                Err(e) => {
                    return Err(e);
                },
            }
        }
        Ok((None, evts))
    }
}

impl OrderBook for BTreeOrderBook {
    closed spec fn orders(&self) -> Orders {
        self.orders@
    }

    closed spec fn next_id(&self) -> u64 {
        self.next_order_id
    }

    closed spec fn wf(&self) -> bool {
        &&& indexed(self.sell_orders@, self.orders@, Side::Sell)
        &&& indexed(self.buy_orders@, self.orders@, Side::Buy)
        &&& bounded(self.orders@, self.min_sell_price, self.max_buy_price)
    }

    fn make_new_order(
        &self,
        acct_id: AccountId,
        pair: (Token, Token),
        side: Side,
        price: u128,
        qty: u128,
        now: u64,
    ) -> (order: Order) {
        let order_id = self.next_order_id;
        Order { id: order_id, pair, owner: acct_id, side, price, qty, timestamp: now, locked: 0 }
    }

    fn insert_new_order(&mut self, order: Order)
        ensures
            final(self).min_sell_price() == if order.side == Side::Sell && order.price < old(
                self,
            ).min_sell_price() {
                order.price
            } else {
                old(self).min_sell_price()
            },
            final(self).max_buy_price() == if order.side == Side::Buy && order.price > old(
                self,
            ).max_buy_price() {
                order.price
            } else {
                old(self).max_buy_price()
            },
    {
        self.file(order);
        self.next_order_id = self.next_order_id + 1;
    }

    fn match_sell_orders<V: TokenVault>(&mut self, buy_order: Order, vault: &mut V) -> (r: Result<
        (Option<Order>, Vec<EventFilled>),
        Error,
    >)
        ensures
            final(self).min_sell_price() == old(self).min_sell_price(),
            final(self).max_buy_price() == old(self).max_buy_price(),
    {
        if buy_order.qty > 0 && buy_order.price < self.min_sell_price {
            proof {
                lemma_none_crosses(self.orders@, buy_order);
                lemma_no_cross_no_effect(self.orders@, vault.ledger(), buy_order);
            }
            return Ok((Some(buy_order), Vec::new()));
        }
        self.cross_with(buy_order, vault)
    }

    fn match_buy_orders<V: TokenVault>(&mut self, sell_order: Order, vault: &mut V) -> (r: Result<
        (Option<Order>, Vec<EventFilled>),
        Error,
    >)
        ensures
            final(self).min_sell_price() == old(self).min_sell_price(),
            final(self).max_buy_price() == old(self).max_buy_price(),
    {
        if sell_order.qty > 0 && sell_order.price > self.max_buy_price {
            proof {
                lemma_none_crosses(self.orders@, sell_order);
                lemma_no_cross_no_effect(self.orders@, vault.ledger(), sell_order);
            }
            return Ok((Some(sell_order), Vec::new()));
        }
        self.cross_with(sell_order, vault)
    }

    fn cancel_order<V: TokenVault>(&mut self, acct_id: AccountId, order_id: u64, vault: &mut V) -> (r:
        Result<(), Error>)
        ensures
            ({
                let order = old(self).orders()[order_id];
                let held_min = r is Ok && order.side == Side::Sell && order.price == old(
                    self,
                ).min_sell_price();
                let held_max = r is Ok && order.side == Side::Buy && order.price == old(
                    self,
                ).max_buy_price();
                &&& final(self).min_sell_price() == if held_min {
                    best_price(final(self).orders(), Side::Sell)
                } else {
                    old(self).min_sell_price()
                }
                &&& final(self).max_buy_price() == if held_max {
                    best_price(final(self).orders(), Side::Buy)
                } else {
                    old(self).max_buy_price()
                }
            }),
    {
        let order = match self.orders.get(order_id) {
            Some(order) => order,
            None => {
                return Err(Error::OrderNotFound(order_id));
            },
        };
        if !same_account(&order.owner, &acct_id) {
            return Err(Error::Unauthorized("Only order owner can cancel".to_string()));
        }
        let (base, quote) = order.pair;
        let token = match order.side {
            Side::Buy => quote,
            Side::Sell => base,
        };
        if order.locked > 0 {
            match vault.unlock(order.owner, token, order.locked) {
                Ok(_) => {},
                Err(e) => {
                    return Err(e);
                },
            }
        }
        self.unlist(&order);
        match order.side {
            Side::Buy => {
                if order.price == self.max_buy_price {
                    let first = self.buy_orders.first();
                    proof {
                        self.lemma_first_bounds(Side::Buy, first);
                        self.lemma_first_price(Side::Buy, first);
                    }
                    self.max_buy_price = match first {
                        Some((key, _)) => u128::MAX - key.0,
                        None => 0,
                    };
                }
            },
            Side::Sell => {
                if order.price == self.min_sell_price {
                    let first = self.sell_orders.first();
                    proof {
                        self.lemma_first_bounds(Side::Sell, first);
                        self.lemma_first_price(Side::Sell, first);
                    }
                    self.min_sell_price = match first {
                        Some((key, _)) => key.0,
                        None => u128::MAX,
                    };
                }
            },
        }
        Ok(())
    }
}

} // verus!
