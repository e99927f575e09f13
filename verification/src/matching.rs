//! The mathematical model of the order book and of the crossing algorithm.
//!
//! The book is a finite map from order id to resting order. An incoming order
//! (the taker) is crossed against the resting orders of the opposite side (the
//! makers), best first, for as long as prices are compatible. Every trade
//! settles at the sell-side order's limit price and is settled in full or not
//! at all.
use crate::error::Error;
use crate::ledger::{
    lemma_transfer_supply, lemma_unlock_supply, locked, released, supply, transferred, Ledger,
};
use crate::types::{EventFilled, Order, Side, Token};
use ink::primitives::AccountId;
use vstd::prelude::*;

verus! {

/// The resting orders of a book, by id.
pub type Orders = Map<u64, Order>;

/// Why a trade could not be settled.
pub enum Fault {
    /// Buyer and seller are the same account.
    SelfTrade,
    /// An account's escrow of this asset does not cover what its order owes.
    Shortfall(Token),
}

/// One trade between a buy order and a sell order.
#[derive(Debug, Clone, Copy)]
pub struct Trade {
    pub buyer: AccountId,
    pub seller: AccountId,
    pub base: Token,
    pub quote: Token,
    /// Execution price: the sell-side order's limit price.
    pub price: u128,
    /// Base units that change hands.
    pub qty: u128,
    /// Quote units that change hands: `price * qty`.
    pub amount: u128,
    /// Escrow handed back to the buyer because its order leaves the book.
    pub refund: u128,
}

/// The state of a crossing run: the book, the ledger, what is left of the
/// taker, and the fill events so far.
pub struct Crossing {
    pub orders: Orders,
    pub ledger: Ledger,
    pub taker: Order,
    pub events: Seq<EventFilled>,
}

/// What one step of a crossing run leads to.
pub enum Next {
    /// A maker was consumed in full; the run goes on.
    More(Crossing),
    /// Nothing crosses any more, or the taker is exhausted.
    Done(Crossing),
    /// The next trade cannot be settled; nothing of it was applied.
    Failed(Crossing, Fault),
}

/// The result of a crossing run.
pub struct Outcome {
    pub orders: Orders,
    pub ledger: Ledger,
    /// The unfilled remainder of the taker, for the caller to rest.
    pub rest: Option<Order>,
    pub events: Seq<EventFilled>,
    pub fault: Option<Fault>,
}

pub open spec fn opposite(side: Side) -> Side {
    match side {
        Side::Buy => Side::Sell,
        Side::Sell => Side::Buy,
    }
}

/// An order whose escrow covers it: a buy order reserves at least
/// `price * qty` quote units, a sell order exactly `qty` base units.
pub open spec fn funded(o: Order) -> bool {
    match o.side {
        Side::Buy => o.price * o.qty <= o.locked,
        Side::Sell => o.qty == o.locked,
    }
}

/// The asset in which an order's escrow is held: the quote asset for a buy
/// order, the base asset for a sell order.
pub open spec fn escrow_token(order: Order) -> Token {
    match order.side {
        Side::Buy => order.pair.1,
        Side::Sell => order.pair.0,
    }
}

/// A valid book: finitely many orders, each stored under its own id and
/// funded.
pub open spec fn book_wf(orders: Orders) -> bool {
    &&& orders.dom().finite()
    &&& forall|id: u64|
        orders.contains_key(id) ==> (#[trigger] orders[id]).id == id && funded(orders[id])
}

/// The book that a list of orders stands for: each order under its id.
pub open spec fn listed(list: Seq<Order>) -> Orders
    decreases list.len(),
{
    if list.len() == 0 {
        Map::empty()
    } else {
        listed(list.drop_last()).insert(list.last().id, list.last())
    }
}

/// No two orders of the list have the same id.
pub open spec fn distinct_ids(list: Seq<Order>) -> bool {
    forall|i: int, j: int| 0 <= i < j < list.len() ==> list[i].id != list[j].id
}

/// A list of orders that a book can be made of, in which `next_id` is the
/// next id to give out: no id occurs twice, every id was given out already,
/// and every order is funded.
pub open spec fn restorable(list: Seq<Order>, next_id: u64) -> bool {
    &&& distinct_ids(list)
    &&& forall|i: int| 0 <= i < list.len() ==> funded(#[trigger] list[i]) && list[i].id < next_id
}

/// The book of a list without repeated ids holds exactly the ids of the
/// list, each with its order.
pub proof fn lemma_listed(list: Seq<Order>)
    requires
        distinct_ids(list),
    ensures
        listed(list).dom().finite(),
        forall|i: int|
            0 <= i < list.len() ==> listed(list).contains_key((#[trigger] list[i]).id) && listed(
                list,
            )[list[i].id] == list[i],
        forall|id: u64|
            listed(list).contains_key(id) ==> exists|i: int|
                0 <= i < list.len() && (#[trigger] list[i]).id == id,
    decreases list.len(),
{
    if list.len() > 0 {
        let front = list.drop_last();
        lemma_listed(front);
        assert forall|i: int| 0 <= i < list.len() implies listed(list).contains_key(
            (#[trigger] list[i]).id,
        ) && listed(list)[list[i].id] == list[i] by {
            if i < list.len() - 1 {
                assert(front[i] == list[i]);
            }
        }
        assert forall|id: u64| listed(list).contains_key(id) implies exists|i: int|
            0 <= i < list.len() && (#[trigger] list[i]).id == id by {
            if id == list.last().id {
                assert(list[list.len() - 1].id == id);
            } else {
                let i = choose|i: int| 0 <= i < front.len() && (#[trigger] front[i]).id == id;
                assert(list[i].id == id);
            }
        }
    }
}

/// Priority among sell orders: lower price first, then earlier arrival, then
/// lower id.
pub open spec fn ask_before(a: Order, b: Order) -> bool {
    a.price < b.price || (a.price == b.price && (a.timestamp < b.timestamp || (a.timestamp
        == b.timestamp && a.id <= b.id)))
}

/// Priority among buy orders: higher price first, then earlier arrival, then
/// lower id.
pub open spec fn bid_before(a: Order, b: Order) -> bool {
    a.price > b.price || (a.price == b.price && (a.timestamp < b.timestamp || (a.timestamp
        == b.timestamp && a.id <= b.id)))
}

/// Price-time priority on one side of the book.
pub open spec fn before(side: Side, a: Order, b: Order) -> bool {
    match side {
        Side::Buy => bid_before(a, b),
        Side::Sell => ask_before(a, b),
    }
}

/// Whether a list holds exactly the resting orders of `side`, each once, in
/// the order of their priority.
pub open spec fn lists_side(list: Seq<Order>, orders: Orders, side: Side) -> bool {
    &&& forall|i: int|
        0 <= i < list.len() ==> (#[trigger] list[i]).side == side && orders.contains_key(
            list[i].id,
        ) && orders[list[i].id] == list[i]
    &&& forall|id: u64|
        orders.contains_key(id) && (#[trigger] orders[id]).side == side ==> list.contains(
            orders[id],
        )
    &&& forall|i: int, j: int|
        0 <= i < j < list.len() ==> before(side, #[trigger] list[i], #[trigger] list[j])
            && list[i].id != list[j].id
}

/// Whether a list holds exactly the resting orders, each once: first the
/// sell orders in the order of their priority, then the buy orders in the
/// order of theirs.
pub open spec fn lists_book(list: Seq<Order>, orders: Orders) -> bool {
    exists|n: int|
        0 <= n <= list.len() && lists_side(#[trigger] list.subrange(0, n), orders, Side::Sell)
            && lists_side(list.subrange(n, list.len() as int), orders, Side::Buy)
}

/// `id` is the order of `side` that every other order of that side yields to.
pub open spec fn is_best(orders: Orders, side: Side, id: u64) -> bool {
    &&& orders.contains_key(id)
    &&& orders[id].side == side
    &&& forall|other: u64|
        orders.contains_key(other) && (#[trigger] orders[other]).side == side ==> before(
            side,
            orders[id],
            orders[other],
        )
}

/// The best resting order of `side`, if that side is not empty.
pub open spec fn best(orders: Orders, side: Side) -> Option<u64> {
    if exists|id: u64| is_best(orders, side, id) {
        Some(choose|id: u64| is_best(orders, side, id))
    } else {
        None
    }
}

/// Whether the taker's limit price is compatible with the maker's.
pub open spec fn crosses(taker: Order, maker: Order) -> bool {
    match taker.side {
        Side::Buy => maker.price <= taker.price,
        Side::Sell => maker.price >= taker.price,
    }
}

/// Whether the maker is consumed in full by the taker.
pub open spec fn fills_maker(taker: Order, maker: Order) -> bool {
    maker.qty <= taker.qty
}

/// The trade between a taker and the maker it crosses.
pub open spec fn trade_of(taker: Order, maker: Order) -> Trade {
    let qty = if fills_maker(taker, maker) {
        maker.qty
    } else {
        taker.qty
    };
    let (buy, sell) = match taker.side {
        Side::Buy => (taker, maker),
        Side::Sell => (maker, taker),
    };
    let amount = (sell.price * qty) as u128;
    Trade {
        buyer: buy.owner,
        seller: sell.owner,
        base: taker.pair.0,
        quote: taker.pair.1,
        price: sell.price,
        qty,
        amount,
        refund: if fills_maker(taker, maker) && maker.side == Side::Buy {
            (maker.locked - amount) as u128
        } else {
            0
        },
    }
}

/// The first reason, if any, why a trade cannot be settled on a ledger.
pub open spec fn trade_fault(l: Ledger, t: Trade) -> Option<Fault> {
    if t.buyer == t.seller {
        Some(Fault::SelfTrade)
    } else if locked(l, t.buyer, t.quote) < t.amount {
        Some(Fault::Shortfall(t.quote))
    } else if locked(l, t.seller, t.base) < t.qty {
        Some(Fault::Shortfall(t.base))
    } else if locked(l, t.buyer, t.quote) < t.amount + t.refund {
        Some(Fault::Shortfall(t.quote))
    } else {
        None
    }
}

/// Escrow handed back to its owner; nothing happens when there is none.
pub open spec fn refunded(l: Ledger, who: AccountId, token: Token, amt: nat) -> Ledger {
    if amt == 0 {
        l
    } else {
        released(l, who, token, amt)
    }
}

/// The ledger after a trade: the buyer's escrow pays the seller, the seller's
/// escrow delivers to the buyer, and the buyer gets its refund.
pub open spec fn settled(l: Ledger, t: Trade) -> Ledger {
    let paid = transferred(l, t.buyer, t.seller, t.quote, t.amount as nat);
    let delivered = transferred(paid, t.seller, t.buyer, t.base, t.qty as nat);
    refunded(delivered, t.buyer, t.quote, t.refund as nat)
}

/// What is left of an order after it took part in a trade: the quantity
/// shrinks by the traded quantity, and the escrow by what the order paid
/// (quote units for a buy order, base units for a sell order).
pub open spec fn after_trade(o: Order, t: Trade) -> Order {
    Order {
        qty: (o.qty - t.qty) as u128,
        locked: match o.side {
            Side::Buy => (o.locked - t.amount) as u128,
            Side::Sell => (o.locked - t.qty) as u128,
        },
        ..o
    }
}

/// The two fill events of a trade: the maker's first, then the taker's.
pub open spec fn fill_events(taker: Order, maker: Order, t: Trade) -> Seq<EventFilled> {
    seq![
        EventFilled { order_id: maker.id, side: maker.side, filled_price: t.price, filled_qty: t.qty },
        EventFilled { order_id: taker.id, side: taker.side, filled_price: t.price, filled_qty: t.qty },
    ]
}

/// One step of a crossing run: look at the best maker, stop if there is none
/// or it does not cross, else trade with it.
///
/// The run stops on price alone. A taker that was exhausted by a maker it
/// consumed in full still looks at the next maker, and if that one crosses,
/// trades quantity zero with it: the trade is settled and recorded like any
/// other, and ends the run.
pub open spec fn step(s: Crossing) -> Next {
    match best(s.orders, opposite(s.taker.side)) {
        None => Next::Done(s),
        Some(id) => {
            let maker = s.orders[id];
            if !crosses(s.taker, maker) {
                Next::Done(s)
            } else {
                let t = trade_of(s.taker, maker);
                match trade_fault(s.ledger, t) {
                    Some(fault) => Next::Failed(s, fault),
                    None => {
                        let ledger = settled(s.ledger, t);
                        let events = s.events + fill_events(s.taker, maker, t);
                        let taker = after_trade(s.taker, t);
                        if fills_maker(s.taker, maker) {
                            Next::More(
                                Crossing { orders: s.orders.remove(id), ledger, taker, events },
                            )
                        } else {
                            Next::Done(
                                Crossing {
                                    orders: s.orders.insert(id, after_trade(maker, t)),
                                    ledger,
                                    taker,
                                    events,
                                },
                            )
                        }
                    },
                }
            }
        },
    }
}

/// The end of a run: an exhausted buy taker gets its unused escrow back; a
/// taker with quantity left is handed back to be rested.
pub open spec fn concluded(s: Crossing) -> Outcome {
    if s.taker.qty > 0 {
        Outcome {
            orders: s.orders,
            ledger: s.ledger,
            rest: Some(s.taker),
            events: s.events,
            fault: None,
        }
    } else if s.taker.side == Side::Buy && locked(s.ledger, s.taker.owner, s.taker.pair.1)
        < s.taker.locked {
        Outcome {
            orders: s.orders,
            ledger: s.ledger,
            rest: None,
            events: s.events,
            fault: Some(Fault::Shortfall(s.taker.pair.1)),
        }
    } else {
        Outcome {
            orders: s.orders,
            ledger: if s.taker.side == Side::Buy {
                refunded(s.ledger, s.taker.owner, s.taker.pair.1, s.taker.locked as nat)
            } else {
                s.ledger
            },
            rest: None,
            events: s.events,
            fault: None,
        }
    }
}

/// A run that stopped because a trade could not be settled.
pub open spec fn failed(s: Crossing, fault: Fault) -> Outcome {
    Outcome {
        orders: s.orders,
        ledger: s.ledger,
        rest: None,
        events: s.events,
        fault: Some(fault),
    }
}

/// A crossing run from state `s` to its end.
///
/// Every step that goes on takes an order out of the book, so a run on a
/// finite book ends. The comparison of the two sizes is there to make the
/// definition well-founded; on a finite book it always holds.
pub open spec fn crossed(s: Crossing) -> Outcome
    decreases s.orders.dom().len(),
{
    match step(s) {
        Next::Done(end) => concluded(end),
        Next::Failed(end, fault) => failed(end, fault),
        Next::More(next) => if next.orders.dom().len() < s.orders.dom().len() {
            crossed(next)
        } else {
            concluded(next)
        },
    }
}

/// Crossing `taker` against a book and a ledger, from no events.
pub open spec fn cross(orders: Orders, ledger: Ledger, taker: Order) -> Outcome {
    crossed(Crossing { orders, ledger, taker, events: Seq::empty() })
}

/// Whether an error is the report of a fault.
pub open spec fn reports(e: Error, fault: Fault) -> bool {
    match fault {
        Fault::SelfTrade => e is InvalidTransfer,
        Fault::Shortfall(token) => e == Error::InsufficientLockedBalance(token),
    }
}

/// Whether a book, a ledger and a returned value are what a crossing run
/// ended in: the remainder and the events on success, the report of the fault
/// otherwise.
pub open spec fn delivers(
    out: Outcome,
    orders: Orders,
    ledger: Ledger,
    r: Result<(Option<Order>, Vec<EventFilled>), Error>,
) -> bool {
    &&& orders == out.orders
    &&& ledger == out.ledger
    &&& match r {
        Ok((rest, events)) => out.fault is None && rest == out.rest && events@ == out.events,
        Err(e) => out.fault is Some && reports(e, out.fault->0),
    }
}

/// The arithmetic of a trade between two funded orders stays within their
/// escrows, and both orders are still funded afterwards.
pub proof fn lemma_trade_within_escrow(taker: Order, maker: Order)
    requires
        funded(taker),
        funded(maker),
        maker.side == opposite(taker.side),
        crosses(taker, maker),
    ensures
        ({
            let t = trade_of(taker, maker);
            let buy = if taker.side == Side::Buy {
                taker
            } else {
                maker
            };
            &&& t.qty <= taker.qty
            &&& t.qty <= maker.qty
            &&& t.amount == t.price * t.qty
            &&& t.amount <= buy.locked
            &&& t.amount + t.refund <= buy.locked
            &&& funded(after_trade(taker, t))
            &&& funded(after_trade(maker, t))
        }),
{
    let t = trade_of(taker, maker);
    let (buy, sell) = if taker.side == Side::Buy {
        (taker, maker)
    } else {
        (maker, taker)
    };
    let rest = (buy.qty - t.qty) as nat;
    assert(sell.price * t.qty + buy.price * rest <= buy.price * buy.qty) by (nonlinear_arith)
        requires
            sell.price <= buy.price,
            t.qty <= buy.qty,
            rest == buy.qty - t.qty,
    ;
    assert(0 <= sell.price * t.qty) by (nonlinear_arith);
    assert(0 <= buy.price * rest) by (nonlinear_arith);
}

/// The maker event of the `k`-th trade recorded after the first `from` events.
pub open spec fn maker_event(events: Seq<EventFilled>, from: int, k: int) -> EventFilled {
    events[from + 2 * k]
}

/// The taker event of the `k`-th trade recorded after the first `from` events.
pub open spec fn taker_event(events: Seq<EventFilled>, from: int, k: int) -> EventFilled {
    events[from + 2 * k + 1]
}

/// The limit price of the sell-side order of a trade between `taker` and
/// `maker`.
pub open spec fn sell_price(taker: Order, maker: Order) -> u128 {
    match taker.side {
        Side::Buy => maker.price,
        Side::Sell => taker.price,
    }
}

/// Whether a pair of fill events records a trade of `taker` with an order
/// that rested in `orders` on the opposite side at a compatible price: both
/// legs carry the sell-side order's limit price and the same quantity.
pub open spec fn records_trade(
    orders: Orders,
    taker: Order,
    maker_leg: EventFilled,
    taker_leg: EventFilled,
) -> bool {
    let maker = orders[maker_leg.order_id];
    &&& orders.contains_key(maker_leg.order_id)
    &&& maker.side == opposite(taker.side)
    &&& crosses(taker, maker)
    &&& maker_leg.side == maker.side
    &&& taker_leg.side == taker.side
    &&& taker_leg.order_id == taker.id
    &&& maker_leg.filled_price == sell_price(taker, maker)
    &&& taker_leg.filled_price == sell_price(taker, maker)
    &&& maker_leg.filled_qty == taker_leg.filled_qty
}

/// A step that consumes a maker shrinks the book.
proof fn lemma_step_shrinks(s: Crossing)
    requires
        s.orders.dom().finite(),
        step(s) is More,
    ensures
        step(s)->More_0.orders.dom().len() < s.orders.dom().len(),
        crossed(s) == crossed(step(s)->More_0),
{
    let id = best(s.orders, opposite(s.taker.side))->0;
    assert(is_best(s.orders, opposite(s.taker.side), id));
}

/// Settling a trade that has no fault moves funds between accounts and
/// creates or destroys none.
pub proof fn lemma_settled_supply(l: Ledger, t: Trade, token: Token)
    requires
        l.dom().finite(),
        trade_fault(l, t) is None,
    ensures
        settled(l, t).dom().finite(),
        supply(settled(l, t), token) == supply(l, token),
{
    let paid = transferred(l, t.buyer, t.seller, t.quote, t.amount as nat);
    let delivered = transferred(paid, t.seller, t.buyer, t.base, t.qty as nat);
    lemma_transfer_supply(l, t.buyer, t.seller, t.quote, t.amount as nat, token);
    lemma_transfer_supply(paid, t.seller, t.buyer, t.base, t.qty as nat, token);
    if t.refund > 0 {
        lemma_unlock_supply(delivered, t.buyer, t.quote, t.refund as nat, token);
    }
}

/// A crossing run keeps the book valid, adds no order to it, and hands back
/// a remainder that is the taker itself with less quantity, still funded.
pub proof fn lemma_crossed_keeps_book(s: Crossing)
    requires
        book_wf(s.orders),
        funded(s.taker),
    ensures
        book_wf(crossed(s).orders),
        crossed(s).orders.dom().subset_of(s.orders.dom()),
        crossed(s).rest is Some ==> {
            let rest = crossed(s).rest->0;
            &&& crossed(s).fault is None
            &&& funded(rest)
            &&& rest.qty > 0
            &&& rest.qty <= s.taker.qty
            &&& rest.id == s.taker.id
            &&& rest.owner == s.taker.owner
            &&& rest.pair == s.taker.pair
            &&& rest.side == s.taker.side
            &&& rest.price == s.taker.price
            &&& rest.timestamp == s.taker.timestamp
        },
    decreases s.orders.dom().len(),
{
    match best(s.orders, opposite(s.taker.side)) {
        None => {},
        Some(id) => {
            assert(is_best(s.orders, opposite(s.taker.side), id));
            let maker = s.orders[id];
            if crosses(s.taker, maker) {
                lemma_trade_within_escrow(s.taker, maker);
                if step(s) is More {
                    lemma_step_shrinks(s);
                    lemma_crossed_keeps_book(step(s)->More_0);
                }
            }
        },
    }
}

/// A crossing run moves funds between accounts and creates or destroys none:
/// the supply of each asset is the same before and after.
pub proof fn lemma_crossed_conserves(s: Crossing, token: Token)
    requires
        s.orders.dom().finite(),
        s.ledger.dom().finite(),
    ensures
        crossed(s).ledger.dom().finite(),
        supply(crossed(s).ledger, token) == supply(s.ledger, token),
    decreases s.orders.dom().len(),
{
    match step(s) {
        Next::Done(end) => {
            let id = best(s.orders, opposite(s.taker.side));
            if id is Some && crosses(s.taker, s.orders[id->0]) {
                lemma_settled_supply(s.ledger, trade_of(s.taker, s.orders[id->0]), token);
            }
            if end.taker.qty == 0 && end.taker.side == Side::Buy && end.taker.locked > 0
                && concluded(end).fault is None {
                lemma_unlock_supply(
                    end.ledger,
                    end.taker.owner,
                    end.taker.pair.1,
                    end.taker.locked as nat,
                    token,
                );
            }
        },
        Next::Failed(end, fault) => {},
        Next::More(next) => {
            let id = best(s.orders, opposite(s.taker.side))->0;
            lemma_settled_supply(s.ledger, trade_of(s.taker, s.orders[id]), token);
            lemma_step_shrinks(s);
            lemma_crossed_conserves(next, token);
        },
    }
}

/// Execution-price rule, for a run from any state: the events recorded so far
/// stay as they are, events are added in pairs, and every added pair records
/// a trade of the taker with an order that rested on the opposite side, both
/// legs at the sell-side order's limit price.
pub proof fn lemma_crossed_fills(s: Crossing)
    requires
        book_wf(s.orders),
    ensures
        s.events.len() <= crossed(s).events.len(),
        (crossed(s).events.len() - s.events.len()) % 2 == 0,
        crossed(s).events.subrange(0, s.events.len() as int) == s.events,
        forall|k: int|
            0 <= k && s.events.len() + 2 * k + 1 < crossed(s).events.len() ==> records_trade(
                s.orders,
                s.taker,
                #[trigger] maker_event(crossed(s).events, s.events.len() as int, k),
                taker_event(crossed(s).events, s.events.len() as int, k),
            ),
    decreases s.orders.dom().len(),
{
    let from = s.events.len() as int;
    let out = crossed(s);
    match best(s.orders, opposite(s.taker.side)) {
        None => {
            assert(out.events == s.events);
            assert(out.events.subrange(0, from) =~= s.events);
        },
        Some(id) => {
            assert(is_best(s.orders, opposite(s.taker.side), id));
            let maker = s.orders[id];
            let t = trade_of(s.taker, maker);
            let grown = s.events + fill_events(s.taker, maker, t);
            match step(s) {
                Next::Done(end) => {
                    assert(out.events == end.events);
                    if crosses(s.taker, maker) {
                        assert(end.events == grown);
                        assert(out.events.subrange(0, from) =~= s.events);
                        assert forall|k: int|
                            0 <= k && from + 2 * k + 1 < out.events.len() implies records_trade(
                            s.orders,
                            s.taker,
                            #[trigger] maker_event(out.events, from, k),
                            taker_event(out.events, from, k),
                        ) by {
                            assert(k == 0);
                        }
                    } else {
                        assert(out.events.subrange(0, from) =~= s.events);
                    }
                },
                Next::Failed(end, fault) => {
                    assert(out.events == s.events);
                    assert(out.events.subrange(0, from) =~= s.events);
                },
                Next::More(next) => {
                    lemma_step_shrinks(s);
                    lemma_crossed_fills(next);
                    assert(next.events == grown);
                    assert(out.events.subrange(0, from) =~= s.events) by {
                        assert(out.events.subrange(0, from + 2).subrange(0, from)
                            =~= out.events.subrange(0, from));
                        assert(grown.subrange(0, from) =~= s.events);
                    }
                    assert forall|k: int|
                        0 <= k && from + 2 * k + 1 < out.events.len() implies records_trade(
                        s.orders,
                        s.taker,
                        #[trigger] maker_event(out.events, from, k),
                        taker_event(out.events, from, k),
                    ) by {
                        if k == 0 {
                            assert(out.events.subrange(0, from + 2)[from] == out.events[from]);
                            assert(out.events.subrange(0, from + 2)[from + 1] == out.events[from
                                + 1]);
                            assert(grown[from] == fill_events(s.taker, maker, t)[0]);
                            assert(grown[from + 1] == fill_events(s.taker, maker, t)[1]);
                        } else {
                            assert(records_trade(
                                next.orders,
                                next.taker,
                                maker_event(out.events, from + 2, k - 1),
                                taker_event(out.events, from + 2, k - 1),
                            ));
                        }
                    }
                },
            }
        },
    }
}

/// Execution-price rule: every trade of a crossing run is recorded as a pair
/// of events, the maker's then the taker's, and both carry the limit price of
/// the sell-side order, never the buy side's.
pub proof fn lemma_fills_at_sell_price(orders: Orders, ledger: Ledger, taker: Order)
    requires
        book_wf(orders),
    ensures
        cross(orders, ledger, taker).events.len() % 2 == 0,
        forall|k: int|
            0 <= k && 2 * k + 1 < cross(orders, ledger, taker).events.len() ==> records_trade(
                orders,
                taker,
                #[trigger] maker_event(cross(orders, ledger, taker).events, 0, k),
                taker_event(cross(orders, ledger, taker).events, 0, k),
            ),
{
    lemma_crossed_fills(Crossing { orders, ledger, taker, events: Seq::empty() });
}

/// Price-time priority, for a run from any state: of two trades, the earlier
/// one is with the maker of higher priority.
pub proof fn lemma_crossed_in_priority(s: Crossing)
    requires
        book_wf(s.orders),
    ensures
        forall|j: int, k: int|
            0 <= j < k && s.events.len() + 2 * k + 1 < crossed(s).events.len() ==> before(
                opposite(s.taker.side),
                s.orders[(#[trigger] maker_event(
                    crossed(s).events,
                    s.events.len() as int,
                    j,
                )).order_id],
                s.orders[(#[trigger] maker_event(
                    crossed(s).events,
                    s.events.len() as int,
                    k,
                )).order_id],
            ),
    decreases s.orders.dom().len(),
{
    let from = s.events.len() as int;
    let out = crossed(s);
    let side = opposite(s.taker.side);
    lemma_crossed_fills(s);
    match step(s) {
        Next::More(next) => {
            let id = best(s.orders, side)->0;
            assert(is_best(s.orders, side, id));
            let maker = s.orders[id];
            let t = trade_of(s.taker, maker);
            lemma_step_shrinks(s);
            lemma_crossed_fills(next);
            lemma_crossed_in_priority(next);
            assert(next.events == s.events + fill_events(s.taker, maker, t));
            assert forall|j: int, k: int|
                0 <= j < k && from + 2 * k + 1 < out.events.len() implies before(
                side,
                s.orders[(#[trigger] maker_event(out.events, from, j)).order_id],
                s.orders[(#[trigger] maker_event(out.events, from, k)).order_id],
            ) by {
                let later = maker_event(out.events, from + 2, k - 1);
                assert(records_trade(
                    next.orders,
                    next.taker,
                    later,
                    taker_event(out.events, from + 2, k - 1),
                ));
                assert(later == maker_event(out.events, from, k));
                if j == 0 {
                    assert(out.events.subrange(0, from + 2)[from] == out.events[from]);
                    assert(next.events[from] == fill_events(s.taker, maker, t)[0]);
                    assert(maker_event(out.events, from, 0).order_id == id);
                } else {
                    let earlier = maker_event(out.events, from + 2, j - 1);
                    assert(records_trade(
                        next.orders,
                        next.taker,
                        earlier,
                        taker_event(out.events, from + 2, j - 1),
                    ));
                    assert(earlier == maker_event(out.events, from, j));
                }
            }
        },
        _ => {
            assert forall|j: int, k: int|
                0 <= j < k && from + 2 * k + 1 < out.events.len() implies before(
                side,
                s.orders[(#[trigger] maker_event(out.events, from, j)).order_id],
                s.orders[(#[trigger] maker_event(out.events, from, k)).order_id],
            ) by {
                let id = best(s.orders, side);
                if id is Some {
                    assert(out.events.len() <= from + 2);
                }
            }
        },
    }
}

/// Price-time priority: the makers of a crossing run are consumed in the
/// order of their priority, best price first and, at one price, earliest
/// arrival first.
pub proof fn lemma_fills_in_priority(orders: Orders, ledger: Ledger, taker: Order)
    requires
        book_wf(orders),
    ensures
        forall|j: int, k: int|
            0 <= j < k && 2 * k + 1 < cross(orders, ledger, taker).events.len() ==> before(
                opposite(taker.side),
                orders[(#[trigger] maker_event(cross(orders, ledger, taker).events, 0, j)).order_id],
                orders[(#[trigger] maker_event(cross(orders, ledger, taker).events, 0, k)).order_id],
            ),
{
    lemma_crossed_in_priority(Crossing { orders, ledger, taker, events: Seq::empty() });
}

/// Non-match: a taker with quantity left whose price is not compatible with
/// the best price of the opposite side, or that finds the opposite side
/// empty, trades with nobody. No event is recorded, no balance and no
/// resting order changes, and the taker comes back as it went in.
pub proof fn lemma_no_cross_no_effect(orders: Orders, ledger: Ledger, taker: Order)
    requires
        taker.qty > 0,
        match best(orders, opposite(taker.side)) {
            None => true,
            Some(id) => !crosses(taker, orders[id]),
        },
    ensures
        cross(orders, ledger, taker) == (Outcome {
            orders,
            ledger,
            rest: Some(taker),
            events: Seq::empty(),
            fault: None,
        }),
{
}

/// When no resting order of the opposite side has a compatible price, the
/// best one has none either.
pub proof fn lemma_none_crosses(orders: Orders, taker: Order)
    requires
        forall|id: u64|
            orders.contains_key(id) && (#[trigger] orders[id]).side == opposite(taker.side)
                ==> !crosses(taker, orders[id]),
    ensures
        match best(orders, opposite(taker.side)) {
            None => true,
            Some(id) => !crosses(taker, orders[id]),
        },
{
    let id = best(orders, opposite(taker.side));
    if id is Some {
        assert(is_best(orders, opposite(taker.side), id->0));
    }
}

} // verus!
