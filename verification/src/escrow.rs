//! How the book and the ledger fit together: the escrow an account has in
//! the ledger is the escrow of its orders, no more and no less.
//!
//! Where that holds, crossing never finds an escrow short: the only trade
//! that cannot be settled is one of an account with itself.
use crate::ledger::{locked, reserved, Ledger};
use crate::matching::{
    after_trade, best, book_wf, concluded, crossed, crosses, escrow_token, fills_maker, funded,
    is_best, lemma_trade_within_escrow, opposite, refunded, settled, step, trade_fault, trade_of,
    Crossing, Fault, Next, Orders, Trade,
};
use crate::types::{Order, Side, Token};
use ink::primitives::AccountId;
use vstd::prelude::*;

verus! {

/// What one order adds to the escrow of `who` in `token`.
pub open spec fn escrow_share(o: Order, who: AccountId, token: Token) -> nat {
    if o.owner == who && escrow_token(o) == token {
        o.locked as nat
    } else {
        0
    }
}

/// What an order that may or may not be there adds to the escrow of `who`
/// in `token`.
pub open spec fn share_of(o: Option<Order>, who: AccountId, token: Token) -> nat {
    match o {
        Some(order) => escrow_share(order, who, token),
        None => 0,
    }
}

/// The escrow of `who` in `token` over all orders of a book.
pub open spec fn escrow_of(orders: Orders, who: AccountId, token: Token) -> nat
    decreases orders.dom().len(),
    when orders.dom().finite()
{
    if orders.dom().len() == 0 {
        0
    } else {
        let id = orders.dom().choose();
        escrow_share(orders[id], who, token) + escrow_of(orders.remove(id), who, token)
    }
}

/// Every order of the book is for the same pair of assets.
pub open spec fn uniform(orders: Orders, pair: (Token, Token)) -> bool {
    forall|id: u64| orders.contains_key(id) ==> (#[trigger] orders[id]).pair == pair
}

/// The ledger holds in escrow, for every account and asset, exactly the
/// escrow of the account's orders in the book, plus that of one more order
/// that is under way.
pub open spec fn reconciled(orders: Orders, ledger: Ledger, under_way: Option<Order>) -> bool {
    forall|who: AccountId, token: Token|
        #![trigger locked(ledger, who, token)]
        #![trigger escrow_of(orders, who, token)]
        locked(ledger, who, token) == escrow_of(orders, who, token) + share_of(
            under_way,
            who,
            token,
        )
}

/// The escrow can be summed starting from any order.
pub proof fn lemma_escrow_split(orders: Orders, id: u64, who: AccountId, token: Token)
    requires
        orders.dom().finite(),
        orders.contains_key(id),
    ensures
        escrow_of(orders, who, token) == escrow_share(orders[id], who, token) + escrow_of(
            orders.remove(id),
            who,
            token,
        ),
    decreases orders.dom().len(),
{
    let first = orders.dom().choose();
    if first != id {
        lemma_escrow_split(orders.remove(first), id, who, token);
        lemma_escrow_split(orders.remove(id), first, who, token);
        assert(orders.remove(first).remove(id) =~= orders.remove(id).remove(first));
    }
}

/// Putting an order into the book changes the escrow by the difference
/// between its share and the share of the order it replaces.
pub proof fn lemma_escrow_insert(orders: Orders, id: u64, o: Order, who: AccountId, token: Token)
    requires
        orders.dom().finite(),
    ensures
        escrow_of(orders.insert(id, o), who, token) + (if orders.contains_key(id) {
            escrow_share(orders[id], who, token)
        } else {
            0
        }) == escrow_of(orders, who, token) + escrow_share(o, who, token),
{
    let after = orders.insert(id, o);
    lemma_escrow_split(after, id, who, token);
    assert(after.remove(id) =~= orders.remove(id));
    if orders.contains_key(id) {
        lemma_escrow_split(orders, id, who, token);
    } else {
        assert(orders.remove(id) =~= orders);
    }
}

/// What a settled trade leaves in escrow: the buyer's escrow of the quote
/// asset is down by what it paid and got back, the seller's escrow of the
/// base asset by what it delivered, and nothing else changed.
pub proof fn lemma_settled_escrow(l: Ledger, t: Trade, who: AccountId, token: Token)
    requires
        trade_fault(l, t) is None,
    ensures
        locked(settled(l, t), who, token) + (if who == t.buyer && token == t.quote {
            t.amount + t.refund
        } else {
            0
        }) + (if who == t.seller && token == t.base {
            t.qty as int
        } else {
            0
        }) == locked(l, who, token),
{
}

/// The book after a trade with the maker `id`: without the maker if it was
/// consumed in full, else with what is left of it.
pub open spec fn book_after_trade(orders: Orders, taker: Order, id: u64) -> Orders {
    let maker = orders[id];
    if fills_maker(taker, maker) {
        orders.remove(id)
    } else {
        orders.insert(id, after_trade(maker, trade_of(taker, maker)))
    }
}

/// Where the ledger holds the escrow of both parties, their trade has no
/// fault but that of an account trading with itself.
proof fn lemma_trade_covered(orders: Orders, ledger: Ledger, taker: Order, id: u64)
    requires
        orders.dom().finite(),
        orders.contains_key(id),
        orders[id].side == opposite(taker.side),
        orders[id].pair == taker.pair,
        crosses(taker, orders[id]),
        funded(taker),
        funded(orders[id]),
        reconciled(orders, ledger, Some(taker)),
    ensures
        match trade_fault(ledger, trade_of(taker, orders[id])) {
            None => true,
            Some(fault) => fault == Fault::SelfTrade,
        },
{
    let maker = orders[id];
    let t = trade_of(taker, maker);
    lemma_trade_within_escrow(taker, maker);
    lemma_escrow_split(orders, id, maker.owner, escrow_token(maker));
    assert(locked(ledger, maker.owner, escrow_token(maker)) == escrow_of(
        orders,
        maker.owner,
        escrow_token(maker),
    ) + share_of(Some(taker), maker.owner, escrow_token(maker)));
    assert(locked(ledger, taker.owner, escrow_token(taker)) == escrow_of(
        orders,
        taker.owner,
        escrow_token(taker),
    ) + share_of(Some(taker), taker.owner, escrow_token(taker)));
}

/// A settled trade takes out of one account's escrow in one asset what it
/// takes out of the escrow of the two orders.
proof fn lemma_trade_reconciled_at(
    orders: Orders,
    ledger: Ledger,
    taker: Order,
    id: u64,
    who: AccountId,
    token: Token,
)
    requires
        orders.dom().finite(),
        orders.contains_key(id),
        orders[id].side == opposite(taker.side),
        orders[id].pair == taker.pair,
        crosses(taker, orders[id]),
        funded(taker),
        funded(orders[id]),
        trade_fault(ledger, trade_of(taker, orders[id])) is None,
        locked(ledger, who, token) == escrow_of(orders, who, token) + escrow_share(
            taker,
            who,
            token,
        ),
    ensures
        locked(settled(ledger, trade_of(taker, orders[id])), who, token) == escrow_of(
            book_after_trade(orders, taker, id),
            who,
            token,
        ) + escrow_share(after_trade(taker, trade_of(taker, orders[id])), who, token),
{
    let maker = orders[id];
    let t = trade_of(taker, maker);
    lemma_trade_within_escrow(taker, maker);
    lemma_settled_escrow(ledger, t, who, token);
    lemma_escrow_split(orders, id, who, token);
    if !fills_maker(taker, maker) {
        lemma_escrow_insert(orders, id, after_trade(maker, t), who, token);
    }
    // what the two orders give up
    let from_taker = escrow_share(taker, who, token) - escrow_share(
        after_trade(taker, t),
        who,
        token,
    );
    let from_maker = escrow_of(orders, who, token) - escrow_of(
        book_after_trade(orders, taker, id),
        who,
        token,
    );
    let (buy, sell) = if taker.side == Side::Buy {
        (taker, maker)
    } else {
        (maker, taker)
    };
    let from_buy = if taker.side == Side::Buy {
        from_taker
    } else {
        from_maker
    };
    let from_sell = if taker.side == Side::Buy {
        from_maker
    } else {
        from_taker
    };
    assert(from_buy == if who == t.buyer && token == t.quote {
        t.amount + t.refund
    } else {
        0
    });
    assert(from_sell == if who == t.seller && token == t.base {
        t.qty as int
    } else {
        0
    });
}

/// One step of a crossing run on a reconciled book and ledger: the step
/// fails only on a trade of an account with itself, and what it leads to is
/// reconciled again.
pub proof fn lemma_step_reconciled(s: Crossing)
    requires
        book_wf(s.orders),
        funded(s.taker),
        uniform(s.orders, s.taker.pair),
        reconciled(s.orders, s.ledger, Some(s.taker)),
    ensures
        match step(s) {
            Next::More(next) | Next::Done(next) => {
                &&& book_wf(next.orders)
                &&& funded(next.taker)
                &&& next.taker.pair == s.taker.pair
                &&& uniform(next.orders, next.taker.pair)
                &&& reconciled(next.orders, next.ledger, Some(next.taker))
            },
            Next::Failed(_, fault) => fault == Fault::SelfTrade,
        },
{
    match best(s.orders, opposite(s.taker.side)) {
        None => {},
        Some(id) => {
            assert(is_best(s.orders, opposite(s.taker.side), id));
            let maker = s.orders[id];
            if crosses(s.taker, maker) {
                let t = trade_of(s.taker, maker);
                lemma_trade_within_escrow(s.taker, maker);
                lemma_trade_covered(s.orders, s.ledger, s.taker, id);
                if trade_fault(s.ledger, t) is None {
                    let taker = after_trade(s.taker, t);
                    let ledger = settled(s.ledger, t);
                    let orders = book_after_trade(s.orders, s.taker, id);
                    assert forall|who: AccountId, token: Token|
                        #![trigger locked(ledger, who, token)]
                        #![trigger escrow_of(orders, who, token)]
                        locked(ledger, who, token) == escrow_of(orders, who, token) + share_of(
                            Some(taker),
                            who,
                            token,
                        ) by {
                        assert(locked(s.ledger, who, token) == escrow_of(s.orders, who, token)
                            + share_of(Some(s.taker), who, token));
                        lemma_trade_reconciled_at(s.orders, s.ledger, s.taker, id, who, token);
                    }
                }
            }
        },
    }
}

/// A crossing run on a reconciled book and ledger never finds an escrow
/// short: it ends without a fault, or on a trade of an account with itself.
/// Where it ends without a fault, book and ledger are reconciled again,
/// with the taker's remainder under way.
pub proof fn lemma_crossed_reconciled(s: Crossing)
    requires
        book_wf(s.orders),
        funded(s.taker),
        uniform(s.orders, s.taker.pair),
        reconciled(s.orders, s.ledger, Some(s.taker)),
    ensures
        match crossed(s).fault {
            None => reconciled(crossed(s).orders, crossed(s).ledger, crossed(s).rest),
            Some(fault) => fault == Fault::SelfTrade,
        },
        uniform(crossed(s).orders, s.taker.pair),
        crossed(s).rest is Some ==> crossed(s).rest->0.pair == s.taker.pair,
    decreases s.orders.dom().len(),
{
    lemma_step_reconciled(s);
    match step(s) {
        Next::More(next) => {
            let id = best(s.orders, opposite(s.taker.side))->0;
            assert(is_best(s.orders, opposite(s.taker.side), id));
            lemma_crossed_reconciled(next);
        },
        Next::Done(end) => {
            lemma_concluded_reconciled(end);
        },
        Next::Failed(end, fault) => {},
    }
}

/// The end of a run on a reconciled book and ledger: the exhausted taker's
/// escrow is there to be handed back, and with it gone, or with the
/// remainder under way, book and ledger are reconciled.
pub proof fn lemma_concluded_reconciled(s: Crossing)
    requires
        funded(s.taker),
        reconciled(s.orders, s.ledger, Some(s.taker)),
    ensures
        concluded(s).fault is None,
        reconciled(concluded(s).orders, concluded(s).ledger, concluded(s).rest),
{
    if s.taker.qty == 0 {
        let out = concluded(s);
        let token = escrow_token(s.taker);
        assert(locked(s.ledger, s.taker.owner, token) >= s.taker.locked);
        assert forall|who: AccountId, token: Token|
            #![trigger locked(out.ledger, who, token)]
            #![trigger escrow_of(out.orders, who, token)]
            locked(out.ledger, who, token) == escrow_of(out.orders, who, token) by {
            assert(locked(s.ledger, who, token) == escrow_of(s.orders, who, token) + share_of(
                Some(s.taker),
                who,
                token,
            ));
        }
    }
}

/// What does not touch any escrow keeps book and ledger reconciled.
pub proof fn lemma_same_escrow_reconciled(
    orders: Orders,
    before: Ledger,
    after: Ledger,
    under_way: Option<Order>,
)
    requires
        reconciled(orders, before, under_way),
        forall|who: AccountId, token: Token| #[trigger]
            locked(after, who, token) == locked(before, who, token),
    ensures
        reconciled(orders, after, under_way),
{
    assert forall|who: AccountId, token: Token|
        #![trigger locked(after, who, token)]
        #![trigger escrow_of(orders, who, token)]
        locked(after, who, token) == escrow_of(orders, who, token) + share_of(
            under_way,
            who,
            token,
        ) by {
        assert(locked(before, who, token) == escrow_of(orders, who, token) + share_of(
            under_way,
            who,
            token,
        ));
    }
}

/// Locking the escrow of a new order puts the order under way: book and
/// ledger are reconciled with it.
pub proof fn lemma_reserved_reconciled(orders: Orders, ledger: Ledger, order: Order)
    requires
        reconciled(orders, ledger, None),
    ensures
        reconciled(
            orders,
            reserved(ledger, order.owner, escrow_token(order), order.locked as nat),
            Some(order),
        ),
{
    let after = reserved(ledger, order.owner, escrow_token(order), order.locked as nat);
    assert forall|who: AccountId, token: Token|
        #![trigger locked(after, who, token)]
        #![trigger escrow_of(orders, who, token)]
        locked(after, who, token) == escrow_of(orders, who, token) + share_of(
            Some(order),
            who,
            token,
        ) by {
        assert(locked(ledger, who, token) == escrow_of(orders, who, token));
    }
}

/// Resting an order adds its escrow to the book's: a reconciled book and
/// ledger with the order under way are reconciled with the order resting.
pub proof fn lemma_rested_reconciled(orders: Orders, ledger: Ledger, rest: Option<Order>)
    requires
        orders.dom().finite(),
        reconciled(orders, ledger, rest),
        rest is Some ==> !orders.contains_key(rest->0.id),
    ensures
        reconciled(
            match rest {
                Some(order) => orders.insert(order.id, order),
                None => orders,
            },
            ledger,
            None,
        ),
{
    match rest {
        Some(order) => {
            let after = orders.insert(order.id, order);
            assert forall|who: AccountId, token: Token|
                #![trigger locked(ledger, who, token)]
                #![trigger escrow_of(after, who, token)]
                locked(ledger, who, token) == escrow_of(after, who, token) by {
                lemma_escrow_insert(orders, order.id, order, who, token);
                assert(locked(ledger, who, token) == escrow_of(orders, who, token) + share_of(
                    rest,
                    who,
                    token,
                ));
            }
        },
        None => {},
    }
}

/// Cancelling an order of a reconciled book: the ledger holds the order's
/// escrow, and with the order out of the book and its escrow handed back,
/// book and ledger are reconciled again.
pub proof fn lemma_cancelled_reconciled(orders: Orders, ledger: Ledger, id: u64)
    requires
        orders.dom().finite(),
        orders.contains_key(id),
        reconciled(orders, ledger, None),
    ensures
        orders[id].locked <= locked(ledger, orders[id].owner, escrow_token(orders[id])),
        reconciled(
            orders.remove(id),
            refunded(
                ledger,
                orders[id].owner,
                escrow_token(orders[id]),
                orders[id].locked as nat,
            ),
            None,
        ),
{
    let order = orders[id];
    let after = orders.remove(id);
    let handed_back = refunded(ledger, order.owner, escrow_token(order), order.locked as nat);
    lemma_escrow_split(orders, id, order.owner, escrow_token(order));
    assert(locked(ledger, order.owner, escrow_token(order)) == escrow_of(
        orders,
        order.owner,
        escrow_token(order),
    ));
    assert forall|who: AccountId, token: Token|
        #![trigger locked(handed_back, who, token)]
        #![trigger escrow_of(after, who, token)]
        locked(handed_back, who, token) == escrow_of(after, who, token) by {
        lemma_escrow_split(orders, id, who, token);
        assert(locked(ledger, who, token) == escrow_of(orders, who, token));
    }
}

} // verus!
