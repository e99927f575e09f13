//! Shared domain types: sides, assets, orders and fill events.
use ink::primitives::AccountId;
use vstd::prelude::*;

verus! {

/// `ink::primitives::AccountId`, the 32-byte account identifier. It is carried
/// through the engine as an opaque value and only ever compared for equality.
#[verifier::external_type_specification]
#[verifier::external_body]
pub struct ExAccountId(AccountId);

/// Calls `AccountId`'s `==`, which ink derives over the 32 identifier bytes:
/// the result is `true` exactly when both arguments are the same identifier.
#[verifier::external_body]
pub(crate) fn same_account(a: &AccountId, b: &AccountId) -> (same: bool)
    ensures
        same == (*a == *b),
{
    a == b
}

/// Which side of the book an order rests on.
#[derive(Debug, Clone, Copy, PartialEq, Eq, Structural)]
pub enum Side {
    Buy,
    Sell,
}

/// The two assets of the single supported trading pair.
#[derive(Debug, Clone, Copy, PartialEq, Eq, Structural)]
pub enum Token {
    Base,
    Quote,
}

/// A limit order together with its mutable matching state.
#[derive(Debug, Clone, Copy)]
pub struct Order {
    pub id: u64,
    pub owner: AccountId,
    pub pair: (Token, Token),
    pub side: Side,
    pub price: u128,
    pub qty: u128,
    pub timestamp: u64,
    pub locked: u128,
}

/// One leg of an executed trade.
#[derive(Debug, Clone, Copy, PartialEq, Eq, Structural)]
pub struct EventFilled {
    pub order_id: u64,
    pub side: Side,
    pub filled_price: u128,
    pub filled_qty: u128,
}

impl EventFilled {
    pub fn new(order_id: u64, side: Side, filled_price: u128, filled_qty: u128) -> (event: Self)
        ensures
            event == (EventFilled { order_id, side, filled_price, filled_qty }),
    {
        Self { order_id, side, filled_price, filled_qty }
    }
}

} // verus!
