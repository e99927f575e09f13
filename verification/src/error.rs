//! The error kinds of the exchange core.
use crate::types::Token;
use vstd::prelude::*;

verus! {

/// Why a request was rejected.
#[derive(Debug, Clone, PartialEq, Eq)]
pub enum Error {
    InsufficientAllowance(Token),
    InsufficientToken(Token),
    InvalidQuantity(String),
    InvalidPrice(String),
    InvalidOrder(String),
    OrderNotFound(u64),
    InsufficientBalance(Token),
    InsufficientLockedBalance(Token),
    Unauthorized(String),
    InvalidTransfer(String),
}

} // verus!
