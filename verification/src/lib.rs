//! Matching and custody core of a two-asset limit-order exchange.
//!
//! Two components, coupled through the matching algorithm: a ledger of
//! per-account balances, split into spendable and escrowed funds, and an
//! order book that crosses incoming limit orders against resting ones under
//! price-time priority.
//!
//! `ledger` and `matching` hold the mathematical models of the two
//! components and their laws, `escrow` the laws that tie them together;
//! `traits` holds their interfaces, `storage` and `settlement` the
//! implementations; `minidex` holds the engine that owns one book and one
//! ledger and offers the composite operations.
pub mod error;
pub mod escrow;
pub mod ledger;
pub mod matching;
pub mod minidex;
pub mod settlement;
pub mod storage;
pub mod traits;
pub mod types;

pub use error::Error;
pub use minidex::{Deposit, MiniDex, NewOrder, OrderCancelled, OrderFilled, Placed, Withdraw};
pub use storage::btree_order_book::BTreeOrderBook;
pub use storage::vault::Vault;
pub use traits::order_book::OrderBook;
pub use traits::token_vault::TokenVault;
pub use types::{EventFilled, Order, Side, Token};
