//! The interfaces of the two components: the funds ledger and the order book.
pub mod order_book;
pub mod token_vault;
