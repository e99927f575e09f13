//! The in-memory implementations of the ledger and the order book.
pub mod btree_order_book;
pub mod order_table;
pub mod price_index;
pub mod vault;
