//! An append-only, page-structured row store and the account ledger built on it.

pub mod error;
pub mod page;
pub mod database;
pub mod codec;
pub mod ring_buffer;
pub mod ledger;
