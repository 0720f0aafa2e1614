//! A small personal-finance ledger: a menu-driven command tree, a
//! transaction data model with exact fixed-point amounts, an append-only
//! line-per-record store with a verified codec, and the listing report
//! with its running total.

pub mod codec;
pub mod commands;
pub mod report;
pub mod store;
pub mod transaction;
pub mod tree;
