//! A pari-mutuel betting ledger: bettors stake on one of two sides of a pool,
//! the pool's owner declares the winning side, and winners claim their share
//! of both sides' stakes less a fixed fee.
//!
//! `types` holds the records and errors, `payout` the fee and share
//! arithmetic, `ledger` the record store and its operations, and `laws` the
//! properties proved of them.

pub mod laws;
pub mod ledger;
pub mod payout;
pub mod types;
