//! Ledger-based position and profit accounting for a portfolio of securities.
//!
//! Every amount of money is an integer count of millionths of the currency
//! unit, every share count is a whole number, and every split ratio is a pair
//! of whole numbers, so that each result is stated exactly. A holding carries
//! the cost of its shares, not an average already rounded: an average is
//! rounded once, down, when it is asked for.

pub mod alike;
pub mod error;
pub mod history;
pub mod laws;
pub mod portfolio;
pub mod position;
pub mod reorder;
pub mod stock;
pub mod summary;
pub mod ties;
pub mod timestamp;
pub mod trade;
pub mod valuation;
