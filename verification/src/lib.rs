//! A single-symbol limit order book with a verified matching engine.
//!
//! Incoming orders arrive as a totally ordered stream and are matched against
//! resting liquidity on the opposite side of a two-sided, price-priority
//! book. Three disciplines are supported: limit orders rest their residual,
//! immediate-or-cancel orders discard it, and fill-or-kill orders trade
//! atomically in full or not at all, restoring the book on failure. Every
//! order's lifecycle is reported in a deterministic event log.

pub mod order;
pub mod book;
pub mod matcher;

pub use crate::matcher::{Matcher, MatchResult, choose_prices, opposite_side, orders_match};
