//! Core of a perpetual-futures trading venue: fixed-scale decimal
//! arithmetic, margin rules, per-symbol order books with price-time
//! matching, position accounting, and funding settlement.

pub mod decimal;
pub mod models;
pub mod account;
pub mod margin;
pub mod orderbook;
pub mod funding;
pub mod exchange;
mod ids;
