//! Double-entry ledger aggregation: resolving transaction postings with
//! zero-sum inference and accumulating per-account balance histories.
//!
//! [`resolve::resolve`] turns one [`transaction::Transaction`] into concrete
//! signed [`quantity::Quantity`] values, inferring the single missing amount
//! so the transaction sums to exactly zero. [`accounts::Accounts`]
//! accumulates resolved quantities per account in arrival order, and hands a
//! chart-ready [`accounts::BalanceSeries`] back out. The laws the engine
//! obeys across whole runs are stated and proved in [`laws`].
pub mod accounts;
pub mod laws;
pub mod quantity;
pub mod resolve;
pub mod transaction;
