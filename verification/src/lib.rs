//! A single-instrument order-matching core: a price-time priority limit
//! order book with market orders, a price-collar guard, cancellation, and
//! an execution engine, all verified.

pub mod order;
pub mod ladder;
pub mod book;
pub mod insert;
pub mod cancel;
pub mod matching;
pub mod place;
pub mod laws;
