//! A limit-order matching engine.
//!
//! Orders carry an integer price and a quantity. An incoming order is matched
//! against the resting orders of the opposite side under price-time priority,
//! every match is recorded as a trade at the resting order's price, and what
//! is left of the incoming order rests on its own side of the book.

pub mod models;

pub use models::order::Order;
pub use models::order_book::OrderBook;
