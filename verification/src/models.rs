pub mod clock;
pub mod laws;
pub mod matching;
pub mod order;
pub mod order_book;
pub mod price_level;
pub mod trade;
