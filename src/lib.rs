//! A replay engine for market-by-order feeds: per-publisher order books with
//! price-time priority and crossed-book repair, a market that routes records
//! to books and aggregates the best bid and offer across publishers, and the
//! replay state machine that drives them, each with its contract proved.
pub mod book;
pub mod book_model;
pub mod effect;
pub mod ladder;
pub mod laws;
pub mod market;
pub mod msg;
pub mod price_level;
pub mod replay;
