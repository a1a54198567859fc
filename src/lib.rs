//! A single-instrument order book: resting limit orders kept in price-time
//! priority, market orders matched against them, and the text protocol that
//! clients use to submit orders.
pub mod book;
pub mod command;
pub mod laws;
pub mod notice;
pub mod orders;
