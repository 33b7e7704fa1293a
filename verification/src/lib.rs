//! A single-instrument limit order matching engine with price-time priority.

pub mod types;
pub mod book;
pub mod index;
pub mod laws;
pub mod engine;
pub mod score;
