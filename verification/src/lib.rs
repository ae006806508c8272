//! A continuous double-auction order matching engine: exact money, orders and
//! trades, a per-pair order book with price/time priority, and an engine that
//! routes operations to the book of each trading pair.

pub mod money;
pub mod order;
pub mod orderbook;
pub mod registry;
pub mod engine;
pub mod gateway;
