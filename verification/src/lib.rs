//! A limit order book matching engine.
//!
//! Orders rest in price levels kept in first-in-first-out queues. An incoming
//! order is matched against the best level of the opposite side, and whatever
//! is left of it rests in its own side of the book.

pub mod engine;
mod errors;
pub mod level;
mod order;
mod types;

pub use engine::{BookView, MatchingEngine};
pub use errors::EngineError;
pub use level::{FillResult, LevelView, PriceLevel};
pub use order::{Amount, MarketEvent, Order, OrderEvent, OrderId, Price, Side, Trade, TradeId};
pub use types::{InternalEvents, OrderBookConfig};
