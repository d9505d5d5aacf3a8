//! An order-level limit order book for one instrument, kept in step with a
//! stream of market-by-order events, and the market-by-price view derived
//! from it.
pub mod book;
pub mod level;
pub mod mbo;
pub mod mbp;
pub mod order;

pub use book::OrderBook;
pub use level::OrderLevel;
pub use mbo::{into_mbo_messages, Action, MarketByOrderMessage, MboProcessError, MboProcessor};
pub use mbp::{MarketByPrice, OrderLevelSummary};
pub use order::{Order, OrderBookError, Side};
