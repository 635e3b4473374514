//! A price-time priority order matching engine whose resting orders live in
//! an arena-backed intrusive doubly-linked list per price level, together
//! with a market-data book that is kept in sync with a depth feed.
pub mod arena;
pub mod book;
pub mod client;
pub mod engine;
pub mod feed;
pub mod market;
pub mod model;
pub mod price_level;
pub mod properties;
pub mod reconciler;
pub mod sorted;
pub mod types;
pub mod workload;

pub use price_level::{NodeId, OrderNode};
pub use types::{
    BookEvent, EngineError, FillResult, Order, OrderId, OrderType, Price, Qty, Side, TimeInForce,
    Timestamp, Trade,
};
