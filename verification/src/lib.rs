//! An in-memory limit order book and matching engine.
//!
//! Orders are kept in price-time priority: each side of the book is a
//! price-ordered sequence of FIFO queues, and matching repeatedly crosses
//! the best bid against the best ask. Order-lifetime policies
//! (good-till-cancelled, fill-and-kill, fill-or-kill, good-for-day, market)
//! alter admission and cleanup, never the core priority rule.

pub mod book;
pub mod error;
pub mod order;
pub mod schedule;
pub mod trade;
pub mod types;

pub use book::BookModel;
pub use book::LevelInfo;
pub use book::LevelInfos;
pub use book::LevelModel;
pub use book::OrderBookLevels;
pub use book::Orderbook;
pub use error::OrderError;
pub use order::Order;
pub use order::Orders;
pub use trade::Trade;
pub use trade::TradeInfo;
pub use trade::Trades;
pub use types::OrderId;
pub use types::OrderType;
pub use types::Price;
pub use types::Quantity;
pub use types::Side;
