//! In-memory matching core for a single market: a two-sided limit order book
//! with price-time priority matching, an order index for O(1) id lookup, and
//! read-only snapshot queries. All book mutations keep the order index
//! consistent with the ledger, and the matching pass is specified and proved
//! against a pure specification of the algorithm.

pub mod book;
pub mod laws;
pub mod matching;
pub mod mutate;
pub mod query;
pub mod types;

pub use book::OrderBook;
pub use query::{OrderBookLevel, OrderBookSnapshot};
pub use matching::MatchResult;
pub use types::{AmendError, Order, OrderType, Side, Trade};
