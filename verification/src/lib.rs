//! A continuous double-auction order book.
//!
//! Two price-time-priority ladders of resting limit orders (asks and bids)
//! are kept sorted at all times; crossing heads are resolved into a stream
//! of trades by a matcher that consumes top-of-book orders.

mod direction;
pub mod laws;
mod matching;
mod order;
mod orderbook;
mod side;
mod timestamp;
mod trade;

pub use crate::direction::Direction;
pub use crate::matching::match_orders;
pub use crate::matching::match_sides;
pub use crate::matching::MatchResult;
pub use crate::order::Order;
pub use crate::orderbook::Orderbook;
pub use crate::side::deque_binary_search_by;
pub use crate::side::Side;
pub use crate::timestamp::Timestamp;
pub use crate::trade::Trade;
