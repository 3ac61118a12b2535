//! A deterministic, price-time-priority limit order book.
//!
//! Prices are expressed as integer ticks and quantities as integer lots.  That
//! is intentional: floating-point values are unsuitable for matching rules
//! because equal-looking decimal values may compare differently in binary.
//!
//! * [`types`]: orders, trades, levels and errors.
//! * [`model`]: the mathematical book that every contract speaks of.
//! * [`book`]: the order book itself.
//! * [`observe`]: events, and the observers that they are reported to.
//! * [`mapped_log`]: the bookkeeping of a log in a memory-mapped file.
//! * [`text`] and [`debug`]: events and the book as text.
//! * [`laws`]: what holds of the book as a whole.
//! * [`meaning`]: what the operations do, in terms of prices, quantities and
//!   places in line alone.
//! * [`reading`] and [`book_reading`]: what can be read back from the texts.

pub mod book;
pub mod book_reading;
pub mod debug;
pub mod laws;
mod lemmas;
pub mod mapped_log;
pub mod meaning;
pub mod model;
pub mod observe;
pub mod reading;
mod side;
mod sorted;
pub mod text;
pub mod types;

pub use book::OrderBook;
pub use types::{
    BookError, CancelledOrder, Level, LimitOrder, OrderId, Price, Quantity, Side, Trade,
};
