//! In-memory book-keeping for a limit order book: resting orders grouped into
//! price levels per side, with aggregate volume, time priority and cancellation.
//!
//! Prices and sizes are integer counts of minor units (ticks and lots), so that
//! two equal prices always compare equal.

pub mod book;
pub mod error;
pub mod limit;
pub mod order;
