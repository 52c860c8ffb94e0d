//! A verified core for maintaining a local replica of a limit order book
//! from Binance-style market-data feeds.
//!
//! The crate covers the depth ingestion and reconciliation pipeline: the
//! event model, the order book itself, the dispatcher that reorders,
//! deduplicates and gates depth updates against snapshots, and the
//! processor that applies validated events to the book.  Network
//! transport, JSON decoding and logging live outside this crate and talk
//! to it through plain values.
//!
//! Prices and quantities travel as the raw bit patterns of the 64-bit
//! IEEE-754 doubles found on the wire, stored in `u64` fields.  Bitwise
//! equality of those patterns is exactly the key equality the book needs,
//! and for the non-negative finite doubles that price feeds carry, the
//! unsigned order of the patterns coincides with the numeric order.

pub mod models;
pub mod book_processor;
pub mod cli_args;
pub mod config;
pub mod depth_event_dispatcher;
pub mod order_book;
pub mod server;

use vstd::prelude::*;

verus! {

} // verus!
