//! The market-data event model: depth snapshots, incremental depth
//! updates, trades and best-price tickers, and the tagged union that
//! carries any of them through the pipeline.
//!
//! Prices and quantities are the bit patterns of the 64-bit doubles
//! received on the wire, held in `u64` fields.  A quantity whose pattern
//! is zero encodes "delete this level".

use vstd::prelude::*;

verus! {

/// One price level: a price and the quantity resting at it, both as
/// 64-bit double bit patterns.
#[derive(Clone, Copy, PartialEq, Eq, Structural, Debug)]
pub struct DepthEntry {
    pub price: u64,
    pub quantity: u64,
}

/// A full picture of the book at sequence position `last_update_id`.
#[derive(Clone, Debug)]
pub struct DepthSnapshot {
    pub last_update_id: u64,
    pub bids: Vec<DepthEntry>,
    pub asks: Vec<DepthEntry>,
}

/// An incremental change covering the sequence numbers
/// `first_update_id ..= last_update_id`.  A delta with quantity bits 0
/// deletes the level.
#[derive(Clone, Debug)]
pub struct DepthUpdate {
    pub event_type: String,
    pub event_time: u64,
    pub symbol: String,
    pub first_update_id: u64,
    pub last_update_id: u64,
    pub bids: Vec<DepthEntry>,
    pub asks: Vec<DepthEntry>,
}

/// A single executed trade.
#[derive(Clone, Debug)]
pub struct TradeEvent {
    pub event_type: String,
    pub event_time: u64,
    pub symbol: String,
    pub trade_id: u64,
    pub price: u64,
    pub quantity: u64,
    pub trade_time: u64,
    pub is_market_maker: bool,
    pub ignore: bool,
}

/// A best-bid/best-ask ticker update.
#[derive(Clone, Debug)]
pub struct PriceUpdate {
    pub update_id: u64,
    pub symbol: String,
    pub best_bid_price: u64,
    pub best_bid_quantity: u64,
    pub best_ask_price: u64,
    pub best_ask_quantity: u64,
}

/// The closed sum of every market-data message the pipeline can carry.
#[derive(Clone, Debug)]
pub enum MarketEvent {
    DepthSnapshot(DepthSnapshot),
    DepthUpdate(DepthUpdate),
    TradeEvent(TradeEvent),
    PriceUpdate(PriceUpdate),
}

impl MarketEvent {
    /// Whether the event belongs on the depth channel.
    pub open spec fn is_depth(self) -> bool {
        self is DepthSnapshot || self is DepthUpdate
    }

    /// The sequence position a depth event stands at: the last update id
    /// it covers.
    pub open spec fn seq_id(self) -> u64
        recommends
            self.is_depth(),
    {
        match self {
            MarketEvent::DepthSnapshot(s) => s.last_update_id,
            MarketEvent::DepthUpdate(u) => u.last_update_id,
            MarketEvent::TradeEvent(_) => 0,
            MarketEvent::PriceUpdate(_) => 0,
        }
    }
}

/// Types that can be lifted into the `MarketEvent` union.
pub trait IntoMarketEvent: Sized {
    /// The variant the value is lifted to.
    spec fn as_market_event(self) -> MarketEvent;

    /// Lifts the value into the union.
    fn into_market_event(self) -> (r: MarketEvent)
        ensures
            r == self.as_market_event(),
    ;
}

/// Everything a stream source must provide so that the same session loop
/// can serve depth, trade and ticker feeds alike.
pub trait MarketEventSource: IntoMarketEvent {

}

impl<T: IntoMarketEvent> MarketEventSource for T {

}

impl IntoMarketEvent for DepthSnapshot {
    open spec fn as_market_event(self) -> MarketEvent {
        MarketEvent::DepthSnapshot(self)
    }

    fn into_market_event(self) -> (r: MarketEvent) {
        MarketEvent::DepthSnapshot(self)
    }
}

impl IntoMarketEvent for DepthUpdate {
    open spec fn as_market_event(self) -> MarketEvent {
        MarketEvent::DepthUpdate(self)
    }

    fn into_market_event(self) -> (r: MarketEvent) {
        MarketEvent::DepthUpdate(self)
    }
}

impl IntoMarketEvent for TradeEvent {
    open spec fn as_market_event(self) -> MarketEvent {
        MarketEvent::TradeEvent(self)
    }

    fn into_market_event(self) -> (r: MarketEvent) {
        MarketEvent::TradeEvent(self)
    }
}

impl IntoMarketEvent for PriceUpdate {
    open spec fn as_market_event(self) -> MarketEvent {
        MarketEvent::PriceUpdate(self)
    }

    fn into_market_event(self) -> (r: MarketEvent) {
        MarketEvent::PriceUpdate(self)
    }
}

} // verus!
