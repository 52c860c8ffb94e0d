use mdc::models::{
    DepthEntry, DepthSnapshot, DepthUpdate, IntoMarketEvent, MarketEvent, MarketEventSource,
    PriceUpdate, TradeEvent,
};
use std::sync::mpsc;

fn bits(x: f64) -> u64 {
    x.to_bits()
}

#[test]
fn test_market_event_enum() {
    let depth_snapshot = DepthSnapshot {
        last_update_id: 123456,
        bids: vec![DepthEntry { price: bits(100.0), quantity: bits(10.0) }],
        asks: vec![DepthEntry { price: bits(101.0), quantity: bits(5.0) }],
    };

    let depth_update = DepthUpdate {
        event_type: "depthUpdate".to_string(),
        event_time: 1672515782136,
        symbol: "BTCUSDT".to_string(),
        first_update_id: 157,
        last_update_id: 160,
        bids: vec![DepthEntry { price: bits(100.0), quantity: bits(10.0) }],
        asks: vec![DepthEntry { price: bits(101.0), quantity: bits(5.0) }],
    };

    let trade_event = TradeEvent {
        event_type: "trade".to_string(),
        event_time: 1675858459000,
        symbol: "BTCUSDT".to_string(),
        trade_id: 10003456,
        price: bits(23456.78),
        quantity: bits(0.00123),
        trade_time: 1675858460001,
        is_market_maker: true,
        ignore: false,
    };

    let price_update = PriceUpdate {
        update_id: 555555,
        symbol: "ETHBTC".to_string(),
        best_bid_price: bits(0.06789),
        best_bid_quantity: bits(120.0),
        best_ask_price: bits(0.06795),
        best_ask_quantity: bits(98.5),
    };

    let market_event1 = depth_snapshot.into_market_event();
    let market_event2 = depth_update.into_market_event();
    let market_event3 = trade_event.into_market_event();
    let market_event4 = price_update.into_market_event();

    match market_event1 {
        MarketEvent::DepthSnapshot(_) => (),
        _ => panic!("Expected DepthSnapshot variant"),
    }

    match market_event2 {
        MarketEvent::DepthUpdate(_) => (),
        _ => panic!("Expected DepthUpdate variant"),
    }

    match market_event3 {
        MarketEvent::TradeEvent(_) => (),
        _ => panic!("Expected TradeEvent variant"),
    }

    match market_event4 {
        MarketEvent::PriceUpdate(_) => (),
        _ => panic!("Expected PriceUpdate variant"),
    }
}

#[test]
fn test_market_event_source_trait() {
    fn assert_market_event_source<T: MarketEventSource>() {}

    assert_market_event_source::<DepthSnapshot>();
    assert_market_event_source::<DepthUpdate>();
    assert_market_event_source::<TradeEvent>();
    assert_market_event_source::<PriceUpdate>();
}

#[test]
fn test_mpsc_queue_with_market_events() {
    let (tx, rx) = mpsc::channel::<MarketEvent>();

    let depth_snapshot = DepthSnapshot {
        last_update_id: 123456,
        bids: vec![DepthEntry { price: bits(100.0), quantity: bits(10.0) }],
        asks: vec![DepthEntry { price: bits(101.0), quantity: bits(5.0) }],
    };

    let trade_event = TradeEvent {
        event_type: "trade".to_string(),
        event_time: 1675858459000,
        symbol: "BTCUSDT".to_string(),
        trade_id: 10003456,
        price: bits(23456.78),
        quantity: bits(0.00123),
        trade_time: 1675858460001,
        is_market_maker: true,
        ignore: false,
    };

    tx.send(depth_snapshot.into_market_event()).unwrap();
    tx.send(trade_event.into_market_event()).unwrap();

    let mut depth_snapshot_count = 0;
    let mut trade_event_count = 0;

    for _ in 0..2 {
        match rx.recv().unwrap() {
            MarketEvent::DepthSnapshot(snapshot) => {
                depth_snapshot_count += 1;
                assert_eq!(snapshot.last_update_id, 123456);
            },
            MarketEvent::TradeEvent(trade) => {
                trade_event_count += 1;
                assert_eq!(trade.trade_id, 10003456);
            },
            _ => panic!("Unexpected event type"),
        }
    }

    assert_eq!(depth_snapshot_count, 1);
    assert_eq!(trade_event_count, 1);
}
