use mdc::book_processor::BookProcessor;
use mdc::models::{DepthEntry, DepthSnapshot, DepthUpdate, MarketEvent};
use mdc::order_book::{OrderBook, PriceKey};

fn bits(x: f64) -> u64 {
    x.to_bits()
}

fn entry(price: f64, quantity: f64) -> DepthEntry {
    DepthEntry { price: bits(price), quantity: bits(quantity) }
}

fn create_test_snapshot() -> DepthSnapshot {
    DepthSnapshot {
        last_update_id: 123456,
        bids: vec![entry(100.0, 10.0), entry(99.5, 15.0)],
        asks: vec![entry(100.5, 5.0), entry(101.0, 8.0)],
    }
}

#[test]
fn test_book_processor_initialization() {
    let snapshot = create_test_snapshot();

    let mut processor = BookProcessor::new();
    processor.process_snapshot(snapshot);

    let received_book = processor.current_state();

    assert_eq!(received_book.bids.len(), 2);
    assert_eq!(received_book.asks.len(), 2);
    assert_eq!(received_book.get(OrderBook::bid(bits(100.0))).unwrap(), bits(10.0));
    assert_eq!(received_book.get(OrderBook::bid(bits(99.5))).unwrap(), bits(15.0));
    assert_eq!(received_book.get(OrderBook::ask(bits(100.5))).unwrap(), bits(5.0));
    assert_eq!(received_book.get(OrderBook::ask(bits(101.0))).unwrap(), bits(8.0));
}

#[test]
fn test_book_processor_update() {
    let snapshot = create_test_snapshot();

    let update = DepthUpdate {
        event_type: "depthUpdate".to_string(),
        event_time: 1672515782136,
        symbol: "BTCUSDT".to_string(),
        first_update_id: 123457,
        last_update_id: 123458,
        bids: vec![entry(100.0, 12.0), entry(99.0, 5.0)],
        asks: vec![entry(100.5, 0.0), entry(101.5, 3.0)],
    };

    let mut processor = BookProcessor::new();
    let _snapshot_book = processor.process_event(MarketEvent::DepthSnapshot(snapshot)).unwrap();
    let update_book = processor.process_event(MarketEvent::DepthUpdate(update)).unwrap();

    assert_eq!(update_book.bids.len(), 3);
    assert_eq!(update_book.asks.len(), 2);
    assert_eq!(update_book.get(OrderBook::bid(bits(100.0))).unwrap(), bits(12.0));
    assert_eq!(update_book.get(OrderBook::bid(bits(99.0))).unwrap(), bits(5.0));
    assert_eq!(update_book.get(OrderBook::ask(bits(100.5))), None);
    assert_eq!(update_book.get(OrderBook::ask(bits(101.5))).unwrap(), bits(3.0));
}

#[test]
fn test_book_processor_multiple_updates() {
    let snapshot = DepthSnapshot {
        last_update_id: 123456,
        bids: vec![entry(100.0, 10.0)],
        asks: vec![entry(101.0, 5.0)],
    };

    let update1 = DepthUpdate {
        event_type: "depthUpdate".to_string(),
        event_time: 1672515782136,
        symbol: "BTCUSDT".to_string(),
        first_update_id: 123457,
        last_update_id: 123458,
        bids: vec![entry(100.0, 12.0)],
        asks: vec![],
    };

    let update2 = DepthUpdate {
        event_type: "depthUpdate".to_string(),
        event_time: 1672515782137,
        symbol: "BTCUSDT".to_string(),
        first_update_id: 123459,
        last_update_id: 123460,
        bids: vec![],
        asks: vec![entry(101.0, 8.0)],
    };

    let mut processor = BookProcessor::new();
    let _snapshot_book = processor.process_event(MarketEvent::DepthSnapshot(snapshot)).unwrap();
    let book1 = processor.process_event(MarketEvent::DepthUpdate(update1)).unwrap();
    let book2 = processor.process_event(MarketEvent::DepthUpdate(update2)).unwrap();

    assert_eq!(book1.bids.len(), 1);
    assert_eq!(book1.asks.len(), 1);
    assert_eq!(book1.get(OrderBook::bid(bits(100.0))).unwrap(), bits(12.0));
    assert_eq!(book1.get(OrderBook::ask(bits(101.0))).unwrap(), bits(5.0));

    assert_eq!(book2.bids.len(), 1);
    assert_eq!(book2.asks.len(), 1);
    assert_eq!(book2.get(OrderBook::bid(bits(100.0))).unwrap(), bits(12.0));
    assert_eq!(book2.get(OrderBook::ask(bits(101.0))).unwrap(), bits(8.0));
}

#[test]
fn test_book_processor_accepts_snapshot_after_init() {
    let initial_snapshot = create_test_snapshot();

    let second_snapshot = DepthSnapshot {
        last_update_id: 123460,
        bids: vec![entry(99.0, 15.0)],
        asks: vec![entry(102.0, 8.0)],
    };

    let mut processor = BookProcessor::new();
    let _initial_book =
        processor.process_event(MarketEvent::DepthSnapshot(initial_snapshot)).unwrap();
    let received_book =
        processor.process_event(MarketEvent::DepthSnapshot(second_snapshot)).unwrap();

    assert_eq!(received_book.bids.len(), 1);
    assert_eq!(received_book.asks.len(), 1);
    assert_eq!(received_book.get(OrderBook::bid(bits(99.0))).unwrap(), bits(15.0));
    assert_eq!(received_book.get(OrderBook::ask(bits(102.0))).unwrap(), bits(8.0));
}

#[test]
#[should_panic]
fn test_book_processor_rejects_update_before_snapshot() {
    let update = DepthUpdate {
        event_type: "depthUpdate".to_string(),
        event_time: 1672515782136,
        symbol: "BTCUSDT".to_string(),
        first_update_id: 123457,
        last_update_id: 123458,
        bids: vec![entry(100.0, 12.0)],
        asks: vec![],
    };

    let mut processor = BookProcessor::new();
    processor.process_update(update);
}

#[test]
fn test_book_processor_emits_one_state_per_depth_event() {
    let mut processor = BookProcessor::new();

    let emitted = processor.process_event(MarketEvent::DepthSnapshot(create_test_snapshot()));
    assert!(emitted.is_some());

    let trade = mdc::models::TradeEvent {
        event_type: "trade".to_string(),
        event_time: 1675858459000,
        symbol: "BTCUSDT".to_string(),
        trade_id: 1,
        price: 2,
        quantity: 3,
        trade_time: 1675858460001,
        is_market_maker: false,
        ignore: false,
    };
    let discarded = processor.process_event(MarketEvent::TradeEvent(trade));
    assert!(discarded.is_none());
}

#[test]
fn test_emitted_state_is_independent_copy() {
    let mut processor = BookProcessor::new();
    processor.process_snapshot(create_test_snapshot());
    let frozen = processor.current_state();

    let update = DepthUpdate {
        event_type: "depthUpdate".to_string(),
        event_time: 1672515782136,
        symbol: "BTCUSDT".to_string(),
        first_update_id: 123457,
        last_update_id: 123458,
        bids: vec![entry(100.0, 0.0)],
        asks: vec![],
    };
    processor.process_update(update);

    assert_eq!(frozen.get(PriceKey::Bid(bits(100.0))), Some(bits(10.0)));
    assert_eq!(processor.current_state().get(PriceKey::Bid(bits(100.0))), None);
}

#[test]
fn test_snapshot_resync_matches_replayed_updates() {
    // Applying a snapshot and then the updates reaching some position
    // leaves the same book as adopting a snapshot that pictures that
    // position directly — here the deltas and the later snapshot
    // describe the same state.
    let mut replayed = BookProcessor::new();
    replayed.process_snapshot(DepthSnapshot {
        last_update_id: 100,
        bids: vec![entry(100.0, 10.0)],
        asks: vec![entry(101.0, 5.0)],
    });
    replayed.process_update(DepthUpdate {
        event_type: "depthUpdate".to_string(),
        event_time: 1672515782136,
        symbol: "BTCUSDT".to_string(),
        first_update_id: 101,
        last_update_id: 105,
        bids: vec![entry(100.0, 12.0), entry(99.0, 5.0)],
        asks: vec![entry(101.0, 0.0), entry(101.5, 3.0)],
    });

    let mut resynced = BookProcessor::new();
    resynced.process_snapshot(DepthSnapshot {
        last_update_id: 105,
        bids: vec![entry(100.0, 12.0), entry(99.0, 5.0)],
        asks: vec![entry(101.5, 3.0)],
    });

    let replayed_book = replayed.current_state();
    let resynced_book = resynced.current_state();
    assert_eq!(replayed_book.bids, resynced_book.bids);
    assert_eq!(replayed_book.asks, resynced_book.asks);
}

#[test]
fn test_emitted_states_only_positive_quantities() {
    // With every snapshot entry non-zero, no emitted state ever stores a
    // zero quantity: zero-quantity deltas delete their level instead.
    let mut processor = BookProcessor::new();
    processor.process_snapshot(create_test_snapshot());

    let update = DepthUpdate {
        event_type: "depthUpdate".to_string(),
        event_time: 1672515782136,
        symbol: "BTCUSDT".to_string(),
        first_update_id: 123457,
        last_update_id: 123458,
        bids: vec![entry(100.0, 0.0), entry(98.0, 4.0)],
        asks: vec![entry(100.5, 0.0)],
    };
    processor.process_update(update);

    let state = processor.current_state();
    for level in state.bids.iter() {
        assert!(level.1 != 0);
    }
    for level in state.asks.iter() {
        assert!(level.1 != 0);
    }
}
