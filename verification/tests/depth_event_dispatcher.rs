use mdc::depth_event_dispatcher::DepthEventDispatcher;
use mdc::models::{DepthSnapshot, DepthUpdate, MarketEvent};

fn make_update(first: u64, last: u64) -> DepthUpdate {
    DepthUpdate {
        event_type: "depthUpdate".to_string(),
        event_time: 1672515782136,
        symbol: "BTCUSDT".to_string(),
        first_update_id: first,
        last_update_id: last,
        bids: vec![],
        asks: vec![],
    }
}

fn make_snapshot(last: u64) -> DepthSnapshot {
    DepthSnapshot { last_update_id: last, bids: vec![], asks: vec![] }
}

fn feed(dispatcher: &mut DepthEventDispatcher, events: Vec<MarketEvent>) -> Vec<MarketEvent> {
    let mut out = Vec::new();
    for event in events {
        out.extend(dispatcher.handle_event(event));
    }
    out
}

fn verify_update(event: &MarketEvent, expected_first: u64, expected_last: u64) {
    match event {
        MarketEvent::DepthUpdate(update) => {
            assert_eq!(update.first_update_id, expected_first);
            assert_eq!(update.last_update_id, expected_last);
        },
        _ => panic!("Expected DepthUpdate"),
    }
}

fn verify_snapshot(event: &MarketEvent, expected_last: u64) {
    match event {
        MarketEvent::DepthSnapshot(snap) => {
            assert_eq!(snap.last_update_id, expected_last);
        },
        _ => panic!("Expected DepthSnapshot"),
    }
}

#[test]
fn test_depth_event_dispatcher_in_order() {
    let mut dispatcher = DepthEventDispatcher::new();
    let out = feed(
        &mut dispatcher,
        vec![
            MarketEvent::DepthSnapshot(make_snapshot(100)),
            MarketEvent::DepthUpdate(make_update(101, 105)),
            MarketEvent::DepthUpdate(make_update(106, 110)),
        ],
    );

    assert_eq!(out.len(), 3);
    verify_snapshot(&out[0], 100);
    verify_update(&out[1], 101, 105);
    verify_update(&out[2], 106, 110);
}

#[test]
fn test_depth_event_dispatcher_out_of_order() {
    let mut dispatcher = DepthEventDispatcher::new();
    let out = feed(
        &mut dispatcher,
        vec![
            MarketEvent::DepthSnapshot(make_snapshot(100)),
            MarketEvent::DepthUpdate(make_update(106, 110)),
            MarketEvent::DepthUpdate(make_update(101, 105)),
        ],
    );

    assert_eq!(out.len(), 3);
    verify_snapshot(&out[0], 100);
    verify_update(&out[1], 101, 105);
    verify_update(&out[2], 106, 110);
}

#[test]
fn test_depth_event_dispatcher_duplicates() {
    let mut dispatcher = DepthEventDispatcher::new();
    let out = feed(
        &mut dispatcher,
        vec![
            MarketEvent::DepthSnapshot(make_snapshot(100)),
            MarketEvent::DepthUpdate(make_update(101, 105)),
            MarketEvent::DepthUpdate(make_update(101, 105)),
        ],
    );

    if out.len() > 2 {
        panic!("Received unexpected update");
    }
    assert_eq!(out.len(), 2);
    verify_snapshot(&out[0], 100);
    verify_update(&out[1], 101, 105);
}

#[test]
fn test_depth_event_dispatcher_old_update() {
    let mut dispatcher = DepthEventDispatcher::new();
    let out = feed(
        &mut dispatcher,
        vec![
            MarketEvent::DepthSnapshot(make_snapshot(100)),
            MarketEvent::DepthUpdate(make_update(95, 99)),
            MarketEvent::DepthUpdate(make_update(101, 105)),
        ],
    );

    assert_eq!(out.len(), 2);
    verify_snapshot(&out[0], 100);
    verify_update(&out[1], 101, 105);
}

#[test]
fn test_depth_event_dispatcher_snapshot_forwarding() {
    let mut dispatcher = DepthEventDispatcher::new();
    let out = feed(&mut dispatcher, vec![MarketEvent::DepthSnapshot(make_snapshot(200))]);

    assert_eq!(out.len(), 1);
    verify_snapshot(&out[0], 200);
}

#[test]
fn test_depth_event_dispatcher_complex_sequence() {
    let mut dispatcher = DepthEventDispatcher::new();
    let out = feed(
        &mut dispatcher,
        vec![
            MarketEvent::DepthSnapshot(make_snapshot(100)),
            MarketEvent::DepthUpdate(make_update(106, 110)),
            MarketEvent::DepthUpdate(make_update(111, 115)),
            MarketEvent::DepthUpdate(make_update(101, 105)),
        ],
    );

    assert_eq!(out.len(), 4);
    verify_snapshot(&out[0], 100);
    verify_update(&out[1], 101, 105);
    verify_update(&out[2], 106, 110);
    verify_update(&out[3], 111, 115);
}

#[test]
fn test_depth_event_dispatcher_multiple_snapshots() {
    let mut dispatcher = DepthEventDispatcher::new();
    let out = feed(
        &mut dispatcher,
        vec![
            MarketEvent::DepthSnapshot(make_snapshot(100)),
            MarketEvent::DepthUpdate(make_update(101, 105)),
            MarketEvent::DepthSnapshot(make_snapshot(200)),
            MarketEvent::DepthUpdate(make_update(201, 205)),
        ],
    );

    assert_eq!(out.len(), 4);
    verify_snapshot(&out[0], 100);
    verify_update(&out[1], 101, 105);
    verify_snapshot(&out[2], 200);
    verify_update(&out[3], 201, 205);
}

#[test]
fn test_depth_event_dispatcher_empty_buffer_after_filtering() {
    let mut dispatcher = DepthEventDispatcher::new();
    let out = feed(
        &mut dispatcher,
        vec![
            MarketEvent::DepthSnapshot(make_snapshot(100)),
            MarketEvent::DepthUpdate(make_update(95, 100)),
        ],
    );

    if out.len() > 1 {
        panic!("Received unexpected update");
    }
    assert_eq!(out.len(), 1);
    verify_snapshot(&out[0], 100);
}

#[test]
fn test_depth_event_dispatcher_updates_before_snapshot() {
    let mut dispatcher = DepthEventDispatcher::new();
    let buffered = feed(
        &mut dispatcher,
        vec![
            MarketEvent::DepthUpdate(make_update(95, 99)),
            MarketEvent::DepthUpdate(make_update(101, 105)),
        ],
    );
    if !buffered.is_empty() {
        panic!("Received unexpected update before snapshot");
    }

    let out = feed(&mut dispatcher, vec![MarketEvent::DepthSnapshot(make_snapshot(100))]);

    assert_eq!(out.len(), 2);
    verify_snapshot(&out[0], 100);
    verify_update(&out[1], 101, 105);
}

#[test]
fn test_depth_event_dispatcher_boundary_update_not_accepted() {
    // The gating condition is strict on the right: an update whose `u`
    // equals the next expected id is held back, not forwarded.
    let mut dispatcher = DepthEventDispatcher::new();
    let out = feed(
        &mut dispatcher,
        vec![
            MarketEvent::DepthSnapshot(make_snapshot(100)),
            MarketEvent::DepthUpdate(make_update(101, 101)),
        ],
    );

    assert_eq!(out.len(), 1);
    verify_snapshot(&out[0], 100);

    // The held entry stalls the buffer until a fresh snapshot passes
    // it; it is then discarded as stale and the stream moves on.
    let resync = feed(&mut dispatcher, vec![MarketEvent::DepthSnapshot(make_snapshot(101))]);
    assert_eq!(resync.len(), 1);
    verify_snapshot(&resync[0], 101);

    let more = feed(&mut dispatcher, vec![MarketEvent::DepthUpdate(make_update(102, 105))]);
    assert_eq!(more.len(), 1);
    verify_update(&more[0], 102, 105);
}

#[test]
fn test_depth_event_dispatcher_discards_other_events() {
    let mut dispatcher = DepthEventDispatcher::new();
    let trade = mdc::models::TradeEvent {
        event_type: "trade".to_string(),
        event_time: 1675858459000,
        symbol: "BTCUSDT".to_string(),
        trade_id: 1,
        price: 2,
        quantity: 3,
        trade_time: 1675858460001,
        is_market_maker: false,
        ignore: false,
    };
    let out = feed(
        &mut dispatcher,
        vec![
            MarketEvent::DepthSnapshot(make_snapshot(100)),
            MarketEvent::TradeEvent(trade),
            MarketEvent::DepthUpdate(make_update(101, 105)),
        ],
    );

    assert_eq!(out.len(), 2);
    verify_snapshot(&out[0], 100);
    verify_update(&out[1], 101, 105);
}
