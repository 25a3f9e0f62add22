use flash_lob::{CancelOrder, MatchingEngine, OrderRejected, OrderType, OutputEvent, PlaceOrder, RejectReason, Side};

fn place_order(
    order_id: u64,
    user_id: u64,
    side: Side,
    price: u64,
    qty: u32,
) -> PlaceOrder {
    PlaceOrder {
        order_id,
        user_id,
        side,
        price,
        qty,
        order_type: OrderType::Limit,
    }
}

#[test]
fn test_place_bid_no_match() {
    let mut engine = MatchingEngine::new(1000);
    
    let order = place_order(1, 100, Side::Bid, 10000, 100);
    let events = engine.process_place(order);
    
    // Should get Accepted + BookDelta
    assert_eq!(events.len(), 2);
    assert!(matches!(events[0], OutputEvent::Accepted(_)));
    assert!(matches!(events[1], OutputEvent::BookDelta(_)));
    
    assert_eq!(engine.best_bid(), Some(10000));
    assert_eq!(engine.best_ask(), None);
    assert_eq!(engine.order_count(), 1);
}

#[test]
fn test_place_ask_no_match() {
    let mut engine = MatchingEngine::new(1000);
    
    let order = place_order(1, 100, Side::Ask, 10100, 100);
    let events = engine.process_place(order);
    
    assert_eq!(events.len(), 2);
    assert_eq!(engine.best_bid(), None);
    assert_eq!(engine.best_ask(), Some(10100));
}

#[test]
fn test_full_match() {
    let mut engine = MatchingEngine::new(1000);
    
    // Place resting ask
    let ask = place_order(1, 100, Side::Ask, 10000, 100);
    engine.process_place(ask);
    
    // Place crossing bid
    let bid = place_order(2, 200, Side::Bid, 10000, 100);
    let events = engine.process_place(bid);
    
    // Should get Trade + BookDelta (level removed)
    let trades: Vec<_> = events.iter()
        .filter(|e| matches!(e, OutputEvent::Trade(_)))
        .collect();
    assert_eq!(trades.len(), 1);
    
    if let OutputEvent::Trade(t) = trades[0] {
        assert_eq!(t.price, 10000);
        assert_eq!(t.qty, 100);
        assert_eq!(t.maker_order_id, 1);
        assert_eq!(t.taker_order_id, 2);
        assert_eq!(t.taker_side, Side::Bid);
    }
    
    // Book should be empty
    assert_eq!(engine.order_count(), 0);
    assert_eq!(engine.best_bid(), None);
    assert_eq!(engine.best_ask(), None);
}

#[test]
fn test_partial_match_taker_remains() {
    let mut engine = MatchingEngine::new(1000);
    
    // Place small resting ask
    let ask = place_order(1, 100, Side::Ask, 10000, 50);
    engine.process_place(ask);
    
    // Place larger crossing bid
    let bid = place_order(2, 200, Side::Bid, 10000, 100);
    let events = engine.process_place(bid);
    
    // Should trade 50, then rest 50
    let trades: Vec<_> = events.iter()
        .filter(|e| matches!(e, OutputEvent::Trade(_)))
        .collect();
    assert_eq!(trades.len(), 1);
    
    if let OutputEvent::Trade(t) = trades[0] {
        assert_eq!(t.qty, 50);
    }
    
    // Taker should be resting
    let accepted: Vec<_> = events.iter()
        .filter(|e| matches!(e, OutputEvent::Accepted(_)))
        .collect();
    assert_eq!(accepted.len(), 1);
    
    if let OutputEvent::Accepted(a) = accepted[0] {
        assert_eq!(a.order_id, 2);
        assert_eq!(a.qty, 50);
    }
    
    // Book state
    assert_eq!(engine.order_count(), 1);
    assert_eq!(engine.best_bid(), Some(10000));
    assert_eq!(engine.best_ask(), None);
}

#[test]
fn test_partial_match_maker_remains() {
    let mut engine = MatchingEngine::new(1000);
    
    // Place large resting ask
    let ask = place_order(1, 100, Side::Ask, 10000, 100);
    engine.process_place(ask);
    
    // Place smaller crossing bid
    let bid = place_order(2, 200, Side::Bid, 10000, 30);
    engine.process_place(bid);
    
    // Maker should have 70 remaining
    assert_eq!(engine.order_count(), 1);
    assert_eq!(engine.best_ask(), Some(10000));
    
    let (qty, count) = engine.book.depth_at(Side::Ask, 10000);
    assert_eq!(qty, 70);
    assert_eq!(count, 1);
}

#[test]
fn test_match_multiple_levels() {
    let mut engine = MatchingEngine::new(1000);
    
    // Place asks at multiple levels
    engine.process_place(place_order(1, 100, Side::Ask, 10000, 50));
    engine.process_place(place_order(2, 100, Side::Ask, 10010, 50));
    engine.process_place(place_order(3, 100, Side::Ask, 10020, 50));
    
    // Place large crossing bid
    let bid = place_order(4, 200, Side::Bid, 10020, 120);
    let events = engine.process_place(bid);
    
    // Should match all of level 10000 (50), all of 10010 (50), part of 10020 (20)
    let trades: Vec<_> = events.iter()
        .filter_map(|e| if let OutputEvent::Trade(t) = e { Some(t) } else { None })
        .collect();
    
    assert_eq!(trades.len(), 3);
    assert_eq!(trades[0].price, 10000);
    assert_eq!(trades[0].qty, 50);
    assert_eq!(trades[1].price, 10010);
    assert_eq!(trades[1].qty, 50);
    assert_eq!(trades[2].price, 10020);
    assert_eq!(trades[2].qty, 20);
    
    // 30 remaining at 10020
    assert_eq!(engine.order_count(), 1);
    assert_eq!(engine.best_ask(), Some(10020));
}

#[test]
fn test_cancel_order() {
    let mut engine = MatchingEngine::new(1000);
    
    // Place order
    engine.process_place(place_order(1, 100, Side::Bid, 10000, 100));
    assert_eq!(engine.order_count(), 1);
    
    // Cancel it
    let events = engine.process_cancel(CancelOrder { order_id: 1 });
    
    assert_eq!(events.len(), 2);
    assert!(matches!(events[0], OutputEvent::Canceled(_)));
    assert!(matches!(events[1], OutputEvent::BookDelta(_)));
    
    if let OutputEvent::Canceled(c) = &events[0] {
        assert_eq!(c.order_id, 1);
        assert_eq!(c.canceled_qty, 100);
    }
    
    assert_eq!(engine.order_count(), 0);
    assert_eq!(engine.best_bid(), None);
}

#[test]
fn test_cancel_nonexistent() {
    let mut engine = MatchingEngine::new(1000);
    
    let events = engine.process_cancel(CancelOrder { order_id: 999 });
    
    assert_eq!(events.len(), 1);
    assert!(matches!(
        events[0],
        OutputEvent::Rejected(OrderRejected {
            reason: RejectReason::OrderNotFound,
            ..
        })
    ));
}

#[test]
fn matching_test_duplicate_order_id() {
    let mut engine = MatchingEngine::new(1000);
    
    engine.process_place(place_order(1, 100, Side::Bid, 10000, 100));
    let events = engine.process_place(place_order(1, 200, Side::Ask, 10100, 50));
    
    assert_eq!(events.len(), 1);
    assert!(matches!(
        events[0],
        OutputEvent::Rejected(OrderRejected {
            reason: RejectReason::DuplicateOrderId,
            ..
        })
    ));
}

#[test]
fn test_zero_quantity_rejected() {
    let mut engine = MatchingEngine::new(1000);
    
    let events = engine.process_place(place_order(1, 100, Side::Bid, 10000, 0));
    
    assert_eq!(events.len(), 1);
    assert!(matches!(
        events[0],
        OutputEvent::Rejected(OrderRejected {
            reason: RejectReason::InvalidQuantity,
            ..
        })
    ));
}

#[test]
fn test_fifo_order_priority() {
    let mut engine = MatchingEngine::new(1000);
    
    // Place 3 asks at same price (FIFO order: 1, 2, 3)
    engine.process_place(place_order(1, 100, Side::Ask, 10000, 100));
    engine.process_place(place_order(2, 101, Side::Ask, 10000, 100));
    engine.process_place(place_order(3, 102, Side::Ask, 10000, 100));
    
    // Match against first two
    let events = engine.process_place(place_order(4, 200, Side::Bid, 10000, 200));
    
    let trades: Vec<_> = events.iter()
        .filter_map(|e| if let OutputEvent::Trade(t) = e { Some(t) } else { None })
        .collect();
    
    assert_eq!(trades.len(), 2);
    assert_eq!(trades[0].maker_order_id, 1); // First in
    assert_eq!(trades[1].maker_order_id, 2); // Second in
    
    // Order 3 should still be resting
    assert_eq!(engine.order_count(), 1);
}

#[test]
fn test_price_time_priority() {
    let mut engine = MatchingEngine::new(1000);
    
    // Place asks at different prices
    engine.process_place(place_order(1, 100, Side::Ask, 10020, 100)); // Worst
    engine.process_place(place_order(2, 100, Side::Ask, 10000, 100)); // Best
    engine.process_place(place_order(3, 100, Side::Ask, 10010, 100)); // Middle
    
    // Match - should go 10000 -> 10010 -> 10020
    let events = engine.process_place(place_order(4, 200, Side::Bid, 10020, 250));
    
    let trades: Vec<_> = events.iter()
        .filter_map(|e| if let OutputEvent::Trade(t) = e { Some(t) } else { None })
        .collect();
    
    assert_eq!(trades.len(), 3);
    assert_eq!(trades[0].price, 10000);
    assert_eq!(trades[1].price, 10010);
    assert_eq!(trades[2].price, 10020);
}
