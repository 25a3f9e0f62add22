use flash_lob::{
    BookUpdate, CancelOrder, Command, Engine, ModifyOrder, OrderAccepted, OrderCanceled, OrderRejected,
    OrderType, OutputEvent, PlaceOrder, RejectReason, Side, TradeEvent,
};

fn place(engine: &mut Engine, id: u64, user: u64, side: Side, price: u64, qty: u32, order_type: OrderType) -> Vec<OutputEvent> {
    engine.process_command(Command::Place(PlaceOrder { order_id: id, user_id: user, side, price, qty, order_type }))
}

fn cancel(engine: &mut Engine, id: u64) -> Vec<OutputEvent> {
    engine.process_command(Command::Cancel(CancelOrder { order_id: id }))
}

fn delta(side: Side, price: u64, new_qty: u64, new_count: u32) -> OutputEvent {
    OutputEvent::BookDelta(BookUpdate { side, price, new_qty, new_count })
}

fn trades(events: &[OutputEvent]) -> Vec<TradeEvent> {
    events.iter().filter_map(|e| if let OutputEvent::Trade(t) = e { Some(*t) } else { None }).collect()
}

#[test]
fn scenario_rest_bid_no_match() {
    let mut engine = Engine::new(100);
    let events = place(&mut engine, 1, 100, Side::Bid, 10000, 100, OrderType::Limit);
    assert_eq!(
        events,
        vec![
            OutputEvent::Accepted(OrderAccepted { order_id: 1, price: 10000, qty: 100, side: Side::Bid }),
            delta(Side::Bid, 10000, 100, 1),
        ]
    );
    assert_eq!(engine.best_bid(), Some(10000));
    assert_eq!(engine.best_ask(), None);
    assert_eq!(engine.order_count(), 1);
}

#[test]
fn scenario_full_cross_single_maker() {
    let mut engine = Engine::new(100);
    place(&mut engine, 1, 100, Side::Ask, 10000, 100, OrderType::Limit);
    let events = place(&mut engine, 2, 200, Side::Bid, 10000, 100, OrderType::Limit);
    assert_eq!(
        events,
        vec![
            OutputEvent::Trade(TradeEvent {
                price: 10000,
                qty: 100,
                maker_order_id: 1,
                taker_order_id: 2,
                maker_user_id: 100,
                taker_user_id: 200,
                taker_side: Side::Bid,
            }),
            delta(Side::Ask, 10000, 0, 0),
        ]
    );
    assert_eq!(engine.order_count(), 0);
    assert_eq!(engine.best_bid(), None);
    assert_eq!(engine.best_ask(), None);
}

#[test]
fn scenario_partial_taker_rests() {
    let mut engine = Engine::new(100);
    place(&mut engine, 1, 100, Side::Ask, 10000, 50, OrderType::Limit);
    let events = place(&mut engine, 2, 200, Side::Bid, 10000, 100, OrderType::Limit);
    assert_eq!(events.len(), 4);
    assert_eq!(trades(&events).len(), 1);
    assert_eq!(trades(&events)[0].qty, 50);
    assert_eq!(trades(&events)[0].price, 10000);
    assert_eq!(events[1], delta(Side::Ask, 10000, 0, 0));
    assert_eq!(events[2], OutputEvent::Accepted(OrderAccepted { order_id: 2, price: 10000, qty: 50, side: Side::Bid }));
    assert_eq!(events[3], delta(Side::Bid, 10000, 50, 1));
    assert_eq!(engine.best_bid(), Some(10000));
    assert_eq!(engine.best_ask(), None);
}

#[test]
fn scenario_sweep_three_levels() {
    let mut engine = Engine::new(100);
    place(&mut engine, 1, 1, Side::Ask, 10000, 50, OrderType::Limit);
    place(&mut engine, 2, 1, Side::Ask, 10010, 50, OrderType::Limit);
    place(&mut engine, 3, 1, Side::Ask, 10020, 50, OrderType::Limit);
    let events = place(&mut engine, 4, 2, Side::Bid, 10020, 120, OrderType::Limit);
    let t = trades(&events);
    assert_eq!(t.iter().map(|t| (t.price, t.qty)).collect::<Vec<_>>(), vec![(10000, 50), (10010, 50), (10020, 20)]);
    assert_eq!(events.len(), 6);
    assert_eq!(events[1], delta(Side::Ask, 10000, 0, 0));
    assert_eq!(events[3], delta(Side::Ask, 10010, 0, 0));
    assert_eq!(events[5], delta(Side::Ask, 10020, 30, 1));
    assert_eq!(engine.order_count(), 1);
    assert_eq!(engine.best_ask(), Some(10020));
    assert_eq!(engine.matcher.book.depth_at(Side::Ask, 10020), (30, 1));
}

#[test]
fn scenario_fifo_at_one_price() {
    let mut engine = Engine::new(100);
    place(&mut engine, 1, 1, Side::Ask, 10000, 100, OrderType::Limit);
    place(&mut engine, 2, 1, Side::Ask, 10000, 100, OrderType::Limit);
    place(&mut engine, 3, 1, Side::Ask, 10000, 100, OrderType::Limit);
    let events = place(&mut engine, 4, 2, Side::Bid, 10000, 200, OrderType::Limit);
    let makers: Vec<u64> = trades(&events).iter().map(|t| t.maker_order_id).collect();
    assert_eq!(makers, vec![1, 2]);
    assert_eq!(engine.order_count(), 1);
    assert!(engine.matcher.book.contains_order(3));
}

#[test]
fn scenario_ioc_non_cross() {
    let mut engine = Engine::new(100);
    place(&mut engine, 1, 1, Side::Ask, 10000, 100, OrderType::Limit);
    let before = engine.state_hash();
    let events = place(&mut engine, 2, 2, Side::Bid, 9000, 100, OrderType::IOC);
    assert!(events.is_empty());
    assert_eq!(engine.state_hash(), before);
    assert_eq!(engine.order_count(), 1);
    assert_eq!(engine.best_ask(), Some(10000));
    assert_eq!(engine.best_bid(), None);
}

#[test]
fn scenario_fok_insufficient() {
    let mut engine = Engine::new(100);
    place(&mut engine, 1, 1, Side::Ask, 10000, 40, OrderType::Limit);
    let before = engine.state_hash();
    let events = place(&mut engine, 2, 2, Side::Bid, 10000, 100, OrderType::FOK);
    assert_eq!(
        events,
        vec![OutputEvent::Rejected(OrderRejected { order_id: 2, reason: RejectReason::InsufficientLiquidity })]
    );
    assert_eq!(engine.state_hash(), before);
    assert_eq!(engine.matcher.book.depth_at(Side::Ask, 10000), (40, 1));
}

#[test]
fn scenario_modify_preserves_side_and_relocates() {
    let mut engine = Engine::new(100);
    place(&mut engine, 1, 100, Side::Bid, 10000, 100, OrderType::Limit);
    let events = engine.process_command(Command::Modify(ModifyOrder {
        order_id: 1,
        new_order_id: 2,
        new_price: 10500,
        new_qty: 200,
    }));
    assert_eq!(
        events,
        vec![
            OutputEvent::Canceled(OrderCanceled { order_id: 1, canceled_qty: 100 }),
            delta(Side::Bid, 10000, 0, 0),
            OutputEvent::Accepted(OrderAccepted { order_id: 2, price: 10500, qty: 200, side: Side::Bid }),
            delta(Side::Bid, 10500, 200, 1),
        ]
    );
    assert_eq!(engine.best_bid(), Some(10500));
}

#[test]
fn law_place_then_cancel_restores_state_hash() {
    let mut engine = Engine::new(100);
    place(&mut engine, 1, 1, Side::Bid, 9900, 10, OrderType::Limit);
    place(&mut engine, 2, 1, Side::Ask, 10100, 10, OrderType::Limit);
    let before = engine.state_hash();
    // A new level above the best bid, then a second order at an existing level.
    place(&mut engine, 3, 1, Side::Bid, 10000, 5, OrderType::Limit);
    assert_ne!(engine.state_hash(), before);
    cancel(&mut engine, 3);
    assert_eq!(engine.state_hash(), before);
    place(&mut engine, 4, 1, Side::Bid, 9900, 5, OrderType::Limit);
    cancel(&mut engine, 4);
    assert_eq!(engine.state_hash(), before);
    assert_eq!(engine.matcher.book.depth_at(Side::Bid, 9900), (10, 1));
}

#[test]
fn law_double_cancel_rejects_second() {
    let mut engine = Engine::new(100);
    place(&mut engine, 1, 1, Side::Bid, 9900, 10, OrderType::Limit);
    let first = cancel(&mut engine, 1);
    assert_eq!(first[0], OutputEvent::Canceled(OrderCanceled { order_id: 1, canceled_qty: 10 }));
    let second = cancel(&mut engine, 1);
    assert_eq!(second, vec![OutputEvent::Rejected(OrderRejected { order_id: 1, reason: RejectReason::OrderNotFound })]);
}

#[test]
fn law_fok_sufficient_fills_completely() {
    let mut engine = Engine::new(100);
    place(&mut engine, 1, 1, Side::Ask, 10000, 40, OrderType::Limit);
    place(&mut engine, 2, 1, Side::Ask, 10010, 70, OrderType::Limit);
    let events = place(&mut engine, 3, 2, Side::Bid, 10010, 100, OrderType::FOK);
    let t = trades(&events);
    assert_eq!(t.iter().map(|t| t.qty).sum::<u32>(), 100);
    assert!(!engine.matcher.book.contains_order(3));
    assert_eq!(engine.matcher.book.depth_at(Side::Ask, 10010), (10, 1));
}

#[test]
fn law_ioc_partial_fill_drops_residual() {
    let mut engine = Engine::new(100);
    place(&mut engine, 1, 1, Side::Ask, 10000, 40, OrderType::Limit);
    let events = place(&mut engine, 2, 2, Side::Bid, 10000, 100, OrderType::IOC);
    assert_eq!(events.len(), 2);
    assert_eq!(trades(&events)[0].qty, 40);
    assert_eq!(engine.order_count(), 0);
    assert_eq!(engine.best_bid(), None);
}

#[test]
fn error_invalid_quantity_and_duplicate() {
    let mut engine = Engine::new(100);
    let events = place(&mut engine, 1, 1, Side::Bid, 100, 0, OrderType::Limit);
    assert_eq!(events, vec![OutputEvent::Rejected(OrderRejected { order_id: 1, reason: RejectReason::InvalidQuantity })]);
    place(&mut engine, 1, 1, Side::Bid, 100, 5, OrderType::Limit);
    let events = place(&mut engine, 1, 1, Side::Ask, 200, 5, OrderType::Limit);
    assert_eq!(events, vec![OutputEvent::Rejected(OrderRejected { order_id: 1, reason: RejectReason::DuplicateOrderId })]);
}

#[test]
fn error_arena_full_keeps_trades() {
    let mut engine = Engine::new(2);
    place(&mut engine, 1, 1, Side::Ask, 10000, 10, OrderType::Limit);
    place(&mut engine, 2, 1, Side::Bid, 9000, 10, OrderType::Limit);
    let events = place(&mut engine, 3, 1, Side::Bid, 8000, 10, OrderType::Limit);
    assert_eq!(events, vec![OutputEvent::Rejected(OrderRejected { order_id: 3, reason: RejectReason::ArenaFull })]);
    // Crossing frees the maker's record, so the residual can rest.
    let events = place(&mut engine, 4, 1, Side::Bid, 10000, 15, OrderType::Limit);
    assert_eq!(trades(&events).len(), 1);
    assert_eq!(events[2], OutputEvent::Accepted(OrderAccepted { order_id: 4, price: 10000, qty: 5, side: Side::Bid }));
}

#[test]
fn modify_unknown_order_is_rejected() {
    let mut engine = Engine::new(10);
    let events = engine.process_command(Command::Modify(ModifyOrder { order_id: 5, new_order_id: 6, new_price: 1, new_qty: 1 }));
    assert_eq!(events, vec![OutputEvent::Rejected(OrderRejected { order_id: 5, reason: RejectReason::OrderNotFound })]);
}

#[test]
fn state_hash_has_fixed_value_for_empty_book() {
    let engine = Engine::new(10);
    // FNV-style mixing of (0, 0, 0, 0, 0, 0).
    let mut h: u64 = 14695981039346656037;
    for w in [0u64, 0, 0, 0, 0, 0] {
        h = (h ^ w).wrapping_mul(1099511628211);
    }
    assert_eq!(engine.state_hash(), h);
    assert_eq!(engine.spread(), None);
}

#[test]
fn spread_of_two_sided_book() {
    let mut engine = Engine::new(10);
    place(&mut engine, 1, 1, Side::Bid, 9950, 1, OrderType::Limit);
    place(&mut engine, 2, 1, Side::Ask, 10000, 1, OrderType::Limit);
    assert_eq!(engine.spread(), Some(50));
}

#[test]
fn determinism_same_commands_same_results() {
    let run = || {
        let mut engine = Engine::new(50);
        let mut all = Vec::new();
        for i in 0..200u64 {
            let side = if i % 3 == 0 { Side::Ask } else { Side::Bid };
            let price = 10000 + (i * 7 % 11) * 5;
            all.extend(place(&mut engine, i, i % 4, side, price, (i % 9 + 1) as u32, OrderType::Limit));
            if i % 5 == 0 {
                all.extend(cancel(&mut engine, i / 2));
            }
        }
        (all, engine.state_hash())
    };
    assert_eq!(run(), run());
}
