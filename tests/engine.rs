use flash_lob::{CancelOrder, Command, Engine, OrderType, PlaceOrder, Side};

#[test]
fn test_engine_creation() {
    let engine = Engine::new(10000);
    assert_eq!(engine.order_count(), 0);
    assert_eq!(engine.best_bid(), None);
    assert_eq!(engine.best_ask(), None);
}

#[test]
fn test_engine_process_place() {
    let mut engine = Engine::new(1000);
    
    let cmd = Command::Place(PlaceOrder {
        order_id: 1,
        user_id: 100,
        side: Side::Bid,
        price: 10000,
        qty: 100,
        order_type: OrderType::Limit,
    });
    
    let events = engine.process_command(cmd);
    assert!(!events.is_empty());
    assert_eq!(engine.order_count(), 1);
    assert_eq!(engine.best_bid(), Some(10000));
}

#[test]
fn test_engine_process_cancel() {
    let mut engine = Engine::new(1000);
    
    // Place
    engine.process_command(Command::Place(PlaceOrder {
        order_id: 1,
        user_id: 100,
        side: Side::Bid,
        price: 10000,
        qty: 100,
        order_type: OrderType::Limit,
    }));
    
    // Cancel
    let events = engine.process_command(Command::Cancel(CancelOrder {
        order_id: 1,
    }));
    
    assert!(!events.is_empty());
    assert_eq!(engine.order_count(), 0);
}

#[test]
fn test_engine_state_hash_determinism() {
    let mut engine1 = Engine::new(1000);
    let mut engine2 = Engine::new(1000);
    
    // Same operations
    for i in 0..100 {
        let cmd = Command::Place(PlaceOrder {
            order_id: i,
            user_id: 1,
            side: if i % 2 == 0 { Side::Bid } else { Side::Ask },
            price: 10000 + (i % 10) * 10,
            qty: 100,
            order_type: OrderType::Limit,
        });
        engine1.process_command(cmd);
        engine2.process_command(cmd);
    }
    
    assert_eq!(engine1.state_hash(), engine2.state_hash());
}

#[test]
fn test_engine_warm_up() {
    let mut engine = Engine::new(1000);
    engine.warm_up(); // Should not panic
}
