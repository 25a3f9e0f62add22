use flash_lob::{Arena, ArenaIndex, OrderBook, Side};

fn create_order(arena: &mut Arena, order_id: u64, price: u64, qty: u32) -> ArenaIndex {
    let idx = arena.allocate().unwrap();
    let node = arena.get_mut(idx);
    node.order_id = order_id;
    node.price = price;
    node.qty = qty;
    node.user_id = 1;
    idx
}

#[test]
fn test_empty_book() {
    let book = OrderBook::new();
    assert!(book.is_empty());
    assert_eq!(book.best_bid(), None);
    assert_eq!(book.best_ask(), None);
    assert_eq!(book.spread(), None);
}

#[test]
fn test_add_bid_order() {
    let mut arena = Arena::new(100);
    let mut book = OrderBook::new();

    let idx = create_order(&mut arena, 1, 10000, 100);
    assert!(book.add_order(&mut arena, 1, 1, Side::Bid, 10000, idx));

    assert_eq!(book.best_bid(), Some(10000));
    assert_eq!(book.best_ask(), None);
    assert_eq!(book.order_count(), 1);
    assert!(book.contains_order(1));
}

#[test]
fn test_add_ask_order() {
    let mut arena = Arena::new(100);
    let mut book = OrderBook::new();

    let idx = create_order(&mut arena, 1, 10100, 100);
    assert!(book.add_order(&mut arena, 1, 1, Side::Ask, 10100, idx));

    assert_eq!(book.best_bid(), None);
    assert_eq!(book.best_ask(), Some(10100));
    assert_eq!(book.order_count(), 1);
}

#[test]
fn test_best_price_updates() {
    let mut arena = Arena::new(100);
    let mut book = OrderBook::new();

    // Add bids at different prices
    let idx1 = create_order(&mut arena, 1, 10000, 100);
    let idx2 = create_order(&mut arena, 2, 10050, 100);
    let idx3 = create_order(&mut arena, 3, 9950, 100);

    book.add_order(&mut arena, 1, 1, Side::Bid, 10000, idx1);
    assert_eq!(book.best_bid(), Some(10000));

    book.add_order(&mut arena, 2, 1, Side::Bid, 10050, idx2);
    assert_eq!(book.best_bid(), Some(10050)); // Higher is better for bids

    book.add_order(&mut arena, 3, 1, Side::Bid, 9950, idx3);
    assert_eq!(book.best_bid(), Some(10050)); // Still 10050

    // Add asks
    let idx4 = create_order(&mut arena, 4, 10100, 100);
    let idx5 = create_order(&mut arena, 5, 10080, 100);

    book.add_order(&mut arena, 4, 1, Side::Ask, 10100, idx4);
    assert_eq!(book.best_ask(), Some(10100));

    book.add_order(&mut arena, 5, 1, Side::Ask, 10080, idx5);
    assert_eq!(book.best_ask(), Some(10080)); // Lower is better for asks
}

#[test]
fn test_spread() {
    let mut arena = Arena::new(100);
    let mut book = OrderBook::new();

    let idx1 = create_order(&mut arena, 1, 10000, 100);
    let idx2 = create_order(&mut arena, 2, 10100, 100);

    book.add_order(&mut arena, 1, 1, Side::Bid, 10000, idx1);
    book.add_order(&mut arena, 2, 1, Side::Ask, 10100, idx2);

    assert_eq!(book.spread(), Some(100));
}

#[test]
fn order_book_test_duplicate_order_id() {
    let mut arena = Arena::new(100);
    let mut book = OrderBook::new();

    let idx1 = create_order(&mut arena, 1, 10000, 100);
    let idx2 = create_order(&mut arena, 1, 10050, 100); // Same order_id

    assert!(book.add_order(&mut arena, 1, 1, Side::Bid, 10000, idx1));
    assert!(!book.add_order(&mut arena, 1, 1, Side::Bid, 10050, idx2)); // Should fail

    assert_eq!(book.order_count(), 1);
}

#[test]
fn test_remove_order() {
    let mut arena = Arena::new(100);
    let mut book = OrderBook::new();

    let idx = create_order(&mut arena, 1, 10000, 100);
    book.add_order(&mut arena, 1, 1, Side::Bid, 10000, idx);

    let info = book.remove_order(&mut arena, 1);
    assert!(info.is_some());
    let info = info.unwrap();
    assert_eq!(info.arena_index, idx);
    assert_eq!(info.side, Side::Bid);
    assert_eq!(info.price, 10000);

    assert!(book.is_empty());
    assert_eq!(book.best_bid(), None);
}

#[test]
fn test_remove_nonexistent_order() {
    let mut arena = Arena::new(100);
    let mut book = OrderBook::new();

    assert!(book.remove_order(&mut arena, 999).is_none());
}

#[test]
fn test_best_price_recalculation() {
    let mut arena = Arena::new(100);
    let mut book = OrderBook::new();

    // Add multiple bid levels
    let idx1 = create_order(&mut arena, 1, 10050, 100);
    let idx2 = create_order(&mut arena, 2, 10000, 100);
    let idx3 = create_order(&mut arena, 3, 9950, 100);

    book.add_order(&mut arena, 1, 1, Side::Bid, 10050, idx1);
    book.add_order(&mut arena, 2, 1, Side::Bid, 10000, idx2);
    book.add_order(&mut arena, 3, 1, Side::Bid, 9950, idx3);

    assert_eq!(book.best_bid(), Some(10050));

    // Remove best bid
    book.remove_order(&mut arena, 1);
    assert_eq!(book.best_bid(), Some(10000)); // Should recalculate

    // Remove next best
    book.remove_order(&mut arena, 2);
    assert_eq!(book.best_bid(), Some(9950));

    // Remove last
    book.remove_order(&mut arena, 3);
    assert_eq!(book.best_bid(), None);
}

#[test]
fn test_multiple_orders_same_level() {
    let mut arena = Arena::new(100);
    let mut book = OrderBook::new();

    // Add 3 orders at same price
    let idx1 = create_order(&mut arena, 1, 10000, 100);
    let idx2 = create_order(&mut arena, 2, 10000, 200);
    let idx3 = create_order(&mut arena, 3, 10000, 300);

    book.add_order(&mut arena, 1, 1, Side::Bid, 10000, idx1);
    book.add_order(&mut arena, 2, 1, Side::Bid, 10000, idx2);
    book.add_order(&mut arena, 3, 1, Side::Bid, 10000, idx3);

    assert_eq!(book.order_count(), 3);
    assert_eq!(book.bid_levels(), 1);

    let (qty, count) = book.depth_at(Side::Bid, 10000);
    assert_eq!(qty, 600);
    assert_eq!(count, 3);

    // Remove middle order
    book.remove_order(&mut arena, 2);
    let (qty, count) = book.depth_at(Side::Bid, 10000);
    assert_eq!(qty, 400);
    assert_eq!(count, 2);

    // Level should still exist
    assert_eq!(book.bid_levels(), 1);
    assert_eq!(book.best_bid(), Some(10000));
}

#[test]
fn test_depth_at() {
    let mut arena = Arena::new(100);
    let mut book = OrderBook::new();

    // Empty level
    assert_eq!(book.depth_at(Side::Bid, 10000), (0, 0));

    // Add some orders
    let idx1 = create_order(&mut arena, 1, 10000, 100);
    let idx2 = create_order(&mut arena, 2, 10000, 250);

    book.add_order(&mut arena, 1, 1, Side::Bid, 10000, idx1);
    book.add_order(&mut arena, 2, 1, Side::Bid, 10000, idx2);

    assert_eq!(book.depth_at(Side::Bid, 10000), (350, 2));
}

#[test]
fn test_book_locator_and_levels() {
    let mut arena = Arena::new(10);
    let mut book = OrderBook::with_capacity(4, 4);
    let i1 = create_order(&mut arena, 1, 10000, 100);
    let i2 = create_order(&mut arena, 2, 10100, 50);
    book.add_order(&mut arena, 1, 7, Side::Bid, 10000, i1);
    book.add_order(&mut arena, 2, 7, Side::Ask, 10100, i2);
    let info = *book.get_order(2).unwrap();
    assert_eq!((info.arena_index, info.side, info.price, info.user_id), (i2, Side::Ask, 10100, 7));
    assert_eq!(book.best_price(Side::Ask), Some(10100));
    assert_eq!(book.best_opposite_price(Side::Ask), Some(10000));
    assert_eq!(book.ask_levels(), 1);
    let level = book.get_level(Side::Ask, 10100).unwrap();
    assert_eq!((level.total_qty, level.count, level.head), (50, 1, i2));
    assert!(book.get_level(Side::Ask, 10000).is_none());
    let mut prices = book.level_prices(Side::Bid);
    prices.sort();
    assert_eq!(prices, vec![10000]);
    book.remove_order_from_map(2);
    assert!(!book.contains_order(2));
    assert_eq!(book.order_count(), 1);
    book.clear();
    assert!(book.is_empty());
    assert_eq!(book.bid_levels(), 0);
    assert_eq!(book.best_bid(), None);
}

#[test]
fn test_reduce_order_qty_and_remove_empty_level() {
    let mut arena = Arena::new(10);
    let mut book = OrderBook::new();
    let i1 = create_order(&mut arena, 1, 9000, 100);
    let i2 = create_order(&mut arena, 2, 9100, 100);
    book.add_order(&mut arena, 1, 1, Side::Bid, 9000, i1);
    book.add_order(&mut arena, 2, 1, Side::Bid, 9100, i2);
    book.reduce_order_qty(&mut arena, 2, 30);
    assert_eq!(book.depth_at(Side::Bid, 9100), (70, 1));
    assert_eq!(arena.get(i2).qty, 70);
    book.remove_empty_level(Side::Bid, 9100);
    assert_eq!(book.best_bid(), Some(9000));
    assert_eq!(book.bid_levels(), 1);
}

#[test]
fn test_level_access_by_reference() {
    let mut book = OrderBook::new();
    assert!(book.get_level_mut(Side::Ask, 500).is_none());
    let level = book.get_or_create_level(Side::Ask, 500);
    assert_eq!((level.count, level.total_qty), (0, 0));
    level.total_qty = 9;
    assert_eq!(book.depth_at(Side::Ask, 500), (9, 0));
    book.get_level_mut(Side::Ask, 500).unwrap().count = 2;
    assert_eq!(book.depth_at(Side::Ask, 500), (9, 2));
    assert_eq!(book.get_or_create_level(Side::Ask, 500).count, 2);
    assert_eq!(book.ask_levels(), 1);
    assert_eq!(book.bid_levels(), 0);
}

#[test]
fn test_defaults_are_empty() {
    let book = OrderBook::default();
    assert!(book.is_empty());
    assert_eq!(book.best_bid(), None);
    let level = flash_lob::PriceLevel::default();
    assert!(level.is_empty());
    assert_eq!(level.head, flash_lob::NULL_INDEX);
}
