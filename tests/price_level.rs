use flash_lob::{Arena, ArenaIndex, PriceLevel, NULL_INDEX};

fn setup_arena_with_orders(arena: &mut Arena, count: u32) -> Vec<ArenaIndex> {
    let mut indices = Vec::new();
    for i in 0..count {
        let idx = arena.allocate().unwrap();
        let node = arena.get_mut(idx);
        node.order_id = i as u64;
        node.qty = 100;
        node.price = 10000;
        indices.push(idx);
    }
    indices
}

#[test]
fn test_empty_level() {
    let level = PriceLevel::new();
    assert!(level.is_empty());
    assert_eq!(level.count, 0);
    assert_eq!(level.total_qty, 0);
    assert_eq!(level.head, NULL_INDEX);
    assert_eq!(level.tail, NULL_INDEX);
}

#[test]
fn test_push_single() {
    let mut arena = Arena::new(10);
    let mut level = PriceLevel::new();

    let idx = arena.allocate().unwrap();
    arena.get_mut(idx).qty = 100;

    level.push_back(&mut arena, idx);

    assert!(!level.is_empty());
    assert_eq!(level.count, 1);
    assert_eq!(level.total_qty, 100);
    assert_eq!(level.head, idx);
    assert_eq!(level.tail, idx);
}

#[test]
fn test_push_multiple_fifo() {
    let mut arena = Arena::new(10);
    let mut level = PriceLevel::new();
    let indices = setup_arena_with_orders(&mut arena, 3);

    for &idx in &indices {
        level.push_back(&mut arena, idx);
    }

    assert_eq!(level.count, 3);
    assert_eq!(level.total_qty, 300);
    assert_eq!(level.head, indices[0]);
    assert_eq!(level.tail, indices[2]);

    // Verify linkage
    assert_eq!(arena.get(indices[0]).next, indices[1]);
    assert_eq!(arena.get(indices[1]).prev, indices[0]);
    assert_eq!(arena.get(indices[1]).next, indices[2]);
    assert_eq!(arena.get(indices[2]).prev, indices[1]);
}

#[test]
fn test_pop_front() {
    let mut arena = Arena::new(10);
    let mut level = PriceLevel::new();
    let indices = setup_arena_with_orders(&mut arena, 3);

    for &idx in &indices {
        level.push_back(&mut arena, idx);
    }

    // Pop first
    let popped = level.pop_front(&mut arena);
    assert_eq!(popped, Some(indices[0]));
    assert_eq!(level.count, 2);
    assert_eq!(level.head, indices[1]);
    assert_eq!(arena.get(indices[1]).prev, NULL_INDEX);

    // Pop second
    let popped = level.pop_front(&mut arena);
    assert_eq!(popped, Some(indices[1]));
    assert_eq!(level.count, 1);

    // Pop third (last)
    let popped = level.pop_front(&mut arena);
    assert_eq!(popped, Some(indices[2]));
    assert!(level.is_empty());

    // Pop from empty
    assert!(level.pop_front(&mut arena).is_none());
}

#[test]
fn test_remove_only_node() {
    let mut arena = Arena::new(10);
    let mut level = PriceLevel::new();

    let idx = arena.allocate().unwrap();
    arena.get_mut(idx).qty = 100;
    level.push_back(&mut arena, idx);

    let is_empty = level.remove(&mut arena, idx);

    assert!(is_empty);
    assert!(level.is_empty());
    assert_eq!(level.head, NULL_INDEX);
    assert_eq!(level.tail, NULL_INDEX);
}

#[test]
fn test_remove_head() {
    let mut arena = Arena::new(10);
    let mut level = PriceLevel::new();
    let indices = setup_arena_with_orders(&mut arena, 3);

    for &idx in &indices {
        level.push_back(&mut arena, idx);
    }

    let is_empty = level.remove(&mut arena, indices[0]);

    assert!(!is_empty);
    assert_eq!(level.count, 2);
    assert_eq!(level.head, indices[1]);
    assert_eq!(arena.get(indices[1]).prev, NULL_INDEX);
}

#[test]
fn test_remove_tail() {
    let mut arena = Arena::new(10);
    let mut level = PriceLevel::new();
    let indices = setup_arena_with_orders(&mut arena, 3);

    for &idx in &indices {
        level.push_back(&mut arena, idx);
    }

    let is_empty = level.remove(&mut arena, indices[2]);

    assert!(!is_empty);
    assert_eq!(level.count, 2);
    assert_eq!(level.tail, indices[1]);
    assert_eq!(arena.get(indices[1]).next, NULL_INDEX);
}

#[test]
fn test_remove_middle() {
    let mut arena = Arena::new(10);
    let mut level = PriceLevel::new();
    let indices = setup_arena_with_orders(&mut arena, 3);

    for &idx in &indices {
        level.push_back(&mut arena, idx);
    }

    let is_empty = level.remove(&mut arena, indices[1]);

    assert!(!is_empty);
    assert_eq!(level.count, 2);
    assert_eq!(arena.get(indices[0]).next, indices[2]);
    assert_eq!(arena.get(indices[2]).prev, indices[0]);
}

#[test]
fn test_subtract_qty() {
    let mut level = PriceLevel::new();
    level.total_qty = 500;

    level.subtract_qty(100);
    assert_eq!(level.total_qty, 400);

    level.subtract_qty(400);
    assert_eq!(level.total_qty, 0);
}

#[test]
fn test_level_totals_after_mixed_operations() {
    let mut arena = Arena::new(10);
    let mut level = PriceLevel::new();
    let indices = setup_arena_with_orders(&mut arena, 4);
    arena.get_mut(indices[2]).qty = 7;
    for &idx in &indices {
        level.push_back(&mut arena, idx);
    }
    assert_eq!(level.total_qty, 307);
    assert_eq!(level.peek_head(), indices[0]);
    level.remove(&mut arena, indices[2]);
    assert_eq!((level.total_qty, level.count), (300, 3));
    assert_eq!(arena.get(indices[2]).next, NULL_INDEX);
    assert_eq!(arena.get(indices[2]).prev, NULL_INDEX);
    assert_eq!(level.pop_front(&mut arena), Some(indices[0]));
    assert_eq!((level.total_qty, level.count), (200, 2));
    assert_eq!(level.peek_head(), indices[1]);
}
