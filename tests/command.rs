use flash_lob::{CancelOrder, Command, OrderType, PlaceOrder, Side};

#[test]
fn test_side_opposite() {
    assert_eq!(Side::Bid.opposite(), Side::Ask);
    assert_eq!(Side::Ask.opposite(), Side::Bid);
}

#[test]
fn test_place_order() {
    let order = PlaceOrder {
        order_id: 1,
        user_id: 100,
        side: Side::Bid,
        price: 10050000,
        qty: 100,
        order_type: OrderType::Limit,
    };
    assert_eq!(order.order_id, 1);
    assert_eq!(order.side, Side::Bid);
    assert_eq!(order.order_type, OrderType::Limit);
}

#[test]
fn test_place_order_constructors() {
    let limit = PlaceOrder::limit(1, 100, Side::Bid, 10000, 50);
    assert_eq!(limit.order_type, OrderType::Limit);

    let ioc = PlaceOrder::ioc(2, 100, Side::Ask, 10000, 50);
    assert_eq!(ioc.order_type, OrderType::IOC);

    let fok = PlaceOrder::fok(3, 100, Side::Bid, 10000, 50);
    assert_eq!(fok.order_type, OrderType::FOK);
}

#[test]
fn test_order_type_default() {
    assert_eq!(OrderType::default(), OrderType::Limit);
}

#[test]
fn test_command_variants() {
    let place = Command::Place(PlaceOrder {
        order_id: 1,
        user_id: 1,
        side: Side::Bid,
        price: 100,
        qty: 10,
        order_type: OrderType::Limit,
    });

    let cancel = Command::Cancel(CancelOrder { order_id: 1 });

    match place {
        Command::Place(o) => assert_eq!(o.order_id, 1),
        _ => panic!("Expected Place"),
    }

    match cancel {
        Command::Cancel(c) => assert_eq!(c.order_id, 1),
        _ => panic!("Expected Cancel"),
    }
}

#[test]
fn test_constructors_keep_fields() {
    let o = PlaceOrder::ioc(9, 8, Side::Ask, 7, 6);
    assert_eq!((o.order_id, o.user_id, o.side, o.price, o.qty), (9, 8, Side::Ask, 7, 6));
}
