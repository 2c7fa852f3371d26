use matcher::order::{Event, EventKind, ExternalEvent, InternalEvent, Order, OrderType, Side};

#[test]
fn test_order_creation() {
    let order = Order::new(OrderType::Lim, Side::Buy, 100, 10, 1);
    assert_eq!(order.order_type(), OrderType::Lim);
    assert_eq!(order.side(), Side::Buy);
    assert_eq!(order.price(), 100);
    assert_eq!(order.initial_qty, 10);
    assert_eq!(order.current_qty(), 10);
    assert_eq!(order.user_id(), 1);
}

#[test]
fn test_reduce_quantity() {
    let mut order = Order::new(OrderType::Lim, Side::Buy, 100, 10, 1);
    order.reduce_quantity(3);
    assert_eq!(order.current_qty(), 7);
    order.reduce_quantity(7);
    assert_eq!(order.current_qty(), 0);
}

#[test]
fn test_eq_implementation() {
    let order1 = Order::new(OrderType::Lim, Side::Buy, 100, 10, 1);
    let order2 = Order::new(OrderType::Lim, Side::Buy, 100, 10, 1);

    // Equality rests on the order's descriptors, not on its residual state.
    assert_eq!(order1, order2);

    let order3 = Order::new(OrderType::Fok, Side::Buy, 100, 10, 1);
    assert_ne!(order1, order3);
}

#[test]
fn test_eq_ignores_residual() {
    let order1 = Order::new(OrderType::Lim, Side::Buy, 100, 10, 1);
    let mut order2 = Order::new(OrderType::Lim, Side::Buy, 100, 10, 1);
    order2.reduce_quantity(4);
    assert_eq!(order1, order2);
}

#[test]
fn test_terminal_event_rules() {
    let mut lim = Order::new(OrderType::Lim, Side::Buy, 100, 10, 1);
    assert_eq!(lim.terminal_event(), InternalEvent::Canceled);
    lim.reduce_quantity(4);
    assert_eq!(lim.terminal_event(), InternalEvent::PartiallyExecuted);
    lim.reduce_quantity(6);
    assert_eq!(lim.terminal_event(), InternalEvent::Executed);

    let mut fok = Order::new(OrderType::Fok, Side::Sell, 100, 10, 1);
    assert_eq!(fok.terminal_event(), InternalEvent::Canceled);
    fok.reduce_quantity(4);
    // A fill-or-kill order is never partially executed: any residual cancels.
    assert_eq!(fok.terminal_event(), InternalEvent::Canceled);
    fok.reduce_quantity(6);
    assert_eq!(fok.terminal_event(), InternalEvent::Executed);
}

#[test]
fn test_event_line_schema() {
    let e = Event {
        kind: EventKind::External(ExternalEvent::Accepted),
        order_type: OrderType::Lim,
        side: Side::Buy,
        price: 100,
        initial_qty: 10,
        user_id: 1,
    };
    assert_eq!(e.line(), b"Accepted,Lim,Buy,100,10,1".to_vec());

    let e2 = Event {
        kind: EventKind::Internal(InternalEvent::PartiallyExecuted),
        order_type: OrderType::Ioc,
        side: Side::Sell,
        price: 0,
        initial_qty: u64::MAX,
        user_id: 907,
    };
    assert_eq!(
        e2.line(),
        b"PartiallyExecuted,Ioc,Sell,0,18446744073709551615,907".to_vec()
    );
}
