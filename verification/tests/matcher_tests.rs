use matcher::order::{
    Event, EventKind, ExternalEvent, InternalEvent, Order, OrderType, Side,
};
use matcher::{choose_prices, opposite_side, orders_match, MatchResult, Matcher};

fn ev(kind: EventKind, order_type: OrderType, side: Side, price: u64, initial_qty: u64, user_id: u64) -> Event {
    Event { kind, order_type, side, price, initial_qty, user_id }
}

fn accepted(t: OrderType, s: Side, p: u64, q: u64, u: u64) -> Event {
    ev(EventKind::External(ExternalEvent::Accepted), t, s, p, q, u)
}

fn queued(t: OrderType, s: Side, p: u64, q: u64, u: u64) -> Event {
    ev(EventKind::External(ExternalEvent::Queued), t, s, p, q, u)
}

fn executed(t: OrderType, s: Side, p: u64, q: u64, u: u64) -> Event {
    ev(EventKind::Internal(InternalEvent::Executed), t, s, p, q, u)
}

fn partially_executed(t: OrderType, s: Side, p: u64, q: u64, u: u64) -> Event {
    ev(EventKind::Internal(InternalEvent::PartiallyExecuted), t, s, p, q, u)
}

fn canceled(t: OrderType, s: Side, p: u64, q: u64, u: u64) -> Event {
    ev(EventKind::Internal(InternalEvent::Canceled), t, s, p, q, u)
}

#[test]
fn test_limit_order_matching() {
    // Create a matcher
    let mut matcher = Matcher::new();

    // Add a buy limit order
    let buy_order = Order::new(
        OrderType::Lim,
        Side::Buy,
        100, // price
        10,  // quantity
        1,   // user_id
    );

    // Add a matching sell limit order
    let sell_order = Order::new(
        OrderType::Lim,
        Side::Sell,
        95, // price (lower than buy price, so should match)
        5,  // quantity (half of buy quantity)
        2,  // user_id
    );

    // Process the orders
    matcher.proceed_record(buy_order);
    matcher.proceed_record(sell_order);

    // The buy order should be partially filled and remain in the book
    // The sell order should be fully executed

    // Add another sell order to match remaining buy quantity
    let sell_order2 = Order::new(
        OrderType::Lim,
        Side::Sell,
        98, // price (still lower than buy price)
        5,  // quantity (remaining buy quantity)
        3,  // user_id
    );

    matcher.proceed_record(sell_order2);

    // Now the buy order should be fully executed and removed from the book
    assert_eq!(
        matcher.log().as_slice(),
        &[
            accepted(OrderType::Lim, Side::Buy, 100, 10, 1),
            queued(OrderType::Lim, Side::Buy, 100, 10, 1),
            accepted(OrderType::Lim, Side::Sell, 95, 5, 2),
            executed(OrderType::Lim, Side::Sell, 95, 5, 2),
            accepted(OrderType::Lim, Side::Sell, 98, 5, 3),
            executed(OrderType::Lim, Side::Buy, 100, 10, 1),
            executed(OrderType::Lim, Side::Sell, 98, 5, 3),
        ]
    );
}

#[test]
fn test_fok_order_matching() {
    // Create a matcher
    let mut matcher = Matcher::new();

    // Add a buy limit order to the book
    let buy_limit = Order::new(
        OrderType::Lim,
        Side::Buy,
        100, // price
        10,  // quantity
        1,   // user_id
    );
    matcher.proceed_record(buy_limit);

    // Try to match with a FOK sell order that's too large to fill completely
    let large_fok_sell = Order::new(
        OrderType::Fok,
        Side::Sell,
        95, // price (acceptable)
        15, // quantity (more than available)
        2,  // user_id
    );

    // This should be canceled
    matcher.proceed_record(large_fok_sell);

    // Try a FOK sell that can be filled
    let matching_fok_sell = Order::new(
        OrderType::Fok,
        Side::Sell,
        95, // price
        10, // quantity (exact match)
        3,  // user_id
    );

    // This should execute
    matcher.proceed_record(matching_fok_sell);

    // The buy limit order should now be fully executed
    assert_eq!(
        matcher.log().as_slice(),
        &[
            accepted(OrderType::Lim, Side::Buy, 100, 10, 1),
            queued(OrderType::Lim, Side::Buy, 100, 10, 1),
            accepted(OrderType::Fok, Side::Sell, 95, 15, 2),
            canceled(OrderType::Fok, Side::Sell, 95, 15, 2),
            accepted(OrderType::Fok, Side::Sell, 95, 10, 3),
            executed(OrderType::Lim, Side::Buy, 100, 10, 1),
            executed(OrderType::Fok, Side::Sell, 95, 10, 3),
        ]
    );
}

#[test]
fn test_ioc_order_matching() {
    // Create a matcher
    let mut matcher = Matcher::new();

    // Add a buy limit order to the book
    let buy_limit = Order::new(
        OrderType::Lim,
        Side::Buy,
        100, // price
        10,  // quantity
        1,   // user_id
    );
    matcher.proceed_record(buy_limit);

    // Match with an IOC sell order
    let ioc_sell = Order::new(
        OrderType::Ioc,
        Side::Sell,
        95, // price (acceptable)
        15, // quantity (more than available)
        2,  // user_id
    );

    // Should partially execute (10 units) and cancel the rest (5 units)
    matcher.proceed_record(ioc_sell);

    // The buy limit order should now be fully executed
    assert_eq!(
        matcher.log().as_slice(),
        &[
            accepted(OrderType::Lim, Side::Buy, 100, 10, 1),
            queued(OrderType::Lim, Side::Buy, 100, 10, 1),
            accepted(OrderType::Ioc, Side::Sell, 95, 15, 2),
            executed(OrderType::Lim, Side::Buy, 100, 10, 1),
            partially_executed(OrderType::Ioc, Side::Sell, 95, 15, 2),
        ]
    );
}

#[test]
fn scenario_full_match_single_pair() {
    let mut m = Matcher::new();
    m.proceed_record(Order::new(OrderType::Lim, Side::Buy, 100, 10, 1));
    m.proceed_record(Order::new(OrderType::Lim, Side::Sell, 95, 5, 2));
    m.shutdown();
    assert_eq!(
        m.log().as_slice(),
        &[
            accepted(OrderType::Lim, Side::Buy, 100, 10, 1),
            queued(OrderType::Lim, Side::Buy, 100, 10, 1),
            accepted(OrderType::Lim, Side::Sell, 95, 5, 2),
            executed(OrderType::Lim, Side::Sell, 95, 5, 2),
            partially_executed(OrderType::Lim, Side::Buy, 100, 10, 1),
        ]
    );
}

#[test]
fn scenario_fok_failure_leaves_book_intact() {
    let mut m = Matcher::new();
    m.proceed_record(Order::new(OrderType::Lim, Side::Buy, 100, 10, 1));
    m.proceed_record(Order::new(OrderType::Fok, Side::Sell, 95, 15, 2));
    m.shutdown();
    assert_eq!(
        m.log().as_slice(),
        &[
            accepted(OrderType::Lim, Side::Buy, 100, 10, 1),
            queued(OrderType::Lim, Side::Buy, 100, 10, 1),
            accepted(OrderType::Fok, Side::Sell, 95, 15, 2),
            canceled(OrderType::Fok, Side::Sell, 95, 15, 2),
            // The resting order is untouched: its residual is still 10.
            canceled(OrderType::Lim, Side::Buy, 100, 10, 1),
        ]
    );
}

#[test]
fn scenario_fok_exact_fill() {
    let mut m = Matcher::new();
    m.proceed_record(Order::new(OrderType::Lim, Side::Buy, 100, 10, 1));
    m.proceed_record(Order::new(OrderType::Fok, Side::Sell, 95, 10, 2));
    m.shutdown();
    assert_eq!(
        m.log().as_slice(),
        &[
            accepted(OrderType::Lim, Side::Buy, 100, 10, 1),
            queued(OrderType::Lim, Side::Buy, 100, 10, 1),
            accepted(OrderType::Fok, Side::Sell, 95, 10, 2),
            executed(OrderType::Lim, Side::Buy, 100, 10, 1),
            executed(OrderType::Fok, Side::Sell, 95, 10, 2),
        ]
    );
}

#[test]
fn scenario_ioc_partial_fill_then_cancel() {
    let mut m = Matcher::new();
    m.proceed_record(Order::new(OrderType::Lim, Side::Buy, 100, 10, 1));
    m.proceed_record(Order::new(OrderType::Ioc, Side::Sell, 95, 15, 2));
    m.shutdown();
    assert_eq!(
        m.log().as_slice(),
        &[
            accepted(OrderType::Lim, Side::Buy, 100, 10, 1),
            queued(OrderType::Lim, Side::Buy, 100, 10, 1),
            accepted(OrderType::Ioc, Side::Sell, 95, 15, 2),
            executed(OrderType::Lim, Side::Buy, 100, 10, 1),
            partially_executed(OrderType::Ioc, Side::Sell, 95, 15, 2),
        ]
    );
}

#[test]
fn scenario_self_trade_prevention_blocks_crossable_pair() {
    let mut m = Matcher::new();
    m.proceed_record(Order::new(OrderType::Lim, Side::Buy, 100, 10, 1));
    m.proceed_record(Order::new(OrderType::Lim, Side::Sell, 95, 5, 1));
    assert_eq!(
        m.log().as_slice(),
        &[
            accepted(OrderType::Lim, Side::Buy, 100, 10, 1),
            queued(OrderType::Lim, Side::Buy, 100, 10, 1),
            accepted(OrderType::Lim, Side::Sell, 95, 5, 1),
            queued(OrderType::Lim, Side::Sell, 95, 5, 1),
        ]
    );
}

#[test]
fn scenario_priority_within_a_side() {
    let mut m = Matcher::new();
    m.proceed_record(Order::new(OrderType::Lim, Side::Buy, 100, 5, 1));
    m.proceed_record(Order::new(OrderType::Lim, Side::Buy, 102, 5, 2));
    m.proceed_record(Order::new(OrderType::Lim, Side::Sell, 99, 5, 3));
    m.shutdown();
    assert_eq!(
        m.log().as_slice(),
        &[
            accepted(OrderType::Lim, Side::Buy, 100, 5, 1),
            queued(OrderType::Lim, Side::Buy, 100, 5, 1),
            accepted(OrderType::Lim, Side::Buy, 102, 5, 2),
            queued(OrderType::Lim, Side::Buy, 102, 5, 2),
            accepted(OrderType::Lim, Side::Sell, 99, 5, 3),
            executed(OrderType::Lim, Side::Buy, 102, 5, 2),
            executed(OrderType::Lim, Side::Sell, 99, 5, 3),
            canceled(OrderType::Lim, Side::Buy, 100, 5, 1),
        ]
    );
}

#[test]
fn fok_rollback_preserves_same_price_order() {
    // Two resting sells share a price; a failing fill-or-kill buy probes the
    // first of them and rolls back. The relative order at that price must
    // survive, so the earlier sell still trades first afterwards.
    let mut m = Matcher::new();
    m.proceed_record(Order::new(OrderType::Lim, Side::Sell, 100, 4, 1));
    m.proceed_record(Order::new(OrderType::Lim, Side::Sell, 100, 6, 2));
    m.proceed_record(Order::new(OrderType::Fok, Side::Buy, 100, 20, 3));
    m.proceed_record(Order::new(OrderType::Ioc, Side::Buy, 100, 4, 4));
    let log = m.log().as_slice();
    // The fill-or-kill fails (20 > 4 + 6) and is canceled.
    assert_eq!(log[4], accepted(OrderType::Fok, Side::Buy, 100, 20, 3));
    assert_eq!(log[5], canceled(OrderType::Fok, Side::Buy, 100, 20, 3));
    // The later buy consumes the earliest-parked sell, not the later one.
    assert_eq!(log[7], executed(OrderType::Lim, Side::Sell, 100, 4, 1));
    assert_eq!(log[8], executed(OrderType::Ioc, Side::Buy, 100, 4, 4));
}

#[test]
fn fok_partial_survivor_is_restored() {
    // A successful fill-or-kill consumes one sell whole and half of the next;
    // the half-consumed sell returns to the book.
    let mut m = Matcher::new();
    m.proceed_record(Order::new(OrderType::Lim, Side::Sell, 100, 4, 1));
    m.proceed_record(Order::new(OrderType::Lim, Side::Sell, 101, 6, 2));
    m.proceed_record(Order::new(OrderType::Fok, Side::Buy, 101, 7, 3));
    m.shutdown();
    assert_eq!(
        m.log().as_slice(),
        &[
            accepted(OrderType::Lim, Side::Sell, 100, 4, 1),
            queued(OrderType::Lim, Side::Sell, 100, 4, 1),
            accepted(OrderType::Lim, Side::Sell, 101, 6, 2),
            queued(OrderType::Lim, Side::Sell, 101, 6, 2),
            accepted(OrderType::Fok, Side::Buy, 101, 7, 3),
            executed(OrderType::Lim, Side::Sell, 100, 4, 1),
            executed(OrderType::Fok, Side::Buy, 101, 7, 3),
            partially_executed(OrderType::Lim, Side::Sell, 101, 6, 2),
        ]
    );
}

#[test]
fn discrepancy_halts_matching() {
    let mut m = Matcher::new();
    m.proceed_record(Order::new(OrderType::Lim, Side::Buy, 90, 10, 1));
    m.proceed_record(Order::new(OrderType::Lim, Side::Sell, 95, 5, 2));
    assert_eq!(
        m.log().as_slice(),
        &[
            accepted(OrderType::Lim, Side::Buy, 90, 10, 1),
            queued(OrderType::Lim, Side::Buy, 90, 10, 1),
            accepted(OrderType::Lim, Side::Sell, 95, 5, 2),
            queued(OrderType::Lim, Side::Sell, 95, 5, 2),
        ]
    );
}

#[test]
fn ioc_residual_never_rests() {
    let mut m = Matcher::new();
    m.proceed_record(Order::new(OrderType::Ioc, Side::Sell, 95, 15, 2));
    m.shutdown();
    // Nothing rests: the only events are the acceptance and the cancel.
    assert_eq!(
        m.log().as_slice(),
        &[
            accepted(OrderType::Ioc, Side::Sell, 95, 15, 2),
            canceled(OrderType::Ioc, Side::Sell, 95, 15, 2),
        ]
    );
}

#[test]
fn can_accept_holds_on_a_fresh_matcher() {
    let m = Matcher::new();
    assert!(m.can_accept());
}

#[test]
fn classification_functions() {
    let buy = Order::new(OrderType::Lim, Side::Buy, 100, 10, 1);
    let sell = Order::new(OrderType::Lim, Side::Sell, 95, 5, 2);
    let sell_high = Order::new(OrderType::Lim, Side::Sell, 105, 5, 3);
    let sell_same_user = Order::new(OrderType::Lim, Side::Sell, 95, 5, 1);

    assert_eq!(choose_prices(&buy, &sell), (100, 95));
    assert_eq!(choose_prices(&sell, &buy), (100, 95));
    assert_eq!(opposite_side(&buy), Side::Sell);
    assert_eq!(opposite_side(&sell), Side::Buy);
    assert_eq!(orders_match(&buy, &sell), MatchResult::Matched);
    assert_eq!(orders_match(&buy, &sell_high), MatchResult::Discrepancy);
    assert_eq!(orders_match(&buy, &sell_same_user), MatchResult::SameUser);
    assert_eq!(
        orders_match(&buy, &Order::new(OrderType::Lim, Side::Buy, 90, 1, 9)),
        MatchResult::SameSide
    );
}

#[test]
fn event_log_is_deterministic_across_runs() {
    let run = || {
        let mut m = Matcher::new();
        m.proceed_record(Order::new(OrderType::Lim, Side::Buy, 100, 10, 1));
        m.proceed_record(Order::new(OrderType::Lim, Side::Buy, 100, 4, 2));
        m.proceed_record(Order::new(OrderType::Fok, Side::Sell, 99, 12, 3));
        m.proceed_record(Order::new(OrderType::Ioc, Side::Sell, 99, 3, 4));
        m.shutdown();
        m.log().clone()
    };
    assert_eq!(run(), run());
}
