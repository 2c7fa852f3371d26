use matcher::book::Book;
use matcher::order::{Order, OrderType, Side};

#[test]
fn test_book_push_and_pop() {
    let mut book = Book::default();

    // Create and push a buy order
    let buy_order = Order::new(OrderType::Lim, Side::Buy, 100, 10, 1);
    book.push(buy_order.clone());

    // Create and push a sell order
    let sell_order = Order::new(OrderType::Lim, Side::Sell, 110, 5, 2);
    book.push(sell_order.clone());

    // Test that we can get the orders back in the right order
    assert_eq!(book.pop(Side::Buy).unwrap(), buy_order);
    assert_eq!(book.pop(Side::Sell).unwrap(), sell_order);

    // Test that the queues are now empty
    assert!(book.pop(Side::Buy).is_none());
    assert!(book.pop(Side::Sell).is_none());
}

#[test]
fn test_book_priority() {
    let mut book = Book::default();

    // Push buy orders with different prices
    let buy_order1 = Order::new(OrderType::Lim, Side::Buy, 100, 10, 1);
    let buy_order2 = Order::new(OrderType::Lim, Side::Buy, 102, 10, 2);
    book.push(buy_order1.clone());
    book.push(buy_order2.clone());

    // Higher priced buy order should have priority
    assert_eq!(book.pop(Side::Buy).unwrap(), buy_order2);
    assert_eq!(book.pop(Side::Buy).unwrap(), buy_order1);

    // Push sell orders with different prices
    let sell_order1 = Order::new(OrderType::Lim, Side::Sell, 105, 10, 3);
    let sell_order2 = Order::new(OrderType::Lim, Side::Sell, 103, 10, 4);
    book.push(sell_order1.clone());
    book.push(sell_order2.clone());

    // Lower priced sell order should have priority
    assert_eq!(book.pop(Side::Sell).unwrap(), sell_order2);
    assert_eq!(book.pop(Side::Sell).unwrap(), sell_order1);
}

#[test]
fn test_book_same_price_pops_in_arrival_order() {
    let mut book = Book::default();

    let first = Order::new(OrderType::Lim, Side::Buy, 100, 3, 1);
    let second = Order::new(OrderType::Lim, Side::Buy, 100, 7, 2);
    book.push(first);
    book.push(second);

    assert_eq!(book.pop(Side::Buy).unwrap().user_id(), 1);
    assert_eq!(book.pop(Side::Buy).unwrap().user_id(), 2);
}

#[test]
fn test_book_len() {
    let mut book = Book::default();
    assert_eq!(book.len(Side::Buy), 0);
    book.push(Order::new(OrderType::Lim, Side::Buy, 100, 10, 1));
    book.push(Order::new(OrderType::Lim, Side::Buy, 101, 10, 2));
    book.push(Order::new(OrderType::Lim, Side::Sell, 110, 10, 3));
    assert_eq!(book.len(Side::Buy), 2);
    assert_eq!(book.len(Side::Sell), 1);
}
