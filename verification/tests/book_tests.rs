use matchbook::models::{Order, OrderStatus, OrderType, Side};
use matchbook::price_level::PriceLevel;
use matchbook::book::Book;
use matchbook::order_book::OrderBook;
use std::cmp::Ordering;

fn limit_order(id: &str, symbol: &str, side: Side, price: u64, qty: u64, entry_time: u64) -> Order {
    Order {
        order_id: id.to_string(),
        symbol: symbol.to_string(),
        price,
        quantity: qty,
        side,
        order_type: OrderType::Limit,
        status: OrderStatus::New,
        filled_quantity: 0,
        remain_quantity: qty,
        entry_time,
    }
}

#[test]
fn test_limit_level_add_and_match() {
    let mut pl = PriceLevel::new(100);
    let order = limit_order("o1", "SYM", Side::Buy, 100, 10, 1);

    pl.add_order(order.clone());
    assert_eq!(pl.total_volume, 10);

    let (matched, qty) = pl.match_order(5).unwrap();
    assert_eq!(matched.remain_quantity, 5);
    assert_eq!(matched.filled_quantity, 5);
    assert_eq!(qty, 5);
    assert_eq!(pl.total_volume, 5);
}

#[test]
fn test_book_best_level() {
    let mut book = Book::new(Side::Buy);

    let order1 = limit_order("o1", "SYM", Side::Buy, 100, 5, 1);
    let order2 = limit_order("o2", "SYM", Side::Buy, 105, 3, 2);

    book.add_order(order1);
    assert_eq!(book.best_level, Some(100));

    book.add_order(order2);
    assert_eq!(book.best_level, Some(105));

    let best = book.get_best_level().unwrap();
    assert_eq!(best.price, 105);
    assert_eq!(best.total_volume, 3);
}

#[test]
fn test_order_book_cancel() {
    let mut ob = OrderBook::new();

    let order = limit_order("o2", "SYM", Side::Buy, 50, 5, 1);

    ob.insert_order(order.clone());
    assert!(ob.buy_book.limits.iter().any(|l| l.price == 50));

    let cancelled = ob.cancel_order(&"o2".to_string()).unwrap();
    assert_eq!(cancelled.order_id, "o2");
    assert!(!ob.buy_book.limits.iter().any(|l| l.price == 50));
    assert!(ob.order_ref(&"o2".to_string()).is_none());
}

#[test]
fn test_cancel_unknown_id_is_not_found() {
    let mut ob = OrderBook::new();
    assert!(ob.cancel_order(&"ghost".to_string()).is_none());
}

#[test]
fn test_cancel_is_idempotent() {
    let mut ob = OrderBook::new();
    ob.insert_order(limit_order("x", "SYM", Side::Buy, 100, 10, 1));
    ob.insert_order(limit_order("y", "SYM", Side::Sell, 105, 4, 2));

    let first = ob.cancel_order(&"x".to_string());
    assert!(first.is_some());
    assert_eq!(first.unwrap().status, OrderStatus::Cancelled);

    // repeating the cancel finds nothing and changes nothing
    let second = ob.cancel_order(&"x".to_string());
    assert!(second.is_none());
    assert_eq!(ob.buy_book.limits.len(), 0);
    assert_eq!(ob.sell_book.limits.len(), 1);
    assert_eq!(ob.sell_book.limits[0].price, 105);
    assert_eq!(ob.sell_book.limits[0].total_volume, 4);
    assert!(ob.order_ref(&"y".to_string()).is_some());
}

#[test]
fn test_top_of_book() {
    let mut ob = OrderBook::new();
    ob.insert_order(limit_order("b1", "SYM", Side::Buy, 99, 1, 1));
    ob.insert_order(limit_order("b2", "SYM", Side::Buy, 101, 1, 2));
    ob.insert_order(limit_order("a1", "SYM", Side::Sell, 107, 1, 3));
    ob.insert_order(limit_order("a2", "SYM", Side::Sell, 103, 1, 4));
    let (bid, ask) = ob.top_of_book();
    assert_eq!(bid, Some(101));
    assert_eq!(ask, Some(103));
}

#[test]
fn test_get_levels_for_matching() {
    let mut book = Book::new(Side::Sell);
    book.add_order(limit_order("s1", "SYM", Side::Sell, 100, 3, 1));
    book.add_order(limit_order("s2", "SYM", Side::Sell, 101, 4, 2));
    book.add_order(limit_order("s3", "SYM", Side::Sell, 102, 5, 3));

    assert_eq!(book.get_levels_for_matching(101), vec![100, 101]);
    assert_eq!(book.get_levels_for_matching(99), Vec::<u64>::new());
    assert_eq!(book.get_levels_for_matching(200), vec![100, 101, 102]);
}

#[test]
fn test_side_compare_ordering() {
    assert_eq!(Side::Buy.compare(&105, &100), Ordering::Less);
    assert_eq!(Side::Buy.compare(&100, &105), Ordering::Greater);
    assert_eq!(Side::Buy.compare(&100, &100), Ordering::Equal);
    assert_eq!(Side::Sell.compare(&100, &105), Ordering::Less);
    assert_eq!(Side::Sell.compare(&105, &100), Ordering::Greater);
    assert_eq!(Side::Sell.compare(&100, &100), Ordering::Equal);
}

#[test]
fn test_cancel_middle_of_level_keeps_handles_valid() {
    let mut ob = OrderBook::new();
    ob.insert_order(limit_order("a", "SYM", Side::Buy, 100, 1, 1));
    ob.insert_order(limit_order("b", "SYM", Side::Buy, 100, 2, 2));
    ob.insert_order(limit_order("c", "SYM", Side::Buy, 100, 3, 3));

    // removing the middle order must not invalidate the others
    assert_eq!(ob.cancel_order(&"b".to_string()).unwrap().order_id, "b");
    assert_eq!(ob.cancel_order(&"c".to_string()).unwrap().order_id, "c");
    assert_eq!(ob.cancel_order(&"a".to_string()).unwrap().order_id, "a");
    assert!(ob.buy_book.limits.is_empty());
}

#[test]
fn test_cancel_at_position_marks_cancelled() {
    let mut pl = PriceLevel::new(100);
    pl.add_order(limit_order("o1", "SYM", Side::Buy, 100, 4, 1));
    pl.add_order(limit_order("o2", "SYM", Side::Buy, 100, 6, 2));

    let cancelled = pl.cancel_order_at_position(0).unwrap();
    assert_eq!(cancelled.order_id, "o1");
    assert_eq!(cancelled.status, OrderStatus::Cancelled);
    assert_eq!(cancelled.remain_quantity, 4);
    assert_eq!(pl.total_volume, 6);
    assert!(pl.cancel_order_at_position(5).is_none());
}
