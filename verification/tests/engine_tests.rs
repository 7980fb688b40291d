use matchbook::models::{Order, OrderStatus, OrderType, Side};
use matchbook::order_book::OrderBook;
use matchbook::matching_engine::process_order;

fn order(id: &str, side: Side, order_type: OrderType, price: u64, qty: u64, entry_time: u64) -> Order {
    Order {
        order_id: id.to_string(),
        symbol: "SYM".to_string(),
        price,
        quantity: qty,
        side,
        order_type,
        status: OrderStatus::New,
        filled_quantity: 0,
        remain_quantity: qty,
        entry_time,
    }
}

fn limit(id: &str, side: Side, price: u64, qty: u64, t: u64) -> Order {
    order(id, side, OrderType::Limit, price, qty, t)
}

#[test]
fn test_simple_cross() {
    // Sell 10@100, then Buy 5@100: one fill at price 100 for 5 units.
    let mut book = OrderBook::new();
    let (s, ex) = process_order(&mut book, limit("s1", Side::Sell, 100, 10, 1), 10);
    assert!(ex.is_empty());
    assert_eq!(s.status, OrderStatus::New);

    let (b, ex) = process_order(&mut book, limit("b1", Side::Buy, 100, 5, 2), 11);
    assert_eq!(ex.len(), 2);
    assert_eq!(ex[0].order_id, "b1");
    assert_eq!(ex[0].price, 100);
    assert_eq!(ex[0].quantity, 5);
    assert_eq!(ex[0].side, Side::Buy);
    assert_eq!(ex[1].order_id, "s1");
    assert_eq!(ex[1].price, 100);
    assert_eq!(ex[1].quantity, 5);
    assert_eq!(ex[1].side, Side::Sell);
    assert_eq!(b.status, OrderStatus::Filled);
    assert_eq!(b.filled_quantity, 5);
    assert_eq!(b.remain_quantity, 0);

    // one resting Sell 5@100 remains
    assert_eq!(book.sell_book.limits.len(), 1);
    assert_eq!(book.sell_book.limits[0].price, 100);
    assert_eq!(book.sell_book.limits[0].total_volume, 5);
    assert!(book.buy_book.limits.is_empty());
}

#[test]
fn test_price_improvement() {
    // Sell 10@100, then Buy 5@110: the trade prints at the maker's 100.
    let mut book = OrderBook::new();
    process_order(&mut book, limit("s1", Side::Sell, 100, 10, 1), 10);
    let (_, ex) = process_order(&mut book, limit("b1", Side::Buy, 110, 5, 2), 11);
    assert_eq!(ex.len(), 2);
    assert_eq!(ex[0].price, 100);
    assert_eq!(ex[1].price, 100);
}

#[test]
fn test_sweep_multiple_levels() {
    // Sells 3@100, 4@101, 5@102; Buy 10@101 takes (100,3) then (101,4).
    let mut book = OrderBook::new();
    process_order(&mut book, limit("s1", Side::Sell, 100, 3, 1), 10);
    process_order(&mut book, limit("s2", Side::Sell, 101, 4, 2), 10);
    process_order(&mut book, limit("s3", Side::Sell, 102, 5, 3), 10);

    let (b, ex) = process_order(&mut book, limit("b1", Side::Buy, 101, 10, 4), 11);
    assert_eq!(ex.len(), 4);
    assert_eq!((ex[0].price, ex[0].quantity), (100, 3));
    assert_eq!(ex[1].order_id, "s1");
    assert_eq!((ex[2].price, ex[2].quantity), (101, 4));
    assert_eq!(ex[3].order_id, "s2");

    // remaining Buy 3@101 rests; Sell 5@102 untouched
    assert_eq!(b.status, OrderStatus::PartiallyFilled);
    assert_eq!(b.remain_quantity, 3);
    assert_eq!(book.buy_book.limits.len(), 1);
    assert_eq!(book.buy_book.limits[0].price, 101);
    assert_eq!(book.buy_book.limits[0].total_volume, 3);
    assert_eq!(book.sell_book.limits.len(), 1);
    assert_eq!(book.sell_book.limits[0].price, 102);
    assert_eq!(book.sell_book.limits[0].total_volume, 5);
}

#[test]
fn test_fifo_at_one_level() {
    // Two sells at one price: the earlier fills completely first.
    let mut book = OrderBook::new();
    process_order(&mut book, limit("A", Side::Sell, 100, 5, 1), 10);
    process_order(&mut book, limit("B", Side::Sell, 100, 5, 2), 10);

    let (_, ex) = process_order(&mut book, limit("b1", Side::Buy, 100, 6, 3), 11);
    assert_eq!(ex.len(), 4);
    assert_eq!(ex[1].order_id, "A");
    assert_eq!(ex[1].quantity, 5);
    assert_eq!(ex[3].order_id, "B");
    assert_eq!(ex[3].quantity, 1);

    // B rests with 4 remaining
    assert_eq!(book.sell_book.limits.len(), 1);
    assert_eq!(book.sell_book.limits[0].total_volume, 4);
}

#[test]
fn test_cancel_then_no_fill() {
    // Buy 10@100 is cancelled; a later Sell 5@100 finds nothing and rests.
    let mut book = OrderBook::new();
    process_order(&mut book, limit("X", Side::Buy, 100, 10, 1), 10);
    assert!(book.cancel_order(&"X".to_string()).is_some());

    let (s, ex) = process_order(&mut book, limit("s1", Side::Sell, 100, 5, 2), 11);
    assert!(ex.is_empty());
    assert_eq!(s.status, OrderStatus::New);
    assert_eq!(book.sell_book.limits.len(), 1);
    assert_eq!(book.sell_book.limits[0].price, 100);
    assert_eq!(book.sell_book.limits[0].total_volume, 5);
}

#[test]
fn test_market_order_partial() {
    // Only Sell 2@100 rests; a Market Buy 5 fills 2 and drops the rest.
    let mut book = OrderBook::new();
    process_order(&mut book, limit("s1", Side::Sell, 100, 2, 1), 10);

    let (b, ex) = process_order(&mut book, order("m1", Side::Buy, OrderType::Market, 0, 5, 2), 11);
    assert_eq!(ex.len(), 2);
    assert_eq!((ex[0].price, ex[0].quantity), (100, 2));
    assert_eq!(b.status, OrderStatus::Cancelled);
    assert_eq!(b.filled_quantity, 2);
    assert_eq!(b.remain_quantity, 3);
    assert!(book.sell_book.limits.is_empty());
    assert!(book.buy_book.limits.is_empty());
}

#[test]
fn test_conservation_of_quantity() {
    // The aggressor's filled quantity equals the sum of its prints.
    let mut book = OrderBook::new();
    process_order(&mut book, limit("s1", Side::Sell, 100, 3, 1), 10);
    process_order(&mut book, limit("s2", Side::Sell, 101, 4, 2), 10);

    let (b, ex) = process_order(&mut book, limit("b1", Side::Buy, 102, 9, 3), 11);
    let aggressor_sum: u64 = ex.iter().filter(|e| e.order_id == "b1").map(|e| e.quantity).sum();
    let maker_sum: u64 = ex.iter().filter(|e| e.order_id != "b1").map(|e| e.quantity).sum();
    assert_eq!(aggressor_sum, 7);
    assert_eq!(maker_sum, 7);
    assert_eq!(b.filled_quantity, 7);
    assert_eq!(b.remain_quantity, 2);
    assert_eq!(b.quantity, b.filled_quantity + b.remain_quantity);
}

#[test]
fn test_partial_fill_keeps_maker_cancellable() {
    // A partially filled maker keeps its index entry and can be cancelled.
    let mut book = OrderBook::new();
    process_order(&mut book, limit("s1", Side::Sell, 100, 10, 1), 10);
    process_order(&mut book, limit("b1", Side::Buy, 100, 4, 2), 11);

    let cancelled = book.cancel_order(&"s1".to_string()).unwrap();
    assert_eq!(cancelled.remain_quantity, 6);
    assert_eq!(cancelled.filled_quantity, 4);
    assert_eq!(cancelled.status, OrderStatus::Cancelled);
    assert!(book.sell_book.limits.is_empty());
}

#[test]
fn test_filled_maker_leaves_the_index() {
    // A fully consumed maker cannot be cancelled afterwards.
    let mut book = OrderBook::new();
    process_order(&mut book, limit("s1", Side::Sell, 100, 5, 1), 10);
    process_order(&mut book, limit("b1", Side::Buy, 100, 5, 2), 11);
    assert!(book.cancel_order(&"s1".to_string()).is_none());
}

#[test]
fn test_executions_carry_transaction_time() {
    let mut book = OrderBook::new();
    process_order(&mut book, limit("s1", Side::Sell, 100, 5, 1), 10);
    let (_, ex) = process_order(&mut book, limit("b1", Side::Buy, 100, 5, 2), 77);
    assert_eq!(ex[0].transaction_time, 77);
    assert_eq!(ex[1].transaction_time, 77);
    assert_ne!(ex[0].exec_id, ex[1].exec_id);
}
