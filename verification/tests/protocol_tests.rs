use matchbook::sequencer::{admit_order, AdmissionError};
use matchbook::models::{OrderStatus, OrderType, Side};
use matchbook::relay::{parse_client_message, ClientMessage};
use matchbook::serializer::{
    orderbook_to_dto_at, order_to_dto, execution_to_dto, calculate_orderbook_delta, OrderBookDto,
    PriceLevelDto,
};
use matchbook::market_data::convert_to_orderbook_data_at;
use matchbook::order_book::OrderBook;
use matchbook::matching_engine::process_order;
use matchbook::models::{Execution, Order};
use matchbook::trading;

#[test]
fn test_admission_rejects_zero_quantity() {
    let r = admit_order(
        "id1".to_string(),
        "SYM".to_string(),
        Side::Buy,
        OrderType::Limit,
        100,
        0,
        1,
    );
    assert_eq!(r.err(), Some(AdmissionError::ZeroQuantity));
}

#[test]
fn test_admission_rejects_zero_price_limit() {
    let r = admit_order(
        "id1".to_string(),
        "SYM".to_string(),
        Side::Buy,
        OrderType::Limit,
        0,
        5,
        1,
    );
    assert_eq!(r.err(), Some(AdmissionError::ZeroPrice));
}

#[test]
fn test_admission_accepts_market_without_price() {
    let r = admit_order(
        "id1".to_string(),
        "SYM".to_string(),
        Side::Sell,
        OrderType::Market,
        0,
        5,
        7,
    );
    let o = r.unwrap();
    assert_eq!(o.status, OrderStatus::New);
    assert_eq!(o.filled_quantity, 0);
    assert_eq!(o.remain_quantity, 5);
    assert_eq!(o.quantity, 5);
    assert_eq!(o.entry_time, 7);
}

#[test]
fn test_parse_client_message_commands() {
    match parse_client_message("subscribe:ETH-KRW") {
        Ok(ClientMessage::SubscribeOrderBook(s)) => assert_eq!(s, "ETH-KRW"),
        _ => panic!("expected a subscription"),
    }
    match parse_client_message("unsubscribe:ETH-KRW") {
        Ok(ClientMessage::UnsubscribeOrderBook(s)) => assert_eq!(s, "ETH-KRW"),
        _ => panic!("expected an unsubscription"),
    }
    match parse_client_message("snapshot:BTC-KRW") {
        Ok(ClientMessage::RequestOrderBookSnapshot(s)) => assert_eq!(s, "BTC-KRW"),
        _ => panic!("expected a snapshot request"),
    }
    match parse_client_message("hello") {
        Err(e) => assert_eq!(e, "Unknown command: hello"),
        _ => panic!("expected an error"),
    }
}

fn limit(id: &str, side: Side, price: u64, qty: u64, t: u64) -> Order {
    Order {
        order_id: id.to_string(),
        symbol: "SYM".to_string(),
        price,
        quantity: qty,
        side,
        order_type: OrderType::Limit,
        status: OrderStatus::New,
        filled_quantity: 0,
        remain_quantity: qty,
        entry_time: t,
    }
}

#[test]
fn test_orderbook_to_dto_snapshot() {
    let mut book = OrderBook::new();
    process_order(&mut book, limit("b1", Side::Buy, 99, 2, 1), 10);
    process_order(&mut book, limit("b2", Side::Buy, 101, 1, 2), 10);
    process_order(&mut book, limit("a1", Side::Sell, 107, 4, 3), 10);
    process_order(&mut book, limit("a2", Side::Sell, 103, 3, 4), 10);

    let dto = orderbook_to_dto_at(&book, "SYM", 42);
    assert_eq!(dto.symbol, "SYM");
    assert_eq!(dto.timestamp, 42);
    // bids descending, asks ascending
    assert_eq!(dto.bids.len(), 2);
    assert_eq!((dto.bids[0].price, dto.bids[0].volume, dto.bids[0].order_count), (101, 1, 1));
    assert_eq!((dto.bids[1].price, dto.bids[1].volume), (99, 2));
    assert_eq!(dto.asks.len(), 2);
    assert_eq!((dto.asks[0].price, dto.asks[0].volume), (103, 3));
    assert_eq!((dto.asks[1].price, dto.asks[1].volume), (107, 4));

    let data = convert_to_orderbook_data_at("SYM", &book, 42);
    assert_eq!(data.bids.len(), 2);
    assert_eq!(data.bids[0].price, 101);
    assert_eq!(data.asks[0].price, 103);
}

#[test]
fn test_order_and_execution_dto() {
    let o = limit("o1", Side::Buy, 100, 10, 3);
    let dto = order_to_dto(&o);
    assert_eq!(dto.order_id, "o1");
    assert_eq!(dto.side, "Buy");
    assert_eq!(dto.order_type, "Limit");
    assert_eq!(dto.status, "New");
    assert_eq!(dto.price, 100);
    assert_eq!(dto.quantity, 10);
    assert_eq!(dto.remain_quantity, 10);
    assert_eq!(dto.filled_quantity, 0);
    assert_eq!(dto.entry_time, 3);

    let e = Execution {
        exec_id: "x1".to_string(),
        order_id: "o1".to_string(),
        symbol: "SYM".to_string(),
        side: Side::Sell,
        price: 100,
        quantity: 4,
        transaction_time: 9,
    };
    let edto = execution_to_dto(&e);
    assert_eq!(edto.exec_id, "x1");
    assert_eq!(edto.side, "Sell");
    assert_eq!(edto.price, 100);
    assert_eq!(edto.quantity, 4);
    assert_eq!(edto.transaction_time, 9);
}

fn dto(symbol: &str, t: u64, bids: Vec<(u64, u64)>, asks: Vec<(u64, u64)>) -> OrderBookDto {
    OrderBookDto {
        symbol: symbol.to_string(),
        timestamp: t,
        bids: bids
            .into_iter()
            .map(|(price, volume)| PriceLevelDto { price, volume, order_count: 1 })
            .collect(),
        asks: asks
            .into_iter()
            .map(|(price, volume)| PriceLevelDto { price, volume, order_count: 1 })
            .collect(),
    }
}

#[test]
fn test_orderbook_delta() {
    let old_book = dto("SYM", 1, vec![(101, 5), (100, 4)], vec![(103, 2)]);
    let new_book = dto("SYM", 2, vec![(102, 1), (101, 7)], vec![(103, 2)]);

    let delta = calculate_orderbook_delta(&old_book, &new_book);
    assert_eq!(delta.symbol, "SYM");
    assert_eq!(delta.timestamp, 2);
    assert_eq!(delta.added_bids.len(), 1);
    assert_eq!(delta.added_bids[0].price, 102);
    assert_eq!(delta.updated_bids.len(), 1);
    assert_eq!(delta.updated_bids[0].price, 101);
    assert_eq!(delta.updated_bids[0].volume, 7);
    assert_eq!(delta.removed_bids, vec![100]);
    assert!(delta.added_asks.is_empty());
    assert!(delta.updated_asks.is_empty());
    assert!(delta.removed_asks.is_empty());
}

#[test]
fn test_trading_system_release() {
    let mk = |id: &str, action: &str, ts: u64| trading::Order {
        order_id: id.to_string(),
        timestamp: ts,
        action: action.to_string(),
        quantity: 1,
        price: 10,
    };
    let mut sys = trading::TradingSystem::new();
    sys.add_order(mk("a", "buy", 5));
    sys.add_order(mk("b", "sell", 50));
    sys.add_order(mk("c", "buy", 7));

    assert_eq!(sys.delayed_order_book.get_orders().len(), 3);
    assert_eq!(sys.order_book.get_orders().len(), 0);

    sys.execute_order_at(10);
    // due orders moved, the rest stays pending
    let live: Vec<String> = sys.order_book.get_orders().iter().map(|o| o.order_id.clone()).collect();
    assert_eq!(live, vec!["a".to_string(), "c".to_string()]);
    let pending: Vec<String> =
        sys.delayed_order_book.get_orders().iter().map(|o| o.order_id.clone()).collect();
    assert_eq!(pending, vec!["b".to_string()]);
}

#[test]
fn test_trading_queue_replaces_by_id() {
    let mk = |id: &str, qty: u64| trading::Order {
        order_id: id.to_string(),
        timestamp: 1,
        action: "buy".to_string(),
        quantity: qty,
        price: 10,
    };
    let mut q = trading::OrderQueue::new();
    q.add_order(mk("a", 1));
    q.add_order(mk("b", 2));
    q.add_order(mk("a", 9));
    let orders = q.get_orders();
    assert_eq!(orders.len(), 2);
    assert_eq!(orders[0].order_id, "a");
    assert_eq!(orders[0].quantity, 9);
    assert_eq!(orders[1].order_id, "b");
}

#[test]
fn test_scheduled_order_validation() {
    let mk = |action: &str, qty: u64, price: u64| trading::Order {
        order_id: "o".to_string(),
        timestamp: 1,
        action: action.to_string(),
        quantity: qty,
        price,
    };
    assert!(mk("buy", 1, 1).is_valid());
    assert!(mk("sell", 2, 3).is_valid());
    assert!(!mk("buy", 0, 1).is_valid());
    assert!(!mk("buy", 1, 0).is_valid());
    assert!(!mk("hold", 1, 1).is_valid());
}
