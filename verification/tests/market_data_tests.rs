use matchbook::models::{Execution, Side};
use matchbook::candlestick::{CandleInterval, CandlestickManager, CircularBuffer};
use matchbook::market_data::{orderbook_snapshot, MarketDataPublisher};
use matchbook::order_book::OrderBook;
use matchbook::matching_engine::process_order;
use matchbook::models::{Order, OrderStatus, OrderType};

fn exec(symbol: &str, price: u64, qty: u64, t: u64) -> Execution {
    Execution {
        exec_id: format!("x-{}-{}", price, t),
        order_id: "o1".to_string(),
        symbol: symbol.to_string(),
        side: Side::Buy,
        price,
        quantity: qty,
        transaction_time: t,
    }
}

#[test]
fn test_interval_seconds() {
    assert_eq!(CandleInterval::Minute1.to_seconds(), 60);
    assert_eq!(CandleInterval::Minute5.to_seconds(), 300);
    assert_eq!(CandleInterval::Minute15.to_seconds(), 900);
    assert_eq!(CandleInterval::Minute30.to_seconds(), 1800);
    assert_eq!(CandleInterval::Hour1.to_seconds(), 3600);
    assert_eq!(CandleInterval::Hour4.to_seconds(), 14400);
    assert_eq!(CandleInterval::Day1.to_seconds(), 86400);
    assert_eq!(CandleInterval::Week1.to_seconds(), 604800);
}

#[test]
fn test_interval_names_round_trip() {
    let all = [
        CandleInterval::Minute1,
        CandleInterval::Minute5,
        CandleInterval::Minute15,
        CandleInterval::Minute30,
        CandleInterval::Hour1,
        CandleInterval::Hour4,
        CandleInterval::Day1,
        CandleInterval::Week1,
    ];
    for iv in all {
        assert_eq!(CandleInterval::from_string(&iv.to_string()), Some(iv));
    }
    assert_eq!(CandleInterval::from_string("2m"), None);
    assert_eq!(CandleInterval::from_string(""), None);
}

#[test]
fn test_circular_buffer_fifo_eviction() {
    let mut buf: CircularBuffer<u64> = CircularBuffer::new(3);
    assert!(buf.is_empty());
    assert_eq!(buf.capacity(), 3);
    buf.push(1);
    buf.push(2);
    buf.push(3);
    assert_eq!(buf.len(), 3);
    buf.push(4);
    assert_eq!(buf.len(), 3);
    assert_eq!(buf.get_all(), vec![2, 3, 4]);
    assert_eq!(buf.get_recent(2), vec![3, 4]);
    assert_eq!(buf.get_recent(10), vec![2, 3, 4]);
}

#[test]
fn test_candle_aggregation() {
    // four executions in one 1-minute bucket
    let mut mgr = CandlestickManager::new();
    let prices = [100u64, 110, 95, 105];
    let qtys = [1u64, 2, 1, 3];
    let mut t = 60u64;
    for i in 0..4 {
        let e = exec("SYM", prices[i], qtys[i], t);
        assert!(mgr.can_process(&e));
        mgr.process_execution(&e);
        t += 10;
    }
    let c = mgr.get_current_candle("SYM", CandleInterval::Minute1).unwrap();
    assert_eq!(c.open, 100);
    assert_eq!(c.high, 110);
    assert_eq!(c.low, 95);
    assert_eq!(c.close, 105);
    assert_eq!(c.volume, 7);
    assert_eq!(c.trade_count, 4);
    assert_eq!(c.open_time, 60);
    assert_eq!(c.close_time, 120);
    // nothing is completed yet
    assert!(mgr.get_candles("SYM", CandleInterval::Minute1, None).is_empty());
}

#[test]
fn test_candle_closes_on_next_bucket() {
    let mut mgr = CandlestickManager::new();
    mgr.process_execution(&exec("SYM", 100, 2, 60));
    mgr.process_execution(&exec("SYM", 104, 1, 130));
    let done = mgr.get_candles("SYM", CandleInterval::Minute1, None);
    assert_eq!(done.len(), 1);
    assert_eq!(done[0].open, 100);
    assert_eq!(done[0].close, 100);
    assert_eq!(done[0].volume, 2);
    let cur = mgr.get_current_candle("SYM", CandleInterval::Minute1).unwrap();
    assert_eq!(cur.open, 104);
    assert_eq!(cur.open_time, 120);
    // the hourly bucket still holds both executions
    let hour = mgr.get_current_candle("SYM", CandleInterval::Hour1).unwrap();
    assert_eq!(hour.volume, 3);
    assert_eq!(hour.trade_count, 2);
}

#[test]
fn test_candles_unknown_symbol_and_interval() {
    let mut mgr = CandlestickManager::new();
    mgr.process_execution(&exec("SYM", 100, 1, 60));
    assert!(mgr.get_candles("OTHER", CandleInterval::Minute1, Some(5)).is_empty());
    assert!(mgr.get_current_candle("OTHER", CandleInterval::Minute1).is_none());
}

#[test]
fn test_publisher_recent_executions() {
    let mut mdp = MarketDataPublisher::new();
    mdp.process_execution_at(&exec("ETH-KRW", 2000000, 3, 100), 100);
    mdp.process_execution_at(&exec("ETH-KRW", 2000010, 1, 110), 110);

    let recent = mdp.get_recent_executions("ETH-KRW", 10);
    assert_eq!(recent.len(), 2);
    // newest first
    assert_eq!(recent[0].price, 2000010);
    assert_eq!(recent[1].price, 2000000);
    assert_eq!(recent[0].side, "Buy");

    let limited = mdp.get_recent_executions("ETH-KRW", 1);
    assert_eq!(limited.len(), 1);
    assert_eq!(limited[0].price, 2000010);

    assert!(mdp.get_recent_executions("BTC-KRW", 10).is_empty());
}

#[test]
fn test_publisher_statistics() {
    let mut mdp = MarketDataPublisher::new();
    mdp.process_execution_at(&exec("ETH-KRW", 2000000, 3, 100), 100);
    mdp.process_execution_at(&exec("ETH-KRW", 1990000, 2, 150), 150);
    mdp.process_execution_at(&exec("ETH-KRW", 2010000, 1, 200), 200);

    let st = mdp.get_statistics("ETH-KRW").unwrap();
    assert_eq!(st.open_price_24h, 2000000);
    assert_eq!(st.high_price_24h, 2010000);
    assert_eq!(st.low_price_24h, 1990000);
    assert_eq!(st.last_price, 2010000);
    assert_eq!(st.volume_24h, 6);
    assert!(mdp.get_statistics("BTC-KRW").is_none());
}

#[test]
fn test_publisher_statistics_window_reset() {
    let mut mdp = MarketDataPublisher::new();
    mdp.process_execution_at(&exec("SYM", 100, 5, 1000), 1000);
    // more than a day later: the window re-anchors at the new execution
    mdp.process_execution_at(&exec("SYM", 50, 2, 90000), 90000);
    let st = mdp.get_statistics("SYM").unwrap();
    assert_eq!(st.open_price_24h, 50);
    assert_eq!(st.high_price_24h, 50);
    assert_eq!(st.low_price_24h, 50);
    assert_eq!(st.volume_24h, 2);
    assert_eq!(st.timestamp, 90000);
}

#[test]
fn test_publisher_top_of_book_in_statistics() {
    let mut book = OrderBook::new();
    let mk = |id: &str, side: Side, price: u64, qty: u64, t: u64| Order {
        order_id: id.to_string(),
        symbol: "BTC-KRW".to_string(),
        price,
        quantity: qty,
        side,
        order_type: OrderType::Limit,
        status: OrderStatus::New,
        filled_quantity: 0,
        remain_quantity: qty,
        entry_time: t,
    };
    process_order(&mut book, mk("b1", Side::Buy, 50000000, 1, 1), 10);
    process_order(&mut book, mk("a1", Side::Sell, 51000000, 1, 2), 10);

    let mut mdp = MarketDataPublisher::new();
    mdp.update_orderbook("BTC-KRW", book);
    mdp.process_execution_at(&exec("BTC-KRW", 50500000, 1, 100), 100);
    let st = mdp.get_statistics("BTC-KRW").unwrap();
    assert_eq!(st.bid_price, 50000000);
    assert_eq!(st.ask_price, 51000000);
}

#[test]
fn test_orderbook_snapshot_depth() {
    let mut book = OrderBook::new();
    let mk = |id: &str, side: Side, price: u64, t: u64| Order {
        order_id: id.to_string(),
        symbol: "SYM".to_string(),
        price,
        quantity: 1,
        side,
        order_type: OrderType::Limit,
        status: OrderStatus::New,
        filled_quantity: 0,
        remain_quantity: 1,
        entry_time: t,
    };
    process_order(&mut book, mk("b1", Side::Buy, 98, 1), 10);
    process_order(&mut book, mk("b2", Side::Buy, 99, 2), 10);
    process_order(&mut book, mk("b3", Side::Buy, 100, 3), 10);
    process_order(&mut book, mk("a1", Side::Sell, 101, 4), 10);

    let snap = orderbook_snapshot("SYM", &book, 2, 5);
    assert_eq!(snap.timestamp, 5);
    assert_eq!(snap.bids.len(), 2);
    assert_eq!(snap.bids[0].price, 100);
    assert_eq!(snap.bids[1].price, 99);
    assert_eq!(snap.asks.len(), 1);
    assert_eq!(snap.asks[0].price, 101);
}

#[test]
fn test_publisher_process_execution_with_clock() {
    // the wall-clock entry point: the recent list and the price/volume
    // facts hold whatever time the clock returned
    let mut mdp = MarketDataPublisher::new();
    let first = exec("SYM", 100, 2, 60);
    let second = exec("SYM", 105, 3, 70);
    assert!(mdp.can_process_execution(&first));
    mdp.process_execution(&first);
    assert!(mdp.can_process_execution(&second));
    mdp.process_execution(&second);

    let recent = mdp.get_recent_executions("SYM", 10);
    assert_eq!(recent.len(), 2);
    assert_eq!(recent[0].price, 105);

    let st = mdp.get_statistics("SYM").unwrap();
    assert_eq!(st.last_price, 105);
    assert_eq!(st.volume_24h, 5);
}
