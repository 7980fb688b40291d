//! Market-data products derived from the execution flow: order-book
//! snapshots, a bounded list of recent executions per symbol, and the
//! rolling 24-hour statistics.  All queries are pure functions of the
//! stored state.

use vstd::prelude::*;

use crate::models::{Execution, Side};
use crate::order_book::{OrderBook, OrderBookV};
use crate::candlestick::{
    CandlestickManager, SymbolCandlesV, manager_can_absorb, fold_tracks, fresh_tracks,
};
use crate::strings::str_eq;

verus! {

/// The kinds of market data the publisher serves.
#[derive(Clone, Copy, Debug, PartialEq, Eq, Structural)]
pub enum MarketDataType {
    OrderBook,
    Execution,
    Candlestick,
    Statistics,
}

/// One aggregated price level of a snapshot.
#[derive(Clone, Copy, Debug, PartialEq, Eq, Structural)]
pub struct PriceLevel {
    pub price: u64,
    pub volume: u64,
    pub order_count: usize,
}

/// A depth snapshot of one symbol's book: bids best (highest) first, asks
/// best (lowest) first.
#[derive(Debug)]
pub struct OrderBookData {
    pub symbol: String,
    pub timestamp: u64,
    pub bids: Vec<PriceLevel>,
    pub asks: Vec<PriceLevel>,
}

/// View of an [`OrderBookData`].
pub ghost struct OrderBookDataV {
    pub symbol: Seq<char>,
    pub timestamp: u64,
    pub bids: Seq<PriceLevel>,
    pub asks: Seq<PriceLevel>,
}

impl View for OrderBookData {
    type V = OrderBookDataV;

    open spec fn view(&self) -> OrderBookDataV {
        OrderBookDataV {
            symbol: self.symbol@,
            timestamp: self.timestamp,
            bids: self.bids@,
            asks: self.asks@,
        }
    }
}

/// The aggregated levels of one side of a book, in its priority order.
pub open spec fn spec_depth(levels: Seq<crate::price_level::LevelV>) -> Seq<PriceLevel> {
    levels.map_values(
        |l: crate::price_level::LevelV|
            PriceLevel {
                price: l.price,
                volume: l.total_volume,
                order_count: l.orders.len() as usize,
            },
    )
}

/// One side of the book flattened to aggregated levels.
fn depth_of(levels: &Vec<crate::price_level::PriceLevel>) -> (r: Vec<PriceLevel>)
    ensures
        r@ == spec_depth(crate::book::levels_view(levels@)),
{
    let mut out: Vec<PriceLevel> = Vec::new();
    let mut i: usize = 0;
    while i < levels.len()
        invariant
            0 <= i <= levels@.len(),
            out@.len() == i,
            forall|j: int|
                0 <= j < i ==> #[trigger] out@[j] == (PriceLevel {
                    price: levels@[j]@.price,
                    volume: levels@[j]@.total_volume,
                    order_count: levels@[j]@.orders.len() as usize,
                }),
        decreases levels@.len() - i,
    {
        let l = &levels[i];
        out.push(
            PriceLevel { price: l.price, volume: l.total_volume, order_count: l.order_count() },
        );
        i = i + 1;
    }
    proof {
        assert(out@ =~= spec_depth(crate::book::levels_view(levels@)));
    }
    out
}

/// Snapshot one symbol's book at the given time: bids in descending price,
/// asks in ascending price, one aggregated entry per level.  The snapshot
/// is a pure function of the book's state, so it can never show a
/// half-applied match.
pub fn convert_to_orderbook_data_at(symbol: &str, orderbook: &OrderBook, timestamp: u64) -> (r:
    OrderBookData)
    ensures
        r@.symbol == symbol@,
        r@.timestamp == timestamp,
        r@.bids == spec_depth(orderbook@.buy.levels),
        r@.asks == spec_depth(orderbook@.sell.levels),
{
    OrderBookData {
        symbol: String::from_str(symbol),
        timestamp,
        bids: depth_of(&orderbook.buy_book.limits),
        asks: depth_of(&orderbook.sell_book.limits),
    }
}

/// Snapshot one symbol's book truncated to the given depth: the best
/// `depth` levels of each side, bids in descending price, asks in
/// ascending price.
pub fn orderbook_snapshot(symbol: &str, orderbook: &OrderBook, depth: usize, timestamp: u64) -> (r:
    OrderBookData)
    ensures
        r@.symbol == symbol@,
        r@.timestamp == timestamp,
        r@.bids == spec_depth(orderbook@.buy.levels).take(
            if depth >= orderbook@.buy.levels.len() {
                orderbook@.buy.levels.len() as int
            } else {
                depth as int
            },
        ),
        r@.asks == spec_depth(orderbook@.sell.levels).take(
            if depth >= orderbook@.sell.levels.len() {
                orderbook@.sell.levels.len() as int
            } else {
                depth as int
            },
        ),
{
    let mut full = convert_to_orderbook_data_at(symbol, orderbook, timestamp);
    if full.bids.len() > depth {
        full.bids.truncate(depth);
    }
    if full.asks.len() > depth {
        full.asks.truncate(depth);
    }
    proof {
        assert(full@.bids =~= spec_depth(orderbook@.buy.levels).take(
            if depth >= orderbook@.buy.levels.len() {
                orderbook@.buy.levels.len() as int
            } else {
                depth as int
            },
        ));
        assert(full@.asks =~= spec_depth(orderbook@.sell.levels).take(
            if depth >= orderbook@.sell.levels.len() {
                orderbook@.sell.levels.len() as int
            } else {
                depth as int
            },
        ));
    }
    full
}

/// Snapshot one symbol's book, stamped with the current wall-clock time.
pub fn convert_to_orderbook_data(symbol: &str, orderbook: &OrderBook) -> (r: OrderBookData)
    ensures
        r@.symbol == symbol@,
        r@.bids == spec_depth(orderbook@.buy.levels),
        r@.asks == spec_depth(orderbook@.sell.levels),
{
    let now = crate::clock::unix_now();
    convert_to_orderbook_data_at(symbol, orderbook, now)
}

/// One published trade print.
#[derive(Debug)]
pub struct ExecutionData {
    pub symbol: String,
    pub timestamp: u64,
    pub price: u64,
    pub volume: u64,
    pub side: String,
    pub is_market_maker: bool,
}

/// View of an [`ExecutionData`].
pub ghost struct ExecutionDataV {
    pub symbol: Seq<char>,
    pub timestamp: u64,
    pub price: u64,
    pub volume: u64,
    pub side: Seq<char>,
    pub is_market_maker: bool,
}

impl View for ExecutionData {
    type V = ExecutionDataV;

    open spec fn view(&self) -> ExecutionDataV {
        ExecutionDataV {
            symbol: self.symbol@,
            timestamp: self.timestamp,
            price: self.price,
            volume: self.volume,
            side: self.side@,
            is_market_maker: self.is_market_maker,
        }
    }
}

impl Clone for ExecutionData {
    /// A clone of a trade print has the same view.
    fn clone(&self) -> (r: Self)
        ensures
            r@ == self@,
    {
        ExecutionData {
            symbol: self.symbol.clone(),
            timestamp: self.timestamp,
            price: self.price,
            volume: self.volume,
            side: self.side.clone(),
            is_market_maker: self.is_market_maker,
        }
    }
}

/// A side's display name.
pub open spec fn spec_side_label(side: Side) -> Seq<char> {
    match side {
        Side::Buy => "Buy"@,
        Side::Sell => "Sell"@,
    }
}

/// Executable counterpart of [`spec_side_label`].
pub fn side_label(side: Side) -> (r: String)
    ensures
        r@ == spec_side_label(side),
{
    match side {
        Side::Buy => String::from_str("Buy"),
        Side::Sell => String::from_str("Sell"),
    }
}

/// The published form of an execution.
pub open spec fn spec_execution_data(e: crate::models::ExecutionV) -> ExecutionDataV {
    ExecutionDataV {
        symbol: e.symbol,
        timestamp: e.transaction_time,
        price: e.price,
        volume: e.quantity,
        side: spec_side_label(e.side),
        is_market_maker: false,
    }
}

/// Rolling 24-hour statistics of one symbol.  The window is anchored at
/// `timestamp` and re-anchored by the first execution arriving more than a
/// day later.  The percentage change is a presentation concern computed by
/// consumers from `open_price_24h` and `last_price`.
#[derive(Debug)]
pub struct MarketStatistics {
    pub symbol: String,
    pub timestamp: u64,
    pub open_price_24h: u64,
    pub high_price_24h: u64,
    pub low_price_24h: u64,
    pub last_price: u64,
    pub volume_24h: u64,
    pub bid_price: u64,
    pub ask_price: u64,
}

/// View of a [`MarketStatistics`].
pub ghost struct StatsV {
    pub symbol: Seq<char>,
    pub timestamp: u64,
    pub open_price_24h: u64,
    pub high_price_24h: u64,
    pub low_price_24h: u64,
    pub last_price: u64,
    pub volume_24h: u64,
    pub bid_price: u64,
    pub ask_price: u64,
}

impl View for MarketStatistics {
    type V = StatsV;

    open spec fn view(&self) -> StatsV {
        StatsV {
            symbol: self.symbol@,
            timestamp: self.timestamp,
            open_price_24h: self.open_price_24h,
            high_price_24h: self.high_price_24h,
            low_price_24h: self.low_price_24h,
            last_price: self.last_price,
            volume_24h: self.volume_24h,
            bid_price: self.bid_price,
            ask_price: self.ask_price,
        }
    }
}

impl Clone for MarketStatistics {
    /// A clone of a statistics record has the same view.
    fn clone(&self) -> (r: Self)
        ensures
            r@ == self@,
    {
        MarketStatistics {
            symbol: self.symbol.clone(),
            timestamp: self.timestamp,
            open_price_24h: self.open_price_24h,
            high_price_24h: self.high_price_24h,
            low_price_24h: self.low_price_24h,
            last_price: self.last_price,
            volume_24h: self.volume_24h,
            bid_price: self.bid_price,
            ask_price: self.ask_price,
        }
    }
}

/// A fresh statistics window anchored at `now` by its first execution.
pub open spec fn init_stats(symbol: Seq<char>, price: u64, now: u64) -> StatsV {
    StatsV {
        symbol,
        timestamp: now,
        open_price_24h: price,
        high_price_24h: price,
        low_price_24h: price,
        last_price: price,
        volume_24h: 0,
        bid_price: 0,
        ask_price: 0,
    }
}

/// The statistics after folding in one execution: re-anchor the window
/// when more than a day has passed, then widen high and low, move the last
/// price, grow the volume, and refresh the top of book.
pub open spec fn fold_stats(
    st: StatsV,
    price: u64,
    volume: u64,
    now: u64,
    bid: Option<u64>,
    ask: Option<u64>,
) -> StatsV {
    let base = if now - st.timestamp > 86400 {
        StatsV {
            timestamp: now,
            open_price_24h: price,
            high_price_24h: price,
            low_price_24h: price,
            volume_24h: 0,
            ..st
        }
    } else {
        st
    };
    StatsV {
        high_price_24h: if price > base.high_price_24h {
            price
        } else {
            base.high_price_24h
        },
        low_price_24h: if price < base.low_price_24h {
            price
        } else {
            base.low_price_24h
        },
        last_price: price,
        volume_24h: (base.volume_24h + volume) as u64,
        bid_price: match bid {
            Some(b) => b,
            None => base.bid_price,
        },
        ask_price: match ask {
            Some(a) => a,
            None => base.ask_price,
        },
        ..base
    }
}

/// Folding this execution into the statistics stays in range.
pub open spec fn stats_can_absorb(sv: Seq<StatsV>, symbol: Seq<char>, volume: u64, now: u64) -> bool {
    forall|k: int|
        0 <= k < sv.len() && (#[trigger] sv[k]).symbol == symbol ==> (!(now - sv[k].timestamp
            > 86400) ==> sv[k].volume_24h + volume <= u64::MAX)
}

/// The recent-execution list after one more print: newest first, truncated
/// to the bound.
pub open spec fn fold_recent(
    execs: Seq<ExecutionDataV>,
    ed: ExecutionDataV,
    max: usize,
) -> Seq<ExecutionDataV> {
    let grown = seq![ed] + execs;
    if grown.len() > max {
        grown.take(max as int)
    } else {
        grown
    }
}

/// From one statistics fold at a known time, the facts that hold at any
/// time follow.
proof fn lemma_stats_step_any_clock(
    pre: Seq<StatsV>,
    post: Seq<StatsV>,
    obs: Seq<SymbolBookV>,
    ev: crate::models::ExecutionV,
    now: u64,
)
    requires
        stats_can_absorb(pre, ev.symbol, ev.quantity, now),
        stats_step(pre, post, obs, ev, now),
    ensures
        stats_step_any_clock(pre, post, ev),
{
    let top = spec_top_of(obs, ev.symbol);
    if forall|k: int| 0 <= k < pre.len() ==> (#[trigger] pre[k]).symbol != ev.symbol {
        let st = fold_stats(
            init_stats(ev.symbol, ev.price, now),
            ev.price,
            ev.quantity,
            now,
            top.0,
            top.1,
        );
        assert(post == pre.push(st));
        assert(post.subrange(0, pre.len() as int) =~= pre);
        assert(post.last() == st);
        assert(st.symbol == ev.symbol);
        assert(st.last_price == ev.price);
        assert(st.volume_24h == ev.quantity);
        assert(st.open_price_24h == ev.price);
    } else {
        let k = choose|k: int|
            {
                &&& 0 <= k < pre.len()
                &&& (#[trigger] pre[k]).symbol == ev.symbol
                &&& (forall|j: int| 0 <= j < k ==> (#[trigger] pre[j]).symbol != ev.symbol)
                &&& post == pre.update(
                    k,
                    fold_stats(pre[k], ev.price, ev.quantity, now, top.0, top.1),
                )
            };
        let st = fold_stats(pre[k], ev.price, ev.quantity, now, top.0, top.1);
        assert(post[k] == st);
        assert(st.symbol == pre[k].symbol);
        assert(st.last_price == ev.price);
        assert(st.volume_24h == pre[k].volume_24h + ev.quantity || st.volume_24h
            == ev.quantity);
        assert forall|j: int| 0 <= j < pre.len() && j != k implies #[trigger] post[j] == pre[
            j
        ] by {}
    }
}

/// One symbol's stored book.
#[derive(Debug)]
pub struct SymbolBook {
    pub symbol: String,
    pub book: OrderBook,
}

/// View of a [`SymbolBook`].
pub ghost struct SymbolBookV {
    pub symbol: Seq<char>,
    pub book: OrderBookV,
}

impl View for SymbolBook {
    type V = SymbolBookV;

    open spec fn view(&self) -> SymbolBookV {
        SymbolBookV { symbol: self.symbol@, book: self.book@ }
    }
}

/// One symbol's recent executions, newest first.
#[derive(Debug)]
pub struct SymbolExecutions {
    pub symbol: String,
    pub executions: Vec<ExecutionData>,
}

/// View of a [`SymbolExecutions`].
pub ghost struct SymbolExecutionsV {
    pub symbol: Seq<char>,
    pub executions: Seq<ExecutionDataV>,
}

impl View for SymbolExecutions {
    type V = SymbolExecutionsV;

    open spec fn view(&self) -> SymbolExecutionsV {
        SymbolExecutionsV {
            symbol: self.symbol@,
            executions: self.executions@.map_values(|e: ExecutionData| e@),
        }
    }
}

/// The market-data publisher: per-symbol book snapshots, recent
/// executions, statistics, and the candle aggregator, all fed from the
/// post-match execution flow.
#[derive(Debug)]
pub struct MarketDataPublisher {
    pub orderbooks: Vec<SymbolBook>,
    pub recent_executions: Vec<SymbolExecutions>,
    pub market_statistics: Vec<MarketStatistics>,
    pub candlestick_manager: CandlestickManager,
    pub max_executions: usize,
}

/// View of a [`MarketDataPublisher`].
pub ghost struct PublisherV {
    pub orderbooks: Seq<SymbolBookV>,
    pub recent: Seq<SymbolExecutionsV>,
    pub stats: Seq<StatsV>,
    pub candles: Seq<SymbolCandlesV>,
    pub max_executions: usize,
}

impl View for MarketDataPublisher {
    type V = PublisherV;

    open spec fn view(&self) -> PublisherV {
        PublisherV {
            orderbooks: self.orderbooks@.map_values(|b: SymbolBook| b@),
            recent: self.recent_executions@.map_values(|e: SymbolExecutions| e@),
            stats: self.market_statistics@.map_values(|s: MarketStatistics| s@),
            candles: self.candlestick_manager@,
            max_executions: self.max_executions,
        }
    }
}

impl MarketDataPublisher {
    /// A publisher with no state, keeping up to a thousand executions per
    /// symbol.
    pub fn new() -> (r: Self)
        ensures
            r@.orderbooks.len() == 0,
            r@.recent.len() == 0,
            r@.stats.len() == 0,
            r@.candles.len() == 0,
            r@.max_executions == 1000,
    {
        let r = MarketDataPublisher {
            orderbooks: Vec::new(),
            recent_executions: Vec::new(),
            market_statistics: Vec::new(),
            candlestick_manager: CandlestickManager::new(),
            max_executions: 1000,
        };
        proof {
            assert(r@.orderbooks =~= Seq::<SymbolBookV>::empty());
            assert(r@.recent =~= Seq::<SymbolExecutionsV>::empty());
            assert(r@.stats =~= Seq::<StatsV>::empty());
        }
        r
    }

    /// Store the newest book state for a symbol.
    pub fn update_orderbook(&mut self, symbol: &str, orderbook: OrderBook)
        ensures
            final(self)@.recent == old(self)@.recent,
            final(self)@.stats == old(self)@.stats,
            final(self)@.candles == old(self)@.candles,
            final(self)@.max_executions == old(self)@.max_executions,
            (forall|k: int|
                0 <= k < old(self)@.orderbooks.len() ==> (#[trigger] old(
                    self,
                )@.orderbooks[k]).symbol != symbol@) ==> final(self)@.orderbooks == old(
                self,
            )@.orderbooks.push(SymbolBookV { symbol: symbol@, book: orderbook@ }),
            (exists|k: int|
                0 <= k < old(self)@.orderbooks.len() && (#[trigger] old(
                    self,
                )@.orderbooks[k]).symbol == symbol@) ==> exists|k: int|
                {
                    &&& 0 <= k < old(self)@.orderbooks.len()
                    &&& (#[trigger] old(self)@.orderbooks[k]).symbol == symbol@
                    &&& (forall|j: int|
                        0 <= j < k ==> (#[trigger] old(self)@.orderbooks[j]).symbol != symbol@)
                    &&& final(self)@.orderbooks == old(self)@.orderbooks.update(
                        k,
                        SymbolBookV { symbol: symbol@, book: orderbook@ },
                    )
                },
    {
        let ghost pre = self@.orderbooks;
        let mut k: usize = 0;
        while k < self.orderbooks.len()
            invariant
                0 <= k <= pre.len(),
                self@.orderbooks == pre,
                self@ == old(self)@,
                forall|j: int| 0 <= j < k ==> (#[trigger] pre[j]).symbol != symbol@,
            decreases pre.len() - k,
        {
            if str_eq(self.orderbooks[k].symbol.as_str(), symbol) {
                let mut entry = self.orderbooks.remove(k);
                entry.book = orderbook;
                self.orderbooks.insert(k, entry);
                proof {
                    assert(self@.orderbooks =~= pre.update(
                        k as int,
                        SymbolBookV { symbol: symbol@, book: self.orderbooks@[k as int].book@ },
                    ));
                    assert(self@.recent =~= old(self)@.recent);
                    assert(self@.stats =~= old(self)@.stats);
                    assert(pre[k as int].symbol == symbol@);
                }
                return ;
            }
            k = k + 1;
        }
        self.orderbooks.push(SymbolBook { symbol: String::from_str(symbol), book: orderbook });
        proof {
            assert(self@.orderbooks =~= pre.push(
                SymbolBookV { symbol: symbol@, book: self.orderbooks@[pre.len() as int].book@ },
            ));
            assert(self@.recent =~= old(self)@.recent);
            assert(self@.stats =~= old(self)@.stats);
        }
    }

    /// The stored top of book for a symbol: the cached best bid and ask of
    /// the newest stored book state, when one exists.
    fn stored_top_of_book(&self, symbol: &String) -> (r: (Option<u64>, Option<u64>))
        ensures
            r == spec_top_of(self@.orderbooks, symbol@),
    {
        let ghost pre = self@.orderbooks;
        let mut k: usize = 0;
        while k < self.orderbooks.len()
            invariant
                0 <= k <= pre.len(),
                self@.orderbooks == pre,
                forall|j: int| 0 <= j < k ==> (#[trigger] pre[j]).symbol != symbol@,
            decreases pre.len() - k,
        {
            if self.orderbooks[k].symbol == *symbol {
                proof {
                    lemma_top_skip(pre, symbol@, k as int);
                    assert(pre.skip(k as int)[0] == pre[k as int]);
                }
                return (
                    self.orderbooks[k].book.buy_book.best_level,
                    self.orderbooks[k].book.sell_book.best_level,
                );
            }
            k = k + 1;
        }
        proof {
            lemma_top_skip(pre, symbol@, pre.len() as int);
            assert(pre.skip(pre.len() as int) =~= Seq::<SymbolBookV>::empty());
        }
        (None, None)
    }
}

/// The stored top of book of the first entry for a symbol: the cached
/// best bid and best ask, or nothing when the symbol has no stored book.
pub open spec fn spec_top_of(obs: Seq<SymbolBookV>, sym: Seq<char>) -> (Option<u64>, Option<u64>)
    decreases obs.len(),
{
    if obs.len() == 0 {
        (None, None)
    } else if obs[0].symbol == sym {
        (obs[0].book.buy.best_level, obs[0].book.sell.best_level)
    } else {
        spec_top_of(obs.drop_first(), sym)
    }
}

/// [`spec_top_of`] skips a prefix without the symbol.
proof fn lemma_top_skip(obs: Seq<SymbolBookV>, sym: Seq<char>, k: int)
    requires
        0 <= k <= obs.len(),
        forall|j: int| 0 <= j < k ==> (#[trigger] obs[j]).symbol != sym,
    ensures
        spec_top_of(obs, sym) == spec_top_of(obs.skip(k), sym),
    decreases k,
{
    if k == 0 {
        assert(obs.skip(0) =~= obs);
    } else {
        lemma_top_skip(obs.drop_first(), sym, k - 1);
        assert forall|j: int| 0 <= j < k - 1 implies (#[trigger] obs.drop_first()[j]).symbol
            != sym by {
            assert(obs.drop_first()[j] == obs[j + 1]);
        }
        assert(obs.drop_first().skip(k - 1) =~= obs.skip(k));
    }
}

/// Plain bound on the statistics volume that holds whatever the clock
/// says: the 24-hour volume can absorb one more execution.
pub open spec fn stats_volume_fits(sv: Seq<StatsV>, symbol: Seq<char>, volume: u64) -> bool {
    forall|k: int|
        0 <= k < sv.len() && (#[trigger] sv[k]).symbol == symbol ==> sv[k].volume_24h + volume
            <= u64::MAX
}

/// What recording one print does to the recent lists: the symbol's list
/// (created on first sight) grows at the head and is truncated to the
/// bound; other symbols' lists stay.
pub open spec fn recent_step(
    pre: Seq<SymbolExecutionsV>,
    post: Seq<SymbolExecutionsV>,
    ev: crate::models::ExecutionV,
    max: usize,
) -> bool {
    &&& ((forall|k: int| 0 <= k < pre.len() ==> (#[trigger] pre[k]).symbol != ev.symbol)
        ==> post == pre.push(
        SymbolExecutionsV {
            symbol: ev.symbol,
            executions: fold_recent(Seq::empty(), spec_execution_data(ev), max),
        },
    ))
    &&& ((exists|k: int| 0 <= k < pre.len() && (#[trigger] pre[k]).symbol == ev.symbol)
        ==> exists|k: int|
        {
            &&& 0 <= k < pre.len()
            &&& (#[trigger] pre[k]).symbol == ev.symbol
            &&& (forall|j: int| 0 <= j < k ==> (#[trigger] pre[j]).symbol != ev.symbol)
            &&& post == pre.update(
                k,
                SymbolExecutionsV {
                    symbol: pre[k].symbol,
                    executions: fold_recent(pre[k].executions, spec_execution_data(ev), max),
                },
            )
        })
}

/// What folding one print does to the candles: every track of the
/// symbol's entry (opened fresh on first sight) folds the execution in;
/// other symbols' entries stay.
pub open spec fn candles_step(
    pre: Seq<SymbolCandlesV>,
    post: Seq<SymbolCandlesV>,
    ev: crate::models::ExecutionV,
) -> bool {
    &&& ((forall|k: int| 0 <= k < pre.len() ==> (#[trigger] pre[k]).symbol != ev.symbol)
        ==> post == pre.push(
        SymbolCandlesV {
            symbol: ev.symbol,
            tracks: fold_tracks(
                fresh_tracks(),
                ev.symbol,
                ev.transaction_time,
                ev.price,
                ev.quantity,
            ),
        },
    ))
    &&& ((exists|k: int| 0 <= k < pre.len() && (#[trigger] pre[k]).symbol == ev.symbol)
        ==> exists|k: int|
        {
            &&& 0 <= k < pre.len()
            &&& (#[trigger] pre[k]).symbol == ev.symbol
            &&& (forall|j: int| 0 <= j < k ==> (#[trigger] pre[j]).symbol != ev.symbol)
            &&& post == pre.update(
                k,
                SymbolCandlesV {
                    symbol: pre[k].symbol,
                    tracks: fold_tracks(
                        pre[k].tracks,
                        ev.symbol,
                        ev.transaction_time,
                        ev.price,
                        ev.quantity,
                    ),
                },
            )
        })
}

/// What folding one print does to the statistics at time `now`: the
/// symbol's record (anchored fresh on first sight) folds the execution in
/// with the stored top of book; other symbols' records stay.
pub open spec fn stats_step(
    pre: Seq<StatsV>,
    post: Seq<StatsV>,
    obs: Seq<SymbolBookV>,
    ev: crate::models::ExecutionV,
    now: u64,
) -> bool {
    let top = spec_top_of(obs, ev.symbol);
    &&& ((forall|k: int| 0 <= k < pre.len() ==> (#[trigger] pre[k]).symbol != ev.symbol)
        ==> post == pre.push(
        fold_stats(
            init_stats(ev.symbol, ev.price, now),
            ev.price,
            ev.quantity,
            now,
            top.0,
            top.1,
        ),
    ))
    &&& ((exists|k: int| 0 <= k < pre.len() && (#[trigger] pre[k]).symbol == ev.symbol)
        ==> exists|k: int|
        {
            &&& 0 <= k < pre.len()
            &&& (#[trigger] pre[k]).symbol == ev.symbol
            &&& (forall|j: int| 0 <= j < k ==> (#[trigger] pre[j]).symbol != ev.symbol)
            &&& post == pre.update(
                k,
                fold_stats(pre[k], ev.price, ev.quantity, now, top.0, top.1),
            )
        })
}

/// What holds of the statistics whatever the clock said: the symbol's
/// record ends at the execution's price, and its volume grew by the
/// execution's quantity over whichever window anchor the clock chose.
pub open spec fn stats_step_any_clock(
    pre: Seq<StatsV>,
    post: Seq<StatsV>,
    ev: crate::models::ExecutionV,
) -> bool {
    &&& ((forall|k: int| 0 <= k < pre.len() ==> (#[trigger] pre[k]).symbol != ev.symbol) ==> {
        &&& post.len() == pre.len() + 1
        &&& post.subrange(0, pre.len() as int) == pre
        &&& post.last().symbol == ev.symbol
        &&& post.last().open_price_24h == ev.price
        &&& post.last().last_price == ev.price
        &&& post.last().volume_24h == ev.quantity
    })
    &&& ((exists|k: int| 0 <= k < pre.len() && (#[trigger] pre[k]).symbol == ev.symbol)
        ==> exists|k: int|
        {
            &&& 0 <= k < pre.len()
            &&& (#[trigger] pre[k]).symbol == ev.symbol
            &&& (forall|j: int| 0 <= j < k ==> (#[trigger] pre[j]).symbol != ev.symbol)
            &&& post.len() == pre.len()
            &&& (forall|j: int| 0 <= j < pre.len() && j != k ==> #[trigger] post[j] == pre[j])
            &&& post[k].symbol == pre[k].symbol
            &&& post[k].last_price == ev.price
            &&& (post[k].volume_24h == pre[k].volume_24h + ev.quantity || post[k].volume_24h
                == ev.quantity)
        })
}

impl MarketDataPublisher {
    /// Record one trade print at the head of its symbol's recent list,
    /// keeping at most `max_executions` prints.
    fn add_execution(&mut self, execution: &Execution)
        ensures
            final(self)@.orderbooks == old(self)@.orderbooks,
            final(self)@.stats == old(self)@.stats,
            final(self)@.candles == old(self)@.candles,
            final(self)@.max_executions == old(self)@.max_executions,
            recent_step(
                old(self)@.recent,
                final(self)@.recent,
                execution@,
                old(self)@.max_executions,
            ),
    {
        let ghost pre = self@.recent;
        let data = ExecutionData {
            symbol: execution.symbol.clone(),
            timestamp: execution.transaction_time,
            price: execution.price,
            volume: execution.quantity,
            side: side_label(execution.side),
            is_market_maker: false,
        };
        let ghost ed = spec_execution_data(execution@);
        let mut k: usize = 0;
        while k < self.recent_executions.len()
            invariant
                0 <= k <= pre.len(),
                pre == old(self)@.recent,
                self@ == old(self)@,
                data@ == ed,
                ed == spec_execution_data(execution@),
                forall|j: int| 0 <= j < k ==> (#[trigger] pre[j]).symbol != execution@.symbol,
            decreases pre.len() - k,
        {
            if self.recent_executions[k].symbol == execution.symbol {
                let mut entry = self.recent_executions.remove(k);
                let ghost pre_execs = entry@.executions;
                entry.executions.insert(0, data);
                proof {
                    assert(entry@.executions =~= seq![ed] + pre_execs);
                }
                if entry.executions.len() > self.max_executions {
                    let ghost grown = entry@.executions;
                    entry.executions.truncate(self.max_executions);
                    proof {
                        assert(entry@.executions =~= grown.take(self@.max_executions as int));
                    }
                }
                self.recent_executions.insert(k, entry);
                proof {
                    assert(self@.recent =~= pre.update(
                        k as int,
                        SymbolExecutionsV {
                            symbol: pre[k as int].symbol,
                            executions: fold_recent(
                                pre[k as int].executions,
                                ed,
                                self@.max_executions,
                            ),
                        },
                    ));
                    assert(self@.orderbooks =~= old(self)@.orderbooks);
                    assert(self@.stats =~= old(self)@.stats);
                }
                return ;
            }
            k = k + 1;
        }
        let mut entry = SymbolExecutions {
            symbol: execution.symbol.clone(),
            executions: Vec::new(),
        };
        entry.executions.push(data);
        if entry.executions.len() > self.max_executions {
            let ghost grown = entry@.executions;
            entry.executions.truncate(self.max_executions);
            proof {
                assert(entry@.executions =~= grown.take(self@.max_executions as int));
            }
        }
        proof {
            assert(entry@.executions =~= fold_recent(
                Seq::empty(),
                ed,
                self@.max_executions,
            ));
        }
        self.recent_executions.push(entry);
        proof {
            assert(self@.recent =~= pre.push(
                SymbolExecutionsV {
                    symbol: execution@.symbol,
                    executions: fold_recent(Seq::empty(), ed, self@.max_executions),
                },
            ));
            assert(self@.orderbooks =~= old(self)@.orderbooks);
            assert(self@.stats =~= old(self)@.stats);
        }
    }

    /// Fold one execution into its symbol's 24-hour statistics, refreshing
    /// the top of book from the stored snapshot.
    fn update_market_statistics(&mut self, execution: &Execution, now: u64)
        requires
            stats_can_absorb(old(self)@.stats, execution@.symbol, execution@.quantity, now),
        ensures
            final(self)@.orderbooks == old(self)@.orderbooks,
            final(self)@.recent == old(self)@.recent,
            final(self)@.candles == old(self)@.candles,
            final(self)@.max_executions == old(self)@.max_executions,
            stats_step(
                old(self)@.stats,
                final(self)@.stats,
                old(self)@.orderbooks,
                execution@,
                now,
            ),
    {
        let ghost pre = self@.stats;
        let (bid, ask) = self.stored_top_of_book(&execution.symbol);
        let price = execution.price;
        let volume = execution.quantity;
        let mut k: usize = 0;
        while k < self.market_statistics.len()
            invariant
                0 <= k <= pre.len(),
                pre == old(self)@.stats,
                self@ == old(self)@,
                price == execution@.price,
                volume == execution@.quantity,
                stats_can_absorb(pre, execution@.symbol, volume, now),
                (bid, ask) == spec_top_of(old(self)@.orderbooks, execution@.symbol),
                forall|j: int| 0 <= j < k ==> (#[trigger] pre[j]).symbol != execution@.symbol,
            decreases pre.len() - k,
        {
            if self.market_statistics[k].symbol == execution.symbol {
                let mut st = self.market_statistics.remove(k);
                proof {
                    assert(st@ == pre[k as int]);
                }
                if now > st.timestamp && now - st.timestamp > 86400 {
                    st.timestamp = now;
                    st.open_price_24h = price;
                    st.high_price_24h = price;
                    st.low_price_24h = price;
                    st.volume_24h = 0;
                }
                if price > st.high_price_24h {
                    st.high_price_24h = price;
                }
                if price < st.low_price_24h {
                    st.low_price_24h = price;
                }
                st.last_price = price;
                st.volume_24h = st.volume_24h + volume;
                match bid {
                    Some(b) => {
                        st.bid_price = b;
                    },
                    None => {},
                }
                match ask {
                    Some(a) => {
                        st.ask_price = a;
                    },
                    None => {},
                }
                self.market_statistics.insert(k, st);
                proof {
                    assert(self@.stats =~= pre.update(
                        k as int,
                        fold_stats(pre[k as int], price, volume, now, bid, ask),
                    ));
                    assert(self@.orderbooks =~= old(self)@.orderbooks);
                    assert(self@.recent =~= old(self)@.recent);
                }
                return ;
            }
            k = k + 1;
        }
        let mut st = MarketStatistics {
            symbol: execution.symbol.clone(),
            timestamp: now,
            open_price_24h: price,
            high_price_24h: price,
            low_price_24h: price,
            last_price: price,
            volume_24h: 0,
            bid_price: 0,
            ask_price: 0,
        };
        if price > st.high_price_24h {
            st.high_price_24h = price;
        }
        if price < st.low_price_24h {
            st.low_price_24h = price;
        }
        st.last_price = price;
        st.volume_24h = st.volume_24h + volume;
        match bid {
            Some(b) => {
                st.bid_price = b;
            },
            None => {},
        }
        match ask {
            Some(a) => {
                st.ask_price = a;
            },
            None => {},
        }
        self.market_statistics.push(st);
        proof {
            assert(self@.stats =~= pre.push(
                fold_stats(
                    init_stats(execution@.symbol, price, now),
                    price,
                    volume,
                    now,
                    bid,
                    ask,
                ),
            ));
            assert(self@.orderbooks =~= old(self)@.orderbooks);
            assert(self@.recent =~= old(self)@.recent);
        }
    }

    /// Whether one execution can be folded into the publisher's state
    /// within the integer ranges, whatever the clock says.
    pub fn can_process_execution(&self, execution: &Execution) -> (r: bool)
        ensures
            r == (manager_can_absorb(
                self@.candles,
                execution@.symbol,
                execution@.transaction_time,
                execution@.quantity,
            ) && stats_volume_fits(self@.stats, execution@.symbol, execution@.quantity)),
    {
        if !self.candlestick_manager.can_process(execution) {
            return false;
        }
        let ghost sv = self@.stats;
        let mut k: usize = 0;
        while k < self.market_statistics.len()
            invariant
                0 <= k <= sv.len(),
                sv == self@.stats,
                forall|j: int|
                    0 <= j < k && (#[trigger] sv[j]).symbol == execution@.symbol ==> sv[
                        j
                    ].volume_24h + execution@.quantity <= u64::MAX,
            decreases sv.len() - k,
        {
            if self.market_statistics[k].symbol == execution.symbol {
                if self.market_statistics[k].volume_24h > u64::MAX - execution.quantity {
                    proof {
                        assert(sv[k as int].volume_24h + execution@.quantity > u64::MAX);
                    }
                    return false;
                }
            }
            k = k + 1;
        }
        true
    }

    /// Fold one execution into the recent list, the candles and the
    /// statistics, at the given time.
    pub fn process_execution_at(&mut self, execution: &Execution, now: u64)
        requires
            manager_can_absorb(
                old(self)@.candles,
                execution@.symbol,
                execution@.transaction_time,
                execution@.quantity,
            ),
            stats_can_absorb(old(self)@.stats, execution@.symbol, execution@.quantity, now),
        ensures
            final(self)@.orderbooks == old(self)@.orderbooks,
            final(self)@.max_executions == old(self)@.max_executions,
            recent_step(
                old(self)@.recent,
                final(self)@.recent,
                execution@,
                old(self)@.max_executions,
            ),
            candles_step(old(self)@.candles, final(self)@.candles, execution@),
            stats_step(
                old(self)@.stats,
                final(self)@.stats,
                old(self)@.orderbooks,
                execution@,
                now,
            ),
    {
        self.add_execution(execution);
        self.candlestick_manager.process_execution(execution);
        self.update_market_statistics(execution, now);
    }

    /// Fold one execution at the current wall-clock time: the recent list
    /// and the candles change exactly as at any fixed time, the statistics
    /// change as one fold at whatever time the clock returned, and in any
    /// case the symbol's record ends at this price with its volume grown
    /// by this quantity.
    pub fn process_execution(&mut self, execution: &Execution)
        requires
            manager_can_absorb(
                old(self)@.candles,
                execution@.symbol,
                execution@.transaction_time,
                execution@.quantity,
            ),
            stats_volume_fits(old(self)@.stats, execution@.symbol, execution@.quantity),
        ensures
            final(self)@.orderbooks == old(self)@.orderbooks,
            final(self)@.max_executions == old(self)@.max_executions,
            recent_step(
                old(self)@.recent,
                final(self)@.recent,
                execution@,
                old(self)@.max_executions,
            ),
            candles_step(old(self)@.candles, final(self)@.candles, execution@),
            exists|now: u64|
                stats_step(
                    old(self)@.stats,
                    final(self)@.stats,
                    old(self)@.orderbooks,
                    execution@,
                    now,
                ),
            stats_step_any_clock(old(self)@.stats, final(self)@.stats, execution@),
    {
        let now = crate::clock::unix_now();
        self.process_execution_at(execution, now);
        proof {
            assert(stats_step(
                old(self)@.stats,
                final(self)@.stats,
                old(self)@.orderbooks,
                execution@,
                now,
            ));
            lemma_stats_step_any_clock(
                old(self)@.stats,
                final(self)@.stats,
                old(self)@.orderbooks,
                execution@,
                now,
            );
        }
    }

    /// The most recent prints for a symbol, newest first, at most `limit`.
    pub fn get_recent_executions(&self, symbol: &str, limit: usize) -> (r: Vec<ExecutionData>)
        ensures
            (forall|k: int|
                0 <= k < self@.recent.len() ==> (#[trigger] self@.recent[k]).symbol != symbol@)
                ==> r@.len() == 0,
            forall|k: int|
                (0 <= k < self@.recent.len() && (#[trigger] self@.recent[k]).symbol == symbol@
                    && (forall|j: int|
                    0 <= j < k ==> (#[trigger] self@.recent[j]).symbol != symbol@))
                    ==> r@.map_values(|e: ExecutionData| e@) == (if limit
                    >= self@.recent[k].executions.len() {
                    self@.recent[k].executions
                } else {
                    self@.recent[k].executions.take(limit as int)
                }),
    {
        let ghost pre = self@.recent;
        let mut k: usize = 0;
        while k < self.recent_executions.len()
            invariant
                0 <= k <= pre.len(),
                pre == self@.recent,
                forall|j: int| 0 <= j < k ==> (#[trigger] pre[j]).symbol != symbol@,
            decreases pre.len() - k,
        {
            if str_eq(self.recent_executions[k].symbol.as_str(), symbol) {
                let entry = &self.recent_executions[k];
                let n = if limit >= entry.executions.len() {
                    entry.executions.len()
                } else {
                    limit
                };
                let mut out: Vec<ExecutionData> = Vec::new();
                let mut i: usize = 0;
                while i < n
                    invariant
                        0 <= i <= n,
                        pre == self@.recent,
                        k < pre.len(),
                        entry@ == pre[k as int],
                        n <= entry@.executions.len(),
                        out@.len() == i,
                        forall|j: int|
                            0 <= j < i ==> #[trigger] out@[j]@ == pre[k as int].executions[j],
                    decreases n - i,
                {
                    out.push(entry.executions[i].clone());
                    i = i + 1;
                }
                proof {
                    assert(pre[k as int].symbol == symbol@);
                    let want = if limit >= pre[k as int].executions.len() {
                        pre[k as int].executions
                    } else {
                        pre[k as int].executions.take(limit as int)
                    };
                    assert(out@.map_values(|e: ExecutionData| e@) =~= want);
                }
                return out;
            }
            k = k + 1;
        }
        Vec::new()
    }

    /// The statistics record for a symbol, if one exists.
    pub fn get_statistics(&self, symbol: &str) -> (r: Option<MarketStatistics>)
        ensures
            (forall|k: int|
                0 <= k < self@.stats.len() ==> (#[trigger] self@.stats[k]).symbol != symbol@)
                ==> r is None,
            forall|k: int|
                (0 <= k < self@.stats.len() && (#[trigger] self@.stats[k]).symbol == symbol@ && (
                forall|j: int| 0 <= j < k ==> (#[trigger] self@.stats[j]).symbol != symbol@))
                    ==> (r matches Some(st) && st@ == self@.stats[k]),
    {
        let ghost pre = self@.stats;
        let mut k: usize = 0;
        while k < self.market_statistics.len()
            invariant
                0 <= k <= pre.len(),
                pre == self@.stats,
                forall|j: int| 0 <= j < k ==> (#[trigger] pre[j]).symbol != symbol@,
            decreases pre.len() - k,
        {
            if str_eq(self.market_statistics[k].symbol.as_str(), symbol) {
                proof {
                    assert(pre[k as int].symbol == symbol@);
                }
                return Some(self.market_statistics[k].clone());
            }
            k = k + 1;
        }
        None
    }
}

} // verus!
