//! OHLCV candles: per symbol and per interval, a current open candle and a
//! bounded buffer of completed candles, folded from the execution stream.
//! A candle closes only when an execution in a later bucket arrives.

use vstd::prelude::*;
use std::collections::VecDeque;

use crate::models::Execution;
use crate::strings::str_eq;

verus! {

/// The supported candle intervals.
#[derive(Clone, Copy, Debug, PartialEq, Eq, Structural, Hash)]
pub enum CandleInterval {
    Minute1,
    Minute5,
    Minute15,
    Minute30,
    Hour1,
    Hour4,
    Day1,
    Week1,
}

/// Length of an interval in seconds.
pub open spec fn interval_seconds(i: CandleInterval) -> u64 {
    match i {
        CandleInterval::Minute1 => 60,
        CandleInterval::Minute5 => 300,
        CandleInterval::Minute15 => 900,
        CandleInterval::Minute30 => 1800,
        CandleInterval::Hour1 => 3600,
        CandleInterval::Hour4 => 14400,
        CandleInterval::Day1 => 86400,
        CandleInterval::Week1 => 604800,
    }
}

/// How many completed candles are kept per interval: roughly one display
/// horizon's worth.
pub open spec fn buffer_capacity(i: CandleInterval) -> usize {
    match i {
        CandleInterval::Minute1 => 1440,
        CandleInterval::Minute5 => 1152,
        CandleInterval::Minute15 => 960,
        CandleInterval::Minute30 => 1008,
        CandleInterval::Hour1 => 720,
        CandleInterval::Hour4 => 720,
        CandleInterval::Day1 => 365,
        CandleInterval::Week1 => 156,
    }
}

impl CandleInterval {
    /// Length of the interval in seconds.
    pub fn to_seconds(&self) -> (r: u64)
        ensures
            r == interval_seconds(*self),
    {
        match self {
            CandleInterval::Minute1 => 60,
            CandleInterval::Minute5 => 300,
            CandleInterval::Minute15 => 900,
            CandleInterval::Minute30 => 1800,
            CandleInterval::Hour1 => 3600,
            CandleInterval::Hour4 => 14400,
            CandleInterval::Day1 => 86400,
            CandleInterval::Week1 => 604800,
        }
    }

    /// The interval's short name.
    pub fn to_string(&self) -> (r: String)
        ensures
            *self == CandleInterval::Minute1 ==> r@ == "1m"@,
            *self == CandleInterval::Minute5 ==> r@ == "5m"@,
            *self == CandleInterval::Minute15 ==> r@ == "15m"@,
            *self == CandleInterval::Minute30 ==> r@ == "30m"@,
            *self == CandleInterval::Hour1 ==> r@ == "1h"@,
            *self == CandleInterval::Hour4 ==> r@ == "4h"@,
            *self == CandleInterval::Day1 ==> r@ == "1d"@,
            *self == CandleInterval::Week1 ==> r@ == "1w"@,
    {
        match self {
            CandleInterval::Minute1 => String::from_str("1m"),
            CandleInterval::Minute5 => String::from_str("5m"),
            CandleInterval::Minute15 => String::from_str("15m"),
            CandleInterval::Minute30 => String::from_str("30m"),
            CandleInterval::Hour1 => String::from_str("1h"),
            CandleInterval::Hour4 => String::from_str("4h"),
            CandleInterval::Day1 => String::from_str("1d"),
            CandleInterval::Week1 => String::from_str("1w"),
        }
    }

    /// Parse a short interval name; `None` for anything unknown.
    pub fn from_string(s: &str) -> (r: Option<Self>)
        ensures
            s@ == "1m"@ ==> r == Some(CandleInterval::Minute1),
            s@ == "5m"@ ==> r == Some(CandleInterval::Minute5),
            s@ == "15m"@ ==> r == Some(CandleInterval::Minute15),
            s@ == "30m"@ ==> r == Some(CandleInterval::Minute30),
            s@ == "1h"@ ==> r == Some(CandleInterval::Hour1),
            s@ == "4h"@ ==> r == Some(CandleInterval::Hour4),
            s@ == "1d"@ ==> r == Some(CandleInterval::Day1),
            s@ == "1w"@ ==> r == Some(CandleInterval::Week1),
            r is None <==> (s@ != "1m"@ && s@ != "5m"@ && s@ != "15m"@ && s@ != "30m"@ && s@
                != "1h"@ && s@ != "4h"@ && s@ != "1d"@ && s@ != "1w"@),
    {
        proof {
            reveal_strlit("1m");
            reveal_strlit("5m");
            reveal_strlit("15m");
            reveal_strlit("30m");
            reveal_strlit("1h");
            reveal_strlit("4h");
            reveal_strlit("1d");
            reveal_strlit("1w");
            assert("1m"@.len() == 2);
            assert("1m"@[0] == '1');
            assert("1m"@[1] == 'm');
            assert("5m"@.len() == 2);
            assert("5m"@[0] == '5');
            assert("5m"@[1] == 'm');
            assert("15m"@.len() == 3);
            assert("15m"@[0] == '1');
            assert("15m"@[1] == '5');
            assert("15m"@[2] == 'm');
            assert("30m"@.len() == 3);
            assert("30m"@[0] == '3');
            assert("30m"@[1] == '0');
            assert("30m"@[2] == 'm');
            assert("1h"@.len() == 2);
            assert("1h"@[0] == '1');
            assert("1h"@[1] == 'h');
            assert("4h"@.len() == 2);
            assert("4h"@[0] == '4');
            assert("4h"@[1] == 'h');
            assert("1d"@.len() == 2);
            assert("1d"@[0] == '1');
            assert("1d"@[1] == 'd');
            assert("1w"@.len() == 2);
            assert("1w"@[0] == '1');
            assert("1w"@[1] == 'w');
            assert("1m"@ != "5m"@);
            assert("1m"@ != "15m"@);
            assert("1m"@ != "30m"@);
            assert("1m"@ != "1h"@);
            assert("1m"@ != "4h"@);
            assert("1m"@ != "1d"@);
            assert("1m"@ != "1w"@);
            assert("5m"@ != "15m"@);
            assert("5m"@ != "30m"@);
            assert("5m"@ != "1h"@);
            assert("5m"@ != "4h"@);
            assert("5m"@ != "1d"@);
            assert("5m"@ != "1w"@);
            assert("15m"@ != "30m"@);
            assert("15m"@ != "1h"@);
            assert("15m"@ != "4h"@);
            assert("15m"@ != "1d"@);
            assert("15m"@ != "1w"@);
            assert("30m"@ != "1h"@);
            assert("30m"@ != "4h"@);
            assert("30m"@ != "1d"@);
            assert("30m"@ != "1w"@);
            assert("1h"@ != "4h"@);
            assert("1h"@ != "1d"@);
            assert("1h"@ != "1w"@);
            assert("4h"@ != "1d"@);
            assert("4h"@ != "1w"@);
            assert("1d"@ != "1w"@);
        }
        if str_eq(s, "1m") {
            Some(CandleInterval::Minute1)
        } else if str_eq(s, "5m") {
            Some(CandleInterval::Minute5)
        } else if str_eq(s, "15m") {
            Some(CandleInterval::Minute15)
        } else if str_eq(s, "30m") {
            Some(CandleInterval::Minute30)
        } else if str_eq(s, "1h") {
            Some(CandleInterval::Hour1)
        } else if str_eq(s, "4h") {
            Some(CandleInterval::Hour4)
        } else if str_eq(s, "1d") {
            Some(CandleInterval::Day1)
        } else if str_eq(s, "1w") {
            Some(CandleInterval::Week1)
        } else {
            None
        }
    }
}

/// One OHLCV candle.
#[derive(Debug)]
pub struct Candle {
    pub symbol: String,
    pub open_time: u64,
    pub close_time: u64,
    pub interval: CandleInterval,
    pub open: u64,
    pub high: u64,
    pub low: u64,
    pub close: u64,
    pub volume: u64,
    pub trade_count: usize,
}

/// Mathematical view of a [`Candle`].
pub ghost struct CandleV {
    pub symbol: Seq<char>,
    pub open_time: u64,
    pub close_time: u64,
    pub interval: CandleInterval,
    pub open: u64,
    pub high: u64,
    pub low: u64,
    pub close: u64,
    pub volume: u64,
    pub trade_count: usize,
}

impl View for Candle {
    type V = CandleV;

    open spec fn view(&self) -> CandleV {
        CandleV {
            symbol: self.symbol@,
            open_time: self.open_time,
            close_time: self.close_time,
            interval: self.interval,
            open: self.open,
            high: self.high,
            low: self.low,
            close: self.close,
            volume: self.volume,
            trade_count: self.trade_count,
        }
    }
}

impl Clone for Candle {
    /// A clone of a candle has the same view.
    fn clone(&self) -> (r: Self)
        ensures
            r@ == self@,
    {
        Candle {
            symbol: self.symbol.clone(),
            open_time: self.open_time,
            close_time: self.close_time,
            interval: self.interval,
            open: self.open,
            high: self.high,
            low: self.low,
            close: self.close,
            volume: self.volume,
            trade_count: self.trade_count,
        }
    }
}

/// The bucket an execution at time `t` falls into.
pub open spec fn bucket_start(t: u64, secs: u64) -> u64
    recommends
        secs >= 1,
{
    ((t / secs) * secs) as u64
}

/// A fresh candle opened by one execution.
pub open spec fn new_candle_v(
    symbol: Seq<char>,
    interval: CandleInterval,
    start: u64,
    end: u64,
    price: u64,
    volume: u64,
) -> CandleV {
    CandleV {
        symbol,
        open_time: start,
        close_time: end,
        interval,
        open: price,
        high: price,
        low: price,
        close: price,
        volume,
        trade_count: 1,
    }
}

/// A candle folded with one more execution in its bucket: high and low
/// widen, the close moves, volume and trade count grow.
pub open spec fn folded_candle(c: CandleV, price: u64, volume: u64) -> CandleV {
    CandleV {
        high: if price > c.high {
            price
        } else {
            c.high
        },
        low: if price < c.low {
            price
        } else {
            c.low
        },
        close: price,
        volume: (c.volume + volume) as u64,
        trade_count: (c.trade_count + 1) as usize,
        ..c
    }
}

/// Append to a bounded buffer: on overflow the oldest entry leaves first.
pub open spec fn push_bounded(s: Seq<CandleV>, cap: usize, c: CandleV) -> Seq<CandleV> {
    if s.len() == cap && s.len() > 0 {
        s.drop_first().push(c)
    } else {
        s.push(c)
    }
}

/// A bounded circular buffer, FIFO on overflow.
#[derive(Debug)]
pub struct CircularBuffer<T> {
    pub buffer: VecDeque<T>,
    pub capacity: usize,
}

impl<T> View for CircularBuffer<T> {
    type V = Seq<T>;

    open spec fn view(&self) -> Seq<T> {
        self.buffer@
    }
}

impl<T> CircularBuffer<T> {
    /// The buffer never holds more than its bound.
    pub open spec fn wf(&self) -> bool {
        self@.len() <= self.capacity
    }

    /// An empty buffer that will hold at most `capacity` entries.
    pub fn new(capacity: usize) -> (r: Self)
        ensures
            r@ == Seq::<T>::empty(),
            r.capacity == capacity,
            r.wf(),
    {
        CircularBuffer { buffer: VecDeque::new(), capacity }
    }

    /// Append a value; when the buffer is full the oldest value leaves.
    pub fn push(&mut self, value: T)
        ensures
            final(self).capacity == old(self).capacity,
            final(self)@ == (if old(self)@.len() == old(self).capacity && old(self)@.len() > 0 {
                old(self)@.drop_first().push(value)
            } else {
                old(self)@.push(value)
            }),
            (old(self).wf() && old(self).capacity >= 1) ==> final(self).wf(),
    {
        if self.buffer.len() == self.capacity {
            self.buffer.pop_front();
        }
        self.buffer.push_back(value);
    }

    /// Number of entries held.
    pub fn len(&self) -> (r: usize)
        ensures
            r == self@.len(),
    {
        self.buffer.len()
    }

    /// Whether the buffer holds nothing.
    pub fn is_empty(&self) -> (r: bool)
        ensures
            r == (self@.len() == 0),
    {
        self.buffer.len() == 0
    }

    /// The bound the buffer was made with.
    pub fn capacity(&self) -> (r: usize)
        ensures
            r == self.capacity,
    {
        self.capacity
    }
}

impl<T: Clone> CircularBuffer<T> {
    /// All entries, oldest first.  Each entry of the result is a clone of
    /// the corresponding entry of the buffer.
    pub fn get_all(&self) -> (r: Vec<T>)
        ensures
            r@.len() == self@.len(),
            forall|i: int| 0 <= i < self@.len() ==> cloned::<T>(self@[i], #[trigger] r@[i]),
    {
        let mut out: Vec<T> = Vec::new();
        let mut i: usize = 0;
        while i < self.buffer.len()
            invariant
                0 <= i <= self@.len(),
                self@ == self.buffer@,
                out@.len() == i,
                forall|j: int| 0 <= j < i ==> cloned::<T>(self@[j], #[trigger] out@[j]),
            decreases self@.len() - i,
        {
            out.push(self.buffer[i].clone());
            i = i + 1;
        }
        out
    }

    /// The most recent `count` entries, oldest first; everything when the
    /// buffer holds fewer.
    pub fn get_recent(&self, count: usize) -> (r: Vec<T>)
        ensures
            r@.len() == (if count >= self@.len() {
                self@.len() as int
            } else {
                count as int
            }),
            forall|i: int|
                0 <= i < r@.len() ==> cloned::<T>(
                    self@[self@.len() - r@.len() + i],
                    #[trigger] r@[i],
                ),
    {
        let start: usize = if count >= self.buffer.len() {
            0
        } else {
            self.buffer.len() - count
        };
        let mut out: Vec<T> = Vec::new();
        let mut i: usize = start;
        while i < self.buffer.len()
            invariant
                start <= i <= self@.len(),
                self@ == self.buffer@,
                start == (if count >= self@.len() {
                    0int
                } else {
                    self@.len() - count
                }),
                out@.len() == i - start,
                forall|j: int| 0 <= j < i - start ==> cloned::<T>(self@[start + j], #[trigger] out@[j]),
            decreases self@.len() - i,
        {
            out.push(self.buffer[i].clone());
            i = i + 1;
        }
        out
    }
}

/// View of a sequence of candles.
pub open spec fn candles_view(s: Seq<Candle>) -> Seq<CandleV> {
    s.map_values(|c: Candle| c@)
}

/// The per-interval state for one symbol: the completed candles and the
/// current open candle.
#[derive(Debug)]
pub struct IntervalCandles {
    pub interval: CandleInterval,
    pub completed: CircularBuffer<Candle>,
    pub current: Option<Candle>,
}

/// View of an [`IntervalCandles`].
pub ghost struct TrackV {
    pub interval: CandleInterval,
    pub cap: usize,
    pub completed: Seq<CandleV>,
    pub current: Option<CandleV>,
}

impl View for IntervalCandles {
    type V = TrackV;

    open spec fn view(&self) -> TrackV {
        TrackV {
            interval: self.interval,
            cap: self.completed.capacity,
            completed: candles_view(self.completed@),
            current: match self.current {
                Some(c) => Some(c@),
                None => None,
            },
        }
    }
}

/// The track after folding in one execution: the execution lands in the
/// current candle when it falls in its bucket; otherwise the current
/// candle completes into the bounded buffer and a fresh candle opens.
pub open spec fn fold_track(
    tr: TrackV,
    symbol: Seq<char>,
    t: u64,
    price: u64,
    volume: u64,
) -> TrackV {
    let secs = interval_seconds(tr.interval);
    let s = bucket_start(t, secs);
    let e = (s + secs) as u64;
    match tr.current {
        None => TrackV {
            current: Some(new_candle_v(symbol, tr.interval, s, e, price, volume)),
            ..tr
        },
        Some(c) => if c.open_time == s {
            TrackV { current: Some(folded_candle(c, price, volume)), ..tr }
        } else {
            TrackV {
                completed: push_bounded(tr.completed, tr.cap, c),
                current: Some(new_candle_v(symbol, tr.interval, s, e, price, volume)),
                ..tr
            }
        },
    }
}

/// The arithmetic of folding one execution into the track stays in range.
pub open spec fn track_can_absorb(tr: TrackV, t: u64, volume: u64) -> bool {
    let secs = interval_seconds(tr.interval);
    let s = bucket_start(t, secs);
    &&& s + secs <= u64::MAX
    &&& match tr.current {
        Some(c) => c.open_time == s ==> c.volume + volume <= u64::MAX && c.trade_count + 1
            <= usize::MAX,
        None => true,
    }
}

/// Fold one execution into one interval's track.
fn update_track(tr: &mut IntervalCandles, symbol: &String, t: u64, price: u64, volume: u64)
    requires
        track_can_absorb(old(tr)@, t, volume),
    ensures
        final(tr)@ == fold_track(old(tr)@, symbol@, t, price, volume),
{
    let secs = tr.interval.to_seconds();
    proof {
        assert((t / secs) * secs <= t) by (nonlinear_arith)
            requires
                secs >= 1,
                t >= 0,
        ;
    }
    let start = (t / secs) * secs;
    let end = start + secs;
    let prev = tr.current.take();
    match prev {
        None => {
            tr.current = Some(
                Candle {
                    symbol: symbol.clone(),
                    open_time: start,
                    close_time: end,
                    interval: tr.interval,
                    open: price,
                    high: price,
                    low: price,
                    close: price,
                    volume,
                    trade_count: 1,
                },
            );
        },
        Some(mut c) => {
            if c.open_time == start {
                if price > c.high {
                    c.high = price;
                }
                if price < c.low {
                    c.low = price;
                }
                c.close = price;
                c.volume = c.volume + volume;
                c.trade_count = c.trade_count + 1;
                tr.current = Some(c);
            } else {
                let ghost pre_completed = candles_view(tr.completed@);
                tr.completed.push(c);
                proof {
                    assert(candles_view(tr.completed@) =~= push_bounded(
                        pre_completed,
                        tr.completed.capacity,
                        prev->Some_0@,
                    ));
                }
                tr.current = Some(
                    Candle {
                        symbol: symbol.clone(),
                        open_time: start,
                        close_time: end,
                        interval: tr.interval,
                        open: price,
                        high: price,
                        low: price,
                        close: price,
                        volume,
                        trade_count: 1,
                    },
                );
            }
        },
    }
}

/// Per-symbol candle state: one track for each supported interval.
#[derive(Debug)]
pub struct SymbolCandles {
    pub symbol: String,
    pub tracks: Vec<IntervalCandles>,
}

/// View of a [`SymbolCandles`].
pub ghost struct SymbolCandlesV {
    pub symbol: Seq<char>,
    pub tracks: Seq<TrackV>,
}

impl View for SymbolCandles {
    type V = SymbolCandlesV;

    open spec fn view(&self) -> SymbolCandlesV {
        SymbolCandlesV {
            symbol: self.symbol@,
            tracks: self.tracks@.map_values(|t: IntervalCandles| t@),
        }
    }
}

/// All of one symbol's tracks, each folded with the same execution.
pub open spec fn fold_tracks(
    tracks: Seq<TrackV>,
    symbol: Seq<char>,
    t: u64,
    price: u64,
    volume: u64,
) -> Seq<TrackV> {
    tracks.map_values(|tr: TrackV| fold_track(tr, symbol, t, price, volume))
}

/// A fresh track for one interval.
pub open spec fn fresh_track(i: CandleInterval) -> TrackV {
    TrackV { interval: i, cap: buffer_capacity(i), completed: Seq::empty(), current: None }
}

/// The eight tracks a new symbol starts with, in canonical interval order.
pub open spec fn fresh_tracks() -> Seq<TrackV> {
    seq![
        fresh_track(CandleInterval::Minute1),
        fresh_track(CandleInterval::Minute5),
        fresh_track(CandleInterval::Minute15),
        fresh_track(CandleInterval::Minute30),
        fresh_track(CandleInterval::Hour1),
        fresh_track(CandleInterval::Hour4),
        fresh_track(CandleInterval::Day1),
        fresh_track(CandleInterval::Week1),
    ]
}

/// Every track of every entry for this symbol can absorb the execution.
pub open spec fn manager_can_absorb(
    mv: Seq<SymbolCandlesV>,
    symbol: Seq<char>,
    t: u64,
    volume: u64,
) -> bool {
    &&& forall|k: int, i: int|
        0 <= k < mv.len() && (#[trigger] mv[k]).symbol == symbol && 0 <= i < mv[k].tracks.len()
            ==> track_can_absorb(#[trigger] mv[k].tracks[i], t, volume)
    &&& forall|iv: CandleInterval| bucket_start(t, interval_seconds(iv)) + interval_seconds(iv) <= u64::MAX
}

/// Folds the execution stream into per-interval OHLCV candles, one set of
/// tracks per symbol.
#[derive(Debug)]
pub struct CandlestickManager {
    pub symbols: Vec<SymbolCandles>,
}

impl View for CandlestickManager {
    type V = Seq<SymbolCandlesV>;

    open spec fn view(&self) -> Seq<SymbolCandlesV> {
        self.symbols@.map_values(|s: SymbolCandles| s@)
    }
}

/// One interval's fresh executable track.
fn make_track(interval: CandleInterval) -> (r: IntervalCandles)
    ensures
        r@ == fresh_track(interval),
{
    let capacity: usize = match interval {
        CandleInterval::Minute1 => 1440,
        CandleInterval::Minute5 => 1152,
        CandleInterval::Minute15 => 960,
        CandleInterval::Minute30 => 1008,
        CandleInterval::Hour1 => 720,
        CandleInterval::Hour4 => 720,
        CandleInterval::Day1 => 365,
        CandleInterval::Week1 => 156,
    };
    let r = IntervalCandles { interval, completed: CircularBuffer::new(capacity), current: None };
    proof {
        assert(candles_view(r.completed@) =~= Seq::<CandleV>::empty());
    }
    r
}

impl CandlestickManager {
    /// A manager tracking no symbols yet.
    pub fn new() -> (r: Self)
        ensures
            r@ == Seq::<SymbolCandlesV>::empty(),
    {
        let r = CandlestickManager { symbols: Vec::new() };
        proof {
            assert(r@ =~= Seq::<SymbolCandlesV>::empty());
        }
        r
    }

    /// Whether folding this execution stays within the integer ranges.
    pub fn can_process(&self, execution: &Execution) -> (r: bool)
        ensures
            r == manager_can_absorb(
                self@,
                execution@.symbol,
                execution@.transaction_time,
                execution@.quantity,
            ),
    {
        let t = execution.transaction_time;
        // the coarsest bucket bound dominates: check every interval's bound
        let intervals = interval_list();
        let mut iv: usize = 0;
        let ghost mv = self@;
        while iv < intervals.len()
            invariant
                0 <= iv <= intervals@.len(),
                intervals@ == interval_list_spec(),
                t == execution@.transaction_time,
                forall|x: int|
                    0 <= x < iv ==> bucket_start(t, interval_seconds(#[trigger] intervals@[x]))
                        + interval_seconds(intervals@[x]) <= u64::MAX,
            decreases intervals@.len() - iv,
        {
            let secs = intervals[iv].to_seconds();
            let start = (t / secs) * secs;
            if start > u64::MAX - secs {
                proof {
                    assert(!manager_can_absorb(
                        self@,
                        execution@.symbol,
                        execution@.transaction_time,
                        execution@.quantity,
                    )) by {
                        assert(bucket_start(t, interval_seconds(intervals@[iv as int]))
                            + interval_seconds(intervals@[iv as int]) > u64::MAX);
                    }
                }
                return false;
            }
            iv = iv + 1;
        }
        proof {
            assert forall|ivx: CandleInterval|
                bucket_start(t, interval_seconds(ivx)) + interval_seconds(ivx)
                    <= u64::MAX by {
                assert(exists|x: int|
                    0 <= x < interval_list_spec().len() && interval_list_spec()[x] == ivx) by {
                    match ivx {
                        CandleInterval::Minute1 => assert(interval_list_spec()[0] == ivx),
                        CandleInterval::Minute5 => assert(interval_list_spec()[1] == ivx),
                        CandleInterval::Minute15 => assert(interval_list_spec()[2] == ivx),
                        CandleInterval::Minute30 => assert(interval_list_spec()[3] == ivx),
                        CandleInterval::Hour1 => assert(interval_list_spec()[4] == ivx),
                        CandleInterval::Hour4 => assert(interval_list_spec()[5] == ivx),
                        CandleInterval::Day1 => assert(interval_list_spec()[6] == ivx),
                        CandleInterval::Week1 => assert(interval_list_spec()[7] == ivx),
                    }
                }
            }
        }
        let mut k: usize = 0;
        while k < self.symbols.len()
            invariant
                0 <= k <= self@.len(),
                mv == self@,
                t == execution@.transaction_time,
                forall|x: int, i: int|
                    0 <= x < k && (#[trigger] mv[x]).symbol == execution@.symbol && 0 <= i < mv[
                        x
                    ].tracks.len() ==> track_can_absorb(
                        #[trigger] mv[x].tracks[i],
                        t,
                        execution@.quantity,
                    ),
                forall|ivx: CandleInterval|
                    bucket_start(t, interval_seconds(ivx)) + interval_seconds(ivx) <= u64::MAX,
            decreases self@.len() - k,
        {
            if self.symbols[k].symbol == execution.symbol {
                let entry = &self.symbols[k];
                let mut i: usize = 0;
                while i < entry.tracks.len()
                    invariant
                        0 <= i <= entry@.tracks.len(),
                        self@ == mv,
                        entry@ == mv[k as int],
                        k < mv.len(),
                        mv[k as int].symbol == execution@.symbol,
                        t == execution@.transaction_time,
                        forall|x: int|
                            0 <= x < i ==> track_can_absorb(
                                #[trigger] mv[k as int].tracks[x],
                                t,
                                execution@.quantity,
                            ),
                        forall|ivx: CandleInterval|
                            bucket_start(t, interval_seconds(ivx)) + interval_seconds(ivx)
                                <= u64::MAX,
                    decreases entry@.tracks.len() - i,
                {
                    let tr = &entry.tracks[i];
                    let secs = tr.interval.to_seconds();
                    proof {
                        assert((t / secs) * secs <= t) by (nonlinear_arith)
                            requires
                                secs >= 1,
                                t >= 0,
                        ;
                        assert(tr@ == mv[k as int].tracks[i as int]);
                    }
                    let start = (t / secs) * secs;
                    match &tr.current {
                        Some(c) => {
                            if c.open_time == start {
                                if c.volume > u64::MAX - execution.quantity {
                                    proof {
                                        assert(!track_can_absorb(
                                            mv[k as int].tracks[i as int],
                                            t,
                                            execution@.quantity,
                                        ));
                                    }
                                    return false;
                                }
                                if c.trade_count == usize::MAX {
                                    proof {
                                        assert(!track_can_absorb(
                                            mv[k as int].tracks[i as int],
                                            t,
                                            execution@.quantity,
                                        ));
                                    }
                                    return false;
                                }
                            }
                        },
                        None => {},
                    }
                    proof {
                        assert(track_can_absorb(
                            mv[k as int].tracks[i as int],
                            t,
                            execution@.quantity,
                        ));
                    }
                    i = i + 1;
                }
            }
            k = k + 1;
        }
        true
    }

    /// Fold one execution into every interval's candle for its symbol,
    /// opening the symbol's tracks on first sight.
    pub fn process_execution(&mut self, execution: &Execution)
        requires
            manager_can_absorb(
                old(self)@,
                execution@.symbol,
                execution@.transaction_time,
                execution@.quantity,
            ),
        ensures
            (forall|k: int|
                0 <= k < old(self)@.len() ==> (#[trigger] old(self)@[k]).symbol
                    != execution@.symbol) ==> final(self)@ == old(self)@.push(
                SymbolCandlesV {
                    symbol: execution@.symbol,
                    tracks: fold_tracks(
                        fresh_tracks(),
                        execution@.symbol,
                        execution@.transaction_time,
                        execution@.price,
                        execution@.quantity,
                    ),
                },
            ),
            (exists|k: int|
                0 <= k < old(self)@.len() && (#[trigger] old(self)@[k]).symbol
                    == execution@.symbol) ==> exists|k: int|
                {
                    &&& 0 <= k < old(self)@.len()
                    &&& (#[trigger] old(self)@[k]).symbol == execution@.symbol
                    &&& (forall|j: int|
                        0 <= j < k ==> (#[trigger] old(self)@[j]).symbol != execution@.symbol)
                    &&& final(self)@ == old(self)@.update(
                        k,
                        SymbolCandlesV {
                            symbol: old(self)@[k].symbol,
                            tracks: fold_tracks(
                                old(self)@[k].tracks,
                                execution@.symbol,
                                execution@.transaction_time,
                                execution@.price,
                                execution@.quantity,
                            ),
                        },
                    )
                },
    {
        let ghost mv = self@;
        let t = execution.transaction_time;
        let price = execution.price;
        let volume = execution.quantity;
        let mut k: usize = 0;
        while k < self.symbols.len()
            invariant
                0 <= k <= mv.len(),
                mv == old(self)@,
                self@ == mv,
                t == execution@.transaction_time,
                price == execution@.price,
                volume == execution@.quantity,
                manager_can_absorb(mv, execution@.symbol, t, volume),
                forall|j: int| 0 <= j < k ==> (#[trigger] mv[j]).symbol != execution@.symbol,
            decreases mv.len() - k,
        {
            if self.symbols[k].symbol == execution.symbol {
                let mut entry = self.symbols.remove(k);
                let ghost pre_entry = entry@;
                proof {
                    assert(pre_entry == mv[k as int]);
                    assert(mv[k as int].symbol == execution@.symbol);
                    assert forall|x: int|
                        0 <= x < pre_entry.tracks.len() implies track_can_absorb(
                        #[trigger] pre_entry.tracks[x],
                        t,
                        volume,
                    ) by {
                        assert(track_can_absorb(mv[k as int].tracks[x], t, volume));
                    }
                }
                let mut i: usize = 0;
                while i < entry.tracks.len()
                    invariant
                        0 <= i <= pre_entry.tracks.len(),
                        entry.symbol@ == pre_entry.symbol,
                        entry@.tracks.len() == pre_entry.tracks.len(),
                        t == execution@.transaction_time,
                        price == execution@.price,
                        volume == execution@.quantity,
                        pre_entry.symbol == execution@.symbol,
                        forall|x: int|
                            0 <= x < pre_entry.tracks.len() ==> track_can_absorb(
                                #[trigger] pre_entry.tracks[x],
                                t,
                                volume,
                            ),
                        forall|x: int|
                            0 <= x < i ==> entry@.tracks[x] == fold_track(
                                #[trigger] pre_entry.tracks[x],
                                execution@.symbol,
                                t,
                                price,
                                volume,
                            ),
                        forall|x: int|
                            i <= x < pre_entry.tracks.len() ==> #[trigger] entry@.tracks[x]
                                == pre_entry.tracks[x],
                    decreases pre_entry.tracks.len() - i,
                {
                    let ghost pre_tracks = entry@.tracks;
                    let mut tr = entry.tracks.remove(i);
                    proof {
                        assert(tr@ == pre_tracks[i as int]);
                        assert(pre_tracks[i as int] == pre_entry.tracks[i as int]);
                    }
                    update_track(&mut tr, &entry.symbol, t, price, volume);
                    entry.tracks.insert(i, tr);
                    proof {
                        assert(entry@.tracks =~= pre_tracks.update(i as int, tr@));
                    }
                    i = i + 1;
                }
                proof {
                    assert(entry@.tracks =~= fold_tracks(
                        pre_entry.tracks,
                        execution@.symbol,
                        t,
                        price,
                        volume,
                    ));
                }
                self.symbols.insert(k, entry);
                proof {
                    assert(self@ =~= mv.update(
                        k as int,
                        SymbolCandlesV {
                            symbol: mv[k as int].symbol,
                            tracks: fold_tracks(
                                mv[k as int].tracks,
                                execution@.symbol,
                                t,
                                price,
                                volume,
                            ),
                        },
                    ));
                }
                return ;
            }
            k = k + 1;
        }
        // first execution for this symbol: open all eight tracks
        let mut entry = SymbolCandles { symbol: execution.symbol.clone(), tracks: Vec::new() };
        let intervals = interval_list();
        let mut i: usize = 0;
        while i < intervals.len()
            invariant
                0 <= i <= intervals@.len(),
                intervals@ == interval_list_spec(),
                entry.symbol@ == execution@.symbol,
                t == execution@.transaction_time,
                price == execution@.price,
                volume == execution@.quantity,
                forall|ivx: CandleInterval|
                    bucket_start(t, interval_seconds(ivx)) + interval_seconds(ivx) <= u64::MAX,
                entry@.tracks.len() == i,
                forall|x: int|
                    0 <= x < i ==> #[trigger] entry@.tracks[x] == fold_track(
                        fresh_track(interval_list_spec()[x]),
                        execution@.symbol,
                        t,
                        price,
                        volume,
                    ),
            decreases intervals@.len() - i,
        {
            let ghost pre_tracks = entry@.tracks;
            let mut tr = make_track(intervals[i]);
            proof {
                assert(bucket_start(t, interval_seconds(intervals@[i as int])) + interval_seconds(
                    intervals@[i as int],
                ) <= u64::MAX);
                assert(track_can_absorb(tr@, t, volume));
            }
            update_track(&mut tr, &entry.symbol, t, price, volume);
            entry.tracks.push(tr);
            proof {
                assert(entry@.tracks =~= pre_tracks.push(tr@));
            }
            i = i + 1;
        }
        proof {
            assert(entry@.tracks =~= fold_tracks(
                fresh_tracks(),
                execution@.symbol,
                t,
                price,
                volume,
            ));
        }
        self.symbols.push(entry);
        proof {
            assert(self@ =~= mv.push(
                SymbolCandlesV {
                    symbol: execution@.symbol,
                    tracks: fold_tracks(fresh_tracks(), execution@.symbol, t, price, volume),
                },
            ));
        }
    }
}

/// What a candle query answers: all completed candles, or the most recent
/// `n`, oldest first.
pub open spec fn expected_candles(s: Seq<CandleV>, limit: Option<usize>) -> Seq<CandleV> {
    match limit {
        None => s,
        Some(n) => if n >= s.len() {
            s
        } else {
            s.subrange(s.len() - n, s.len() as int)
        },
    }
}

impl CandlestickManager {
    /// The completed candles for a symbol and interval, oldest first,
    /// truncated to the most recent `limit` when one is given.  Unknown
    /// symbols and intervals answer an empty list.
    pub fn get_candles(&self, symbol: &str, interval: CandleInterval, limit: Option<usize>) -> (r:
        Vec<Candle>)
        ensures
            (forall|k: int|
                0 <= k < self@.len() ==> (#[trigger] self@[k]).symbol != symbol@) ==> r@.len()
                == 0,
            forall|k: int, i: int|
                #![trigger self@[k].tracks[i]]
                (0 <= k < self@.len() && self@[k].symbol == symbol@ && (forall|j: int|
                    0 <= j < k ==> (#[trigger] self@[j]).symbol != symbol@) && 0 <= i < self@[
                    k
                ].tracks.len() && self@[k].tracks[i].interval == interval && (forall|j: int|
                    0 <= j < i ==> (#[trigger] self@[k].tracks[j]).interval != interval))
                    ==> candles_view(r@) == expected_candles(
                    self@[k].tracks[i].completed,
                    limit,
                ),
    {
        let ghost mv = self@;
        let mut k: usize = 0;
        while k < self.symbols.len()
            invariant
                0 <= k <= mv.len(),
                mv == self@,
                forall|j: int| 0 <= j < k ==> (#[trigger] mv[j]).symbol != symbol@,
            decreases mv.len() - k,
        {
            if str_eq(self.symbols[k].symbol.as_str(), symbol) {
                let entry = &self.symbols[k];
                let mut i: usize = 0;
                while i < entry.tracks.len()
                    invariant
                        0 <= i <= entry@.tracks.len(),
                        mv == self@,
                        k < mv.len(),
                        entry@ == mv[k as int],
                        mv[k as int].symbol == symbol@,
                        forall|j: int| 0 <= j < k ==> (#[trigger] mv[j]).symbol != symbol@,
                        forall|j: int|
                            0 <= j < i ==> (#[trigger] mv[k as int].tracks[j]).interval
                                != interval,
                    decreases entry@.tracks.len() - i,
                {
                    if entry.tracks[i].interval == interval {
                        let out = match limit {
                            Some(count) => entry.tracks[i].completed.get_recent(count),
                            None => entry.tracks[i].completed.get_all(),
                        };
                        proof {
                            let want = expected_candles(
                                mv[k as int].tracks[i as int].completed,
                                limit,
                            );
                            assert(candles_view(out@) =~= want);
                        }
                        return out;
                    }
                    i = i + 1;
                }
                let out: Vec<Candle> = Vec::new();
                return out;
            }
            k = k + 1;
        }
        Vec::new()
    }

    /// The current provisional candle for a symbol and interval, if one is
    /// open.
    pub fn get_current_candle(&self, symbol: &str, interval: CandleInterval) -> (r: Option<
        Candle,
    >)
        ensures
            (forall|k: int|
                0 <= k < self@.len() ==> (#[trigger] self@[k]).symbol != symbol@) ==> r is None,
            forall|k: int, i: int|
                #![trigger self@[k].tracks[i]]
                (0 <= k < self@.len() && self@[k].symbol == symbol@ && (forall|j: int|
                    0 <= j < k ==> (#[trigger] self@[j]).symbol != symbol@) && 0 <= i < self@[
                    k
                ].tracks.len() && self@[k].tracks[i].interval == interval && (forall|j: int|
                    0 <= j < i ==> (#[trigger] self@[k].tracks[j]).interval != interval)) ==> (match
                    self@[k].tracks[i].current {
                    Some(c) => r matches Some(out) && out@ == c,
                    None => r is None,
                }),
    {
        let ghost mv = self@;
        let mut k: usize = 0;
        while k < self.symbols.len()
            invariant
                0 <= k <= mv.len(),
                mv == self@,
                forall|j: int| 0 <= j < k ==> (#[trigger] mv[j]).symbol != symbol@,
            decreases mv.len() - k,
        {
            if str_eq(self.symbols[k].symbol.as_str(), symbol) {
                let entry = &self.symbols[k];
                let mut i: usize = 0;
                while i < entry.tracks.len()
                    invariant
                        0 <= i <= entry@.tracks.len(),
                        mv == self@,
                        k < mv.len(),
                        entry@ == mv[k as int],
                        mv[k as int].symbol == symbol@,
                        forall|j: int| 0 <= j < k ==> (#[trigger] mv[j]).symbol != symbol@,
                        forall|j: int|
                            0 <= j < i ==> (#[trigger] mv[k as int].tracks[j]).interval
                                != interval,
                    decreases entry@.tracks.len() - i,
                {
                    if entry.tracks[i].interval == interval {
                        proof {
                            assert forall|k2: int, i2: int|
                                #![trigger mv[k2].tracks[i2]]
                                (0 <= k2 < mv.len() && mv[k2].symbol == symbol@ && (forall|j: int|
                                    0 <= j < k2 ==> (#[trigger] mv[j]).symbol != symbol@) && 0
                                    <= i2 < mv[k2].tracks.len() && mv[k2].tracks[i2].interval
                                    == interval && (forall|j: int|
                                    0 <= j < i2 ==> (#[trigger] mv[k2].tracks[j]).interval
                                        != interval)) implies (k2 == k && i2 == i) by {
                                assert(mv[k as int].symbol == symbol@);
                                assert(mv[k as int].tracks[i as int].interval == interval);
                            }
                        }
                        match &entry.tracks[i].current {
                            Some(c) => {
                                return Some(c.clone());
                            },
                            None => {
                                return None;
                            },
                        }
                    }
                    i = i + 1;
                }
                return None;
            }
            k = k + 1;
        }
        None
    }
}

/// The supported intervals, in canonical order.
pub open spec fn interval_list_spec() -> Seq<CandleInterval> {
    seq![
        CandleInterval::Minute1,
        CandleInterval::Minute5,
        CandleInterval::Minute15,
        CandleInterval::Minute30,
        CandleInterval::Hour1,
        CandleInterval::Hour4,
        CandleInterval::Day1,
        CandleInterval::Week1,
    ]
}

/// Executable list of the supported intervals, in canonical order.
fn interval_list() -> (r: Vec<CandleInterval>)
    ensures
        r@ == interval_list_spec(),
{
    let mut v: Vec<CandleInterval> = Vec::new();
    v.push(CandleInterval::Minute1);
    v.push(CandleInterval::Minute5);
    v.push(CandleInterval::Minute15);
    v.push(CandleInterval::Minute30);
    v.push(CandleInterval::Hour1);
    v.push(CandleInterval::Hour4);
    v.push(CandleInterval::Day1);
    v.push(CandleInterval::Week1);
    proof {
        assert(v@ =~= interval_list_spec());
    }
    v
}

} // verus!
