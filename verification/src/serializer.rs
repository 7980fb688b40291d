//! Wire shapes of the core types, and the delta between two book
//! snapshots.  Encoding the shapes to bytes is a boundary concern of the
//! callers; the logic here only builds and compares plain values.

use vstd::prelude::*;

use crate::models::{Order, Execution, OrderStatus, OrderType};
use crate::order_book::OrderBook;
use crate::price_level::LevelV;
use crate::market_data::{spec_side_label, side_label};

verus! {

/// One aggregated price level of a book snapshot.
#[derive(Clone, Copy, Debug, PartialEq, Eq, Structural)]
pub struct PriceLevelDto {
    pub price: u64,
    pub volume: u64,
    pub order_count: usize,
}

/// A book snapshot: bids best (highest) first, asks best (lowest) first.
#[derive(Debug)]
pub struct OrderBookDto {
    pub symbol: String,
    pub timestamp: u64,
    pub bids: Vec<PriceLevelDto>,
    pub asks: Vec<PriceLevelDto>,
}

/// View of an [`OrderBookDto`].
pub ghost struct OrderBookDtoV {
    pub symbol: Seq<char>,
    pub timestamp: u64,
    pub bids: Seq<PriceLevelDto>,
    pub asks: Seq<PriceLevelDto>,
}

impl View for OrderBookDto {
    type V = OrderBookDtoV;

    open spec fn view(&self) -> OrderBookDtoV {
        OrderBookDtoV {
            symbol: self.symbol@,
            timestamp: self.timestamp,
            bids: self.bids@,
            asks: self.asks@,
        }
    }
}

impl Clone for OrderBookDto {
    /// A clone of a snapshot has the same view.
    fn clone(&self) -> (r: Self)
        ensures
            r@ == self@,
    {
        let bids = self.bids.clone();
        let asks = self.asks.clone();
        proof {
            assert(bids@ =~= self.bids@);
            assert(asks@ =~= self.asks@);
        }
        OrderBookDto { symbol: self.symbol.clone(), timestamp: self.timestamp, bids, asks }
    }
}

/// The wire shape of an order.
#[derive(Debug)]
pub struct OrderDto {
    pub order_id: String,
    pub symbol: String,
    pub price: u64,
    pub quantity: u64,
    pub side: String,
    pub order_type: String,
    pub status: String,
    pub filled_quantity: u64,
    pub remain_quantity: u64,
    pub entry_time: u64,
}

/// The wire shape of an execution.
#[derive(Debug)]
pub struct ExecutionDto {
    pub exec_id: String,
    pub order_id: String,
    pub symbol: String,
    pub side: String,
    pub price: u64,
    pub quantity: u64,
    pub transaction_time: u64,
}

/// An order type's display name.
pub open spec fn spec_order_type_label(t: OrderType) -> Seq<char> {
    match t {
        OrderType::Limit => "Limit"@,
        OrderType::Market => "Market"@,
    }
}

/// Executable counterpart of [`spec_order_type_label`].
pub fn order_type_label(t: OrderType) -> (r: String)
    ensures
        r@ == spec_order_type_label(t),
{
    match t {
        OrderType::Limit => String::from_str("Limit"),
        OrderType::Market => String::from_str("Market"),
    }
}

/// A status' display name.
pub open spec fn spec_status_label(s: OrderStatus) -> Seq<char> {
    match s {
        OrderStatus::New => "New"@,
        OrderStatus::PartiallyFilled => "PartiallyFilled"@,
        OrderStatus::Filled => "Filled"@,
        OrderStatus::Cancelled => "Cancelled"@,
    }
}

/// Executable counterpart of [`spec_status_label`].
pub fn status_label(s: OrderStatus) -> (r: String)
    ensures
        r@ == spec_status_label(s),
{
    match s {
        OrderStatus::New => String::from_str("New"),
        OrderStatus::PartiallyFilled => String::from_str("PartiallyFilled"),
        OrderStatus::Filled => String::from_str("Filled"),
        OrderStatus::Cancelled => String::from_str("Cancelled"),
    }
}

/// One side of a book flattened to aggregated wire levels.
pub open spec fn spec_depth_dto(levels: Seq<LevelV>) -> Seq<PriceLevelDto> {
    levels.map_values(
        |l: LevelV|
            PriceLevelDto {
                price: l.price,
                volume: l.total_volume,
                order_count: l.orders.len() as usize,
            },
    )
}

/// One side of the book flattened to aggregated wire levels.
fn depth_dto(levels: &Vec<crate::price_level::PriceLevel>) -> (r: Vec<PriceLevelDto>)
    ensures
        r@ == spec_depth_dto(crate::book::levels_view(levels@)),
{
    let mut out: Vec<PriceLevelDto> = Vec::new();
    let mut i: usize = 0;
    while i < levels.len()
        invariant
            0 <= i <= levels@.len(),
            out@.len() == i,
            forall|j: int|
                0 <= j < i ==> #[trigger] out@[j] == (PriceLevelDto {
                    price: levels@[j]@.price,
                    volume: levels@[j]@.total_volume,
                    order_count: levels@[j]@.orders.len() as usize,
                }),
        decreases levels@.len() - i,
    {
        let l = &levels[i];
        out.push(
            PriceLevelDto { price: l.price, volume: l.total_volume, order_count: l.order_count() },
        );
        i = i + 1;
    }
    proof {
        assert(out@ =~= spec_depth_dto(crate::book::levels_view(levels@)));
    }
    out
}

/// Snapshot one symbol's book into its wire shape at the given time:
/// bids in descending price, asks in ascending price.
pub fn orderbook_to_dto_at(orderbook: &OrderBook, symbol: &str, timestamp: u64) -> (r:
    OrderBookDto)
    ensures
        r@.symbol == symbol@,
        r@.timestamp == timestamp,
        r@.bids == spec_depth_dto(orderbook@.buy.levels),
        r@.asks == spec_depth_dto(orderbook@.sell.levels),
{
    OrderBookDto {
        symbol: String::from_str(symbol),
        timestamp,
        bids: depth_dto(&orderbook.buy_book.limits),
        asks: depth_dto(&orderbook.sell_book.limits),
    }
}

/// Snapshot one symbol's book into its wire shape, stamped with the
/// current wall-clock time.
pub fn orderbook_to_dto(orderbook: &OrderBook, symbol: &str) -> (r: OrderBookDto)
    ensures
        r@.symbol == symbol@,
        r@.bids == spec_depth_dto(orderbook@.buy.levels),
        r@.asks == spec_depth_dto(orderbook@.sell.levels),
{
    let now = crate::clock::unix_now();
    orderbook_to_dto_at(orderbook, symbol, now)
}

/// An order's wire shape, field for field.
pub fn order_to_dto(order: &Order) -> (r: OrderDto)
    ensures
        r.order_id@ == order@.order_id,
        r.symbol@ == order@.symbol,
        r.price == order@.price,
        r.quantity == order@.quantity,
        r.side@ == spec_side_label(order@.side),
        r.order_type@ == spec_order_type_label(order@.order_type),
        r.status@ == spec_status_label(order@.status),
        r.filled_quantity == order@.filled_quantity,
        r.remain_quantity == order@.remain_quantity,
        r.entry_time == order@.entry_time,
{
    OrderDto {
        order_id: order.order_id.clone(),
        symbol: order.symbol.clone(),
        price: order.price,
        quantity: order.quantity,
        side: side_label(order.side),
        order_type: order_type_label(order.order_type),
        status: status_label(order.status),
        filled_quantity: order.filled_quantity,
        remain_quantity: order.remain_quantity,
        entry_time: order.entry_time,
    }
}

/// An execution's wire shape, field for field.
pub fn execution_to_dto(execution: &Execution) -> (r: ExecutionDto)
    ensures
        r.exec_id@ == execution@.exec_id,
        r.order_id@ == execution@.order_id,
        r.symbol@ == execution@.symbol,
        r.side@ == spec_side_label(execution@.side),
        r.price == execution@.price,
        r.quantity == execution@.quantity,
        r.transaction_time == execution@.transaction_time,
{
    ExecutionDto {
        exec_id: execution.exec_id.clone(),
        order_id: execution.order_id.clone(),
        symbol: execution.symbol.clone(),
        side: side_label(execution.side),
        price: execution.price,
        quantity: execution.quantity,
        transaction_time: execution.transaction_time,
    }
}

/// Some level of the list rests at this price.
pub open spec fn contains_price(s: Seq<PriceLevelDto>, p: u64) -> bool {
    exists|i: int| 0 <= i < s.len() && (#[trigger] s[i]).price == p
}

/// The list has a level at this price whose volume differs.
pub open spec fn changed_at(s: Seq<PriceLevelDto>, l: PriceLevelDto) -> bool {
    exists|i: int|
        0 <= i < s.len() && (#[trigger] s[i]).price == l.price && s[i].volume != l.volume
}

/// The levels of `new`, in order, whose price the old snapshot lacks.
pub open spec fn added_levels(new: Seq<PriceLevelDto>, old: Seq<PriceLevelDto>) -> Seq<
    PriceLevelDto,
>
    decreases new.len(),
{
    if new.len() == 0 {
        Seq::empty()
    } else {
        let rest = added_levels(new.drop_first(), old);
        if !contains_price(old, new[0].price) {
            seq![new[0]] + rest
        } else {
            rest
        }
    }
}

/// The levels of `new`, in order, whose price the old snapshot has at a
/// different volume.
pub open spec fn updated_levels(new: Seq<PriceLevelDto>, old: Seq<PriceLevelDto>) -> Seq<
    PriceLevelDto,
>
    decreases new.len(),
{
    if new.len() == 0 {
        Seq::empty()
    } else {
        let rest = updated_levels(new.drop_first(), old);
        if changed_at(old, new[0]) {
            seq![new[0]] + rest
        } else {
            rest
        }
    }
}

/// The prices of `old`, in order, that the new snapshot no longer has.
pub open spec fn removed_prices(old: Seq<PriceLevelDto>, new: Seq<PriceLevelDto>) -> Seq<u64>
    decreases old.len(),
{
    if old.len() == 0 {
        Seq::empty()
    } else {
        let rest = removed_prices(old.drop_first(), new);
        if !contains_price(new, old[0].price) {
            seq![old[0].price] + rest
        } else {
            rest
        }
    }
}

/// [`added_levels`] over a longer prefix of `new`.
proof fn lemma_added_take(new: Seq<PriceLevelDto>, old: Seq<PriceLevelDto>, i: int)
    requires
        0 <= i < new.len(),
    ensures
        added_levels(new.take(i + 1), old) == (if !contains_price(old, new[i].price) {
            added_levels(new.take(i), old).push(new[i])
        } else {
            added_levels(new.take(i), old)
        }),
    decreases i,
{
    if i == 0 {
        assert(new.take(1) =~= seq![new[0]]);
        assert(new.take(1).drop_first() =~= Seq::<PriceLevelDto>::empty());
        assert(new.take(0) =~= Seq::<PriceLevelDto>::empty());
        assert(added_levels(new.take(1).drop_first(), old) =~= Seq::<PriceLevelDto>::empty());
        assert(added_levels(new.take(0), old) =~= Seq::<PriceLevelDto>::empty());
        if !contains_price(old, new[0].price) {
            assert(added_levels(new.take(1), old) =~= Seq::<PriceLevelDto>::empty().push(new[0]));
        }
    } else {
        lemma_added_take(new.drop_first(), old, i - 1);
        assert(new.take(i + 1).drop_first() =~= new.drop_first().take(i));
        assert(new.take(i).drop_first() =~= new.drop_first().take(i - 1));
        assert(new.drop_first()[i - 1] == new[i]);
        if !contains_price(old, new[0].price) {
            assert(added_levels(new.take(i + 1), old) == seq![new[0]] + added_levels(
                new.drop_first().take(i),
                old,
            ));
            if !contains_price(old, new[i].price) {
                assert(seq![new[0]] + added_levels(new.drop_first().take(i - 1), old).push(
                    new[i],
                ) =~= (seq![new[0]] + added_levels(new.drop_first().take(i - 1), old)).push(
                    new[i],
                ));
            }
        } else {
            assert(added_levels(new.take(i + 1), old) == added_levels(
                new.drop_first().take(i),
                old,
            ));
        }
    }
}

/// [`updated_levels`] over a longer prefix of `new`.
proof fn lemma_updated_take(new: Seq<PriceLevelDto>, old: Seq<PriceLevelDto>, i: int)
    requires
        0 <= i < new.len(),
    ensures
        updated_levels(new.take(i + 1), old) == (if changed_at(old, new[i]) {
            updated_levels(new.take(i), old).push(new[i])
        } else {
            updated_levels(new.take(i), old)
        }),
    decreases i,
{
    if i == 0 {
        assert(new.take(1) =~= seq![new[0]]);
        assert(new.take(1).drop_first() =~= Seq::<PriceLevelDto>::empty());
        assert(new.take(0) =~= Seq::<PriceLevelDto>::empty());
        assert(updated_levels(new.take(1).drop_first(), old) =~= Seq::<PriceLevelDto>::empty());
        assert(updated_levels(new.take(0), old) =~= Seq::<PriceLevelDto>::empty());
        if changed_at(old, new[0]) {
            assert(updated_levels(new.take(1), old) =~= Seq::<PriceLevelDto>::empty().push(
                new[0],
            ));
        }
    } else {
        lemma_updated_take(new.drop_first(), old, i - 1);
        assert(new.take(i + 1).drop_first() =~= new.drop_first().take(i));
        assert(new.take(i).drop_first() =~= new.drop_first().take(i - 1));
        assert(new.drop_first()[i - 1] == new[i]);
        if changed_at(old, new[0]) {
            if changed_at(old, new[i]) {
                assert(seq![new[0]] + updated_levels(new.drop_first().take(i - 1), old).push(
                    new[i],
                ) =~= (seq![new[0]] + updated_levels(new.drop_first().take(i - 1), old)).push(
                    new[i],
                ));
            }
        }
    }
}

/// [`removed_prices`] over a longer prefix of `old`.
proof fn lemma_removed_take(old: Seq<PriceLevelDto>, new: Seq<PriceLevelDto>, i: int)
    requires
        0 <= i < old.len(),
    ensures
        removed_prices(old.take(i + 1), new) == (if !contains_price(new, old[i].price) {
            removed_prices(old.take(i), new).push(old[i].price)
        } else {
            removed_prices(old.take(i), new)
        }),
    decreases i,
{
    if i == 0 {
        assert(old.take(1) =~= seq![old[0]]);
        assert(old.take(1).drop_first() =~= Seq::<PriceLevelDto>::empty());
        assert(old.take(0) =~= Seq::<PriceLevelDto>::empty());
        assert(removed_prices(old.take(1).drop_first(), new) =~= Seq::<u64>::empty());
        assert(removed_prices(old.take(0), new) =~= Seq::<u64>::empty());
        if !contains_price(new, old[0].price) {
            assert(removed_prices(old.take(1), new) =~= Seq::<u64>::empty().push(old[0].price));
        }
    } else {
        lemma_removed_take(old.drop_first(), new, i - 1);
        assert(old.take(i + 1).drop_first() =~= old.drop_first().take(i));
        assert(old.take(i).drop_first() =~= old.drop_first().take(i - 1));
        assert(old.drop_first()[i - 1] == old[i]);
        if !contains_price(new, old[0].price) {
            if !contains_price(new, old[i].price) {
                assert(seq![old[0].price] + removed_prices(old.drop_first().take(i - 1), new).push(
                    old[i].price,
                ) =~= (seq![old[0].price] + removed_prices(old.drop_first().take(i - 1), new)).push(
                    old[i].price,
                ));
            }
        }
    }
}

/// Whether some level of the list rests at this price.
fn contains_price_exec(list: &Vec<PriceLevelDto>, p: u64) -> (r: bool)
    ensures
        r == contains_price(list@, p),
{
    let mut i: usize = 0;
    while i < list.len()
        invariant
            0 <= i <= list@.len(),
            forall|j: int| 0 <= j < i ==> (#[trigger] list@[j]).price != p,
        decreases list@.len() - i,
    {
        if list[i].price == p {
            return true;
        }
        i = i + 1;
    }
    false
}

/// Whether the list has a level at this price with another volume.
fn changed_at_exec(list: &Vec<PriceLevelDto>, l: PriceLevelDto) -> (r: bool)
    ensures
        r == changed_at(list@, l),
{
    let mut i: usize = 0;
    while i < list.len()
        invariant
            0 <= i <= list@.len(),
            forall|j: int|
                0 <= j < i ==> !((#[trigger] list@[j]).price == l.price && list@[j].volume
                    != l.volume),
        decreases list@.len() - i,
    {
        if list[i].price == l.price && list[i].volume != l.volume {
            return true;
        }
        i = i + 1;
    }
    false
}

/// The differences between two snapshots of one side.
struct SideDelta {
    added: Vec<PriceLevelDto>,
    updated: Vec<PriceLevelDto>,
    removed: Vec<u64>,
}

/// One side's delta: levels with new prices, levels with changed volumes,
/// and prices that disappeared.
fn side_delta(old_side: &Vec<PriceLevelDto>, new_side: &Vec<PriceLevelDto>) -> (r: SideDelta)
    ensures
        r.added@ == added_levels(new_side@, old_side@),
        r.updated@ == updated_levels(new_side@, old_side@),
        r.removed@ == removed_prices(old_side@, new_side@),
{
    let mut added: Vec<PriceLevelDto> = Vec::new();
    let mut updated: Vec<PriceLevelDto> = Vec::new();
    let mut i: usize = 0;
    proof {
        assert(new_side@.take(0) =~= Seq::<PriceLevelDto>::empty());
    }
    while i < new_side.len()
        invariant
            0 <= i <= new_side@.len(),
            added@ == added_levels(new_side@.take(i as int), old_side@),
            updated@ == updated_levels(new_side@.take(i as int), old_side@),
        decreases new_side@.len() - i,
    {
        let l = new_side[i];
        proof {
            lemma_added_take(new_side@, old_side@, i as int);
            lemma_updated_take(new_side@, old_side@, i as int);
        }
        if !contains_price_exec(old_side, l.price) {
            added.push(l);
        } else if changed_at_exec(old_side, l) {
            updated.push(l);
        }
        i = i + 1;
    }
    proof {
        assert(new_side@.take(new_side@.len() as int) =~= new_side@);
    }
    let mut removed: Vec<u64> = Vec::new();
    let mut j: usize = 0;
    proof {
        assert(old_side@.take(0) =~= Seq::<PriceLevelDto>::empty());
    }
    while j < old_side.len()
        invariant
            0 <= j <= old_side@.len(),
            removed@ == removed_prices(old_side@.take(j as int), new_side@),
        decreases old_side@.len() - j,
    {
        let l = old_side[j];
        proof {
            lemma_removed_take(old_side@, new_side@, j as int);
        }
        if !contains_price_exec(new_side, l.price) {
            removed.push(l.price);
        }
        j = j + 1;
    }
    proof {
        assert(old_side@.take(old_side@.len() as int) =~= old_side@);
    }
    SideDelta { added, updated, removed }
}

/// The difference between two book snapshots, ready for encoding.
#[derive(Debug)]
pub struct OrderBookDelta {
    pub symbol: String,
    pub timestamp: u64,
    pub added_bids: Vec<PriceLevelDto>,
    pub updated_bids: Vec<PriceLevelDto>,
    pub removed_bids: Vec<u64>,
    pub added_asks: Vec<PriceLevelDto>,
    pub updated_asks: Vec<PriceLevelDto>,
    pub removed_asks: Vec<u64>,
}

/// Compare two snapshots of one symbol's book level by level: a level is
/// added when its price is new, updated when its price stands in both
/// snapshots with a different volume, and removed when its price is gone.
/// Added and updated levels come in the new snapshot's order, removed
/// prices in the old snapshot's order.
pub fn calculate_orderbook_delta(old_book: &OrderBookDto, new_book: &OrderBookDto) -> (r:
    OrderBookDelta)
    ensures
        r.symbol@ == new_book@.symbol,
        r.timestamp == new_book@.timestamp,
        r.added_bids@ == added_levels(new_book@.bids, old_book@.bids),
        r.updated_bids@ == updated_levels(new_book@.bids, old_book@.bids),
        r.removed_bids@ == removed_prices(old_book@.bids, new_book@.bids),
        r.added_asks@ == added_levels(new_book@.asks, old_book@.asks),
        r.updated_asks@ == updated_levels(new_book@.asks, old_book@.asks),
        r.removed_asks@ == removed_prices(old_book@.asks, new_book@.asks),
{
    let bids = side_delta(&old_book.bids, &new_book.bids);
    let asks = side_delta(&old_book.asks, &new_book.asks);
    OrderBookDelta {
        symbol: new_book.symbol.clone(),
        timestamp: new_book.timestamp,
        added_bids: bids.added,
        updated_bids: bids.updated,
        removed_bids: bids.removed,
        added_asks: asks.added,
        updated_asks: asks.updated,
        removed_asks: asks.removed,
    }
}

} // verus!
