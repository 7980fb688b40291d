//! The matching algorithm: an admitted order walks the opposite side book
//! under price-time priority, best price first and FIFO within a price
//! level, producing one pair of executions per match step.  Trades print at
//! the resting order's price, so price improvement goes to the aggressor.

use vstd::prelude::*;

use crate::models::{Order, OrderV, OrderStatus, OrderType, Side, Execution, ExecutionV, spec_price_before};
use crate::price_level::LevelV;
use crate::book::{Book, levels_view, insert_levels};
use crate::order_book::{OrderBook, EntryV, entries_view, index_find, index_has, valid_pos};
use crate::spec_min_u64;

verus! {

/// A maker price crosses the aggressor's bound.  Market orders carry no
/// bound and cross everything.
pub open spec fn crosses(aggr_side: Side, limit: Option<u64>, maker_price: u64) -> bool {
    match limit {
        None => true,
        Some(p) => match aggr_side {
            Side::Buy => maker_price <= p,
            Side::Sell => maker_price >= p,
        },
    }
}

/// One fill: which maker was hit, at what price, for how much.
pub ghost struct FillV {
    pub maker: OrderV,
    pub price: u64,
    pub qty: u64,
}

/// The maker's state after `m` units have been taken from it.
pub open spec fn maker_after(head: OrderV, m: u64) -> OrderV {
    OrderV {
        remain_quantity: (head.remain_quantity - m) as u64,
        filled_quantity: (head.filled_quantity + m) as u64,
        status: if m == head.remain_quantity {
            OrderStatus::Filled
        } else {
            OrderStatus::PartiallyFilled
        },
        ..head
    }
}

/// The fill one match step produces against the front of the book.
pub open spec fn step_fill(levels: Seq<LevelV>, qty: u64) -> FillV
    recommends
        levels.len() > 0,
        levels[0].orders.len() > 0,
{
    FillV {
        maker: levels[0].orders[0],
        price: levels[0].price,
        qty: spec_min_u64(levels[0].orders[0].remain_quantity, qty),
    }
}

/// The book's levels after one match step against its front order: the
/// head order is reduced by `m = min(head.remaining, qty)`; a head left at
/// zero is popped, and a level left empty is dropped.
pub open spec fn step_shape(levels: Seq<LevelV>, qty: u64) -> Seq<LevelV>
    recommends
        levels.len() > 0,
        levels[0].orders.len() > 0,
{
    let l0 = levels[0];
    let head = l0.orders[0];
    let m = spec_min_u64(head.remain_quantity, qty);
    if m == head.remain_quantity {
        let lvl = LevelV {
            price: l0.price,
            total_volume: (l0.total_volume - m) as u64,
            orders: l0.orders.drop_first(),
        };
        if lvl.orders.len() == 0 {
            levels.drop_first()
        } else {
            seq![lvl] + levels.drop_first()
        }
    } else {
        let lvl = LevelV {
            price: l0.price,
            total_volume: (l0.total_volume - m) as u64,
            orders: l0.orders.update(0, maker_after(head, m)),
        };
        seq![lvl] + levels.drop_first()
    }
}

/// The complete walk of the opposite book by an aggressor of side
/// `aggr_side` bounded by `limit` with `qty` units to trade: the fills in
/// the order they happen, the levels left behind, and the unfilled
/// remainder.
pub open spec fn match_book(
    levels: Seq<LevelV>,
    aggr_side: Side,
    limit: Option<u64>,
    qty: u64,
) -> (Seq<FillV>, Seq<LevelV>, u64)
    decreases levels.len(), (if levels.len() == 0 {
        0int
    } else {
        levels[0].orders.len() as int
    }), qty,
{
    if qty == 0 || levels.len() == 0 || !crosses(aggr_side, limit, levels[0].price) {
        (Seq::empty(), levels, qty)
    } else if levels[0].orders.len() == 0 {
        match_book(levels.drop_first(), aggr_side, limit, qty)
    } else {
        let fill = step_fill(levels, qty);
        let sub = match_book(step_shape(levels, qty), aggr_side, limit, (qty - fill.qty) as u64);
        (seq![fill] + sub.0, sub.1, sub.2)
    }
}

/// Sum of the quantities of a sequence of fills.
pub open spec fn sum_fill_qty(fills: Seq<FillV>) -> int
    decreases fills.len(),
{
    if fills.len() == 0 {
        0
    } else {
        fills[0].qty + sum_fill_qty(fills.drop_first())
    }
}

/// Ids of the makers that a sequence of fills consumed completely.
pub open spec fn consumed_ids(fills: Seq<FillV>) -> Set<Seq<char>> {
    Set::new(
        |id: Seq<char>|
            exists|i: int|
                0 <= i < fills.len() && (#[trigger] fills[i]).qty == fills[i].maker.remain_quantity
                    && fills[i].maker.order_id == id,
    )
}

/// The pair of trade prints one fill produces: first the aggressor's
/// execution, then the maker's, both at the maker's resting price, with the
/// same quantity and the same transaction time.  Execution ids are
/// server-assigned and not constrained here.
pub open spec fn exec_pair_ok(
    x1: ExecutionV,
    x2: ExecutionV,
    f: FillV,
    aggr: OrderV,
    now: u64,
) -> bool {
    &&& x1.order_id == aggr.order_id
    &&& x1.symbol == aggr.symbol
    &&& x1.side == aggr.side
    &&& x2.order_id == f.maker.order_id
    &&& x2.symbol == f.maker.symbol
    &&& x2.side == aggr.side.spec_opposite()
    &&& x1.price == f.price
    &&& x2.price == f.price
    &&& x1.quantity == f.qty
    &&& x2.quantity == f.qty
    &&& x1.transaction_time == now
    &&& x2.transaction_time == now
}

/// View of a sequence of executions.
pub open spec fn execs_view(s: Seq<Execution>) -> Seq<ExecutionV> {
    s.map_values(|e: Execution| e@)
}

/// Executable counterpart of [`crosses`].
pub fn crosses_exec(aggr_side: Side, limit: Option<u64>, maker_price: u64) -> (r: bool)
    ensures
        r == crosses(aggr_side, limit, maker_price),
{
    match limit {
        None => true,
        Some(p) => match aggr_side {
            Side::Buy => maker_price <= p,
            Side::Sell => maker_price >= p,
        },
    }
}

impl Book {
    /// Whether the front of this book crosses the aggressor's bound.
    pub fn front_crosses(&self, aggr_side: Side, limit: Option<u64>) -> (r: bool)
        requires
            self@.wf(),
        ensures
            r == (self@.levels.len() > 0 && crosses(aggr_side, limit, self@.levels[0].price)),
    {
        if self.limits.len() == 0 {
            false
        } else {
            crosses_exec(aggr_side, limit, self.limits[0].price)
        }
    }

    /// One match step against the front order of this book: reduce it by
    /// `min(front.remaining, qty)`, pop it when exhausted, drop its level
    /// when emptied, and refresh the cached best price.  Returns the maker
    /// as of after the step and the matched quantity.
    pub fn match_step(&mut self, qty: u64) -> (r: (Order, u64))
        requires
            old(self)@.wf(),
            old(self)@.levels.len() > 0,
            qty >= 1,
        ensures
            final(self)@.side == old(self)@.side,
            final(self)@.wf(),
            r.0@ == maker_after(old(self)@.levels[0].orders[0], r.1),
            r.1 == step_fill(old(self)@.levels, qty).qty,
            final(self)@.levels == step_shape(old(self)@.levels, qty),
    {
        let ghost pre = self@.levels;
        let ghost side = self@.side;
        let mut level = self.limits.remove(0);
        let r = level.match_order(qty).unwrap();
        let ghost stepped = level@;
        if level.is_empty() {
            proof {
                assert(levels_view(self.limits@) =~= pre.drop_first());
            }
        } else {
            self.limits.insert(0, level);
            proof {
                assert(levels_view(self.limits@) =~= seq![stepped] + pre.drop_first());
            }
        }
        if self.limits.len() > 0 {
            self.best_level = Some(self.limits[0].price);
        } else {
            self.best_level = None;
        }
        proof {
            let postlv = self@.levels;
            assert(postlv == step_shape(pre, qty));
            assert forall|a: int, b: int| 0 <= a < b < postlv.len() implies
                crate::models::spec_price_before(side, postlv[a].price, postlv[b].price) by {
                if postlv.len() == pre.len() {
                    assert(postlv[a].price == pre[a].price && postlv[b].price == pre[b].price);
                } else {
                    assert(postlv[a] == pre[a + 1] && postlv[b] == pre[b + 1]);
                }
            }
            assert(final(self)@.wf());
        }
        r
    }
}

/// Pointwise uniqueness and lookups after removing index entry `k`.
pub proof fn lemma_index_remove_pointwise(pre: Seq<EntryV>, k: int)
    requires
        0 <= k < pre.len(),
        forall|k1: int, k2: int|
            0 <= k1 < k2 < pre.len() ==> (#[trigger] pre[k1]).order_id != (
            #[trigger] pre[k2]).order_id,
    ensures
        forall|k1: int, k2: int|
            0 <= k1 < k2 < pre.remove(k).len() ==> (#[trigger] pre.remove(k)[k1]).order_id != (
            #[trigger] pre.remove(k)[k2]).order_id,
        !index_has(pre.remove(k), pre[k].order_id),
        forall|id2: Seq<char>|
            id2 != pre[k].order_id ==> #[trigger] index_find(pre.remove(k), id2) == index_find(
                pre,
                id2,
            ),
{
    let post = pre.remove(k);
    assert forall|k1: int, k2: int| 0 <= k1 < k2 < post.len() implies (
    #[trigger] post[k1]).order_id != (#[trigger] post[k2]).order_id by {
        let a0: int = if k1 < k { k1 } else { k1 + 1 };
        let b0: int = if k2 < k { k2 } else { k2 + 1 };
        assert(post[k1] == pre[a0]);
        assert(post[k2] == pre[b0]);
    }
    crate::order_book::lemma_index_find_remove(pre, k, pre[k].order_id);
    assert forall|id2: Seq<char>| id2 != pre[k].order_id implies #[trigger] index_find(post, id2)
        == index_find(pre, id2) by {
        crate::order_book::lemma_index_find_remove(pre, k, id2);
    }
}

/// Drop the index entry carrying the given id, if one exists.
fn remove_entry(order_map: &mut Vec<crate::order_book::IndexEntry>, order_id: &String)
    requires
        forall|k1: int, k2: int|
            0 <= k1 < k2 < entries_view(old(order_map)@).len() ==> (#[trigger] entries_view(
                old(order_map)@,
            )[k1]).order_id != (#[trigger] entries_view(old(order_map)@)[k2]).order_id,
    ensures
        forall|k1: int, k2: int|
            0 <= k1 < k2 < entries_view(final(order_map)@).len() ==> (#[trigger] entries_view(
                final(order_map)@,
            )[k1]).order_id != (#[trigger] entries_view(final(order_map)@)[k2]).order_id,
        !index_has(entries_view(final(order_map)@), order_id@),
        forall|id2: Seq<char>|
            id2 != order_id@ ==> #[trigger] index_find(entries_view(final(order_map)@), id2)
                == index_find(entries_view(old(order_map)@), id2),
        (exists|k: int|
            0 <= k < entries_view(old(order_map)@).len() && (#[trigger] entries_view(
                old(order_map)@,
            )[k]).order_id == order_id@ && entries_view(final(order_map)@) == entries_view(
                old(order_map)@,
            ).remove(k)) || entries_view(final(order_map)@) == entries_view(old(order_map)@),
{
    let ghost pre = entries_view(order_map@);
    let mut k: usize = 0;
    while k < order_map.len()
        invariant
            0 <= k <= pre.len(),
            pre == entries_view(old(order_map)@),
            entries_view(order_map@) == pre,
            order_map@ == old(order_map)@,
            forall|j: int| 0 <= j < k ==> (#[trigger] pre[j]).order_id != order_id@,
            forall|k1: int, k2: int|
                0 <= k1 < k2 < pre.len() ==> (#[trigger] pre[k1]).order_id != (
                #[trigger] pre[k2]).order_id,
        decreases pre.len() - k,
    {
        if order_map[k].order_id == *order_id {
            order_map.remove(k);
            proof {
                assert(entries_view(order_map@) =~= pre.remove(k as int));
                lemma_index_remove_pointwise(pre, k as int);
                crate::order_book::lemma_index_find_none(entries_view(order_map@), order_id@);
                assert(index_find(pre.remove(k as int), order_id@) is None);
            }
            return ;
        }
        k = k + 1;
    }
    proof {
        crate::order_book::lemma_index_find_none(pre, order_id@);
    }
}

/// Consuming one more fill extends the consumed-id set by the maker's id
/// exactly when the fill took the maker's whole remainder.
pub proof fn lemma_consumed_push(fills: Seq<FillV>, f: FillV)
    ensures
        consumed_ids(fills.push(f)) == (if f.qty == f.maker.remain_quantity {
            consumed_ids(fills).insert(f.maker.order_id)
        } else {
            consumed_ids(fills)
        }),
{
    let post = consumed_ids(fills.push(f));
    let pre = consumed_ids(fills);
    assert forall|id: Seq<char>| post.contains(id) implies (if f.qty == f.maker.remain_quantity {
        pre.insert(f.maker.order_id)
    } else {
        pre
    }).contains(id) by {
        let i = choose|i: int|
            0 <= i < fills.push(f).len() && (#[trigger] fills.push(f)[i]).qty == fills.push(f)[
                i
            ].maker.remain_quantity && fills.push(f)[i].maker.order_id == id;
        if i < fills.len() {
            assert(fills.push(f)[i] == fills[i]);
            assert(pre.contains(id));
        }
    }
    assert forall|id: Seq<char>| (if f.qty == f.maker.remain_quantity {
        pre.insert(f.maker.order_id)
    } else {
        pre
    }).contains(id) implies post.contains(id) by {
        if pre.contains(id) {
            let i = choose|i: int|
                0 <= i < fills.len() && (#[trigger] fills[i]).qty == fills[i].maker.remain_quantity
                    && fills[i].maker.order_id == id;
            assert(fills.push(f)[i] == fills[i]);
        } else {
            assert(f.qty == f.maker.remain_quantity && id == f.maker.order_id);
            assert(fills.push(f)[fills.len() as int] == f);
        }
    }
    assert(post =~= (if f.qty == f.maker.remain_quantity {
        pre.insert(f.maker.order_id)
    } else {
        pre
    }));
}

/// The relation between the order book before and after one engine match
/// step: the front order of the opposite book was reduced, the aggressor's
/// own book is untouched, and the consumed maker's index entry (if the
/// maker was consumed) is gone.
pub open spec fn engine_step_shape(
    pre: crate::order_book::OrderBookV,
    post: crate::order_book::OrderBookV,
    aggr_side: Side,
    qty: u64,
) -> bool {
    let opp = aggr_side.spec_opposite();
    let head = pre.book_of(opp).levels[0].orders[0];
    let m = spec_min_u64(head.remain_quantity, qty);
    &&& pre.book_of(opp).levels.len() > 0
    &&& pre.book_of(opp).levels[0].orders.len() > 0
    &&& post.book_of(opp).levels == step_shape(pre.book_of(opp).levels, qty)
    &&& post.book_of(aggr_side) == pre.book_of(aggr_side)
    &&& post.buy.side == Side::Buy
    &&& post.sell.side == Side::Sell
    &&& post.buy.wf()
    &&& post.sell.wf()
    &&& (if m == head.remain_quantity {
        &&& !index_has(post.index, head.order_id)
        &&& (forall|id2: Seq<char>|
            id2 != head.order_id ==> #[trigger] index_find(post.index, id2) == index_find(
                pre.index,
                id2,
            ))
        &&& (forall|k1: int, k2: int|
            0 <= k1 < k2 < post.index.len() ==> (#[trigger] post.index[k1]).order_id != (
            #[trigger] post.index[k2]).order_id)
        &&& ((exists|k: int|
            0 <= k < pre.index.len() && (#[trigger] pre.index[k]).order_id == head.order_id
                && post.index == pre.index.remove(k)) || post.index == pre.index)
    } else {
        post.index == pre.index
    })
}

/// One engine match step preserves the order-book invariant and cannot
/// introduce an order id that was absent.
#[verifier::rlimit(80)]
pub proof fn lemma_engine_step_wf(
    pre: crate::order_book::OrderBookV,
    post: crate::order_book::OrderBookV,
    aggr_side: Side,
    qty: u64,
    fresh_id: Seq<char>,
)
    requires
        pre.wf(),
        qty >= 1,
        engine_step_shape(pre, post, aggr_side, qty),
        !pre.buy.has_order_id(fresh_id),
        !pre.sell.has_order_id(fresh_id),
    ensures
        post.wf(),
        !post.buy.has_order_id(fresh_id),
        !post.sell.has_order_id(fresh_id),
{
    let opp = aggr_side.spec_opposite();
    let prelv = pre.book_of(opp).levels;
    let postlv = post.book_of(opp).levels;
    let head = prelv[0].orders[0];
    let m = spec_min_u64(head.remain_quantity, qty);
    // how each surviving order of the stepped book maps back
    assert forall|lj: int, oj: int| #![trigger postlv[lj].orders[oj]]
        valid_pos(postlv, lj, oj) implies exists|lj0: int, oj0: int|
        valid_pos(prelv, lj0, oj0) && postlv[lj].price == prelv[lj0].price && postlv[lj].orders[
            oj
        ].order_id == (#[trigger] prelv[lj0].orders[oj0]).order_id && postlv[lj].orders[
            oj
        ].entry_time == prelv[lj0].orders[oj0].entry_time by {
        if m == head.remain_quantity {
            if prelv[0].orders.len() == 1 {
                assert(postlv =~= prelv.drop_first());
                assert(postlv[lj] == prelv[lj + 1]);
                assert(valid_pos(prelv, lj + 1, oj));
                assert(prelv[lj + 1].orders[oj].order_id == postlv[lj].orders[oj].order_id);
            } else {
                if lj == 0 {
                    assert(postlv[0].orders == prelv[0].orders.drop_first());
                    assert(valid_pos(prelv, 0, oj + 1));
                    assert(prelv[0].orders[oj + 1] == postlv[0].orders[oj]);
                } else {
                    assert(postlv[lj] == prelv[lj]);
                    assert(valid_pos(prelv, lj, oj));
                    assert(prelv[lj].orders[oj] == postlv[lj].orders[oj]);
                }
            }
        } else {
            if lj == 0 {
                if oj == 0 {
                    assert(postlv[0].orders[0] == maker_after(head, m));
                    assert(valid_pos(prelv, 0, 0));
                    assert(prelv[0].orders[0].order_id == postlv[0].orders[0].order_id);
                } else {
                    assert(postlv[0].orders[oj] == prelv[0].orders[oj]);
                    assert(valid_pos(prelv, 0, oj));
                    assert(prelv[0].orders[oj] == postlv[0].orders[oj]);
                }
            } else {
                assert(postlv[lj] == prelv[lj]);
                assert(valid_pos(prelv, lj, oj));
                assert(prelv[lj].orders[oj] == postlv[lj].orders[oj]);
            }
        }
    }
    // no_cross
    assert forall|i: int, j: int|
        0 <= i < post.buy.levels.len() && 0 <= j < post.sell.levels.len() implies (
    #[trigger] post.buy.levels[i]).price < (#[trigger] post.sell.levels[j]).price by {
        match opp {
            Side::Buy => {
                assert(post.sell.levels[j] == pre.sell.levels[j]);
                if postlv.len() == prelv.len() {
                    assert(postlv[i].price == prelv[i].price);
                } else {
                    assert(postlv[i] == prelv[i + 1]);
                }
            },
            Side::Sell => {
                assert(post.buy.levels[i] == pre.buy.levels[i]);
                if postlv.len() == prelv.len() {
                    assert(postlv[j].price == prelv[j].price);
                } else {
                    assert(postlv[j] == prelv[j + 1]);
                }
            },
        }
    }
    // ids distinct within each level
    assert forall|li: int, a: int, b: int|
        0 <= li < post.buy.levels.len() && 0 <= a < b < post.buy.levels[li].orders.len() implies (
    #[trigger] post.buy.levels[li].orders[a]).order_id != (#[trigger] post.buy.levels[li].orders[
        b
    ]).order_id by {
        if opp == Side::Buy {
            lemma_step_distinct_level(prelv, postlv, qty, li, a, b);
        }
    }
    assert forall|li: int, a: int, b: int|
        0 <= li < post.sell.levels.len() && 0 <= a < b < post.sell.levels[li].orders.len() implies (
    #[trigger] post.sell.levels[li].orders[a]).order_id != (#[trigger] post.sell.levels[li].orders[
        b
    ]).order_id by {
        if opp == Side::Sell {
            lemma_step_distinct_level(prelv, postlv, qty, li, a, b);
        }
    }
    // index soundness
    assert forall|k2: int| 0 <= k2 < post.index.len() implies post.entry_valid(
        #[trigger] post.index[k2],
    ) by {
        lemma_engine_step_sound(pre, post, aggr_side, qty, k2);
    }
    lemma_engine_step_complete(pre, post, aggr_side, qty);
    // the fresh id is still absent from both books
    if post.book_of(opp).has_order_id(fresh_id) {
        let (lj, oj) = choose|lj: int, oj: int|
            0 <= lj < postlv.len() && 0 <= oj < postlv[lj].orders.len() && (
            #[trigger] postlv[lj].orders[oj]).order_id == fresh_id;
        let (lj0, oj0) = choose|lj0: int, oj0: int|
            valid_pos(prelv, lj0, oj0) && postlv[lj].price == prelv[lj0].price && postlv[lj].orders[
                oj
            ].order_id == (#[trigger] prelv[lj0].orders[oj0]).order_id && postlv[lj].orders[
                oj
            ].entry_time == prelv[lj0].orders[oj0].entry_time;
        assert(pre.book_of(opp).has_order_id(fresh_id));
    }
}

/// Ids stay distinct within each level across one match step.
proof fn lemma_step_distinct_level(
    prelv: Seq<LevelV>,
    postlv: Seq<LevelV>,
    qty: u64,
    li: int,
    a: int,
    b: int,
)
    requires
        prelv.len() > 0,
        prelv[0].orders.len() > 0,
        postlv == step_shape(prelv, qty),
        forall|l0: int, a0: int, b0: int|
            0 <= l0 < prelv.len() && 0 <= a0 < b0 < prelv[l0].orders.len() ==> (
            #[trigger] prelv[l0].orders[a0]).order_id != (#[trigger] prelv[l0].orders[
                b0
            ]).order_id,
        0 <= li < postlv.len(),
        0 <= a < b < postlv[li].orders.len(),
    ensures
        postlv[li].orders[a].order_id != postlv[li].orders[b].order_id,
{
    let head = prelv[0].orders[0];
    let m = spec_min_u64(head.remain_quantity, qty);
    if m == head.remain_quantity {
        if prelv[0].orders.len() == 1 {
            assert(postlv =~= prelv.drop_first());
            assert(postlv[li] == prelv[li + 1]);
        } else {
            if li == 0 {
                assert(postlv[0].orders == prelv[0].orders.drop_first());
                assert(postlv[0].orders[a] == prelv[0].orders[a + 1]);
                assert(postlv[0].orders[b] == prelv[0].orders[b + 1]);
            } else {
                assert(postlv[li] == prelv[li]);
            }
        }
    } else {
        if li == 0 {
            let q = prelv[0].orders.update(0, maker_after(head, m));
            assert(q[a].order_id == prelv[0].orders[a].order_id);
            assert(q[b].order_id == prelv[0].orders[b].order_id);
        } else {
            assert(postlv[li] == prelv[li]);
        }
    }
}

/// Each index entry remaining after one match step still references a
/// resting order.
proof fn lemma_engine_step_sound(
    pre: crate::order_book::OrderBookV,
    post: crate::order_book::OrderBookV,
    aggr_side: Side,
    qty: u64,
    k2: int,
)
    requires
        pre.wf(),
        qty >= 1,
        engine_step_shape(pre, post, aggr_side, qty),
        0 <= k2 < post.index.len(),
    ensures
        post.entry_valid(post.index[k2]),
{
    let opp = aggr_side.spec_opposite();
    let prelv = pre.book_of(opp).levels;
    let postlv = post.book_of(opp).levels;
    let head = prelv[0].orders[0];
    let m = spec_min_u64(head.remain_quantity, qty);
    let e2 = post.index[k2];
    // the entry was already in the old index
    if m == head.remain_quantity {
        if post.index == pre.index {
            assert(pre.entry_valid(e2));
        } else {
            let k = choose|k: int|
                0 <= k < pre.index.len() && (#[trigger] pre.index[k]).order_id == head.order_id
                    && post.index == pre.index.remove(k);
            let k0: int = if k2 < k { k2 } else { k2 + 1 };
            assert(pre.index.remove(k)[k2] == pre.index[k0]);
            assert(pre.entry_valid(e2));
            assert(e2.order_id != head.order_id) by {
                if k0 != k {
                    assert(pre.index[k].order_id == head.order_id);
                }
            }
        }
    } else {
        assert(pre.entry_valid(e2));
    }
    if e2.side != opp {
        assert(post.book_of(e2.side) == pre.book_of(e2.side));
    } else {
        let (lj, oj) = choose|lj: int, oj: int|
            #![trigger prelv[lj].orders[oj]]
            0 <= lj < prelv.len() && 0 <= oj < prelv[lj].orders.len() && prelv[lj].price
                == e2.price && prelv[lj].orders[oj].order_id == e2.order_id;
        if m == head.remain_quantity {
            // the consumed maker's entry is gone, so e2 is someone else
            assert(e2.order_id != head.order_id) by {
                if post.index == pre.index {
                    // no entry carried the consumed maker's id at all
                    if index_has(pre.index, head.order_id) {
                        crate::order_book::lemma_index_find_some(pre.index, head.order_id);
                        let kx = choose|kx: int|
                            0 <= kx < pre.index.len() && #[trigger] pre.index[kx] == index_find(
                                pre.index,
                                head.order_id,
                            )->Some_0 && pre.index[kx].order_id == head.order_id;
                        assert(!index_has(post.index, head.order_id));
                        crate::order_book::lemma_index_find_none(post.index, head.order_id);
                        assert(post.index[kx].order_id != head.order_id);
                    } else {
                        crate::order_book::lemma_index_find_none(pre.index, head.order_id);
                        assert(pre.index[k2].order_id != head.order_id);
                    }
                }
            }
            if prelv[0].orders.len() == 1 {
                assert(postlv =~= prelv.drop_first());
                if lj == 0 {
                    assert(oj == 0);
                    assert(prelv[0].orders[0].order_id == e2.order_id);
                    assert(false);
                } else {
                    assert(postlv[lj - 1] == prelv[lj]);
                    assert(postlv[lj - 1].orders[oj].order_id == e2.order_id);
                    assert(post.book_of(e2.side).has_order_at(e2.price, e2.order_id));
                }
            } else {
                if lj == 0 {
                    assert(oj != 0);
                    assert(postlv[0].orders == prelv[0].orders.drop_first());
                    assert(postlv[0].orders[oj - 1] == prelv[0].orders[oj]);
                    assert(postlv[0].price == e2.price);
                    assert(post.book_of(e2.side).has_order_at(e2.price, e2.order_id));
                } else {
                    assert(postlv[lj] == prelv[lj]);
                    assert(postlv[lj].orders[oj].order_id == e2.order_id);
                    assert(post.book_of(e2.side).has_order_at(e2.price, e2.order_id));
                }
            }
        } else {
            if lj == 0 {
                if oj == 0 {
                    assert(postlv[0].orders[0].order_id == head.order_id);
                    assert(postlv[0].orders[0].order_id == e2.order_id);
                    assert(postlv[0].price == e2.price);
                    assert(post.book_of(e2.side).has_order_at(e2.price, e2.order_id));
                } else {
                    assert(postlv[0].orders[oj] == prelv[0].orders[oj]);
                    assert(post.book_of(e2.side).has_order_at(e2.price, e2.order_id));
                }
            } else {
                assert(postlv[lj] == prelv[lj]);
                assert(postlv[lj].orders[oj].order_id == e2.order_id);
                assert(post.book_of(e2.side).has_order_at(e2.price, e2.order_id));
            }
        }
    }
}

/// After one engine match step every remaining resting order is still
/// indexed at its level's price: only a consumed maker's entry left the
/// index.
#[verifier::rlimit(80)]
proof fn lemma_engine_step_complete(
    pre: crate::order_book::OrderBookV,
    post: crate::order_book::OrderBookV,
    aggr_side: Side,
    qty: u64,
)
    requires
        pre.wf(),
        qty >= 1,
        engine_step_shape(pre, post, aggr_side, qty),
    ensures
        post.complete(),
{
    let opp = aggr_side.spec_opposite();
    let prelv = pre.book_of(opp).levels;
    let postlv = post.book_of(opp).levels;
    let head = prelv[0].orders[0];
    let m = spec_min_u64(head.remain_quantity, qty);
    let consumed = m == head.remain_quantity;
    assert((#[trigger] pre.book_of(opp).levels[0].orders[0]).order_id == head.order_id);
    assert(index_find(pre.index, head.order_id) == Some(
        EntryV { order_id: head.order_id, side: opp, price: prelv[0].price },
    ));
    // the aggressor's side is untouched, and none of its ids is the maker's
    assert forall|lj: int, oj: int|
        #![trigger post.book_of(aggr_side).levels[lj].orders[oj]]
        valid_pos(post.book_of(aggr_side).levels, lj, oj) implies index_find(
        post.index,
        post.book_of(aggr_side).levels[lj].orders[oj].order_id,
    ) == Some(
        EntryV {
            order_id: post.book_of(aggr_side).levels[lj].orders[oj].order_id,
            side: aggr_side,
            price: post.book_of(aggr_side).levels[lj].price,
        },
    ) by {
        let id = post.book_of(aggr_side).levels[lj].orders[oj].order_id;
        assert(post.book_of(aggr_side) == pre.book_of(aggr_side));
        assert((#[trigger] pre.book_of(aggr_side).levels[lj].orders[oj]).order_id == id);
        assert(index_find(pre.index, id) == Some(
            EntryV { order_id: id, side: aggr_side, price: pre.book_of(aggr_side).levels[lj].price },
        ));
        if consumed && id == head.order_id {
            assert(false);
        }
    }
    // the walked side: remaining orders map past the consumed maker
    assert forall|lj: int, oj: int|
        #![trigger post.book_of(opp).levels[lj].orders[oj]]
        valid_pos(post.book_of(opp).levels, lj, oj) implies index_find(
        post.index,
        post.book_of(opp).levels[lj].orders[oj].order_id,
    ) == Some(
        EntryV {
            order_id: post.book_of(opp).levels[lj].orders[oj].order_id,
            side: opp,
            price: post.book_of(opp).levels[lj].price,
        },
    ) by {
        let id = postlv[lj].orders[oj].order_id;
        if !consumed {
            // the head is updated in place with its id and price kept
            if lj == 0 {
                if oj == 0 {
                    assert(postlv[0].orders[0] == maker_after(head, m));
                    assert(id == head.order_id);
                    assert(postlv[0].price == prelv[0].price);
                } else {
                    assert(postlv[0].orders[oj] == prelv[0].orders[oj]);
                    assert((#[trigger] pre.book_of(opp).levels[0].orders[oj]).order_id == id);
                }
            } else {
                assert(postlv[lj] == prelv[lj]);
                assert((#[trigger] pre.book_of(opp).levels[lj].orders[oj]).order_id == id);
            }
            assert(post.index == pre.index);
        } else {
            let lj0: int = if prelv[0].orders.len() == 1 {
                lj + 1
            } else {
                lj
            };
            let oj0: int = if prelv[0].orders.len() == 1 || lj != 0 {
                oj
            } else {
                oj + 1
            };
            if prelv[0].orders.len() == 1 {
                assert(postlv =~= prelv.drop_first());
                assert(postlv[lj] == prelv[lj0]);
            } else {
                if lj == 0 {
                    assert(postlv[0].orders == prelv[0].orders.drop_first());
                    assert(postlv[0].orders[oj] == prelv[0].orders[oj0]);
                    assert(postlv[0].price == prelv[0].price);
                } else {
                    assert(postlv[lj] == prelv[lj]);
                }
            }
            assert(valid_pos(prelv, lj0, oj0));
            assert(prelv[lj0].orders[oj0] == postlv[lj].orders[oj]);
            assert(prelv[lj0].price == postlv[lj].price);
            assert((#[trigger] pre.book_of(opp).levels[lj0].orders[oj0]).order_id == id);
            assert(index_find(pre.index, id) == Some(
                EntryV { order_id: id, side: opp, price: prelv[lj0].price },
            ));
            if id == head.order_id {
                // the maker's entry names the best level's price, so an
                // equal id could only rest at the best level, behind the
                // maker, and level ids are distinct
                assert(prelv[lj0].price == prelv[0].price);
                if lj0 != 0 {
                    assert(spec_price_before(opp, prelv[0].price, prelv[lj0].price)) by {
                        assert(pre.book_of(opp).wf());
                    }
                    assert(false);
                }
                assert(oj0 != 0);
                assert(prelv[0].orders[oj0].order_id != prelv[0].orders[0].order_id) by {
                    match opp {
                        Side::Buy => {
                            assert(pre.book_of(Side::Buy) == pre.buy);
                            assert(pre.buy.levels[0].orders[0] == prelv[0].orders[0]);
                            assert(pre.buy.levels[0].orders[oj0] == prelv[0].orders[oj0]);
                        },
                        Side::Sell => {
                            assert(pre.book_of(Side::Sell) == pre.sell);
                            assert(pre.sell.levels[0].orders[0] == prelv[0].orders[0]);
                            assert(pre.sell.levels[0].orders[oj0] == prelv[0].orders[oj0]);
                        },
                    }
                }
                assert(false);
            }
            assert(index_find(post.index, id) == index_find(pre.index, id));
        }
    }
    assert(post.side_complete(Side::Buy) && post.side_complete(Side::Sell)) by {
        if opp == Side::Buy {
        } else {
        }
    }
}

impl OrderBook {
    /// Whether the book opposite the aggressor still has a level whose
    /// front crosses the aggressor's bound.
    pub fn opp_front_crosses(&self, aggr_side: Side, limit: Option<u64>) -> (r: bool)
        requires
            self@.wf(),
        ensures
            ({
                let opp = self@.book_of(aggr_side.spec_opposite());
                r == (opp.levels.len() > 0 && crosses(aggr_side, limit, opp.levels[0].price))
            }),
    {
        match aggr_side {
            Side::Buy => self.sell_book.front_crosses(aggr_side, limit),
            Side::Sell => self.buy_book.front_crosses(aggr_side, limit),
        }
    }
}

/// An order as the sequencer admits it to the engine: nothing filled yet,
/// everything still to trade, status `New`.
pub open spec fn admitted_wf(o: OrderV) -> bool {
    &&& o.status == OrderStatus::New
    &&& o.filled_quantity == 0
    &&& o.remain_quantity == o.quantity
    &&& o.quantity >= 1
}

/// The price bound an order matches under: its limit price, or none for a
/// market order.
pub open spec fn spec_bound(o: OrderV) -> Option<u64> {
    match o.order_type {
        OrderType::Limit => Some(o.price),
        OrderType::Market => None,
    }
}

/// Process one admitted order against the book: walk the opposite side
/// under price-time priority while the order still crosses, emit a pair of
/// executions per match step, and afterwards rest an unfilled limit
/// remainder on its own side.  A market order's unfilled remainder is
/// dropped with status `Cancelled`.  Returns the order's final state and
/// the executions, in the order the fills happened.
#[verifier::rlimit(80)]
pub fn process_order(book: &mut OrderBook, order: Order, now: u64) -> (r: (Order, Vec<Execution>))
    requires
        old(book)@.wf(),
        admitted_wf(order@),
        !index_has(old(book)@.index, order@.order_id),
        old(book)@.book_of(order@.side).can_absorb(order@.price, order@.quantity),
        old(book)@.book_of(order@.side).time_fresh(order@.entry_time),
    ensures
        final(book)@.wf(),
        ({
            let aggr = order@;
            let opp = aggr.side.spec_opposite();
            let bound = spec_bound(aggr);
            let (fills, postlv, left) = match_book(
                old(book)@.book_of(opp).levels,
                aggr.side,
                bound,
                aggr.quantity,
            );
            let rested = aggr.order_type == OrderType::Limit && left > 0;
            let out = r.0@;
            &&& final(book)@.book_of(opp).levels == postlv
            &&& r.1@.len() == 2 * fills.len()
            &&& (forall|i: int|
                0 <= i < fills.len() ==> exec_pair_ok(
                    #[trigger] r.1@[2 * i]@,
                    r.1@[2 * i + 1]@,
                    fills[i],
                    aggr,
                    now,
                ))
            &&& out.order_id == aggr.order_id
            &&& out.symbol == aggr.symbol
            &&& out.side == aggr.side
            &&& out.order_type == aggr.order_type
            &&& out.price == aggr.price
            &&& out.entry_time == aggr.entry_time
            &&& out.quantity == aggr.quantity
            &&& out.remain_quantity == left
            &&& out.filled_quantity == aggr.quantity - left
            &&& out.status == (if left == 0 {
                OrderStatus::Filled
            } else if aggr.order_type == OrderType::Market {
                OrderStatus::Cancelled
            } else if left < aggr.quantity {
                OrderStatus::PartiallyFilled
            } else {
                OrderStatus::New
            })
            &&& final(book)@.book_of(aggr.side).levels == (if rested {
                insert_levels(aggr.side, old(book)@.book_of(aggr.side).levels, out)
            } else {
                old(book)@.book_of(aggr.side).levels
            })
            &&& (forall|id2: Seq<char>|
                #![trigger index_find(final(book)@.index, id2)]
                index_find(final(book)@.index, id2) == (if rested && id2 == aggr.order_id {
                    Some(EntryV { order_id: aggr.order_id, side: aggr.side, price: aggr.price })
                } else if consumed_ids(fills).contains(id2) && !(rested && id2 == aggr.order_id) {
                    None
                } else {
                    index_find(old(book)@.index, id2)
                }))
        }),
{
    let mut order = order;
    let ghost orig = book@;
    let ghost aggr = order@;
    let ghost opp = aggr.side.spec_opposite();
    let bound: Option<u64> = match order.order_type {
        OrderType::Limit => Some(order.price),
        OrderType::Market => None,
    };
    let ghost q0 = aggr.quantity;
    let mut remaining: u64 = order.remain_quantity;
    let mut execs: Vec<Execution> = Vec::new();
    let ghost mut fills_acc: Seq<FillV> = Seq::empty();
    proof {
        crate::order_book::lemma_complete_fresh(orig, aggr.order_id);
        assert(match_book(orig.book_of(opp).levels, aggr.side, bound, q0).0 =~= fills_acc
            + match_book(book@.book_of(opp).levels, aggr.side, bound, remaining).0);
    }
    while remaining >= 1 && book.opp_front_crosses(order.side, bound)
        invariant
            orig.wf(),
            orig == old(book)@,
            book@.wf(),
            order@ == aggr,
            admitted_wf(aggr),
            opp == aggr.side.spec_opposite(),
            bound == spec_bound(aggr),
            q0 == aggr.quantity,
            remaining <= q0,
            !index_has(orig.index, aggr.order_id),
            !book@.buy.has_order_id(aggr.order_id),
            !book@.sell.has_order_id(aggr.order_id),
            book@.book_of(aggr.side) == orig.book_of(aggr.side),
            ({
                let all = match_book(orig.book_of(opp).levels, aggr.side, bound, q0);
                let cur = match_book(book@.book_of(opp).levels, aggr.side, bound, remaining);
                all.0 == fills_acc + cur.0 && all.1 == cur.1 && all.2 == cur.2
            }),
            forall|id2: Seq<char>|
                #![trigger index_find(book@.index, id2)]
                index_find(book@.index, id2) == (if consumed_ids(fills_acc).contains(id2) {
                    None
                } else {
                    index_find(orig.index, id2)
                }),
            execs@.len() == 2 * fills_acc.len(),
            forall|i: int|
                0 <= i < fills_acc.len() ==> exec_pair_ok(
                    #[trigger] execs@[2 * i]@,
                    execs@[2 * i + 1]@,
                    fills_acc[i],
                    aggr,
                    now,
                ),
        decreases remaining,
    {
        let ghost pre_step = book@;
        let ghost pre_remaining = remaining;
        let ghost pre_levels = pre_step.book_of(opp).levels;
        let ghost fill = step_fill(pre_levels, remaining);
        let (maker, m) = match order.side {
            Side::Buy => book.sell_book.match_step(remaining),
            Side::Sell => book.buy_book.match_step(remaining),
        };
        proof {
            assert(fill.maker == pre_levels[0].orders[0]);
            assert(fill.price == pre_levels[0].price);
            assert(fill.maker.price == pre_levels[0].price);
            assert(fill.maker.remain_quantity >= 1);
            assert(m == fill.qty);
            assert(m >= 1);
            assert(maker@.price == fill.price);
            assert(maker@.order_id == fill.maker.order_id);
            assert(maker@.symbol == fill.maker.symbol);
        }
        let exec1 = Execution {
            exec_id: crate::ids::new_exec_id(),
            order_id: order.order_id.clone(),
            symbol: order.symbol.clone(),
            side: order.side,
            price: maker.price,
            quantity: m,
            transaction_time: now,
        };
        let exec2 = Execution {
            exec_id: crate::ids::new_exec_id(),
            order_id: maker.order_id.clone(),
            symbol: maker.symbol.clone(),
            side: order.side.opposite(),
            price: maker.price,
            quantity: m,
            transaction_time: now,
        };
        let ghost pre_execs = execs@;
        execs.push(exec1);
        execs.push(exec2);
        if maker.remain_quantity == 0 {
            proof {
                assert(m == fill.maker.remain_quantity);
            }
            remove_entry(&mut book.order_map, &maker.order_id);
        }
        remaining = remaining - m;
        proof {
            let post_step = book@;
            assert(engine_step_shape(pre_step, post_step, aggr.side, pre_remaining));
            lemma_engine_step_wf(pre_step, post_step, aggr.side, pre_remaining, aggr.order_id);
            lemma_consumed_push(fills_acc, fill);
            let pre_acc = fills_acc;
            fills_acc = fills_acc.push(fill);
            // composition: one unfolding of the walk
            let all = match_book(orig.book_of(opp).levels, aggr.side, bound, q0);
            let cur_pre = match_book(pre_levels, aggr.side, bound, pre_remaining);
            let cur_post = match_book(post_step.book_of(opp).levels, aggr.side, bound, remaining);
            assert(cur_pre.0 == seq![fill] + cur_post.0 && cur_pre.1 == cur_post.1 && cur_pre.2
                == cur_post.2);
            assert(all.0 =~= fills_acc + cur_post.0);
            // index bookkeeping
            assert forall|id2: Seq<char>|
                true implies #[trigger] index_find(book@.index, id2) == (if consumed_ids(
                fills_acc,
            ).contains(id2) {
                None
            } else {
                index_find(orig.index, id2)
            }) by {
                if m == fill.maker.remain_quantity {
                    if id2 == fill.maker.order_id {
                        assert(consumed_ids(fills_acc).contains(id2));
                    } else {
                        assert(consumed_ids(fills_acc).contains(id2) == consumed_ids(
                            pre_acc,
                        ).contains(id2));
                    }
                } else {
                    assert(consumed_ids(fills_acc) == consumed_ids(pre_acc));
                }
            }
            // execution bookkeeping
            assert(execs@.len() == 2 * fills_acc.len());
            assert forall|i: int| 0 <= i < fills_acc.len() implies exec_pair_ok(
                #[trigger] execs@[2 * i]@,
                execs@[2 * i + 1]@,
                fills_acc[i],
                aggr,
                now,
            ) by {
                if i < pre_acc.len() {
                    assert(execs@[2 * i] == pre_execs[2 * i]);
                    assert(execs@[2 * i + 1] == pre_execs[2 * i + 1]);
                    assert(fills_acc[i] == pre_acc[i]);
                } else {
                    assert(execs@[2 * i] == exec1);
                    assert(execs@[2 * i + 1] == exec2);
                    assert(fills_acc[i] == fill);
                }
            }
        }
    }
    proof {
        // the walk is over: the remainder of the spec walk is a base case
        let all = match_book(orig.book_of(opp).levels, aggr.side, bound, q0);
        let cur = match_book(book@.book_of(opp).levels, aggr.side, bound, remaining);
        assert(cur.0 =~= Seq::<FillV>::empty());
        assert(all.0 =~= fills_acc);
    }
    order.remain_quantity = remaining;
    order.filled_quantity = order.quantity - remaining;
    if remaining == 0 {
        order.status = OrderStatus::Filled;
        (order, execs)
    } else {
        match order.order_type {
            OrderType::Market => {
                order.status = OrderStatus::Cancelled;
                (order, execs)
            },
            OrderType::Limit => {
                if order.filled_quantity > 0 {
                    order.status = OrderStatus::PartiallyFilled;
                } else {
                    order.status = OrderStatus::New;
                }
                let rest = order.clone();
                proof {
                    // the unfilled remainder does not cross the book
                    let cur = book@.book_of(opp).levels;
                    assert forall|j: int| 0 <= j < cur.len() implies !crosses(
                        aggr.side,
                        bound,
                        (#[trigger] cur[j]).price,
                    ) by {
                        if j > 0 {
                            assert(crate::models::spec_price_before(
                                opp,
                                cur[0].price,
                                cur[j].price,
                            ));
                        }
                    }
                    assert(book@.would_not_cross(aggr.side, aggr.price));
                    assert(book@.book_of(aggr.side).can_absorb(
                        aggr.price,
                        rest@.remain_quantity,
                    ));
                }
                book.insert_order(rest);
                (order, execs)
            },
        }
    }
}

} // verus!
