//! Laws of the matching walk and of cancellation, stated over the same
//! spec functions the executable contracts use, and proved once and for
//! all inputs.

use vstd::prelude::*;

use crate::models::{Side, spec_price_before};
use crate::price_level::{LevelV, sum_remain};
use crate::book::BookV;
use crate::order_book::{OrderBookV, EntryV, index_has, valid_pos, cancel_shape};
use crate::matching_engine::{
    crosses, match_book, step_fill, step_shape, maker_after, sum_fill_qty, FillV,
};
use crate::spec_min_u64;

verus! {

/// The well-formedness of one side's levels, independent of the cached
/// best price: every level well formed and non-empty, levels in strict
/// priority order.
pub open spec fn levels_wf(side: Side, levels: Seq<LevelV>) -> bool {
    &&& forall|i: int| 0 <= i < levels.len() ==> (#[trigger] levels[i]).wf()
    &&& forall|i: int| 0 <= i < levels.len() ==> (#[trigger] levels[i]).orders.len() > 0
    &&& forall|i: int, j: int|
        0 <= i < j < levels.len() ==> spec_price_before(
            side,
            levels[i].price,
            levels[j].price,
        )
}

/// A well-formed side book's levels satisfy [`levels_wf`], so the laws
/// below apply to every book the operations hand back.
pub proof fn lemma_book_wf_levels_wf(b: BookV)
    requires
        b.wf(),
    ensures
        levels_wf(b.side, b.levels),
{
}

/// One match step keeps the levels well formed.
pub proof fn lemma_step_shape_wf(side: Side, levels: Seq<LevelV>, qty: u64)
    requires
        levels_wf(side, levels),
        levels.len() > 0,
        qty >= 1,
    ensures
        levels_wf(side, step_shape(levels, qty)),
{
    let post = step_shape(levels, qty);
    let head = levels[0].orders[0];
    let m = spec_min_u64(head.remain_quantity, qty);
    crate::price_level::lemma_sum_remain_remove(levels[0].orders, 0);
    assert(levels[0].orders.remove(0) =~= levels[0].orders.drop_first());
    crate::price_level::lemma_sum_remain_nonneg(levels[0].orders.drop_first());
    assert(levels[0].wf());
    assert(levels[0].total_volume == sum_remain(levels[0].orders));
    assert(sum_remain(levels[0].orders) == head.remain_quantity + sum_remain(
        levels[0].orders.drop_first(),
    ));
    if m == head.remain_quantity {
        if levels[0].orders.len() == 1 {
            assert(post =~= levels.drop_first());
            assert forall|i: int| 0 <= i < post.len() implies (#[trigger] post[i]).wf()
                && post[i].orders.len() > 0 by {
                assert(post[i] == levels[i + 1]);
            }
            assert forall|i: int, j: int| 0 <= i < j < post.len() implies spec_price_before(
                side,
                post[i].price,
                post[j].price,
            ) by {
                assert(post[i] == levels[i + 1] && post[j] == levels[j + 1]);
            }
        } else {
            let lvl = post[0];
            assert(lvl.orders == levels[0].orders.drop_first());
            assert(lvl.wf()) by {
                assert forall|a: int|
                    0 <= a < lvl.orders.len() implies (#[trigger] lvl.orders[a]).price
                    == lvl.price && lvl.orders[a].resting_wf() by {
                    assert(lvl.orders[a] == levels[0].orders[a + 1]);
                }
                assert forall|a: int, b: int| 0 <= a < b < lvl.orders.len() implies lvl.orders[
                    a
                ].entry_time < lvl.orders[b].entry_time by {
                    assert(lvl.orders[a] == levels[0].orders[a + 1]);
                    assert(lvl.orders[b] == levels[0].orders[b + 1]);
                }
            }
            assert forall|i: int| 0 <= i < post.len() implies (#[trigger] post[i]).wf()
                && post[i].orders.len() > 0 by {
                if i > 0 {
                    assert(post[i] == levels[i]);
                }
            }
            assert forall|i: int, j: int| 0 <= i < j < post.len() implies spec_price_before(
                side,
                post[i].price,
                post[j].price,
            ) by {
                assert(post[i].price == levels[i].price && post[j].price == levels[j].price);
            }
        }
    } else {
        let lvl = post[0];
        let q = levels[0].orders;
        assert(lvl.orders == q.update(0, maker_after(head, m)));
        assert(sum_remain(q.update(0, maker_after(head, m))) == sum_remain(q) - m) by {
            assert(q.update(0, maker_after(head, m)).drop_first() =~= q.drop_first());
        }
        assert(lvl.wf()) by {
            assert forall|a: int|
                0 <= a < lvl.orders.len() implies (#[trigger] lvl.orders[a]).price == lvl.price
                && lvl.orders[a].resting_wf() by {
                if a > 0 {
                    assert(lvl.orders[a] == q[a]);
                }
            }
            assert forall|a: int, b: int| 0 <= a < b < lvl.orders.len() implies lvl.orders[
                a
            ].entry_time < lvl.orders[b].entry_time by {
                assert(lvl.orders[a].entry_time == q[a].entry_time);
                assert(lvl.orders[b].entry_time == q[b].entry_time);
            }
        }
        assert forall|i: int| 0 <= i < post.len() implies (#[trigger] post[i]).wf()
            && post[i].orders.len() > 0 by {
            if i > 0 {
                assert(post[i] == levels[i]);
            }
        }
        assert forall|i: int, j: int| 0 <= i < j < post.len() implies spec_price_before(
            side,
            post[i].price,
            post[j].price,
        ) by {
            assert(post[i].price == levels[i].price && post[j].price == levels[j].price);
        }
    }
}

/// Conservation of quantity: whatever part of the aggressor's quantity is
/// not left over was matched: the fills' quantities sum to exactly the
/// traded amount, so the aggressor's filled delta equals the sum of the
/// makers' filled deltas, which equals the sum of the executions'
/// quantities pair by pair.
pub proof fn lemma_conservation_of_quantity(
    levels: Seq<LevelV>,
    aggr_side: Side,
    limit: Option<u64>,
    qty: u64,
)
    ensures
        ({
            let (fills, postlv, left) = match_book(levels, aggr_side, limit, qty);
            &&& sum_fill_qty(fills) == qty - left
            &&& left <= qty
        }),
    decreases levels.len(), (if levels.len() == 0 {
        0int
    } else {
        levels[0].orders.len() as int
    }), qty,
{
    let (fills, postlv, left) = match_book(levels, aggr_side, limit, qty);
    if qty == 0 || levels.len() == 0 || !crosses(aggr_side, limit, levels[0].price) {
        assert(sum_fill_qty(fills) == 0);
    } else if levels[0].orders.len() == 0 {
        lemma_conservation_of_quantity(levels.drop_first(), aggr_side, limit, qty);
    } else {
        let fill = step_fill(levels, qty);
        lemma_conservation_of_quantity(
            step_shape(levels, qty),
            aggr_side,
            limit,
            (qty - fill.qty) as u64,
        );
        let sub = match_book(step_shape(levels, qty), aggr_side, limit, (qty - fill.qty) as u64);
        assert((seq![fill] + sub.0).drop_first() =~= sub.0);
        assert(sum_fill_qty(seq![fill] + sub.0) == fill.qty + sum_fill_qty(sub.0));
    }
}

/// Price improvement to the aggressor: every fill prints at the resting
/// maker's price, and that price always crosses the aggressor's bound: a
/// buy limited at some price never pays more, a sell limited at some price
/// never receives less.
pub proof fn lemma_price_improvement(
    levels: Seq<LevelV>,
    aggr_side: Side,
    limit: Option<u64>,
    qty: u64,
)
    ensures
        forall|i: int|
            0 <= i < match_book(levels, aggr_side, limit, qty).0.len() ==> crosses(
                aggr_side,
                limit,
                (#[trigger] match_book(levels, aggr_side, limit, qty).0[i]).price,
            ),
    decreases levels.len(), (if levels.len() == 0 {
        0int
    } else {
        levels[0].orders.len() as int
    }), qty,
{
    let fills = match_book(levels, aggr_side, limit, qty).0;
    if qty == 0 || levels.len() == 0 || !crosses(aggr_side, limit, levels[0].price) {
    } else if levels[0].orders.len() == 0 {
        lemma_price_improvement(levels.drop_first(), aggr_side, limit, qty);
    } else {
        let fill = step_fill(levels, qty);
        lemma_price_improvement(
            step_shape(levels, qty),
            aggr_side,
            limit,
            (qty - fill.qty) as u64,
        );
        let sub = match_book(step_shape(levels, qty), aggr_side, limit, (qty - fill.qty) as u64).0;
        assert forall|i: int| 0 <= i < fills.len() implies crosses(
            aggr_side,
            limit,
            (#[trigger] fills[i]).price,
        ) by {
            if i == 0 {
                assert(fills[0] == fill);
            } else {
                assert(fills[i] == sub[i - 1]);
            }
        }
    }
}

/// Every fill's maker is an order that was resting in the walked book, at
/// a level of the fill's price.
pub proof fn lemma_match_book_makers(
    levels: Seq<LevelV>,
    aggr_side: Side,
    limit: Option<u64>,
    qty: u64,
)
    requires
        levels_wf(aggr_side.spec_opposite(), levels),
    ensures
        forall|i: int|
            0 <= i < match_book(levels, aggr_side, limit, qty).0.len() ==> exists|li: int, oi: int|
                valid_pos(levels, li, oi) && (#[trigger] levels[li].orders[oi]) == (
                #[trigger] match_book(levels, aggr_side, limit, qty).0[i]).maker && levels[
                    li
                ].price == match_book(levels, aggr_side, limit, qty).0[i].price,
    decreases levels.len(), (if levels.len() == 0 {
        0int
    } else {
        levels[0].orders.len() as int
    }), qty,
{
    let opp = aggr_side.spec_opposite();
    let fills = match_book(levels, aggr_side, limit, qty).0;
    if qty == 0 || levels.len() == 0 || !crosses(aggr_side, limit, levels[0].price) {
    } else {
        let fill = step_fill(levels, qty);
        let stepped = step_shape(levels, qty);
        lemma_step_shape_wf(opp, levels, qty);
        lemma_match_book_makers(stepped, aggr_side, limit, (qty - fill.qty) as u64);
        let sub = match_book(stepped, aggr_side, limit, (qty - fill.qty) as u64).0;
        assert forall|i: int| 0 <= i < fills.len() implies exists|li: int, oi: int|
            valid_pos(levels, li, oi) && (#[trigger] levels[li].orders[oi]) == (
            #[trigger] fills[i]).maker && levels[li].price == fills[i].price by {
            if i == 0 {
                assert(fills[0] == fill);
                assert(valid_pos(levels, 0, 0));
                assert(levels[0].orders[0] == fill.maker && levels[0].price == fill.price);
            } else {
                assert(fills[i] == sub[i - 1]);
                assert(sub.len() > 0);
                assert(fill.qty == levels[0].orders[0].remain_quantity) by {
                    if fill.qty != levels[0].orders[0].remain_quantity {
                        assert(fill.qty == qty);
                        assert(sub =~= Seq::<FillV>::empty());
                    }
                }
                let (li2, oi2) = choose|li2: int, oi2: int|
                    valid_pos(stepped, li2, oi2) && (#[trigger] stepped[li2].orders[oi2]) == sub[
                        i - 1
                    ].maker && stepped[li2].price == sub[i - 1].price;
                lemma_step_order_origin(levels, qty, li2, oi2);
            }
        }
    }
}

/// An order resting after a match step that consumed the whole front
/// order already rested before the step, at the same price.
proof fn lemma_step_order_origin(levels: Seq<LevelV>, qty: u64, li: int, oi: int)
    requires
        levels.len() > 0,
        levels[0].orders.len() > 0,
        spec_min_u64(levels[0].orders[0].remain_quantity, qty) == levels[0].orders[
            0
        ].remain_quantity,
        valid_pos(step_shape(levels, qty), li, oi),
    ensures
        exists|li0: int, oi0: int|
            valid_pos(levels, li0, oi0) && (#[trigger] levels[li0].orders[oi0]) == step_shape(
                levels,
                qty,
            )[li].orders[oi] && levels[li0].price == step_shape(levels, qty)[li].price,
{
    let post = step_shape(levels, qty);
    if levels[0].orders.len() == 1 {
        assert(post =~= levels.drop_first());
        assert(post[li] == levels[li + 1]);
        assert(valid_pos(levels, li + 1, oi));
        assert(levels[li + 1].orders[oi] == post[li].orders[oi]);
    } else {
        if li == 0 {
            assert(post[0].orders == levels[0].orders.drop_first());
            assert(valid_pos(levels, 0, oi + 1));
            assert(levels[0].orders[oi + 1] == post[0].orders[oi]);
        } else {
            assert(post[li] == levels[li]);
            assert(valid_pos(levels, li, oi));
            assert(levels[li].orders[oi] == post[li].orders[oi]);
        }
    }
}

/// Price-time priority: when two fills of one walk print at the same
/// price, the earlier fill hits the maker with the earlier entry time, and
/// that earlier maker is consumed completely before the later one receives
/// anything.  Across prices, fills follow the book's priority order by
/// construction of the walk.
pub proof fn lemma_price_time_priority(
    levels: Seq<LevelV>,
    aggr_side: Side,
    limit: Option<u64>,
    qty: u64,
)
    requires
        levels_wf(aggr_side.spec_opposite(), levels),
    ensures
        ({
            let fills = match_book(levels, aggr_side, limit, qty).0;
            forall|i: int, j: int|
                0 <= i < j < fills.len() && (#[trigger] fills[i]).price == (
                #[trigger] fills[j]).price ==> fills[i].maker.entry_time
                    < fills[j].maker.entry_time && fills[i].qty == fills[
                    i
                ].maker.remain_quantity
        }),
    decreases levels.len(), (if levels.len() == 0 {
        0int
    } else {
        levels[0].orders.len() as int
    }), qty,
{
    let opp = aggr_side.spec_opposite();
    let fills = match_book(levels, aggr_side, limit, qty).0;
    if qty == 0 || levels.len() == 0 || !crosses(aggr_side, limit, levels[0].price) {
    } else {
        assert(levels[0].orders.len() > 0);
        let fill = step_fill(levels, qty);
        let stepped = step_shape(levels, qty);
        let head = levels[0].orders[0];
        let m = fill.qty;
        lemma_step_shape_wf(opp, levels, qty);
        lemma_price_time_priority(stepped, aggr_side, limit, (qty - m) as u64);
        lemma_match_book_makers(stepped, aggr_side, limit, (qty - m) as u64);
        let sub = match_book(stepped, aggr_side, limit, (qty - m) as u64).0;
        assert forall|i: int, j: int|
            0 <= i < j < fills.len() && (#[trigger] fills[i]).price == (
        #[trigger] fills[j]).price implies fills[i].maker.entry_time < fills[
            j
        ].maker.entry_time && fills[i].qty == fills[i].maker.remain_quantity by {
            if i == 0 {
                assert(fills[0] == fill);
                assert(fills[j] == sub[j - 1]);
                assert(m == head.remain_quantity) by {
                    if m != head.remain_quantity {
                        assert(m == qty);
                        assert(sub =~= Seq::<FillV>::empty());
                    }
                }
                let (li, oi) = choose|li: int, oi: int|
                    valid_pos(stepped, li, oi) && (#[trigger] stepped[li].orders[oi]) == sub[
                        j - 1
                    ].maker && stepped[li].price == sub[j - 1].price;
                if levels[0].orders.len() == 1 {
                    assert(stepped =~= levels.drop_first());
                    assert(stepped[li] == levels[li + 1]);
                    assert(spec_price_before(opp, levels[0].price, levels[li + 1].price));
                    assert(false);
                } else {
                    if li > 0 {
                        assert(stepped[li] == levels[li]);
                        assert(spec_price_before(opp, levels[0].price, levels[li].price));
                        assert(false);
                    } else {
                        assert(stepped[0].orders == levels[0].orders.drop_first());
                        assert(stepped[0].orders[oi] == levels[0].orders[oi + 1]);
                        assert(levels[0].orders[0].entry_time < levels[0].orders[
                            oi + 1
                        ].entry_time);
                    }
                }
            } else {
                assert(fills[i] == sub[i - 1]);
                assert(fills[j] == sub[j - 1]);
            }
        }
    }
}

/// Best price first: within one walk, successive fills print at the same
/// price or at one strictly worse for the aggressor (higher for a buyer,
/// lower for a seller), because the walk consumes the opposite book in
/// its priority order.
pub proof fn lemma_fill_prices_ordered(
    levels: Seq<LevelV>,
    aggr_side: Side,
    limit: Option<u64>,
    qty: u64,
)
    requires
        levels_wf(aggr_side.spec_opposite(), levels),
    ensures
        ({
            let fills = match_book(levels, aggr_side, limit, qty).0;
            forall|i: int, j: int|
                0 <= i < j < fills.len() ==> (#[trigger] fills[i]).price == (
                #[trigger] fills[j]).price || spec_price_before(
                    aggr_side.spec_opposite(),
                    fills[i].price,
                    fills[j].price,
                )
        }),
    decreases levels.len(), (if levels.len() == 0 {
        0int
    } else {
        levels[0].orders.len() as int
    }), qty,
{
    let opp = aggr_side.spec_opposite();
    let fills = match_book(levels, aggr_side, limit, qty).0;
    if qty == 0 || levels.len() == 0 || !crosses(aggr_side, limit, levels[0].price) {
    } else {
        assert(levels[0].orders.len() > 0);
        let fill = step_fill(levels, qty);
        let stepped = step_shape(levels, qty);
        let m = fill.qty;
        lemma_step_shape_wf(opp, levels, qty);
        lemma_fill_prices_ordered(stepped, aggr_side, limit, (qty - m) as u64);
        lemma_match_book_makers(stepped, aggr_side, limit, (qty - m) as u64);
        let sub = match_book(stepped, aggr_side, limit, (qty - m) as u64).0;
        // every level left behind sits at the front level's price or worse
        assert forall|x: int| 0 <= x < stepped.len() implies (#[trigger] stepped[x]).price
            == levels[0].price || spec_price_before(opp, levels[0].price, stepped[x].price) by {
            if m == levels[0].orders[0].remain_quantity && levels[0].orders.len() == 1 {
                assert(stepped =~= levels.drop_first());
                assert(stepped[x] == levels[x + 1]);
            } else {
                if x > 0 {
                    assert(stepped[x] == levels[x]);
                }
            }
        }
        assert forall|i: int, j: int|
            0 <= i < j < fills.len() implies (#[trigger] fills[i]).price == (
        #[trigger] fills[j]).price || spec_price_before(opp, fills[i].price, fills[j].price) by {
            if i == 0 {
                assert(fills[0] == fill);
                assert(fills[j] == sub[j - 1]);
                let (li, oi) = choose|li: int, oi: int|
                    valid_pos(stepped, li, oi) && (#[trigger] stepped[li].orders[oi]) == sub[
                        j - 1
                    ].maker && stepped[li].price == sub[j - 1].price;
                assert(stepped[li].price == levels[0].price || spec_price_before(
                    opp,
                    levels[0].price,
                    stepped[li].price,
                ));
            } else {
                assert(fills[i] == sub[i - 1]);
                assert(fills[j] == sub[j - 1]);
            }
        }
    }
}

/// Cancel idempotence: once a cancel has removed an order's
/// index entry, a lookup of that id misses: by the cancel contract, a
/// repeated cancel of the same id is answered `NotFound` and leaves the
/// book exactly as it was.
pub proof fn lemma_cancel_idempotent(
    pre: OrderBookV,
    post: OrderBookV,
    e: EntryV,
    li: int,
    oi: int,
    k: int,
)
    requires
        pre.wf(),
        cancel_shape(pre, post, e, li, oi, k),
    ensures
        !index_has(post.index, e.order_id),
{
    assert forall|k2: int| 0 <= k2 < pre.index.len() && k2 != k implies (
    #[trigger] pre.index[k2]).order_id != e.order_id by {}
    crate::order_book::lemma_index_find_remove(pre.index, k, e.order_id);
}

} // verus!
