//! A side book: the price levels of one side of one symbol's book, kept in
//! priority order (highest price first on the buy side, lowest first on the
//! sell side), with the best price cached.

use vstd::prelude::*;

use crate::models::{Order, OrderV, OrderReference, Side, spec_price_before};
use crate::price_level::{PriceLevel, LevelV};

verus! {

/// View of a sequence of price levels as a sequence of level views.
pub open spec fn levels_view(s: Seq<PriceLevel>) -> Seq<LevelV> {
    s.map_values(|l: PriceLevel| l@)
}

/// Executable counterpart of [`spec_price_before`].
pub fn price_before(side: Side, p: u64, q: u64) -> (r: bool)
    ensures
        r == spec_price_before(side, p, q),
{
    match side {
        Side::Buy => p > q,
        Side::Sell => p < q,
    }
}

/// A level holding exactly one freshly resting order.
pub open spec fn singleton_level(o: OrderV) -> LevelV {
    LevelV { price: o.price, total_volume: o.remain_quantity, orders: seq![o] }
}

/// A level with one more order at its tail.
pub open spec fn level_push(l: LevelV, o: OrderV) -> LevelV {
    LevelV {
        price: l.price,
        total_volume: (l.total_volume + o.remain_quantity) as u64,
        orders: l.orders.push(o),
    }
}

/// Where a resting order lands: appended to the queue of the level at its
/// price, or in a fresh level spliced in at the order's priority position.
pub open spec fn insert_levels(side: Side, levels: Seq<LevelV>, o: OrderV) -> Seq<LevelV>
    decreases levels.len(),
{
    if levels.len() == 0 {
        seq![singleton_level(o)]
    } else if levels[0].price == o.price {
        seq![level_push(levels[0], o)] + levels.drop_first()
    } else if spec_price_before(side, o.price, levels[0].price) {
        seq![singleton_level(o)] + levels
    } else {
        seq![levels[0]] + insert_levels(side, levels.drop_first(), o)
    }
}

/// Splitting [`insert_levels`] at a prefix of levels that all have better
/// priority than the incoming price.
pub proof fn lemma_insert_levels_skip(side: Side, levels: Seq<LevelV>, o: OrderV, i: int)
    requires
        0 <= i <= levels.len(),
        forall|j: int| 0 <= j < i ==> spec_price_before(side, (#[trigger] levels[j]).price, o.price),
    ensures
        insert_levels(side, levels, o) == levels.subrange(0, i) + insert_levels(
            side,
            levels.skip(i),
            o,
        ),
    decreases i,
{
    if i == 0 {
        assert(levels.skip(0) =~= levels);
        assert(levels.subrange(0, 0) + insert_levels(side, levels, o) =~= insert_levels(
            side,
            levels,
            o,
        ));
    } else {
        lemma_insert_levels_skip(side, levels.drop_first(), o, i - 1);
        assert(levels.drop_first().subrange(0, i - 1) =~= levels.subrange(1, i));
        assert(levels.drop_first().skip(i - 1) =~= levels.skip(i));
        assert(insert_levels(side, levels, o) == seq![levels[0]] + insert_levels(
            side,
            levels.drop_first(),
            o,
        ));
        assert(seq![levels[0]] + (levels.subrange(1, i) + insert_levels(side, levels.skip(i), o))
            =~= levels.subrange(0, i) + insert_levels(side, levels.skip(i), o));
    }
}

/// The prices an aggressor bounded by `bound` may match against: the longest
/// prefix of the book's levels whose prices still cross the bound.
pub open spec fn eligible_prices(side: Side, levels: Seq<LevelV>, bound: u64) -> Seq<u64>
    decreases levels.len(),
{
    if levels.len() == 0 {
        Seq::empty()
    } else if level_eligible(side, levels[0].price, bound) {
        seq![levels[0].price] + eligible_prices(side, levels.drop_first(), bound)
    } else {
        Seq::empty()
    }
}

/// Executable counterpart of [`level_eligible`].
pub fn level_eligible_exec(side: Side, maker_price: u64, bound: u64) -> (r: bool)
    ensures
        r == level_eligible(side, maker_price, bound),
{
    match side {
        Side::Buy => maker_price >= bound,
        Side::Sell => maker_price <= bound,
    }
}

/// A maker price on a book of side `side` crosses the aggressor's bound:
/// on the buy side the maker must bid at least `bound`, on the sell side it
/// must ask at most `bound`.
pub open spec fn level_eligible(side: Side, maker_price: u64, bound: u64) -> bool {
    match side {
        Side::Buy => maker_price >= bound,
        Side::Sell => maker_price <= bound,
    }
}

/// [`eligible_prices`] is exactly the prices of the eligible prefix.
pub proof fn lemma_eligible_prices_prefix(side: Side, levels: Seq<LevelV>, bound: u64, i: int)
    requires
        0 <= i <= levels.len(),
        forall|j: int|
            0 <= j < i ==> level_eligible(side, (#[trigger] levels[j]).price, bound),
        i == levels.len() || !level_eligible(side, levels[i].price, bound),
    ensures
        eligible_prices(side, levels, bound) == Seq::new(i as nat, |k: int| levels[k].price),
    decreases i,
{
    if i == 0 {
        if levels.len() > 0 {
            assert(!level_eligible(side, levels[0].price, bound));
        }
        assert(eligible_prices(side, levels, bound) =~= Seq::new(0, |k: int| levels[k].price));
    } else {
        lemma_eligible_prices_prefix(side, levels.drop_first(), bound, i - 1);
        assert(eligible_prices(side, levels, bound) =~= Seq::new(i as nat, |k: int| levels[k].price));
    }
}

/// View of a [`Book`].
pub ghost struct BookV {
    pub side: Side,
    pub levels: Seq<LevelV>,
    pub best_level: Option<u64>,
}

impl BookV {
    /// Well-formedness of a side book:
    /// every level is well formed, non-empty, holds only orders of this
    /// book's side; the levels stand in strict priority order (so prices are
    /// unique); and the cached best price is the first level's price.
    pub open spec fn wf(self) -> bool {
        &&& forall|i: int| 0 <= i < self.levels.len() ==> (#[trigger] self.levels[i]).wf()
        &&& forall|i: int| 0 <= i < self.levels.len() ==> (#[trigger] self.levels[i]).orders.len() > 0
        &&& forall|i: int| 0 <= i < self.levels.len() ==> (#[trigger] self.levels[i]).all_side(self.side)
        &&& forall|i: int, j: int|
            0 <= i < j < self.levels.len() ==> spec_price_before(
                self.side,
                self.levels[i].price,
                self.levels[j].price,
            )
        &&& self.best_level == (if self.levels.len() == 0 {
            Option::<u64>::None
        } else {
            Option::Some(self.levels[0].price)
        })
    }

    /// There is a level at `price` whose volume cannot absorb `qty` more.
    pub open spec fn can_absorb(self, price: u64, qty: u64) -> bool {
        forall|i: int|
            0 <= i < self.levels.len() && (#[trigger] self.levels[i]).price == price
                ==> self.levels[i].total_volume + qty <= u64::MAX
    }

    /// Every resting order in the book arrived strictly before time `t`.
    pub open spec fn time_fresh(self, t: u64) -> bool {
        forall|i: int, j: int|
            0 <= i < self.levels.len() && 0 <= j < self.levels[i].orders.len()
                ==> (#[trigger] self.levels[i].orders[j]).entry_time < t
    }

    /// The book holds an order with this id.
    pub open spec fn has_order_id(self, id: Seq<char>) -> bool {
        exists|i: int, j: int|
            0 <= i < self.levels.len() && 0 <= j < self.levels[i].orders.len()
                && (#[trigger] self.levels[i].orders[j]).order_id == id
    }

    /// The book holds an order with this id resting at this price.
    pub open spec fn has_order_at(self, price: u64, id: Seq<char>) -> bool {
        exists|li: int, oi: int|
            #![trigger self.levels[li].orders[oi]]
            0 <= li < self.levels.len() && 0 <= oi < self.levels[li].orders.len()
                && self.levels[li].price == price && self.levels[li].orders[oi].order_id == id
    }
}

/// One side of the order book: levels in priority order, best price cached.
#[derive(Debug)]
pub struct Book {
    pub side: Side,
    pub limits: Vec<PriceLevel>,
    pub best_level: Option<u64>,
}

impl View for Book {
    type V = BookV;

    open spec fn view(&self) -> BookV {
        BookV { side: self.side, levels: levels_view(self.limits@), best_level: self.best_level }
    }
}

impl Clone for Book {
    /// A clone of a side book has the same view.
    fn clone(&self) -> (r: Self)
        ensures
            r@ == self@,
    {
        let limits = self.limits.clone();
        proof {
            assert forall|i: int| 0 <= i < limits@.len() implies #[trigger] limits@[i]@
                == self.limits@[i]@ by {}
            assert(levels_view(limits@) =~= levels_view(self.limits@));
        }
        Book { side: self.side, limits, best_level: self.best_level }
    }
}

impl Book {
    /// An empty book for the given side.
    pub fn new(side: Side) -> (r: Self)
        ensures
            r@.side == side,
            r@.levels == Seq::<LevelV>::empty(),
            r@.best_level is None,
            r@.wf(),
    {
        let r = Book { side, limits: Vec::new(), best_level: None };
        proof {
            assert(levels_view(r.limits@) =~= Seq::<LevelV>::empty());
        }
        r
    }

    /// Rest an order on this book: append to its price's level, creating the
    /// level at its priority position when absent, and refresh the cached
    /// best price.  Returns the index reference for the resting order.
    pub fn add_order(&mut self, order: Order) -> (r: OrderReference)
        requires
            old(self)@.wf(),
            order@.resting_wf(),
            order@.side == old(self)@.side,
            old(self)@.can_absorb(order@.price, order@.remain_quantity),
            old(self)@.time_fresh(order@.entry_time),
        ensures
            final(self)@.side == old(self)@.side,
            final(self)@.levels == insert_levels(old(self)@.side, old(self)@.levels, order@),
            final(self)@.wf(),
            r == (OrderReference { side: order@.side, price: order@.price }),
    {
        let ghost side = self@.side;
        let ghost pre = self@.levels;
        let price = order.price;
        let reference = OrderReference { side: order.side, price };
        let mut i: usize = 0;
        while i < self.limits.len() && price_before(self.side, self.limits[i].price, price)
            invariant
                0 <= i <= pre.len(),
                self@.side == side,
                self@.levels == pre,
                forall|j: int| 0 <= j < i ==> spec_price_before(side, (#[trigger] pre[j]).price, price),
            decreases pre.len() - i,
        {
            i = i + 1;
        }
        proof {
            lemma_insert_levels_skip(side, pre, order@, i as int);
        }
        if i < self.limits.len() && self.limits[i].price == price {
            let mut level = self.limits.remove(i);
            level.add_order(order);
            let ghost stepped = level@;
            self.limits.insert(i, level);
            proof {
                assert(pre.skip(i as int)[0] == pre[i as int]);
                assert(insert_levels(side, pre.skip(i as int), order@) =~= seq![
                    level_push(pre[i as int], order@),
                ] + pre.skip(i as int).drop_first());
                assert(stepped == level_push(pre[i as int], order@));
                assert(levels_view(self.limits@) =~= pre.subrange(0, i as int) + insert_levels(
                    side,
                    pre.skip(i as int),
                    order@,
                ));
                assert(levels_view(self.limits@) =~= pre.update(i as int, stepped));
            }
        } else {
            let mut level = PriceLevel::new(price);
            level.add_order(order);
            let ghost fresh = level@;
            self.limits.insert(i, level);
            proof {
                assert(fresh.orders =~= seq![order@]);
                assert(fresh == singleton_level(order@));
                if (i as int) < pre.len() {
                    assert(pre.skip(i as int)[0] == pre[i as int]);
                    assert(insert_levels(side, pre.skip(i as int), order@) =~= seq![
                        singleton_level(order@),
                    ] + pre.skip(i as int));
                } else {
                    assert(pre.skip(i as int) =~= Seq::<LevelV>::empty());
                }
                assert(levels_view(self.limits@) =~= pre.subrange(0, i as int) + insert_levels(
                    side,
                    pre.skip(i as int),
                    order@,
                ));
                assert(levels_view(self.limits@) =~= pre.insert(i as int, fresh));
                assert forall|j: int| i <= j < pre.len() implies spec_price_before(
                    side,
                    price,
                    (#[trigger] pre[j]).price,
                ) by {
                    assert(!spec_price_before(side, pre[i as int].price, price));
                    assert(pre[i as int].price != price);
                    if j > i {
                        assert(spec_price_before(side, pre[i as int].price, pre[j].price));
                    }
                }
            }
        }
        self.best_level = Some(self.limits[0].price);
        proof {
            let post = self@.levels;
            assert(post == insert_levels(side, pre, order@));
            if post.len() == pre.len() {
                assert forall|x: int| 0 <= x < post.len() implies (#[trigger] post[x]).price == pre[
                    x
                ].price by {}
            } else {
                assert forall|a: int, b: int| 0 <= a < b < post.len() implies spec_price_before(
                    side,
                    post[a].price,
                    post[b].price,
                ) by {
                    if a < i && b < i {
                    } else if a == i || b == i {
                    }
                }
            }
            assert(final(self)@.wf());
        }
        reference
    }

    /// The level at the cached best price, when the book is non-empty.
    pub fn get_best_level(&self) -> (r: Option<&PriceLevel>)
        requires
            self@.wf(),
        ensures
            self@.levels.len() == 0 ==> r is None,
            self@.levels.len() > 0 ==> (r matches Some(l) && l@ == self@.levels[0]),
    {
        if self.limits.len() > 0 {
            Some(&self.limits[0])
        } else {
            None
        }
    }

    /// Re-derive the cached best price from the levels.
    pub fn update_best_level(&mut self)
        ensures
            final(self)@.side == old(self)@.side,
            final(self)@.levels == old(self)@.levels,
            final(self)@.best_level == (if old(self)@.levels.len() == 0 {
                Option::<u64>::None
            } else {
                Option::Some(old(self)@.levels[0].price)
            }),
    {
        if self.limits.len() > 0 {
            self.best_level = Some(self.limits[0].price);
        } else {
            self.best_level = None;
        }
    }

    /// The prices an incoming order bounded by `price_point` may match
    /// against, best first.
    pub fn get_levels_for_matching(&self, price_point: u64) -> (r: Vec<u64>)
        requires
            self@.wf(),
        ensures
            r@ == eligible_prices(self@.side, self@.levels, price_point),
    {
        let ghost side = self@.side;
        let ghost lv = self@.levels;
        let mut result: Vec<u64> = Vec::new();
        let mut i: usize = 0;
        while i < self.limits.len() && level_eligible_exec(self.side, self.limits[i].price, price_point)
            invariant
                0 <= i <= lv.len(),
                self@.side == side,
                self@.levels == lv,
                result@.len() == i,
                forall|j: int| 0 <= j < i ==> level_eligible(side, (#[trigger] lv[j]).price, price_point),
                forall|j: int| 0 <= j < i ==> result@[j] == lv[j].price,
            decreases lv.len() - i,
        {
            result.push(self.limits[i].price);
            i = i + 1;
        }
        proof {
            lemma_eligible_prices_prefix(side, lv, price_point, i as int);
            assert(result@ =~= Seq::new(i as nat, |k: int| lv[k].price));
        }
        result
    }

    /// Total remaining quantity at the level with the given price, zero when
    /// no such level exists.
    pub fn volume_at(&self, price: u64) -> (r: u64)
        requires
            self@.wf(),
        ensures
            forall|i: int|
                0 <= i < self@.levels.len() && (#[trigger] self@.levels[i]).price == price
                    ==> r == self@.levels[i].total_volume,
            (forall|i: int|
                0 <= i < self@.levels.len() ==> (#[trigger] self@.levels[i]).price != price) ==> r
                == 0,
    {
        let mut i: usize = 0;
        let ghost lv = self@.levels;
        while i < self.limits.len()
            invariant
                0 <= i <= lv.len(),
                self@.wf(),
                self@.levels == lv,
                forall|j: int| 0 <= j < i ==> (#[trigger] lv[j]).price != price,
            decreases lv.len() - i,
        {
            if self.limits[i].price == price {
                proof {
                    let side = self@.side;
                    assert(self@.levels[i as int].price == price);
                    assert forall|j: int|
                        0 <= j < lv.len() && (#[trigger] lv[j]).price == price implies lv[
                        i as int
                    ].total_volume == lv[j].total_volume by {
                        if j < i {
                        } else if j > i {
                            assert(spec_price_before(side, lv[i as int].price, lv[j].price));
                        }
                    }
                }
                return self.limits[i].total_volume;
            }
            i = i + 1;
        }
        0
    }
}

} // verus!
