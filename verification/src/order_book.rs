//! The order book for one symbol: a buy book, a sell book, and the order
//! index that maps a resting order's id to the side and price it rests at.

use vstd::prelude::*;

use crate::models::{Order, OrderV, OrderReference, OrderStatus, Side, spec_price_before};
use crate::price_level::{PriceLevel, LevelV};
use crate::book::{Book, BookV, insert_levels, levels_view};

verus! {

/// One entry of the order index.
#[derive(Debug)]
pub struct IndexEntry {
    pub order_id: String,
    pub reference: OrderReference,
}

impl Clone for IndexEntry {
    fn clone(&self) -> (r: Self)
        ensures
            r@ == self@,
    {
        IndexEntry { order_id: self.order_id.clone(), reference: self.reference }
    }
}

/// View of an [`IndexEntry`].
pub ghost struct EntryV {
    pub order_id: Seq<char>,
    pub side: Side,
    pub price: u64,
}

impl View for IndexEntry {
    type V = EntryV;

    open spec fn view(&self) -> EntryV {
        EntryV {
            order_id: self.order_id@,
            side: self.reference.side,
            price: self.reference.price,
        }
    }
}

/// View of a sequence of index entries.
pub open spec fn entries_view(s: Seq<IndexEntry>) -> Seq<EntryV> {
    s.map_values(|e: IndexEntry| e@)
}

/// First index entry carrying the given order id, if any.
pub open spec fn index_find(index: Seq<EntryV>, id: Seq<char>) -> Option<EntryV>
    decreases index.len(),
{
    if index.len() == 0 {
        None
    } else if index[0].order_id == id {
        Some(index[0])
    } else {
        index_find(index.drop_first(), id)
    }
}

/// The index holds an entry for the given order id.
pub open spec fn index_has(index: Seq<EntryV>, id: Seq<char>) -> bool {
    index_find(index, id) is Some
}

/// `index_find` misses an id exactly when no entry carries it.
pub proof fn lemma_index_find_none(index: Seq<EntryV>, id: Seq<char>)
    ensures
        (index_find(index, id) is None) <==> (forall|k: int|
            0 <= k < index.len() ==> (#[trigger] index[k]).order_id != id),
    decreases index.len(),
{
    if index.len() > 0 {
        lemma_index_find_none(index.drop_first(), id);
        if index_find(index, id) is None {
            assert forall|k: int| 0 <= k < index.len() implies (#[trigger] index[k]).order_id
                != id by {
                if k > 0 {
                    assert(index.drop_first()[k - 1] == index[k]);
                }
            }
        } else {
            if index[0].order_id != id {
                let k = choose|k: int|
                    0 <= k < index.drop_first().len() && (#[trigger] index.drop_first()[
                        k
                    ]).order_id == id;
                assert(index[k + 1].order_id == id);
            }
        }
    }
}

/// `index_find` hits the entry it returns.
pub proof fn lemma_index_find_some(index: Seq<EntryV>, id: Seq<char>)
    requires
        index_find(index, id) is Some,
    ensures
        exists|k: int|
            0 <= k < index.len() && #[trigger] index[k] == index_find(index, id)->Some_0
                && index[k].order_id == id,
    decreases index.len(),
{
    if index.len() > 0 && index[0].order_id != id {
        lemma_index_find_some(index.drop_first(), id);
        let k = choose|k: int|
            0 <= k < index.drop_first().len() && #[trigger] index.drop_first()[k] == index_find(
                index.drop_first(),
                id,
            )->Some_0 && index.drop_first()[k].order_id == id;
        assert(index[k + 1] == index.drop_first()[k]);
    }
}

/// Appending an entry changes `index_find` only for the appended id, and
/// only when that id was absent.
pub proof fn lemma_index_find_push(index: Seq<EntryV>, e: EntryV, id: Seq<char>)
    ensures
        index_find(index.push(e), id) == (if index_find(index, id) is Some {
            index_find(index, id)
        } else if e.order_id == id {
            Some(e)
        } else {
            None
        }),
    decreases index.len(),
{
    if index.len() == 0 {
        assert(index.push(e).drop_first() =~= Seq::<EntryV>::empty());
    } else {
        assert(index.push(e).drop_first() =~= index.drop_first().push(e));
        lemma_index_find_push(index.drop_first(), e, id);
    }
}

/// Removing the entry at `k` erases its id from the index when ids are
/// unique, and leaves every other id's lookup unchanged.
pub proof fn lemma_index_find_remove(index: Seq<EntryV>, k: int, id: Seq<char>)
    requires
        0 <= k < index.len(),
    ensures
        id != index[k].order_id ==> index_find(index.remove(k), id) == index_find(index, id),
        (id == index[k].order_id && (forall|k2: int|
            0 <= k2 < index.len() && k2 != k ==> (#[trigger] index[k2]).order_id != id))
            ==> index_find(index.remove(k), id) is None,
    decreases index.len(),
{
    if k == 0 {
        assert(index.remove(0) =~= index.drop_first());
        if id == index[0].order_id && (forall|k2: int|
            0 <= k2 < index.len() && k2 != 0 ==> (#[trigger] index[k2]).order_id != id) {
            lemma_index_find_none(index.drop_first(), id);
            assert forall|j: int| 0 <= j < index.drop_first().len() implies (
            #[trigger] index.drop_first()[j]).order_id != id by {
                assert(index.drop_first()[j] == index[j + 1]);
            }
        }
    } else {
        assert(index.remove(k).drop_first() =~= index.drop_first().remove(k - 1));
        lemma_index_find_remove(index.drop_first(), k - 1, id);
        if id == index[k].order_id && (forall|k2: int|
            0 <= k2 < index.len() && k2 != k ==> (#[trigger] index[k2]).order_id != id) {
            assert forall|k2: int|
                0 <= k2 < index.drop_first().len() && k2 != k - 1 implies (
            #[trigger] index.drop_first()[k2]).order_id != id by {
                assert(index.drop_first()[k2] == index[k2 + 1]);
            }
        }
    }
}

/// A pair of indices addressing an order inside a sequence of levels.
pub open spec fn valid_pos(levels: Seq<LevelV>, li: int, oi: int) -> bool {
    0 <= li < levels.len() && 0 <= oi < levels[li].orders.len()
}

/// The order at `(li, oi)` of `levels` also rests somewhere in `r`, at a
/// level of the same price.
pub open spec fn order_survives(levels: Seq<LevelV>, r: Seq<LevelV>, li: int, oi: int) -> bool {
    exists|li2: int, oi2: int|
        #![trigger r[li2].orders[oi2]]
        valid_pos(r, li2, oi2) && r[li2].orders[oi2] == levels[li].orders[oi] && r[li2].price
            == levels[li].price
}

/// Every order resting in `levels` also rests in `r`, at the same price.
pub open spec fn orders_preserved(levels: Seq<LevelV>, r: Seq<LevelV>) -> bool {
    forall|li: int, oi: int|
        #![trigger levels[li].orders[oi]]
        valid_pos(levels, li, oi) ==> order_survives(levels, r, li, oi)
}

/// Every order resting in `r` is the order `o` at a level of `o`'s price,
/// or one that already rested in `levels`, at the same price.
pub open spec fn no_new_orders_but(levels: Seq<LevelV>, r: Seq<LevelV>, o: OrderV) -> bool {
    forall|li2: int, oi2: int|
        #![trigger r[li2].orders[oi2]]
        valid_pos(r, li2, oi2) ==> (r[li2].orders[oi2] == o && r[li2].price == o.price)
            || order_survives(r, levels, li2, oi2)
}

/// Every price in the result of [`insert_levels`] is the inserted order's
/// price or one of the old prices.
pub proof fn lemma_insert_levels_prices(side: Side, levels: Seq<LevelV>, o: OrderV, r: Seq<LevelV>)
    requires
        r == insert_levels(side, levels, o),
    ensures
        forall|li: int|
            0 <= li < r.len() ==> (#[trigger] r[li]).price == o.price || exists|lj: int|
                0 <= lj < levels.len() && (#[trigger] levels[lj]).price == r[li].price,
    decreases levels.len(),
{
    if levels.len() == 0 {
    } else if levels[0].price == o.price {
        assert forall|li: int| 0 <= li < r.len() && (#[trigger] r[li]).price != o.price implies
            exists|lj: int| 0 <= lj < levels.len() && (#[trigger] levels[lj]).price
                == r[li].price by {
            assert(r[li] == levels[li]);
        }
    } else if spec_price_before(side, o.price, levels[0].price) {
        assert forall|li: int| 0 <= li < r.len() && (#[trigger] r[li]).price != o.price implies
            exists|lj: int| 0 <= lj < levels.len() && (#[trigger] levels[lj]).price
                == r[li].price by {
            assert(r[li] == levels[li - 1]);
        }
    } else {
        let r2 = insert_levels(side, levels.drop_first(), o);
        lemma_insert_levels_prices(side, levels.drop_first(), o, r2);
        assert forall|li: int| 0 <= li < r.len() && (#[trigger] r[li]).price != o.price implies
            exists|lj: int| 0 <= lj < levels.len() && (#[trigger] levels[lj]).price
                == r[li].price by {
            if li == 0 {
                assert(levels[0].price == r[0].price);
            } else {
                assert(r[li] == r2[li - 1]);
                let lj = choose|lj: int|
                    0 <= lj < levels.drop_first().len() && (#[trigger] levels.drop_first()[
                        lj
                    ]).price == r2[li - 1].price;
                assert(levels[lj + 1].price == r[li].price);
            }
        }
    }
}

/// [`insert_levels`] leaves the inserted order at the tail of the queue of
/// the level at its price.
pub proof fn lemma_insert_levels_contains(side: Side, levels: Seq<LevelV>, o: OrderV, r: Seq<LevelV>)
    requires
        r == insert_levels(side, levels, o),
    ensures
        exists|li: int|
            0 <= li < r.len() && (#[trigger] r[li]).price == o.price && r[li].orders.len() > 0
                && r[li].orders.last() == o,
    decreases levels.len(),
{
    if levels.len() == 0 {
        assert(r[0].price == o.price && r[0].orders.len() > 0 && r[0].orders.last() == o);
    } else if levels[0].price == o.price {
        assert(r[0].price == o.price && r[0].orders.len() > 0 && r[0].orders.last() == o);
    } else if spec_price_before(side, o.price, levels[0].price) {
        assert(r[0].price == o.price && r[0].orders.len() > 0 && r[0].orders.last() == o);
    } else {
        let r2 = insert_levels(side, levels.drop_first(), o);
        lemma_insert_levels_contains(side, levels.drop_first(), o, r2);
        let li = choose|li: int|
            0 <= li < r2.len() && (#[trigger] r2[li]).price == o.price && r2[li].orders.len() > 0
                && r2[li].orders.last() == o;
        assert(r[li + 1] == r2[li]);
        assert(r[li + 1].price == o.price && r[li + 1].orders.len() > 0 && r[li + 1].orders.last()
            == o);
    }
}

/// Every order resting before an insert still rests afterwards, at a level
/// of the same price.
pub proof fn lemma_insert_levels_preserves(
    side: Side,
    levels: Seq<LevelV>,
    o: OrderV,
    r: Seq<LevelV>,
)
    requires
        r == insert_levels(side, levels, o),
    ensures
        orders_preserved(levels, r),
    decreases levels.len(),
{
    if levels.len() == 0 {
        assert forall|li: int, oi: int| valid_pos(levels, li, oi) implies order_survives(
            levels,
            r,
            li,
            oi,
        ) by {}
    } else if levels[0].price == o.price {
        assert forall|li: int, oi: int| valid_pos(levels, li, oi) implies order_survives(
            levels,
            r,
            li,
            oi,
        ) by {
            if li == 0 {
                assert(valid_pos(r, 0, oi));
                assert(r[0].orders[oi] == levels[0].orders[oi] && r[0].price == levels[0].price);
            } else {
                assert(r[li] == levels[li]);
                assert(valid_pos(r, li, oi));
                assert(r[li].orders[oi] == levels[li].orders[oi]);
            }
        }
    } else if spec_price_before(side, o.price, levels[0].price) {
        assert forall|li: int, oi: int| valid_pos(levels, li, oi) implies order_survives(
            levels,
            r,
            li,
            oi,
        ) by {
            assert(r[li + 1] == levels[li]);
            assert(valid_pos(r, li + 1, oi));
            assert(r[li + 1].orders[oi] == levels[li].orders[oi]);
        }
    } else {
        let r2 = insert_levels(side, levels.drop_first(), o);
        lemma_insert_levels_preserves(side, levels.drop_first(), o, r2);
        assert forall|li: int, oi: int| valid_pos(levels, li, oi) implies order_survives(
            levels,
            r,
            li,
            oi,
        ) by {
            if li == 0 {
                assert(r[0] == levels[0]);
                assert(valid_pos(r, 0, oi));
                assert(r[0].orders[oi] == levels[0].orders[oi]);
            } else {
                assert(levels.drop_first()[li - 1] == levels[li]);
                assert(levels.drop_first()[li - 1].orders[oi] == levels[li].orders[oi]);
                assert(valid_pos(levels.drop_first(), li - 1, oi));
                assert(order_survives(levels.drop_first(), r2, li - 1, oi));
                let (li2, oi2) = choose|li2: int, oi2: int|
                    valid_pos(r2, li2, oi2) && (#[trigger] r2[li2].orders[oi2])
                        == levels.drop_first()[li - 1].orders[oi] && r2[li2].price
                        == levels.drop_first()[li - 1].price;
                assert(r[li2 + 1] == r2[li2]);
                assert(valid_pos(r, li2 + 1, oi2));
                assert(r[li2 + 1].orders[oi2] == levels[li].orders[oi]);
            }
        }
    }
}

/// After an insert, every resting order is the inserted one or one that was
/// already resting, at a level of the same price.
pub proof fn lemma_insert_levels_no_junk(
    side: Side,
    levels: Seq<LevelV>,
    o: OrderV,
    r: Seq<LevelV>,
)
    requires
        r == insert_levels(side, levels, o),
    ensures
        no_new_orders_but(levels, r, o),
    decreases levels.len(),
{
    if levels.len() == 0 {
        assert forall|li2: int, oi2: int|
            valid_pos(r, li2, oi2) implies (r[li2].orders[oi2] == o && r[li2].price == o.price)
            || order_survives(r, levels, li2, oi2) by {
            assert(r[0].orders =~= seq![o]);
        }
    } else if levels[0].price == o.price {
        assert forall|li2: int, oi2: int|
            valid_pos(r, li2, oi2) implies (r[li2].orders[oi2] == o && r[li2].price == o.price)
            || order_survives(r, levels, li2, oi2) by {
            if li2 == 0 {
                assert(r[0].orders == levels[0].orders.push(o));
                assert(r[0].price == o.price);
                if oi2 < levels[0].orders.len() {
                    assert(valid_pos(levels, 0, oi2));
                    assert(levels[0].orders[oi2] == r[0].orders[oi2]);
                } else {
                    assert(r[0].orders[oi2] == o);
                }
            } else {
                assert(r[li2] == levels[li2]);
                assert(valid_pos(levels, li2, oi2));
                assert(levels[li2].orders[oi2] == r[li2].orders[oi2]);
            }
        }
    } else if spec_price_before(side, o.price, levels[0].price) {
        assert forall|li2: int, oi2: int|
            valid_pos(r, li2, oi2) implies (r[li2].orders[oi2] == o && r[li2].price == o.price)
            || order_survives(r, levels, li2, oi2) by {
            if li2 == 0 {
                assert(r[0].orders =~= seq![o]);
                assert(r[0].price == o.price);
            } else {
                assert(r[li2] == levels[li2 - 1]);
                assert(valid_pos(levels, li2 - 1, oi2));
                assert(levels[li2 - 1].orders[oi2] == r[li2].orders[oi2]);
            }
        }
    } else {
        let r2 = insert_levels(side, levels.drop_first(), o);
        lemma_insert_levels_no_junk(side, levels.drop_first(), o, r2);
        assert forall|li2: int, oi2: int|
            valid_pos(r, li2, oi2) implies (r[li2].orders[oi2] == o && r[li2].price == o.price)
            || order_survives(r, levels, li2, oi2) by {
            if li2 == 0 {
                assert(r[0] == levels[0]);
                assert(valid_pos(levels, 0, oi2));
                assert(levels[0].orders[oi2] == r[0].orders[oi2]);
            } else {
                assert(r[li2] == r2[li2 - 1]);
                assert(valid_pos(r2, li2 - 1, oi2));
                if r2[li2 - 1].orders[oi2] == o && r2[li2 - 1].price == o.price {
                } else {
                    assert(order_survives(r2, levels.drop_first(), li2 - 1, oi2));
                    let (li, oi) = choose|li: int, oi: int|
                        valid_pos(levels.drop_first(), li, oi) && (#[trigger] levels.drop_first()[
                            li
                        ].orders[oi]) == r2[li2 - 1].orders[oi2] && levels.drop_first()[li].price
                            == r2[li2 - 1].price;
                    assert(levels[li + 1] == levels.drop_first()[li]);
                    assert(valid_pos(levels, li + 1, oi));
                    assert(levels[li + 1].orders[oi] == r[li2].orders[oi2]);
                }
            }
        }
    }
}

/// View of an [`OrderBook`].
pub ghost struct OrderBookV {
    pub buy: BookV,
    pub sell: BookV,
    pub index: Seq<EntryV>,
}

impl OrderBookV {
    /// The side book a side selects.
    pub open spec fn book_of(self, side: Side) -> BookV {
        match side {
            Side::Buy => self.buy,
            Side::Sell => self.sell,
        }
    }

    /// No crossed book: every bid stands strictly below every ask.
    pub open spec fn no_cross(self) -> bool {
        forall|i: int, j: int|
            0 <= i < self.buy.levels.len() && 0 <= j < self.sell.levels.len() ==> (
            #[trigger] self.buy.levels[i]).price < (#[trigger] self.sell.levels[j]).price
    }

    /// Resting a new order of this side at this price keeps the book
    /// uncrossed.
    pub open spec fn would_not_cross(self, side: Side, price: u64) -> bool {
        match side {
            Side::Buy => forall|j: int|
                0 <= j < self.sell.levels.len() ==> price < (#[trigger] self.sell.levels[j]).price,
            Side::Sell => forall|i: int|
                0 <= i < self.buy.levels.len() ==> (#[trigger] self.buy.levels[i]).price < price,
        }
    }

    /// Ids of resting orders are unique within each level's queue.
    pub open spec fn level_ids_distinct(self) -> bool {
        &&& forall|li: int, a: int, b: int|
            0 <= li < self.buy.levels.len() && 0 <= a < b < self.buy.levels[li].orders.len()
                ==> (#[trigger] self.buy.levels[li].orders[a]).order_id != (
            #[trigger] self.buy.levels[li].orders[b]).order_id
        &&& forall|li: int, a: int, b: int|
            0 <= li < self.sell.levels.len() && 0 <= a < b < self.sell.levels[li].orders.len()
                ==> (#[trigger] self.sell.levels[li].orders[a]).order_id != (
            #[trigger] self.sell.levels[li].orders[b]).order_id
    }

    /// The entry references a resting order: its side's book has a level at
    /// its price holding an order with its id.
    pub open spec fn entry_valid(self, e: EntryV) -> bool {
        self.book_of(e.side).has_order_at(e.price, e.order_id)
    }

    /// Every order resting on the book of this side is indexed, at its
    /// level's price.
    pub open spec fn side_complete(self, side: Side) -> bool {
        forall|li: int, oi: int|
            #![trigger self.book_of(side).levels[li].orders[oi]]
            valid_pos(self.book_of(side).levels, li, oi) ==> index_find(
                self.index,
                self.book_of(side).levels[li].orders[oi].order_id,
            ) == Some(
                EntryV {
                    order_id: self.book_of(side).levels[li].orders[oi].order_id,
                    side,
                    price: self.book_of(side).levels[li].price,
                },
            )
    }

    /// Every resting order is referenced by exactly one index entry: each
    /// side's orders are all indexed, and index ids are unique.
    pub open spec fn complete(self) -> bool {
        self.side_complete(Side::Buy) && self.side_complete(Side::Sell)
    }

    /// Well-formedness of the order book:
    /// both side books are well formed and carry their own side; the book is
    /// never crossed; ids are unique within a level and within the index;
    /// every index entry references a live resting order at its stated
    /// side and price; and every resting order is indexed, so the index is
    /// complete as well as sound.
    pub open spec fn wf(self) -> bool {
        &&& self.buy.side == Side::Buy
        &&& self.sell.side == Side::Sell
        &&& self.buy.wf()
        &&& self.sell.wf()
        &&& self.no_cross()
        &&& self.level_ids_distinct()
        &&& forall|k1: int, k2: int|
            0 <= k1 < k2 < self.index.len() ==> (#[trigger] self.index[k1]).order_id != (
            #[trigger] self.index[k2]).order_id
        &&& forall|k: int| 0 <= k < self.index.len() ==> self.entry_valid(#[trigger] self.index[k])
        &&& self.complete()
    }
}

/// Order book of one symbol: both side books plus the order index.
#[derive(Debug)]
pub struct OrderBook {
    pub buy_book: Book,
    pub sell_book: Book,
    pub order_map: Vec<IndexEntry>,
}

impl View for OrderBook {
    type V = OrderBookV;

    open spec fn view(&self) -> OrderBookV {
        OrderBookV { buy: self.buy_book@, sell: self.sell_book@, index: entries_view(self.order_map@) }
    }
}

impl Clone for OrderBook {
    /// A clone of an order book has the same view.
    fn clone(&self) -> (r: Self)
        ensures
            r@ == self@,
    {
        let order_map = self.order_map.clone();
        proof {
            assert forall|i: int| 0 <= i < order_map@.len() implies #[trigger] order_map@[i]@
                == self.order_map@[i]@ by {}
            assert(entries_view(order_map@) =~= entries_view(self.order_map@));
        }
        OrderBook {
            buy_book: self.buy_book.clone(),
            sell_book: self.sell_book.clone(),
            order_map,
        }
    }
}

impl OrderBook {
    /// An empty order book.
    pub fn new() -> (r: Self)
        ensures
            r@.wf(),
            r@.buy.levels.len() == 0,
            r@.sell.levels.len() == 0,
            r@.index.len() == 0,
    {
        let r = OrderBook {
            buy_book: Book::new(Side::Buy),
            sell_book: Book::new(Side::Sell),
            order_map: Vec::new(),
        };
        proof {
            assert(entries_view(r.order_map@) =~= Seq::<EntryV>::empty());
        }
        r
    }

    /// Rest an order on the book of its side and record it in the index.
    pub fn insert_order(&mut self, order: Order)
        requires
            old(self)@.wf(),
            order@.resting_wf(),
            !index_has(old(self)@.index, order@.order_id),
            old(self)@.book_of(order@.side).can_absorb(order@.price, order@.remain_quantity),
            old(self)@.book_of(order@.side).time_fresh(order@.entry_time),
            old(self)@.would_not_cross(order@.side, order@.price),
        ensures
            final(self)@.wf(),
            final(self)@.book_of(order@.side).levels == insert_levels(
                order@.side,
                old(self)@.book_of(order@.side).levels,
                order@,
            ),
            final(self)@.book_of(order@.side.spec_opposite()) == old(self)@.book_of(
                order@.side.spec_opposite(),
            ),
            final(self)@.index == old(self)@.index.push(
                EntryV { order_id: order@.order_id, side: order@.side, price: order@.price },
            ),
            forall|id2: Seq<char>|
                #![trigger index_find(final(self)@.index, id2)]
                index_find(final(self)@.index, id2) == (if id2 == order@.order_id {
                    Some(
                        EntryV {
                            order_id: order@.order_id,
                            side: order@.side,
                            price: order@.price,
                        },
                    )
                } else {
                    index_find(old(self)@.index, id2)
                }),
    {
        let ghost pre = old(self)@;
        let ghost ov = order@;
        let entry = IndexEntry {
            order_id: order.order_id.clone(),
            reference: OrderReference { side: order.side, price: order.price },
        };
        match order.side {
            Side::Buy => {
                self.buy_book.add_order(order);
            },
            Side::Sell => {
                self.sell_book.add_order(order);
            },
        }
        let ghost pre_index = entries_view(self.order_map@);
        self.order_map.push(entry);
        proof {
            let post = self@;
            let ev = EntryV { order_id: ov.order_id, side: ov.side, price: ov.price };
            assert(entries_view(self.order_map@) =~= pre_index.push(ev));
            assert(insert_shape(pre, post, ov));
            lemma_insert_order_wf(pre, post, ov);
        }
    }
}

/// The relation between the order book before and after a resting insert.
pub open spec fn insert_shape(pre: OrderBookV, post: OrderBookV, ov: OrderV) -> bool {
    &&& post.book_of(ov.side).levels == insert_levels(ov.side, pre.book_of(ov.side).levels, ov)
    &&& post.book_of(ov.side.spec_opposite()) == pre.book_of(ov.side.spec_opposite())
    &&& post.buy.side == Side::Buy
    &&& post.sell.side == Side::Sell
    &&& post.buy.wf()
    &&& post.sell.wf()
    &&& post.index == pre.index.push(
        EntryV { order_id: ov.order_id, side: ov.side, price: ov.price },
    )
}

/// A resting insert of a non-crossing order keeps the book uncrossed.
proof fn lemma_insert_no_cross(pre: OrderBookV, post: OrderBookV, ov: OrderV)
    requires
        pre.wf(),
        pre.would_not_cross(ov.side, ov.price),
        insert_shape(pre, post, ov),
    ensures
        post.no_cross(),
{
    lemma_insert_levels_prices(
        ov.side,
        pre.book_of(ov.side).levels,
        ov,
        post.book_of(ov.side).levels,
    );
    assert forall|i: int, j: int|
        0 <= i < post.buy.levels.len() && 0 <= j < post.sell.levels.len() implies (
    #[trigger] post.buy.levels[i]).price < (#[trigger] post.sell.levels[j]).price by {
        match ov.side {
            Side::Buy => {
                assert(post.sell.levels[j] == pre.sell.levels[j]);
            },
            Side::Sell => {
                assert(post.buy.levels[i] == pre.buy.levels[i]);
            },
        }
    }
}

/// A resting insert of an order with a fresh id keeps ids distinct within
/// each level.
proof fn lemma_insert_distinct(pre: OrderBookV, post: OrderBookV, ov: OrderV)
    requires
        pre.wf(),
        !pre.buy.has_order_id(ov.order_id),
        !pre.sell.has_order_id(ov.order_id),
        insert_shape(pre, post, ov),
    ensures
        post.level_ids_distinct(),
{
    assert forall|li: int, a: int, b: int|
        0 <= li < post.buy.levels.len() && 0 <= a < b < post.buy.levels[li].orders.len() implies (
    #[trigger] post.buy.levels[li].orders[a]).order_id != (#[trigger] post.buy.levels[li].orders[
        b
    ]).order_id by {
        if ov.side == Side::Buy {
            lemma_level_ids_distinct_after_insert(pre.buy, ov, post.buy.levels, li, a, b);
        }
    }
    assert forall|li: int, a: int, b: int|
        0 <= li < post.sell.levels.len() && 0 <= a < b < post.sell.levels[li].orders.len() implies (
    #[trigger] post.sell.levels[li].orders[a]).order_id != (#[trigger] post.sell.levels[li].orders[
        b
    ]).order_id by {
        if ov.side == Side::Sell {
            lemma_level_ids_distinct_after_insert(pre.sell, ov, post.sell.levels, li, a, b);
        }
    }
}

/// A resting insert appends one index entry with a fresh id: lookups of
/// other ids are unchanged and the index ids stay unique.
proof fn lemma_insert_index(pre: OrderBookV, post: OrderBookV, ov: OrderV)
    requires
        pre.wf(),
        !index_has(pre.index, ov.order_id),
        insert_shape(pre, post, ov),
    ensures
        forall|k1: int, k2: int|
            0 <= k1 < k2 < post.index.len() ==> (#[trigger] post.index[k1]).order_id != (
            #[trigger] post.index[k2]).order_id,
        forall|id2: Seq<char>|
            #![trigger index_find(post.index, id2)]
            index_find(post.index, id2) == (if id2 == ov.order_id {
                Some(EntryV { order_id: ov.order_id, side: ov.side, price: ov.price })
            } else {
                index_find(pre.index, id2)
            }),
{
    let ev = EntryV { order_id: ov.order_id, side: ov.side, price: ov.price };
    lemma_index_find_none(pre.index, ov.order_id);
    assert forall|k1: int, k2: int| 0 <= k1 < k2 < post.index.len() implies (
    #[trigger] post.index[k1]).order_id != (#[trigger] post.index[k2]).order_id by {
        if k2 == post.index.len() - 1 {
            assert(post.index[k1] == pre.index[k1]);
        }
    }
    assert forall|id2: Seq<char>|
        true implies #[trigger] index_find(post.index, id2) == (if id2 == ov.order_id {
        Some(ev)
    } else {
        index_find(pre.index, id2)
    }) by {
        lemma_index_find_push(pre.index, ev, id2);
    }
}

/// After a resting insert every index entry still references a resting
/// order at its stated side and price.
proof fn lemma_insert_sound(pre: OrderBookV, post: OrderBookV, ov: OrderV)
    requires
        pre.wf(),
        insert_shape(pre, post, ov),
    ensures
        forall|k: int| 0 <= k < post.index.len() ==> post.entry_valid(#[trigger] post.index[k]),
{
    let side = ov.side;
    lemma_insert_levels_contains(side, pre.book_of(side).levels, ov, post.book_of(side).levels);
    lemma_insert_levels_preserves(side, pre.book_of(side).levels, ov, post.book_of(side).levels);
    assert forall|k: int| 0 <= k < post.index.len() implies post.entry_valid(
        #[trigger] post.index[k],
    ) by {
        if k < pre.index.len() {
            assert(pre.index[k] == post.index[k]);
            assert(pre.entry_valid(pre.index[k]));
            let e = pre.index[k];
            if e.side == side {
                let (li, oi) = choose|li: int, oi: int|
                    valid_pos(pre.book_of(e.side).levels, li, oi) && (#[trigger] pre.book_of(
                        e.side,
                    ).levels[li].orders[oi]).order_id == e.order_id && pre.book_of(e.side).levels[
                        li
                    ].price == e.price;
                assert(valid_pos(pre.book_of(side).levels, li, oi));
                assert(pre.book_of(side).levels[li].orders[oi] == pre.book_of(side).levels[
                    li
                ].orders[oi]);
                assert(order_survives(
                    pre.book_of(side).levels,
                    post.book_of(side).levels,
                    li,
                    oi,
                ));
                let (li2, oi2) = choose|li2: int, oi2: int|
                    valid_pos(post.book_of(side).levels, li2, oi2) && (#[trigger] post.book_of(
                        side,
                    ).levels[li2].orders[oi2]) == pre.book_of(side).levels[li].orders[oi]
                        && post.book_of(side).levels[li2].price == pre.book_of(side).levels[
                        li
                    ].price;
                assert(post.entry_valid(e));
            } else {
                assert(post.book_of(e.side) == pre.book_of(e.side));
            }
        } else {
            assert(post.index[k].order_id == ov.order_id && post.index[k].side == side
                && post.index[k].price == ov.price);
            let li = choose|li: int|
                0 <= li < post.book_of(side).levels.len() && (#[trigger] post.book_of(
                    side,
                ).levels[li]).price == ov.price && post.book_of(side).levels[li].orders.len() > 0
                    && post.book_of(side).levels[li].orders.last() == ov;
            assert(valid_pos(
                post.book_of(side).levels,
                li,
                post.book_of(side).levels[li].orders.len() - 1,
            ));
            assert(post.entry_valid(post.index[k]));
        }
    }
}

/// A resting insert preserves the whole order-book invariant.
proof fn lemma_insert_order_wf(pre: OrderBookV, post: OrderBookV, ov: OrderV)
    requires
        pre.wf(),
        ov.resting_wf(),
        !index_has(pre.index, ov.order_id),
        pre.would_not_cross(ov.side, ov.price),
        insert_shape(pre, post, ov),
    ensures
        post.wf(),
        forall|id2: Seq<char>|
            #![trigger index_find(post.index, id2)]
            index_find(post.index, id2) == (if id2 == ov.order_id {
                Some(EntryV { order_id: ov.order_id, side: ov.side, price: ov.price })
            } else {
                index_find(pre.index, id2)
            }),
{
    lemma_complete_fresh(pre, ov.order_id);
    lemma_insert_no_cross(pre, post, ov);
    lemma_insert_distinct(pre, post, ov);
    lemma_insert_index(pre, post, ov);
    lemma_insert_sound(pre, post, ov);
    lemma_insert_complete(pre, post, ov);
}

/// In a well-formed book, an id the index lacks rests nowhere: the index
/// is complete, so an unindexed resting order cannot exist.
pub proof fn lemma_complete_fresh(pre: OrderBookV, id: Seq<char>)
    requires
        pre.wf(),
        !index_has(pre.index, id),
    ensures
        !pre.buy.has_order_id(id),
        !pre.sell.has_order_id(id),
{
    if pre.buy.has_order_id(id) {
        let (li, oi) = choose|li: int, oi: int|
            0 <= li < pre.buy.levels.len() && 0 <= oi < pre.buy.levels[li].orders.len() && (
            #[trigger] pre.buy.levels[li].orders[oi]).order_id == id;
        assert((#[trigger] pre.book_of(Side::Buy).levels[li].orders[oi]).order_id == id);
        assert(valid_pos(pre.book_of(Side::Buy).levels, li, oi));
        assert(index_find(pre.index, id) is Some);
        assert(false);
    }
    if pre.sell.has_order_id(id) {
        let (li, oi) = choose|li: int, oi: int|
            0 <= li < pre.sell.levels.len() && 0 <= oi < pre.sell.levels[li].orders.len() && (
            #[trigger] pre.sell.levels[li].orders[oi]).order_id == id;
        assert((#[trigger] pre.book_of(Side::Sell).levels[li].orders[oi]).order_id == id);
        assert(valid_pos(pre.book_of(Side::Sell).levels, li, oi));
        assert(index_find(pre.index, id) is Some);
        assert(false);
    }
}

/// After a resting insert every resting order is still indexed at its
/// level's price: the old orders keep their entries, the new order gets
/// the pushed one.
proof fn lemma_insert_complete(pre: OrderBookV, post: OrderBookV, ov: OrderV)
    requires
        pre.wf(),
        !index_has(pre.index, ov.order_id),
        insert_shape(pre, post, ov),
    ensures
        post.complete(),
{
    let s = ov.side;
    let opp = s.spec_opposite();
    let ev = EntryV { order_id: ov.order_id, side: s, price: ov.price };
    lemma_complete_fresh(pre, ov.order_id);
    lemma_insert_levels_no_junk(s, pre.book_of(s).levels, ov, post.book_of(s).levels);
    let prelv = pre.book_of(s).levels;
    let postlv = post.book_of(s).levels;
    assert forall|li: int, oi: int|
        #![trigger post.book_of(s).levels[li].orders[oi]]
        valid_pos(post.book_of(s).levels, li, oi) implies index_find(
        post.index,
        post.book_of(s).levels[li].orders[oi].order_id,
    ) == Some(
        EntryV {
            order_id: post.book_of(s).levels[li].orders[oi].order_id,
            side: s,
            price: post.book_of(s).levels[li].price,
        },
    ) by {
        let id = postlv[li].orders[oi].order_id;
        lemma_index_find_push(pre.index, ev, id);
        if postlv[li].orders[oi] == ov && postlv[li].price == ov.price {
            assert(id == ov.order_id);
            assert(index_find(post.index, id) == Some(ev));
        } else {
            assert(order_survives(postlv, prelv, li, oi));
            let (lj, oj) = choose|lj: int, oj: int|
                valid_pos(prelv, lj, oj) && (#[trigger] prelv[lj].orders[oj]) == postlv[li].orders[
                    oi
                ] && prelv[lj].price == postlv[li].price;
            assert((#[trigger] pre.book_of(s).levels[lj].orders[oj]).order_id == id);
            assert(index_find(pre.index, id) == Some(
                EntryV { order_id: id, side: s, price: prelv[lj].price },
            ));
            if id == ov.order_id {
                assert(pre.book_of(s).has_order_id(ov.order_id));
                assert(false);
            }
            assert(index_find(post.index, id) == index_find(pre.index, id));
        }
    }
    assert forall|li: int, oi: int|
        #![trigger post.book_of(opp).levels[li].orders[oi]]
        valid_pos(post.book_of(opp).levels, li, oi) implies index_find(
        post.index,
        post.book_of(opp).levels[li].orders[oi].order_id,
    ) == Some(
        EntryV {
            order_id: post.book_of(opp).levels[li].orders[oi].order_id,
            side: opp,
            price: post.book_of(opp).levels[li].price,
        },
    ) by {
        let id = post.book_of(opp).levels[li].orders[oi].order_id;
        assert(post.book_of(opp) == pre.book_of(opp));
        assert((#[trigger] pre.book_of(opp).levels[li].orders[oi]).order_id == id);
        lemma_index_find_push(pre.index, ev, id);
        if id == ov.order_id {
            assert(pre.book_of(opp).has_order_id(ov.order_id));
            assert(false);
        }
    }
    assert(post.side_complete(Side::Buy) && post.side_complete(Side::Sell)) by {
        if s == Side::Buy {
        } else {
        }
    }
}

/// Inserting an order whose id no resting order of the book carries keeps
/// ids distinct within each level.
proof fn lemma_level_ids_distinct_after_insert(
    pre: BookV,
    o: OrderV,
    post_levels: Seq<LevelV>,
    li: int,
    a: int,
    b: int,
)
    requires
        pre.wf(),
        !pre.has_order_id(o.order_id),
        forall|li0: int, a0: int, b0: int|
            0 <= li0 < pre.levels.len() && 0 <= a0 < b0 < pre.levels[li0].orders.len()
                ==> (#[trigger] pre.levels[li0].orders[a0]).order_id != (
            #[trigger] pre.levels[li0].orders[b0]).order_id,
        post_levels == insert_levels(pre.side, pre.levels, o),
        0 <= li < post_levels.len(),
        0 <= a < b < post_levels[li].orders.len(),
    ensures
        post_levels[li].orders[a].order_id != post_levels[li].orders[b].order_id,
    decreases pre.levels.len(),
{
    let levels = pre.levels;
    let side = pre.side;
    if levels.len() == 0 {
    } else if levels[0].price == o.price {
        if li == 0 {
            assert(post_levels[0].orders == levels[0].orders.push(o));
            if b == levels[0].orders.len() {
                assert(post_levels[0].orders[b] == o);
                assert(post_levels[0].orders[a] == levels[0].orders[a]);
                if levels[0].orders[a].order_id == o.order_id {
                    assert(pre.has_order_id(o.order_id));
                }
            }
        } else {
            assert(post_levels[li] == levels[li]);
        }
    } else if spec_price_before(side, o.price, levels[0].price) {
        if li > 0 {
            assert(post_levels[li] == levels[li - 1]);
        }
    } else {
        if li == 0 {
            assert(post_levels[0] == levels[0]);
        } else {
            let tail_pre = BookV { side, levels: levels.drop_first(), best_level: if levels.len()
                == 1 {
                None
            } else {
                Some(levels[1].price)
            } };
            assert(tail_pre.wf());
            if tail_pre.has_order_id(o.order_id) {
                let (i2, j2) = choose|i2: int, j2: int|
                    0 <= i2 < tail_pre.levels.len() && 0 <= j2 < tail_pre.levels[i2].orders.len()
                        && (#[trigger] tail_pre.levels[i2].orders[j2]).order_id == o.order_id;
                assert(levels[i2 + 1].orders[j2].order_id == o.order_id);
                assert(pre.has_order_id(o.order_id));
            }
            assert(post_levels[li] == insert_levels(side, levels.drop_first(), o)[li - 1]);
            lemma_level_ids_distinct_after_insert(
                tail_pre,
                o,
                insert_levels(side, levels.drop_first(), o),
                li - 1,
                a,
                b,
            );
        }
    }
}

/// The level after the order at `oi` has been taken out.
pub open spec fn level_without(l: LevelV, oi: int) -> LevelV {
    LevelV {
        price: l.price,
        total_volume: (l.total_volume - l.orders[oi].remain_quantity) as u64,
        orders: l.orders.remove(oi),
    }
}

/// The relation between a side book's levels before and after one resting
/// order has been removed: the order with the given id at the level at the
/// given price is taken out, and the level itself is dropped when that
/// leaves it empty.
pub open spec fn removal_shape(
    prelv: Seq<LevelV>,
    postlv: Seq<LevelV>,
    price: u64,
    id: Seq<char>,
    li: int,
    oi: int,
) -> bool {
    &&& valid_pos(prelv, li, oi)
    &&& prelv[li].price == price
    &&& prelv[li].orders[oi].order_id == id
    &&& postlv == (if prelv[li].orders.len() == 1 {
        prelv.remove(li)
    } else {
        prelv.update(li, level_without(prelv[li], oi))
    })
}

/// When entry `k` is the first with its id, `index_find` returns it.
pub proof fn lemma_index_find_first(index: Seq<EntryV>, k: int)
    requires
        0 <= k < index.len(),
        forall|j: int| 0 <= j < k ==> (#[trigger] index[j]).order_id != index[k].order_id,
    ensures
        index_find(index, index[k].order_id) == Some(index[k]),
    decreases k,
{
    if k > 0 {
        assert(index.drop_first()[k - 1] == index[k]);
        assert forall|j: int| 0 <= j < k - 1 implies (#[trigger] index.drop_first()[j]).order_id
            != index.drop_first()[k - 1].order_id by {
            assert(index.drop_first()[j] == index[j + 1]);
        }
        lemma_index_find_first(index.drop_first(), k - 1);
    }
}

impl Book {
    /// Take the order with the given id out of the level at the given
    /// price, dropping the level when it empties, and refresh the cached
    /// best price.  `None` when no such order rests here.
    pub fn remove_order(&mut self, price: u64, order_id: &String) -> (r: Option<Order>)
        requires
            old(self)@.wf(),
        ensures
            final(self)@.side == old(self)@.side,
            final(self)@.wf(),
            r is None ==> final(self)@ == old(self)@ && !old(self)@.has_order_at(
                price,
                order_id@,
            ),
            r matches Some(o) ==> exists|li: int, oi: int|
                #![trigger old(self)@.levels[li].orders[oi]]
                removal_shape(
                    old(self)@.levels,
                    final(self)@.levels,
                    price,
                    order_id@,
                    li,
                    oi,
                ) && o@ == (OrderV {
                    status: OrderStatus::Cancelled,
                    ..old(self)@.levels[li].orders[oi]
                }),
    {
        let ghost prelv = self@.levels;
        let ghost side = self@.side;
        let mut li: usize = 0;
        while li < self.limits.len() && self.limits[li].price != price
            invariant
                0 <= li <= prelv.len(),
                self@.wf(),
                self@.levels == prelv,
                self@.side == side,
                forall|j: int| 0 <= j < li ==> (#[trigger] prelv[j]).price != price,
            decreases prelv.len() - li,
        {
            li = li + 1;
        }
        if li == self.limits.len() {
            proof {
                assert forall|a: int, b: int|
                    0 <= a < prelv.len() && 0 <= b < prelv[a].orders.len() implies !(prelv[
                    a
                ].price == price && (#[trigger] prelv[a].orders[b]).order_id == order_id@) by {}
            }
            return None;
        }
        let mut level = self.limits.remove(li);
        let found = level.find_position(order_id);
        match found {
            None => {
                self.limits.insert(li, level);
                proof {
                    assert(levels_view(self.limits@) =~= prelv);
                    assert forall|a: int, b: int|
                        0 <= a < prelv.len() && 0 <= b < prelv[a].orders.len() implies !(prelv[
                        a
                    ].price == price && (#[trigger] prelv[a].orders[b]).order_id == order_id@) by {
                        if a < li {
                        } else if a > li {
                            assert(spec_price_before(side, prelv[li as int].price, prelv[a].price));
                        }
                    }
                }
                None
            },
            Some(position) => {
                let order = level.cancel_order_at_position(position).unwrap();
                let ghost removed_level = level@;
                if level.is_empty() {
                    proof {
                        assert(levels_view(self.limits@) =~= prelv.remove(li as int));
                        assert(prelv[li as int].orders.len() == 1);
                    }
                } else {
                    self.limits.insert(li, level);
                    proof {
                        assert(levels_view(self.limits@) =~= prelv.update(
                            li as int,
                            removed_level,
                        ));
                        assert(removed_level == level_without(prelv[li as int], position as int));
                    }
                }
                if self.limits.len() > 0 {
                    self.best_level = Some(self.limits[0].price);
                } else {
                    self.best_level = None;
                }
                proof {
                    let postlv = self@.levels;
                    assert(removal_shape(
                        prelv,
                        postlv,
                        price,
                        order_id@,
                        li as int,
                        position as int,
                    ));
                    assert forall|a: int, b: int| 0 <= a < b < postlv.len() implies
                        spec_price_before(side, postlv[a].price, postlv[b].price) by {
                        if prelv[li as int].orders.len() == 1 {
                            assert(postlv =~= prelv.remove(li as int));
                        } else {
                            assert(postlv[a].price == prelv[a].price && postlv[b].price == prelv[
                                b
                            ].price);
                        }
                    }
                    assert(final(self)@.wf());
                }
                Some(order)
            },
        }
    }
}

/// The relation between the order book before and after a cancel that found
/// its order: entry `k` of the index carried the id, and the referenced
/// order was removed from the book of the entry's side.
pub open spec fn cancel_shape(
    pre: OrderBookV,
    post: OrderBookV,
    e: EntryV,
    li: int,
    oi: int,
    k: int,
) -> bool {
    &&& 0 <= k < pre.index.len()
    &&& pre.index[k] == e
    &&& post.index == pre.index.remove(k)
    &&& removal_shape(
        pre.book_of(e.side).levels,
        post.book_of(e.side).levels,
        e.price,
        e.order_id,
        li,
        oi,
    )
    &&& post.book_of(e.side.spec_opposite()) == pre.book_of(e.side.spec_opposite())
    &&& post.buy.side == Side::Buy
    &&& post.sell.side == Side::Sell
    &&& post.buy.wf()
    &&& post.sell.wf()
}

/// Removing a resting order cannot cross the book.
proof fn lemma_cancel_no_cross(pre: OrderBookV, post: OrderBookV, e: EntryV, li: int, oi: int, k: int)
    requires
        pre.wf(),
        cancel_shape(pre, post, e, li, oi, k),
    ensures
        post.no_cross(),
{
    let prelv = pre.book_of(e.side).levels;
    let postlv = post.book_of(e.side).levels;
    assert forall|i: int, j: int|
        0 <= i < post.buy.levels.len() && 0 <= j < post.sell.levels.len() implies (
    #[trigger] post.buy.levels[i]).price < (#[trigger] post.sell.levels[j]).price by {
        match e.side {
            Side::Buy => {
                assert(post.sell.levels[j] == pre.sell.levels[j]);
                if prelv[li].orders.len() == 1 {
                    assert(postlv =~= prelv.remove(li));
                    if i < li {
                        assert(post.buy.levels[i] == pre.buy.levels[i]);
                    } else {
                        assert(post.buy.levels[i] == pre.buy.levels[i + 1]);
                    }
                } else {
                    assert(post.buy.levels[i].price == pre.buy.levels[i].price);
                }
            },
            Side::Sell => {
                assert(post.buy.levels[i] == pre.buy.levels[i]);
                if prelv[li].orders.len() == 1 {
                    assert(postlv =~= prelv.remove(li));
                    if j < li {
                        assert(post.sell.levels[j] == pre.sell.levels[j]);
                    } else {
                        assert(post.sell.levels[j] == pre.sell.levels[j + 1]);
                    }
                } else {
                    assert(post.sell.levels[j].price == pre.sell.levels[j].price);
                }
            },
        }
    }
}

/// Removing a resting order keeps ids distinct within each level.
proof fn lemma_cancel_distinct(pre: OrderBookV, post: OrderBookV, e: EntryV, li: int, oi: int, k: int)
    requires
        pre.wf(),
        cancel_shape(pre, post, e, li, oi, k),
    ensures
        post.level_ids_distinct(),
{
    let prelv = pre.book_of(e.side).levels;
    let postlv = post.book_of(e.side).levels;
    assert forall|lj: int, a: int, b: int|
        0 <= lj < post.buy.levels.len() && 0 <= a < b < post.buy.levels[lj].orders.len() implies (
    #[trigger] post.buy.levels[lj].orders[a]).order_id != (#[trigger] post.buy.levels[lj].orders[
        b
    ]).order_id by {
        if e.side == Side::Buy {
            lemma_cancel_distinct_level(prelv, postlv, li, oi, lj, a, b);
        }
    }
    assert forall|lj: int, a: int, b: int|
        0 <= lj < post.sell.levels.len() && 0 <= a < b < post.sell.levels[lj].orders.len() implies (
    #[trigger] post.sell.levels[lj].orders[a]).order_id != (#[trigger] post.sell.levels[lj].orders[
        b
    ]).order_id by {
        if e.side == Side::Sell {
            lemma_cancel_distinct_level(prelv, postlv, li, oi, lj, a, b);
        }
    }
}

/// One level's ids stay distinct when an order is removed somewhere.
proof fn lemma_cancel_distinct_level(
    prelv: Seq<LevelV>,
    postlv: Seq<LevelV>,
    li: int,
    oi: int,
    lj: int,
    a: int,
    b: int,
)
    requires
        valid_pos(prelv, li, oi),
        postlv == (if prelv[li].orders.len() == 1 {
            prelv.remove(li)
        } else {
            prelv.update(li, level_without(prelv[li], oi))
        }),
        forall|l0: int, a0: int, b0: int|
            0 <= l0 < prelv.len() && 0 <= a0 < b0 < prelv[l0].orders.len() ==> (
            #[trigger] prelv[l0].orders[a0]).order_id != (#[trigger] prelv[l0].orders[
                b0
            ]).order_id,
        0 <= lj < postlv.len(),
        0 <= a < b < postlv[lj].orders.len(),
    ensures
        postlv[lj].orders[a].order_id != postlv[lj].orders[b].order_id,
{
    if prelv[li].orders.len() == 1 {
        assert(postlv =~= prelv.remove(li));
        if lj < li {
            assert(postlv[lj] == prelv[lj]);
        } else {
            assert(postlv[lj] == prelv[lj + 1]);
        }
    } else {
        if lj != li {
            assert(postlv[lj] == prelv[lj]);
        } else {
            let q = prelv[li].orders;
            let qr = q.remove(oi);
            let a0: int = if a < oi { a } else { a + 1 };
            let b0: int = if b < oi { b } else { b + 1 };
            assert(qr[a] == q[a0]);
            assert(qr[b] == q[b0]);
        }
    }
}

/// Removing index entry `k` erases its id and leaves other lookups alone.
proof fn lemma_cancel_index(pre: OrderBookV, post: OrderBookV, e: EntryV, li: int, oi: int, k: int)
    requires
        pre.wf(),
        cancel_shape(pre, post, e, li, oi, k),
    ensures
        forall|k1: int, k2: int|
            0 <= k1 < k2 < post.index.len() ==> (#[trigger] post.index[k1]).order_id != (
            #[trigger] post.index[k2]).order_id,
        !index_has(post.index, e.order_id),
        forall|id2: Seq<char>|
            id2 != e.order_id ==> #[trigger] index_find(post.index, id2) == index_find(
                pre.index,
                id2,
            ),
{
    assert forall|k1: int, k2: int| 0 <= k1 < k2 < post.index.len() implies (
    #[trigger] post.index[k1]).order_id != (#[trigger] post.index[k2]).order_id by {
        let a0: int = if k1 < k { k1 } else { k1 + 1 };
        let b0: int = if k2 < k { k2 } else { k2 + 1 };
        assert(post.index[k1] == pre.index[a0]);
        assert(post.index[k2] == pre.index[b0]);
    }
    lemma_index_find_remove(pre.index, k, e.order_id);
    assert forall|id2: Seq<char>| id2 != e.order_id implies #[trigger] index_find(post.index, id2)
        == index_find(pre.index, id2) by {
        lemma_index_find_remove(pre.index, k, id2);
    }
}

/// After a cancel every remaining index entry still references a resting
/// order at its stated side and price.
proof fn lemma_cancel_sound(pre: OrderBookV, post: OrderBookV, e: EntryV, li: int, oi: int, k: int)
    requires
        pre.wf(),
        cancel_shape(pre, post, e, li, oi, k),
    ensures
        forall|k2: int| 0 <= k2 < post.index.len() ==> post.entry_valid(#[trigger] post.index[k2]),
{
    let prelv = pre.book_of(e.side).levels;
    let postlv = post.book_of(e.side).levels;
    assert forall|k2: int| 0 <= k2 < post.index.len() implies post.entry_valid(
        #[trigger] post.index[k2],
    ) by {
        let k0: int = if k2 < k { k2 } else { k2 + 1 };
        assert(post.index[k2] == pre.index[k0]);
        let e2 = pre.index[k0];
        assert(pre.entry_valid(e2));
        assert(e2.order_id != e.order_id);
        if e2.side != e.side {
            assert(post.book_of(e2.side) == pre.book_of(e2.side));
        } else {
            let (lj, oj) = choose|lj: int, oj: int|
                #![trigger prelv[lj].orders[oj]]
                0 <= lj < prelv.len() && 0 <= oj < prelv[lj].orders.len() && prelv[lj].price
                    == e2.price && prelv[lj].orders[oj].order_id == e2.order_id;
            if prelv[li].orders.len() == 1 {
                assert(postlv =~= prelv.remove(li));
                if lj < li {
                    assert(postlv[lj] == prelv[lj]);
                    assert(postlv[lj].orders[oj].order_id == e2.order_id);
                } else if lj > li {
                    assert(postlv[lj - 1] == prelv[lj]);
                    assert(postlv[lj - 1].orders[oj].order_id == e2.order_id);
                } else {
                    assert(oj == 0 && oi == 0);
                    assert(prelv[lj].orders[oj].order_id == e.order_id);
                }
            } else {
                if lj != li {
                    assert(postlv[lj] == prelv[lj]);
                    assert(postlv[lj].orders[oj].order_id == e2.order_id);
                } else {
                    assert(oj != oi);
                    let oj2: int = if oj < oi { oj } else { oj - 1 };
                    assert(prelv[li].orders.remove(oi)[oj2] == prelv[li].orders[oj]);
                    assert(postlv[lj].orders[oj2].order_id == e2.order_id);
                    assert(postlv[lj].price == e2.price);
                }
            }
        }
    }
}

/// A cancel that found its order preserves the whole order-book invariant.
proof fn lemma_cancel_wf(pre: OrderBookV, post: OrderBookV, e: EntryV, li: int, oi: int, k: int)
    requires
        pre.wf(),
        cancel_shape(pre, post, e, li, oi, k),
    ensures
        post.wf(),
        !index_has(post.index, e.order_id),
        forall|id2: Seq<char>|
            id2 != e.order_id ==> #[trigger] index_find(post.index, id2) == index_find(
                pre.index,
                id2,
            ),
{
    lemma_cancel_no_cross(pre, post, e, li, oi, k);
    lemma_cancel_distinct(pre, post, e, li, oi, k);
    lemma_cancel_index(pre, post, e, li, oi, k);
    lemma_cancel_sound(pre, post, e, li, oi, k);
    lemma_cancel_complete(pre, post, e, li, oi, k);
}

/// After a cancel every remaining resting order is still indexed at its
/// level's price: only the cancelled order's entry left the index.
proof fn lemma_cancel_complete(
    pre: OrderBookV,
    post: OrderBookV,
    e: EntryV,
    li: int,
    oi: int,
    k: int,
)
    requires
        pre.wf(),
        cancel_shape(pre, post, e, li, oi, k),
    ensures
        post.complete(),
{
    let s = e.side;
    let opp = s.spec_opposite();
    let prelv = pre.book_of(s).levels;
    let postlv = post.book_of(s).levels;
    assert forall|j: int| 0 <= j < k implies (#[trigger] pre.index[j]).order_id
        != e.order_id by {}
    lemma_index_find_first(pre.index, k);
    assert(index_find(pre.index, e.order_id) == Some(e));
    // the walked side: every remaining order maps back to a position other
    // than the removed one
    assert forall|lj: int, oj: int|
        #![trigger post.book_of(s).levels[lj].orders[oj]]
        valid_pos(post.book_of(s).levels, lj, oj) implies index_find(
        post.index,
        post.book_of(s).levels[lj].orders[oj].order_id,
    ) == Some(
        EntryV {
            order_id: post.book_of(s).levels[lj].orders[oj].order_id,
            side: s,
            price: post.book_of(s).levels[lj].price,
        },
    ) by {
        let id = postlv[lj].orders[oj].order_id;
        let single = prelv[li].orders.len() == 1;
        let lj0: int = if single {
            if lj < li {
                lj
            } else {
                lj + 1
            }
        } else {
            lj
        };
        let oj0: int = if single || lj != li {
            oj
        } else if oj < oi {
            oj
        } else {
            oj + 1
        };
        if single {
            assert(postlv =~= prelv.remove(li));
            assert(postlv[lj] == prelv[lj0]);
        } else {
            assert(postlv == prelv.update(li, level_without(prelv[li], oi)));
            if lj != li {
                assert(postlv[lj] == prelv[lj]);
            } else {
                assert(postlv[li].orders == prelv[li].orders.remove(oi));
                assert(postlv[li].orders[oj] == prelv[li].orders[oj0]);
                assert(postlv[li].price == prelv[li].price);
            }
        }
        assert(valid_pos(prelv, lj0, oj0));
        assert(prelv[lj0].orders[oj0] == postlv[lj].orders[oj]);
        assert(prelv[lj0].price == postlv[lj].price);
        assert((#[trigger] pre.book_of(s).levels[lj0].orders[oj0]).order_id == id);
        assert(index_find(pre.index, id) == Some(
            EntryV { order_id: id, side: s, price: prelv[lj0].price },
        ));
        if id == e.order_id {
            // the entry values agree, so the prices agree, so the level is
            // the removed order's level, and two orders of one level would
            // share an id
            assert(prelv[lj0].price == e.price);
            assert(prelv[li].price == e.price);
            if lj0 != li {
                if lj0 < li {
                    assert(spec_price_before(s, prelv[lj0].price, prelv[li].price));
                } else {
                    assert(spec_price_before(s, prelv[li].price, prelv[lj0].price));
                }
                assert(false);
            }
            assert(oj0 != oi);
            assert(prelv[li].orders[oj0].order_id != prelv[li].orders[oi].order_id) by {
                match s {
                    Side::Buy => {
                        assert(pre.book_of(Side::Buy) == pre.buy);
                        assert(pre.buy.levels[li].orders[oj0] == prelv[li].orders[oj0]);
                        assert(pre.buy.levels[li].orders[oi] == prelv[li].orders[oi]);
                    },
                    Side::Sell => {
                        assert(pre.book_of(Side::Sell) == pre.sell);
                        assert(pre.sell.levels[li].orders[oj0] == prelv[li].orders[oj0]);
                        assert(pre.sell.levels[li].orders[oi] == prelv[li].orders[oi]);
                    },
                }
            }
            assert(false);
        }
        lemma_index_find_remove(pre.index, k, id);
        assert(index_find(post.index, id) == index_find(pre.index, id));
    }
    // the untouched side: ids there cannot be the cancelled one, whose
    // entry points at the other side
    assert forall|lj: int, oj: int|
        #![trigger post.book_of(opp).levels[lj].orders[oj]]
        valid_pos(post.book_of(opp).levels, lj, oj) implies index_find(
        post.index,
        post.book_of(opp).levels[lj].orders[oj].order_id,
    ) == Some(
        EntryV {
            order_id: post.book_of(opp).levels[lj].orders[oj].order_id,
            side: opp,
            price: post.book_of(opp).levels[lj].price,
        },
    ) by {
        let id = post.book_of(opp).levels[lj].orders[oj].order_id;
        assert(post.book_of(opp) == pre.book_of(opp));
        assert((#[trigger] pre.book_of(opp).levels[lj].orders[oj]).order_id == id);
        assert(index_find(pre.index, id) == Some(
            EntryV { order_id: id, side: opp, price: pre.book_of(opp).levels[lj].price },
        ));
        if id == e.order_id {
            assert(opp == e.side);
            assert(false);
        }
        lemma_index_find_remove(pre.index, k, id);
    }
    assert(post.side_complete(Side::Buy) && post.side_complete(Side::Sell)) by {
        if s == Side::Buy {
        } else {
        }
    }
}

impl OrderBook {
    /// Cancel the resting order with the given id: drop its index entry,
    /// take it out of its price level (dropping the level when it empties),
    /// and hand it back with status `Cancelled`.  `None` when the id is
    /// unknown; a repeated cancel is therefore answered `None` and leaves
    /// the book untouched.
    pub fn cancel_order(&mut self, order_id: &String) -> (r: Option<Order>)
        requires
            old(self)@.wf(),
        ensures
            final(self)@.wf(),
            index_find(old(self)@.index, order_id@) is None ==> r is None && final(self)@ == old(
                self,
            )@,
            index_find(old(self)@.index, order_id@) matches Some(e) ==> {
                &&& r matches Some(o)
                &&& o@.status == OrderStatus::Cancelled
                &&& o@.order_id == order_id@
                &&& exists|li: int, oi: int, k: int|
                    #![trigger cancel_shape(old(self)@, final(self)@, e, li, oi, k)]
                    cancel_shape(old(self)@, final(self)@, e, li, oi, k) && o@ == (OrderV {
                        status: OrderStatus::Cancelled,
                        ..old(self)@.book_of(e.side).levels[li].orders[oi]
                    })
                &&& !index_has(final(self)@.index, order_id@)
                &&& forall|id2: Seq<char>|
                    id2 != order_id@ ==> #[trigger] index_find(final(self)@.index, id2)
                        == index_find(old(self)@.index, id2)
            },
    {
        let ghost pre = self@;
        let mut k: usize = 0;
        while k < self.order_map.len()
            invariant
                0 <= k <= pre.index.len(),
                pre.wf(),
                pre == old(self)@,
                self@ == pre,
                forall|j: int| 0 <= j < k ==> (#[trigger] pre.index[j]).order_id != order_id@,
            decreases pre.index.len() - k,
        {
            if self.order_map[k].order_id == *order_id {
                proof {
                    lemma_index_find_first(pre.index, k as int);
                }
                let entry = self.order_map.remove(k);
                proof {
                    assert(entries_view(self.order_map@) =~= pre.index.remove(k as int));
                }
                let ghost e = pre.index[k as int];
                let removed = match entry.reference.side {
                    Side::Buy => {
                        proof {
                            assert(pre.entry_valid(e));
                        }
                        self.buy_book.remove_order(entry.reference.price, order_id)
                    },
                    Side::Sell => {
                        proof {
                            assert(pre.entry_valid(e));
                        }
                        self.sell_book.remove_order(entry.reference.price, order_id)
                    },
                };
                let order = removed.unwrap();
                proof {
                    let post = self@;
                    let bpre = pre.book_of(e.side);
                    let bpost = post.book_of(e.side);
                    let (li, oi) = choose|li: int, oi: int|
                        #![trigger bpre.levels[li].orders[oi]]
                        removal_shape(bpre.levels, bpost.levels, e.price, order_id@, li, oi)
                            && order@ == (OrderV {
                            status: OrderStatus::Cancelled,
                            ..bpre.levels[li].orders[oi]
                        });
                    assert(post.index == pre.index.remove(k as int));
                    assert(post.book_of(e.side.spec_opposite()) == pre.book_of(
                        e.side.spec_opposite(),
                    ));
                    assert(cancel_shape(pre, post, e, li, oi, k as int));
                    lemma_cancel_wf(pre, post, e, li, oi, k as int);
                    assert(index_find(pre.index, order_id@) == Some(e));
                }
                return Some(order);
            }
            k = k + 1;
        }
        proof {
            lemma_index_find_none(pre.index, order_id@);
        }
        None
    }

    /// Best bid and best ask prices.
    pub fn top_of_book(&self) -> (r: (Option<u64>, Option<u64>))
        requires
            self@.wf(),
        ensures
            r.0 == self@.buy.best_level,
            r.1 == self@.sell.best_level,
    {
        (self.buy_book.best_level, self.sell_book.best_level)
    }

    /// Whether every order resting on the book of this side arrived
    /// strictly before the given admission stamp, so that an order with
    /// this stamp may rest there.
    pub fn accepts_entry_time(&self, side: Side, entry_time: u64) -> (r: bool)
        requires
            self@.wf(),
        ensures
            r == self@.book_of(side).time_fresh(entry_time),
    {
        let book = match side {
            Side::Buy => &self.buy_book,
            Side::Sell => &self.sell_book,
        };
        let ghost bv = self@.book_of(side);
        proof {
            assert(bv == book@);
        }
        let mut li: usize = 0;
        while li < book.limits.len()
            invariant
                0 <= li <= bv.levels.len(),
                bv == book@,
                bv == self@.book_of(side),
                forall|a: int, b: int|
                    0 <= a < li && 0 <= b < bv.levels[a].orders.len() ==> (
                    #[trigger] bv.levels[a].orders[b]).entry_time < entry_time,
            decreases bv.levels.len() - li,
        {
            let level = &book.limits[li];
            let mut oi: usize = 0;
            while oi < level.orders.len()
                invariant
                    0 <= oi <= level@.orders.len(),
                    li < bv.levels.len(),
                    bv == book@,
                    bv == self@.book_of(side),
                    level@ == bv.levels[li as int],
                    forall|b: int|
                        0 <= b < oi ==> (#[trigger] bv.levels[li as int].orders[b]).entry_time
                            < entry_time,
                decreases level@.orders.len() - oi,
            {
                if level.orders[oi].entry_time >= entry_time {
                    proof {
                        assert(bv.levels[li as int].orders[oi as int].entry_time >= entry_time);
                    }
                    return false;
                }
                oi = oi + 1;
            }
            li = li + 1;
        }
        true
    }

    /// Whether the index holds an entry for this id, and where it points.
    pub fn order_ref(&self, order_id: &String) -> (r: Option<OrderReference>)
        requires
            self@.wf(),
        ensures
            r is None <==> index_find(self@.index, order_id@) is None,
            r matches Some(q) ==> index_find(self@.index, order_id@) == Some(
                EntryV { order_id: order_id@, side: q.side, price: q.price },
            ),
    {
        let ghost pre = self@;
        let mut k: usize = 0;
        while k < self.order_map.len()
            invariant
                0 <= k <= pre.index.len(),
                pre.wf(),
                self@ == pre,
                forall|j: int| 0 <= j < k ==> (#[trigger] pre.index[j]).order_id != order_id@,
            decreases pre.index.len() - k,
        {
            if self.order_map[k].order_id == *order_id {
                proof {
                    lemma_index_find_first(pre.index, k as int);
                }
                return Some(self.order_map[k].reference);
            }
            k = k + 1;
        }
        proof {
            lemma_index_find_none(pre.index, order_id@);
        }
        None
    }
}

} // verus!
