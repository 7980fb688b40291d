//! Delayed-order scheduling: orders carry an execution time; a release
//! pass moves every order that has come due from the delayed book into the
//! live book and keeps the rest pending.

use vstd::prelude::*;

use crate::strings::str_eq;

verus! {

/// A scheduled order: an id, the time it becomes due, a direction given as
/// plain text, and its size and price.
#[derive(Debug)]
pub struct Order {
    pub order_id: String,
    pub timestamp: u64,
    pub action: String,
    pub quantity: u64,
    pub price: u64,
}

/// Mathematical view of a scheduled [`Order`].
pub ghost struct TradeOrderV {
    pub order_id: Seq<char>,
    pub timestamp: u64,
    pub action: Seq<char>,
    pub quantity: u64,
    pub price: u64,
}

impl View for Order {
    type V = TradeOrderV;

    open spec fn view(&self) -> TradeOrderV {
        TradeOrderV {
            order_id: self.order_id@,
            timestamp: self.timestamp,
            action: self.action@,
            quantity: self.quantity,
            price: self.price,
        }
    }
}

impl Clone for Order {
    /// A clone of a scheduled order has the same view.
    fn clone(&self) -> (r: Self)
        ensures
            r@ == self@,
    {
        Order {
            order_id: self.order_id.clone(),
            timestamp: self.timestamp,
            action: self.action.clone(),
            quantity: self.quantity,
            price: self.price,
        }
    }
}

/// View of a sequence of scheduled orders.
pub open spec fn trade_orders_view(s: Seq<Order>) -> Seq<TradeOrderV> {
    s.map_values(|o: Order| o@)
}

/// A well-formed scheduled order: something to trade, a positive price,
/// and a direction that is exactly a buy or a sell.
pub open spec fn spec_valid_scheduled(o: TradeOrderV) -> bool {
    &&& o.quantity >= 1
    &&& o.price >= 1
    &&& (o.action == "buy"@ || o.action == "sell"@)
}

impl Order {
    /// Whether the order passes admission to the delayed book.
    pub fn is_valid(&self) -> (r: bool)
        ensures
            r == spec_valid_scheduled(self@),
    {
        self.quantity >= 1 && self.price >= 1 && (str_eq(self.action.as_str(), "buy") || str_eq(
            self.action.as_str(),
            "sell",
        ))
    }
}

/// A queue keyed by order id: adding an order with a known id replaces it,
/// a fresh id appends.
#[derive(Debug)]
pub struct OrderQueue {
    pub orders: Vec<Order>,
}

impl View for OrderQueue {
    type V = Seq<TradeOrderV>;

    open spec fn view(&self) -> Seq<TradeOrderV> {
        trade_orders_view(self.orders@)
    }
}

/// What adding one order does to a queue: replace the first entry with the
/// same id, or append.
pub open spec fn queue_add(q: Seq<TradeOrderV>, o: TradeOrderV) -> Seq<TradeOrderV>
    decreases q.len(),
{
    if q.len() == 0 {
        seq![o]
    } else if q[0].order_id == o.order_id {
        seq![o] + q.drop_first()
    } else {
        seq![q[0]] + queue_add(q.drop_first(), o)
    }
}

/// [`queue_add`] past a prefix of entries with other ids.
proof fn lemma_queue_add_skip(q: Seq<TradeOrderV>, o: TradeOrderV, k: int)
    requires
        0 <= k <= q.len(),
        forall|j: int| 0 <= j < k ==> (#[trigger] q[j]).order_id != o.order_id,
    ensures
        queue_add(q, o) == q.subrange(0, k) + queue_add(q.skip(k), o),
    decreases k,
{
    if k == 0 {
        assert(q.skip(0) =~= q);
        assert(q.subrange(0, 0) + queue_add(q, o) =~= queue_add(q, o));
    } else {
        lemma_queue_add_skip(q.drop_first(), o, k - 1);
        assert forall|j: int| 0 <= j < k - 1 implies (#[trigger] q.drop_first()[j]).order_id
            != o.order_id by {
            assert(q.drop_first()[j] == q[j + 1]);
        }
        assert(q.drop_first().subrange(0, k - 1) =~= q.subrange(1, k));
        assert(q.drop_first().skip(k - 1) =~= q.skip(k));
        assert(seq![q[0]] + (q.subrange(1, k) + queue_add(q.skip(k), o)) =~= q.subrange(0, k)
            + queue_add(q.skip(k), o));
    }
}

impl OrderQueue {
    /// An empty queue.
    pub fn new() -> (r: Self)
        ensures
            r@ == Seq::<TradeOrderV>::empty(),
    {
        let r = OrderQueue { orders: Vec::new() };
        proof {
            assert(r@ =~= Seq::<TradeOrderV>::empty());
        }
        r
    }

    /// Add an order: replace the entry with its id, or append it.
    pub fn add_order(&mut self, order: Order)
        ensures
            final(self)@ == queue_add(old(self)@, order@),
    {
        let ghost pre = self@;
        let mut k: usize = 0;
        while k < self.orders.len()
            invariant
                0 <= k <= pre.len(),
                pre == old(self)@,
                self@ == pre,
                forall|j: int| 0 <= j < k ==> (#[trigger] pre[j]).order_id != order@.order_id,
            decreases pre.len() - k,
        {
            if self.orders[k].order_id == order.order_id {
                proof {
                    lemma_queue_add_skip(pre, order@, k as int);
                    assert(pre.skip(k as int)[0] == pre[k as int]);
                }
                self.orders.remove(k);
                self.orders.insert(k, order);
                proof {
                    assert(self@ =~= pre.subrange(0, k as int) + (seq![order@] + pre.skip(
                        k as int,
                    ).drop_first()));
                }
                return ;
            }
            k = k + 1;
        }
        proof {
            lemma_queue_add_skip(pre, order@, pre.len() as int);
            assert(pre.skip(pre.len() as int) =~= Seq::<TradeOrderV>::empty());
        }
        self.orders.push(order);
        proof {
            assert(self@ =~= pre.subrange(0, pre.len() as int) + seq![order@]);
        }
    }

    /// Clones of all orders in the queue, in queue order.
    pub fn get_orders(&self) -> (r: Vec<Order>)
        ensures
            trade_orders_view(r@) == self@,
    {
        let mut out: Vec<Order> = Vec::new();
        let mut i: usize = 0;
        while i < self.orders.len()
            invariant
                0 <= i <= self@.len(),
                self@ == trade_orders_view(self.orders@),
                out@.len() == i,
                forall|j: int| 0 <= j < i ==> #[trigger] out@[j]@ == self@[j],
            decreases self@.len() - i,
        {
            out.push(self.orders[i].clone());
            i = i + 1;
        }
        proof {
            assert(trade_orders_view(out@) =~= self@);
        }
        out
    }
}

/// Buy and sell queues: an order routes by its action text; anything that
/// is not a buy counts as a sell, as at admission only those two pass.
#[derive(Debug)]
pub struct OrderBook {
    pub buy_orders: OrderQueue,
    pub sell_orders: OrderQueue,
}

impl OrderBook {
    /// Two empty queues.
    pub fn new() -> (r: Self)
        ensures
            r.buy_orders@ == Seq::<TradeOrderV>::empty(),
            r.sell_orders@ == Seq::<TradeOrderV>::empty(),
    {
        OrderBook { buy_orders: OrderQueue::new(), sell_orders: OrderQueue::new() }
    }

    /// Route an order by its action.
    pub fn add_order(&mut self, order: Order)
        ensures
            order@.action == "buy"@ ==> final(self).buy_orders@ == queue_add(
                old(self).buy_orders@,
                order@,
            ) && final(self).sell_orders@ == old(self).sell_orders@,
            order@.action != "buy"@ ==> final(self).sell_orders@ == queue_add(
                old(self).sell_orders@,
                order@,
            ) && final(self).buy_orders@ == old(self).buy_orders@,
    {
        if str_eq(order.action.as_str(), "buy") {
            self.buy_orders.add_order(order);
        } else {
            self.sell_orders.add_order(order);
        }
    }

    /// All orders, the buy queue's first.
    pub fn get_orders(&self) -> (r: Vec<Order>)
        ensures
            trade_orders_view(r@) == self.buy_orders@ + self.sell_orders@,
    {
        let mut orders = self.buy_orders.get_orders();
        let mut more = self.sell_orders.get_orders();
        let ghost b = trade_orders_view(orders@);
        let ghost s = trade_orders_view(more@);
        let mut i: usize = 0;
        while i < more.len()
            invariant
                0 <= i <= more@.len(),
                s == trade_orders_view(more@),
                trade_orders_view(orders@) == b + s.take(i as int),
            decreases more@.len() - i,
        {
            let ghost pre = trade_orders_view(orders@);
            orders.push(more[i].clone());
            proof {
                assert(trade_orders_view(orders@) =~= pre.push(s[i as int]));
                assert(pre.push(s[i as int]) =~= b + s.take(i + 1));
            }
            i = i + 1;
        }
        proof {
            assert(s.take(s.len() as int) =~= s);
        }
        orders
    }
}

/// The orders of `s` due at time `t`, in order.
pub open spec fn due_orders(s: Seq<TradeOrderV>, t: u64) -> Seq<TradeOrderV>
    decreases s.len(),
{
    if s.len() == 0 {
        Seq::empty()
    } else {
        let rest = due_orders(s.drop_first(), t);
        if s[0].timestamp <= t {
            seq![s[0]] + rest
        } else {
            rest
        }
    }
}

/// The orders of `s` still pending after time `t`, in order.
pub open spec fn kept_orders(s: Seq<TradeOrderV>, t: u64) -> Seq<TradeOrderV>
    decreases s.len(),
{
    if s.len() == 0 {
        Seq::empty()
    } else {
        let rest = kept_orders(s.drop_first(), t);
        if s[0].timestamp <= t {
            rest
        } else {
            seq![s[0]] + rest
        }
    }
}

/// [`due_orders`] and [`kept_orders`] over a longer prefix.
proof fn lemma_due_kept_take(s: Seq<TradeOrderV>, t: u64, i: int)
    requires
        0 <= i < s.len(),
    ensures
        due_orders(s.take(i + 1), t) == (if s[i].timestamp <= t {
            due_orders(s.take(i), t).push(s[i])
        } else {
            due_orders(s.take(i), t)
        }),
        kept_orders(s.take(i + 1), t) == (if s[i].timestamp <= t {
            kept_orders(s.take(i), t)
        } else {
            kept_orders(s.take(i), t).push(s[i])
        }),
    decreases i,
{
    if i == 0 {
        assert(s.take(1) =~= seq![s[0]]);
        assert(s.take(1).drop_first() =~= Seq::<TradeOrderV>::empty());
        assert(s.take(0) =~= Seq::<TradeOrderV>::empty());
        assert(due_orders(s.take(1).drop_first(), t) =~= Seq::<TradeOrderV>::empty());
        assert(kept_orders(s.take(1).drop_first(), t) =~= Seq::<TradeOrderV>::empty());
        if s[0].timestamp <= t {
            assert(due_orders(s.take(1), t) =~= Seq::<TradeOrderV>::empty().push(s[0]));
        } else {
            assert(kept_orders(s.take(1), t) =~= Seq::<TradeOrderV>::empty().push(s[0]));
        }
    } else {
        lemma_due_kept_take(s.drop_first(), t, i - 1);
        assert(s.take(i + 1).drop_first() =~= s.drop_first().take(i));
        assert(s.take(i).drop_first() =~= s.drop_first().take(i - 1));
        assert(s.drop_first()[i - 1] == s[i]);
        if s[0].timestamp <= t {
            if s[i].timestamp <= t {
                assert(seq![s[0]] + due_orders(s.drop_first().take(i - 1), t).push(s[i]) =~= (seq![
                    s[0],
                ] + due_orders(s.drop_first().take(i - 1), t)).push(s[i]));
            } else {
                assert(kept_orders(s.take(i), t) == kept_orders(s.drop_first().take(i - 1), t));
            }
        } else {
            if s[i].timestamp <= t {
                assert(due_orders(s.take(i), t) == due_orders(s.drop_first().take(i - 1), t));
            } else {
                assert(seq![s[0]] + kept_orders(s.drop_first().take(i - 1), t).push(s[i]) =~= (
                seq![s[0]] + kept_orders(s.drop_first().take(i - 1), t)).push(s[i]));
            }
        }
    }
}

/// A book folded with a sequence of routed orders, first to last.
pub open spec fn fold_book_add(
    buy: Seq<TradeOrderV>,
    sell: Seq<TradeOrderV>,
    orders: Seq<TradeOrderV>,
) -> (Seq<TradeOrderV>, Seq<TradeOrderV>)
    decreases orders.len(),
{
    if orders.len() == 0 {
        (buy, sell)
    } else {
        let o = orders[0];
        if o.action == "buy"@ {
            fold_book_add(queue_add(buy, o), sell, orders.drop_first())
        } else {
            fold_book_add(buy, queue_add(sell, o), orders.drop_first())
        }
    }
}

/// Delayed and live books: submitted orders wait in the delayed book until
/// a release pass finds them due.
#[derive(Debug)]
pub struct TradingSystem {
    pub delayed_order_book: OrderBook,
    pub order_book: OrderBook,
}

/// View of a [`TradingSystem`]: the four queues.
pub ghost struct SystemV {
    pub delayed_buy: Seq<TradeOrderV>,
    pub delayed_sell: Seq<TradeOrderV>,
    pub live_buy: Seq<TradeOrderV>,
    pub live_sell: Seq<TradeOrderV>,
}

impl View for TradingSystem {
    type V = SystemV;

    open spec fn view(&self) -> SystemV {
        SystemV {
            delayed_buy: self.delayed_order_book.buy_orders@,
            delayed_sell: self.delayed_order_book.sell_orders@,
            live_buy: self.order_book.buy_orders@,
            live_sell: self.order_book.sell_orders@,
        }
    }
}

/// What one release pass at time `t` does: every delayed order due at `t`
/// moves into the live book, in delayed-book order (buys first), and the
/// rest stays pending.
pub open spec fn release_shape(pre: SystemV, post: SystemV, t: u64) -> bool {
    let pending = pre.delayed_buy + pre.delayed_sell;
    let live = fold_book_add(pre.live_buy, pre.live_sell, due_orders(pending, t));
    let kept = fold_book_add(Seq::empty(), Seq::empty(), kept_orders(pending, t));
    &&& post.live_buy == live.0
    &&& post.live_sell == live.1
    &&& post.delayed_buy == kept.0
    &&& post.delayed_sell == kept.1
}

impl TradingSystem {
    /// Two empty books.
    pub fn new() -> (r: Self)
        ensures
            r.delayed_order_book.buy_orders@ == Seq::<TradeOrderV>::empty(),
            r.delayed_order_book.sell_orders@ == Seq::<TradeOrderV>::empty(),
            r.order_book.buy_orders@ == Seq::<TradeOrderV>::empty(),
            r.order_book.sell_orders@ == Seq::<TradeOrderV>::empty(),
    {
        TradingSystem { delayed_order_book: OrderBook::new(), order_book: OrderBook::new() }
    }

    /// Accept an order into the delayed book; it is not executed yet.
    pub fn add_order(&mut self, order: Order)
        ensures
            order@.action == "buy"@ ==> final(self).delayed_order_book.buy_orders@ == queue_add(
                old(self).delayed_order_book.buy_orders@,
                order@,
            ) && final(self).delayed_order_book.sell_orders@ == old(
                self,
            ).delayed_order_book.sell_orders@,
            order@.action != "buy"@ ==> final(self).delayed_order_book.sell_orders@ == queue_add(
                old(self).delayed_order_book.sell_orders@,
                order@,
            ) && final(self).delayed_order_book.buy_orders@ == old(
                self,
            ).delayed_order_book.buy_orders@,
            final(self).order_book.buy_orders@ == old(self).order_book.buy_orders@,
            final(self).order_book.sell_orders@ == old(self).order_book.sell_orders@,
    {
        self.delayed_order_book.add_order(order);
    }

    /// Release every delayed order due at `current_time` into the live
    /// book, in delayed-book order (buys first), and keep the rest
    /// pending.
    pub fn execute_order_at(&mut self, current_time: u64)
        ensures
            release_shape(old(self)@, final(self)@, current_time),
    {
        let pending_orders = self.delayed_order_book.get_orders();
        let ghost pending = trade_orders_view(pending_orders@);
        let ghost t = current_time;
        self.delayed_order_book.buy_orders.orders.clear();
        self.delayed_order_book.sell_orders.orders.clear();
        proof {
            assert(self.delayed_order_book.buy_orders@ =~= Seq::<TradeOrderV>::empty());
            assert(self.delayed_order_book.sell_orders@ =~= Seq::<TradeOrderV>::empty());
            assert(pending.take(0) =~= Seq::<TradeOrderV>::empty());
            assert(due_orders(pending.take(0), t) =~= Seq::<TradeOrderV>::empty());
            assert(kept_orders(pending.take(0), t) =~= Seq::<TradeOrderV>::empty());
        }
        let mut i: usize = 0;
        while i < pending_orders.len()
            invariant
                0 <= i <= pending.len(),
                pending == trade_orders_view(pending_orders@),
                t == current_time,
                ({
                    let live = fold_book_add(
                        old(self).order_book.buy_orders@,
                        old(self).order_book.sell_orders@,
                        due_orders(pending.take(i as int), t),
                    );
                    let kept = fold_book_add(
                        Seq::empty(),
                        Seq::empty(),
                        kept_orders(pending.take(i as int), t),
                    );
                    &&& self.order_book.buy_orders@ == live.0
                    &&& self.order_book.sell_orders@ == live.1
                    &&& self.delayed_order_book.buy_orders@ == kept.0
                    &&& self.delayed_order_book.sell_orders@ == kept.1
                }),
            decreases pending.len() - i,
        {
            let order = pending_orders[i].clone();
            proof {
                lemma_due_kept_take(pending, t, i as int);
                lemma_fold_book_add_push(
                    old(self).order_book.buy_orders@,
                    old(self).order_book.sell_orders@,
                    due_orders(pending.take(i as int), t),
                    pending[i as int],
                );
                lemma_fold_book_add_push(
                    Seq::empty(),
                    Seq::empty(),
                    kept_orders(pending.take(i as int), t),
                    pending[i as int],
                );
            }
            if order.timestamp <= current_time {
                self.order_book.add_order(order);
            } else {
                self.delayed_order_book.add_order(order);
            }
            i = i + 1;
        }
        proof {
            assert(pending.take(pending.len() as int) =~= pending);
        }
    }

    /// Release every delayed order due now, by the wall clock: whatever
    /// time the clock returned, the post-state is one release pass at that
    /// time, so pending orders only move into the live book.
    pub fn execute_order(&mut self)
        ensures
            exists|t: u64| release_shape(old(self)@, final(self)@, t),
    {
        let now = crate::clock::unix_now();
        self.execute_order_at(now);
        proof {
            assert(release_shape(old(self)@, final(self)@, now));
        }
    }
}

/// Folding one more order through [`fold_book_add`].
proof fn lemma_fold_book_add_push(
    buy: Seq<TradeOrderV>,
    sell: Seq<TradeOrderV>,
    orders: Seq<TradeOrderV>,
    o: TradeOrderV,
)
    ensures
        fold_book_add(buy, sell, orders.push(o)) == (if o.action == "buy"@ {
            (
                queue_add(fold_book_add(buy, sell, orders).0, o),
                fold_book_add(buy, sell, orders).1,
            )
        } else {
            (
                fold_book_add(buy, sell, orders).0,
                queue_add(fold_book_add(buy, sell, orders).1, o),
            )
        }),
    decreases orders.len(),
{
    if orders.len() == 0 {
        assert(orders.push(o).drop_first() =~= Seq::<TradeOrderV>::empty());
        assert(fold_book_add(buy, sell, Seq::<TradeOrderV>::empty()) == (buy, sell));
        if o.action == "buy"@ {
            assert(fold_book_add(queue_add(buy, o), sell, Seq::<TradeOrderV>::empty()) == (
                queue_add(buy, o),
                sell,
            ));
        } else {
            assert(fold_book_add(buy, queue_add(sell, o), Seq::<TradeOrderV>::empty()) == (
                buy,
                queue_add(sell, o),
            ));
        }
    } else {
        assert(orders.push(o).drop_first() =~= orders.drop_first().push(o));
        if orders[0].action == "buy"@ {
            lemma_fold_book_add_push(queue_add(buy, orders[0]), sell, orders.drop_first(), o);
        } else {
            lemma_fold_book_add_push(buy, queue_add(sell, orders[0]), orders.drop_first(), o);
        }
    }
}

} // verus!
