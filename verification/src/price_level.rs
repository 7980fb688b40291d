//! A price level: the FIFO queue of resting orders at one price, together
//! with the cached total volume (the sum of the orders' remaining
//! quantities).

use vstd::prelude::*;
use std::collections::VecDeque;

use crate::models::{Order, OrderV, OrderStatus};
use crate::{min_u64, spec_min_u64};

verus! {

/// View of a sequence of orders as a sequence of order views.
pub open spec fn orders_view(s: Seq<Order>) -> Seq<OrderV> {
    s.map_values(|o: Order| o@)
}

/// Sum of the remaining quantities of a queue of orders.
pub open spec fn sum_remain(s: Seq<OrderV>) -> int
    decreases s.len(),
{
    if s.len() == 0 {
        0
    } else {
        s[0].remain_quantity + sum_remain(s.drop_first())
    }
}

pub proof fn lemma_sum_remain_nonneg(s: Seq<OrderV>)
    ensures
        sum_remain(s) >= 0,
    decreases s.len(),
{
    if s.len() > 0 {
        lemma_sum_remain_nonneg(s.drop_first());
    }
}

pub proof fn lemma_sum_remain_push(s: Seq<OrderV>, o: OrderV)
    ensures
        sum_remain(s.push(o)) == sum_remain(s) + o.remain_quantity,
    decreases s.len(),
{
    if s.len() == 0 {
        assert(s.push(o).drop_first() =~= s);
    } else {
        assert(s.push(o).drop_first() =~= s.drop_first().push(o));
        lemma_sum_remain_push(s.drop_first(), o);
    }
}

pub proof fn lemma_sum_remain_remove(s: Seq<OrderV>, i: int)
    requires
        0 <= i < s.len(),
    ensures
        sum_remain(s.remove(i)) == sum_remain(s) - s[i].remain_quantity,
    decreases s.len(),
{
    if i == 0 {
        assert(s.remove(0) =~= s.drop_first());
    } else {
        assert(s.remove(i).drop_first() =~= s.drop_first().remove(i - 1));
        lemma_sum_remain_remove(s.drop_first(), i - 1);
    }
}

/// View of a [`PriceLevel`].
pub ghost struct LevelV {
    pub price: u64,
    pub total_volume: u64,
    pub orders: Seq<OrderV>,
}

impl LevelV {
    /// Well-formedness of a price level:
    /// the cached `total_volume` is exactly the sum of the resting orders'
    /// remaining quantities; every order rests at this level's price with a
    /// live status and consistent quantities; and the queue is ordered by
    /// strictly increasing entry time, so that FIFO position and time agree.
    pub open spec fn wf(self) -> bool {
        &&& self.total_volume == sum_remain(self.orders)
        &&& forall|i: int|
            0 <= i < self.orders.len() ==> (#[trigger] self.orders[i]).price == self.price
        &&& forall|i: int| 0 <= i < self.orders.len() ==> (#[trigger] self.orders[i]).resting_wf()
        &&& forall|i: int, j: int|
            0 <= i < j < self.orders.len() ==> self.orders[i].entry_time < self.orders[
                j
            ].entry_time
    }

    /// All orders at the level belong to one side of the book.
    pub open spec fn all_side(self, side: crate::models::Side) -> bool {
        forall|i: int| 0 <= i < self.orders.len() ==> (#[trigger] self.orders[i]).side == side
    }

    /// The entry time every later arrival must exceed.
    pub open spec fn last_entry_time(self) -> u64
        recommends
            self.orders.len() > 0,
    {
        self.orders[self.orders.len() - 1].entry_time
    }
}

/// FIFO queue of resting orders at one price.
#[derive(Debug)]
pub struct PriceLevel {
    pub price: u64,
    pub total_volume: u64,
    pub orders: VecDeque<Order>,
}

impl View for PriceLevel {
    type V = LevelV;

    open spec fn view(&self) -> LevelV {
        LevelV { price: self.price, total_volume: self.total_volume, orders: orders_view(self.orders@) }
    }
}

impl Clone for PriceLevel {
    /// A clone of a price level has the same view.
    fn clone(&self) -> (r: Self)
        ensures
            r@ == self@,
    {
        let mut orders: VecDeque<Order> = VecDeque::new();
        let mut i: usize = 0;
        while i < self.orders.len()
            invariant
                i <= self.orders@.len(),
                orders_view(orders@) =~= orders_view(self.orders@).subrange(0, i as int),
            decreases self.orders@.len() - i,
        {
            let ghost pre = orders@;
            let copy = self.orders[i].clone();
            assert(copy@ == orders_view(self.orders@)[i as int]);
            orders.push_back(copy);
            proof {
                assert(orders_view(orders@) =~= orders_view(pre).push(copy@));
                assert(orders_view(orders@) =~= orders_view(self.orders@).subrange(0, i + 1));
            }
            i = i + 1;
        }
        proof {
            assert(orders_view(orders@) =~= orders_view(self.orders@));
        }
        PriceLevel { price: self.price, total_volume: self.total_volume, orders }
    }
}

impl PriceLevel {
    /// An empty level at the given price.
    pub fn new(price: u64) -> (r: Self)
        ensures
            r@.price == price,
            r@.total_volume == 0,
            r@.orders == Seq::<OrderV>::empty(),
            r@.wf(),
    {
        let r = PriceLevel { price, total_volume: 0, orders: VecDeque::new() };
        proof {
            assert(orders_view(r.orders@) =~= Seq::<OrderV>::empty());
        }
        r
    }

    /// Number of orders resting at the level.
    pub fn order_count(&self) -> (r: usize)
        ensures
            r == self@.orders.len(),
    {
        self.orders.len()
    }

    /// Push an order to the tail of the queue and grow the total volume by
    /// its remaining quantity.  Returns the order's position in the queue at
    /// the time of insertion.
    pub fn add_order(&mut self, order: Order) -> (position: usize)
        requires
            old(self)@.wf(),
            order@.resting_wf(),
            order@.price == old(self)@.price,
            old(self)@.total_volume + order@.remain_quantity <= u64::MAX,
            old(self)@.orders.len() > 0 ==> order@.entry_time > old(self)@.last_entry_time(),
        ensures
            final(self)@.price == old(self)@.price,
            final(self)@.orders == old(self)@.orders.push(order@),
            final(self)@.total_volume == old(self)@.total_volume + order@.remain_quantity,
            final(self)@.wf(),
            position == old(self)@.orders.len(),
    {
        proof {
            lemma_sum_remain_nonneg(old(self)@.orders);
            lemma_sum_remain_push(old(self)@.orders, order@);
        }
        self.total_volume = self.total_volume + order.remain_quantity;
        let position = self.orders.len();
        let ghost pre = self.orders@;
        self.orders.push_back(order);
        proof {
            assert(orders_view(self.orders@) =~= orders_view(pre).push(order@));
        }
        position
    }

    /// One match step against the head of the queue.
    ///
    /// Takes `m = min(head.remaining, qty)` off the head order and off the
    /// total volume.  If the head is thereby exhausted it is popped with
    /// status `Filled`; otherwise it stays in place with status
    /// `PartiallyFilled`.  Returns the head as of after the step, and `m`.
    pub fn match_order(&mut self, qty: u64) -> (r: Option<(Order, u64)>)
        requires
            old(self)@.wf(),
            qty >= 1,
        ensures
            final(self)@.price == old(self)@.price,
            final(self)@.wf(),
            old(self)@.orders.len() == 0 ==> r is None && final(self)@ == old(self)@,
            old(self)@.orders.len() > 0 ==> {
                let head = old(self)@.orders[0];
                let m = spec_min_u64(head.remain_quantity, qty);
                let stepped = OrderV {
                    remain_quantity: (head.remain_quantity - m) as u64,
                    filled_quantity: (head.filled_quantity + m) as u64,
                    status: if m == head.remain_quantity {
                        OrderStatus::Filled
                    } else {
                        OrderStatus::PartiallyFilled
                    },
                    ..head
                };
                &&& r matches Some(p)
                &&& p.0@ == stepped
                &&& p.1 == m
                &&& final(self)@.total_volume == old(self)@.total_volume - m
                &&& final(self)@.orders == if m == head.remain_quantity {
                    old(self)@.orders.drop_first()
                } else {
                    old(self)@.orders.update(0, stepped)
                }
            },
    {
        let ghost pre = self@.orders;
        if self.orders.len() == 0 {
            proof {
                assert(orders_view(self.orders@) =~= pre);
            }
            return None;
        }
        let mut front = self.orders.pop_front().unwrap();
        let matched = min_u64(front.remain_quantity, qty);
        proof {
            lemma_sum_remain_nonneg(pre.drop_first());
            assert(orders_view(self.orders@) =~= pre.drop_first());
        }
        front.remain_quantity = front.remain_quantity - matched;
        front.filled_quantity = front.filled_quantity + matched;
        self.total_volume = self.total_volume - matched;
        if front.remain_quantity == 0 {
            front.status = OrderStatus::Filled;
            Some((front, matched))
        } else {
            front.status = OrderStatus::PartiallyFilled;
            let keep = front.clone();
            let ghost mid = self.orders@;
            self.orders.push_front(front);
            proof {
                assert(orders_view(self.orders@) =~= pre.update(0, keep@));
                assert(pre.update(0, keep@).drop_first() =~= pre.drop_first());
            }
            Some((keep, matched))
        }
    }

    /// Remove the order at `position`, shrink the total volume by its
    /// remaining quantity, and hand the order back with status `Cancelled`.
    /// `None` when the position is out of range.
    pub fn cancel_order_at_position(&mut self, position: usize) -> (r: Option<Order>)
        requires
            old(self)@.wf(),
        ensures
            final(self)@.price == old(self)@.price,
            final(self)@.wf(),
            position >= old(self)@.orders.len() ==> r is None && final(self)@ == old(self)@,
            position < old(self)@.orders.len() ==> {
                &&& r matches Some(o)
                &&& o@ == (OrderV {
                    status: OrderStatus::Cancelled,
                    ..old(self)@.orders[position as int]
                })
                &&& final(self)@.orders == old(self)@.orders.remove(position as int)
                &&& final(self)@.total_volume == old(self)@.total_volume - o@.remain_quantity
            },
    {
        let ghost pre = self@.orders;
        if position < self.orders.len() {
            let mut order = self.orders.remove(position).unwrap();
            proof {
                assert(orders_view(self.orders@) =~= pre.remove(position as int));
                lemma_sum_remain_remove(pre, position as int);
                lemma_sum_remain_nonneg(pre.remove(position as int));
            }
            self.total_volume = self.total_volume - order.remain_quantity;
            order.status = OrderStatus::Cancelled;
            Some(order)
        } else {
            proof {
                assert(orders_view(self.orders@) =~= pre);
            }
            None
        }
    }

    /// Queue position of the order with the given id, if it rests here.
    pub fn find_position(&self, order_id: &String) -> (r: Option<usize>)
        ensures
            r is None ==> forall|j: int|
                0 <= j < self@.orders.len() ==> (#[trigger] self@.orders[j]).order_id
                    != order_id@,
            r matches Some(p) ==> p < self@.orders.len() && self@.orders[
                p as int
            ].order_id == order_id@,
    {
        let ghost q = self@.orders;
        let mut j: usize = 0;
        while j < self.orders.len()
            invariant
                0 <= j <= q.len(),
                self@.orders == q,
                forall|i: int| 0 <= i < j ==> (#[trigger] q[i]).order_id != order_id@,
            decreases q.len() - j,
        {
            if self.orders[j].order_id == *order_id {
                return Some(j);
            }
            j = j + 1;
        }
        None
    }

    /// Whether the level holds no orders (and is eligible for removal).
    pub fn is_empty(&self) -> (r: bool)
        ensures
            r == (self@.orders.len() == 0),
    {
        self.orders.len() == 0
    }
}

} // verus!
