//! Value types of the matching core: sides, order types, order status,
//! orders, executions, and the mathematical views the contracts speak of.
//!
//! Prices are unsigned integers in ticks; quantities are unsigned integers in
//! the smallest tradable unit.  `entry_time` is the sequencer-assigned
//! monotonic timestamp used as the tie-break within a price level.

use vstd::prelude::*;

verus! {

/// Side of an order: `Buy` rests on the bid book, `Sell` on the ask book.
#[derive(Clone, Copy, Debug, PartialEq, Eq, Structural)]
pub enum Side {
    Buy,
    Sell,
}

impl Side {
    /// The opposite side: the book an aggressor of this side walks.
    pub open spec fn spec_opposite(self) -> Side {
        match self {
            Side::Buy => Side::Sell,
            Side::Sell => Side::Buy,
        }
    }

    /// Executable counterpart of [`Side::spec_opposite`].
    pub fn opposite(self) -> (r: Side)
        ensures
            r == self.spec_opposite(),
    {
        match self {
            Side::Buy => Side::Sell,
            Side::Sell => Side::Buy,
        }
    }

    /// Price ordering for this side's book: on the buy side the *highest*
    /// price comes first, on the sell side the *lowest*.
    pub fn compare(&self, a: &u64, b: &u64) -> (r: core::cmp::Ordering)
        ensures
            r == core::cmp::Ordering::Equal <==> a == b,
            r == core::cmp::Ordering::Less <==> spec_price_before(*self, *a, *b),
            r == core::cmp::Ordering::Greater <==> spec_price_before(*self, *b, *a),
    {
        match self {
            Side::Buy => {
                if *b < *a {
                    core::cmp::Ordering::Less
                } else if *b == *a {
                    core::cmp::Ordering::Equal
                } else {
                    core::cmp::Ordering::Greater
                }
            },
            Side::Sell => {
                if *a < *b {
                    core::cmp::Ordering::Less
                } else if *a == *b {
                    core::cmp::Ordering::Equal
                } else {
                    core::cmp::Ordering::Greater
                }
            },
        }
    }
}

/// `p` has strictly better priority than `q` on a book of side `side`.
pub open spec fn spec_price_before(side: Side, p: u64, q: u64) -> bool {
    match side {
        Side::Buy => p > q,
        Side::Sell => p < q,
    }
}

/// Limit orders carry a price bound; market orders ignore price.
#[derive(Clone, Copy, Debug, PartialEq, Eq, Structural)]
pub enum OrderType {
    Limit,
    Market,
}

/// Lifecycle state of an order.  `Filled` and `Cancelled` are terminal.
#[derive(Clone, Copy, Debug, PartialEq, Eq, Structural)]
pub enum OrderStatus {
    New,
    PartiallyFilled,
    Filled,
    Cancelled,
}

/// An order: a submission command and, after admission, a resting entity.
#[derive(Debug)]
pub struct Order {
    pub order_id: String,
    pub symbol: String,
    pub price: u64,
    pub quantity: u64,
    pub side: Side,
    pub order_type: OrderType,
    pub status: OrderStatus,
    pub filled_quantity: u64,
    pub remain_quantity: u64,
    pub entry_time: u64,
}

/// Mathematical view of an [`Order`]: strings become character sequences.
pub ghost struct OrderV {
    pub order_id: Seq<char>,
    pub symbol: Seq<char>,
    pub price: u64,
    pub quantity: u64,
    pub side: Side,
    pub order_type: OrderType,
    pub status: OrderStatus,
    pub filled_quantity: u64,
    pub remain_quantity: u64,
    pub entry_time: u64,
}

impl View for Order {
    type V = OrderV;

    open spec fn view(&self) -> OrderV {
        OrderV {
            order_id: self.order_id@,
            symbol: self.symbol@,
            price: self.price,
            quantity: self.quantity,
            side: self.side,
            order_type: self.order_type,
            status: self.status,
            filled_quantity: self.filled_quantity,
            remain_quantity: self.remain_quantity,
            entry_time: self.entry_time,
        }
    }
}

impl Clone for Order {
    /// A clone of an order is field-for-field the same order.
    fn clone(&self) -> (r: Self)
        ensures
            r@ == self@,
    {
        Order {
            order_id: self.order_id.clone(),
            symbol: self.symbol.clone(),
            price: self.price,
            quantity: self.quantity,
            side: self.side,
            order_type: self.order_type,
            status: self.status,
            filled_quantity: self.filled_quantity,
            remain_quantity: self.remain_quantity,
            entry_time: self.entry_time,
        }
    }
}

impl OrderV {
    /// Quantity bookkeeping of a single order: what was asked for is what has
    /// filled plus what remains.
    pub open spec fn quantities_consistent(self) -> bool {
        self.quantity == self.remain_quantity + self.filled_quantity
    }

    /// A resting order: quantities consistent, something still to trade, and
    /// a non-terminal status.
    pub open spec fn resting_wf(self) -> bool {
        &&& self.quantities_consistent()
        &&& self.remain_quantity >= 1
        &&& (self.status == OrderStatus::New || self.status == OrderStatus::PartiallyFilled)
    }
}

/// A trade print.  Two are emitted per match step, one for each counterparty.
/// Fees are carried by downstream consumers, not computed by the core.
#[derive(Debug)]
pub struct Execution {
    pub exec_id: String,
    pub order_id: String,
    pub symbol: String,
    pub side: Side,
    pub price: u64,
    pub quantity: u64,
    pub transaction_time: u64,
}

/// Mathematical view of an [`Execution`].
pub ghost struct ExecutionV {
    pub exec_id: Seq<char>,
    pub order_id: Seq<char>,
    pub symbol: Seq<char>,
    pub side: Side,
    pub price: u64,
    pub quantity: u64,
    pub transaction_time: u64,
}

impl View for Execution {
    type V = ExecutionV;

    open spec fn view(&self) -> ExecutionV {
        ExecutionV {
            exec_id: self.exec_id@,
            order_id: self.order_id@,
            symbol: self.symbol@,
            side: self.side,
            price: self.price,
            quantity: self.quantity,
            transaction_time: self.transaction_time,
        }
    }
}

impl Clone for Execution {
    /// A clone of an execution is field-for-field the same execution.
    fn clone(&self) -> (r: Self)
        ensures
            r@ == self@,
    {
        Execution {
            exec_id: self.exec_id.clone(),
            order_id: self.order_id.clone(),
            symbol: self.symbol.clone(),
            side: self.side,
            price: self.price,
            quantity: self.quantity,
            transaction_time: self.transaction_time,
        }
    }
}

/// Envelope for orders travelling through the sequencer pipeline.
#[derive(Debug)]
pub struct OrderMessage(pub Order);

impl Clone for OrderMessage {
    fn clone(&self) -> (r: Self)
        ensures
            r.0@ == self.0@,
    {
        OrderMessage(self.0.clone())
    }
}

/// Entry of the order index: where a resting order lives, by side and price.
/// Within the level the order is found by its id, so the reference stays
/// valid when other orders at the same price are removed.
#[derive(Clone, Copy, Debug, PartialEq, Eq, Structural)]
pub struct OrderReference {
    pub side: Side,
    pub price: u64,
}

} // verus!
