//! Admission: the sequencer validates a submission, stamps it with the
//! server-assigned id and the monotonic entry time, and only then hands it
//! to the matching engine.  Rejected commands never reach the engine.

use vstd::prelude::*;

use crate::models::{Order, OrderStatus, OrderType, Side};

verus! {

/// Why the sequencer refused a submission.
#[derive(Clone, Copy, Debug, PartialEq, Eq, Structural)]
pub enum AdmissionError {
    ZeroQuantity,
    ZeroPrice,
}

/// Validate a submission and build the admitted order.
///
/// A quantity of zero is rejected; a limit order with price zero is
/// rejected; everything else is admitted with nothing filled, everything
/// remaining, and status `New`.  `order_id` and `entry_time` are the
/// server-assigned identity and the monotonic admission stamp.
pub fn admit_order(
    order_id: String,
    symbol: String,
    side: Side,
    order_type: OrderType,
    price: u64,
    quantity: u64,
    entry_time: u64,
) -> (r: Result<Order, AdmissionError>)
    ensures
        quantity == 0 <==> r == Result::<Order, AdmissionError>::Err(AdmissionError::ZeroQuantity),
        (quantity >= 1 && order_type == OrderType::Limit && price == 0) <==> r == Result::<
            Order,
            AdmissionError,
        >::Err(AdmissionError::ZeroPrice),
        (quantity >= 1 && (order_type == OrderType::Market || price >= 1)) ==> (r matches Ok(o) && {
            &&& o@.order_id == order_id@
            &&& o@.symbol == symbol@
            &&& o@.side == side
            &&& o@.order_type == order_type
            &&& o@.price == price
            &&& o@.quantity == quantity
            &&& o@.entry_time == entry_time
            &&& crate::matching_engine::admitted_wf(o@)
        }),
{
    if quantity == 0 {
        return Err(AdmissionError::ZeroQuantity);
    }
    if matches!(order_type, OrderType::Limit) && price == 0 {
        return Err(AdmissionError::ZeroPrice);
    }
    Ok(
        Order {
            order_id,
            symbol,
            price,
            quantity,
            side,
            order_type,
            status: OrderStatus::New,
            filled_quantity: 0,
            remain_quantity: quantity,
            entry_time,
        },
    )
}

} // verus!
