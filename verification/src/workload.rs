//! The order flow used to profile the engine.
use crate::types::{Order, OrderId, OrderType, Price, Qty, Side, TimeInForce, Timestamp};
use vstd::prelude::*;

verus! {

/// The `id`-th profiling order: a good-till-cancelled limit buy of 10 at
/// price 100, stamped with its id.
pub fn make_profile_order(id: u64) -> (o: Order)
    ensures
        o == (Order {
            id: OrderId(id),
            side: Side::Buy,
            order_type: OrderType::Limit,
            tif: TimeInForce::GTC,
            price: Some(Price(100)),
            qty: Qty(10),
            remaining_qty: Qty(10),
            timestamp: Timestamp(id),
        }),
{
    Order {
        id: OrderId(id),
        side: Side::Buy,
        order_type: OrderType::Limit,
        tif: TimeInForce::GTC,
        price: Some(Price(100)),
        qty: Qty(10),
        remaining_qty: Qty(10),
        timestamp: Timestamp(id),
    }
}

} // verus!
