use vstd::prelude::*;

verus! {

/// A price in integer ticks.
#[derive(Debug, Clone, Copy, PartialEq, Eq, PartialOrd, Ord, Hash, Structural)]
pub struct Price(pub u64);

/// A quantity in base-asset units (the smallest denomination).
#[derive(Debug, Clone, Copy, PartialEq, Eq, PartialOrd, Ord, Structural)]
pub struct Qty(pub u64);

/// A caller-chosen order identifier.
#[derive(Debug, Clone, Copy, PartialEq, Eq, Hash, Structural)]
pub struct OrderId(pub u64);

/// A caller-supplied timestamp in nanoseconds.
#[derive(Debug, Clone, Copy, PartialEq, Eq, PartialOrd, Ord, Structural)]
pub struct Timestamp(pub u64);

impl core::ops::Sub for Price {
    type Output = Self;

    fn sub(self, other: Self) -> (r: Self) {
        Price(self.0 - other.0)
    }
}

impl vstd::std_specs::ops::SubSpecImpl for Price {
    open spec fn obeys_sub_spec() -> bool {
        true
    }

    open spec fn sub_req(self, rhs: Price) -> bool {
        rhs.0 <= self.0
    }

    open spec fn sub_spec(self, rhs: Price) -> Price {
        Price((self.0 - rhs.0) as u64)
    }
}

impl Qty {
    /// Adds `rhs` to this quantity in place.
    pub fn add_assign(&mut self, rhs: Qty)
        requires
            old(self).0 + rhs.0 <= u64::MAX,
        ensures
            final(self).0 == old(self).0 + rhs.0,
    {
        self.0 = self.0 + rhs.0;
    }
}

#[derive(Debug, Clone, Copy, PartialEq, Eq, Structural)]
pub enum Side {
    Buy,
    Sell,
}

#[derive(Debug, Clone, Copy, PartialEq, Eq, Structural)]
pub enum OrderType {
    Limit,
    Market,
}

/// GTC (Good 'Til Canceled): the remainder rests on the book until filled or cancelled.
///
/// IOC (Immediate or Cancel): fill what crosses now, discard the remainder.
///
/// FOK (Fill or Kill): fill the entire quantity now, or do nothing at all.
#[derive(Debug, Clone, Copy, PartialEq, Eq, Structural)]
pub enum TimeInForce {
    GTC,
    IOC,
    FOK,
}

/// An order. `price` is `Some` for limit orders and `None` for market
/// orders; `qty` is the size as submitted and `remaining_qty` what is left.
#[derive(Debug, Clone, Copy, PartialEq, Eq, Structural)]
pub struct Order {
    pub id: OrderId,
    pub side: Side,
    pub order_type: OrderType,
    pub tif: TimeInForce,
    pub price: Option<Price>,
    pub qty: Qty,
    pub remaining_qty: Qty,
    pub timestamp: Timestamp,
}

/// An execution between a resting maker and an incoming taker, always at
/// the maker's price.
#[derive(Debug, Clone, Copy, PartialEq, Eq, Structural)]
pub struct Trade {
    pub maker_order_id: OrderId,
    pub taker_order_id: OrderId,
    pub price: Price,
    pub qty: Qty,
    pub timestamp: Timestamp,
}

/// The outcome of matching against the front of the best opposite level.
#[derive(Debug, Clone, Copy, PartialEq, Eq, Structural)]
pub struct FillResult {
    pub maker_order_id: OrderId,
    pub price: Price,
    pub filled_qty: Qty,
    pub maker_fully_filled: bool,
}

#[derive(Debug, Clone, Copy, PartialEq, Eq, Structural)]
pub enum BookEvent {
    Accepted { order_id: OrderId },
    Rejected { order_id: OrderId, reason: EngineError },
    Trade(Trade),
    Cancelled { order_id: OrderId },
    RestingOnBook { order_id: OrderId, price: Price, remaining_qty: Qty },
}

#[derive(Debug, Clone, Copy, PartialEq, Eq, Structural)]
pub enum EngineError {
    OrderNotFound(OrderId),
    MissingPrice,
    ZeroQty,
    FokNotFillable,
    DuplicateOrderId(OrderId),
    Crosses(Side, Price),
    InvalidTifForMarket,
}

} // verus!
