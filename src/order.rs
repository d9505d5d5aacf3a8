//! Orders, sides and the errors that the book reports.
use vstd::prelude::*;

verus! {

/// The side of the book an order rests on.
#[derive(Debug, Clone, Copy, PartialEq, Eq, Hash, Structural)]
pub enum Side {
    Bid,
    Ask,
}

impl Side {
    /// The wire code of a side: 1 for a bid, 2 for an ask.
    pub open spec fn code_spec(self) -> i8 {
        match self {
            Side::Bid => 1,
            Side::Ask => 2,
        }
    }

    /// The wire code of this side.
    pub fn code(self) -> (r: i8)
        ensures
            r == self.code_spec(),
    {
        match self {
            Side::Bid => 1,
            Side::Ask => 2,
        }
    }

    /// The side whose wire code is `code`, if there is one.
    pub open spec fn spec_from_code(code: i8) -> Option<Side> {
        if code == 1 {
            Some(Side::Bid)
        } else if code == 2 {
            Some(Side::Ask)
        } else {
            None
        }
    }

    /// The side whose wire code is `code`, if there is one.
    pub fn from_code(code: i8) -> (r: Option<Side>)
        ensures
            r == Side::spec_from_code(code),
    {
        if code == 1 {
            Some(Side::Bid)
        } else if code == 2 {
            Some(Side::Ask)
        } else {
            None
        }
    }

    /// The side facing this one.
    pub open spec fn opposite(self) -> Side {
        match self {
            Side::Bid => Side::Ask,
            Side::Ask => Side::Bid,
        }
    }
}

/// A single resting order: its identifier, side, price in ticks and
/// remaining size.
#[derive(Debug, Clone, Copy, PartialEq, Eq, Hash, Structural)]
pub struct Order {
    pub order_id: u64,
    pub side: Side,
    pub price: i64,
    pub size: u64,
}

impl Order {
    /// The same order with its remaining size replaced by `size`.
    pub open spec fn with_size(self, size: u64) -> Order {
        Order { order_id: self.order_id, side: self.side, price: self.price, size }
    }
}

/// What the book reports when an operation refers to an order it cannot serve.
#[derive(Debug, Clone, Copy, PartialEq, Eq, Structural)]
pub enum OrderBookError {
    /// No resting order has this identifier.
    OrderNotFound(u64),
    /// A fill asked for more (first field) than the order had left (second field).
    FillQuantityExceedsOrderSize(u64, u64),
}

} // verus!
