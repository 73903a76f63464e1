//! Order data types and their mathematical views.

use vstd::prelude::*;

verus! {

/// Identifier of a resting order: allocated starting at 1, strictly
/// increasing across submissions, never reused.
pub type OrderId = u64;

/// Price tick value, totally ordered.
pub type Price = u16;

/// Remaining quantity of an order; decreases monotonically toward zero.
pub type Size = u64;

/// Side of an order: 1 is a sell (ask), anything else is a buy (bid).
pub type Side = u8;

/// A limit order as submitted by a trader.  Immutable once submitted
/// except for `size`, which matching reduces toward zero.
#[derive(Clone, Debug, PartialEq, Eq)]
pub struct Order {
    /// Instrument identifier.  The book is single-instrument: the field is
    /// carried but does not segregate books.
    pub symbol: String,
    /// Opaque identity of the submitter; authentication is the execution
    /// host's concern.
    pub trader: String,
    pub side: Side,
    pub price: Price,
    pub size: Size,
}

/// A resting entry: an order together with the identifier allocated when
/// its unfilled remainder was queued.
#[derive(Clone, Debug, PartialEq, Eq)]
pub struct OrderIn {
    pub order: Order,
    pub id: OrderId,
}

/// Mathematical view of an [`Order`].
#[verifier::ext_equal]
pub ghost struct OrderV {
    pub symbol: Seq<char>,
    pub trader: Seq<char>,
    pub side: Side,
    pub price: Price,
    pub size: Size,
}

/// Mathematical view of an [`OrderIn`].
#[verifier::ext_equal]
pub ghost struct OrderInV {
    pub order: OrderV,
    pub id: OrderId,
}

impl View for Order {
    type V = OrderV;

    open spec fn view(&self) -> OrderV {
        OrderV {
            symbol: self.symbol@,
            trader: self.trader@,
            side: self.side,
            price: self.price,
            size: self.size,
        }
    }
}

impl View for OrderIn {
    type V = OrderInV;

    open spec fn view(&self) -> OrderInV {
        OrderInV { order: self.order@, id: self.id }
    }
}

/// The view of one side's queue: the sequence of entry views.
pub open spec fn queue_view(s: Seq<OrderIn>) -> Seq<OrderInV> {
    Seq::new(s.len(), |i: int| s[i]@)
}

} // verus!
