//! The order data type and the events the engine emits.

use vstd::prelude::*;

verus! {

/// Side of the book an order belongs to.
#[derive(Clone, Copy, PartialEq, Eq, Structural, Debug)]
pub enum Side {
    Buy,
    Sell,
}

/// The kind of an instruction handed to the engine.
#[derive(Clone, Copy, PartialEq, Eq, Structural, Debug)]
pub enum Kind {
    New,
    Cancel,
    Flush,
}

/// One instruction for the engine.  For `Cancel` only `user` and
/// `user_order_id` are meaningful; for `Flush` no field is.
#[derive(Clone, Copy, PartialEq, Eq, Structural, Debug)]
pub struct Order {
    pub kind: Kind,
    pub user: i32,
    pub price: i32,
    pub qty: i32,
    pub side: Side,
    pub user_order_id: i32,
}

/// A best price level of one side: its price and the aggregate quantity
/// of all orders resting at exactly that price.
#[derive(Clone, Copy, PartialEq, Eq, Structural, Debug)]
pub struct TopLevel {
    pub price: i32,
    pub volume: i32,
}

/// One output event of the engine.
#[derive(Clone, Copy, PartialEq, Eq, Structural, Debug)]
pub enum Event {
    /// A new order or a cancellation was acknowledged.
    Accept { user: i32, user_order_id: i32 },
    /// A new order would cross the book while matching is disabled.
    Reject { user: i32, user_order_id: i32 },
    /// The best level of `side` changed; `top` is its new value,
    /// `None` when the side became empty.
    BookUpdate { side: Side, top: Option<TopLevel> },
    /// A resting order was consumed by an incoming order of equal quantity.
    Trade {
        buy_user: i32,
        buy_order_id: i32,
        sell_user: i32,
        sell_order_id: i32,
        price: i32,
        qty: i32,
    },
    /// Separator emitted by a flush, before the books are cleared.
    FlushSeparator,
}

impl Order {
    /// Build the instruction that clears the books.
    pub fn new_flush() -> (o: Order)
        ensures
            o.kind == Kind::Flush,
    {
        Order {
            kind: Kind::Flush,
            user: 0,
            price: 0,
            qty: 0,
            side: Side::Buy,
            user_order_id: 0,
        }
    }
}

} // verus!
