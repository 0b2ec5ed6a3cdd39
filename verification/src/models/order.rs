use std::time::SystemTime;
use vstd::prelude::*;

verus! {

/// The mathematical value of an [`Order`].
pub struct OrderView {
    pub id: Seq<char>,
    pub price: int,
    pub quantity: int,
    pub is_buy: bool,
    pub order_time: SystemTime,
}

impl OrderView {
    /// An order the book accepts: neither its price nor its quantity is negative.
    pub open spec fn is_valid(self) -> bool {
        self.price >= 0 && self.quantity >= 0
    }

    /// The same order with `quantity` left to fill.
    pub open spec fn with_quantity(self, quantity: int) -> OrderView {
        OrderView { quantity, ..self }
    }
}

/// A limit order.
///
/// `price` is an integer key: the book only ever compares prices, so any
/// order-preserving mapping of a venue's prices to `i64` (ticks, for one) will
/// do, as long as a negative price maps to a negative key. `order_time` is
/// carried for display; priority among orders at one price comes from the
/// order of submission, not from this field.
#[derive(Debug, PartialEq, Eq)]
pub struct Order {
    pub id: String,
    pub price: i64,
    pub quantity: i32,
    pub is_buy: bool,
    pub order_time: SystemTime,
}

impl View for Order {
    type V = OrderView;

    open spec fn view(&self) -> OrderView {
        OrderView {
            id: self.id@,
            price: self.price as int,
            quantity: self.quantity as int,
            is_buy: self.is_buy,
            order_time: self.order_time,
        }
    }
}

impl Clone for Order {
    fn clone(&self) -> (copy: Order)
        ensures
            copy == *self,
    {
        Order {
            id: self.id.clone(),
            price: self.price,
            quantity: self.quantity,
            is_buy: self.is_buy,
            order_time: self.order_time,
        }
    }
}

impl Order {
    /// Whether the book accepts the order: neither its price nor its
    /// quantity is negative.
    pub fn is_valid(&self) -> (valid: bool)
        ensures
            valid == self@.is_valid(),
    {
        self.price >= 0 && self.quantity >= 0
    }
}

/// Why the book turned an order away.
#[derive(Debug, Clone, Copy, PartialEq, Eq, Structural)]
pub enum OrderError {
    /// The price or the quantity of the order is negative.
    InvalidOrder,
}

} // verus!
