use vstd::prelude::*;

verus! {

/// Price in ticks.
pub type Price = i64;

/// Remaining quantity of an order.
pub type Quantity = i64;

pub type OrderId = u64;

pub type Sequence = u64;

#[derive(Debug, Clone, Copy, PartialEq, Eq, Structural)]
pub enum Side {
    Buy,
    Sell,
}

#[derive(Debug, Clone, Copy, PartialEq, Eq, Structural)]
pub enum OrderType {
    Limit,
    Market,
}

#[derive(Debug, Clone, Copy, PartialEq, Eq)]
pub struct Order {
    pub id: OrderId,
    pub side: Side,
    pub order_type: OrderType,
    /// `None` for market orders.
    pub price: Option<Price>,
    pub quantity: Quantity,
    /// Arrival rank; breaks ties between orders at one price.
    pub sequence: Sequence,
}

impl Order {
    /// An order as the gateway hands it to the engine: positive quantity, and a
    /// price exactly when it is a limit order.
    pub open spec fn is_valid(&self) -> bool {
        &&& self.quantity > 0
        &&& match self.order_type {
            OrderType::Limit => self.price is Some,
            OrderType::Market => self.price is None,
        }
    }
}

} // verus!
