use vstd::prelude::*;
use crate::order::{OrderId, Price, Quantity};

verus! {

#[derive(Debug, Clone, Copy, PartialEq, Eq)]
pub struct Trade {
    pub price: Price,
    pub quantity: Quantity,
    pub buy_order_id: OrderId,
    pub sell_order_id: OrderId,
}

} // verus!
