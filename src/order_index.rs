use std::collections::HashMap;
use vstd::prelude::*;
use crate::order::{OrderId, Price, Side};

verus! {

broadcast use vstd::std_specs::hash::group_hash_axioms;

/// Where a resting order is found: its side and its price level.
#[derive(Debug, Clone, Copy, PartialEq, Eq, Structural)]
pub struct OrderLocation {
    pub side: Side,
    pub price: Price,
}

/// Maps each resting order's id to its location in the book.
#[derive(Debug)]
pub struct OrderIndex {
    map: HashMap<OrderId, OrderLocation>,
}

impl View for OrderIndex {
    type V = Map<OrderId, OrderLocation>;

    closed spec fn view(&self) -> Map<OrderId, OrderLocation> {
        self.map@
    }
}

impl OrderIndex {
    pub fn new() -> (r: OrderIndex)
        ensures
            r@ == Map::<OrderId, OrderLocation>::empty(),
    {
        OrderIndex { map: HashMap::new() }
    }

    /// Records (or replaces) the location of `order_id`.
    pub fn insert(&mut self, order_id: OrderId, location: OrderLocation)
        ensures
            final(self)@ == old(self)@.insert(order_id, location),
    {
        self.map.insert(order_id, location);
    }

    /// Forgets `order_id`, returning the location it had.
    pub fn remove(&mut self, order_id: OrderId) -> (r: Option<OrderLocation>)
        ensures
            final(self)@ == old(self)@.remove(order_id),
            r == (if old(self)@.contains_key(order_id) {
                Some(old(self)@[order_id])
            } else {
                None::<OrderLocation>
            }),
    {
        self.map.remove(&order_id)
    }

    pub fn contains(&self, order_id: OrderId) -> (r: bool)
        ensures
            r == self@.contains_key(order_id),
    {
        self.map.contains_key(&order_id)
    }
}

} // verus!
