use vstd::prelude::*;
use crate::order::{Order, OrderId, OrderType, Price, Quantity, Side};
use crate::parser::Command;

verus! {

/// What the gateway hands to the engine.
#[derive(Debug, Clone, PartialEq, Eq)]
pub enum GatewayEvent {
    NewOrder(Order),
    Cancel { order_id: OrderId },
    Reject(String),
}

/// Assigns ids and sequences, starting at 1, and validates new orders.
#[derive(Debug)]
pub struct OrderGateway {
    next_order_id: u64,
    next_sequence: u64,
}

/// Why a new order is refused, if it is: its quantity must be positive, and it
/// has a price exactly when it is a limit order.
pub open spec fn new_order_problem(
    order_type: OrderType,
    price: Option<Price>,
    quantity: Quantity,
) -> Option<Seq<char>> {
    if quantity <= 0 {
        Some("quantity must be > 0"@)
    } else {
        match order_type {
            OrderType::Limit => if price is None {
                Some("limit order requires price"@)
            } else {
                None
            },
            OrderType::Market => if price is Some {
                Some("market order must not have price"@)
            } else {
                None
            },
        }
    }
}

impl OrderGateway {
    /// Id that the next accepted order gets.
    pub closed spec fn next_id(&self) -> u64 {
        self.next_order_id
    }

    /// Sequence that the next accepted order gets.
    pub closed spec fn next_seq(&self) -> u64 {
        self.next_sequence
    }

    pub fn next_order_id(&self) -> (r: u64)
        ensures
            r == self.next_id(),
    {
        self.next_order_id
    }

    pub fn next_sequence(&self) -> (r: u64)
        ensures
            r == self.next_seq(),
    {
        self.next_sequence
    }

    pub fn new() -> (r: OrderGateway)
        ensures
            r.next_id() == 1,
            r.next_seq() == 1,
    {
        OrderGateway { next_order_id: 1, next_sequence: 1 }
    }

    /// Turns a command into an engine event. A cancel passes through and uses
    /// up one id and sequence; a new order is validated, then given the next id
    /// and sequence; a refused one uses up neither.
    pub fn process_command(&mut self, cmd: Command) -> (r: GatewayEvent)
        requires
            old(self).next_id() < u64::MAX,
            old(self).next_seq() < u64::MAX,
        ensures
            match cmd {
                Command::Cancel { order_id } => {
                    &&& r == GatewayEvent::Cancel { order_id }
                    &&& final(self).next_id() == old(self).next_id() + 1
                    &&& final(self).next_seq() == old(self).next_seq() + 1
                },
                Command::NewOrder { side, order_type, price, quantity } => match new_order_problem(
                    order_type,
                    price,
                    quantity,
                ) {
                    Some(reason) => {
                        &&& r is Reject
                        &&& r->Reject_0@ == reason
                        &&& final(self).next_id() == old(self).next_id()
                        &&& final(self).next_seq() == old(self).next_seq()
                    },
                    None => {
                        &&& r == GatewayEvent::NewOrder(
                            Order {
                                id: old(self).next_id(),
                                side,
                                order_type,
                                price,
                                quantity,
                                sequence: old(self).next_seq(),
                            },
                        )
                        &&& final(self).next_id() == old(self).next_id() + 1
                        &&& final(self).next_seq() == old(self).next_seq() + 1
                    },
                },
            },
    {
        match cmd {
            Command::NewOrder { side, order_type, price, quantity } => self.handle_new_order(
                side,
                order_type,
                price,
                quantity,
            ),
            Command::Cancel { order_id } => {
                self.next_order_id = self.next_order_id + 1;
                self.next_sequence = self.next_sequence + 1;
                GatewayEvent::Cancel { order_id }
            },
        }
    }

    fn handle_new_order(
        &mut self,
        side: Side,
        order_type: OrderType,
        price: Option<Price>,
        quantity: Quantity,
    ) -> (r: GatewayEvent)
        requires
            old(self).next_id() < u64::MAX,
            old(self).next_seq() < u64::MAX,
        ensures
            match new_order_problem(order_type, price, quantity) {
                Some(reason) => {
                    &&& r is Reject
                    &&& r->Reject_0@ == reason
                    &&& final(self).next_id() == old(self).next_id()
                    &&& final(self).next_seq() == old(self).next_seq()
                },
                None => {
                    &&& r == GatewayEvent::NewOrder(
                        Order {
                            id: old(self).next_id(),
                            side,
                            order_type,
                            price,
                            quantity,
                            sequence: old(self).next_seq(),
                        },
                    )
                    &&& final(self).next_id() == old(self).next_id() + 1
                    &&& final(self).next_seq() == old(self).next_seq() + 1
                },
            },
    {
        proof {
            reveal_strlit("quantity must be > 0");
            reveal_strlit("limit order requires price");
            reveal_strlit("market order must not have price");
        }
        if quantity <= 0 {
            return GatewayEvent::Reject("quantity must be > 0".to_owned());
        }
        match order_type {
            OrderType::Limit => {
                if price.is_none() {
                    return GatewayEvent::Reject("limit order requires price".to_owned());
                }
            },
            OrderType::Market => {
                if price.is_some() {
                    return GatewayEvent::Reject("market order must not have price".to_owned());
                }
            },
        }
        let order = Order {
            id: self.next_order_id,
            side,
            order_type,
            price,
            quantity,
            sequence: self.next_sequence,
        };
        self.next_order_id = self.next_order_id + 1;
        self.next_sequence = self.next_sequence + 1;
        GatewayEvent::NewOrder(order)
    }
}

} // verus!
