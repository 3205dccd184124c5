use vstd::prelude::*;
use crate::order::{Order, OrderId, OrderType, Price, Quantity, Side};
use crate::trade::Trade;
use crate::order_book::{
    BookView, LevelView, OrderBook, best_index, best_price, first_with_id, fits, ids_unique, insert_at, is_slot,
    opposite, reduce_head, remove_at, rests_at,
};
use crate::order_index::{OrderIndex, OrderLocation};
use crate::order_gateway::GatewayEvent;
use crate::book_lemmas::{lemma_insert_at, lemma_reduce_head, lemma_remove_at};

verus! {

#[derive(Debug, Clone, PartialEq, Eq)]
pub enum EngineEvent {
    Trade(Trade),
    Reject(String),
}

/// The book's resting orders are exactly the index's entries: an id rests at
/// (side, price) iff the index maps it to that location.
pub open spec fn index_matches(book: BookView, index: Map<OrderId, OrderLocation>) -> bool {
    forall|s: Side, p: Price, id: OrderId|
        #[trigger] rests_at(book.side(s), p, id) <==> (index.contains_key(id) && index[id]
            == OrderLocation { side: s, price: p })
}

/// Whether an aggressor may trade against a level at `best`.
pub open spec fn crosses(aggr: Order, best: Price) -> bool {
    match aggr.order_type {
        OrderType::Market => true,
        OrderType::Limit => match aggr.price {
            Some(p) => match aggr.side {
                Side::Buy => p >= best,
                Side::Sell => p <= best,
            },
            None => true,
        },
    }
}

/// The trade of `fill` units between an aggressor and a maker, at the maker's price.
pub open spec fn trade_of(aggr: Order, maker: Order, price: Price, fill: int) -> Trade {
    match aggr.side {
        Side::Buy => Trade {
            price,
            quantity: fill as i64,
            buy_order_id: aggr.id,
            sell_order_id: maker.id,
        },
        Side::Sell => Trade {
            price,
            quantity: fill as i64,
            buy_order_id: maker.id,
            sell_order_id: aggr.id,
        },
    }
}

/// The cross loop: an aggressor with `q` units left meets the opposite side
/// `opp`. Gives the opposite side after it, the trades in order, and what is left.
pub open spec fn cross(opp: Seq<LevelView>, aggr: Order, q: int) -> (Seq<LevelView>, Seq<Trade>, int)
    decreases q,
{
    if q <= 0 || opp.len() == 0 {
        (opp, seq![], q)
    } else {
        let bi = best_index(opp, opposite(aggr.side));
        let best = opp[bi].0;
        let maker = opp[bi].1[0];
        if !crosses(aggr, best) || maker.quantity <= 0 {
            (opp, seq![], q)
        } else {
            let fill = if q < maker.quantity {
                q
            } else {
                maker.quantity as int
            };
            let rest = cross(reduce_head(opp, bi, fill), aggr, q - fill);
            (rest.0, seq![trade_of(aggr, maker, best, fill)] + rest.1, rest.2)
        }
    }
}

pub open spec fn trade_events(ts: Seq<Trade>) -> Seq<EngineEvent> {
    ts.map_values(|t: Trade| EngineEvent::Trade(t))
}

/// No order with this id rests on either side.
pub open spec fn absent(book: BookView, id: OrderId) -> bool {
    forall|p: Price| !rests_at(book.bids, p, id) && !rests_at(book.asks, p, id)
}

/// Every resting order arrived before `o`.
pub open spec fn older_than(book: BookView, o: Order) -> bool {
    forall|s: Side, i: int, k: int|
        0 <= i < book.side(s).len() && 0 <= k < book.side(s)[i].1.len() ==> (
        #[trigger] book.side(s)[i].1[k]).sequence < o.sequence
}

/// What a new order does: the cross loop against the opposite side, then the
/// rest of a limit order joins the tail of its level; a market order's rest is dropped.
pub open spec fn after_new_order(
    before: BookView,
    o: Order,
    after: BookView,
    events: Seq<EngineEvent>,
) -> bool {
    let c = cross(before.side(opposite(o.side)), o, o.quantity as int);
    &&& after.side(opposite(o.side)) == c.0
    &&& events == trade_events(c.1)
    &&& if c.2 > 0 && o.order_type == OrderType::Limit {
        exists|i: int|
            is_slot(before.side(o.side), o.price->Some_0, i) && after.side(o.side) == insert_at(
                before.side(o.side),
                i,
                o.price->Some_0,
                Order { quantity: c.2 as i64, ..o },
            )
    } else {
        after.side(o.side) == before.side(o.side)
    }
}

/// What a cancel does: a resting order with that id leaves its level silently;
/// otherwise one rejection and no change.
pub open spec fn after_cancel(
    before: BookView,
    id: OrderId,
    after: BookView,
    events: Seq<EngineEvent>,
) -> bool {
    if exists|s: Side, p: Price| rests_at(before.side(s), p, id) {
        &&& events.len() == 0
        &&& exists|s: Side, i: int, k: int|
            0 <= i < before.side(s).len() && 0 <= k < before.side(s)[i].1.len() && (
            #[trigger] before.side(s)[i].1[k]).id == id && after.side(s) == remove_at(
                before.side(s),
                i,
                k,
            ) && after.side(opposite(s)) == before.side(opposite(s))
    } else {
        &&& events.len() == 1
        &&& events[0] is Reject
        &&& events[0]->Reject_0@ == "order not found"@
        &&& after == before
    }
}

/// A single-instrument matching engine: the book and its index.
#[derive(Debug)]
pub struct MatchingEngine {
    order_book: OrderBook,
    order_index: OrderIndex,
}

impl MatchingEngine {
    pub closed spec fn book(&self) -> BookView {
        self.order_book@
    }

    pub closed spec fn index(&self) -> Map<OrderId, OrderLocation> {
        self.order_index@
    }

    /// Book and index agree, and the book is well formed with unique ids.
    pub open spec fn wf(&self) -> bool {
        &&& self.book().wf()
        &&& ids_unique(self.book().bids)
        &&& ids_unique(self.book().asks)
        &&& index_matches(self.book(), self.index())
    }

    pub fn new() -> (r: MatchingEngine)
        ensures
            r.wf(),
            r.book().bids.len() == 0,
            r.book().asks.len() == 0,
    {
        let r = MatchingEngine { order_book: OrderBook::new(), order_index: OrderIndex::new() };
        r
    }
}

fn opposite_side(side: Side) -> (r: Side)
    ensures
        r == opposite(side),
{
    match side {
        Side::Buy => Side::Sell,
        Side::Sell => Side::Buy,
    }
}

fn crosses_at(aggr: &Order, best: Price) -> (r: bool)
    ensures
        r == crosses(*aggr, best),
{
    match aggr.order_type {
        OrderType::Market => true,
        OrderType::Limit => match aggr.price {
            Some(p) => match aggr.side {
                Side::Buy => p >= best,
                Side::Sell => p <= best,
            },
            None => true,
        },
    }
}

fn make_trade(aggr: &Order, maker: &Order, price: Price, fill: Quantity) -> (r: Trade)
    ensures
        r == trade_of(*aggr, *maker, price, fill as int),
{
    match aggr.side {
        Side::Buy => Trade {
            price,
            quantity: fill,
            buy_order_id: aggr.id,
            sell_order_id: maker.id,
        },
        Side::Sell => Trade {
            price,
            quantity: fill,
            buy_order_id: maker.id,
            sell_order_id: aggr.id,
        },
    }
}

impl MatchingEngine {
    /// Runs the cross loop for `order` against the opposite side, appending
    /// the trades to `events`; returns the quantity left unmatched.
    fn match_order(&mut self, order: &Order, events: &mut Vec<EngineEvent>) -> (rem: Quantity)
        requires
            old(self).wf(),
            order.is_valid(),
            !old(self).index().contains_key(order.id),
        ensures
            final(self).wf(),
            !final(self).index().contains_key(order.id),
            final(self).book().side(order.side) == old(self).book().side(order.side),
            ({
                let c = cross(old(self).book().side(opposite(order.side)), *order, order.quantity as int);
                &&& final(self).book().side(opposite(order.side)) == c.0
                &&& final(events)@ == old(events)@ + trade_events(c.1)
                &&& rem as int == c.2
            }),
            0 <= rem <= order.quantity,
    {
        let opp = opposite_side(order.side);
        let ghost own = order.side;
        let ghost total = cross(self.book().side(opp), *order, order.quantity as int);
        let ghost prefix = events@;
        let ghost mut ts: Seq<Trade> = seq![];
        let mut q: Quantity = order.quantity;
        loop
            invariant
                self.wf(),
                opp == opposite(own),
                own == order.side,
                self.book().side(own) == old(self).book().side(own),
                !self.index().contains_key(order.id),
                0 <= q <= order.quantity,
                cross(self.book().side(opp), *order, q as int).0 == total.0,
                cross(self.book().side(opp), *order, q as int).2 == total.2,
                ts + cross(self.book().side(opp), *order, q as int).1 == total.1,
                events@ == prefix + trade_events(ts),
            ensures
                self.book().side(opp) == total.0,
                ts == total.1,
                q as int == total.2,
            decreases q,
        {
            let ghost cur = self.book().side(opp);
            if q == 0 {
                assert(ts + seq![] =~= ts);
                break;
            }
            let best = match self.order_book.best_price(opp) {
                Some(p) => p,
                None => {
                    assert(ts + seq![] =~= ts);
                    break;
                },
            };
            let ghost bi = best_index(cur, opp);
            if !crosses_at(order, best) {
                assert(ts + seq![] =~= ts);
                break;
            }
            let maker = match self.order_book.peek_best(opp) {
                Some(m) => *m,
                None => {
                    break;
                },
            };
            assert(cur[bi].1.len() > 0);
            assert(fits(cur[bi].1[0], opp, cur[bi].0));
            let fill: Quantity = if q < maker.quantity {
                q
            } else {
                maker.quantity
            };
            let t = make_trade(order, &maker, best, fill);
            events.push(EngineEvent::Trade(t));
            proof {
                assert(trade_events(ts.push(t)) =~= trade_events(ts).push(EngineEvent::Trade(t)));
                assert((ts.push(t)) + cross(reduce_head(cur, bi, fill as int), *order, (q - fill) as int).1
                    =~= ts + (seq![t] + cross(reduce_head(cur, bi, fill as int), *order, (q - fill) as int).1));
                ts = ts.push(t);
                lemma_reduce_head(cur, opp, bi, fill as int);
            }
            let ghost idx0 = self.index();
            q = q - fill;
            self.order_book.reduce_best(opp, fill);
            if maker.quantity <= fill {
                self.order_index.remove(maker.id);
            }
            proof {
                let b = self.book();
                let idx = self.index();
                assert(rests_at(cur, best, maker.id));
                assert(idx0.contains_key(maker.id) && idx0[maker.id] == OrderLocation { side: opp, price: best });
                assert forall|s: Side, p: Price, id: OrderId|
                    #[trigger] rests_at(b.side(s), p, id) <==> (idx.contains_key(id) && idx[id]
                        == OrderLocation { side: s, price: p }) by {
                    if s == opp {
                        assert(rests_at(cur, p, id) <==> (idx0.contains_key(id) && idx0[id]
                            == OrderLocation { side: s, price: p }));
                    } else {
                        assert(s == own);
                        assert(rests_at(b.side(s), p, id) <==> (idx0.contains_key(id) && idx0[id]
                            == OrderLocation { side: s, price: p }));
                    }
                }
                assert(b.side(own) == old(self).book().side(own));
                assert(b.wf()) by {
                    if opp == Side::Buy {
                        assert(b.bids == b.side(opp));
                    } else {
                        assert(b.asks == b.side(opp));
                    }
                }
                assert(ids_unique(b.bids) && ids_unique(b.asks)) by {
                    if opp == Side::Buy {
                        assert(b.bids == b.side(opp));
                    } else {
                        assert(b.asks == b.side(opp));
                    }
                }
            }
        }
        q
    }
}

impl MatchingEngine {
    /// What the engine needs of an event: a new order is valid, its id is not
    /// resting, and it arrived after every resting order.
    pub open spec fn accepts(&self, event: GatewayEvent) -> bool {
        match event {
            GatewayEvent::NewOrder(o) => o.is_valid() && absent(self.book(), o.id) && older_than(
                self.book(),
                o,
            ),
            _ => true,
        }
    }

    /// Applies one gateway event and returns what it produced, in order.
    pub fn on_event(&mut self, event: GatewayEvent) -> (r: Vec<EngineEvent>)
        requires
            old(self).wf(),
            old(self).accepts(event),
        ensures
            final(self).wf(),
            match event {
                GatewayEvent::NewOrder(o) => after_new_order(old(self).book(), o, final(self).book(), r@),
                GatewayEvent::Cancel { order_id } => after_cancel(
                    old(self).book(),
                    order_id,
                    final(self).book(),
                    r@,
                ),
                GatewayEvent::Reject(reason) => {
                    &&& r@ == seq![EngineEvent::Reject(reason)]
                    &&& final(self).book() == old(self).book()
                },
            },
    {
        match event {
            GatewayEvent::NewOrder(order) => self.handle_new_order(order),
            GatewayEvent::Cancel { order_id } => self.handle_cancel(order_id),
            GatewayEvent::Reject(reason) => vec![EngineEvent::Reject(reason)],
        }
    }

    fn handle_new_order(&mut self, order: Order) -> (r: Vec<EngineEvent>)
        requires
            old(self).wf(),
            old(self).accepts(GatewayEvent::NewOrder(order)),
        ensures
            final(self).wf(),
            after_new_order(old(self).book(), order, final(self).book(), r@),
    {
        proof {
            if self.index().contains_key(order.id) {
                let loc = self.index()[order.id];
                assert(rests_at(self.book().side(loc.side), loc.price, order.id));
                assert(!rests_at(self.book().bids, loc.price, order.id));
                assert(!rests_at(self.book().asks, loc.price, order.id));
            }
        }
        let mut events: Vec<EngineEvent> = Vec::new();
        assert(events@ + seq![] =~= events@);
        let rem = self.match_order(&order, &mut events);
        assert(events@ =~= seq![] + events@);
        proof {
            assert forall|i: int, k: int|
                0 <= i < self.book().side(order.side).len() && 0 <= k < self.book().side(
                    order.side,
                )[i].1.len() implies (#[trigger] self.book().side(order.side)[i].1[k]).sequence
                < order.sequence by {
                assert(old(self).book().side(order.side)[i].1[k].sequence < order.sequence);
            }
        }
        self.insert_if_remaining(order, rem);
        events
    }

    /// Rests what is left of a limit order on its own side and records it in
    /// the index; a market order's rest is dropped.
    fn insert_if_remaining(&mut self, order: Order, rem: Quantity)
        requires
            old(self).wf(),
            order.is_valid(),
            !old(self).index().contains_key(order.id),
            0 <= rem,
            forall|i: int, k: int|
                0 <= i < old(self).book().side(order.side).len() && 0 <= k < old(self).book().side(
                    order.side,
                )[i].1.len() ==> (#[trigger] old(self).book().side(order.side)[i].1[k]).sequence
                    < order.sequence,
        ensures
            final(self).wf(),
            final(self).book().side(opposite(order.side)) == old(self).book().side(
                opposite(order.side),
            ),
            if rem > 0 && order.order_type == OrderType::Limit {
                exists|i: int|
                    is_slot(old(self).book().side(order.side), order.price->Some_0, i)
                        && final(self).book().side(order.side) == insert_at(
                        old(self).book().side(order.side),
                        i,
                        order.price->Some_0,
                        Order { quantity: rem, ..order },
                    )
            } else {
                final(self).book().side(order.side) == old(self).book().side(order.side)
            },
    {
        if rem == 0 {
            return;
        }
        if order.order_type != OrderType::Limit {
            return;
        }
        let price = match order.price {
            Some(p) => p,
            None => {
                return;
            },
        };
        let resting = Order { quantity: rem, ..order };
        let ghost b0 = self.book();
        let ghost idx0 = self.index();
        let ghost own = order.side;
        proof {
            assert(!rests_at(b0.side(own), price, order.id));
        }
        self.order_book.insert(resting);
        self.order_index.insert(order.id, OrderLocation { side: order.side, price });
        proof {
            let i = choose|i: int|
                is_slot(b0.side(own), price, i) && self.book().side(own) == insert_at(
                    b0.side(own),
                    i,
                    price,
                    resting,
                );
            lemma_insert_at(b0.side(own), own, i, price, resting);
            let b = self.book();
            let idx = self.index();
            assert forall|s: Side, p: Price, id: OrderId|
                #[trigger] rests_at(b.side(s), p, id) <==> (idx.contains_key(id) && idx[id]
                    == OrderLocation { side: s, price: p }) by {
                assert(rests_at(b0.side(s), p, id) <==> (idx0.contains_key(id) && idx0[id]
                    == OrderLocation { side: s, price: p }));
            }
            assert(ids_unique(b.bids) && ids_unique(b.asks) && b.wf()) by {
                if own == Side::Buy {
                    assert(b.bids == b.side(own));
                    assert(b.asks == b0.asks);
                } else {
                    assert(b.asks == b.side(own));
                    assert(b.bids == b0.bids);
                }
            }
        }
    }

    fn handle_cancel(&mut self, order_id: OrderId) -> (r: Vec<EngineEvent>)
        requires
            old(self).wf(),
        ensures
            final(self).wf(),
            after_cancel(old(self).book(), order_id, final(self).book(), r@),
    {
        let ghost b0 = self.book();
        let ghost idx0 = self.index();
        proof {
            reveal_strlit("order not found");
        }
        match self.order_index.remove(order_id) {
            Some(location) => {
                assert(rests_at(b0.side(location.side), location.price, order_id));
                let removed = self.order_book.remove_order(location.side, location.price, order_id);
                if removed {
                    proof {
                        let s = location.side;
                        let (i, k) = choose|i: int, k: int|
                            #[trigger] first_with_id(b0.side(s), location.price, order_id, i, k)
                                && self.book().side(s) == remove_at(b0.side(s), i, k);
                        assert(b0.side(s)[i].1[k].id == order_id);
                        lemma_remove_at(b0.side(s), s, i, k);
                        let b = self.book();
                        let idx = self.index();
                        assert(b.side(opposite(s)) == b0.side(opposite(s)));
                        assert forall|s2: Side, p: Price, id: OrderId|
                            #[trigger] rests_at(b.side(s2), p, id) <==> (idx.contains_key(id)
                                && idx[id] == OrderLocation { side: s2, price: p }) by {
                            assert(rests_at(b0.side(s2), p, id) <==> (idx0.contains_key(id)
                                && idx0[id] == OrderLocation { side: s2, price: p }));
                            if s2 != s {
                                assert(b.side(s2) == b0.side(s2));
                            }
                        }
                        assert(ids_unique(b.bids) && ids_unique(b.asks) && b.wf()) by {
                            if s == Side::Buy {
                                assert(b.bids == b.side(s));
                                assert(b.asks == b0.asks);
                            } else {
                                assert(b.asks == b.side(s));
                                assert(b.bids == b0.bids);
                            }
                        }
                        assert(exists|s: Side, p: Price| rests_at(b0.side(s), p, order_id));
                    }
                    Vec::new()
                } else {
                    vec![EngineEvent::Reject("order not found in book".to_owned())]
                }
            },
            None => {
                proof {
                    assert forall|s: Side, p: Price| !rests_at(b0.side(s), p, order_id) by {
                        assert(rests_at(b0.side(s), p, order_id) <==> (idx0.contains_key(order_id)
                            && idx0[order_id] == OrderLocation { side: s, price: p }));
                    }
                }
                vec![EngineEvent::Reject("order not found".to_owned())]
            },
        }
    }
}

impl MatchingEngine {
    pub fn order_book(&self) -> (r: &OrderBook)
        ensures
            r@ == self.book(),
    {
        &self.order_book
    }

    /// Whether an order with this id is resting.
    pub fn has_order(&self, id: OrderId) -> (r: bool)
        requires
            self.wf(),
        ensures
            r == !absent(self.book(), id),
    {
        let r = self.order_index.contains(id);
        proof {
            let idx = self.index();
            if r {
                let loc = idx[id];
                assert(rests_at(self.book().side(loc.side), loc.price, id));
                if loc.side == Side::Buy {
                    assert(rests_at(self.book().bids, loc.price, id));
                } else {
                    assert(rests_at(self.book().asks, loc.price, id));
                }
            } else {
                assert forall|p: Price| !rests_at(self.book().bids, p, id) && !rests_at(
                    self.book().asks,
                    p,
                    id,
                ) by {
                    assert(self.book().bids == self.book().side(Side::Buy));
                    assert(self.book().asks == self.book().side(Side::Sell));
                    assert(!rests_at(self.book().side(Side::Buy), p, id));
                    assert(!rests_at(self.book().side(Side::Sell), p, id));
                }
            }
        }
        r
    }
}

} // verus!
