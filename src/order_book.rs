use std::collections::VecDeque;
use vstd::prelude::*;
use crate::order::{Order, OrderId, OrderType, Price, Quantity, Side};
use crate::book_lemmas::{lemma_insert_at, lemma_reduce_head, lemma_remove_at};

verus! {

/// A price level as seen by contracts: its price and its queue, head first.
pub type LevelView = (Price, Seq<Order>);

/// All orders resting at one price on one side, in arrival order.
#[derive(Debug)]
pub struct PriceLevel {
    pub price: Price,
    pub orders: VecDeque<Order>,
}

impl View for PriceLevel {
    type V = LevelView;

    open spec fn view(&self) -> LevelView {
        (self.price, self.orders@)
    }
}

pub open spec fn levels_view(v: Seq<PriceLevel>) -> Seq<LevelView> {
    v.map_values(|l: PriceLevel| l@)
}

/// Both sides of the book; each side's levels sorted by ascending price.
pub struct BookView {
    pub bids: Seq<LevelView>,
    pub asks: Seq<LevelView>,
}

impl BookView {
    pub open spec fn side(self, side: Side) -> Seq<LevelView> {
        match side {
            Side::Buy => self.bids,
            Side::Sell => self.asks,
        }
    }

    pub open spec fn wf(self) -> bool {
        side_wf(self.bids, Side::Buy) && side_wf(self.asks, Side::Sell)
    }
}

pub open spec fn opposite(side: Side) -> Side {
    match side {
        Side::Buy => Side::Sell,
        Side::Sell => Side::Buy,
    }
}

/// An order that may rest in the level at `price` on `side`.
pub open spec fn fits(o: Order, side: Side, price: Price) -> bool {
    &&& o.side == side
    &&& o.order_type == OrderType::Limit
    &&& o.price == Some(price)
    &&& o.quantity > 0
}

/// The shape of one side: strictly ascending prices, no empty level, every order
/// fits its level, and sequences strictly ascending from head to tail.
pub open spec fn side_wf(levels: Seq<LevelView>, side: Side) -> bool {
    &&& forall|i: int, j: int|
        0 <= i < j < levels.len() ==> (#[trigger] levels[i]).0 < (#[trigger] levels[j]).0
    &&& forall|i: int| 0 <= i < levels.len() ==> (#[trigger] levels[i]).1.len() > 0
    &&& forall|i: int, k: int|
        0 <= i < levels.len() && 0 <= k < levels[i].1.len() ==> fits(
            #[trigger] levels[i].1[k],
            side,
            levels[i].0,
        )
    &&& forall|i: int, k: int, l: int|
        0 <= i < levels.len() && 0 <= k < l < levels[i].1.len() ==> (
        #[trigger] levels[i].1[k]).sequence < (#[trigger] levels[i].1[l]).sequence
}

/// No id occurs twice within one level.
pub open spec fn ids_unique(levels: Seq<LevelView>) -> bool {
    forall|i: int, k: int, l: int|
        0 <= i < levels.len() && 0 <= k < levels[i].1.len() && 0 <= l < levels[i].1.len()
            && (#[trigger] levels[i].1[k]).id == (#[trigger] levels[i].1[l]).id ==> k == l
}

/// An order with this id rests in the level at this price.
pub open spec fn rests_at(levels: Seq<LevelView>, price: Price, id: OrderId) -> bool {
    exists|i: int, k: int|
        0 <= i < levels.len() && 0 <= k < levels[i].1.len() && levels[i].0 == price && (
        #[trigger] levels[i].1[k]).id == id
}

/// `(i, k)` is the first order with this id in the level at `price`.
pub open spec fn first_with_id(levels: Seq<LevelView>, price: Price, id: OrderId, i: int, k: int) -> bool {
    &&& 0 <= i < levels.len()
    &&& 0 <= k < levels[i].1.len()
    &&& levels[i].0 == price
    &&& levels[i].1[k].id == id
    &&& forall|c: int| 0 <= c < k ==> (#[trigger] levels[i].1[c]).id != id
}

/// Index of the best level: highest price for bids, lowest for asks.
pub open spec fn best_index(levels: Seq<LevelView>, side: Side) -> int {
    match side {
        Side::Buy => levels.len() - 1,
        Side::Sell => 0,
    }
}

pub open spec fn best_price(levels: Seq<LevelView>, side: Side) -> Option<Price> {
    if levels.len() == 0 {
        None
    } else {
        Some(levels[best_index(levels, side)].0)
    }
}

/// `i` is where a level at `price` is found, or would be inserted.
pub open spec fn is_slot(levels: Seq<LevelView>, price: Price, i: int) -> bool {
    &&& 0 <= i <= levels.len()
    &&& forall|j: int| 0 <= j < i ==> (#[trigger] levels[j]).0 < price
    &&& i < levels.len() ==> levels[i].0 >= price
}

/// Appends `o` to the level at `price` found at slot `i`, creating the level if absent.
pub open spec fn insert_at(levels: Seq<LevelView>, i: int, price: Price, o: Order) -> Seq<
    LevelView,
> {
    if i < levels.len() && levels[i].0 == price {
        levels.update(i, (price, levels[i].1.push(o)))
    } else {
        levels.insert(i, (price, seq![o]))
    }
}

/// Removes the `k`-th order of level `i`, and the level if it empties.
pub open spec fn remove_at(levels: Seq<LevelView>, i: int, k: int) -> Seq<LevelView> {
    if levels[i].1.len() == 1 {
        levels.remove(i)
    } else {
        levels.update(i, (levels[i].0, levels[i].1.remove(k)))
    }
}

/// Takes `qty` from the head of level `i`: the head leaves when that fills it.
pub open spec fn reduce_head(levels: Seq<LevelView>, i: int, qty: int) -> Seq<LevelView> {
    let h = levels[i].1[0];
    if h.quantity <= qty {
        remove_at(levels, i, 0)
    } else {
        levels.update(i, (levels[i].0, levels[i].1.update(0, Order { quantity: (h.quantity - qty) as i64, ..h })))
    }
}

/// The two sides of a limit order book.
///
/// Each side is a `Vec` of levels kept sorted by price, an invariant that
/// `side_wf` states, rather than a `BTreeMap`: vstd specifies `BTreeMap`'s
/// `insert`, `get` and `remove` but not `first_key_value`, `last_key_value`,
/// `get_mut` or `entry`, so the best level could be neither found nor changed
/// in place under a contract. The best level is an end of the `Vec` and is
/// reached in O(1); opening a new level costs O(P) in the number of levels.
#[derive(Debug)]
pub struct OrderBook {
    /// Buy side; the best level is the last.
    bids: Vec<PriceLevel>,
    /// Sell side; the best level is the first.
    asks: Vec<PriceLevel>,
}

impl View for OrderBook {
    type V = BookView;

    closed spec fn view(&self) -> BookView {
        BookView { bids: levels_view(self.bids@), asks: levels_view(self.asks@) }
    }
}

fn levels_insert(levels: &mut Vec<PriceLevel>, order: Order, price: Price)
    requires
        side_wf(levels_view(old(levels)@), order.side),
        fits(order, order.side, price),
        forall|i: int, k: int|
            0 <= i < levels_view(old(levels)@).len() && 0 <= k < levels_view(old(levels)@)[i].1.len()
                && levels_view(old(levels)@)[i].0 == price ==> (
            #[trigger] levels_view(old(levels)@)[i].1[k]).sequence < order.sequence,
    ensures
        side_wf(levels_view(final(levels)@), order.side),
        exists|i: int|
            is_slot(levels_view(old(levels)@), price, i) && levels_view(final(levels)@)
                == insert_at(levels_view(old(levels)@), i, price, order),
{
    let ghost before = levels_view(levels@);
    let mut i: usize = 0;
    while i < levels.len() && levels[i].price < price
        invariant
            0 <= i <= levels@.len(),
            levels_view(levels@) == before,
            forall|j: int| 0 <= j < i ==> (#[trigger] levels@[j]).price < price,
        decreases levels@.len() - i,
    {
        i += 1;
    }
    assert(is_slot(before, price, i as int));
    if i < levels.len() && levels[i].price == price {
        let mut level = levels.remove(i);
        level.orders.push_back(order);
        levels.insert(i, level);
        assert(levels_view(levels@) =~= insert_at(before, i as int, price, order));
    } else {
        let mut orders = VecDeque::new();
        orders.push_back(order);
        levels.insert(i, PriceLevel { price, orders });
        assert(levels_view(levels@) =~= insert_at(before, i as int, price, order));
    }
    proof {
        assert(i < before.len() && before[i as int].0 == price ==> forall|k: int|
            0 <= k < before[i as int].1.len() ==> (#[trigger] before[i as int].1[k]).sequence
                < order.sequence);
        lemma_insert_at(before, order.side, i as int, price, order);
    }
}

fn levels_remove_at(levels: &mut Vec<PriceLevel>, i: usize, k: usize) -> (r: Order)
    requires
        0 <= i < old(levels)@.len(),
        0 <= k < old(levels)@[i as int].orders@.len(),
    ensures
        r == levels_view(old(levels)@)[i as int].1[k as int],
        levels_view(final(levels)@) == remove_at(levels_view(old(levels)@), i as int, k as int),
{
    let ghost before = levels_view(levels@);
    let mut level = levels.remove(i);
    let r = level.orders.remove(k).unwrap();
    if level.orders.len() > 0 {
        levels.insert(i, level);
    }
    assert(levels_view(levels@) =~= remove_at(before, i as int, k as int));
    r
}

fn levels_reduce_head(levels: &mut Vec<PriceLevel>, i: usize, qty: Quantity)
    requires
        0 <= i < old(levels)@.len(),
        old(levels)@[i as int].orders@.len() > 0,
        qty >= 0,
        old(levels)@[i as int].orders@[0].quantity > 0,
    ensures
        levels_view(final(levels)@) == reduce_head(levels_view(old(levels)@), i as int, qty as int),
{
    let ghost before = levels_view(levels@);
    let head = levels[i].orders[0];
    if head.quantity <= qty {
        levels_remove_at(levels, i, 0);
    } else {
        let mut level = levels.remove(i);
        level.orders.pop_front();
        level.orders.push_front(Order { quantity: head.quantity - qty, ..head });
        assert(level.orders@ =~= before[i as int].1.update(
            0,
            Order { quantity: (head.quantity - qty) as i64, ..head },
        ));
        levels.insert(i, level);
        assert(levels_view(levels@) =~= reduce_head(before, i as int, qty as int));
    }
}

fn levels_remove_order(levels: &mut Vec<PriceLevel>, side: Side, price: Price, id: OrderId) -> (r: bool)
    requires
        side_wf(levels_view(old(levels)@), side),
    ensures
        r == rests_at(levels_view(old(levels)@), price, id),
        r ==> exists|i: int, k: int|
            #[trigger] first_with_id(levels_view(old(levels)@), price, id, i, k) && levels_view(
                final(levels)@,
            ) == remove_at(levels_view(old(levels)@), i, k),
        !r ==> final(levels)@ == old(levels)@,
{
    let ghost before = levels_view(levels@);
    let mut i: usize = 0;
    while i < levels.len()
        invariant
            0 <= i <= levels@.len(),
            levels_view(levels@) == before,
            levels@ == old(levels)@,
            side_wf(before, side),
            forall|j: int| 0 <= j < i ==> (#[trigger] before[j]).0 != price,
        decreases levels@.len() - i,
    {
        if levels[i].price == price {
            let mut k: usize = 0;
            while k < levels[i].orders.len()
                invariant
                    0 <= i < levels@.len(),
                    levels_view(levels@) == before,
                    levels@ == old(levels)@,
                    side_wf(before, side),
                    before[i as int].0 == price,
                    0 <= k <= before[i as int].1.len(),
                    forall|c: int| 0 <= c < k ==> (#[trigger] before[i as int].1[c]).id != id,
                    forall|j: int| 0 <= j < i ==> (#[trigger] before[j]).0 != price,
                decreases before[i as int].1.len() - k,
            {
                if levels[i].orders[k].id == id {
                    assert(before[i as int].1[k as int].id == id);
                    levels_remove_at(levels, i, k);
                    assert(levels_view(levels@) == remove_at(before, i as int, k as int));
                    assert(first_with_id(before, price, id, i as int, k as int));
                    return true;
                }
                k += 1;
            }
            proof {
                assert forall|a: int, c: int|
                    0 <= a < before.len() && 0 <= c < before[a].1.len() && before[a].0 == price
                        implies (#[trigger] before[a].1[c]).id != id by {
                    if a > i as int {
                        assert(before[i as int].0 < before[a].0);
                    }
                }
            }
            return false;
        }
        i += 1;
    }
    false
}

impl OrderBook {
    pub open spec fn wf(&self) -> bool {
        self@.wf()
    }

    pub fn new() -> (r: OrderBook)
        ensures
            r@.bids == Seq::<LevelView>::empty(),
            r@.asks == Seq::<LevelView>::empty(),
            r.wf(),
    {
        let r = OrderBook { bids: Vec::new(), asks: Vec::new() };
        assert(r@.bids =~= Seq::<LevelView>::empty());
        assert(r@.asks =~= Seq::<LevelView>::empty());
        r
    }

    /// Highest bid price, if any.
    pub fn best_bid_price(&self) -> (r: Option<Price>)
        ensures
            r == best_price(self@.bids, Side::Buy),
    {
        let n = self.bids.len();
        if n == 0 {
            None
        } else {
            Some(self.bids[n - 1].price)
        }
    }

    /// Lowest ask price, if any.
    pub fn best_ask_price(&self) -> (r: Option<Price>)
        ensures
            r == best_price(self@.asks, Side::Sell),
    {
        if self.asks.len() == 0 {
            None
        } else {
            Some(self.asks[0].price)
        }
    }

    /// Best price on the given side.
    pub fn best_price(&self, side: Side) -> (r: Option<Price>)
        ensures
            r == best_price(self@.side(side), side),
    {
        match side {
            Side::Buy => self.best_bid_price(),
            Side::Sell => self.best_ask_price(),
        }
    }

    /// Appends a limit order to the tail of its price level, creating the level
    /// where there is none.
    pub fn insert(&mut self, order: Order)
        requires
            old(self).wf(),
            order.order_type == OrderType::Limit,
            order.price is Some,
            order.quantity > 0,
            forall|i: int, k: int|
                0 <= i < old(self)@.side(order.side).len() && 0 <= k < old(self)@.side(
                    order.side,
                )[i].1.len() && old(self)@.side(order.side)[i].0 == order.price->Some_0 ==> (
                #[trigger] old(self)@.side(order.side)[i].1[k]).sequence < order.sequence,
        ensures
            final(self).wf(),
            exists|i: int|
                is_slot(old(self)@.side(order.side), order.price->Some_0, i)
                    && final(self)@.side(order.side) == insert_at(
                    old(self)@.side(order.side),
                    i,
                    order.price->Some_0,
                    order,
                ),
            final(self)@.side(opposite(order.side)) == old(self)@.side(opposite(order.side)),
    {
        let price = match order.price {
            Some(p) => p,
            None => 0,
        };
        match order.side {
            Side::Buy => {
                assert(old(self)@.side(order.side) == levels_view(self.bids@));
                levels_insert(&mut self.bids, order, price);
            },
            Side::Sell => {
                assert(old(self)@.side(order.side) == levels_view(self.asks@));
                levels_insert(&mut self.asks, order, price);
            },
        }
    }

    /// Head of the best bid level: the earliest order at the highest bid price.
    pub fn peek_best_bid(&self) -> (r: Option<&Order>)
        requires
            self.wf(),
        ensures
            r == (if self@.bids.len() == 0 {
                None::<&Order>
            } else {
                Some(&self@.bids[best_index(self@.bids, Side::Buy)].1[0])
            }),
    {
        let n = self.bids.len();
        if n == 0 {
            None
        } else {
            assert(self@.bids[n - 1].1.len() > 0);
            Some(&self.bids[n - 1].orders[0])
        }
    }

    /// Head of the best ask level: the earliest order at the lowest ask price.
    pub fn peek_best_ask(&self) -> (r: Option<&Order>)
        requires
            self.wf(),
        ensures
            r == (if self@.asks.len() == 0 {
                None::<&Order>
            } else {
                Some(&self@.asks[best_index(self@.asks, Side::Sell)].1[0])
            }),
    {
        if self.asks.len() == 0 {
            None
        } else {
            assert(self@.asks[0].1.len() > 0);
            Some(&self.asks[0].orders[0])
        }
    }

    /// Head of the best level on the given side.
    pub fn peek_best(&self, side: Side) -> (r: Option<&Order>)
        requires
            self.wf(),
        ensures
            r == (if self@.side(side).len() == 0 {
                None::<&Order>
            } else {
                Some(&self@.side(side)[best_index(self@.side(side), side)].1[0])
            }),
    {
        match side {
            Side::Buy => self.peek_best_bid(),
            Side::Sell => self.peek_best_ask(),
        }
    }

    /// Removes and returns the head of the best bid level; the level goes when
    /// it empties.
    pub fn pop_best_bid(&mut self) -> (r: Option<Order>)
        requires
            old(self).wf(),
        ensures
            final(self).wf(),
            final(self)@.asks == old(self)@.asks,
            old(self)@.bids.len() == 0 ==> r is None && final(self)@.bids == old(self)@.bids,
            old(self)@.bids.len() > 0 ==> r == Some(
                old(self)@.bids[best_index(old(self)@.bids, Side::Buy)].1[0],
            ) && final(self)@.bids == remove_at(
                old(self)@.bids,
                best_index(old(self)@.bids, Side::Buy),
                0,
            ),
    {
        let n = self.bids.len();
        if n == 0 {
            return None;
        }
        assert(self@.bids[n - 1].1.len() > 0);
        proof {
            lemma_remove_at(self@.bids, Side::Buy, n - 1, 0);
        }
        Some(levels_remove_at(&mut self.bids, n - 1, 0))
    }

    /// Removes and returns the head of the best ask level; the level goes when
    /// it empties.
    pub fn pop_best_ask(&mut self) -> (r: Option<Order>)
        requires
            old(self).wf(),
        ensures
            final(self).wf(),
            final(self)@.bids == old(self)@.bids,
            old(self)@.asks.len() == 0 ==> r is None && final(self)@.asks == old(self)@.asks,
            old(self)@.asks.len() > 0 ==> r == Some(
                old(self)@.asks[best_index(old(self)@.asks, Side::Sell)].1[0],
            ) && final(self)@.asks == remove_at(
                old(self)@.asks,
                best_index(old(self)@.asks, Side::Sell),
                0,
            ),
    {
        if self.asks.len() == 0 {
            return None;
        }
        assert(self@.asks[0].1.len() > 0);
        proof {
            lemma_remove_at(self@.asks, Side::Sell, 0, 0);
        }
        Some(levels_remove_at(&mut self.asks, 0, 0))
    }

    /// Takes `qty` from the head of the best bid level: the head leaves when
    /// that fills it, and its level when that empties.
    pub fn reduce_best_price(&mut self, qty: Quantity)
        requires
            old(self).wf(),
            qty >= 0,
        ensures
            final(self).wf(),
            final(self)@.asks == old(self)@.asks,
            final(self)@.bids == (if old(self)@.bids.len() == 0 {
                old(self)@.bids
            } else {
                reduce_head(old(self)@.bids, best_index(old(self)@.bids, Side::Buy), qty as int)
            }),
    {
        let n = self.bids.len();
        if n > 0 {
            assert(self@.bids[n - 1].1.len() > 0);
            assert(fits(self@.bids[n - 1].1[0], Side::Buy, self@.bids[n - 1].0));
            proof {
                lemma_reduce_head(self@.bids, Side::Buy, n - 1, qty as int);
            }
            levels_reduce_head(&mut self.bids, n - 1, qty);
        }
    }

    /// Takes `qty` from the head of the best ask level: the head leaves when
    /// that fills it, and its level when that empties.
    pub fn reduce_best_ask(&mut self, qty: Quantity)
        requires
            old(self).wf(),
            qty >= 0,
        ensures
            final(self).wf(),
            final(self)@.bids == old(self)@.bids,
            final(self)@.asks == (if old(self)@.asks.len() == 0 {
                old(self)@.asks
            } else {
                reduce_head(old(self)@.asks, best_index(old(self)@.asks, Side::Sell), qty as int)
            }),
    {
        if self.asks.len() > 0 {
            assert(self@.asks[0].1.len() > 0);
            assert(fits(self@.asks[0].1[0], Side::Sell, self@.asks[0].0));
            proof {
                lemma_reduce_head(self@.asks, Side::Sell, 0, qty as int);
            }
            levels_reduce_head(&mut self.asks, 0, qty);
        }
    }

    /// Takes `qty` from the head of the best level on the given side.
    pub fn reduce_best(&mut self, side: Side, qty: Quantity)
        requires
            old(self).wf(),
            qty >= 0,
        ensures
            final(self).wf(),
            final(self)@.side(opposite(side)) == old(self)@.side(opposite(side)),
            final(self)@.side(side) == (if old(self)@.side(side).len() == 0 {
                old(self)@.side(side)
            } else {
                reduce_head(old(self)@.side(side), best_index(old(self)@.side(side), side), qty as int)
            }),
    {
        match side {
            Side::Buy => self.reduce_best_price(qty),
            Side::Sell => self.reduce_best_ask(qty),
        }
    }

    /// Removes the first order with this id (the one nearest the head) from
    /// the level at (side, price); says whether there was one. The level goes when it empties.
    pub fn remove_order(&mut self, side: Side, price: Price, id: OrderId) -> (r: bool)
        requires
            old(self).wf(),
        ensures
            final(self).wf(),
            r == rests_at(old(self)@.side(side), price, id),
            final(self)@.side(opposite(side)) == old(self)@.side(opposite(side)),
            r ==> exists|i: int, k: int|
                #[trigger] first_with_id(old(self)@.side(side), price, id, i, k) && final(self)@.side(
                    side,
                ) == remove_at(old(self)@.side(side), i, k),
            !r ==> final(self)@ == old(self)@,
    {
        let ghost before = self@.side(side);
        let r = match side {
            Side::Buy => levels_remove_order(&mut self.bids, side, price, id),
            Side::Sell => levels_remove_order(&mut self.asks, side, price, id),
        };
        proof {
            if r {
                let (i, k) = choose|i: int, k: int|
                    #[trigger] first_with_id(before, price, id, i, k) && self@.side(side) == remove_at(
                        before,
                        i,
                        k,
                    );
                lemma_remove_at(before, side, i, k);
            }
        }
        r
    }
}

impl OrderBook {
    /// Number of price levels on a side.
    pub fn depth(&self, side: Side) -> (r: usize)
        ensures
            r == self@.side(side).len(),
    {
        match side {
            Side::Buy => self.bids.len(),
            Side::Sell => self.asks.len(),
        }
    }
}

} // verus!
