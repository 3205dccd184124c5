use vstd::prelude::*;
use crate::order::{Order, OrderId, Price, Side};
use crate::trade::Trade;
use crate::order_book::{
    BookView, LevelView, best_index, ids_unique, opposite, reduce_head, remove_at, rests_at,
    side_wf,
};
use crate::order_index::OrderLocation;
use crate::matching_engine::{EngineEvent, MatchingEngine, after_cancel, after_new_order, cross, trade_events};
use crate::book_lemmas::{lemma_reduce_head, lemma_remove_at};
use crate::order_book::fits;

verus! {

/// An id rests in at most one place: one side, one price level.
pub open spec fn one_place(b: BookView) -> bool {
    forall|s1: Side, pa: Price, s2: Side, pb: Price, id: OrderId|
        #[trigger] rests_at(b.side(s1), pa, id) && #[trigger] rests_at(b.side(s2), pb, id) ==> s1
            == s2 && pa == pb
}

/// A book that an engine can hold: well formed, ids unique within each level,
/// and each id in one place.
pub open spec fn book_ok(b: BookView) -> bool {
    &&& b.wf()
    &&& ids_unique(b.bids)
    &&& ids_unique(b.asks)
    &&& one_place(b)
}

/// Every engine's book is one that an engine can hold.
pub proof fn lemma_engine_book_ok(e: &MatchingEngine)
    requires
        e.wf(),
    ensures
        book_ok(e.book()),
{
    let b = e.book();
    let idx = e.index();
    assert forall|s1: Side, pa: Price, s2: Side, pb: Price, id: OrderId|
        #[trigger] rests_at(b.side(s1), pa, id) && #[trigger] rests_at(b.side(s2), pb, id) implies s1
        == s2 && pa == pb by {
        assert(idx[id] == OrderLocation { side: s1, price: pa });
        assert(idx[id] == OrderLocation { side: s2, price: pb });
    }
}

proof fn lemma_side_wf(b: BookView, s: Side)
    requires
        b.wf(),
        ids_unique(b.bids),
        ids_unique(b.asks),
    ensures
        side_wf(b.side(s), s),
        ids_unique(b.side(s)),
{
}

/// Cancelling one id twice in a row: the second cancel finds nothing, answers
/// with the one rejection "order not found", and changes nothing.
pub proof fn law_cancel_twice(
    b0: BookView,
    id: OrderId,
    b1: BookView,
    ev1: Seq<EngineEvent>,
    b2: BookView,
    ev2: Seq<EngineEvent>,
)
    requires
        book_ok(b0),
        after_cancel(b0, id, b1, ev1),
        after_cancel(b1, id, b2, ev2),
    ensures
        ev2.len() == 1,
        ev2[0] is Reject,
        ev2[0]->Reject_0@ == "order not found"@,
        b2 == b1,
{
    if exists|s: Side, p: Price| rests_at(b0.side(s), p, id) {
        let (s, i, k) = choose|s: Side, i: int, k: int|
            0 <= i < b0.side(s).len() && 0 <= k < b0.side(s)[i].1.len() && (#[trigger] b0.side(
                s,
            )[i].1[k]).id == id && b1.side(s) == remove_at(b0.side(s), i, k) && b1.side(
                opposite(s),
            ) == b0.side(opposite(s));
        lemma_side_wf(b0, s);
        lemma_remove_at(b0.side(s), s, i, k);
        let pi = b0.side(s)[i].0;
        assert(rests_at(b0.side(s), pi, id));
        assert forall|s2: Side, p: Price| !rests_at(b1.side(s2), p, id) by {
            if s2 == s {
                if rests_at(b1.side(s2), p, id) {
                    assert(rests_at(b0.side(s), p, id));
                }
            } else {
                assert(s2 == opposite(s));
                if rests_at(b1.side(s2), p, id) {
                    assert(rests_at(b0.side(s2), p, id));
                }
            }
        }
    }
}

/// The trades of `cross(opp, ..)` happen at prices of levels of `opp`: when
/// those lie within `lo..=hi`, so do the trade prices.
pub proof fn lemma_cross_prices_within(opp: Seq<LevelView>, aggr: Order, q: int, lo: int, hi: int)
    requires
        side_wf(opp, opposite(aggr.side)),
        forall|j: int| 0 <= j < opp.len() ==> lo <= (#[trigger] opp[j]).0 <= hi,
    ensures
        forall|j: int|
            0 <= j < cross(opp, aggr, q).1.len() ==> lo <= (#[trigger] cross(opp, aggr, q).1[j]).price
                <= hi,
    decreases q,
{
    if q <= 0 || opp.len() == 0 {
    } else {
        let bi = best_index(opp, opposite(aggr.side));
        let maker = opp[bi].1[0];
        if !crate::matching_engine::crosses(aggr, opp[bi].0) || maker.quantity <= 0 {
        } else {
            let fill = if q < maker.quantity {
                q
            } else {
                maker.quantity as int
            };
            let next = reduce_head(opp, bi, fill);
            lemma_reduce_head(opp, opposite(aggr.side), bi, fill);
            assert forall|j: int| 0 <= j < next.len() implies lo <= (#[trigger] next[j]).0 <= hi by {
                if opp[bi].1[0].quantity <= fill && opp[bi].1.len() == 1 {
                    if j < bi {
                        assert(next[j] == opp[j]);
                    } else {
                        assert(next[j] == opp[j + 1]);
                    }
                } else {
                    assert(next[j].0 == opp[j].0);
                }
            }
            lemma_cross_prices_within(next, aggr, q - fill, lo, hi);
            let ts = cross(opp, aggr, q).1;
            let rest = cross(next, aggr, q - fill).1;
            assert forall|j: int| 0 <= j < ts.len() implies lo <= (#[trigger] ts[j]).price <= hi by {
                if j > 0 {
                    assert(ts[j] == rest[j - 1]);
                }
            }
        }
    }
}

/// Price priority: a buyer's trades come at non-decreasing prices, a seller's
/// at non-increasing prices; no better level is skipped for a worse one.
pub proof fn law_price_priority(opp: Seq<LevelView>, aggr: Order, q: int)
    requires
        side_wf(opp, opposite(aggr.side)),
    ensures
        forall|i: int, j: int|
            0 <= i < j < cross(opp, aggr, q).1.len() ==> (aggr.side == Side::Buy ==> (
            #[trigger] cross(opp, aggr, q).1[i]).price <= (#[trigger] cross(opp, aggr, q).1[j]).price)
                && (aggr.side == Side::Sell ==> cross(opp, aggr, q).1[i].price >= cross(
                opp,
                aggr,
                q,
            ).1[j].price),
    decreases q,
{
    if q <= 0 || opp.len() == 0 {
    } else {
        let bi = best_index(opp, opposite(aggr.side));
        let maker = opp[bi].1[0];
        if !crate::matching_engine::crosses(aggr, opp[bi].0) || maker.quantity <= 0 {
        } else {
            let fill = if q < maker.quantity {
                q
            } else {
                maker.quantity as int
            };
            let next = reduce_head(opp, bi, fill);
            let best = opp[bi].0 as int;
            lemma_reduce_head(opp, opposite(aggr.side), bi, fill);
            law_price_priority(next, aggr, q - fill);
            if aggr.side == Side::Buy {
                assert forall|j: int| 0 <= j < opp.len() implies best <= (#[trigger] opp[j]).0 <= i64::MAX by {
                    if j > 0 {
                        assert(opp[0].0 < opp[j].0);
                    }
                }
                lemma_cross_prices_within(opp, aggr, q, best, i64::MAX as int);
            } else {
                assert forall|j: int| 0 <= j < opp.len() implies i64::MIN <= (#[trigger] opp[j]).0 <= best by {
                    if j < opp.len() - 1 {
                        assert(opp[j].0 < opp[opp.len() - 1].0);
                    }
                }
                lemma_cross_prices_within(opp, aggr, q, i64::MIN as int, best);
            }
            let ts = cross(opp, aggr, q).1;
            let rest = cross(next, aggr, q - fill).1;
            assert(ts[0].price == best);
            assert forall|i: int, j: int| 0 <= i < j < ts.len() implies (aggr.side == Side::Buy ==> (
            #[trigger] ts[i]).price <= (#[trigger] ts[j]).price) && (aggr.side == Side::Sell
                ==> ts[i].price >= ts[j].price) by {
                if i > 0 {
                    assert(ts[i] == rest[i - 1]);
                    assert(ts[j] == rest[j - 1]);
                }
            }
        }
    }
}

/// Whether an order or a maker id is counted: every one when `only` is
/// `None`, else the one with that id.
pub open spec fn counted(id: OrderId, only: Option<OrderId>) -> bool {
    only is None || only == Some(id)
}

/// Total quantity of the trades whose maker is counted.
pub open spec fn sum_traded(aggr: Order, ts: Seq<Trade>, only: Option<OrderId>) -> int
    decreases ts.len(),
{
    if ts.len() == 0 {
        0
    } else {
        (if counted(maker_of(aggr, ts[0]), only) {
            ts[0].quantity as int
        } else {
            0
        }) + sum_traded(aggr, ts.drop_first(), only)
    }
}

/// Total remaining quantity of the counted orders of a queue.
pub open spec fn queue_qty(q: Seq<Order>, only: Option<OrderId>) -> int
    decreases q.len(),
{
    if q.len() == 0 {
        0
    } else {
        (if counted(q[0].id, only) {
            q[0].quantity as int
        } else {
            0
        }) + queue_qty(q.drop_first(), only)
    }
}

/// Total remaining quantity of the counted orders resting on a side.
pub open spec fn side_qty(levels: Seq<LevelView>, only: Option<OrderId>) -> int
    decreases levels.len(),
{
    if levels.len() == 0 {
        0
    } else {
        queue_qty(levels[0].1, only) + side_qty(levels.drop_first(), only)
    }
}

proof fn lemma_side_qty_update(levels: Seq<LevelView>, i: int, lv: LevelView, only: Option<OrderId>)
    requires
        0 <= i < levels.len(),
    ensures
        side_qty(levels.update(i, lv), only) == side_qty(levels, only) - queue_qty(levels[i].1, only)
            + queue_qty(lv.1, only),
    decreases i,
{
    let u = levels.update(i, lv);
    if i == 0 {
        assert(u.drop_first() =~= levels.drop_first());
    } else {
        assert(u.drop_first() =~= levels.drop_first().update(i - 1, lv));
        lemma_side_qty_update(levels.drop_first(), i - 1, lv, only);
    }
}

proof fn lemma_side_qty_remove(levels: Seq<LevelView>, i: int, only: Option<OrderId>)
    requires
        0 <= i < levels.len(),
    ensures
        side_qty(levels.remove(i), only) == side_qty(levels, only) - queue_qty(levels[i].1, only),
    decreases i,
{
    let r = levels.remove(i);
    if i == 0 {
        assert(r =~= levels.drop_first());
    } else {
        assert(r.drop_first() =~= levels.drop_first().remove(i - 1));
        assert(r[0] == levels[0]);
        lemma_side_qty_remove(levels.drop_first(), i - 1, only);
    }
}

/// Taking `fill` from a head that holds at least that much takes exactly
/// `fill` from the side, and from the head's id.
proof fn lemma_side_qty_reduce(levels: Seq<LevelView>, i: int, fill: int, only: Option<OrderId>)
    requires
        0 <= i < levels.len(),
        levels[i].1.len() > 0,
        0 < fill <= levels[i].1[0].quantity,
    ensures
        side_qty(reduce_head(levels, i, fill), only) == side_qty(levels, only) - (if counted(
            levels[i].1[0].id,
            only,
        ) {
            fill
        } else {
            0
        }),
{
    let q = levels[i].1;
    let h = q[0];
    assert(queue_qty(q, only) == (if counted(h.id, only) {
        h.quantity as int
    } else {
        0
    }) + queue_qty(q.drop_first(), only));
    if h.quantity <= fill {
        if q.len() == 1 {
            assert(q.drop_first().len() == 0);
            assert(queue_qty(q.drop_first(), only) == 0);
            lemma_side_qty_remove(levels, i, only);
        } else {
            assert(q.remove(0) =~= q.drop_first());
            lemma_side_qty_update(levels, i, (levels[i].0, q.remove(0)), only);
        }
    } else {
        let nq = q.update(0, Order { quantity: (h.quantity - fill) as i64, ..h });
        assert(nq.drop_first() =~= q.drop_first());
        assert(queue_qty(nq, only) == (if counted(nq[0].id, only) {
            nq[0].quantity as int
        } else {
            0
        }) + queue_qty(nq.drop_first(), only));
        lemma_side_qty_update(levels, i, (levels[i].0, nq), only);
    }
}

/// Conservation of quantity: every trade takes its quantity from both the
/// aggressor and the maker, and no quantity is made or lost. What the
/// aggressor traded plus what it has left is what it brought; the opposite
/// side, and each order on it (`only == Some(id)`), loses exactly what was
/// traded against it. So no order ever trades more than it held.
pub proof fn law_conservation(opp: Seq<LevelView>, aggr: Order, q: int, only: Option<OrderId>)
    requires
        side_wf(opp, opposite(aggr.side)),
        q >= 0,
    ensures
        sum_traded(aggr, cross(opp, aggr, q).1, None) + cross(opp, aggr, q).2 == q,
        side_qty(cross(opp, aggr, q).0, only) + sum_traded(aggr, cross(opp, aggr, q).1, only)
            == side_qty(opp, only),
        0 <= cross(opp, aggr, q).2 <= q,
        0 <= side_qty(cross(opp, aggr, q).0, only),
        forall|j: int|
            0 <= j < cross(opp, aggr, q).1.len() ==> (#[trigger] cross(opp, aggr, q).1[j]).quantity
                > 0,
    decreases q,
{
    lemma_side_qty_nonneg(opp, opposite(aggr.side), only);
    if q <= 0 || opp.len() == 0 {
    } else {
        let bi = best_index(opp, opposite(aggr.side));
        let maker = opp[bi].1[0];
        if !crate::matching_engine::crosses(aggr, opp[bi].0) || maker.quantity <= 0 {
        } else {
            let fill = if q < maker.quantity {
                q
            } else {
                maker.quantity as int
            };
            let next = reduce_head(opp, bi, fill);
            lemma_reduce_head(opp, opposite(aggr.side), bi, fill);
            lemma_side_qty_reduce(opp, bi, fill, only);
            law_conservation(next, aggr, q - fill, only);
            let ts = cross(opp, aggr, q).1;
            let rest = cross(next, aggr, q - fill).1;
            assert(ts.drop_first() =~= rest);
            assert(ts[0].quantity == fill);
            assert(maker_of(aggr, ts[0]) == maker.id);
            assert forall|j: int| 0 <= j < ts.len() implies (#[trigger] ts[j]).quantity > 0 by {
                if j > 0 {
                    assert(ts[j] == rest[j - 1]);
                }
            }
        }
    }
}

proof fn lemma_queue_qty_nonneg(q: Seq<Order>, side: Side, price: Price, only: Option<OrderId>)
    requires
        forall|k: int| 0 <= k < q.len() ==> fits(#[trigger] q[k], side, price),
    ensures
        queue_qty(q, only) >= 0,
    decreases q.len(),
{
    if q.len() > 0 {
        assert(fits(q[0], side, price));
        assert forall|k: int| 0 <= k < q.drop_first().len() implies fits(
            #[trigger] q.drop_first()[k],
            side,
            price,
        ) by {
            assert(fits(q[k + 1], side, price));
        }
        lemma_queue_qty_nonneg(q.drop_first(), side, price, only);
    }
}

proof fn lemma_side_qty_nonneg(levels: Seq<LevelView>, side: Side, only: Option<OrderId>)
    requires
        side_wf(levels, side),
    ensures
        side_qty(levels, only) >= 0,
    decreases levels.len(),
{
    if levels.len() > 0 {
        assert forall|k: int| 0 <= k < levels[0].1.len() implies fits(
            #[trigger] levels[0].1[k],
            side,
            levels[0].0,
        ) by {
            assert(fits(levels[0].1[k], side, levels[0].0));
        }
        lemma_queue_qty_nonneg(levels[0].1, side, levels[0].0, only);
        let rest = levels.drop_first();
        assert forall|a: int, b: int| 0 <= a < b < rest.len() implies (#[trigger] rest[a]).0 < (
        #[trigger] rest[b]).0 by {
            assert(levels[a + 1].0 < levels[b + 1].0);
        }
        assert forall|a: int| 0 <= a < rest.len() implies (#[trigger] rest[a]).1.len() > 0 by {
            assert(levels[a + 1].1.len() > 0);
        }
        assert forall|a: int, c: int| 0 <= a < rest.len() && 0 <= c < rest[a].1.len() implies fits(
            #[trigger] rest[a].1[c],
            side,
            rest[a].0,
        ) by {
            assert(fits(levels[a + 1].1[c], side, levels[a + 1].0));
        }
        assert forall|a: int, c: int, d: int|
            0 <= a < rest.len() && 0 <= c < d < rest[a].1.len() implies (#[trigger] rest[a].1[c]).sequence
            < (#[trigger] rest[a].1[d]).sequence by {
            assert(levels[a + 1].1[c].sequence < levels[a + 1].1[d].sequence);
        }
        lemma_side_qty_nonneg(rest, side, only);
    }
}

/// The resting order that a trade of `aggr` was made against.
pub open spec fn maker_of(aggr: Order, t: Trade) -> OrderId {
    match aggr.side {
        Side::Buy => t.sell_order_id,
        Side::Sell => t.buy_order_id,
    }
}

/// Each id rests at one price at most.
pub open spec fn one_price(levels: Seq<LevelView>) -> bool {
    forall|pa: Price, pb: Price, id: OrderId|
        #[trigger] rests_at(levels, pa, id) && #[trigger] rests_at(levels, pb, id) ==> pa == pb
}

pub open spec fn rests_somewhere(levels: Seq<LevelView>, id: OrderId) -> bool {
    exists|p: Price| #[trigger] rests_at(levels, p, id)
}

/// `a` and `b` rest in the level at `p`, `a` nearer the head.
pub open spec fn ahead(levels: Seq<LevelView>, p: Price, a: OrderId, b: OrderId) -> bool {
    exists|i: int, ka: int, kb: int|
        0 <= i < levels.len() && 0 <= ka < kb < levels[i].1.len() && levels[i].0 == p && (
        #[trigger] levels[i].1[ka]).id == a && (#[trigger] levels[i].1[kb]).id == b
}

/// The cross loop adds no order to the side it meets, and trades only with
/// orders that rested there.
pub proof fn lemma_cross_from_resting(opp: Seq<LevelView>, aggr: Order, q: int)
    requires
        side_wf(opp, opposite(aggr.side)),
        ids_unique(opp),
    ensures
        forall|p: Price, id: OrderId|
            #[trigger] rests_at(cross(opp, aggr, q).0, p, id) ==> rests_at(opp, p, id),
        forall|j: int|
            0 <= j < cross(opp, aggr, q).1.len() ==> rests_somewhere(
                opp,
                maker_of(aggr, #[trigger] cross(opp, aggr, q).1[j]),
            ),
        side_wf(cross(opp, aggr, q).0, opposite(aggr.side)),
        ids_unique(cross(opp, aggr, q).0),
    decreases q,
{
    if q <= 0 || opp.len() == 0 {
    } else {
        let bi = best_index(opp, opposite(aggr.side));
        let maker = opp[bi].1[0];
        if !crate::matching_engine::crosses(aggr, opp[bi].0) || maker.quantity <= 0 {
        } else {
            let fill = if q < maker.quantity {
                q
            } else {
                maker.quantity as int
            };
            let next = reduce_head(opp, bi, fill);
            lemma_reduce_head(opp, opposite(aggr.side), bi, fill);
            lemma_cross_from_resting(next, aggr, q - fill);
            let ts = cross(opp, aggr, q).1;
            let rest = cross(next, aggr, q - fill).1;
            assert(rests_at(opp, opp[bi].0, maker.id));
            assert forall|j: int| 0 <= j < ts.len() implies rests_somewhere(
                opp,
                maker_of(aggr, #[trigger] ts[j]),
            ) by {
                if j == 0 {
                    assert(maker_of(aggr, ts[0]) == maker.id);
                } else {
                    assert(ts[j] == rest[j - 1]);
                    assert(rests_somewhere(next, maker_of(aggr, rest[j - 1])));
                    let p = choose|p: Price| #[trigger] rests_at(next, p, maker_of(aggr, rest[j - 1]));
                    assert(rests_at(opp, p, maker_of(aggr, ts[j])));
                }
            }
        }
    }
}

/// Taking from a head that is neither `a` nor `b` keeps `a` ahead of `b`.
proof fn lemma_ahead_after_reduce(
    opp: Seq<LevelView>,
    side: Side,
    bi: int,
    fill: int,
    p: Price,
    a: OrderId,
    b: OrderId,
    i: int,
    ka: int,
    kb: int,
)
    requires
        side_wf(opp, side),
        0 <= bi < opp.len(),
        fill > 0,
        opp[bi].1[0].id != a,
        0 <= i < opp.len(),
        0 <= ka < kb < opp[i].1.len(),
        opp[i].0 == p,
        opp[i].1[ka].id == a,
        opp[i].1[kb].id == b,
    ensures
        ahead(reduce_head(opp, bi, fill), p, a, b),
{
    let next = reduce_head(opp, bi, fill);
    let q0 = opp[bi].1;
    assert(q0.len() > 0);
    if bi == i {
        assert(ka > 0);
    }
    if q0[0].quantity <= fill {
        if q0.len() == 1 {
            assert(bi != i);
            let i2 = if i < bi {
                i
            } else {
                i - 1
            };
            assert(next[i2] == opp[i]);
            assert(next[i2].1[ka].id == a && next[i2].1[kb].id == b);
        } else if bi == i {
            assert(next[i].1 == q0.remove(0));
            assert(next[i].1[ka - 1].id == a && next[i].1[kb - 1].id == b);
        } else {
            assert(next[i] == opp[i]);
            assert(next[i].1[ka].id == a && next[i].1[kb].id == b);
        }
    } else if bi == i {
        assert(next[i].1[ka].id == a && next[i].1[kb].id == b);
    } else {
        assert(next[i] == opp[i]);
        assert(next[i].1[ka].id == a && next[i].1[kb].id == b);
    }
}

#[verifier::spinoff_prover]
#[verifier::rlimit(60)]
proof fn lemma_time_priority(opp: Seq<LevelView>, aggr: Order, q: int, p: Price, a: OrderId, b: OrderId)
    requires
        side_wf(opp, opposite(aggr.side)),
        ids_unique(opp),
        one_price(opp),
        ahead(opp, p, a, b),
    ensures
        forall|j: int|
            0 <= j < cross(opp, aggr, q).1.len() && maker_of(aggr, #[trigger] cross(opp, aggr, q).1[j])
                == b ==> !rests_at(cross(opp, aggr, q).0, p, a) && forall|j2: int|
                0 <= j2 < cross(opp, aggr, q).1.len() && maker_of(
                    aggr,
                    #[trigger] cross(opp, aggr, q).1[j2],
                ) == a ==> j2 < j,
    decreases q,
{
    let c = cross(opp, aggr, q);
    let (i, ka, kb) = choose|i: int, ka: int, kb: int|
        0 <= i < opp.len() && 0 <= ka < kb < opp[i].1.len() && opp[i].0 == p && (
        #[trigger] opp[i].1[ka]).id == a && (#[trigger] opp[i].1[kb]).id == b;
    assert(a != b);
    if q <= 0 || opp.len() == 0 {
    } else {
        let side = opposite(aggr.side);
        let bi = best_index(opp, side);
        let maker = opp[bi].1[0];
        if !crate::matching_engine::crosses(aggr, opp[bi].0) || maker.quantity <= 0 {
        } else {
            let fill = if q < maker.quantity {
                q
            } else {
                maker.quantity as int
            };
            let next = reduce_head(opp, bi, fill);
            lemma_reduce_head(opp, side, bi, fill);
            lemma_cross_from_resting(next, aggr, q - fill);
            let rest = cross(next, aggr, q - fill);
            let ts = c.1;
            assert(maker_of(aggr, ts[0]) == maker.id);
            assert(forall|j: int| 0 < j < ts.len() ==> ts[j] == rest.1[j - 1]);
            assert(rests_at(opp, opp[bi].0, maker.id));
            assert(rests_at(opp, p, b));
            assert(rests_at(opp, p, a));
            if maker.id == b {
                assert(opp[bi].0 == p);
                if bi != i {
                    if bi < i {
                        assert(opp[bi].0 < opp[i].0);
                    } else {
                        assert(opp[i].0 < opp[bi].0);
                    }
                }
                assert(false);
            }
            if maker.id == a {
                assert(opp[bi].0 == p);
                if bi != i {
                    if bi < i {
                        assert(opp[bi].0 < opp[i].0);
                    } else {
                        assert(opp[i].0 < opp[bi].0);
                    }
                }
                if maker.quantity <= fill {
                    assert(!rests_at(next, p, a));
                    assert(!rests_at(c.0, p, a));
                    assert forall|j2: int| 0 < j2 < ts.len() implies maker_of(aggr, #[trigger] ts[j2]) != a by {
                        assert(rests_somewhere(next, maker_of(aggr, rest.1[j2 - 1])));
                        if maker_of(aggr, ts[j2]) == a {
                            let pb = choose|pb: Price| #[trigger] rests_at(next, pb, a);
                            assert(rests_at(opp, pb, a));
                        }
                    }
                } else {
                    assert(q - fill == 0);
                    assert(rest.1.len() == 0);
                }
            } else {
                // The head is neither `a` nor `b`: both keep their order in `next`.
                assert(one_price(next)) by {
                    assert forall|pa: Price, pb: Price, id: OrderId|
                        #[trigger] rests_at(next, pa, id) && #[trigger] rests_at(next, pb, id)
                        implies pa == pb by {
                        assert(rests_at(opp, pa, id) && rests_at(opp, pb, id));
                    }
                }
                lemma_ahead_after_reduce(opp, side, bi, fill, p, a, b, i, ka, kb);
                lemma_time_priority(next, aggr, q - fill, p, a, b);
                assert forall|j: int|
                    0 <= j < ts.len() && maker_of(aggr, #[trigger] ts[j]) == b implies !rests_at(
                    c.0,
                    p,
                    a,
                ) && forall|j2: int|
                    0 <= j2 < ts.len() && maker_of(aggr, #[trigger] ts[j2]) == a ==> j2 < j by {
                    assert(j > 0);
                    assert(maker_of(aggr, rest.1[j - 1]) == b);
                    assert forall|j2: int|
                        0 <= j2 < ts.len() && maker_of(aggr, #[trigger] ts[j2]) == a implies j2 < j by {
                        assert(j2 > 0);
                        assert(maker_of(aggr, rest.1[j2 - 1]) == a);
                    }
                }
            }
        }
    }
}

/// Time priority: of two orders resting in one level, the one nearer the head
/// (the earlier, by the level's ascending sequences) is consumed first. Once
/// the aggressor trades with the later one, the earlier one no longer rests,
/// and every trade with the earlier one came before.
pub proof fn law_time_priority(opp: Seq<LevelView>, aggr: Order, q: int, i: int, ka: int, kb: int)
    requires
        side_wf(opp, opposite(aggr.side)),
        ids_unique(opp),
        one_price(opp),
        0 <= i < opp.len(),
        0 <= ka < opp[i].1.len(),
        0 <= kb < opp[i].1.len(),
        opp[i].1[ka].sequence < opp[i].1[kb].sequence,
    ensures
        forall|j: int|
            0 <= j < cross(opp, aggr, q).1.len() && maker_of(aggr, #[trigger] cross(opp, aggr, q).1[j])
                == opp[i].1[kb].id ==> !rests_at(cross(opp, aggr, q).0, opp[i].0, opp[i].1[ka].id)
                && forall|j2: int|
                0 <= j2 < cross(opp, aggr, q).1.len() && maker_of(
                    aggr,
                    #[trigger] cross(opp, aggr, q).1[j2],
                ) == opp[i].1[ka].id ==> j2 < j,
{
    if kb <= ka {
        if kb < ka {
            assert(opp[i].1[kb].sequence < opp[i].1[ka].sequence);
        }
        assert(false);
    }
    assert(opp[i].1[ka].id == opp[i].1[ka].id);
    assert(ahead(opp, opp[i].0, opp[i].1[ka].id, opp[i].1[kb].id));
    lemma_time_priority(opp, aggr, q, opp[i].0, opp[i].1[ka].id, opp[i].1[kb].id);
}

/// An engine's sides meet what the priority laws ask of them.
pub proof fn lemma_engine_sides(e: &MatchingEngine, s: Side)
    requires
        e.wf(),
    ensures
        side_wf(e.book().side(s), s),
        ids_unique(e.book().side(s)),
        one_price(e.book().side(s)),
{
    lemma_engine_book_ok(e);
    lemma_side_wf(e.book(), s);
    let b = e.book();
    assert forall|pa: Price, pb: Price, id: OrderId|
        #[trigger] rests_at(b.side(s), pa, id) && #[trigger] rests_at(b.side(s), pb, id) implies pa
        == pb by {
        assert(rests_at(b.side(s), pa, id) && rests_at(b.side(s), pb, id));
    }
}

/// What one new order does to an engine's book, in terms of the laws above:
/// its trades come at prices that never improve for it (non-decreasing for a
/// buyer, non-increasing for a seller), each trade is of a positive quantity,
/// the aggressor never trades more than it brought, and the opposite side,
/// and each order on it, loses exactly what was traded against it.
pub proof fn law_new_order(b0: BookView, o: Order, b1: BookView, evs: Seq<EngineEvent>)
    requires
        book_ok(b0),
        o.is_valid(),
        after_new_order(b0, o, b1, evs),
    ensures
        ({
            let opp = opposite(o.side);
            let c = cross(b0.side(opp), o, o.quantity as int);
            &&& evs == trade_events(c.1)
            &&& forall|i: int, j: int|
                0 <= i < j < c.1.len() ==> (o.side == Side::Buy ==> (#[trigger] c.1[i]).price <= (
                #[trigger] c.1[j]).price) && (o.side == Side::Sell ==> c.1[i].price >= c.1[j].price)
            &&& forall|j: int| 0 <= j < c.1.len() ==> (#[trigger] c.1[j]).quantity > 0
            &&& sum_traded(o, c.1, None) + c.2 == o.quantity
            &&& 0 <= c.2 <= o.quantity
            &&& b1.side(opp) == c.0
            &&& forall|only: Option<OrderId>|
                #[trigger] side_qty(b1.side(opp), only) + sum_traded(o, c.1, only) == side_qty(
                    b0.side(opp),
                    only,
                )
        }),
{
    let opp = opposite(o.side);
    let c = cross(b0.side(opp), o, o.quantity as int);
    lemma_side_wf(b0, opp);
    law_price_priority(b0.side(opp), o, o.quantity as int);
    law_conservation(b0.side(opp), o, o.quantity as int, None);
    assert forall|only: Option<OrderId>|
        #[trigger] side_qty(b1.side(opp), only) + sum_traded(o, c.1, only) == side_qty(
            b0.side(opp),
            only,
        ) by {
        law_conservation(b0.side(opp), o, o.quantity as int, only);
    }
}

/// Time priority for one new order against an engine's book: of two orders
/// in one opposite level, the one that arrived first is consumed first. Once
/// the later one trades, the earlier one no longer rests, and all its trades
/// came before.
pub proof fn law_new_order_time_priority(
    b0: BookView,
    o: Order,
    b1: BookView,
    evs: Seq<EngineEvent>,
    i: int,
    ka: int,
    kb: int,
)
    requires
        book_ok(b0),
        after_new_order(b0, o, b1, evs),
        0 <= i < b0.side(opposite(o.side)).len(),
        0 <= ka < b0.side(opposite(o.side))[i].1.len(),
        0 <= kb < b0.side(opposite(o.side))[i].1.len(),
        b0.side(opposite(o.side))[i].1[ka].sequence < b0.side(opposite(o.side))[i].1[kb].sequence,
    ensures
        ({
            let lv = b0.side(opposite(o.side))[i];
            let ts = cross(b0.side(opposite(o.side)), o, o.quantity as int).1;
            forall|j: int|
                0 <= j < ts.len() && maker_of(o, #[trigger] ts[j]) == lv.1[kb].id ==> !rests_at(
                    b1.side(opposite(o.side)),
                    lv.0,
                    lv.1[ka].id,
                ) && forall|j2: int|
                    0 <= j2 < ts.len() && maker_of(o, #[trigger] ts[j2]) == lv.1[ka].id ==> j2 < j
        }),
{
    let opp = opposite(o.side);
    lemma_side_wf(b0, opp);
    let side = b0.side(opp);
    assert forall|pa: Price, pb: Price, id: OrderId|
        #[trigger] rests_at(side, pa, id) && #[trigger] rests_at(side, pb, id) implies pa == pb by {
        assert(rests_at(b0.side(opp), pa, id) && rests_at(b0.side(opp), pb, id));
    }
    law_time_priority(side, o, o.quantity as int, i, ka, kb);
}

} // verus!
