use vstd::prelude::*;
use crate::order::{Order, OrderId, Price, Side};
use crate::order_book::{
    LevelView, fits, ids_unique, insert_at, is_slot, reduce_head, remove_at, rests_at, side_wf,
};

verus! {

/// Removing one order keeps a side well formed, keeps ids unique, and takes
/// exactly that order's (price, id) pair out of the side.
#[verifier::spinoff_prover]
#[verifier::rlimit(50)]
pub proof fn lemma_remove_at(levels: Seq<LevelView>, side: Side, i: int, k: int)
    requires
        side_wf(levels, side),
        0 <= i < levels.len(),
        0 <= k < levels[i].1.len(),
    ensures
        side_wf(remove_at(levels, i, k), side),
        ids_unique(levels) ==> ids_unique(remove_at(levels, i, k)),
        ids_unique(levels) ==> forall|p: Price, id: OrderId|
            rests_at(remove_at(levels, i, k), p, id) <==> (rests_at(levels, p, id) && !(p
                == levels[i].0 && id == levels[i].1[k].id)),
{
    let new = remove_at(levels, i, k);
    let q = levels[i].1;
    if q.len() == 1 {
        assert forall|a: int, b: int| 0 <= a < b < new.len() implies (#[trigger] new[a]).0 < (
        #[trigger] new[b]).0 by {
            let a2 = if a < i { a } else { a + 1 };
            let b2 = if b < i { b } else { b + 1 };
            assert(levels[a2].0 < levels[b2].0);
        }
        assert forall|a: int, c: int| 0 <= a < new.len() && 0 <= c < new[a].1.len() implies fits(
            #[trigger] new[a].1[c],
            side,
            new[a].0,
        ) by {
            let a2 = if a < i { a } else { a + 1 };
            assert(fits(levels[a2].1[c], side, levels[a2].0));
        }
        assert forall|a: int, c: int, d: int|
            0 <= a < new.len() && 0 <= c < d < new[a].1.len() implies (#[trigger] new[a].1[c]).sequence
            < (#[trigger] new[a].1[d]).sequence by {
            let a2 = if a < i { a } else { a + 1 };
            assert(levels[a2].1[c].sequence < levels[a2].1[d].sequence);
        }
        assert forall|a: int| 0 <= a < new.len() implies (#[trigger] new[a]).1.len() > 0 by {
            let a2 = if a < i { a } else { a + 1 };
            assert(levels[a2].1.len() > 0);
        }
        if ids_unique(levels) {
            assert forall|a: int, c: int, d: int|
                0 <= a < new.len() && 0 <= c < new[a].1.len() && 0 <= d < new[a].1.len() && (
                #[trigger] new[a].1[c]).id == (#[trigger] new[a].1[d]).id implies c == d by {
                let a2 = if a < i { a } else { a + 1 };
                assert(levels[a2].1[c].id == levels[a2].1[d].id);
            }
            assert forall|p: Price, id: OrderId|
                rests_at(new, p, id) <==> (rests_at(levels, p, id) && !(p == levels[i].0 && id
                    == levels[i].1[k].id)) by {
                if rests_at(new, p, id) {
                    let (a, c) = choose|a: int, c: int|
                        0 <= a < new.len() && 0 <= c < new[a].1.len() && new[a].0 == p && (
                        #[trigger] new[a].1[c]).id == id;
                    let a2 = if a < i { a } else { a + 1 };
                    assert(levels[a2].1[c].id == id);
                    assert(a2 != i);
                    if p == levels[i].0 {
                        assert(levels[a2].0 == levels[i].0);
                        if a2 < i {
                            assert(levels[a2].0 < levels[i].0);
                        } else {
                            assert(levels[i].0 < levels[a2].0);
                        }
                    }
                }
                if rests_at(levels, p, id) && !(p == levels[i].0 && id == levels[i].1[k].id) {
                    let (a, c) = choose|a: int, c: int|
                        0 <= a < levels.len() && 0 <= c < levels[a].1.len() && levels[a].0 == p
                            && (#[trigger] levels[a].1[c]).id == id;
                    if a == i {
                        assert(c == 0 && k == 0);
                        assert(false);
                    }
                    let a2 = if a < i { a } else { a - 1 };
                    assert(new[a2].1[c].id == id);
                }
            }
        }
    } else {
        let nq = q.remove(k);
        assert(new == levels.update(i, (levels[i].0, nq)));
        assert forall|a: int, b: int| 0 <= a < b < new.len() implies (#[trigger] new[a]).0 < (
        #[trigger] new[b]).0 by {
            assert(levels[a].0 < levels[b].0);
        }
        assert forall|a: int, c: int| 0 <= a < new.len() && 0 <= c < new[a].1.len() implies fits(
            #[trigger] new[a].1[c],
            side,
            new[a].0,
        ) by {
            if a == i {
                let c2 = if c < k { c } else { c + 1 };
                assert(fits(levels[a].1[c2], side, levels[a].0));
            } else {
                assert(fits(levels[a].1[c], side, levels[a].0));
            }
        }
        assert forall|a: int, c: int, d: int|
            0 <= a < new.len() && 0 <= c < d < new[a].1.len() implies (#[trigger] new[a].1[c]).sequence
            < (#[trigger] new[a].1[d]).sequence by {
            if a == i {
                let c2 = if c < k { c } else { c + 1 };
                let d2 = if d < k { d } else { d + 1 };
                assert(levels[a].1[c2].sequence < levels[a].1[d2].sequence);
            } else {
                assert(levels[a].1[c].sequence < levels[a].1[d].sequence);
            }
        }
        assert forall|a: int| 0 <= a < new.len() implies (#[trigger] new[a]).1.len() > 0 by {
            assert(levels[a].1.len() > 0);
        }
        if ids_unique(levels) {
            assert forall|a: int, c: int, d: int|
                0 <= a < new.len() && 0 <= c < new[a].1.len() && 0 <= d < new[a].1.len() && (
                #[trigger] new[a].1[c]).id == (#[trigger] new[a].1[d]).id implies c == d by {
                if a == i {
                    let c2 = if c < k { c } else { c + 1 };
                    let d2 = if d < k { d } else { d + 1 };
                    assert(levels[a].1[c2].id == levels[a].1[d2].id);
                } else {
                    assert(levels[a].1[c].id == levels[a].1[d].id);
                }
            }
            assert forall|p: Price, id: OrderId|
                rests_at(new, p, id) <==> (rests_at(levels, p, id) && !(p == levels[i].0 && id
                    == levels[i].1[k].id)) by {
                if rests_at(new, p, id) {
                    let (a, c) = choose|a: int, c: int|
                        0 <= a < new.len() && 0 <= c < new[a].1.len() && new[a].0 == p && (
                        #[trigger] new[a].1[c]).id == id;
                    if a == i {
                        let c2 = if c < k { c } else { c + 1 };
                        assert(levels[a].1[c2].id == id);
                    } else {
                        assert(levels[a].1[c].id == id);
                        if p == levels[i].0 {
                            if a < i {
                                assert(levels[a].0 < levels[i].0);
                            } else {
                                assert(levels[i].0 < levels[a].0);
                            }
                        }
                    }
                }
                if rests_at(levels, p, id) && !(p == levels[i].0 && id == levels[i].1[k].id) {
                    let (a, c) = choose|a: int, c: int|
                        0 <= a < levels.len() && 0 <= c < levels[a].1.len() && levels[a].0 == p
                            && (#[trigger] levels[a].1[c]).id == id;
                    if a == i {
                        assert(c != k);
                        let c2 = if c < k { c } else { c - 1 };
                        assert(new[a].1[c2].id == id);
                    } else {
                        assert(new[a].1[c].id == id);
                    }
                }
            }
        }
    }
}

/// Taking part of the head's quantity, or all of it, keeps a side well formed;
/// a head that is only reduced leaves every (price, id) pair in place.
pub proof fn lemma_reduce_head(levels: Seq<LevelView>, side: Side, i: int, qty: int)
    requires
        side_wf(levels, side),
        0 <= i < levels.len(),
        qty >= 0,
    ensures
        side_wf(reduce_head(levels, i, qty), side),
        ids_unique(levels) ==> ids_unique(reduce_head(levels, i, qty)),
        ids_unique(levels) ==> forall|p: Price, id: OrderId|
            rests_at(reduce_head(levels, i, qty), p, id) <==> (rests_at(levels, p, id) && !(
            levels[i].1[0].quantity <= qty && p == levels[i].0 && id == levels[i].1[0].id)),
{
    let h = levels[i].1[0];
    assert(levels[i].1.len() > 0);
    if h.quantity <= qty {
        lemma_remove_at(levels, side, i, 0);
    } else {
        let new = reduce_head(levels, i, qty);
        let nq = levels[i].1.update(0, Order { quantity: (h.quantity - qty) as i64, ..h });
        assert(new == levels.update(i, (levels[i].0, nq)));
        assert(fits(h, side, levels[i].0));
        assert forall|a: int, b: int| 0 <= a < b < new.len() implies (#[trigger] new[a]).0 < (
        #[trigger] new[b]).0 by {
            assert(levels[a].0 < levels[b].0);
        }
        assert forall|a: int, c: int| 0 <= a < new.len() && 0 <= c < new[a].1.len() implies fits(
            #[trigger] new[a].1[c],
            side,
            new[a].0,
        ) by {
            assert(fits(levels[a].1[c], side, levels[a].0));
        }
        assert forall|a: int, c: int, d: int|
            0 <= a < new.len() && 0 <= c < d < new[a].1.len() implies (#[trigger] new[a].1[c]).sequence
            < (#[trigger] new[a].1[d]).sequence by {
            assert(levels[a].1[c].sequence < levels[a].1[d].sequence);
        }
        assert forall|a: int| 0 <= a < new.len() implies (#[trigger] new[a]).1.len() > 0 by {
            assert(levels[a].1.len() > 0);
        }
        if ids_unique(levels) {
            assert forall|a: int, c: int, d: int|
                0 <= a < new.len() && 0 <= c < new[a].1.len() && 0 <= d < new[a].1.len() && (
                #[trigger] new[a].1[c]).id == (#[trigger] new[a].1[d]).id implies c == d by {
                assert(levels[a].1[c].id == levels[a].1[d].id);
            }
            assert forall|p: Price, id: OrderId| rests_at(new, p, id) <==> rests_at(levels, p, id) by {
                if rests_at(new, p, id) {
                    let (a, c) = choose|a: int, c: int|
                        0 <= a < new.len() && 0 <= c < new[a].1.len() && new[a].0 == p && (
                        #[trigger] new[a].1[c]).id == id;
                    assert(levels[a].1[c].id == id);
                }
                if rests_at(levels, p, id) {
                    let (a, c) = choose|a: int, c: int|
                        0 <= a < levels.len() && 0 <= c < levels[a].1.len() && levels[a].0 == p
                            && (#[trigger] levels[a].1[c]).id == id;
                    assert(new[a].1[c].id == id);
                }
            }
        }
    }
}

/// Inserting at a level's slot keeps a side well formed when the order fits
/// and is younger than that level's orders; it adds exactly its (price, id) pair.
pub proof fn lemma_insert_at(levels: Seq<LevelView>, side: Side, i: int, price: Price, o: Order)
    requires
        side_wf(levels, side),
        is_slot(levels, price, i),
        fits(o, side, price),
        i < levels.len() && levels[i].0 == price ==> forall|k: int|
            0 <= k < levels[i].1.len() ==> (#[trigger] levels[i].1[k]).sequence < o.sequence,
    ensures
        side_wf(insert_at(levels, i, price, o), side),
        ids_unique(levels) && !rests_at(levels, price, o.id) ==> ids_unique(
            insert_at(levels, i, price, o),
        ),
        forall|p: Price, id: OrderId|
            rests_at(insert_at(levels, i, price, o), p, id) <==> (rests_at(levels, p, id) || (p
                == price && id == o.id)),
{
    let new = insert_at(levels, i, price, o);
    if i < levels.len() && levels[i].0 == price {
        let nq = levels[i].1.push(o);
        assert(new == levels.update(i, (price, nq)));
        assert forall|a: int, b: int| 0 <= a < b < new.len() implies (#[trigger] new[a]).0 < (
        #[trigger] new[b]).0 by {
            assert(levels[a].0 < levels[b].0);
        }
        assert forall|a: int, c: int| 0 <= a < new.len() && 0 <= c < new[a].1.len() implies fits(
            #[trigger] new[a].1[c],
            side,
            new[a].0,
        ) by {
            if !(a == i && c == levels[i].1.len()) {
                assert(fits(levels[a].1[c], side, levels[a].0));
            }
        }
        assert forall|a: int, c: int, d: int|
            0 <= a < new.len() && 0 <= c < d < new[a].1.len() implies (#[trigger] new[a].1[c]).sequence
            < (#[trigger] new[a].1[d]).sequence by {
            if a == i && d == levels[i].1.len() {
                assert(levels[i].1[c].sequence < o.sequence);
            } else {
                assert(levels[a].1[c].sequence < levels[a].1[d].sequence);
            }
        }
        assert forall|a: int| 0 <= a < new.len() implies (#[trigger] new[a]).1.len() > 0 by {
            assert(levels[a].1.len() > 0);
        }
        if ids_unique(levels) && !rests_at(levels, price, o.id) {
            assert forall|a: int, c: int, d: int|
                0 <= a < new.len() && 0 <= c < new[a].1.len() && 0 <= d < new[a].1.len() && (
                #[trigger] new[a].1[c]).id == (#[trigger] new[a].1[d]).id implies c == d by {
                let n = levels[i].1.len();
                if a == i && c == n && d != n {
                    assert(levels[i].1[d].id == o.id);
                } else if a == i && d == n && c != n {
                    assert(levels[i].1[c].id == o.id);
                } else if !(a == i && c == n && d == n) {
                    assert(levels[a].1[c].id == levels[a].1[d].id);
                }
            }
        }
        assert forall|p: Price, id: OrderId|
            rests_at(new, p, id) <==> (rests_at(levels, p, id) || (p == price && id == o.id)) by {
            if rests_at(new, p, id) {
                let (a, c) = choose|a: int, c: int|
                    0 <= a < new.len() && 0 <= c < new[a].1.len() && new[a].0 == p && (
                    #[trigger] new[a].1[c]).id == id;
                if !(a == i && c == levels[i].1.len()) {
                    assert(levels[a].1[c].id == id);
                }
            }
            if rests_at(levels, p, id) {
                let (a, c) = choose|a: int, c: int|
                    0 <= a < levels.len() && 0 <= c < levels[a].1.len() && levels[a].0 == p && (
                    #[trigger] levels[a].1[c]).id == id;
                assert(new[a].1[c].id == id);
            }
            if p == price && id == o.id {
                assert(new[i].1[levels[i].1.len() as int].id == id);
            }
        }
    } else {
        let lv = (price, seq![o]);
        assert(new == levels.insert(i, lv));
        assert forall|a: int, b: int| 0 <= a < b < new.len() implies (#[trigger] new[a]).0 < (
        #[trigger] new[b]).0 by {
            if a < i && b < i {
                assert(levels[a].0 < levels[b].0);
            } else if a < i && b == i {
                assert(levels[a].0 < price);
            } else if a < i {
                assert(levels[a].0 < levels[b - 1].0);
            } else if a == i {
                assert(levels[i].0 >= price);
                if b - 1 > i {
                    assert(levels[i].0 < levels[b - 1].0);
                }
            } else {
                assert(levels[a - 1].0 < levels[b - 1].0);
            }
        }
        assert forall|a: int, c: int| 0 <= a < new.len() && 0 <= c < new[a].1.len() implies fits(
            #[trigger] new[a].1[c],
            side,
            new[a].0,
        ) by {
            if a < i {
                assert(fits(levels[a].1[c], side, levels[a].0));
            } else if a > i {
                assert(fits(levels[a - 1].1[c], side, levels[a - 1].0));
            }
        }
        assert forall|a: int, c: int, d: int|
            0 <= a < new.len() && 0 <= c < d < new[a].1.len() implies (#[trigger] new[a].1[c]).sequence
            < (#[trigger] new[a].1[d]).sequence by {
            if a < i {
                assert(levels[a].1[c].sequence < levels[a].1[d].sequence);
            } else if a > i {
                assert(levels[a - 1].1[c].sequence < levels[a - 1].1[d].sequence);
            }
        }
        assert forall|a: int| 0 <= a < new.len() implies (#[trigger] new[a]).1.len() > 0 by {
            if a < i {
                assert(levels[a].1.len() > 0);
            } else if a > i {
                assert(levels[a - 1].1.len() > 0);
            }
        }
        if ids_unique(levels) {
            assert forall|a: int, c: int, d: int|
                0 <= a < new.len() && 0 <= c < new[a].1.len() && 0 <= d < new[a].1.len() && (
                #[trigger] new[a].1[c]).id == (#[trigger] new[a].1[d]).id implies c == d by {
                if a < i {
                    assert(levels[a].1[c].id == levels[a].1[d].id);
                } else if a > i {
                    assert(levels[a - 1].1[c].id == levels[a - 1].1[d].id);
                }
            }
        }
        assert forall|p: Price, id: OrderId|
            rests_at(new, p, id) <==> (rests_at(levels, p, id) || (p == price && id == o.id)) by {
            if rests_at(new, p, id) {
                let (a, c) = choose|a: int, c: int|
                    0 <= a < new.len() && 0 <= c < new[a].1.len() && new[a].0 == p && (
                    #[trigger] new[a].1[c]).id == id;
                if a < i {
                    assert(levels[a].1[c].id == id);
                } else if a > i {
                    assert(levels[a - 1].1[c].id == id);
                }
            }
            if rests_at(levels, p, id) {
                let (a, c) = choose|a: int, c: int|
                    0 <= a < levels.len() && 0 <= c < levels[a].1.len() && levels[a].0 == p && (
                    #[trigger] levels[a].1[c]).id == id;
                if a < i {
                    assert(new[a].1[c].id == id);
                } else {
                    assert(new[a + 1].1[c].id == id);
                }
            }
            if p == price && id == o.id {
                assert(new[i].1[0].id == id);
            }
        }
    }
}

} // verus!
