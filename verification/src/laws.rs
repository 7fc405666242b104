//! The proved laws of matching: a submission keeps the book well formed
//! and uncrossed, never executes more than it was given, consumes resting
//! orders strictly in price-time priority, and an order that does not cross
//! rests in full.

use vstd::prelude::*;

use crate::book::{Order, Side, Trade};
use crate::model::{
    book_wf, contra_of, crosses, fill_at_level, insert_order, level_wf, match_levels, opposite,
    own_of, side_wf, spec_submit, sum_qty, BookModel, LevelModel,
};

verus! {

/// Orders at one level were consumed strictly in arrival order: what
/// remains is a suffix of what rested, with at most its now-oldest order
/// reduced in quantity — the same order otherwise, and never reduced to
/// zero.
pub open spec fn fifo_consumed(before: Seq<Order>, after: Seq<Order>) -> bool {
    let k = before.len() - after.len();
    &&& after.len() <= before.len()
    &&& forall|i: int| 1 <= i < after.len() ==> after[i] == before[k + i]
    &&& after.len() > 0 ==> {
        &&& (#[trigger] after[0]).id == before[k].id
        &&& after[0].side == before[k].side
        &&& after[0].price == before[k].price
        &&& after[0].ts == before[k].ts
        &&& 0 < after[0].qty <= before[k].qty
    }
}

/// Splitting a trade sequence splits its executed quantity.
proof fn lemma_sum_qty_concat(a: Seq<Trade>, b: Seq<Trade>)
    ensures
        sum_qty(a + b) == sum_qty(a) + sum_qty(b),
    decreases a.len(),
{
    if a.len() == 0 {
        assert(a + b =~= b);
    } else {
        lemma_sum_qty_concat(a.drop_first(), b);
        assert((a + b).drop_first() =~= a.drop_first() + b);
        assert((a + b)[0] == a[0]);
    }
}

/// What filling one level yields: the remaining orders are a FIFO suffix
/// of the resting ones, every trade executes a positive quantity at the
/// level's price, executed plus remaining equals the incoming quantity,
/// and quantity remains only once the level has drained.
proof fn lemma_fill_at_level(price: i64, qty: u64, orders: Seq<Order>)
    requires
        forall|i: int| 0 <= i < orders.len() ==> (#[trigger] orders[i]).qty > 0,
    ensures
        ({
            let f = fill_at_level(price, qty, orders);
            &&& fifo_consumed(orders, f.1)
            &&& forall|i: int|
                0 <= i < f.0.len() ==> (#[trigger] f.0[i]).qty > 0 && f.0[i].price == price
            &&& sum_qty(f.0) + f.2 == qty
            &&& f.1.len() > 0 ==> f.2 == 0
        }),
    decreases orders.len(),
{
    let f = fill_at_level(price, qty, orders);
    if qty == 0 || orders.len() == 0 {
        assert(sum_qty(f.0) == 0);
    } else {
        let head = orders[0];
        let tail = orders.drop_first();
        if head.qty <= qty {
            let t = Trade { price: price, qty: head.qty };
            let rest_qty = (qty - head.qty) as u64;
            assert(forall|i: int| 0 <= i < tail.len() ==> (#[trigger] tail[i]).qty > 0);
            lemma_fill_at_level(price, rest_qty, tail);
            let rec = fill_at_level(price, rest_qty, tail);
            assert(f.0 == seq![t] + rec.0);
            // FIFO: shift the suffix relation by the consumed head.
            let k = orders.len() - f.1.len();
            let kr = tail.len() - rec.1.len();
            assert(k == kr + 1);
            assert forall|i: int| 1 <= i < f.1.len() implies f.1[i] == orders[k + i] by {
                assert(rec.1[i] == tail[kr + i]);
                assert(tail[kr + i] == orders[k + i]);
            }
            if f.1.len() > 0 {
                assert(tail[kr] == orders[k]);
            }
            assert(fifo_consumed(orders, f.1));
            // Quantity conservation and trade facts.
            lemma_sum_qty_concat(seq![t], rec.0);
            assert(seq![t].drop_first() =~= Seq::<Trade>::empty());
            assert(sum_qty(Seq::<Trade>::empty()) == 0);
            assert(sum_qty(seq![t]) == t.qty + sum_qty(seq![t].drop_first()));
            assert forall|i: int|
                0 <= i < f.0.len() implies (#[trigger] f.0[i]).qty > 0 && f.0[i].price
                == price by {
                if i == 0 {
                    assert(f.0[0] == t);
                } else {
                    assert(f.0[i] == rec.0[i - 1]);
                }
            }
        } else {
            let t = Trade { price: price, qty: qty };
            let reduced = Order {
                id: head.id,
                side: head.side,
                price: head.price,
                qty: (head.qty - qty) as u64,
                ts: head.ts,
            };
            assert(f.1 == seq![reduced] + tail);
            assert(f.1.len() == orders.len());
            assert forall|i: int| 1 <= i < f.1.len() implies f.1[i] == orders[0 + i] by {
                assert(f.1[i] == tail[i - 1]);
            }
            assert(f.1[0] == reduced);
            assert(fifo_consumed(orders, f.1));
            assert(seq![t].drop_first() =~= Seq::<Trade>::empty());
            assert(sum_qty(Seq::<Trade>::empty()) == 0);
            assert(sum_qty(f.0) == t.qty + sum_qty(f.0.drop_first()));
        }
    }
}

/// What matching against the contra side yields: the surviving levels are
/// a suffix of the old ones in their old order, with at most the front
/// survivor partially consumed in FIFO order; the side stays well formed;
/// executed plus remaining equals the submitted quantity; every trade
/// executes a positive quantity at a crossed resting price; and quantity
/// can remain with a surviving best level only once the prices no longer
/// cross.
proof fn lemma_match_levels(side: Side, price: i64, qty: u64, contra: Seq<LevelModel>)
    requires
        side_wf(opposite(side), contra),
    ensures
        ({
            let m = match_levels(side, price, qty, contra);
            let d = contra.len() - m.1.len();
            &&& m.1.len() <= contra.len()
            &&& forall|i: int| 1 <= i < m.1.len() ==> m.1[i] == contra[d + i]
            &&& m.1.len() > 0 ==> (#[trigger] m.1[0]).price == contra[d].price && fifo_consumed(
                contra[d].orders,
                m.1[0].orders,
            )
            &&& side_wf(opposite(side), m.1)
            &&& sum_qty(m.0) + m.2 == qty
            &&& forall|i: int|
                0 <= i < m.0.len() ==> (#[trigger] m.0[i]).qty > 0 && crosses(
                    side,
                    price,
                    m.0[i].price,
                )
            &&& m.2 > 0 && m.1.len() > 0 ==> !crosses(side, price, m.1[0].price)
        }),
    decreases contra.len(),
{
    let m = match_levels(side, price, qty, contra);
    if qty == 0 || contra.len() == 0 || !crosses(side, price, contra[0].price) {
        assert(sum_qty(m.0) == 0);
        if m.1.len() > 0 {
            assert(fifo_consumed(contra[0].orders, m.1[0].orders));
        }
    } else {
        let front = contra[0];
        let tail = contra.drop_first();
        assert(level_wf(front));
        lemma_fill_at_level(front.price, qty, front.orders);
        let fill = fill_at_level(front.price, qty, front.orders);
        assert(side_wf(opposite(side), tail)) by {
            assert forall|i: int| 0 <= i < tail.len() implies level_wf(#[trigger] tail[i]) by {
                assert(tail[i] == contra[i + 1]);
            }
            assert forall|i: int, j: int|
                0 <= i < j < tail.len() implies crate::model::better(
                opposite(side),
                (#[trigger] tail[i]).price,
                (#[trigger] tail[j]).price,
            ) by {
                assert(tail[i] == contra[i + 1]);
                assert(tail[j] == contra[j + 1]);
            }
        }
        if fill.1.len() == 0 {
            lemma_match_levels(side, price, fill.2, tail);
            let rec = match_levels(side, price, fill.2, tail);
            assert(m.0 == fill.0 + rec.0);
            assert(m.1 == rec.1);
            let d = contra.len() - m.1.len();
            let dr = tail.len() - rec.1.len();
            assert(d == dr + 1);
            assert forall|i: int| 1 <= i < m.1.len() implies m.1[i] == contra[d + i] by {
                assert(rec.1[i] == tail[dr + i]);
                assert(tail[dr + i] == contra[d + i]);
            }
            if m.1.len() > 0 {
                assert(tail[dr] == contra[d]);
            }
            lemma_sum_qty_concat(fill.0, rec.0);
            assert forall|i: int|
                0 <= i < m.0.len() implies (#[trigger] m.0[i]).qty > 0 && crosses(
                side,
                price,
                m.0[i].price,
            ) by {
                if i < fill.0.len() {
                    assert(m.0[i] == fill.0[i]);
                    assert(fill.0[i].price == contra[0].price);
                } else {
                    assert(m.0[i] == rec.0[i - fill.0.len()]);
                }
            }
        } else {
            let front2 = LevelModel { price: front.price, orders: fill.1 };
            assert(m.1 == seq![front2] + tail);
            assert(m.0 == fill.0);
            assert(m.2 == fill.2);
            assert(m.2 == 0);
            let d = contra.len() - m.1.len();
            assert(d == 0);
            assert forall|i: int| 1 <= i < m.1.len() implies m.1[i] == contra[0 + i] by {
                assert(m.1[i] == tail[i - 1]);
            }
            assert(m.1[0] == front2);
            assert(fifo_consumed(contra[0].orders, m.1[0].orders));
            assert(side_wf(opposite(side), m.1)) by {
                assert forall|i: int| 0 <= i < m.1.len() implies level_wf(#[trigger] m.1[i]) by {
                    if i == 0 {
                        let k = front.orders.len() - fill.1.len();
                        assert forall|j: int|
                            0 <= j < fill.1.len() implies (#[trigger] fill.1[j]).qty > 0 by {
                            if j == 0 {
                                assert(fill.1[0].qty > 0);
                            } else {
                                assert(fill.1[j] == front.orders[k + j]);
                            }
                        }
                    } else {
                        assert(m.1[i] == contra[i]);
                    }
                }
                assert forall|i: int, j: int|
                    0 <= i < j < m.1.len() implies crate::model::better(
                    opposite(side),
                    (#[trigger] m.1[i]).price,
                    (#[trigger] m.1[j]).price,
                ) by {
                    assert(m.1[j] == contra[j]);
                    assert(m.1[i].price == contra[i].price);
                }
            }
            assert forall|i: int|
                0 <= i < m.0.len() implies (#[trigger] m.0[i]).qty > 0 && crosses(
                side,
                price,
                m.0[i].price,
            ) by {
                assert(fill.0[i].price == contra[0].price);
            }
        }
    }
}

/// What resting an order yields: the side stays well formed; the best
/// price is the order's or the old best; every level's price was already
/// present or is the order's; and the order sits, in full, as the newest
/// order of its price's level.
proof fn lemma_insert_order(side: Side, levels: Seq<LevelModel>, o: Order)
    requires
        side_wf(side, levels),
        o.qty > 0,
    ensures
        ({
            let r = insert_order(side, levels, o);
            &&& side_wf(side, r)
            &&& r.len() > 0
            &&& r[0].price == o.price || (levels.len() > 0 && r[0].price == levels[0].price)
            &&& forall|j: int|
                0 <= j < r.len() ==> (#[trigger] r[j]).price == o.price || exists|i: int|
                    0 <= i < levels.len() && r[j].price == (#[trigger] levels[i]).price
            &&& exists|j: int|
                0 <= j < r.len() && (#[trigger] r[j]).price == o.price && r[j].orders.len() > 0
                    && r[j].orders.last() == o
        }),
    decreases levels.len(),
{
    let r = insert_order(side, levels, o);
    if levels.len() == 0 {
        let lvl = LevelModel { price: o.price, orders: seq![o] };
        assert(r == seq![lvl]);
        assert(r[0] == lvl);
        assert(level_wf(lvl));
        assert(r[0].orders.last() == o);
    } else if o.price == levels[0].price {
        let lvl = LevelModel { price: levels[0].price, orders: levels[0].orders.push(o) };
        assert(r == seq![lvl] + levels.drop_first());
        assert(r[0] == lvl);
        assert(r.len() == levels.len());
        assert forall|i: int| 1 <= i < r.len() implies r[i] == levels[i] by {
            assert(r[i] == levels.drop_first()[i - 1]);
        }
        assert(level_wf(lvl)) by {
            assert(level_wf(levels[0]));
            assert forall|i: int|
                0 <= i < lvl.orders.len() implies (#[trigger] lvl.orders[i]).qty > 0 by {
                if i < levels[0].orders.len() {
                    assert(lvl.orders[i] == levels[0].orders[i]);
                } else {
                    assert(lvl.orders[i] == o);
                }
            }
        }
        assert(side_wf(side, r)) by {
            assert forall|i: int| 0 <= i < r.len() implies level_wf(#[trigger] r[i]) by {
                if i > 0 {
                    assert(r[i] == levels[i]);
                }
            }
            assert forall|i: int, j: int|
                0 <= i < j < r.len() implies crate::model::better(
                side,
                (#[trigger] r[i]).price,
                (#[trigger] r[j]).price,
            ) by {
                assert(r[j] == levels[j]);
                assert(r[i].price == levels[i].price);
            }
        }
        assert(r[0].orders.last() == o);
        assert(r[0].price == o.price && r[0].orders.len() > 0 && r[0].orders.last() == o);
    } else if crate::model::better(side, o.price, levels[0].price) {
        let lvl = LevelModel { price: o.price, orders: seq![o] };
        assert(r == seq![lvl] + levels);
        assert(r[0] == lvl);
        assert forall|i: int| 1 <= i < r.len() implies r[i] == levels[i - 1] by {}
        assert(side_wf(side, r)) by {
            assert forall|i: int| 0 <= i < r.len() implies level_wf(#[trigger] r[i]) by {
                if i == 0 {
                    assert(level_wf(lvl));
                } else {
                    assert(r[i] == levels[i - 1]);
                }
            }
            assert forall|i: int, j: int|
                0 <= i < j < r.len() implies crate::model::better(
                side,
                (#[trigger] r[i]).price,
                (#[trigger] r[j]).price,
            ) by {
                assert(r[j] == levels[j - 1]);
                if i > 0 {
                    assert(r[i] == levels[i - 1]);
                } else {
                    if j > 1 {
                        assert(crate::model::better(side, levels[0].price, levels[j - 1].price));
                    }
                }
            }
        }
        assert(r[0].orders.last() == o);
        assert(r[0].price == o.price && r[0].orders.len() > 0 && r[0].orders.last() == o);
    } else {
        let tail = levels.drop_first();
        assert(side_wf(side, tail)) by {
            assert forall|i: int| 0 <= i < tail.len() implies level_wf(#[trigger] tail[i]) by {
                assert(tail[i] == levels[i + 1]);
            }
            assert forall|i: int, j: int|
                0 <= i < j < tail.len() implies crate::model::better(
                side,
                (#[trigger] tail[i]).price,
                (#[trigger] tail[j]).price,
            ) by {
                assert(tail[i] == levels[i + 1]);
                assert(tail[j] == levels[j + 1]);
            }
        }
        lemma_insert_order(side, tail, o);
        let rec = insert_order(side, tail, o);
        assert(r == seq![levels[0]] + rec);
        assert(r[0] == levels[0]);
        assert forall|i: int| 1 <= i < r.len() implies r[i] == rec[i - 1] by {}
        // The old best price beats the order's price and every price in the
        // recursive result.
        assert(crate::model::better(side, levels[0].price, o.price));
        assert(side_wf(side, r)) by {
            assert forall|i: int| 0 <= i < r.len() implies level_wf(#[trigger] r[i]) by {
                if i > 0 {
                    assert(r[i] == rec[i - 1]);
                    assert(level_wf(rec[i - 1]));
                } else {
                    assert(level_wf(levels[0]));
                }
            }
            assert forall|i: int, j: int|
                0 <= i < j < r.len() implies crate::model::better(
                side,
                (#[trigger] r[i]).price,
                (#[trigger] r[j]).price,
            ) by {
                assert(r[j] == rec[j - 1]);
                if i > 0 {
                    assert(r[i] == rec[i - 1]);
                } else {
                    let p = rec[j - 1].price;
                    if p == o.price {
                        assert(crate::model::better(side, levels[0].price, p));
                    } else {
                        let wit = choose|w: int|
                            0 <= w < tail.len() && p == (#[trigger] tail[w]).price;
                        assert(tail[wit] == levels[wit + 1]);
                        assert(crate::model::better(side, levels[0].price, levels[wit + 1].price));
                    }
                }
            }
        }
        assert forall|j: int|
            0 <= j < r.len() implies (#[trigger] r[j]).price == o.price || exists|i: int|
            0 <= i < levels.len() && r[j].price == (#[trigger] levels[i]).price by {
            if j == 0 {
                assert(r[0].price == levels[0].price);
            } else {
                assert(r[j] == rec[j - 1]);
                if rec[j - 1].price != o.price {
                    let wit = choose|w: int|
                        0 <= w < tail.len() && rec[j - 1].price == (#[trigger] tail[w]).price;
                    assert(tail[wit] == levels[wit + 1]);
                    assert(r[j].price == levels[wit + 1].price);
                }
            }
        }
        let wit = choose|j: int|
            0 <= j < rec.len() && (#[trigger] rec[j]).price == o.price && rec[j].orders.len() > 0
                && rec[j].orders.last() == o;
        assert(r[wit + 1] == rec[wit]);
        assert(r[wit + 1].price == o.price && r[wit + 1].orders.len() > 0 && r[wit
            + 1].orders.last() == o);
    }
}

/// LAW: a submission keeps the book well formed — no price level is ever
/// empty, no resting order has quantity zero, and the best bid stays
/// strictly below the best ask whenever both sides rest orders.
pub proof fn lemma_submit_preserves_wf(b: BookModel, o: Order)
    requires
        book_wf(b),
    ensures
        book_wf(spec_submit(b, o).0),
{
    let contra = contra_of(b, o.side);
    let own = own_of(b, o.side);
    lemma_match_levels(o.side, o.price, o.qty, contra);
    let m = match_levels(o.side, o.price, o.qty, contra);
    let d = contra.len() - m.1.len();
    let resting = Order { id: o.id, side: o.side, price: o.price, qty: m.2, ts: o.ts };
    if m.2 > 0 {
        lemma_insert_order(o.side, own, resting);
    }
    let rested = if m.2 > 0 {
        insert_order(o.side, own, resting)
    } else {
        own
    };
    let book = spec_submit(b, o).0;
    // The surviving best contra price is no more competitive than the old
    // best contra price.
    if m.1.len() > 0 && d > 0 {
        assert(crate::model::better(opposite(o.side), contra[0].price, contra[d].price));
    }
    match o.side {
        Side::Bid => {
            assert(book.bids == rested && book.asks == m.1);
            if book.bids.len() > 0 && book.asks.len() > 0 {
                if m.2 > 0 {
                    if rested[0].price == o.price {
                        assert(!crosses(Side::Bid, o.price, m.1[0].price));
                    } else {
                        assert(b.bids[0].price < contra[0].price);
                    }
                } else {
                    assert(b.bids[0].price < contra[0].price);
                }
            }
        },
        Side::Ask => {
            assert(book.bids == m.1 && book.asks == rested);
            if book.bids.len() > 0 && book.asks.len() > 0 {
                if m.2 > 0 {
                    if rested[0].price == o.price {
                        assert(!crosses(Side::Ask, o.price, m.1[0].price));
                    } else {
                        assert(m.1[0].price <= contra[0].price);
                        assert(contra[0].price < b.asks[0].price);
                    }
                } else {
                    assert(m.1[0].price <= contra[0].price);
                }
            }
        },
    }
}

/// LAW: over one submission the executed quantity never exceeds the
/// submitted quantity, and every trade executes a positive quantity at a
/// resting price the submitted order crossed.
pub proof fn lemma_submit_trades_bounded(b: BookModel, o: Order)
    requires
        book_wf(b),
    ensures
        sum_qty(spec_submit(b, o).1) <= o.qty,
        forall|i: int|
            0 <= i < spec_submit(b, o).1.len() ==> (#[trigger] spec_submit(b, o).1[i]).qty > 0
                && crosses(o.side, o.price, spec_submit(b, o).1[i].price),
{
    lemma_match_levels(o.side, o.price, o.qty, contra_of(b, o.side));
}

/// LAW: within one price level orders are consumed strictly in arrival
/// order. After a submission the contra side's surviving levels are the
/// old ones, in their old order, with only a best-price prefix gone; at
/// most the front survivor lost a prefix of its oldest orders, with its
/// now-oldest order at most reduced.
pub proof fn lemma_submit_fifo(b: BookModel, o: Order)
    requires
        book_wf(b),
    ensures
        ({
            let before = contra_of(b, o.side);
            let after = contra_of(spec_submit(b, o).0, o.side);
            let d = before.len() - after.len();
            &&& after.len() <= before.len()
            &&& forall|i: int| 1 <= i < after.len() ==> after[i] == before[d + i]
            &&& after.len() > 0 ==> (#[trigger] after[0]).price == before[d].price
                && fifo_consumed(before[d].orders, after[0].orders)
        }),
{
    lemma_match_levels(o.side, o.price, o.qty, contra_of(b, o.side));
}

/// LAW: a submission that does not cross the book trades nothing and rests
/// in full — the contra side is unchanged and the order sits, with its
/// whole quantity, as the newest order of its price's level.
pub proof fn lemma_uncrossed_order_rests(b: BookModel, o: Order)
    requires
        book_wf(b),
        o.qty > 0,
        contra_of(b, o.side).len() > 0 ==> !crosses(
            o.side,
            o.price,
            contra_of(b, o.side)[0].price,
        ),
    ensures
        ({
            let r = spec_submit(b, o);
            let own = own_of(r.0, o.side);
            &&& r.1 == Seq::<Trade>::empty()
            &&& contra_of(r.0, o.side) == contra_of(b, o.side)
            &&& own == insert_order(o.side, own_of(b, o.side), o)
            &&& exists|j: int|
                0 <= j < own.len() && (#[trigger] own[j]).price == o.price && own[j].orders.len()
                    > 0 && own[j].orders.last() == o
        }),
{
    assert(Order { id: o.id, side: o.side, price: o.price, qty: o.qty, ts: o.ts } == o);
    lemma_insert_order(o.side, own_of(b, o.side), o);
    let m = match_levels(o.side, o.price, o.qty, contra_of(b, o.side));
    assert(m.0 == Seq::<Trade>::empty() && m.1 == contra_of(b, o.side) && m.2 == o.qty);
    let ins = insert_order(o.side, own_of(b, o.side), o);
    let wit = choose|j: int|
        0 <= j < ins.len() && (#[trigger] ins[j]).price == o.price && ins[j].orders.len() > 0
            && ins[j].orders.last() == o;
    match o.side {
        Side::Bid => {
            assert(own_of(spec_submit(b, o).0, Side::Bid) == ins);
            assert((#[trigger] ins[wit]).price == o.price);
        },
        Side::Ask => {
            assert(own_of(spec_submit(b, o).0, Side::Ask) == ins);
            assert((#[trigger] ins[wit]).price == o.price);
        },
    }
}

} // verus!
