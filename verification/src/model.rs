//! Mathematical model of the order book.
//!
//! A side of the book is a sequence of price levels, best price first: the
//! bid side is sorted by descending price, the ask side by ascending price.
//! `match_levels` and `insert_order` give the meaning of a submission; the
//! executable code in `book` is proved equal to them, and the invariants of
//! matching are proved of them in `laws`.

use vstd::prelude::*;

use crate::book::{Order, Side, Trade};

verus! {

/// One price level: the resting orders at one price, oldest first.
pub struct LevelModel {
    pub price: i64,
    pub orders: Seq<Order>,
}

/// The whole book: both sides, each with its best price at index 0.
pub struct BookModel {
    pub bids: Seq<LevelModel>,
    pub asks: Seq<LevelModel>,
}

/// The side an incoming order matches against.
pub open spec fn opposite(side: Side) -> Side {
    match side {
        Side::Bid => Side::Ask,
        Side::Ask => Side::Bid,
    }
}

/// Price `p1` is more competitive than `p2` on the given side:
/// higher for bids, lower for asks.
pub open spec fn better(side: Side, p1: i64, p2: i64) -> bool {
    match side {
        Side::Bid => p1 > p2,
        Side::Ask => p1 < p2,
    }
}

/// An incoming order at `price` crosses a contra level at `contra_price`.
pub open spec fn crosses(side: Side, price: i64, contra_price: i64) -> bool {
    match side {
        Side::Bid => price >= contra_price,
        Side::Ask => price <= contra_price,
    }
}

/// A price level is well formed: never empty, no resting order of quantity 0.
pub open spec fn level_wf(l: LevelModel) -> bool {
    &&& l.orders.len() > 0
    &&& forall|i: int| 0 <= i < l.orders.len() ==> (#[trigger] l.orders[i]).qty > 0
}

/// A side is well formed: every level well formed, prices strictly ordered
/// from best to worst for that side.
pub open spec fn side_wf(side: Side, levels: Seq<LevelModel>) -> bool {
    &&& forall|i: int| 0 <= i < levels.len() ==> level_wf(#[trigger] levels[i])
    &&& forall|i: int, j: int|
        0 <= i < j < levels.len() ==> better(
            side,
            (#[trigger] levels[i]).price,
            (#[trigger] levels[j]).price,
        )
}

/// The book invariant: both sides well formed and the book never crossed
/// (best bid strictly below best ask whenever both sides are non-empty).
pub open spec fn book_wf(b: BookModel) -> bool {
    &&& side_wf(Side::Bid, b.bids)
    &&& side_wf(Side::Ask, b.asks)
    &&& b.bids.len() > 0 && b.asks.len() > 0 ==> b.bids[0].price < b.asks[0].price
}

/// The empty book.
pub open spec fn empty_book() -> BookModel {
    BookModel { bids: Seq::empty(), asks: Seq::empty() }
}

/// Matching an incoming quantity against one price level, oldest order
/// first. Yields the trades emitted, the orders left at the level, and the
/// incoming quantity left. Each step fills the head order by the minimum of
/// the two remaining quantities.
pub open spec fn fill_at_level(price: i64, qty: u64, orders: Seq<Order>) -> (Seq<Trade>, Seq<
    Order,
>, u64)
    decreases orders.len(),
{
    if qty == 0 || orders.len() == 0 {
        (Seq::<Trade>::empty(), orders, qty)
    } else {
        let head = orders[0];
        if head.qty <= qty {
            // The head order is consumed in full.
            let rec = fill_at_level(price, (qty - head.qty) as u64, orders.drop_first());
            (seq![Trade { price: price, qty: head.qty }] + rec.0, rec.1, rec.2)
        } else {
            // The incoming quantity is exhausted; the head order shrinks.
            let reduced = Order {
                id: head.id,
                side: head.side,
                price: head.price,
                qty: (head.qty - qty) as u64,
                ts: head.ts,
            };
            (seq![Trade { price: price, qty: qty }], seq![reduced] + orders.drop_first(), 0u64)
        }
    }
}

/// Matching an incoming order against the contra side, best level first.
/// Matching stops when the incoming quantity is exhausted, the contra side
/// is empty, or the incoming price no longer crosses the best contra price.
/// A drained level is removed.
pub open spec fn match_levels(side: Side, price: i64, qty: u64, contra: Seq<LevelModel>) -> (Seq<
    Trade,
>, Seq<LevelModel>, u64)
    decreases contra.len(),
{
    if qty == 0 || contra.len() == 0 || !crosses(side, price, contra[0].price) {
        (Seq::<Trade>::empty(), contra, qty)
    } else {
        let fill = fill_at_level(contra[0].price, qty, contra[0].orders);
        if fill.1.len() == 0 {
            let rec = match_levels(side, price, fill.2, contra.drop_first());
            (fill.0 + rec.0, rec.1, rec.2)
        } else {
            (
                fill.0,
                seq![LevelModel { price: contra[0].price, orders: fill.1 }] + contra.drop_first(),
                fill.2,
            )
        }
    }
}

/// Inserting a resting order into its own side, keeping the best-first
/// price order: a new order joins the tail of its price's level, or opens a
/// new level at its price's position.
pub open spec fn insert_order(side: Side, levels: Seq<LevelModel>, o: Order) -> Seq<LevelModel>
    decreases levels.len(),
{
    if levels.len() == 0 {
        seq![LevelModel { price: o.price, orders: seq![o] }]
    } else if o.price == levels[0].price {
        seq![LevelModel { price: levels[0].price, orders: levels[0].orders.push(o) }]
            + levels.drop_first()
    } else if better(side, o.price, levels[0].price) {
        seq![LevelModel { price: o.price, orders: seq![o] }] + levels
    } else {
        seq![levels[0]] + insert_order(side, levels.drop_first(), o)
    }
}

/// The contra side of the book for an incoming order.
pub open spec fn contra_of(b: BookModel, side: Side) -> Seq<LevelModel> {
    match side {
        Side::Bid => b.asks,
        Side::Ask => b.bids,
    }
}

/// The own side of the book for an incoming order.
pub open spec fn own_of(b: BookModel, side: Side) -> Seq<LevelModel> {
    match side {
        Side::Bid => b.bids,
        Side::Ask => b.asks,
    }
}

/// The meaning of one submission: match against the contra side, then rest
/// any remaining quantity on the own side. Yields the new book and the
/// trades emitted, in order.
pub open spec fn spec_submit(b: BookModel, o: Order) -> (BookModel, Seq<Trade>) {
    let m = match_levels(o.side, o.price, o.qty, contra_of(b, o.side));
    let rested = if m.2 > 0 {
        insert_order(
            o.side,
            own_of(b, o.side),
            Order { id: o.id, side: o.side, price: o.price, qty: m.2, ts: o.ts },
        )
    } else {
        own_of(b, o.side)
    };
    let book = match o.side {
        Side::Bid => BookModel { bids: rested, asks: m.1 },
        Side::Ask => BookModel { bids: m.1, asks: rested },
    };
    (book, m.0)
}

/// The meaning of a quote: the pair of best prices when both sides are
/// non-empty, absence otherwise.
pub open spec fn spec_quote(b: BookModel) -> Option<(i64, i64)> {
    if b.bids.len() > 0 && b.asks.len() > 0 {
        Some((b.bids[0].price, b.asks[0].price))
    } else {
        None
    }
}

/// Total quantity executed over a sequence of trades.
pub open spec fn sum_qty(ts: Seq<Trade>) -> int
    decreases ts.len(),
{
    if ts.len() == 0 {
        0
    } else {
        ts[0].qty + sum_qty(ts.drop_first())
    }
}

} // verus!
