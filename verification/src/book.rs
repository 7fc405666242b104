//! The order book: price-sorted FIFO levels on each side and the
//! price-time-priority matching algorithm.

use vstd::prelude::*;

use crate::model::{
    book_wf, empty_book, fill_at_level, insert_order, match_levels, spec_quote, spec_submit,
    BookModel, LevelModel,
};

verus! {

/// The side of an order: a bid buys, an ask sells.
#[derive(Copy, Clone, Debug, PartialEq, Eq, Structural)]
pub enum Side {
    Bid,
    Ask,
}

/// One order: an externally assigned id, a side, a price in ticks, the
/// quantity still to fill, and the insertion timestamp in nanoseconds.
/// The timestamp is carried, not compared: arrival order within a level is
/// kept by the level's queue itself.
#[derive(Copy, Clone, Debug)]
pub struct Order {
    pub id: u64,
    pub side: Side,
    pub price: i64,
    pub qty: u64,
    pub ts: u128,
}

/// A completed match step: the resting order's price and the quantity
/// executed in that step.
#[derive(Copy, Clone, Debug)]
pub struct Trade {
    pub price: i64,
    pub qty: u64,
}

/// One price level: the resting orders at one price, oldest first.
pub struct Level {
    pub price: i64,
    pub orders: Vec<Order>,
}

/// The book: both sides as vectors of price levels, the best price at
/// index 0 (bids descending, asks ascending).
pub struct OrderBook {
    bids: Vec<Level>,
    asks: Vec<Level>,
}

impl View for Level {
    type V = LevelModel;

    open spec fn view(&self) -> LevelModel {
        LevelModel { price: self.price, orders: self.orders@ }
    }
}

/// The model of one side: each level abstracted to its model.
pub open spec fn levels_view(s: Seq<Level>) -> Seq<LevelModel> {
    s.map_values(|l: Level| l@)
}

impl View for OrderBook {
    type V = BookModel;

    closed spec fn view(&self) -> BookModel {
        BookModel { bids: levels_view(self.bids@), asks: levels_view(self.asks@) }
    }
}

impl Default for OrderBook {
    /// The empty book.
    fn default() -> (r: Self)
        ensures
            r@ == empty_book(),
            book_wf(r@),
    {
        let r = OrderBook { bids: Vec::new(), asks: Vec::new() };
        proof {
            assert(r@.bids =~= empty_book().bids);
            assert(r@.asks =~= empty_book().asks);
        }
        r
    }
}

/// Matches an incoming quantity against one level's order queue, oldest
/// order first, appending one trade per step; equal by contract to
/// `fill_at_level` on the model.
fn fill_level(price: i64, qty: u64, orders: Vec<Order>, trades: &mut Vec<Trade>) -> (r: (
    Vec<Order>,
    u64,
))
    ensures
        ({
            let f = fill_at_level(price, qty, orders@);
            &&& r.0@ == f.1
            &&& final(trades)@ == old(trades)@ + f.0
            &&& r.1 == f.2
        }),
    decreases orders@.len(),
{
    if qty == 0 || orders.len() == 0 {
        proof {
            assert(trades@ + Seq::<Trade>::empty() =~= trades@);
        }
        (orders, qty)
    } else {
        let head_qty = orders[0].qty;
        if head_qty <= qty {
            trades.push(Trade { price: price, qty: head_qty });
            proof {
                assert(trades@ =~= old(trades)@ + seq![Trade { price: price, qty: head_qty }]);
            }
            let mut rest = orders;
            rest.remove(0);
            proof {
                assert(rest@ =~= orders@.drop_first());
            }
            let r = fill_level(price, qty - head_qty, rest, trades);
            proof {
                let f = fill_at_level(price, qty, orders@);
                let rec = fill_at_level(price, (qty - head_qty) as u64, orders@.drop_first());
                assert(f.0 =~= seq![Trade { price: price, qty: head_qty }] + rec.0);
                assert(trades@ =~= old(trades)@ + f.0);
            }
            r
        } else {
            trades.push(Trade { price: price, qty: qty });
            let mut rest = orders;
            let head = rest.remove(0);
            let reduced = Order {
                id: head.id,
                side: head.side,
                price: head.price,
                qty: head.qty - qty,
                ts: head.ts,
            };
            rest.insert(0, reduced);
            proof {
                let f = fill_at_level(price, qty, orders@);
                assert(rest@ =~= seq![reduced] + orders@.drop_first());
                assert(rest@ =~= f.1);
                assert(trades@ =~= old(trades)@ + f.0);
            }
            (rest, 0)
        }
    }
}

/// Matches an incoming order against the contra side, best level first,
/// removing drained levels; equal by contract to `match_levels` on the
/// model.
fn match_into(side: Side, price: i64, qty: u64, contra: Vec<Level>, trades: &mut Vec<Trade>) -> (r:
    (Vec<Level>, u64))
    ensures
        ({
            let m = match_levels(side, price, qty, levels_view(contra@));
            &&& levels_view(r.0@) == m.1
            &&& final(trades)@ == old(trades)@ + m.0
            &&& r.1 == m.2
        }),
    decreases contra@.len(),
{
    let ghost m0 = levels_view(contra@);
    if qty == 0 || contra.len() == 0 {
        proof {
            assert(trades@ + Seq::<Trade>::empty() =~= trades@);
        }
        return (contra, qty);
    }
    let lvl_price = contra[0].price;
    proof {
        assert(m0[0] == contra@[0]@);
    }
    let matchable = if side == Side::Bid {
        price >= lvl_price
    } else {
        price <= lvl_price
    };
    if !matchable {
        proof {
            assert(trades@ + Seq::<Trade>::empty() =~= trades@);
        }
        return (contra, qty);
    }
    let mut tail = contra;
    let lvl = tail.remove(0);
    proof {
        assert(levels_view(tail@) =~= m0.drop_first());
    }
    let (rest_orders, rem0) = fill_level(lvl_price, qty, lvl.orders, trades);
    proof {
        let fill = fill_at_level(m0[0].price, qty, m0[0].orders);
        assert(rest_orders@ == fill.1);
    }
    if rest_orders.len() == 0 {
        let r = match_into(side, price, rem0, tail, trades);
        proof {
            let m = match_levels(side, price, qty, m0);
            let fill = fill_at_level(m0[0].price, qty, m0[0].orders);
            let rec = match_levels(side, price, fill.2, m0.drop_first());
            assert(m.0 =~= fill.0 + rec.0);
            assert(trades@ =~= old(trades)@ + m.0);
        }
        r
    } else {
        tail.insert(0, Level { price: lvl_price, orders: rest_orders });
        proof {
            let m = match_levels(side, price, qty, m0);
            let fill = fill_at_level(m0[0].price, qty, m0[0].orders);
            assert(levels_view(tail@) =~= seq![
                LevelModel { price: m0[0].price, orders: fill.1 },
            ] + m0.drop_first());
        }
        (tail, rem0)
    }
}

/// Inserts a resting order into its own side, keeping the best-first price
/// order; equal by contract to `insert_order` on the model.
fn insert_level(side: Side, levels: Vec<Level>, o: Order) -> (r: Vec<Level>)
    ensures
        levels_view(r@) == insert_order(side, levels_view(levels@), o),
    decreases levels@.len(),
{
    let ghost m0 = levels_view(levels@);
    let mut out = levels;
    if out.len() == 0 {
        let mut orders: Vec<Order> = Vec::new();
        orders.push(o);
        out.push(Level { price: o.price, orders });
        proof {
            assert(orders@ =~= seq![o]);
            assert(levels_view(out@) =~= insert_order(side, m0, o));
        }
        out
    } else if o.price == out[0].price {
        proof {
            assert(m0[0] == out@[0]@);
        }
        let mut lvl = out.remove(0);
        lvl.orders.push(o);
        out.insert(0, lvl);
        proof {
            assert(levels_view(out@) =~= insert_order(side, m0, o));
        }
        out
    } else {
        proof {
            assert(m0[0] == out@[0]@);
        }
        let head_price = out[0].price;
        let is_better = if side == Side::Bid {
            o.price > head_price
        } else {
            o.price < head_price
        };
        if is_better {
            let mut orders: Vec<Order> = Vec::new();
            orders.push(o);
            out.insert(0, Level { price: o.price, orders });
            proof {
                assert(orders@ =~= seq![o]);
                assert(levels_view(out@) =~= insert_order(side, m0, o));
            }
            out
        } else {
            let first = out.remove(0);
            proof {
                assert(levels_view(out@) =~= m0.drop_first());
            }
            let mut rest = insert_level(side, out, o);
            rest.insert(0, first);
            proof {
                assert(levels_view(rest@) =~= insert_order(side, m0, o));
            }
            rest
        }
    }
}

impl OrderBook {
    /// Submits one order: matches it against the contra side under
    /// price-time priority and rests any remaining quantity on its own
    /// side. Returns the trades emitted, in order. Never fails; a zero
    /// quantity trades nothing and rests nothing.
    pub fn submit(&mut self, o: Order) -> (trades: Vec<Trade>)
        requires
            book_wf(old(self)@),
        ensures
            final(self)@ == spec_submit(old(self)@, o).0,
            trades@ == spec_submit(old(self)@, o).1,
            book_wf(final(self)@),
    {
        let mut trades: Vec<Trade> = Vec::new();
        let mut contra: Vec<Level> = Vec::new();
        if o.side == Side::Bid {
            core::mem::swap(&mut contra, &mut self.asks);
        } else {
            core::mem::swap(&mut contra, &mut self.bids);
        }
        let (contra2, rem) = match_into(o.side, o.price, o.qty, contra, &mut trades);
        if o.side == Side::Bid {
            self.asks = contra2;
        } else {
            self.bids = contra2;
        }
        if rem > 0 {
            let resting = Order { id: o.id, side: o.side, price: o.price, qty: rem, ts: o.ts };
            let mut own: Vec<Level> = Vec::new();
            if o.side == Side::Bid {
                core::mem::swap(&mut own, &mut self.bids);
            } else {
                core::mem::swap(&mut own, &mut self.asks);
            }
            let own2 = insert_level(o.side, own, resting);
            if o.side == Side::Bid {
                self.bids = own2;
            } else {
                self.asks = own2;
            }
        }
        proof {
            assert(Seq::<Trade>::empty() + spec_submit(old(self)@, o).1 =~= spec_submit(
                old(self)@,
                o,
            ).1);
            crate::laws::lemma_submit_preserves_wf(old(self)@, o);
        }
        trades
    }

    /// The pair of best prices when both sides are non-empty, absence
    /// otherwise. Read-only.
    pub fn best_bid_ask(&self) -> (r: Option<(i64, i64)>)
        ensures
            r == spec_quote(self@),
    {
        if self.bids.len() > 0 && self.asks.len() > 0 {
            Some((self.bids[0].price, self.asks[0].price))
        } else {
            None
        }
    }
}

/// Relies on `std::time::SystemTime::now`, `SystemTime::duration_since`
/// with `UNIX_EPOCH`, and `Duration::as_nanos`: the current time in
/// nanoseconds since the Unix epoch. Nothing can be promised of a clock
/// reading. Aborts if the clock reports a time before the epoch; that fault
/// is the process's only unrecoverable error path.
#[verifier::external_body]
pub fn now_ns() -> u128 {
    std::time::SystemTime::now().duration_since(std::time::UNIX_EPOCH).unwrap().as_nanos()
}

} // verus!
