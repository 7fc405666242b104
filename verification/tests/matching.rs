use ergodic::book::{now_ns, Order, OrderBook, Side, Trade};

fn order(id: u64, side: Side, price: i64, qty: u64) -> Order {
    Order { id, side, price, qty, ts: now_ns() }
}

fn total_qty(trades: &[Trade]) -> u64 {
    trades.iter().map(|t| t.qty).sum()
}

#[test]
fn ask_rests_when_book_empty() {
    let mut ob = OrderBook::default();
    let trades = ob.submit(order(1, Side::Ask, 100, 10));
    assert!(trades.is_empty());
    assert!(ob.best_bid_ask().is_none(), "no bid side, so no quote");
}

#[test]
fn fifo_tie_break_within_level() {
    let mut ob = OrderBook::default();
    ob.submit(order(10, Side::Ask, 100, 5));
    ob.submit(order(11, Side::Ask, 100, 5));
    let trades = ob.submit(order(12, Side::Bid, 100, 7));
    assert_eq!(trades.len(), 2, "oldest ask consumed in full first");
    assert_eq!(trades[0].price, 100);
    assert_eq!(trades[0].qty, 5);
    assert_eq!(trades[1].price, 100);
    assert_eq!(trades[1].qty, 2);
    // The younger ask still rests with its remaining 3.
    let trades = ob.submit(order(13, Side::Bid, 100, 3));
    assert_eq!(trades.len(), 1);
    assert_eq!(trades[0].qty, 3);
    assert!(ob.best_bid_ask().is_none());
}

#[test]
fn bid_rests_until_ask_arrives() {
    let mut ob = OrderBook::default();
    let trades = ob.submit(order(20, Side::Bid, 90, 10));
    assert!(trades.is_empty());
    assert!(ob.best_bid_ask().is_none(), "no ask side yet");
    let trades = ob.submit(order(21, Side::Ask, 95, 1));
    assert!(trades.is_empty(), "95 does not cross a bid at 90");
    assert_eq!(ob.best_bid_ask(), Some((90, 95)));
}

#[test]
fn price_priority_before_time_priority() {
    let mut ob = OrderBook::default();
    ob.submit(order(30, Side::Ask, 60, 5));
    ob.submit(order(31, Side::Ask, 50, 5));
    let trades = ob.submit(order(32, Side::Bid, 100, 5));
    assert_eq!(trades.len(), 1, "best (lowest) ask consumed first");
    assert_eq!(trades[0].price, 50);
    assert_eq!(trades[0].qty, 5);
    assert_eq!(ob.best_bid_ask(), None, "ask at 60 rests but no bid does");
}

#[test]
fn executed_quantity_never_exceeds_submitted() {
    let mut ob = OrderBook::default();
    ob.submit(order(40, Side::Ask, 50, 5));
    ob.submit(order(41, Side::Ask, 60, 5));
    let trades = ob.submit(order(42, Side::Bid, 100, 8));
    assert_eq!(trades.len(), 2);
    assert_eq!(trades[0].price, 50);
    assert_eq!(trades[0].qty, 5);
    assert_eq!(trades[1].price, 60);
    assert_eq!(trades[1].qty, 3);
    assert!(total_qty(&trades) <= 8);
    // The partially consumed level survives with the rest.
    let trades = ob.submit(order(43, Side::Bid, 60, 10));
    assert_eq!(trades.len(), 1);
    assert_eq!(trades[0].qty, 2);
}

#[test]
fn zero_quantity_trades_and_rests_nothing() {
    let mut ob = OrderBook::default();
    let trades = ob.submit(order(50, Side::Bid, 100, 0));
    assert!(trades.is_empty());
    let trades = ob.submit(order(51, Side::Ask, 100, 1));
    assert!(trades.is_empty(), "the zero-quantity bid rested nothing");
    assert!(ob.best_bid_ask().is_none());
}

#[test]
fn garbage_values_matched_as_given() {
    let mut ob = OrderBook::default();
    let trades = ob.submit(order(60, Side::Bid, -5, 4));
    assert!(trades.is_empty());
    let trades = ob.submit(order(61, Side::Ask, -10, 6));
    assert_eq!(trades.len(), 1, "an ask at -10 crosses a bid at -5");
    assert_eq!(trades[0].price, -5, "trade at the resting bid's price");
    assert_eq!(trades[0].qty, 4);
    // The ask's remaining 2 rest at -10; a probe bid below shows the quote.
    ob.submit(order(62, Side::Bid, -20, 1));
    assert_eq!(ob.best_bid_ask(), Some((-20, -10)));
}

#[test]
fn self_matching_is_not_prevented() {
    let mut ob = OrderBook::default();
    ob.submit(order(70, Side::Ask, 100, 5));
    let trades = ob.submit(order(70, Side::Bid, 100, 5));
    assert_eq!(trades.len(), 1, "an order may match one with its own id");
    assert_eq!(trades[0].qty, 5);
}

#[test]
fn uncrossed_bid_rests_in_full() {
    let mut ob = OrderBook::default();
    ob.submit(order(80, Side::Ask, 100, 3));
    let trades = ob.submit(order(81, Side::Bid, 99, 7));
    assert!(trades.is_empty(), "99 does not cross an ask at 100");
    assert_eq!(ob.best_bid_ask(), Some((99, 100)));
    // The rested bid is there in full: an ask at 99 takes all 7.
    let trades = ob.submit(order(82, Side::Ask, 99, 9));
    assert_eq!(trades.len(), 1);
    assert_eq!(trades[0].price, 99);
    assert_eq!(trades[0].qty, 7);
}

#[test]
fn book_never_crossed_after_sweep() {
    let mut ob = OrderBook::default();
    ob.submit(order(90, Side::Ask, 50, 2));
    ob.submit(order(91, Side::Ask, 55, 2));
    ob.submit(order(92, Side::Ask, 60, 2));
    let trades = ob.submit(order(93, Side::Bid, 57, 10));
    assert_eq!(trades.len(), 2, "sweeps 50 and 55, stops before 60");
    assert_eq!(trades[0].price, 50);
    assert_eq!(trades[1].price, 55);
    assert_eq!(total_qty(&trades), 4);
    let Some((bid, ask)) = ob.best_bid_ask() else { panic!("both sides should rest") };
    assert_eq!((bid, ask), (57, 60));
    assert!(bid < ask, "best bid strictly below best ask");
}
