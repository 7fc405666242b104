use ergodic::book::{Order, OrderBook, Side};
use ergodic::engine::{handle, Request, Response};
use ergodic::gateway::{parse_side, to_order, NewOrder};

fn order(id: u64, side: Side, price: i64, qty: u64) -> Order {
    Order { id, side, price, qty, ts: 0 }
}

#[test]
fn side_token_bid_forms() {
    assert_eq!(parse_side("bid"), Side::Bid);
    assert_eq!(parse_side("BID"), Side::Bid);
    assert_eq!(parse_side("bId"), Side::Bid);
    assert_eq!(parse_side("b"), Side::Bid);
    assert_eq!(parse_side("B"), Side::Bid);
}

#[test]
fn side_token_everything_else_is_ask() {
    assert_eq!(parse_side("ask"), Side::Ask);
    assert_eq!(parse_side("sell"), Side::Ask);
    assert_eq!(parse_side(""), Side::Ask);
    assert_eq!(parse_side("bi"), Side::Ask);
    assert_eq!(parse_side("bids"), Side::Ask);
    assert_eq!(parse_side(" b"), Side::Ask);
    assert_eq!(parse_side("bíd"), Side::Ask, "only ASCII case folds");
}

#[test]
fn gateway_order_carries_values_as_given() {
    let n = NewOrder { id: 9, side: String::from("Bid"), price: -3, qty: 12 };
    let o = to_order(&n, 777);
    assert_eq!(o.id, 9);
    assert_eq!(o.side, Side::Bid);
    assert_eq!(o.price, -3);
    assert_eq!(o.qty, 12);
    assert_eq!(o.ts, 777);
    let n = NewOrder { id: 10, side: String::from("junk"), price: 5, qty: 1 };
    assert_eq!(to_order(&n, 0).side, Side::Ask, "unrecognized tokens default to ask");
}

#[test]
fn engine_handles_orders_then_quotes() {
    let mut book = OrderBook::default();
    let r = handle(&mut book, Request::NewOrder(order(1, Side::Ask, 50, 10)));
    match r {
        Response::Trades(ts) => assert!(ts.is_empty()),
        Response::Quote(_) => panic!("an order submission yields trades"),
    }
    let r = handle(&mut book, Request::NewOrder(order(2, Side::Bid, 55, 6)));
    match r {
        Response::Trades(ts) => {
            assert_eq!(ts.len(), 1);
            assert_eq!(ts[0].price, 50);
            assert_eq!(ts[0].qty, 6);
        }
        Response::Quote(_) => panic!("an order submission yields trades"),
    }
    let r = handle(&mut book, Request::QuoteReq);
    match r {
        Response::Quote(q) => assert_eq!(q, None, "only the ask side rests"),
        Response::Trades(_) => panic!("a quote query yields a quote"),
    }
    handle(&mut book, Request::NewOrder(order(3, Side::Bid, 49, 1)));
    let r = handle(&mut book, Request::QuoteReq);
    match r {
        Response::Quote(q) => assert_eq!(q, Some((49, 50))),
        Response::Trades(_) => panic!("a quote query yields a quote"),
    }
}
