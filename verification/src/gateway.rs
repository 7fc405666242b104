//! The order-submission message of the request gateway, and its lenient
//! side-token parse: "bid" or "b" in any ASCII case means a bid, any other
//! token means an ask.

use vstd::prelude::*;

use crate::book::{Order, Side};
use vstd::utf8::encode_utf8;

verus! {

/// The UTF-8 bytes of a side token that means a bid: "bid" or "b",
/// matched without regard to ASCII case (98/66 encode b/B, 105/73 i/I,
/// 100/68 d/D).
pub open spec fn is_bid_token(b: Seq<u8>) -> bool {
    ||| b.len() == 1 && (b[0] == 98 || b[0] == 66)
    ||| b.len() == 3 && (b[0] == 98 || b[0] == 66) && (b[1] == 105 || b[1] == 73) && (b[2]
        == 100 || b[2] == 68)
}

/// The side a token names. Every token that is not a bid token means an
/// ask — a lenient parse, kept as the protocol has it.
pub open spec fn side_of_token(b: Seq<u8>) -> Side {
    if is_bid_token(b) {
        Side::Bid
    } else {
        Side::Ask
    }
}

/// An order submission as the gateway receives it: an id, a side token,
/// a price in ticks, and a quantity.
pub struct NewOrder {
    pub id: u64,
    pub side: String,
    pub price: i64,
    pub qty: u64,
}

/// Parses a side token by its UTF-8 bytes.
pub fn parse_side(s: &str) -> (r: Side)
    ensures
        r == side_of_token(encode_utf8(s@)),
{
    let b = s.as_bytes();
    let is_bid = if b.len() == 1 {
        b[0] == 98 || b[0] == 66
    } else if b.len() == 3 {
        (b[0] == 98 || b[0] == 66) && (b[1] == 105 || b[1] == 73) && (b[2] == 100 || b[2]
            == 68)
    } else {
        false
    };
    if is_bid {
        Side::Bid
    } else {
        Side::Ask
    }
}

/// Builds the book order for a gateway submission at the given timestamp.
/// Price and quantity are taken as given: the core never rejects an order
/// for its values.
pub fn to_order(n: &NewOrder, ts: u128) -> (r: Order)
    ensures
        r.id == n.id,
        r.side == side_of_token(encode_utf8(n.side@)),
        r.price == n.price,
        r.qty == n.qty,
        r.ts == ts,
{
    let side = parse_side(n.side.as_str());
    Order { id: n.id, side, price: n.price, qty: n.qty, ts }
}

} // verus!
