//! The serializing execution step of the match engine. The engine owns the
//! only book and handles one inbound request in full — book mutation and
//! emission decided — before the next is read; that total order is the
//! system's whole concurrency argument. The loop around it (channel reads,
//! best-effort forwarding) performs no book logic.

use vstd::prelude::*;

use crate::book::{Order, OrderBook, Trade};
use crate::model::{book_wf, spec_quote, spec_submit};

verus! {

/// One inbound request: a new order to submit, or a quote query.
pub enum Request {
    NewOrder(Order),
    QuoteReq,
}

/// What handling one request emits: the trades to forward, best-effort,
/// to the trade sink, or the quote to send once on the reply channel.
pub enum Response {
    Trades(Vec<Trade>),
    Quote(Option<(i64, i64)>),
}

/// Handles one inbound request: a new order is submitted to the book and
/// its trades handed back; a quote query reads the best prices and leaves
/// the book unchanged. Never fails.
pub fn handle(book: &mut OrderBook, req: Request) -> (r: Response)
    requires
        book_wf(old(book)@),
    ensures
        book_wf(final(book)@),
        match req {
            Request::NewOrder(o) => {
                &&& final(book)@ == spec_submit(old(book)@, o).0
                &&& r matches Response::Trades(ts) && ts@ == spec_submit(old(book)@, o).1
            },
            Request::QuoteReq => {
                &&& final(book)@ == old(book)@
                &&& r == Response::Quote(spec_quote(old(book)@))
            },
        },
{
    match req {
        Request::NewOrder(o) => Response::Trades(book.submit(o)),
        Request::QuoteReq => Response::Quote(book.best_bid_ask()),
    }
}

} // verus!
