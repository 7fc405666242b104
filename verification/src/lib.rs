//! Matching core of a single-instrument continuous double auction.
//!
//! The book keeps resting buy and sell interest in price-sorted FIFO levels
//! and matches incoming orders under price-time priority. `book` holds the
//! executable data structure, `model` its mathematical model, `laws` the
//! proved invariants of matching, `engine` the sequential request handler,
//! and `gateway` the order-submission message and its side-token parse.

pub mod book;
pub mod engine;
pub mod gateway;
pub mod laws;
pub mod model;
