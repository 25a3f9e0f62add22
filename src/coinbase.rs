//! Typed messages of an exchange's level-3 order feed, for replay.
use crate::command::Side;
use vstd::prelude::*;

verus! {

/// Why an order left the exchange's book.
#[derive(Debug, PartialEq, Eq, Structural)]
pub enum DoneReason {
    /// Fully filled.
    Filled,
    /// Canceled.
    Canceled,
}

/// One level-3 feed message, with prices and sizes in fixed point.
#[derive(Debug)]
pub enum CoinbaseMessage {
    /// An order was received.
    Received { order_id: u64, side: Side, price: u64, qty: u32 },
    /// An order is now open on the book.
    Open { order_id: u64, side: Side, price: u64, qty: u32 },
    /// An order left the book.
    Done { order_id: u64, side: Side, reason: DoneReason },
    /// Two orders traded.
    Match { maker_order_id: u64, taker_order_id: u64, price: u64, qty: u32 },
    /// An order's size changed.
    Change { order_id: u64, new_qty: u32, price: u64 },
}

} // verus!
