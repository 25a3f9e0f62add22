//! A deterministic, single-writer limit order book matching engine.
//!
//! Orders live in a fixed-capacity slab (`Arena`) and are threaded into
//! per-price FIFO queues (`PriceLevel`) through 32-bit slab indices.
//! The `OrderBook` keeps the two sides and an order-id locator, and the
//! `MatchingEngine` crosses incoming orders with price-time priority.

pub mod arena;
pub mod coinbase;
pub mod command;
pub mod engine;
pub mod fx_map;
pub mod liquidity;
pub mod matching;
pub mod order_book;
pub mod price_level;
pub mod sweep;

pub use arena::{Arena, ArenaIndex, OrderNode, NULL_INDEX};
pub use command::{
    BookUpdate, CancelOrder, Command, ModifyOrder, OrderAccepted, OrderCanceled, OrderRejected, OrderType,
    OutputEvent, PlaceOrder, RejectReason, Side, TradeEvent,
};
pub use engine::Engine;
pub use matching::MatchingEngine;
pub use order_book::{OrderBook, OrderInfo};
pub use price_level::PriceLevel;
