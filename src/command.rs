//! Commands accepted by the engine and the events it emits.
use vstd::prelude::*;

verus! {

/// Order side: bids buy, asks sell.
#[derive(Clone, Copy, Debug, PartialEq, Eq, Hash, Structural)]
pub enum Side {
    /// Buy side.
    Bid,
    /// Sell side.
    Ask,
}

impl Side {
    /// The other side of the book.
    pub open spec fn spec_opposite(self) -> Side {
        match self {
            Side::Bid => Side::Ask,
            Side::Ask => Side::Bid,
        }
    }

    /// The other side of the book.
    pub fn opposite(self) -> (r: Self)
        ensures
            r == self.spec_opposite(),
    {
        match self {
            Side::Bid => Side::Ask,
            Side::Ask => Side::Bid,
        }
    }
}

/// How the unfilled part of an incoming order is treated.
#[derive(Clone, Copy, Debug, PartialEq, Eq, Structural)]
pub enum OrderType {
    /// Rests whatever does not fill.
    Limit,
    /// Immediate-or-cancel: drops whatever does not fill at once.
    IOC,
    /// Fill-or-kill: fills completely at once or is rejected.
    FOK,
}

impl Default for OrderType {
    fn default() -> (r: Self)
        ensures
            r == OrderType::Limit,
    {
        OrderType::Limit
    }
}

/// A new order.
#[derive(Clone, Copy, Debug)]
pub struct PlaceOrder {
    /// Caller-assigned order id.
    pub order_id: u64,
    /// Owner of the order.
    pub user_id: u64,
    /// Bid or ask.
    pub side: Side,
    /// Fixed-point limit price.
    pub price: u64,
    /// Quantity.
    pub qty: u32,
    /// Limit, IOC or FOK.
    pub order_type: OrderType,
}

impl PlaceOrder {
    /// A limit order.
    pub fn limit(order_id: u64, user_id: u64, side: Side, price: u64, qty: u32) -> (r: Self)
        ensures
            r == (PlaceOrder { order_id, user_id, side, price, qty, order_type: OrderType::Limit }),
    {
        PlaceOrder { order_id, user_id, side, price, qty, order_type: OrderType::Limit }
    }

    /// An immediate-or-cancel order.
    pub fn ioc(order_id: u64, user_id: u64, side: Side, price: u64, qty: u32) -> (r: Self)
        ensures
            r == (PlaceOrder { order_id, user_id, side, price, qty, order_type: OrderType::IOC }),
    {
        PlaceOrder { order_id, user_id, side, price, qty, order_type: OrderType::IOC }
    }

    /// A fill-or-kill order.
    pub fn fok(order_id: u64, user_id: u64, side: Side, price: u64, qty: u32) -> (r: Self)
        ensures
            r == (PlaceOrder { order_id, user_id, side, price, qty, order_type: OrderType::FOK }),
    {
        PlaceOrder { order_id, user_id, side, price, qty, order_type: OrderType::FOK }
    }
}

/// Cancels a resting order.
#[derive(Clone, Copy, Debug)]
pub struct CancelOrder {
    /// Id of the order to cancel.
    pub order_id: u64,
}

/// Replaces a resting order: cancel, then place on the same side.
#[derive(Clone, Copy, Debug)]
pub struct ModifyOrder {
    /// Id of the resting order.
    pub order_id: u64,
    /// Id of the replacement.
    pub new_order_id: u64,
    /// Price of the replacement.
    pub new_price: u64,
    /// Quantity of the replacement.
    pub new_qty: u32,
}

/// An input command.
#[derive(Clone, Copy, Debug)]
pub enum Command {
    /// Place a new order.
    Place(PlaceOrder),
    /// Cancel a resting order.
    Cancel(CancelOrder),
    /// Replace a resting order.
    Modify(ModifyOrder),
}

/// A trade between a resting maker and an incoming taker.
#[derive(Clone, Copy, Debug, PartialEq, Eq, Structural)]
pub struct TradeEvent {
    /// Execution price: the maker's level.
    pub price: u64,
    /// Executed quantity.
    pub qty: u32,
    /// Resting order id.
    pub maker_order_id: u64,
    /// Incoming order id.
    pub taker_order_id: u64,
    /// Owner of the resting order.
    pub maker_user_id: u64,
    /// Owner of the incoming order.
    pub taker_user_id: u64,
    /// Side of the incoming order.
    pub taker_side: Side,
}

/// The new aggregate state of one price level; `(0, 0)` means removed.
#[derive(Clone, Copy, Debug, PartialEq, Eq, Structural)]
pub struct BookUpdate {
    /// Side of the level.
    pub side: Side,
    /// Price of the level.
    pub price: u64,
    /// Total quantity now resting there.
    pub new_qty: u64,
    /// Number of orders now resting there.
    pub new_count: u32,
}

/// An order came to rest in the book.
#[derive(Clone, Copy, Debug, PartialEq, Eq, Structural)]
pub struct OrderAccepted {
    /// Id of the resting order.
    pub order_id: u64,
    /// Its price.
    pub price: u64,
    /// Its resting quantity.
    pub qty: u32,
    /// Its side.
    pub side: Side,
}

/// A resting order was canceled.
#[derive(Clone, Copy, Debug, PartialEq, Eq, Structural)]
pub struct OrderCanceled {
    /// Id of the canceled order.
    pub order_id: u64,
    /// Quantity that was still unfilled.
    pub canceled_qty: u32,
}

/// A command was refused.
#[derive(Clone, Copy, Debug, PartialEq, Eq, Structural)]
pub struct OrderRejected {
    /// Id named by the command.
    pub order_id: u64,
    /// Why it was refused.
    pub reason: RejectReason,
}

/// Why a command was refused.
#[derive(Clone, Copy, Debug, PartialEq, Eq, Structural)]
pub enum RejectReason {
    /// The order id is already resting.
    DuplicateOrderId,
    /// No resting order has that id.
    OrderNotFound,
    /// No free record is left to rest the order.
    ArenaFull,
    /// Kept for price validation by an outer layer; never emitted here.
    InvalidPrice,
    /// The quantity is zero.
    InvalidQuantity,
    /// A fill-or-kill order cannot fill completely.
    InsufficientLiquidity,
}

/// One output event.
#[derive(Clone, Copy, Debug, PartialEq, Eq, Structural)]
pub enum OutputEvent {
    /// A trade.
    Trade(TradeEvent),
    /// A level changed.
    BookDelta(BookUpdate),
    /// An order came to rest.
    Accepted(OrderAccepted),
    /// An order was canceled.
    Canceled(OrderCanceled),
    /// A command was refused.
    Rejected(OrderRejected),
}

} // verus!
