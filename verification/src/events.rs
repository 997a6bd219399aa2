//! Input events, trades, reject reasons and execution reports.
use vstd::prelude::*;

use crate::types::{Order, OrderId, PriceTicks, Qty, SequenceNumber, Side, Symbol, TimestampNanos};

verus! {

#[derive(Debug, Clone, PartialEq, Eq)]
pub struct NewOrderEvent {
    pub seq: SequenceNumber,
    pub order: Order,
}

#[derive(Debug, Clone, PartialEq, Eq)]
pub struct CancelOrderEvent {
    pub seq: SequenceNumber,
    pub order_id: OrderId,
    pub symbol: Symbol,
    pub timestamp_ns: TimestampNanos,
}

#[derive(Debug, Clone, PartialEq, Eq)]
pub enum InputEvent {
    NewOrder(NewOrderEvent),
    Cancel(CancelOrderEvent),
}

/// One execution between an incoming (taker) order and a resting (maker) order.
#[derive(Debug, Clone, PartialEq, Eq)]
pub struct Trade {
    pub symbol: Symbol,
    pub taker_order_id: OrderId,
    pub maker_order_id: OrderId,
    pub price: PriceTicks,
    pub qty: Qty,
    pub aggressor_side: Side,
    pub timestamp_ns: TimestampNanos,
}

impl Trade {
    /// A field-for-field copy of this trade.
    pub fn duplicate(&self) -> (r: Trade)
        ensures
            r == *self,
    {
        Trade {
            symbol: self.symbol.duplicate(),
            taker_order_id: self.taker_order_id,
            maker_order_id: self.maker_order_id,
            price: self.price,
            qty: self.qty,
            aggressor_side: self.aggressor_side,
            timestamp_ns: self.timestamp_ns,
        }
    }
}

#[derive(Debug, Clone, Copy, PartialEq, Eq, Structural)]
pub enum RejectReason {
    UnknownOrder,
    AlreadyFilled,
    AlreadyCancelled,
    AlreadyExpired,
    EmptyBook,
    InvalidQuantity,
    InvalidPrice,
    MarketOrderWouldNotFill,
    InternalBookInvariantViolation,
    /// Reason used by the `submit_limit_order` entry point for orders that are not limit orders.
    InvalidOrder,
}

#[derive(Debug, Clone, Copy, PartialEq, Eq, Structural)]
pub enum ExecutionReport {
    Accepted { order_id: OrderId },
    Filled { order_id: OrderId, qty: Qty, price: PriceTicks },
    PartiallyFilled { order_id: OrderId, qty: Qty, remaining: Qty, price: PriceTicks },
    Rested { order_id: OrderId, remaining: Qty },
    Cancelled { order_id: OrderId },
    Expired { order_id: OrderId, remaining: Qty },
    Rejected { order_id: OrderId, reason: RejectReason },
}

#[allow(inconsistent_fields)]
#[derive(Debug, Clone, PartialEq, Eq)]
pub enum OutputEvent {
    Accepted { seq: SequenceNumber, order_id: OrderId },
    Cancelled { seq: SequenceNumber, order_id: OrderId },
    Rejected { seq: SequenceNumber, order_id: Option<OrderId>, reason: RejectReason },
    Trade { seq: SequenceNumber, trade: Trade },
}

} // verus!
