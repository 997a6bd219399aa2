//! Replay input records and the output records a replay emits.
use vstd::prelude::*;

use crate::events::{RejectReason, Trade};
use crate::types::{Order, OrderId, Qty, SequenceNumber, Symbol, TimestampNanos};

verus! {

/// One input record: a sequence number, a replay timestamp and what happened.
#[derive(Debug, Clone, PartialEq, Eq)]
pub struct ReplayEvent {
    pub seq: SequenceNumber,
    pub ts_ns: TimestampNanos,
    pub kind: ReplayEventKind,
}

#[derive(Debug, Clone, PartialEq, Eq)]
pub enum ReplayEventKind {
    NewOrder { order: Order },
    Cancel { order_id: OrderId, symbol: Symbol },
}

/// One output record, stamped with the sequence number and timestamp of its input.
#[derive(Debug, Clone, PartialEq, Eq)]
pub struct ReplayOutputEvent {
    pub seq: SequenceNumber,
    pub ts_ns: TimestampNanos,
    pub kind: ReplayOutputKind,
}

#[derive(Debug, Clone, PartialEq, Eq)]
pub enum ReplayOutputKind {
    Accepted { order_id: OrderId },
    Rejected { order_id: Option<OrderId>, reason: RejectReason },
    Trade { trade: Trade },
    Cancelled { order_id: OrderId },
    Expired { order_id: OrderId, remaining: Qty },
}

impl ReplayEventKind {
    /// A field-for-field copy.
    pub fn duplicate(&self) -> (r: ReplayEventKind)
        ensures
            r == *self,
    {
        match self {
            ReplayEventKind::NewOrder { order } => ReplayEventKind::NewOrder { order: order.duplicate() },
            ReplayEventKind::Cancel { order_id, symbol } => ReplayEventKind::Cancel {
                order_id: *order_id,
                symbol: symbol.duplicate(),
            },
        }
    }
}

impl ReplayEvent {
    /// A field-for-field copy.
    pub fn duplicate(&self) -> (r: ReplayEvent)
        ensures
            r == *self,
    {
        ReplayEvent { seq: self.seq, ts_ns: self.ts_ns, kind: self.kind.duplicate() }
    }
}

} // verus!
