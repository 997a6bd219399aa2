//! Paper (demo) market-data adapter: no live trading.
//!
//! Converts external-style market-data messages into runtime events, with an in-memory
//! mock session for deterministic tests and a bounded reconnect policy.
pub mod convert;
pub mod mock;

use vstd::prelude::*;

use crate::types::{OrderId, OrderType, PriceTicks, Qty, Side, Symbol, TimestampNanos};

pub use convert::{paper_message_to_runtime_event, PaperConvertError};
pub use mock::{DrainError, MockPaperError, MockPaperSession, MockPaperSink, MockPaperSource};

verus! {

/// Separates ingress adapters from engine logic.
pub trait MarketDataAdapter {
    type Error;

    /// Pull the next external message, if any.
    fn next_message(&mut self) -> Result<Option<PaperMdMessage>, Self::Error>;
}

/// External-style paper market-data and order messages.
#[derive(Debug, Clone, PartialEq, Eq)]
pub enum PaperMdMessage {
    /// Top-of-book quote, seeding liquidity as two limit orders.
    Quote { seq: u64, ts_ns: TimestampNanos, symbol: String, bid_px: i64, bid_qty: u64, ask_px: i64, ask_qty: u64 },
    /// Aggressing paper order (limit or market).
    PaperOrder {
        seq: u64,
        ts_ns: TimestampNanos,
        order_id: OrderId,
        symbol: String,
        side: Side,
        order_type: OrderType,
        price: Option<i64>,
        qty: u64,
    },
    /// Cancel a previously submitted paper order.
    PaperCancel { seq: u64, ts_ns: TimestampNanos, order_id: OrderId, symbol: String },
    /// Logical timer tick (not wall clock).
    Timer { seq: u64, ts_ns: TimestampNanos, symbol: Option<String> },
    /// Adapter heartbeat, not an engine event.
    Heartbeat { seq: u64, ts_ns: TimestampNanos },
    /// Explicit disconnect signal.
    Disconnect { reason: String },
}

/// Paper execution and status reports from the adapter bridge.
#[derive(Debug, Clone, PartialEq, Eq)]
pub enum PaperReport {
    Accepted { order_id: OrderId, symbol: String },
    Rejected { order_id: Option<OrderId>, reason: String },
    Trade { symbol: String, price: PriceTicks, qty: Qty, taker_side: Side },
    Cancelled { order_id: OrderId },
    AdapterError { message: String },
    Reconnecting { attempt: u32 },
    Disconnected { reason: String },
}

impl PaperReport {
    /// A field-for-field copy.
    pub fn duplicate(&self) -> (r: PaperReport)
        ensures
            r == *self,
    {
        match self {
            PaperReport::Accepted { order_id, symbol } => PaperReport::Accepted {
                order_id: *order_id,
                symbol: symbol.clone(),
            },
            PaperReport::Rejected { order_id, reason } => PaperReport::Rejected {
                order_id: *order_id,
                reason: reason.clone(),
            },
            PaperReport::Trade { symbol, price, qty, taker_side } => PaperReport::Trade {
                symbol: symbol.clone(),
                price: *price,
                qty: *qty,
                taker_side: *taker_side,
            },
            PaperReport::Cancelled { order_id } => PaperReport::Cancelled { order_id: *order_id },
            PaperReport::AdapterError { message } => PaperReport::AdapterError { message: message.clone() },
            PaperReport::Reconnecting { attempt } => PaperReport::Reconnecting { attempt: *attempt },
            PaperReport::Disconnected { reason } => PaperReport::Disconnected { reason: reason.clone() },
        }
    }
}

/// A report as values, with texts in place of strings.
pub enum ReportView {
    Accepted { order_id: OrderId, symbol: Seq<char> },
    Rejected { order_id: Option<OrderId>, reason: Seq<char> },
    Trade { symbol: Seq<char>, price: PriceTicks, qty: Qty, taker_side: Side },
    Cancelled { order_id: OrderId },
    AdapterError { message: Seq<char> },
    Reconnecting { attempt: u32 },
    Disconnected { reason: Seq<char> },
}

pub open spec fn report_view(r: PaperReport) -> ReportView {
    match r {
        PaperReport::Accepted { order_id, symbol } => ReportView::Accepted { order_id, symbol: symbol@ },
        PaperReport::Rejected { order_id, reason } => ReportView::Rejected { order_id, reason: reason@ },
        PaperReport::Trade { symbol, price, qty, taker_side } => ReportView::Trade { symbol: symbol@, price, qty, taker_side },
        PaperReport::Cancelled { order_id } => ReportView::Cancelled { order_id },
        PaperReport::AdapterError { message } => ReportView::AdapterError { message: message@ },
        PaperReport::Reconnecting { attempt } => ReportView::Reconnecting { attempt },
        PaperReport::Disconnected { reason } => ReportView::Disconnected { reason: reason@ },
    }
}

/// Reports as values, in order.
pub open spec fn reports_view(rs: Seq<PaperReport>) -> Seq<ReportView> {
    rs.map_values(|r: PaperReport| report_view(r))
}

/// Adapter connection state for reconnect handling.
#[derive(Debug, Clone, Copy, PartialEq, Eq, Structural)]
pub enum AdapterState {
    Disconnected,
    Connected,
    Reconnecting,
}

impl Default for AdapterState {
    fn default() -> (r: Self)
        ensures
            r == AdapterState::Disconnected,
    {
        AdapterState::Disconnected
    }
}

/// Reconnect controller with a bounded number of attempts (no sleeping).
#[derive(Debug, Clone, PartialEq, Eq)]
pub struct ReconnectPolicy {
    pub max_attempts: u32,
    attempts: u32,
    state: AdapterState,
}

impl Default for ReconnectPolicy {
    fn default() -> (r: Self)
        ensures
            r.spec_max() == 3,
            r.spec_attempts() == 0,
            r.spec_state() == AdapterState::Disconnected,
            r.bounded(),
    {
        ReconnectPolicy { max_attempts: 3, attempts: 0, state: AdapterState::Disconnected }
    }
}

impl ReconnectPolicy {
    pub closed spec fn spec_max(&self) -> u32 {
        self.max_attempts
    }

    pub closed spec fn spec_attempts(&self) -> u32 {
        self.attempts
    }

    pub closed spec fn spec_state(&self) -> AdapterState {
        self.state
    }

    /// Attempts never exceed the maximum, and a connected adapter has used none.
    pub open spec fn bounded(&self) -> bool {
        &&& self.spec_attempts() <= self.spec_max()
        &&& self.spec_state() == AdapterState::Connected ==> self.spec_attempts() == 0
    }

    pub fn new(max_attempts: u32) -> (r: Self)
        ensures
            r.spec_max() == max_attempts,
            r.spec_attempts() == 0,
            r.spec_state() == AdapterState::Disconnected,
            r.bounded(),
    {
        ReconnectPolicy { max_attempts, attempts: 0, state: AdapterState::Disconnected }
    }

    pub fn state(&self) -> (r: AdapterState)
        ensures
            r == self.spec_state(),
    {
        self.state
    }

    pub fn attempts(&self) -> (r: u32)
        ensures
            r == self.spec_attempts(),
    {
        self.attempts
    }

    /// Connected: attempts start over.
    pub fn on_connected(&mut self)
        ensures
            final(self).spec_state() == AdapterState::Connected,
            final(self).spec_attempts() == 0,
            final(self).spec_max() == old(self).spec_max(),
            final(self).bounded(),
    {
        self.state = AdapterState::Connected;
        self.attempts = 0;
    }

    /// Record a disconnect. Returns the attempt number when another reconnect should be
    /// tried, or `None` once the attempts are used up.
    pub fn on_disconnect(&mut self) -> (r: Option<u32>)
        ensures
            final(self).spec_max() == old(self).spec_max(),
            old(self).spec_attempts() >= old(self).spec_max() ==> r is None && final(self).spec_state()
                == AdapterState::Disconnected && final(self).spec_attempts() == old(self).spec_attempts(),
            old(self).spec_attempts() < old(self).spec_max() ==> r == Some((old(self).spec_attempts() + 1) as u32)
                && final(self).spec_attempts() == old(self).spec_attempts() + 1 && final(self).spec_state()
                == AdapterState::Reconnecting,
            old(self).bounded() ==> final(self).bounded(),
            r matches Some(k) ==> k == final(self).spec_attempts() && k <= final(self).spec_max(),
    {
        if self.attempts >= self.max_attempts {
            self.state = AdapterState::Disconnected;
            return None;
        }
        self.attempts = self.attempts + 1;
        self.state = AdapterState::Reconnecting;
        Some(self.attempts)
    }

    pub fn mark_failed(&mut self)
        ensures
            final(self).spec_state() == AdapterState::Disconnected,
            final(self).spec_attempts() == old(self).spec_attempts(),
            final(self).spec_max() == old(self).spec_max(),
            old(self).bounded() ==> final(self).bounded(),
    {
        self.state = AdapterState::Disconnected;
    }
}

/// A symbol from paper message text.
pub fn paper_symbol(s: &str) -> (r: Symbol)
    ensures
        r@ == s@,
{
    Symbol(s.to_owned())
}

} // verus!
