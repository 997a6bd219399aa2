//! Strategy plugin interface.
//!
//! Strategies observe a read-only context and return intents. They never change the book,
//! risk state or portfolio themselves: the runtime turns intents into orders, and every
//! order passes risk first.

pub mod market_making;
pub mod momentum;

use vstd::prelude::*;

use crate::book::snapshot::BookSnapshot;
use crate::events::Trade;
use crate::portfolio::PortfolioSnapshot;
use crate::risk::RiskRejectReason;
use crate::types::{OrderId, OrderType, PriceTicks, Qty, Side, StrategyId, Symbol, TimestampNanos};


pub use market_making::{MarketMakingConfig, MarketMakingStrategy};
pub use momentum::{MomentumConfig, MomentumStrategy};

verus! {

/// Read-only context handed to a strategy on each callback.
#[derive(Debug, Clone)]
pub struct StrategyContext {
    pub strategy_id: StrategyId,
    pub seq: u64,
    pub ts_ns: TimestampNanos,
    pub portfolio: PortfolioSnapshot,
    pub book: Option<BookSnapshot>,
    pub risk_killed: bool,
}

/// Events delivered to strategies, in a deterministic order.
#[derive(Debug, Clone, PartialEq, Eq)]
pub enum StrategyEvent {
    Activated,
    Deactivated,
    BookUpdate { symbol: Symbol, book: BookSnapshot },
    Trade { trade: Trade },
    Fill { order_id: OrderId, symbol: Symbol, side: Side, price: PriceTicks, qty: Qty },
    OrderAccepted { order_id: OrderId, symbol: Symbol, side: Side, price: Option<PriceTicks>, qty: Qty },
    /// Timer tick from the input stream (not wall-clock).
    Timer { seq: u64, ts_ns: TimestampNanos },
    RiskRejection { order_id: Option<OrderId>, reason: RiskRejectReason },
}

/// Intents a strategy may return. The runtime assigns order IDs.
#[derive(Debug, Clone, PartialEq, Eq)]
pub enum StrategyCommand {
    PlaceOrder { symbol: Symbol, side: Side, order_type: OrderType, price: Option<PriceTicks>, qty: Qty },
    Cancel { order_id: OrderId, symbol: Symbol },
}

impl StrategyCommand {
    /// A field-for-field copy.
    pub fn duplicate(&self) -> (r: StrategyCommand)
        ensures
            r == *self,
    {
        match self {
            StrategyCommand::PlaceOrder { symbol, side, order_type, price, qty } => StrategyCommand::PlaceOrder {
                symbol: symbol.duplicate(),
                side: *side,
                order_type: *order_type,
                price: *price,
                qty: *qty,
            },
            StrategyCommand::Cancel { order_id, symbol } => StrategyCommand::Cancel {
                order_id: *order_id,
                symbol: symbol.duplicate(),
            },
        }
    }
}

/// A strategy plugin. Implementations must be deterministic.
pub trait Strategy: Send {
    /// The ID the strategy goes by.
    spec fn spec_strategy_id(&self) -> StrategyId;

    fn id(&self) -> (r: StrategyId)
        ensures
            r == self.spec_strategy_id(),
    ;

    fn name(&self) -> &str;

    /// Handle one event; a strategy keeps its ID.
    fn on_event(&mut self, event: &StrategyEvent, ctx: &StrategyContext) -> (r: Vec<StrategyCommand>)
        ensures
            final(self).spec_strategy_id() == old(self).spec_strategy_id(),
    ;
}

/// A strategy that never does anything.
#[derive(Debug, Default)]
pub struct NullStrategy {
    pub id: StrategyId,
}

impl Strategy for NullStrategy {
    open spec fn spec_strategy_id(&self) -> StrategyId {
        self.id
    }

    fn id(&self) -> (r: StrategyId)
        ensures
            r == self.id,
    {
        self.id
    }

    fn name(&self) -> (r: &str)
        ensures
            r@ == "null"@,
    {
        "null"
    }

    fn on_event(&mut self, event: &StrategyEvent, ctx: &StrategyContext) -> (r: Vec<StrategyCommand>)
        ensures
            r@ == Seq::<StrategyCommand>::empty(),
            *final(self) == *old(self),
    {
        Vec::new()
    }
}

/// The signed position a snapshot lists for `symbol` (the first line for it), or zero.
pub open spec fn snapshot_position(lines: Seq<crate::portfolio::PositionSnapshot>, symbol: Seq<char>) -> int
    decreases lines.len(),
{
    if lines.len() == 0 {
        0
    } else if lines[0].symbol@ == symbol {
        lines[0].qty as int
    } else {
        snapshot_position(lines.drop_first(), symbol)
    }
}

/// The position the context's portfolio snapshot lists for `symbol`.
pub fn context_position(ctx: &StrategyContext, symbol: &Symbol) -> (r: i64)
    ensures
        r == snapshot_position(ctx.portfolio.positions@, symbol@),
{
    let lines = &ctx.portfolio.positions;
    let mut i: usize = 0;
    proof {
        assert(lines@.skip(0) =~= lines@);
    }
    while i < lines.len()
        invariant
            0 <= i <= lines@.len(),
            lines@ == ctx.portfolio.positions@,
            snapshot_position(lines@, symbol@) == snapshot_position(lines@.skip(i as int), symbol@),
        decreases lines@.len() - i,
    {
        proof {
            assert(lines@.skip(i as int)[0] == lines@[i as int]);
            assert(lines@.skip(i as int).drop_first() =~= lines@.skip(i as int + 1));
        }
        if lines[i].symbol.same_as(symbol) {
            proof {
                let t = lines@.skip(i as int);
                assert(t.len() > 0 && t[0].symbol@ == symbol@);
                assert(snapshot_position(t, symbol@) == t[0].qty as int);
            }
            return lines[i].qty;
        }
        i = i + 1;
    }
    0
}

} // verus!
