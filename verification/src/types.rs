//! Core domain types: symbols, integer price ticks, quantities, sides and orders.
use vstd::prelude::*;

verus! {

pub type OrderId = u64;

pub type StrategyId = u64;

pub type SequenceNumber = u64;

pub type TimestampNanos = u64;

/// Instrument symbol.
#[derive(Debug, Clone, PartialEq, Eq, Hash)]
pub struct Symbol(pub String);

impl View for Symbol {
    type V = Seq<char>;

    open spec fn view(&self) -> Seq<char> {
        self.0@
    }
}

impl Symbol {
    /// Build a symbol from text.
    pub fn from_text(s: &str) -> (r: Symbol)
        ensures
            r@ == s@,
    {
        Symbol(s.to_owned())
    }

    /// Symbol equality by text.
    pub fn same_as(&self, other: &Symbol) -> (r: bool)
        ensures
            r == (self@ == other@),
    {
        self.0 == other.0
    }

    /// A copy of this symbol.
    pub fn duplicate(&self) -> (r: Symbol)
        ensures
            r == *self,
            r@ == self@,
    {
        Symbol(self.0.clone())
    }
}

/// Price in signed integer ticks.
#[derive(Debug, Clone, Copy, PartialEq, Eq, PartialOrd, Ord, Hash, Structural)]
pub struct PriceTicks(pub i64);

/// Quantity in integer units.
#[derive(Debug, Clone, Copy, PartialEq, Eq, PartialOrd, Ord, Hash, Structural)]
pub struct Qty(pub u64);

#[derive(Debug, Clone, Copy, PartialEq, Eq, Hash, Structural)]
pub enum Side {
    Buy,
    Sell,
}

impl Side {
    /// The side that trades against this one.
    pub fn opposite(self) -> (r: Side)
        ensures
            r == spec_opposite(self),
    {
        match self {
            Side::Buy => Side::Sell,
            Side::Sell => Side::Buy,
        }
    }
}

pub open spec fn spec_opposite(side: Side) -> Side {
    match side {
        Side::Buy => Side::Sell,
        Side::Sell => Side::Buy,
    }
}

#[derive(Debug, Clone, Copy, PartialEq, Eq, Hash, Structural)]
pub enum OrderType {
    Market,
    Limit,
}

#[derive(Debug, Clone, PartialEq, Eq)]
pub struct Order {
    pub order_id: OrderId,
    pub symbol: Symbol,
    pub side: Side,
    pub order_type: OrderType,
    pub price: Option<PriceTicks>,
    pub qty: Qty,
    pub timestamp_ns: TimestampNanos,
    pub strategy_id: Option<StrategyId>,
}

impl Order {
    /// A field-for-field copy of this order.
    pub fn duplicate(&self) -> (r: Order)
        ensures
            r == *self,
    {
        Order {
            order_id: self.order_id,
            symbol: self.symbol.duplicate(),
            side: self.side,
            order_type: self.order_type,
            price: self.price,
            qty: self.qty,
            timestamp_ns: self.timestamp_ns,
            strategy_id: self.strategy_id,
        }
    }
}

} // verus!
