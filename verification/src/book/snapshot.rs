//! Copied, read-only views of the book by price level.
use vstd::prelude::*;

use crate::types::{OrderId, PriceTicks, Qty, Symbol};

verus! {

#[derive(Debug, Clone, PartialEq, Eq)]
pub struct BookSnapshot {
    pub symbol: Symbol,
    pub bids: Vec<PriceLevelSnapshot>,
    pub asks: Vec<PriceLevelSnapshot>,
}

#[derive(Debug, Clone, PartialEq, Eq)]
pub struct PriceLevelSnapshot {
    pub price: PriceTicks,
    pub total_qty: Qty,
    pub order_count: usize,
    pub order_ids: Vec<OrderId>,
}

} // verus!
