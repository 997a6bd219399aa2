//! The synthetic single-symbol workload the measurement harness replays: mostly small
//! limit orders around a price of 100, with a cancel every tenth event.
use vstd::prelude::*;

use crate::events::{CancelOrderEvent, InputEvent, NewOrderEvent};
use crate::types::{Order, OrderType, PriceTicks, Qty, Side, Symbol};

verus! {

/// Whether `e` is the workload's event at (0-based) position `i`: every tenth event
/// (positions 9, 19, ...) cancels the order placed five positions earlier; every other is a
/// limit order with ID `i + 1`, buying at even positions and selling at odd ones, priced
/// from 90 to 109 as `i` cycles through twenty, for 1 to 3 as it cycles through three.
/// Sequence numbers and timestamps are `i + 1`; the symbol is `AAPL`.
pub open spec fn workload_event(e: InputEvent, i: int) -> bool {
    if i % 10 == 9 {
        &&& e matches InputEvent::Cancel(c)
        &&& c.seq == i + 1
        &&& c.order_id == i - 5 + 1
        &&& c.symbol@ == "AAPL"@
        &&& c.timestamp_ns == i + 1
    } else {
        &&& e matches InputEvent::NewOrder(n)
        &&& n.seq == i + 1
        &&& n.order.order_id == i + 1
        &&& n.order.symbol@ == "AAPL"@
        &&& n.order.side == (if i % 2 == 0 { Side::Buy } else { Side::Sell })
        &&& n.order.order_type == OrderType::Limit
        &&& n.order.price == Some(PriceTicks((90 + i % 20) as i64))
        &&& n.order.qty == Qty((1 + i % 3) as u64)
        &&& n.order.timestamp_ns == i + 1
        &&& n.order.strategy_id is None
    }
}

/// The first `n` events of the workload.
pub fn synthetic_workload(n: u64) -> (r: Vec<InputEvent>)
    ensures
        r@.len() == n,
        forall|i: int| 0 <= i < n ==> workload_event(#[trigger] r@[i], i),
{
    let mut events: Vec<InputEvent> = Vec::new();
    let mut i: u64 = 0;
    while i < n
        invariant
            0 <= i <= n,
            events@.len() == i,
            forall|k: int| 0 <= k < i ==> workload_event(#[trigger] events@[k], k),
        decreases n - i,
    {
        let symbol = Symbol::from_text("AAPL");
        if i % 10 == 9 {
            let target = if i >= 5 { i - 5 } else { 0 };
            events.push(InputEvent::Cancel(CancelOrderEvent { seq: i + 1, order_id: target + 1, symbol, timestamp_ns: i + 1 }));
        } else {
            let side = if i % 2 == 0 { Side::Buy } else { Side::Sell };
            let px: i64 = 90 + (i % 20) as i64;
            let order = Order {
                order_id: i + 1,
                symbol,
                side,
                order_type: OrderType::Limit,
                price: Some(PriceTicks(px)),
                qty: Qty(1 + i % 3),
                timestamp_ns: i + 1,
                strategy_id: None,
            };
            events.push(InputEvent::NewOrder(NewOrderEvent { seq: i + 1, order }));
        }
        i = i + 1;
    }
    events
}

} // verus!
