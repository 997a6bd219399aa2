//! Conversion of paper market-data messages into runtime events.
use vstd::prelude::*;

use crate::runtime::RuntimeEvent;
use crate::types::{Order, OrderType, PriceTicks, Qty, Side, Symbol};

use super::PaperMdMessage;

verus! {

#[derive(Debug, Clone, Copy, PartialEq, Eq, Structural)]
pub enum PaperConvertError {
    InvalidQuote,
    InvalidQuantity,
    InvalidPrice,
    NotAnEvent,
}

/// `a * 2`, or `u64::MAX` when that overflows.
pub open spec fn double_saturating(a: u64) -> u64 {
    if a * 2 > u64::MAX {
        u64::MAX
    } else {
        (a * 2) as u64
    }
}

/// `a + 1`, or `u64::MAX` when that overflows.
pub open spec fn succ_saturating(a: u64) -> u64 {
    if a == u64::MAX {
        u64::MAX
    } else {
        (a + 1) as u64
    }
}

/// A limit order built from paper message fields.
pub open spec fn paper_order(
    order_id: u64,
    symbol: String,
    side: Side,
    order_type: OrderType,
    price: Option<PriceTicks>,
    qty: u64,
    ts_ns: u64,
) -> Order {
    Order {
        order_id,
        symbol: Symbol(symbol),
        side,
        order_type,
        price,
        qty: Qty(qty),
        timestamp_ns: ts_ns,
        strategy_id: None,
    }
}

/// The events a message stands for: a quote is a bid then an ask limit order with IDs
/// `2 * seq` and `2 * seq + 1` (saturating); an order needs a positive quantity and, when
/// priced (always for a limit order), a non-negative price.
pub open spec fn spec_convert(msg: PaperMdMessage) -> Result<Seq<RuntimeEvent>, PaperConvertError> {
    match msg {
        PaperMdMessage::Heartbeat { .. } => Err(PaperConvertError::NotAnEvent),
        PaperMdMessage::Disconnect { .. } => Err(PaperConvertError::NotAnEvent),
        PaperMdMessage::Timer { seq, ts_ns, symbol } => Ok(
            seq![RuntimeEvent::Timer {
                seq,
                ts_ns,
                symbol: match symbol {
                    Some(s) => Some(Symbol(s)),
                    None => None,
                },
            }],
        ),
        PaperMdMessage::PaperCancel { seq, ts_ns, order_id, symbol } => Ok(
            seq![RuntimeEvent::Cancel { seq, ts_ns, order_id, symbol: Symbol(symbol) }],
        ),
        PaperMdMessage::PaperOrder { seq, ts_ns, order_id, symbol, side, order_type, price, qty } => {
            if qty == 0 {
                Err(PaperConvertError::InvalidQuantity)
            } else if order_type == OrderType::Limit && !(price is Some && price->0 >= 0) {
                Err(PaperConvertError::InvalidPrice)
            } else if price is Some && price->0 < 0 {
                Err(PaperConvertError::InvalidPrice)
            } else {
                let p = match price {
                    Some(x) => Some(PriceTicks(x)),
                    None => None,
                };
                Ok(
                    seq![RuntimeEvent::NewOrder {
                        seq,
                        ts_ns,
                        order: paper_order(order_id, symbol, side, order_type, p, qty, ts_ns),
                    }],
                )
            }
        },
        PaperMdMessage::Quote { seq, ts_ns, symbol, bid_px, bid_qty, ask_px, ask_qty } => {
            if bid_qty == 0 || ask_qty == 0 || bid_px < 0 || ask_px < 0 || bid_px >= ask_px {
                Err(PaperConvertError::InvalidQuote)
            } else {
                let bid_id = double_saturating(seq);
                Ok(
                    seq![
                        RuntimeEvent::NewOrder {
                            seq,
                            ts_ns,
                            order: paper_order(
                                bid_id,
                                symbol,
                                Side::Buy,
                                OrderType::Limit,
                                Some(PriceTicks(bid_px)),
                                bid_qty,
                                ts_ns,
                            ),
                        },
                        RuntimeEvent::NewOrder {
                            seq: succ_saturating(seq),
                            ts_ns,
                            order: paper_order(
                                succ_saturating(bid_id),
                                symbol,
                                Side::Sell,
                                OrderType::Limit,
                                Some(PriceTicks(ask_px)),
                                ask_qty,
                                ts_ns,
                            ),
                        },
                    ],
                )
            }
        },
    }
}

/// A valid quote becomes a buy limit order at the bid for the bid's size, then a sell limit
/// order at the ask for the ask's size, both in the quoted symbol: each side's order carries
/// that side's price and size.
pub proof fn law_quote_sides(seq: u64, ts_ns: u64, symbol: String, bid_px: i64, bid_qty: u64, ask_px: i64, ask_qty: u64)
    requires
        bid_qty > 0,
        ask_qty > 0,
        0 <= bid_px < ask_px,
    ensures
        ({
            let r = spec_convert(PaperMdMessage::Quote { seq, ts_ns, symbol, bid_px, bid_qty, ask_px, ask_qty });
            &&& r is Ok
            &&& r->Ok_0.len() == 2
            &&& r->Ok_0[0] matches RuntimeEvent::NewOrder { order: b, .. } && b.side == Side::Buy && b.order_type
                == OrderType::Limit && b.price == Some(PriceTicks(bid_px)) && b.qty == Qty(bid_qty) && b.symbol == Symbol(symbol)
            &&& r->Ok_0[1] matches RuntimeEvent::NewOrder { order: a, .. } && a.side == Side::Sell && a.order_type
                == OrderType::Limit && a.price == Some(PriceTicks(ask_px)) && a.qty == Qty(ask_qty) && a.symbol == Symbol(symbol)
        }),
{
}

/// A quote's two orders get distinct IDs, the ask's right after the bid's, and the ask's
/// event comes right after the bid's in sequence, while neither saturates.
pub proof fn law_quote_ids(seq: u64, ts_ns: u64, symbol: String, bid_px: i64, bid_qty: u64, ask_px: i64, ask_qty: u64)
    requires
        bid_qty > 0,
        ask_qty > 0,
        0 <= bid_px < ask_px,
        seq < u64::MAX / 2,
    ensures
        ({
            let r = spec_convert(PaperMdMessage::Quote { seq, ts_ns, symbol, bid_px, bid_qty, ask_px, ask_qty });
            &&& r->Ok_0[0] matches RuntimeEvent::NewOrder { seq: s0, order: b, .. } && r->Ok_0[1] matches RuntimeEvent::NewOrder {
                seq: s1,
                order: a,
                ..
            } && a.order_id == b.order_id + 1 && b.order_id == 2 * seq && s0 == seq && s1 == seq + 1
        }),
{
}

/// A valid paper order becomes one order with the message's ID, symbol, side, type, size
/// and price; it is refused exactly when its size is zero, a limit order has no price, or
/// a given price is negative.
pub proof fn law_paper_order_kept(
    seq: u64,
    ts_ns: u64,
    order_id: u64,
    symbol: String,
    side: Side,
    order_type: OrderType,
    price: Option<i64>,
    qty: u64,
)
    ensures
        ({
            let r = spec_convert(PaperMdMessage::PaperOrder { seq, ts_ns, order_id, symbol, side, order_type, price, qty });
            &&& r is Err <==> (qty == 0 || (order_type == OrderType::Limit && price is None) || (price is Some && price->0 < 0))
            &&& r is Ok ==> r->Ok_0.len() == 1
            &&& r is Ok ==> (r->Ok_0[0] matches RuntimeEvent::NewOrder { order: o, .. } && o.order_id
                == order_id && o.symbol == Symbol(symbol) && o.side == side && o.order_type == order_type && o.qty == Qty(qty)
                && o.price == (match price {
                Some(x) => Some(PriceTicks(x)),
                None => None,
            }))
        }),
{
}

/// Convert a paper message into zero or more runtime events.
pub fn paper_message_to_runtime_event(msg: &PaperMdMessage) -> (r: Result<Vec<RuntimeEvent>, PaperConvertError>)
    ensures
        match spec_convert(*msg) {
            Ok(events) => r matches Ok(v) && v@ == events,
            Err(e) => r == Err::<Vec<RuntimeEvent>, PaperConvertError>(e),
        },
{
    match msg {
        PaperMdMessage::Heartbeat { .. } | PaperMdMessage::Disconnect { .. } => Err(PaperConvertError::NotAnEvent),
        PaperMdMessage::Timer { seq, ts_ns, symbol } => {
            let s = match symbol {
                Some(s) => Some(Symbol(s.clone())),
                None => None,
            };
            let v = vec![RuntimeEvent::Timer { seq: *seq, ts_ns: *ts_ns, symbol: s }];
            Ok(v)
        },
        PaperMdMessage::PaperCancel { seq, ts_ns, order_id, symbol } => {
            let v = vec![RuntimeEvent::Cancel { seq: *seq, ts_ns: *ts_ns, order_id: *order_id, symbol: Symbol(symbol.clone()) }];
            Ok(v)
        },
        PaperMdMessage::PaperOrder { seq, ts_ns, order_id, symbol, side, order_type, price, qty } => {
            if *qty == 0 {
                return Err(PaperConvertError::InvalidQuantity);
            }
            let price_ticks = match order_type {
                OrderType::Limit => match price {
                    Some(p) => {
                        if *p >= 0 {
                            Some(PriceTicks(*p))
                        } else {
                            return Err(PaperConvertError::InvalidPrice);
                        }
                    },
                    None => return Err(PaperConvertError::InvalidPrice),
                },
                OrderType::Market => match price {
                    Some(p) => {
                        if *p >= 0 {
                            Some(PriceTicks(*p))
                        } else {
                            return Err(PaperConvertError::InvalidPrice);
                        }
                    },
                    None => None,
                },
            };
            let order = Order {
                order_id: *order_id,
                symbol: Symbol(symbol.clone()),
                side: *side,
                order_type: *order_type,
                price: price_ticks,
                qty: Qty(*qty),
                timestamp_ns: *ts_ns,
                strategy_id: None,
            };
            let v = vec![RuntimeEvent::NewOrder { seq: *seq, ts_ns: *ts_ns, order }];
            Ok(v)
        },
        PaperMdMessage::Quote { seq, ts_ns, symbol, bid_px, bid_qty, ask_px, ask_qty } => {
            if *bid_qty == 0 || *ask_qty == 0 || *bid_px < 0 || *ask_px < 0 || *bid_px >= *ask_px {
                return Err(PaperConvertError::InvalidQuote);
            }
            let bid_id: u64 = if *seq > u64::MAX / 2 { u64::MAX } else { *seq * 2 };
            let ask_id = bid_id.saturating_add(1);
            let bid = Order {
                order_id: bid_id,
                symbol: Symbol(symbol.clone()),
                side: Side::Buy,
                order_type: OrderType::Limit,
                price: Some(PriceTicks(*bid_px)),
                qty: Qty(*bid_qty),
                timestamp_ns: *ts_ns,
                strategy_id: None,
            };
            let ask = Order {
                order_id: ask_id,
                symbol: Symbol(symbol.clone()),
                side: Side::Sell,
                order_type: OrderType::Limit,
                price: Some(PriceTicks(*ask_px)),
                qty: Qty(*ask_qty),
                timestamp_ns: *ts_ns,
                strategy_id: None,
            };
            let v = vec![
                RuntimeEvent::NewOrder { seq: *seq, ts_ns: *ts_ns, order: bid },
                RuntimeEvent::NewOrder { seq: seq.saturating_add(1), ts_ns: *ts_ns, order: ask },
            ];
            Ok(v)
        },
    }
}

} // verus!
