//! The matching rules as functions on book values: price-time priority sweeps,
//! execution reports, trades, and the outcome of each input event.
use vstd::prelude::*;

use crate::book::model::{flatten, ids_of, ladder_add, ladder_pop_front, ladder_remove_at, ladder_set_front_qty, locate, LevelView};
use crate::book::order_book::{validate_on, BookError, RestingOrder};
use crate::events::{ExecutionReport, InputEvent, RejectReason, Trade};
use crate::types::{spec_opposite, Order, OrderId, OrderType, PriceTicks, Qty, Side, Symbol, TimestampNanos};

verus! {

/// One execution: the resting order as it was before the fill, and the fill quantity.
pub type FillView = (RestingOrder, u64);

/// State of a matching engine as values.
pub struct EngineModel {
    pub bids: Seq<LevelView>,
    pub asks: Seq<LevelView>,
    pub filled: Set<OrderId>,
    pub cancelled: Set<OrderId>,
    pub expired: Set<OrderId>,
}

/// Result of processing one input: next state, reports and trades in emission order.
pub struct Outcome {
    pub state: EngineModel,
    pub reports: Seq<ExecutionReport>,
    pub trades: Seq<Trade>,
}

pub open spec fn ladder_of(m: EngineModel, side: Side) -> Seq<LevelView> {
    match side {
        Side::Buy => m.bids,
        Side::Sell => m.asks,
    }
}

pub open spec fn with_ladder(m: EngineModel, side: Side, l: Seq<LevelView>) -> EngineModel {
    match side {
        Side::Buy => EngineModel { bids: l, ..m },
        Side::Sell => EngineModel { asks: l, ..m },
    }
}

/// An order with this ID rests somewhere in the book.
pub open spec fn model_rests(m: EngineModel, id: OrderId) -> bool {
    ids_of(flatten(m.bids) + flatten(m.asks)).contains(id)
}

/// An incoming order on `side` with optional limit `limit` may trade at `opposite_price`.
pub open spec fn crosses(side: Side, limit: Option<i64>, opposite_price: i64) -> bool {
    match limit {
        None => true,
        Some(l) => match side {
            Side::Buy => l >= opposite_price,
            Side::Sell => l <= opposite_price,
        },
    }
}

/// Trade `rem` units of an incoming order on `side` against the opposite ladder `opp`,
/// best price first and oldest first within a price, at each resting order's price,
/// while the limit allows. Returns the remaining ladder and the fills in order.
pub open spec fn sweep(opp: Seq<LevelView>, side: Side, rem: u64, limit: Option<i64>) -> (Seq<LevelView>, Seq<FillView>)
    decreases rem,
{
    if rem == 0 || opp.len() == 0 || opp[0].1.len() == 0 || !crosses(side, limit, opp[0].0 .0) {
        (opp, Seq::empty())
    } else {
        let o = opp[0].1[0];
        let f: u64 = if rem < o.qty.0 { rem } else { o.qty.0 };
        if f == 0 {
            (opp, Seq::empty())
        } else {
            let next = if f == o.qty.0 {
                ladder_pop_front(opp)
            } else {
                ladder_set_front_qty(opp, (o.qty.0 - f) as u64)
            };
            let rest = sweep(next, side, (rem - f) as u64, limit);
            (rest.0, seq![(o, f)] + rest.1)
        }
    }
}

/// Total quantity of a sequence of fills.
pub open spec fn fill_total(fills: Seq<FillView>) -> nat
    decreases fills.len(),
{
    if fills.len() == 0 {
        0
    } else {
        fill_total(fills.drop_last()) + (fills.last().1 as nat)
    }
}

/// Report for one fill of `order_id` leaving `remaining` units.
pub open spec fn fill_report(order_id: OrderId, f: u64, remaining: u64, price: PriceTicks) -> ExecutionReport {
    if remaining == 0 {
        ExecutionReport::Filled { order_id, qty: Qty(f), price }
    } else {
        ExecutionReport::PartiallyFilled { order_id, qty: Qty(f), remaining: Qty(remaining), price }
    }
}

/// Fill reports of an incoming order of quantity `qty`, in fill order.
pub open spec fn fill_reports(order_id: OrderId, qty: u64, fills: Seq<FillView>) -> Seq<ExecutionReport>
    decreases fills.len(),
{
    if fills.len() == 0 {
        Seq::empty()
    } else {
        fill_reports(order_id, qty, fills.drop_last()).push(
            fill_report(order_id, fills.last().1, (qty - fill_total(fills)) as u64, fills.last().0.price),
        )
    }
}

/// The trade for one fill.
pub open spec fn fill_trade(symbol: Symbol, taker: OrderId, side: Side, ts: TimestampNanos, f: FillView) -> Trade {
    Trade {
        symbol,
        taker_order_id: taker,
        maker_order_id: f.0.order_id,
        price: f.0.price,
        qty: Qty(f.1),
        aggressor_side: side,
        timestamp_ns: ts,
    }
}

pub open spec fn fill_trades(symbol: Symbol, taker: OrderId, side: Side, ts: TimestampNanos, fills: Seq<FillView>) -> Seq<Trade> {
    fills.map_values(|f: FillView| fill_trade(symbol, taker, side, ts, f))
}

/// Resting orders that a sequence of fills consumed completely.
pub open spec fn makers_done(fills: Seq<FillView>) -> Set<OrderId>
    decreases fills.len(),
{
    if fills.len() == 0 {
        Set::empty()
    } else if fills.last().1 == fills.last().0.qty.0 {
        makers_done(fills.drop_last()).insert(fills.last().0.order_id)
    } else {
        makers_done(fills.drop_last())
    }
}

pub open spec fn reject(m: EngineModel, order_id: OrderId, reason: RejectReason) -> Outcome {
    Outcome { state: m, reports: seq![ExecutionReport::Rejected { order_id, reason }], trades: Seq::empty() }
}

/// The reject reason for a book validation error.
pub open spec fn reason_for_book_error(e: BookError, legacy: bool) -> RejectReason {
    match e {
        BookError::InvalidQuantity(_) | BookError::QuantityOverflow(_) => RejectReason::InvalidQuantity,
        BookError::MissingPrice(_) | BookError::InvalidPrice(_) => RejectReason::InvalidPrice,
        BookError::NotLimitOrder(_) => if legacy {
            RejectReason::InvalidOrder
        } else {
            RejectReason::MarketOrderWouldNotFill
        },
        BookError::UnknownOrder(_) => RejectReason::UnknownOrder,
        BookError::DuplicateOrderId(_) | BookError::SymbolMismatch { .. } => RejectReason::InvalidOrder,
    }
}

/// A limit order with its quantity replaced.
pub open spec fn resting_with(order: Order, price: PriceTicks, q: u64) -> RestingOrder {
    RestingOrder {
        order_id: order.order_id,
        side: order.side,
        price,
        qty: Qty(q),
        timestamp_ns: order.timestamp_ns,
        strategy_id: order.strategy_id,
    }
}

/// Reject an ID already finished as filled, cancelled or expired.
pub open spec fn finished_reason(m: EngineModel, id: OrderId) -> Option<RejectReason> {
    if m.filled.contains(id) {
        Some(RejectReason::AlreadyFilled)
    } else if m.cancelled.contains(id) {
        Some(RejectReason::AlreadyCancelled)
    } else if m.expired.contains(id) {
        Some(RejectReason::AlreadyExpired)
    } else {
        None
    }
}

/// A limit order: reject, or accept, sweep while the price crosses, and rest any remainder.
pub open spec fn spec_limit(m: EngineModel, symbol: Symbol, order: Order, legacy: bool, ts: TimestampNanos) -> Outcome {
    let id = order.order_id;
    match finished_reason(m, id) {
        Some(reason) => reject(m, id, reason),
        None => match validate_on(m.bids, m.asks, symbol, order) {
            Err(e) => reject(m, id, reason_for_book_error(e, legacy)),
            Ok(p) => {
                let side = order.side;
                let opp_side = spec_opposite(side);
                let sw = sweep(ladder_of(m, opp_side), side, order.qty.0, Some(p.0));
                let rem = (order.qty.0 - fill_total(sw.1)) as u64;
                let m1 = with_ladder(m, opp_side, sw.0);
                let m2 = EngineModel { filled: m.filled.union(makers_done(sw.1)), ..m1 };
                let accepted = seq![ExecutionReport::Accepted { order_id: id }] + fill_reports(id, order.qty.0, sw.1);
                let trades = fill_trades(symbol, id, side, ts, sw.1);
                if rem != 0 {
                    Outcome {
                        state: with_ladder(m2, side, ladder_add(ladder_of(m, side), side, resting_with(order, p, rem))),
                        reports: accepted.push(ExecutionReport::Rested { order_id: id, remaining: Qty(rem) }),
                        trades,
                    }
                } else {
                    Outcome { state: EngineModel { filled: m2.filled.insert(id), ..m2 }, reports: accepted, trades }
                }
            },
        },
    }
}

/// A market order: reject, or accept, sweep the opposite side, and expire any remainder.
pub open spec fn spec_market(m: EngineModel, symbol: Symbol, order: Order, ts: TimestampNanos) -> Outcome {
    let id = order.order_id;
    let side = order.side;
    let opp_side = spec_opposite(side);
    match finished_reason(m, id) {
        Some(reason) => reject(m, id, reason),
        None => if model_rests(m, id) || order.symbol@ != symbol@ {
            reject(m, id, RejectReason::InvalidOrder)
        } else if order.price is Some {
            reject(m, id, RejectReason::InvalidPrice)
        } else if ladder_of(m, opp_side).len() == 0 {
            if ladder_of(m, side).len() == 0 {
                reject(m, id, RejectReason::EmptyBook)
            } else {
                reject(m, id, RejectReason::MarketOrderWouldNotFill)
            }
        } else {
            let sw = sweep(ladder_of(m, opp_side), side, order.qty.0, None);
            let rem = (order.qty.0 - fill_total(sw.1)) as u64;
            let m1 = with_ladder(m, opp_side, sw.0);
            let m2 = EngineModel { filled: m.filled.union(makers_done(sw.1)), ..m1 };
            let accepted = seq![ExecutionReport::Accepted { order_id: id }] + fill_reports(id, order.qty.0, sw.1);
            let trades = fill_trades(symbol, id, side, ts, sw.1);
            if rem != 0 {
                Outcome {
                    state: EngineModel { expired: m2.expired.insert(id), ..m2 },
                    reports: accepted.push(ExecutionReport::Expired { order_id: id, remaining: Qty(rem) }),
                    trades,
                }
            } else {
                Outcome { state: EngineModel { filled: m2.filled.insert(id), ..m2 }, reports: accepted, trades }
            }
        },
    }
}

/// A new order from the input stream: zero quantity is rejected first, then market or limit rules apply.
pub open spec fn spec_new_order(m: EngineModel, symbol: Symbol, order: Order, ts: TimestampNanos) -> Outcome {
    if order.qty.0 == 0 {
        reject(m, order.order_id, RejectReason::InvalidQuantity)
    } else if order.order_type == OrderType::Market {
        spec_market(m, symbol, order, ts)
    } else {
        spec_limit(m, symbol, order, false, ts)
    }
}

/// The side whose ladder holds this ID (bids if it rests there, otherwise asks).
pub open spec fn resting_side(m: EngineModel, id: OrderId) -> Side {
    if ids_of(flatten(m.bids)).contains(id) {
        Side::Buy
    } else {
        Side::Sell
    }
}

/// A cancel: reject finished IDs, then any ID when the book is empty, then unknown IDs;
/// otherwise remove the order and record it as cancelled.
pub open spec fn spec_cancel(m: EngineModel, symbol: Symbol, id: OrderId, cancel_symbol: Symbol) -> Outcome {
    match finished_reason(m, id) {
        Some(reason) => reject(m, id, reason),
        None => if m.bids.len() == 0 && m.asks.len() == 0 {
            reject(m, id, RejectReason::EmptyBook)
        } else if symbol@ != cancel_symbol@ || !model_rests(m, id) {
            reject(m, id, RejectReason::UnknownOrder)
        } else {
            let s = resting_side(m, id);
            let l = ladder_of(m, s);
            let (i, j) = locate(l, id);
            let m1 = with_ladder(m, s, ladder_remove_at(l, i, j));
            Outcome {
                state: EngineModel { cancelled: m.cancelled.insert(id), ..m1 },
                reports: seq![ExecutionReport::Cancelled { order_id: id }],
                trades: Seq::empty(),
            }
        },
    }
}

pub open spec fn spec_event(m: EngineModel, symbol: Symbol, event: InputEvent, ts: TimestampNanos) -> Outcome {
    match event {
        InputEvent::NewOrder(e) => spec_new_order(m, symbol, e.order, ts),
        InputEvent::Cancel(c) => spec_cancel(m, symbol, c.order_id, c.symbol),
    }
}

} // verus!
