//! Properties of the matching rules that hold for every book and every input.
use vstd::prelude::*;

use crate::book::model::{flatten, ids_of, ladder_pop_front, ladder_set_front_qty, ladder_wf, lemma_pop_front, lemma_qty_sum_drop_first, lemma_qty_sum_update, lemma_set_front_qty, qty_sum, LevelView};
use crate::events::{ExecutionReport, InputEvent, RejectReason, Trade};
use crate::types::{spec_opposite, Order, OrderId, OrderType, Side, Symbol, TimestampNanos};

use super::model::{
    crosses, fill_report, fill_reports, fill_total, finished_reason, ladder_of, model_rests, reject, spec_cancel, spec_event, spec_limit,
    spec_market, spec_new_order, sweep, EngineModel, FillView,
};

verus! {

broadcast use vstd::seq_lib::group_seq_properties;

/// The total of a fill followed by more fills.
pub proof fn lemma_fill_total_cons(x: FillView, s: Seq<FillView>)
    ensures
        fill_total(seq![x] + s) == x.1 + fill_total(s),
    decreases s.len(),
{
    if s.len() == 0 {
        assert(seq![x] + s =~= seq![x]);
        assert(seq![x].drop_last() =~= Seq::<FillView>::empty());
    } else {
        lemma_fill_total_cons(x, s.drop_last());
        assert((seq![x] + s).drop_last() =~= seq![x] + s.drop_last());
    }
}

/// An incoming order never trades more than its quantity; every fill is for a positive
/// quantity, at a price its limit allows.
pub proof fn law_sweep_within_quantity_and_limit(opp: Seq<LevelView>, side: Side, rem: u64, limit: Option<i64>)
    requires
        ladder_wf(opp, spec_opposite(side)),
    ensures
        ({
            let fills = sweep(opp, side, rem, limit).1;
            &&& fill_total(fills) <= rem
            &&& forall|i: int| 0 <= i < fills.len() ==> (#[trigger] fills[i]).1 > 0 && crosses(side, limit, fills[i].0.price.0)
        }),
    decreases rem,
{
    if rem == 0 || opp.len() == 0 || opp[0].1.len() == 0 || !crosses(side, limit, opp[0].0 .0) {
    } else {
        let o = opp[0].1[0];
        let f: u64 = if rem < o.qty.0 { rem } else { o.qty.0 };
        if f != 0 {
            let next = if f == o.qty.0 { ladder_pop_front(opp) } else { ladder_set_front_qty(opp, (o.qty.0 - f) as u64) };
            assert(crate::book::model::level_wf(opp[0], spec_opposite(side)));
            if f == o.qty.0 {
                lemma_pop_front(opp, spec_opposite(side));
            } else {
                lemma_set_front_qty(opp, spec_opposite(side), (o.qty.0 - f) as u64);
            }
            law_sweep_within_quantity_and_limit(next, side, (rem - f) as u64, limit);
            let rest = sweep(next, side, (rem - f) as u64, limit);
            lemma_fill_total_cons((o, f), rest.1);
            let fills = sweep(opp, side, rem, limit).1;
            assert(fills == seq![(o, f)] + rest.1);
            assert forall|i: int| 0 <= i < fills.len() implies (#[trigger] fills[i]).1 > 0 && crosses(side, limit, fills[i].0.price.0) by {
                if i > 0 {
                    assert(fills[i] == rest.1[i - 1]);
                }
            }
        }
    }
}

/// Quantity is conserved: what leaves the opposite side is exactly what was traded.
pub proof fn law_sweep_conserves_quantity(opp: Seq<LevelView>, side: Side, rem: u64, limit: Option<i64>)
    requires
        ladder_wf(opp, spec_opposite(side)),
    ensures
        ({
            let sw = sweep(opp, side, rem, limit);
            qty_sum(flatten(opp)) == qty_sum(flatten(sw.0)) + fill_total(sw.1)
        }),
    decreases rem,
{
    if rem == 0 || opp.len() == 0 || opp[0].1.len() == 0 || !crosses(side, limit, opp[0].0 .0) {
        assert(fill_total(Seq::<FillView>::empty()) == 0);
    } else {
        let o = opp[0].1[0];
        let f: u64 = if rem < o.qty.0 { rem } else { o.qty.0 };
        assert(crate::book::model::level_wf(opp[0], spec_opposite(side)));
        let next = if f == o.qty.0 { ladder_pop_front(opp) } else { ladder_set_front_qty(opp, (o.qty.0 - f) as u64) };
        lemma_pop_front(opp, spec_opposite(side));
        if f == o.qty.0 {
            lemma_qty_sum_drop_first(flatten(opp));
        } else {
            lemma_set_front_qty(opp, spec_opposite(side), (o.qty.0 - f) as u64);
            lemma_qty_sum_update(flatten(opp), 0, crate::book::order_book::RestingOrder { qty: crate::types::Qty((o.qty.0 - f) as u64), ..o });
        }
        law_sweep_conserves_quantity(next, side, (rem - f) as u64, limit);
        let rest = sweep(next, side, (rem - f) as u64, limit);
        lemma_fill_total_cons((o, f), rest.1);
    }
}

/// Price-time priority: the i-th fill trades against the i-th resting order in priority
/// order (best price first, oldest first within a price), and every fill but the last
/// consumes its resting order completely.
pub proof fn law_sweep_priority_order(opp: Seq<LevelView>, side: Side, rem: u64, limit: Option<i64>)
    requires
        ladder_wf(opp, spec_opposite(side)),
    ensures
        ({
            let fills = sweep(opp, side, rem, limit).1;
            &&& fills.len() <= flatten(opp).len()
            &&& forall|i: int| 0 <= i < fills.len() ==> (#[trigger] fills[i]).0 == flatten(opp)[i]
            &&& forall|i: int| 0 <= i < fills.len() - 1 ==> (#[trigger] fills[i]).1 == fills[i].0.qty.0
        }),
    decreases rem,
{
    if rem == 0 || opp.len() == 0 || opp[0].1.len() == 0 || !crosses(side, limit, opp[0].0 .0) {
    } else {
        let o = opp[0].1[0];
        let f: u64 = if rem < o.qty.0 { rem } else { o.qty.0 };
        assert(crate::book::model::level_wf(opp[0], spec_opposite(side)));
        let next = if f == o.qty.0 { ladder_pop_front(opp) } else { ladder_set_front_qty(opp, (o.qty.0 - f) as u64) };
        lemma_pop_front(opp, spec_opposite(side));
        if f != o.qty.0 {
            lemma_set_front_qty(opp, spec_opposite(side), (o.qty.0 - f) as u64);
        }
        law_sweep_priority_order(next, side, (rem - f) as u64, limit);
        let rest = sweep(next, side, (rem - f) as u64, limit);
        let fills = sweep(opp, side, rem, limit).1;
        assert(fills == seq![(o, f)] + rest.1);
        if f == o.qty.0 {
            assert forall|i: int| 0 <= i < fills.len() implies (#[trigger] fills[i]).0 == flatten(opp)[i] by {
                if i > 0 {
                    assert(fills[i] == rest.1[i - 1]);
                    assert(flatten(next)[i - 1] == flatten(opp)[i]);
                }
            }
            assert forall|i: int| 0 <= i < fills.len() - 1 implies (#[trigger] fills[i]).1 == fills[i].0.qty.0 by {
                if i > 0 {
                    assert(fills[i] == rest.1[i - 1]);
                }
            }
        } else {
            assert(rem - f == 0);
            assert(rest.1.len() == 0);
            assert(fills =~= seq![(o, f)]);
        }
    }
}

/// A sweep only removes or shrinks resting orders: every order ID left on the ladder was
/// there before.
pub proof fn lemma_sweep_keeps_ids(opp: Seq<LevelView>, side: Side, rem: u64, limit: Option<i64>, id: OrderId)
    requires
        ladder_wf(opp, spec_opposite(side)),
        ids_of(flatten(sweep(opp, side, rem, limit).0)).contains(id),
    ensures
        ids_of(flatten(opp)).contains(id),
    decreases rem,
{
    if rem == 0 || opp.len() == 0 || opp[0].1.len() == 0 || !crosses(side, limit, opp[0].0 .0) {
    } else {
        let o = opp[0].1[0];
        let f: u64 = if rem < o.qty.0 { rem } else { o.qty.0 };
        assert(crate::book::model::level_wf(opp[0], spec_opposite(side)));
        let next = if f == o.qty.0 { ladder_pop_front(opp) } else { ladder_set_front_qty(opp, (o.qty.0 - f) as u64) };
        lemma_pop_front(opp, spec_opposite(side));
        if f != o.qty.0 {
            lemma_set_front_qty(opp, spec_opposite(side), (o.qty.0 - f) as u64);
        }
        lemma_sweep_keeps_ids(next, side, (rem - f) as u64, limit, id);
        let k = choose|k: int| 0 <= k < ids_of(flatten(next)).len() && ids_of(flatten(next))[k] == id;
        if f == o.qty.0 {
            assert(ids_of(flatten(opp))[k + 1] == id);
        } else {
            assert(ids_of(flatten(opp))[k] == id);
        }
    }
}

/// A market order never rests: an ID that was not resting before a market order is not
/// resting after it, whatever the outcome.
pub proof fn law_market_orders_never_rest(m: EngineModel, symbol: Symbol, order: Order, ts: TimestampNanos)
    requires
        ladder_wf(m.bids, Side::Buy),
        ladder_wf(m.asks, Side::Sell),
        !model_rests(m, order.order_id),
    ensures
        !model_rests(spec_market(m, symbol, order, ts).state, order.order_id),
{
    let id = order.order_id;
    let side = order.side;
    let opp_side = spec_opposite(side);
    let out = spec_market(m, symbol, order, ts);
    if out.state != m {
        let opp = ladder_of(m, opp_side);
        assert(ladder_wf(opp, spec_opposite(side))) by {
            if side == Side::Buy {
                assert(opp == m.asks);
            } else {
                assert(opp == m.bids);
            }
        }
        let sw = sweep(opp, side, order.qty.0, None);
        let s = out.state;
        assert(ids_of(flatten(m.bids) + flatten(m.asks)) =~= ids_of(flatten(m.bids)) + ids_of(flatten(m.asks)));
        assert(ids_of(flatten(s.bids) + flatten(s.asks)) =~= ids_of(flatten(s.bids)) + ids_of(flatten(s.asks)));
        if ids_of(flatten(sw.0)).contains(id) {
            lemma_sweep_keeps_ids(opp, side, order.qty.0, None, id);
        }
        if side == Side::Buy {
            assert(s.bids == m.bids && s.asks == sw.0);
        } else {
            assert(s.asks == m.asks && s.bids == sw.0);
        }
    }
}

/// A rejected input leaves the engine state unchanged and produces no trades; every other
/// outcome is an acceptance or a cancellation.
pub proof fn law_rejection_changes_nothing(m: EngineModel, symbol: Symbol, event: InputEvent, ts: TimestampNanos)
    ensures
        ({
            let out = spec_event(m, symbol, event, ts);
            &&& out.reports.len() > 0
            &&& out.reports[0] is Rejected ==> out.state == m && out.trades.len() == 0 && out.reports.len() == 1
            &&& out.reports[0] is Accepted || out.reports[0] is Cancelled || out.reports[0] is Rejected
        }),
{
}

/// An ID that has finished (filled, cancelled or expired) is never accepted again.
pub proof fn law_finished_ids_are_not_reused(m: EngineModel, symbol: Symbol, order: Order, ts: TimestampNanos)
    requires
        order.qty.0 > 0,
        finished_reason(m, order.order_id) is Some,
    ensures
        spec_new_order(m, symbol, order, ts) == reject(m, order.order_id, finished_reason(m, order.order_id)->0),
{
}

/// Once an ID has finished it stays finished: every input only adds to the filled,
/// cancelled and expired sets.
pub proof fn law_finished_sets_only_grow(m: EngineModel, symbol: Symbol, event: InputEvent, ts: TimestampNanos)
    ensures
        ({
            let s = spec_event(m, symbol, event, ts).state;
            &&& m.filled.subset_of(s.filled)
            &&& m.cancelled.subset_of(s.cancelled)
            &&& m.expired.subset_of(s.expired)
        }),
{
}

/// A second cancel of an order that was just cancelled is rejected as already cancelled.
pub proof fn law_cancel_is_not_repeatable(m: EngineModel, symbol: Symbol, id: OrderId, cancel_symbol: Symbol)
    requires
        spec_cancel(m, symbol, id, cancel_symbol).reports == seq![ExecutionReport::Cancelled { order_id: id }],
    ensures
        ({
            let s = spec_cancel(m, symbol, id, cancel_symbol).state;
            spec_cancel(s, symbol, id, cancel_symbol) == reject(s, id, RejectReason::AlreadyCancelled)
        }),
{
    let out = spec_cancel(m, symbol, id, cancel_symbol);
    assert(out.reports[0] == ExecutionReport::Cancelled { order_id: id });
    assert(finished_reason(m, id) is None);
}

/// A report that carries a fill.
pub open spec fn is_fill(r: ExecutionReport) -> bool {
    r is Filled || r is PartiallyFilled
}

/// Number of fill reports in a sequence of reports.
pub open spec fn fill_count(reports: Seq<ExecutionReport>) -> nat
    decreases reports.len(),
{
    if reports.len() == 0 {
        0
    } else {
        fill_count(reports.drop_last()) + (if is_fill(reports.last()) { 1nat } else { 0nat })
    }
}

pub proof fn lemma_fill_count_concat(a: Seq<ExecutionReport>, b: Seq<ExecutionReport>)
    ensures
        fill_count(a + b) == fill_count(a) + fill_count(b),
    decreases b.len(),
{
    if b.len() == 0 {
        assert(a + b =~= a);
    } else {
        lemma_fill_count_concat(a, b.drop_last());
        assert((a + b).drop_last() =~= a + b.drop_last());
    }
}

proof fn lemma_fill_count_push(s: Seq<ExecutionReport>, r: ExecutionReport)
    ensures
        fill_count(s.push(r)) == fill_count(s) + (if is_fill(r) { 1nat } else { 0nat }),
{
    assert(s.push(r).drop_last() =~= s);
}

proof fn lemma_fill_count_single(r: ExecutionReport)
    ensures
        fill_count(seq![r]) == (if is_fill(r) { 1nat } else { 0nat }),
{
    assert(seq![r].drop_last() =~= Seq::<ExecutionReport>::empty());
    assert(fill_count(Seq::<ExecutionReport>::empty()) == 0);
}

proof fn lemma_fill_count_fill_reports(order_id: OrderId, qty: u64, fills: Seq<FillView>)
    ensures
        fill_count(super::model::fill_reports(order_id, qty, fills)) == fills.len(),
        super::model::fill_reports(order_id, qty, fills).len() == fills.len(),
    decreases fills.len(),
{
    if fills.len() > 0 {
        lemma_fill_count_fill_reports(order_id, qty, fills.drop_last());
        let prev = super::model::fill_reports(order_id, qty, fills.drop_last());
        let x = super::model::fill_report(order_id, fills.last().1, (qty - fill_total(fills)) as u64, fills.last().0.price);
        lemma_fill_count_push(prev, x);
    }
}

/// The reports of an accepted order: one fill report per fill, whatever follows them.
proof fn lemma_accepted_counts(id: OrderId, qty: u64, fills: Seq<FillView>)
    ensures
        ({
            let acc = seq![ExecutionReport::Accepted { order_id: id }] + super::model::fill_reports(id, qty, fills);
            &&& fill_count(acc) == fills.len()
            &&& forall|r: crate::types::Qty| #[trigger] fill_count(acc.push(ExecutionReport::Rested { order_id: id, remaining: r })) == fills.len()
            &&& forall|r: crate::types::Qty| #[trigger] fill_count(acc.push(ExecutionReport::Expired { order_id: id, remaining: r })) == fills.len()
        }),
{
    let head = seq![ExecutionReport::Accepted { order_id: id }];
    let body = super::model::fill_reports(id, qty, fills);
    lemma_fill_count_fill_reports(id, qty, fills);
    lemma_fill_count_single(ExecutionReport::Accepted { order_id: id });
    lemma_fill_count_concat(head, body);
    assert forall|r: crate::types::Qty| #[trigger] fill_count((head + body).push(ExecutionReport::Rested { order_id: id, remaining: r })) == fills.len() by {
        lemma_fill_count_push(head + body, ExecutionReport::Rested { order_id: id, remaining: r });
    }
    assert forall|r: crate::types::Qty| #[trigger] fill_count((head + body).push(ExecutionReport::Expired { order_id: id, remaining: r })) == fills.len() by {
        lemma_fill_count_push(head + body, ExecutionReport::Expired { order_id: id, remaining: r });
    }
}

/// Each input yields exactly one trade per fill report, in the same order.
pub proof fn law_one_trade_per_fill(m: EngineModel, symbol: Symbol, event: InputEvent, ts: TimestampNanos)
    ensures
        ({
            let out = spec_event(m, symbol, event, ts);
            fill_count(out.reports) == out.trades.len()
        }),
{
    let id = match event {
        InputEvent::NewOrder(e) => e.order.order_id,
        InputEvent::Cancel(c) => c.order_id,
    };
    assert forall|reason: RejectReason| fill_count(#[trigger] seq![ExecutionReport::Rejected { order_id: id, reason }]) == 0 by {
        lemma_fill_count_single(ExecutionReport::Rejected { order_id: id, reason });
    }
    lemma_fill_count_single(ExecutionReport::Cancelled { order_id: id });
    assert forall|q: u64, fills: Seq<FillView>| #[trigger] super::model::fill_reports(id, q, fills).len() == fills.len() && fill_count(
        seq![ExecutionReport::Accepted { order_id: id }] + super::model::fill_reports(id, q, fills),
    ) == fills.len() by {
        lemma_accepted_counts(id, q, fills);
        lemma_fill_count_fill_reports(id, q, fills);
    }
    assert forall|q: u64, fills: Seq<FillView>, r: crate::types::Qty| #[trigger] fill_count(
        (seq![ExecutionReport::Accepted { order_id: id }] + super::model::fill_reports(id, q, fills)).push(
            ExecutionReport::Rested { order_id: id, remaining: r },
        ),
    ) == fills.len() by {
        lemma_accepted_counts(id, q, fills);
    }
    assert forall|q: u64, fills: Seq<FillView>, r: crate::types::Qty| #[trigger] fill_count(
        (seq![ExecutionReport::Accepted { order_id: id }] + super::model::fill_reports(id, q, fills)).push(
            ExecutionReport::Expired { order_id: id, remaining: r },
        ),
    ) == fills.len() by {
        lemma_accepted_counts(id, q, fills);
    }
}

/// The quantity a report says was filled (zero for reports that fill nothing).
pub open spec fn report_fill_qty(r: ExecutionReport) -> nat {
    match r {
        ExecutionReport::Filled { qty, .. } => qty.0 as nat,
        ExecutionReport::PartiallyFilled { qty, .. } => qty.0 as nat,
        _ => 0,
    }
}

/// The total quantity the reports say was filled.
pub open spec fn reported_fill_total(rs: Seq<ExecutionReport>) -> nat
    decreases rs.len(),
{
    if rs.len() == 0 {
        0
    } else {
        reported_fill_total(rs.drop_last()) + report_fill_qty(rs.last())
    }
}

/// The price limit a new order trades within: its price for a limit order, none for a
/// market order.
pub open spec fn order_limit(order: Order) -> Option<i64> {
    if order.order_type == OrderType::Market {
        None
    } else {
        match order.price {
            Some(p) => Some(p.0),
            None => None,
        }
    }
}

proof fn lemma_reported_total_concat(a: Seq<ExecutionReport>, b: Seq<ExecutionReport>)
    ensures
        reported_fill_total(a + b) == reported_fill_total(a) + reported_fill_total(b),
    decreases b.len(),
{
    if b.len() > 0 {
        lemma_reported_total_concat(a, b.drop_last());
        assert((a + b).drop_last() =~= a + b.drop_last());
    } else {
        assert(a + b =~= a);
    }
}

/// The fill reports of an order report exactly its fills: one per fill, for its quantity at
/// the resting order's price.
proof fn lemma_fill_reports_match(id: OrderId, qty: u64, fills: Seq<FillView>)
    ensures
        fill_reports(id, qty, fills).len() == fills.len(),
        reported_fill_total(fill_reports(id, qty, fills)) == fill_total(fills),
        forall|i: int|
            0 <= i < fills.len() ==> {
                let r = #[trigger] fill_reports(id, qty, fills)[i];
                &&& r is Filled || r is PartiallyFilled
                &&& (r matches ExecutionReport::Filled { price, .. } ==> price == fills[i].0.price)
                &&& (r matches ExecutionReport::PartiallyFilled { price, .. } ==> price == fills[i].0.price)
            },
    decreases fills.len(),
{
    if fills.len() > 0 {
        lemma_fill_reports_match(id, qty, fills.drop_last());
        let prev = fill_reports(id, qty, fills.drop_last());
        let f = fills.last();
        let r = fill_report(id, f.1, (qty - fill_total(fills)) as u64, f.0.price);
        assert(fill_reports(id, qty, fills) == prev.push(r));
        assert(prev.push(r).drop_last() =~= prev);
        assert forall|i: int| 0 <= i < fills.len() implies {
            let r = #[trigger] fill_reports(id, qty, fills)[i];
            &&& r is Filled || r is PartiallyFilled
            &&& (r matches ExecutionReport::Filled { price, .. } ==> price == fills[i].0.price)
            &&& (r matches ExecutionReport::PartiallyFilled { price, .. } ==> price == fills[i].0.price)
        } by {
            if i < fills.len() - 1 {
                assert(fills[i] == fills.drop_last()[i]);
                assert(fill_reports(id, qty, fills)[i] == prev[i]);
            }
        }
    }
}

/// A new order's reports account for its quantity: the fills they report total at most the
/// order's quantity, each at a price within the order's limit; and when the rest of the
/// order rests or expires, the fills and that remainder add up to the order's quantity.
pub proof fn law_order_reports_conserve(m: EngineModel, symbol: Symbol, order: Order, ts: TimestampNanos)
    requires
        ladder_wf(m.bids, Side::Buy),
        ladder_wf(m.asks, Side::Sell),
    ensures
        ({
            let rs = spec_new_order(m, symbol, order, ts).reports;
            &&& reported_fill_total(rs) <= order.qty.0
            &&& forall|i: int|
                0 <= i < rs.len() ==> {
                    &&& (#[trigger] rs[i] matches ExecutionReport::Filled { price, .. } ==> crosses(
                        order.side,
                        order_limit(order),
                        price.0,
                    ))
                    &&& (rs[i] matches ExecutionReport::PartiallyFilled { price, .. } ==> crosses(
                        order.side,
                        order_limit(order),
                        price.0,
                    ))
                    &&& (rs[i] matches ExecutionReport::Rested { remaining, .. } ==> reported_fill_total(rs)
                        + remaining.0 == order.qty.0)
                    &&& (rs[i] matches ExecutionReport::Expired { remaining, .. } ==> reported_fill_total(rs)
                        + remaining.0 == order.qty.0)
                }
        }),
{
    let out = spec_new_order(m, symbol, order, ts);
    let rs = out.reports;
    if out.reports.len() == 1 && out.reports[0] is Rejected {
        reveal_with_fuel(reported_fill_total, 2);
    } else if order.qty.0 != 0 {
        let side = order.side;
        let opp = ladder_of(m, spec_opposite(side));
        let limit = order_limit(order);
        let sw = sweep(opp, side, order.qty.0, limit);
        law_sweep_within_quantity_and_limit(opp, side, order.qty.0, limit);
        lemma_fill_reports_match(order.order_id, order.qty.0, sw.1);
        let head = seq![ExecutionReport::Accepted { order_id: order.order_id }];
        let body = fill_reports(order.order_id, order.qty.0, sw.1);
        reveal_with_fuel(reported_fill_total, 2);
        lemma_reported_total_concat(head, body);
        let acc = head + body;
        let rem = (order.qty.0 - fill_total(sw.1)) as u64;
        assert forall|x: ExecutionReport| #[trigger] reported_fill_total(acc.push(x)) == reported_fill_total(acc)
            + report_fill_qty(x) by {
            assert(acc.push(x).drop_last() =~= acc);
        }
        assert forall|i: int| 0 <= i < body.len() implies acc[i + 1] == body[i] by {}
    }
}

} // verus!
