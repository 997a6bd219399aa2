//! Single-symbol matching engine: limit and market orders under price-time priority,
//! cancels, and the IDs that have finished.
use std::collections::HashSet;

use vstd::prelude::*;

use crate::book::model::{better, flatten, ids_of, ladder_pop_front, ladder_set_front_qty, level_wf, LevelView};
use crate::book::order_book::{BookError, OrderBook, RestingOrder};
use crate::events::{ExecutionReport, InputEvent, RejectReason, Trade};
use crate::types::{spec_opposite, Order, OrderId, OrderType, PriceTicks, Qty, Side, Symbol, TimestampNanos};

use crate::book::order_book::validate_on;
use super::model::{
    crosses, fill_report, fill_reports, fill_total, fill_trade, fill_trades, finished_reason, ladder_of, makers_done,
    reason_for_book_error, reject, spec_event, spec_limit, spec_market, spec_new_order, spec_cancel, sweep,
    EngineModel, FillView, Outcome,
};

verus! {

broadcast use {vstd::seq_lib::group_seq_properties, vstd::std_specs::hash::group_hash_axioms};

/// The timestamp an input event carries.
pub open spec fn event_ts(event: InputEvent) -> TimestampNanos {
    match event {
        InputEvent::NewOrder(e) => e.order.timestamp_ns,
        InputEvent::Cancel(c) => c.timestamp_ns,
    }
}

#[derive(Debug)]
pub struct MatchingEngine {
    book: OrderBook,
    filled_order_ids: HashSet<OrderId>,
    cancelled_order_ids: HashSet<OrderId>,
    expired_order_ids: HashSet<OrderId>,
}

impl MatchingEngine {
    /// The book is well formed and never crossed.
    pub closed spec fn wf(&self) -> bool {
        self.book.wf() && self.book.uncrossed()
    }

    /// The engine's state as values.
    pub closed spec fn model(&self) -> EngineModel {
        EngineModel {
            bids: self.book.bids_view(),
            asks: self.book.asks_view(),
            filled: self.filled_order_ids@,
            cancelled: self.cancelled_order_ids@,
            expired: self.expired_order_ids@,
        }
    }

    /// The symbol this engine trades.
    pub closed spec fn spec_symbol(&self) -> Symbol {
        self.book.symbol
    }

    pub closed spec fn book_view(&self) -> OrderBook {
        self.book
    }

    /// The model's ladders are the book's ladders.
    pub proof fn lemma_model(&self)
        ensures
            self.model().bids == self.book_view().bids_view(),
            self.model().asks == self.book_view().asks_view(),
            self.spec_symbol() == self.book_view().symbol,
    {
    }

    pub fn new(symbol: Symbol) -> (r: Self)
        ensures
            r.wf(),
            r.spec_symbol() == symbol,
            r.model().bids == Seq::<LevelView>::empty(),
            r.model().asks == Seq::<LevelView>::empty(),
            r.model().filled == Set::<OrderId>::empty(),
            r.model().cancelled == Set::<OrderId>::empty(),
            r.model().expired == Set::<OrderId>::empty(),
    {
        let r = MatchingEngine {
            book: OrderBook::new(symbol),
            filled_order_ids: HashSet::new(),
            cancelled_order_ids: HashSet::new(),
            expired_order_ids: HashSet::new(),
        };
        proof {
            assert(r.book.bids_view() =~= Seq::<LevelView>::empty());
            assert(r.book.asks_view() =~= Seq::<LevelView>::empty());
        }
        r
    }

    /// The engine's book, which is well formed and uncrossed.
    pub fn book(&self) -> (r: &OrderBook)
        requires
            self.wf(),
        ensures
            *r == self.book_view(),
            r.wf(),
            r.uncrossed(),
            r.bids_view() == self.model().bids,
            r.asks_view() == self.model().asks,
            r.symbol == self.spec_symbol(),
    {
        &self.book
    }

    /// Process one input event; reports in emission order.
    pub fn process_event(&mut self, event: InputEvent) -> (r: Vec<ExecutionReport>)
        requires
            old(self).wf(),
        ensures
            final(self).wf(),
            ({
                let out = spec_event(old(self).model(), old(self).spec_symbol(), event, event_ts(event));
                &&& r@ == out.reports
                &&& final(self).model() == out.state
                &&& final(self).spec_symbol() == old(self).spec_symbol()
            }),
    {
        let ts_ns = match &event {
            InputEvent::NewOrder(e) => e.order.timestamp_ns,
            InputEvent::Cancel(c) => c.timestamp_ns,
        };
        let (reports, _trades) = self.process_event_with_trades(event, ts_ns);
        reports
    }

    /// Process one input event; reports and the trades of its fills, stamped `ts_ns`.
    pub fn process_event_with_trades(&mut self, event: InputEvent, ts_ns: TimestampNanos) -> (r: (
        Vec<ExecutionReport>,
        Vec<Trade>,
    ))
        requires
            old(self).wf(),
        ensures
            final(self).wf(),
            ({
                let out = spec_event(old(self).model(), old(self).spec_symbol(), event, ts_ns);
                &&& r.0@ == out.reports
                &&& r.1@ == out.trades
                &&& final(self).model() == out.state
                &&& final(self).spec_symbol() == old(self).spec_symbol()
            }),
    {
        match event {
            InputEvent::NewOrder(e) => self.process_new_order(e.order, ts_ns),
            InputEvent::Cancel(c) => {
                let reports = self.process_cancel(c.order_id, &c.symbol);
                (reports, Vec::new())
            },
        }
    }

    /// Submit a limit order directly; an order that is not a limit order is rejected as invalid.
    pub fn submit_limit_order(&mut self, order: Order) -> (r: Vec<ExecutionReport>)
        requires
            old(self).wf(),
        ensures
            final(self).wf(),
            ({
                let out = spec_limit(old(self).model(), old(self).spec_symbol(), order, true, order.timestamp_ns);
                &&& r@ == out.reports
                &&& final(self).model() == out.state
                &&& final(self).spec_symbol() == old(self).spec_symbol()
            }),
    {
        let ts = order.timestamp_ns;
        let (reports, _trades) = self.submit_limit_order_inner(order, true, ts);
        reports
    }

    fn process_new_order(&mut self, order: Order, ts_ns: TimestampNanos) -> (r: (Vec<ExecutionReport>, Vec<Trade>))
        requires
            old(self).wf(),
        ensures
            final(self).wf(),
            ({
                let out = spec_new_order(old(self).model(), old(self).spec_symbol(), order, ts_ns);
                &&& r.0@ == out.reports
                &&& r.1@ == out.trades
                &&& final(self).model() == out.state
                &&& final(self).spec_symbol() == old(self).spec_symbol()
            }),
    {
        if order.qty.0 == 0 {
            return (Self::rejected(order.order_id, RejectReason::InvalidQuantity), Vec::new());
        }
        if order.order_type == OrderType::Market {
            return self.submit_market_order(order, ts_ns);
        }
        self.submit_limit_order_inner(order, false, ts_ns)
    }

    /// Why an ID can no longer be used, if it has finished.
    fn finished(&self, order_id: OrderId) -> (r: Option<RejectReason>)
        ensures
            r == finished_reason(self.model(), order_id),
    {
        if self.filled_order_ids.contains(&order_id) {
            return Some(RejectReason::AlreadyFilled);
        }
        if self.cancelled_order_ids.contains(&order_id) {
            return Some(RejectReason::AlreadyCancelled);
        }
        if self.expired_order_ids.contains(&order_id) {
            return Some(RejectReason::AlreadyExpired);
        }
        None
    }

    fn submit_market_order(&mut self, order: Order, ts_ns: TimestampNanos) -> (r: (Vec<ExecutionReport>, Vec<Trade>))
        requires
            old(self).wf(),
            order.qty.0 > 0,
        ensures
            final(self).wf(),
            ({
                let out = spec_market(old(self).model(), old(self).spec_symbol(), order, ts_ns);
                &&& r.0@ == out.reports
                &&& r.1@ == out.trades
                &&& final(self).model() == out.state
                &&& final(self).spec_symbol() == old(self).spec_symbol()
            }),
    {
        let order_id = order.order_id;
        match self.finished(order_id) {
            Some(reason) => return (Self::rejected(order_id, reason), Vec::new()),
            None => {},
        }
        if self.book.get_order(order_id).is_some() || !order.symbol.same_as(self.book.symbol()) {
            return (Self::rejected(order_id, RejectReason::InvalidOrder), Vec::new());
        }
        if order.price.is_some() {
            return (Self::rejected(order_id, RejectReason::InvalidPrice), Vec::new());
        }
        if self.best_opposite_price(order.side).is_none() {
            if self.book.best_bid().is_none() && self.book.best_ask().is_none() {
                return (Self::rejected(order_id, RejectReason::EmptyBook), Vec::new());
            }
            return (Self::rejected(order_id, RejectReason::MarketOrderWouldNotFill), Vec::new());
        }
        let sym = self.book.symbol().duplicate();
        let mut reports = vec![ExecutionReport::Accepted { order_id }];
        let mut trades: Vec<Trade> = Vec::new();
        let ghost m0 = self.model();
        let ghost r0 = reports@;
        let remaining = self.sweep_opposite(order_id, order.side, order.qty.0, None, &sym, ts_ns, &mut reports, &mut trades);
        if remaining == 0 {
            self.filled_order_ids.insert(order_id);
        } else {
            reports.push(ExecutionReport::Expired { order_id, remaining: Qty(remaining) });
            self.expired_order_ids.insert(order_id);
        }
        proof {
            assert(r0 == seq![ExecutionReport::Accepted { order_id }]);
        }
        (reports, trades)
    }

    fn submit_limit_order_inner(&mut self, order: Order, preserve_legacy_market_rejection: bool, ts_ns: TimestampNanos) -> (r: (
        Vec<ExecutionReport>,
        Vec<Trade>,
    ))
        requires
            old(self).wf(),
        ensures
            final(self).wf(),
            ({
                let out = spec_limit(
                    old(self).model(),
                    old(self).spec_symbol(),
                    order,
                    preserve_legacy_market_rejection,
                    ts_ns,
                );
                &&& r.0@ == out.reports
                &&& r.1@ == out.trades
                &&& final(self).model() == out.state
                &&& final(self).spec_symbol() == old(self).spec_symbol()
            }),
    {
        let order_id = order.order_id;
        match self.finished(order_id) {
            Some(reason) => return (Self::rejected(order_id, reason), Vec::new()),
            None => {},
        }
        let price = match self.book.validate_limit_order(&order) {
            Ok(price) => price,
            Err(error) => {
                let reason = Self::reject_reason_for_book_error(error, preserve_legacy_market_rejection);
                return (Self::rejected(order_id, reason), Vec::new());
            },
        };
        let side = order.side;
        let sym = self.book.symbol().duplicate();
        let mut reports = vec![ExecutionReport::Accepted { order_id }];
        let mut trades: Vec<Trade> = Vec::new();
        let ghost m0 = self.model();
        let ghost r0 = reports@;
        let remaining = self.sweep_opposite(order_id, side, order.qty.0, Some(price.0), &sym, ts_ns, &mut reports, &mut trades);
        if remaining != 0 {
            let rest = Order {
                order_id,
                symbol: order.symbol,
                side,
                order_type: order.order_type,
                price: order.price,
                qty: Qty(remaining),
                timestamp_ns: order.timestamp_ns,
                strategy_id: order.strategy_id,
            };
            proof {
                self.lemma_residual_valid(m0, rest, price, order.qty.0);
            }
            let added = self.book.add_limit_order(rest);
            match added {
                Ok(()) => {},
                Err(_) => {
                    proof {
                        assert(false);
                    }
                },
            }
            reports.push(ExecutionReport::Rested { order_id, remaining: Qty(remaining) });
        } else {
            self.filled_order_ids.insert(order_id);
        }
        proof {
            assert(r0 == seq![ExecutionReport::Accepted { order_id }]);
        }
        (reports, trades)
    }
}

impl MatchingEngine {
    /// The validated order's remainder can still rest after the sweep: the sweep touched only
    /// the opposite side and removed IDs from it, never added any.
    proof fn lemma_residual_valid(&self, m0: EngineModel, rest: Order, price: PriceTicks, qty0: u64)
        requires
            ({
                let order0 = Order { qty: Qty(qty0), ..rest };
                validate_on(m0.bids, m0.asks, self.spec_symbol(), order0) == Ok::<PriceTicks, BookError>(price)
            }),
            0 < rest.qty.0 <= qty0,
            ladder_of(self.model(), rest.side) == ladder_of(m0, rest.side),
            forall|x: OrderId|
                ids_of(flatten(ladder_of(self.model(), spec_opposite(rest.side)))).contains(x) ==> ids_of(
                    flatten(ladder_of(m0, spec_opposite(rest.side))),
                ).contains(x),
        ensures
            self.book_view().spec_validate(rest) == Ok::<PriceTicks, BookError>(price),
    {
        let m = self.model();
        let id = rest.order_id;
        let all0 = flatten(m0.bids) + flatten(m0.asks);
        let all = flatten(m.bids) + flatten(m.asks);
        if ids_of(all).contains(id) {
            let k = choose|k: int| 0 <= k < ids_of(all).len() && ids_of(all)[k] == id;
            let nb = flatten(m.bids).len() as int;
            if k < nb {
                assert(ids_of(flatten(m.bids))[k] == id);
                assert(ids_of(flatten(m.bids)).contains(id));
                if rest.side == Side::Sell {
                    assert(ladder_of(m, spec_opposite(rest.side)) == m.bids);
                    assert(ladder_of(m0, spec_opposite(rest.side)) == m0.bids);
                    assert(ids_of(flatten(ladder_of(m, spec_opposite(rest.side)))).contains(id));
                    assert(ids_of(flatten(m0.bids)).contains(id));
                }
                let k0 = choose|k0: int| 0 <= k0 < ids_of(flatten(m0.bids)).len() && ids_of(flatten(m0.bids))[k0] == id;
                assert(ids_of(all0)[k0] == id);
            } else {
                assert(ids_of(flatten(m.asks))[k - nb] == id);
                assert(ids_of(flatten(m.asks)).contains(id));
                if rest.side == Side::Buy {
                    assert(ladder_of(m, spec_opposite(rest.side)) == m.asks);
                    assert(ladder_of(m0, spec_opposite(rest.side)) == m0.asks);
                    assert(ids_of(flatten(ladder_of(m, spec_opposite(rest.side)))).contains(id));
                    assert(ids_of(flatten(m0.asks)).contains(id));
                }
                let k0 = choose|k0: int| 0 <= k0 < ids_of(flatten(m0.asks)).len() && ids_of(flatten(m0.asks))[k0] == id;
                assert(ids_of(all0)[flatten(m0.bids).len() + k0] == id);
            }
        }
    }

    /// Trade an incoming order against the opposite side while its limit allows, appending
    /// reports and trades; returns the quantity left.
    fn sweep_opposite(
        &mut self,
        order_id: OrderId,
        side: Side,
        qty: u64,
        limit: Option<i64>,
        sym: &Symbol,
        ts_ns: TimestampNanos,
        reports: &mut Vec<ExecutionReport>,
        trades: &mut Vec<Trade>,
    ) -> (remaining: u64)
        requires
            old(self).wf(),
            *sym == old(self).spec_symbol(),
        ensures
            final(self).wf(),
            ({
                let opp_side = spec_opposite(side);
                let m0 = old(self).model();
                let sw = sweep(ladder_of(m0, opp_side), side, qty, limit);
                &&& remaining == qty - fill_total(sw.1)
                &&& remaining <= qty
                &&& final(self).model() == EngineModel {
                    filled: m0.filled.union(makers_done(sw.1)),
                    ..super::model::with_ladder(m0, opp_side, sw.0)
                }
                &&& final(reports)@ == old(reports)@ + fill_reports(order_id, qty, sw.1)
                &&& final(trades)@ == old(trades)@ + fill_trades(*sym, order_id, side, ts_ns, sw.1)
                &&& final(self).spec_symbol() == old(self).spec_symbol()
                &&& remaining > 0 ==> (sw.0.len() == 0 || !crosses(side, limit, sw.0[0].0 .0))
                &&& forall|x: OrderId|
                    ids_of(flatten(sw.0)).contains(x) ==> ids_of(flatten(ladder_of(m0, opp_side))).contains(x)
            }),
    {
        let ghost opp_side = spec_opposite(side);
        let ghost m0 = self.model();
        let ghost opp0 = ladder_of(m0, opp_side);
        let ghost sw = sweep(opp0, side, qty, limit);
        let ghost r0 = reports@;
        let ghost t0 = trades@;
        let ghost mut done: Seq<FillView> = Seq::empty();
        let mut remaining = qty;
        let mut go = true;
        proof {
            assert(done + sw.1 =~= sw.1);
        }
        while go && remaining != 0
            invariant
                self.wf(),
                self.spec_symbol() == *sym,
                ({
                    let cur = sweep(ladder_of(self.model(), opp_side), side, remaining, limit);
                    &&& cur.0 == sw.0
                    &&& done + cur.1 == sw.1
                }),
                remaining == qty - fill_total(done),
                ladder_of(self.model(), side) == ladder_of(m0, side),
                self.model().filled == m0.filled.union(makers_done(done)),
                self.model().cancelled == m0.cancelled,
                self.model().expired == m0.expired,
                reports@ == r0 + fill_reports(order_id, qty, done),
                trades@ == t0 + fill_trades(*sym, order_id, side, ts_ns, done),
                !go ==> ladder_of(self.model(), opp_side).len() == 0 || !crosses(
                    side,
                    limit,
                    ladder_of(self.model(), opp_side)[0].0 .0,
                ),
                forall|x: OrderId|
                    ids_of(flatten(ladder_of(self.model(), opp_side))).contains(x) ==> ids_of(flatten(opp0)).contains(x),
                opp_side == spec_opposite(side),
            decreases (remaining as int) * 2 + (if go { 1int } else { 0int }),
        {
            let can = match self.best_opposite_price(side) {
                None => false,
                Some(op) => crosses_exec(side, limit, op.0),
            };
            if !can {
                go = false;
            } else {
                let ghost cur_opp = ladder_of(self.model(), opp_side);
                let ghost o = cur_opp[0].1[0];
                proof {
                    assert(level_wf(cur_opp[0], opp_side));
                }
                let (fill_qty, price, maker_id) = self.execute_at_best(side, remaining);
                let ghost f = fill_qty.0;
                proof {
                    let next = if f == o.qty.0 { ladder_pop_front(cur_opp) } else { ladder_set_front_qty(cur_opp, (o.qty.0 - f) as u64) };
                    assert(ladder_of(self.model(), opp_side) == next);
                    let cur = sweep(cur_opp, side, remaining, limit);
                    let rest = sweep(next, side, (remaining - f) as u64, limit);
                    assert(cur.1 == seq![(o, f)] + rest.1);
                    assert(done.push((o, f)) + rest.1 =~= done + cur.1);
                    assert(done.push((o, f)).drop_last() =~= done);
                    done = done.push((o, f));
                    assert forall|x: OrderId|
                        ids_of(flatten(next)).contains(x) implies ids_of(flatten(opp0)).contains(x) by {
                        lemma_step_ids(cur_opp, opp_side, f, x);
                    }
                }
                remaining = remaining - fill_qty.0;
                let report = Self::fill_report_exec(order_id, fill_qty, remaining, price);
                reports.push(report);
                trades.push(
                    Trade {
                        symbol: sym.duplicate(),
                        taker_order_id: order_id,
                        maker_order_id: maker_id,
                        price,
                        qty: fill_qty,
                        aggressor_side: side,
                        timestamp_ns: ts_ns,
                    },
                );
                proof {
                    assert(fill_trades(*sym, order_id, side, ts_ns, done) =~= fill_trades(
                        *sym,
                        order_id,
                        side,
                        ts_ns,
                        done.drop_last(),
                    ).push(fill_trade(*sym, order_id, side, ts_ns, done.last())));
                }
            }
        }
        proof {
            assert(done =~= sw.1);
        }
        remaining
    }

    /// Execute the incoming side's next fill against the best opposite order.
    fn execute_at_best(&mut self, incoming_side: Side, incoming_qty: u64) -> (r: (Qty, PriceTicks, OrderId))
        requires
            old(self).wf(),
            ladder_of(old(self).model(), spec_opposite(incoming_side)).len() > 0,
            incoming_qty > 0,
        ensures
            final(self).wf(),
            ({
                let opp_side = spec_opposite(incoming_side);
                let m0 = old(self).model();
                let o = ladder_of(m0, opp_side)[0].1[0];
                let f: u64 = if incoming_qty < o.qty.0 { incoming_qty } else { o.qty.0 };
                &&& r.0.0 == f
                &&& r.1 == o.price
                &&& r.2 == o.order_id
                &&& f > 0
                &&& ladder_of(final(self).model(), opp_side) == (if f == o.qty.0 {
                    ladder_pop_front(ladder_of(m0, opp_side))
                } else {
                    ladder_set_front_qty(ladder_of(m0, opp_side), (o.qty.0 - f) as u64)
                })
                &&& ladder_of(final(self).model(), incoming_side) == ladder_of(m0, incoming_side)
                &&& final(self).model().filled == (if f == o.qty.0 { m0.filled.insert(o.order_id) } else { m0.filled })
                &&& final(self).model().cancelled == m0.cancelled
                &&& final(self).model().expired == m0.expired
                &&& final(self).spec_symbol() == old(self).spec_symbol()
            }),
    {
        proof {
            assert(level_wf(ladder_of(self.model(), spec_opposite(incoming_side))[0], spec_opposite(incoming_side)));
        }
        let (resting_qty, resting_price, resting_id) = match self.book.best_opposite_order(incoming_side) {
            Some(o) => (o.qty, o.price, o.order_id),
            None => {
                proof {
                    assert(false);
                }
                unreached()
            },
        };
        let fill_qty = if incoming_qty < resting_qty.0 { incoming_qty } else { resting_qty.0 };
        if fill_qty == resting_qty.0 {
            let removed = self.book.remove_best_opposite(incoming_side);
            self.filled_order_ids.insert(resting_id);
        } else {
            let updated = self.book.reduce_best_opposite_qty(incoming_side, Qty(fill_qty));
        }
        (Qty(fill_qty), resting_price, resting_id)
    }

    fn fill_report_exec(order_id: OrderId, fill_qty: Qty, remaining: u64, price: PriceTicks) -> (r: ExecutionReport)
        ensures
            r == fill_report(order_id, fill_qty.0, remaining, price),
    {
        if remaining == 0 {
            ExecutionReport::Filled { order_id, qty: fill_qty, price }
        } else {
            ExecutionReport::PartiallyFilled { order_id, qty: fill_qty, remaining: Qty(remaining), price }
        }
    }

    fn process_cancel(&mut self, order_id: OrderId, symbol: &Symbol) -> (r: Vec<ExecutionReport>)
        requires
            old(self).wf(),
        ensures
            final(self).wf(),
            ({
                let out = spec_cancel(old(self).model(), old(self).spec_symbol(), order_id, *symbol);
                &&& r@ == out.reports
                &&& out.trades == Seq::<Trade>::empty()
                &&& final(self).model() == out.state
                &&& final(self).spec_symbol() == old(self).spec_symbol()
            }),
    {
        match self.finished(order_id) {
            Some(reason) => return Self::rejected(order_id, reason),
            None => {},
        }
        if self.book.best_bid().is_none() && self.book.best_ask().is_none() {
            return Self::rejected(order_id, RejectReason::EmptyBook);
        }
        if !self.book.symbol().same_as(symbol) || self.book.get_order(order_id).is_none() {
            return Self::rejected(order_id, RejectReason::UnknownOrder);
        }
        let ghost m0 = self.model();
        proof {
            self.book.lemma_sides();
        }
        match self.book.cancel_order(order_id) {
            Ok(o) => {
                proof {
                    lemma_cancel_side(m0, o, order_id);
                }
                self.cancelled_order_ids.insert(order_id);
                vec![ExecutionReport::Cancelled { order_id }]
            },
            Err(_) => {
                proof {
                    assert(false);
                }
                Self::rejected(order_id, RejectReason::InternalBookInvariantViolation)
            },
        }
    }

    fn reject_reason_for_book_error(error: BookError, legacy: bool) -> (r: RejectReason)
        ensures
            r == reason_for_book_error(error, legacy),
    {
        match error {
            BookError::InvalidQuantity(_) | BookError::QuantityOverflow(_) => RejectReason::InvalidQuantity,
            BookError::MissingPrice(_) | BookError::InvalidPrice(_) => RejectReason::InvalidPrice,
            BookError::NotLimitOrder(_) => if legacy {
                RejectReason::InvalidOrder
            } else {
                RejectReason::MarketOrderWouldNotFill
            },
            BookError::UnknownOrder(_) => RejectReason::UnknownOrder,
            BookError::DuplicateOrderId(_) | BookError::SymbolMismatch { .. } => RejectReason::InvalidOrder,
        }
    }

    fn rejected(order_id: OrderId, reason: RejectReason) -> (r: Vec<ExecutionReport>)
        ensures
            r@ == seq![ExecutionReport::Rejected { order_id, reason }],
    {
        vec![ExecutionReport::Rejected { order_id, reason }]
    }

    fn best_opposite_price(&self, side: Side) -> (r: Option<PriceTicks>)
        ensures
            r == (if ladder_of(self.model(), spec_opposite(side)).len() > 0 {
                Some(ladder_of(self.model(), spec_opposite(side))[0].0)
            } else {
                None
            }),
    {
        match side {
            Side::Buy => self.book.best_ask(),
            Side::Sell => self.book.best_bid(),
        }
    }

    /// A limit order on `side` at `limit_price` would trade against the best opposite price.
    pub fn can_cross(&self, side: Side, limit_price: PriceTicks) -> (r: bool)
        ensures
            r == (ladder_of(self.model(), spec_opposite(side)).len() > 0 && crosses(
                side,
                Some(limit_price.0),
                ladder_of(self.model(), spec_opposite(side))[0].0 .0,
            )),
    {
        match self.best_opposite_price(side) {
            Some(opposite_price) => Self::prices_cross(side, limit_price, opposite_price),
            None => false,
        }
    }

    pub fn prices_cross(side: Side, limit_price: PriceTicks, opposite_price: PriceTicks) -> (r: bool)
        ensures
            r == crosses(side, Some(limit_price.0), opposite_price.0),
    {
        match side {
            Side::Buy => limit_price.0 >= opposite_price.0,
            Side::Sell => limit_price.0 <= opposite_price.0,
        }
    }
}

fn crosses_exec(side: Side, limit: Option<i64>, opposite_price: i64) -> (r: bool)
    ensures
        r == crosses(side, limit, opposite_price),
{
    match limit {
        None => true,
        Some(l) => match side {
            Side::Buy => l >= opposite_price,
            Side::Sell => l <= opposite_price,
        },
    }
}

/// One sweep step removes IDs from the ladder but never adds any.
proof fn lemma_step_ids(opp: Seq<LevelView>, opp_side: Side, f: u64, x: OrderId)
    requires
        crate::book::model::ladder_wf(opp, opp_side),
        opp.len() > 0,
        0 < f <= opp[0].1[0].qty.0,
    ensures
        ({
            let o = opp[0].1[0];
            let next = if f == o.qty.0 { ladder_pop_front(opp) } else { ladder_set_front_qty(opp, (o.qty.0 - f) as u64) };
            ids_of(flatten(next)).contains(x) ==> ids_of(flatten(opp)).contains(x)
        }),
{
    let o = opp[0].1[0];
    if f == o.qty.0 {
        crate::book::model::lemma_pop_front(opp, opp_side);
        let next = ladder_pop_front(opp);
        if ids_of(flatten(next)).contains(x) {
            let k = choose|k: int| 0 <= k < ids_of(flatten(next)).len() && ids_of(flatten(next))[k] == x;
            assert(ids_of(flatten(opp))[k + 1] == x);
        }
    } else {
        crate::book::model::lemma_set_front_qty(opp, opp_side, (o.qty.0 - f) as u64);
        let next = ladder_set_front_qty(opp, (o.qty.0 - f) as u64);
        if ids_of(flatten(next)).contains(x) {
            let k = choose|k: int| 0 <= k < ids_of(flatten(next)).len() && ids_of(flatten(next))[k] == x;
            assert(ids_of(flatten(opp))[k] == x);
        }
    }
}

/// The side a cancelled order came from is where the model says it rests.
proof fn lemma_cancel_side(m0: EngineModel, o: RestingOrder, id: OrderId)
    requires
        o.order_id == id,
        ({
            let l = ladder_of(m0, o.side);
            let (i, j) = crate::book::model::locate(l, id);
            0 <= i < l.len() && 0 <= j < l[i].1.len() && o == l[i].1[j]
        }),
        ids_of(flatten(m0.bids) + flatten(m0.asks)).no_duplicates(),
        ids_of(flatten(m0.bids) + flatten(m0.asks)) == ids_of(flatten(m0.bids)) + ids_of(flatten(m0.asks)),
    ensures
        super::model::resting_side(m0, id) == o.side,
{
    let l = ladder_of(m0, o.side);
    let (i, j) = crate::book::model::locate(l, id);
    crate::book::model::lemma_flatten_index(l, i, j);
    let p = crate::book::model::offset(l, i) + j;
    if o.side == Side::Sell {
        assert(ids_of(flatten(m0.asks))[p] == id);
        if ids_of(flatten(m0.bids)).contains(id) {
            let k = choose|k: int| 0 <= k < ids_of(flatten(m0.bids)).len() && ids_of(flatten(m0.bids))[k] == id;
            let all = ids_of(flatten(m0.bids) + flatten(m0.asks));
            assert(all[k] == id);
            assert(all[flatten(m0.bids).len() + p] == id);
        }
    } else {
        assert(ids_of(flatten(m0.bids))[p] == id);
    }
}

} // verus!
