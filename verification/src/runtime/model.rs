//! The runtime's behaviour as values when no strategy is registered: one step per external
//! event over the engines (by symbol), the portfolio, the risk manager and the set of
//! portfolio-owned order IDs.
use vstd::prelude::*;

use crate::events::{CancelOrderEvent, InputEvent, NewOrderEvent, Trade};
use crate::matching::model::{spec_event, EngineModel};
use crate::portfolio::{fill_outcome, snapshot_failure, Portfolio, PortfolioError, PortfolioView};
use crate::risk::{post_trade_loss_outcome, spec_check_new_order, RiskDecision, RiskManager, RiskRejectReason};
use crate::types::{Order, OrderId, PriceTicks, SequenceNumber, Symbol, TimestampNanos, spec_opposite};

use super::{runtime_outputs, RuntimeError, RuntimeEvent, RuntimeOutput, RuntimeOutputKind};

verus! {

/// What one step, or a run of steps, reports: the outputs appended, or the error.
pub type StepResult = Result<Seq<RuntimeOutput>, RuntimeError>;

/// What a strategy-free runtime's decisions depend on.
pub struct RuntimeState {
    /// For each traded symbol (by text), the engine's symbol and state.
    pub engines: Map<Seq<char>, (Symbol, EngineModel)>,
    pub portfolio: Portfolio,
    pub risk: RiskManager,
    /// Orders whose fills are booked into the portfolio.
    pub owned: Set<OrderId>,
}

/// A fresh engine's state.
pub open spec fn empty_model() -> EngineModel {
    EngineModel {
        bids: Seq::empty(),
        asks: Seq::empty(),
        filled: Set::empty(),
        cancelled: Set::empty(),
        expired: Set::empty(),
    }
}

/// The engines once one trades `symbol`: a new, empty engine unless one exists.
pub open spec fn with_engine(
    engines: Map<Seq<char>, (Symbol, EngineModel)>,
    symbol: Symbol,
) -> Map<Seq<char>, (Symbol, EngineModel)> {
    if engines.contains_key(symbol@) {
        engines
    } else {
        engines.insert(symbol@, (symbol, empty_model()))
    }
}

/// The engines of a runtime made for `symbols`: one fresh engine per distinct symbol text,
/// the first of equal symbols naming it.
pub open spec fn engines_for(symbols: Seq<Symbol>) -> Map<Seq<char>, (Symbol, EngineModel)>
    decreases symbols.len(),
{
    if symbols.len() == 0 {
        Map::empty()
    } else {
        with_engine(engines_for(symbols.drop_last()), symbols.last())
    }
}

/// A mark update: a negative price is refused and leaves the portfolio as it was.
pub open spec fn marked(p: PortfolioView, symbol: Seq<char>, price: PriceTicks) -> PortfolioView {
    if price.0 < 0 {
        p
    } else {
        PortfolioView { marks: p.marks.insert(symbol, price), ..p }
    }
}

/// One trade booked into the portfolio: the taker side if owned, then the maker side if
/// owned, then the trade price as the symbol's mark. Stops at the first error.
pub open spec fn trade_fills(p: PortfolioView, owned: Set<OrderId>, t: Trade) -> (
    PortfolioView,
    Result<(), PortfolioError>,
) {
    let (p1, r1) = if owned.contains(t.taker_order_id) {
        fill_outcome(p, t.symbol@, t.aggressor_side, t.price.0, t.qty.0)
    } else {
        (p, Ok(()))
    };
    match r1 {
        Err(e) => (p1, Err(e)),
        Ok(()) => {
            let (p2, r2) = if owned.contains(t.maker_order_id) {
                fill_outcome(p1, t.symbol@, spec_opposite(t.aggressor_side), t.price.0, t.qty.0)
            } else {
                (p1, Ok(()))
            };
            match r2 {
                Err(e) => (p2, Err(e)),
                Ok(()) => (marked(p2, t.symbol@, t.price), Ok(())),
            }
        },
    }
}

/// Trades booked in order; stops at the first error.
pub open spec fn owned_fills(p: PortfolioView, owned: Set<OrderId>, trades: Seq<Trade>) -> (
    PortfolioView,
    Result<(), PortfolioError>,
)
    decreases trades.len(),
{
    if trades.len() == 0 {
        (p, Ok(()))
    } else {
        let (p1, r1) = owned_fills(p, owned, trades.drop_last());
        match r1 {
            Err(e) => (p1, Err(e)),
            Ok(()) => trade_fills(p1, owned, trades.last()),
        }
    }
}

/// A step's result as a call reports it: the outputs it appended, or its error.
pub open spec fn step_result(
    r: Result<(), RuntimeError>,
    before: Seq<RuntimeOutput>,
    after: Seq<RuntimeOutput>,
) -> Result<Seq<RuntimeOutput>, RuntimeError> {
    match r {
        Ok(()) => Ok(after.skip(before.len() as int)),
        Err(e) => Err(e),
    }
}

/// Once booking fails, later trades change nothing.
pub proof fn lemma_owned_fills_stop(p: PortfolioView, owned: Set<OrderId>, trades: Seq<Trade>, n: int)
    requires
        0 <= n <= trades.len(),
        owned_fills(p, owned, trades.take(n)).1 is Err,
    ensures
        owned_fills(p, owned, trades) == owned_fills(p, owned, trades.take(n)),
    decreases trades.len() - n,
{
    if n < trades.len() {
        assert(trades.take(n + 1).drop_last() =~= trades.take(n));
        lemma_owned_fills_stop(p, owned, trades, n + 1);
    } else {
        assert(trades.take(n) =~= trades);
    }
}

/// A new order submitted at `seq`/`ts`, owned by the portfolio when `owned_flag`: risk first
/// (a rejection is reported and touches nothing but the engine list), then a duplicate owned
/// ID is refused, then the engine processes it, owned fills are booked, and the post-trade
/// loss check runs.
pub open spec fn order_step(
    s: RuntimeState,
    seq: SequenceNumber,
    ts: TimestampNanos,
    order: Order,
    owned_flag: bool,
    s2: RuntimeState,
    res: Result<Seq<RuntimeOutput>, RuntimeError>,
) -> bool {
    let engines = with_engine(s.engines, order.symbol);
    match spec_check_new_order(s.risk.spec_limits(), s.risk.spec_killed(), order, s.portfolio@) {
        RiskDecision::Reject { reason } => {
            &&& s2 == RuntimeState { engines, ..s }
            &&& res == Ok::<Seq<RuntimeOutput>, RuntimeError>(
                seq![RuntimeOutput { seq, ts_ns: ts, kind: RuntimeOutputKind::RiskRejected { order_id: Some(order.order_id), reason } }],
            )
        },
        RiskDecision::Allow => if owned_flag && s.owned.contains(order.order_id) {
            &&& s2 == RuntimeState { engines, ..s }
            &&& res == Err::<Seq<RuntimeOutput>, RuntimeError>(RuntimeError::DuplicateOrderId(order.order_id))
        } else {
            let owned = if owned_flag {
                s.owned.insert(order.order_id)
            } else {
                s.owned
            };
            let (sym, m) = engines[order.symbol@];
            let out = spec_event(m, sym, InputEvent::NewOrder(NewOrderEvent { seq, order }), ts);
            let (pv, pr) = owned_fills(s.portfolio@, owned, out.trades);
            &&& s2.engines == engines.insert(order.symbol@, (sym, out.state))
            &&& s2.owned == owned
            &&& s2.portfolio.wf()
            &&& s2.portfolio@ == pv
            &&& match pr {
                Err(e) => s2.risk == s.risk && res == Err::<Seq<RuntimeOutput>, RuntimeError>(RuntimeError::Portfolio(e)),
                Ok(()) => {
                    &&& exists|lr: Result<bool, RiskRejectReason>| post_trade_loss_outcome(s.risk, s2.portfolio, s2.risk, lr)
                    &&& res == Ok::<Seq<RuntimeOutput>, RuntimeError>(runtime_outputs(seq, ts, out.reports, out.trades))
                },
            }
        },
    }
}

/// A cancel: the engine for `symbol` (a new one if none) processes it, and the order is no
/// longer owned.
pub open spec fn cancel_step(
    s: RuntimeState,
    seq: SequenceNumber,
    ts: TimestampNanos,
    order_id: OrderId,
    symbol: Symbol,
    s2: RuntimeState,
    res: Result<Seq<RuntimeOutput>, RuntimeError>,
) -> bool {
    let engines = with_engine(s.engines, symbol);
    let (sym, m) = engines[symbol@];
    let out = spec_event(m, sym, InputEvent::Cancel(CancelOrderEvent { seq, order_id, symbol, timestamp_ns: ts }), ts);
    &&& s2 == RuntimeState { engines: engines.insert(symbol@, (sym, out.state)), owned: s.owned.remove(order_id), ..s }
    &&& res == Ok::<Seq<RuntimeOutput>, RuntimeError>(runtime_outputs(seq, ts, out.reports, out.trades))
}

/// One external event. An order is portfolio-owned when it names a strategy; a timer only
/// reaches strategies.
pub open spec fn event_step(
    s: RuntimeState,
    e: RuntimeEvent,
    s2: RuntimeState,
    res: Result<Seq<RuntimeOutput>, RuntimeError>,
) -> bool {
    match e {
        RuntimeEvent::NewOrder { seq, ts_ns, order } => order_step(s, seq, ts_ns, order, order.strategy_id is Some, s2, res),
        RuntimeEvent::Cancel { seq, ts_ns, order_id, symbol } => cancel_step(s, seq, ts_ns, order_id, symbol, s2, res),
        RuntimeEvent::Timer { .. } => s2 == s && res == Ok::<Seq<RuntimeOutput>, RuntimeError>(Seq::empty()),
    }
}

/// The outputs of the successful steps, in order.
pub open spec fn concat_outputs(results: Seq<Result<Seq<RuntimeOutput>, RuntimeError>>) -> Seq<RuntimeOutput>
    decreases results.len(),
{
    if results.len() == 0 {
        Seq::empty()
    } else {
        concat_outputs(results.drop_last()) + match results.last() {
            Ok(o) => o,
            Err(_) => Seq::empty(),
        }
    }
}

/// A run of the first `results.len()` events: step `i` leads from `states[i]` to
/// `states[i + 1]` with result `results[i]`, and every step but the last succeeded.
pub open spec fn is_trace(
    states: Seq<RuntimeState>,
    events: Seq<RuntimeEvent>,
    results: Seq<Result<Seq<RuntimeOutput>, RuntimeError>>,
) -> bool {
    &&& states.len() == results.len() + 1
    &&& results.len() <= events.len()
    &&& forall|i: int| 0 <= i < results.len() ==> event_step(states[i], events[i], states[i + 1], #[trigger] results[i])
    &&& forall|i: int| 0 <= i < results.len() - 1 ==> (#[trigger] results[i]) is Ok
}

/// Events processed in order from `s`, ending in `s2`: either all of them, with the outputs
/// concatenated, or up to the first error, after which nothing more is processed.
pub open spec fn runs(
    s: RuntimeState,
    events: Seq<RuntimeEvent>,
    s2: RuntimeState,
    res: Result<Seq<RuntimeOutput>, RuntimeError>,
) -> bool {
    exists|states: Seq<RuntimeState>, results: Seq<Result<Seq<RuntimeOutput>, RuntimeError>>|
        #[trigger] is_trace(states, events, results) && states[0] == s && states.last() == s2 && if results.len() > 0
            && results.last() is Err {
            res == results.last()
        } else {
            results.len() == events.len() && res == Ok::<Seq<RuntimeOutput>, RuntimeError>(concat_outputs(results))
        }
}

/// States that no step can tell apart: the same engines and owned orders, well-formed
/// portfolios with the same contents, and risk managers with the same limits, kill switch,
/// starting equity and recorded reason.
pub open spec fn same_state(a: RuntimeState, b: RuntimeState) -> bool {
    &&& a.engines == b.engines
    &&& a.owned == b.owned
    &&& a.portfolio.wf()
    &&& b.portfolio.wf()
    &&& a.portfolio@ == b.portfolio@
    &&& a.risk.spec_limits() == b.risk.spec_limits()
    &&& a.risk.spec_killed() == b.risk.spec_killed()
    &&& a.risk.spec_starting_equity() == b.risk.spec_starting_equity()
    &&& a.risk.spec_kill_reason() == b.risk.spec_kill_reason()
}

/// The post-trade loss check leaves risk managers that agree on what they show, when it
/// starts from ones that agree and looks at portfolios with the same contents.
proof fn lemma_loss_check_same(
    b1: RiskManager,
    p1: Portfolio,
    a1: RiskManager,
    l1: Result<bool, RiskRejectReason>,
    b2: RiskManager,
    p2: Portfolio,
    a2: RiskManager,
    l2: Result<bool, RiskRejectReason>,
)
    requires
        post_trade_loss_outcome(b1, p1, a1, l1),
        post_trade_loss_outcome(b2, p2, a2, l2),
        p1.wf(),
        p2.wf(),
        p1@ == p2@,
        b1.spec_limits() == b2.spec_limits(),
        b1.spec_killed() == b2.spec_killed(),
        b1.spec_starting_equity() == b2.spec_starting_equity(),
        b1.spec_kill_reason() == b2.spec_kill_reason(),
    ensures
        l1 == l2,
        a1.spec_limits() == a2.spec_limits(),
        a1.spec_killed() == a2.spec_killed(),
        a1.spec_starting_equity() == a2.spec_starting_equity(),
        a1.spec_kill_reason() == a2.spec_kill_reason(),
{
    p1.lemma_equity_by_view(&p2);
}

/// One step from states that cannot be told apart gives the same result and again states
/// that cannot be told apart.
proof fn lemma_step_same(
    a: RuntimeState,
    b: RuntimeState,
    e: RuntimeEvent,
    a2: RuntimeState,
    b2: RuntimeState,
    ra: Result<Seq<RuntimeOutput>, RuntimeError>,
    rb: Result<Seq<RuntimeOutput>, RuntimeError>,
)
    requires
        same_state(a, b),
        event_step(a, e, a2, ra),
        event_step(b, e, b2, rb),
    ensures
        ra == rb,
        same_state(a2, b2),
{
    match e {
        RuntimeEvent::NewOrder { seq, ts_ns, order } => {
            let flag = order.strategy_id is Some;
            match spec_check_new_order(a.risk.spec_limits(), a.risk.spec_killed(), order, a.portfolio@) {
                RiskDecision::Reject { .. } => {},
                RiskDecision::Allow => {
                    if !(flag && a.owned.contains(order.order_id)) {
                        let owned = if flag {
                            a.owned.insert(order.order_id)
                        } else {
                            a.owned
                        };
                        let engines = with_engine(a.engines, order.symbol);
                        let (sym, m) = engines[order.symbol@];
                        let out = spec_event(m, sym, InputEvent::NewOrder(NewOrderEvent { seq, order }), ts_ns);
                        let (pv, pr) = owned_fills(a.portfolio@, owned, out.trades);
                        if pr is Ok {
                            let l1 = choose|lr: Result<bool, RiskRejectReason>|
                                post_trade_loss_outcome(a.risk, a2.portfolio, a2.risk, lr);
                            let l2 = choose|lr: Result<bool, RiskRejectReason>|
                                post_trade_loss_outcome(b.risk, b2.portfolio, b2.risk, lr);
                            lemma_loss_check_same(a.risk, a2.portfolio, a2.risk, l1, b.risk, b2.portfolio, b2.risk, l2);
                        }
                    }
                },
            }
        },
        _ => {},
    }
}

/// Two traces of the same events from states that cannot be told apart agree, step by step,
/// on their first `n` results and states.
proof fn lemma_traces_agree(
    events: Seq<RuntimeEvent>,
    sa: Seq<RuntimeState>,
    ra: Seq<Result<Seq<RuntimeOutput>, RuntimeError>>,
    sb: Seq<RuntimeState>,
    rb: Seq<Result<Seq<RuntimeOutput>, RuntimeError>>,
    n: int,
)
    requires
        is_trace(sa, events, ra),
        is_trace(sb, events, rb),
        same_state(sa[0], sb[0]),
        0 <= n <= ra.len(),
        n <= rb.len(),
    ensures
        same_state(sa[n], sb[n]),
        forall|i: int| 0 <= i < n ==> #[trigger] ra[i] == rb[i],
    decreases n,
{
    if n > 0 {
        lemma_traces_agree(events, sa, ra, sb, rb, n - 1);
        lemma_step_same(sa[n - 1], sb[n - 1], events[n - 1], sa[n], sb[n], ra[n - 1], rb[n - 1]);
    }
}

/// The strategy-free runtime is deterministic: two runs of the same events from the same
/// state (with a well-formed portfolio) report the same result, and end in states that no
/// later step can tell apart.
pub proof fn law_runs_deterministic(
    s: RuntimeState,
    events: Seq<RuntimeEvent>,
    s1: RuntimeState,
    r1: Result<Seq<RuntimeOutput>, RuntimeError>,
    s2: RuntimeState,
    r2: Result<Seq<RuntimeOutput>, RuntimeError>,
)
    requires
        s.portfolio.wf(),
        runs(s, events, s1, r1),
        runs(s, events, s2, r2),
    ensures
        r1 == r2,
        same_state(s1, s2),
{
    let (sa, ra) = choose|states: Seq<RuntimeState>, results: Seq<Result<Seq<RuntimeOutput>, RuntimeError>>|
        #[trigger] is_trace(states, events, results) && states[0] == s && states.last() == s1 && if results.len() > 0
            && results.last() is Err {
            r1 == results.last()
        } else {
            results.len() == events.len() && r1 == Ok::<Seq<RuntimeOutput>, RuntimeError>(concat_outputs(results))
        };
    let (sb, rb) = choose|states: Seq<RuntimeState>, results: Seq<Result<Seq<RuntimeOutput>, RuntimeError>>|
        #[trigger] is_trace(states, events, results) && states[0] == s && states.last() == s2 && if results.len() > 0
            && results.last() is Err {
            r2 == results.last()
        } else {
            results.len() == events.len() && r2 == Ok::<Seq<RuntimeOutput>, RuntimeError>(concat_outputs(results))
        };
    let n = if ra.len() <= rb.len() { ra.len() as int } else { rb.len() as int };
    lemma_traces_agree(events, sa, ra, sb, rb, n);
    if ra.len() < rb.len() {
        // The shorter trace ended early, so with an error that the longer one repeats.
        assert(ra.len() > 0 ==> ra.last() == rb[ra.len() - 1]);
        assert(rb[ra.len() - 1] is Ok || ra.len() == 0);
        assert(false);
    } else if rb.len() < ra.len() {
        assert(rb.len() > 0 ==> rb.last() == ra[rb.len() - 1]);
        assert(ra[rb.len() - 1] is Ok || rb.len() == 0);
        assert(false);
    }
    assert(ra =~= rb);
}

/// A batch's result: the run's outputs, unless the run failed or the final portfolio cannot
/// be summarized.
pub open spec fn batch_result(run: Result<Seq<RuntimeOutput>, RuntimeError>, p: Portfolio) -> Result<
    Seq<RuntimeOutput>,
    RuntimeError,
> {
    match run {
        Err(e) => Err(e),
        Ok(o) => match snapshot_failure(p) {
            Some(pe) => Err(RuntimeError::Portfolio(pe)),
            None => Ok(o),
        },
    }
}

} // verus!
