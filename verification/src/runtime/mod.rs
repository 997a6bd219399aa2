//! Deterministic runtime orchestration: symbol routing to matching engines, risk checks,
//! the portfolio, strategies, and ordered output collection. Strategy intents are bounded
//! per external event and always pass through risk before matching.
pub mod model;

use std::collections::{HashMap, HashSet};

use vstd::prelude::*;

use crate::book::order_book::side_snapshot_of;
use crate::book::snapshot::BookSnapshot;
use crate::events::{CancelOrderEvent, ExecutionReport, InputEvent, NewOrderEvent, RejectReason, Trade};
use crate::keyed::{lemma_text_lt_irreflexive, lemma_text_lt_total, lemma_text_lt_transitive, symbol_lt, text_lt};
use crate::matching::laws::{fill_count, is_fill, law_one_trade_per_fill};
use crate::matching::model::{spec_event, EngineModel};
use crate::matching::MatchingEngine;
use crate::portfolio::{fresh_view, is_snapshot_of, snapshot_failure, Money, Portfolio, PortfolioError, PortfolioSnapshot, PortfolioView};
use crate::risk::{post_trade_loss_outcome, spec_check_new_order, RiskDecision, RiskLimits, RiskManager, RiskRejectReason};
use crate::strategy::{Strategy, StrategyCommand, StrategyContext, StrategyEvent};
use crate::types::{spec_opposite, Order, OrderId, Qty, SequenceNumber, Side, StrategyId, Symbol, TimestampNanos};

use self::model::{
    batch_result, cancel_step, concat_outputs, empty_model, engines_for, event_step, is_trace, lemma_owned_fills_stop, order_step,
    owned_fills, runs, step_result, trade_fills, with_engine, RuntimeState, StepResult,
};

verus! {

broadcast use {vstd::seq_lib::group_seq_properties, vstd::std_specs::hash::group_hash_axioms};

/// Default cap on strategy commands executed per strategy and external event.
pub const DEFAULT_MAX_STRATEGY_COMMANDS_PER_EVENT: usize = 16;

/// Maximum nesting of strategy dispatch (an external event is depth 1).
pub const MAX_STRATEGY_DISPATCH_DEPTH: u32 = 2;

#[derive(Debug, Clone, PartialEq, Eq)]
pub enum RuntimeError {
    SymbolMismatch { engine: Symbol, order: Symbol },
    UnknownSymbol(Symbol),
    Portfolio(PortfolioError),
    StrategyBudgetExceeded { limit: usize },
    DuplicateOrderId(OrderId),
    DuplicateSequence { seq: SequenceNumber },
    OutOfOrderSequence { previous: SequenceNumber, seq: SequenceNumber },
}

#[derive(Debug, Clone, PartialEq, Eq)]
pub struct RuntimeOutput {
    pub seq: SequenceNumber,
    pub ts_ns: TimestampNanos,
    pub kind: RuntimeOutputKind,
}

#[derive(Debug, Clone, PartialEq, Eq)]
pub enum RuntimeOutputKind {
    Accepted { order_id: OrderId },
    Rejected { order_id: Option<OrderId>, reason: RejectReason },
    RiskRejected { order_id: Option<OrderId>, reason: RiskRejectReason },
    Trade { trade: Trade },
    Cancelled { order_id: OrderId },
    Expired { order_id: OrderId, remaining: Qty },
    StrategyCommandsDropped { strategy_id: StrategyId, dropped: u64 },
}

#[derive(Debug, Clone, PartialEq, Eq)]
pub struct RuntimeConfig {
    pub starting_cash: Money,
    pub risk_limits: RiskLimits,
    pub max_strategy_commands_per_event: usize,
    /// First order ID the runtime assigns to strategy orders.
    pub next_order_id: OrderId,
}

impl Default for RuntimeConfig {
    fn default() -> (r: Self)
        ensures
            r.starting_cash == 1_000_000,
            r.max_strategy_commands_per_event == DEFAULT_MAX_STRATEGY_COMMANDS_PER_EVENT,
            r.next_order_id == 1_000_000,
            r.risk_limits.max_order_qty is None,
            r.risk_limits.max_abs_position is None,
            r.risk_limits.max_gross_notional is None,
            r.risk_limits.max_total_loss is None,
    {
        RuntimeConfig {
            starting_cash: 1_000_000,
            risk_limits: RiskLimits::default(),
            max_strategy_commands_per_event: DEFAULT_MAX_STRATEGY_COMMANDS_PER_EVENT,
            next_order_id: 1_000_000,
        }
    }
}

#[derive(Debug, Clone, PartialEq, Eq)]
pub struct RuntimeResult {
    pub outputs: Vec<RuntimeOutput>,
    pub portfolio: PortfolioSnapshot,
    pub books: Vec<BookSnapshot>,
}

/// External events the runtime accepts.
#[derive(Debug, Clone, PartialEq, Eq)]
pub enum RuntimeEvent {
    NewOrder { seq: SequenceNumber, ts_ns: TimestampNanos, order: Order },
    Cancel { seq: SequenceNumber, ts_ns: TimestampNanos, order_id: OrderId, symbol: Symbol },
    Timer { seq: SequenceNumber, ts_ns: TimestampNanos, symbol: Option<Symbol> },
}

pub open spec fn spec_event_seq(e: RuntimeEvent) -> SequenceNumber {
    match e {
        RuntimeEvent::NewOrder { seq, .. } => seq,
        RuntimeEvent::Cancel { seq, .. } => seq,
        RuntimeEvent::Timer { seq, .. } => seq,
    }
}

/// The sequence number an event carries.
pub fn event_seq(event: &RuntimeEvent) -> (r: SequenceNumber)
    ensures
        r == spec_event_seq(*event),
{
    match event {
        RuntimeEvent::NewOrder { seq, .. } => *seq,
        RuntimeEvent::Cancel { seq, .. } => *seq,
        RuntimeEvent::Timer { seq, .. } => *seq,
    }
}

/// The first sequence violation in a batch, starting after `last`.
pub open spec fn runtime_sequence_error(last: Option<SequenceNumber>, events: Seq<RuntimeEvent>) -> Option<
    RuntimeError,
>
    decreases events.len(),
{
    if events.len() == 0 {
        None
    } else {
        let s = spec_event_seq(events[0]);
        match last {
            Some(p) => if s == p {
                Some(RuntimeError::DuplicateSequence { seq: s })
            } else if s < p {
                Some(RuntimeError::OutOfOrderSequence { previous: p, seq: s })
            } else {
                runtime_sequence_error(Some(s), events.drop_first())
            },
            None => runtime_sequence_error(Some(s), events.drop_first()),
        }
    }
}

/// The output for one execution report; a fill report carries its trade.
pub open spec fn runtime_kind(r: ExecutionReport, trade: Trade) -> Option<RuntimeOutputKind> {
    match r {
        ExecutionReport::Accepted { order_id } => Some(RuntimeOutputKind::Accepted { order_id }),
        ExecutionReport::Filled { .. } => Some(RuntimeOutputKind::Trade { trade }),
        ExecutionReport::PartiallyFilled { .. } => Some(RuntimeOutputKind::Trade { trade }),
        ExecutionReport::Rested { .. } => None,
        ExecutionReport::Cancelled { order_id } => Some(RuntimeOutputKind::Cancelled { order_id }),
        ExecutionReport::Expired { order_id, remaining } => Some(RuntimeOutputKind::Expired { order_id, remaining }),
        ExecutionReport::Rejected { order_id, reason } => Some(
            RuntimeOutputKind::Rejected { order_id: Some(order_id), reason },
        ),
    }
}

/// Outputs for a batch of reports: the k-th fill report carries the k-th trade.
pub open spec fn runtime_outputs(
    seq: SequenceNumber,
    ts: TimestampNanos,
    reports: Seq<ExecutionReport>,
    trades: Seq<Trade>,
) -> Seq<RuntimeOutput>
    decreases reports.len(),
{
    if reports.len() == 0 {
        Seq::empty()
    } else {
        let prev = runtime_outputs(seq, ts, reports.drop_last(), trades);
        match runtime_kind(reports.last(), trades[fill_count(reports.drop_last()) as int]) {
            Some(kind) => prev.push(RuntimeOutput { seq, ts_ns: ts, kind }),
            None => prev,
        }
    }
}

proof fn lemma_fill_count_prefix(s: Seq<ExecutionReport>, n: int)
    requires
        0 <= n <= s.len(),
    ensures
        fill_count(s.take(n)) <= fill_count(s),
    decreases s.len() - n,
{
    if n < s.len() {
        lemma_fill_count_prefix(s, n + 1);
        assert(s.take(n + 1).drop_last() =~= s.take(n));
    } else {
        assert(s.take(n) =~= s);
    }
}

/// Engines in strictly ascending symbol order, each well formed.
pub open spec fn engines_ok(engines: Seq<MatchingEngine>) -> bool {
    &&& forall|i: int| 0 <= i < engines.len() ==> (#[trigger] engines[i]).wf()
    &&& forall|i: int, j: int|
        0 <= i < j < engines.len() ==> text_lt(#[trigger] engines[i].spec_symbol()@, #[trigger] engines[j].spec_symbol()@)
}

/// Some engine trades `symbol`.
pub open spec fn has_symbol(engines: Seq<MatchingEngine>, symbol: Seq<char>) -> bool {
    exists|j: int| 0 <= j < engines.len() && (#[trigger] engines[j]).spec_symbol()@ == symbol
}

/// Where among the engines the one trading `symbol` is.
pub open spec fn engine_index(engines: Seq<MatchingEngine>, symbol: Seq<char>) -> int {
    choose|j: int| 0 <= j < engines.len() && (#[trigger] engines[j]).spec_symbol()@ == symbol
}

/// Each traded symbol's engine symbol and state.
pub open spec fn engine_map(engines: Seq<MatchingEngine>) -> Map<Seq<char>, (Symbol, EngineModel)> {
    Map::new(
        |s: Seq<char>| has_symbol(engines, s),
        |s: Seq<char>| (engines[engine_index(engines, s)].spec_symbol(), engines[engine_index(engines, s)].model()),
    )
}

/// In strictly ordered engines, each engine is the one found for its own symbol.
pub proof fn lemma_engine_map_at(engines: Seq<MatchingEngine>, j: int)
    requires
        engines_ok(engines),
        0 <= j < engines.len(),
    ensures
        engine_map(engines).contains_key(engines[j].spec_symbol()@),
        engine_map(engines)[engines[j].spec_symbol()@] == (engines[j].spec_symbol(), engines[j].model()),
        engine_index(engines, engines[j].spec_symbol()@) == j,
{
    let s = engines[j].spec_symbol()@;
    assert(has_symbol(engines, s));
    let k = engine_index(engines, s);
    if k < j {
        assert(text_lt(engines[k].spec_symbol()@, engines[j].spec_symbol()@));
        lemma_text_lt_irreflexive(s);
    } else if k > j {
        assert(text_lt(engines[j].spec_symbol()@, engines[k].spec_symbol()@));
        lemma_text_lt_irreflexive(s);
    }
}

/// Where the engine for `symbol` is, or where it would go.
fn find_engine(engines: &Vec<MatchingEngine>, symbol: &Symbol) -> (r: (usize, bool))
    requires
        engines_ok(engines@),
    ensures
        r.0 <= engines@.len(),
        forall|j: int| 0 <= j < r.0 ==> text_lt(#[trigger] engines@[j].spec_symbol()@, symbol@),
        r.1 ==> r.0 < engines@.len() && engines@[r.0 as int].spec_symbol()@ == symbol@,
        !r.1 ==> r.0 < engines@.len() ==> text_lt(symbol@, engines@[r.0 as int].spec_symbol()@),
        !r.1 ==> forall|j: int| 0 <= j < engines@.len() ==> (#[trigger] engines@[j]).spec_symbol()@ != symbol@,
{
    let mut i: usize = 0;
    while i < engines.len()
        invariant
            0 <= i <= engines@.len(),
            engines_ok(engines@),
            forall|j: int| 0 <= j < i ==> text_lt(#[trigger] engines@[j].spec_symbol()@, symbol@),
        decreases engines@.len() - i,
    {
        let s = engines[i].book().symbol();
        if !symbol_lt(s, symbol) {
            let found = s.same_as(symbol);
            proof {
                lemma_text_lt_total(engines@[i as int].spec_symbol()@, symbol@);
                if !found {
                    assert forall|j: int| 0 <= j < engines@.len() implies (#[trigger] engines@[j]).spec_symbol()@ != symbol@ by {
                        if j < i {
                            lemma_text_lt_irreflexive(symbol@);
                        } else if j > i {
                            assert(text_lt(engines@[i as int].spec_symbol()@, engines@[j].spec_symbol()@));
                            if engines@[j].spec_symbol()@ == symbol@ {
                                lemma_text_lt_transitive(symbol@, engines@[i as int].spec_symbol()@, symbol@);
                                lemma_text_lt_irreflexive(symbol@);
                            }
                        }
                    }
                }
            }
            return (i, found);
        }
        i = i + 1;
    }
    proof {
        assert forall|j: int| 0 <= j < engines@.len() implies (#[trigger] engines@[j]).spec_symbol()@ != symbol@ by {
            lemma_text_lt_irreflexive(symbol@);
        }
    }
    (i, false)
}

/// `b` is the full-depth snapshot of the engine's book.
pub open spec fn book_snapshot_of(b: BookSnapshot, e: MatchingEngine) -> bool {
    &&& b.symbol == e.spec_symbol()
    &&& side_snapshot_of(b.bids@, e.model().bids, usize::MAX)
    &&& side_snapshot_of(b.asks@, e.model().asks, usize::MAX)
}

/// What the runtime does with the commands a strategy returned for one event: it keeps at
/// most `limit` of them, the first ones, and when it drops any it reports how many.
pub fn cap_strategy_commands(
    strategy_id: StrategyId,
    seq: SequenceNumber,
    ts_ns: TimestampNanos,
    commands: Vec<StrategyCommand>,
    limit: usize,
    outputs: &mut Vec<RuntimeOutput>,
) -> (r: Vec<StrategyCommand>)
    ensures
        commands@.len() <= limit ==> r@ == commands@ && final(outputs)@ == old(outputs)@,
        commands@.len() > limit ==> r@ == commands@.take(limit as int) && final(outputs)@ == old(outputs)@.push(
            (RuntimeOutput {
                seq,
                ts_ns,
                kind: RuntimeOutputKind::StrategyCommandsDropped {
                    strategy_id,
                    dropped: (commands@.len() - limit) as u64,
                },
            }),
        ),
{
    let mut commands = commands;
    if commands.len() > limit {
        let dropped = (commands.len() - limit) as u64;
        commands.truncate(limit);
        outputs.push(
            RuntimeOutput { seq, ts_ns, kind: RuntimeOutputKind::StrategyCommandsDropped { strategy_id, dropped } },
        );
    }
    commands
}

/// A run of `events` in which strategy callbacks may follow each event's own step: event `i`
/// is stepped from `pre[i]` to `mid[i]` and succeeds with outputs `outs[i]`, the first from
/// `s`; those outputs stand in `outputs` at `at[i]`, the first at the start, each after the
/// ones before it (callback outputs may stand in between and after).
pub open spec fn callback_run(
    s: RuntimeState,
    events: Seq<RuntimeEvent>,
    pre: Seq<RuntimeState>,
    mid: Seq<RuntimeState>,
    outs: Seq<Seq<RuntimeOutput>>,
    at: Seq<int>,
    outputs: Seq<RuntimeOutput>,
) -> bool {
    &&& pre.len() == events.len()
    &&& mid.len() == events.len()
    &&& outs.len() == events.len()
    &&& at.len() == events.len()
    &&& events.len() > 0 ==> pre[0] == s && at[0] == 0
    &&& forall|i: int|
        0 <= i < events.len() ==> #[trigger] event_step(pre[i], events[i], mid[i], Ok::<Seq<RuntimeOutput>, RuntimeError>(outs[i]))
    &&& forall|i: int|
        0 <= i < events.len() ==> 0 <= #[trigger] at[i] && at[i] + outs[i].len() <= outputs.len() && outputs.subrange(
            at[i],
            at[i] + outs[i].len(),
        ) == outs[i]
    &&& forall|i: int| 0 <= i < events.len() - 1 ==> #[trigger] at[i] + outs[i].len() <= at[i + 1]
}

/// A run of one strategy's commands in which callbacks may follow each command's own step:
/// command `k` is stepped from `pre[k]` to `mid[k]`, with order ID `ids[k]` for a new order,
/// and succeeds with outputs `outs[k]`; the first starts from `s` with `first_id`; those
/// outputs stand in `outputs` at `at[k]`, the first at the start, each after the ones before.
pub open spec fn command_run(
    s: RuntimeState,
    seq: SequenceNumber,
    ts_ns: TimestampNanos,
    strategy_id: StrategyId,
    first_id: OrderId,
    commands: Seq<StrategyCommand>,
    pre: Seq<RuntimeState>,
    mid: Seq<RuntimeState>,
    ids: Seq<OrderId>,
    outs: Seq<Seq<RuntimeOutput>>,
    at: Seq<int>,
    outputs: Seq<RuntimeOutput>,
) -> bool {
    &&& pre.len() == commands.len()
    &&& mid.len() == commands.len()
    &&& ids.len() == commands.len()
    &&& outs.len() == commands.len()
    &&& at.len() == commands.len()
    &&& commands.len() > 0 ==> pre[0] == s && ids[0] == first_id && at[0] == 0
    &&& forall|k: int|
        0 <= k < commands.len() ==> #[trigger] command_step(
            pre[k],
            seq,
            ts_ns,
            strategy_id,
            ids[k],
            commands[k],
            mid[k],
            Ok::<Seq<RuntimeOutput>, RuntimeError>(outs[k]),
        )
    &&& forall|k: int|
        0 <= k < commands.len() ==> 0 <= #[trigger] at[k] && at[k] + outs[k].len() <= outputs.len() && outputs.subrange(
            at[k],
            at[k] + outs[k].len(),
        ) == outs[k]
    &&& forall|k: int| 0 <= k < commands.len() - 1 ==> #[trigger] at[k] + outs[k].len() <= at[k + 1]
}

/// What one strategy's commands delivered to strategies at depth `d`, command by command:
/// command `k`, its own step taken from `pre[k]` with order ID `ids[k]` for a new order,
/// delivered all of its notices between `spans[k].0` and `spans[k].1`; the spans follow
/// one another from log `before` to log `after`.
pub open spec fn command_delivery_run(
    seq: SequenceNumber,
    ts_ns: TimestampNanos,
    strategy_id: StrategyId,
    commands: Seq<StrategyCommand>,
    pre: Seq<RuntimeState>,
    ids: Seq<OrderId>,
    spans: Seq<(Seq<(u32, StrategyEvent)>, Seq<(u32, StrategyEvent)>)>,
    before: Seq<(u32, StrategyEvent)>,
    after: Seq<(u32, StrategyEvent)>,
    d: u32,
) -> bool {
    &&& spans.len() == commands.len()
    &&& commands.len() == 0 ==> after == before
    &&& commands.len() > 0 ==> spans[0].0 == before && spans.last().1 == after
    &&& forall|k: int| 0 < k < spans.len() ==> (#[trigger] spans[k]).0 == spans[k - 1].1
    &&& forall|k: int|
        0 <= k < spans.len() ==> delivers(
            (#[trigger] spans[k]).0,
            spans[k].1,
            d,
            command_notices(pre[k], seq, ts_ns, strategy_id, ids[k], commands[k]),
            true,
        )
}

/// A run of one strategy's commands (`command_run`), and, when strategies are called back
/// (some are registered and depth `d` is below the bound), what it delivered to them
/// (`command_delivery_run`).
pub open spec fn command_callback_run(
    s: RuntimeState,
    seq: SequenceNumber,
    ts_ns: TimestampNanos,
    strategy_id: StrategyId,
    first_id: OrderId,
    commands: Seq<StrategyCommand>,
    pre: Seq<RuntimeState>,
    mid: Seq<RuntimeState>,
    ids: Seq<OrderId>,
    outs: Seq<Seq<RuntimeOutput>>,
    at: Seq<int>,
    outputs: Seq<RuntimeOutput>,
    strategy_count: nat,
    d: u32,
    spans: Seq<(Seq<(u32, StrategyEvent)>, Seq<(u32, StrategyEvent)>)>,
    before: Seq<(u32, StrategyEvent)>,
    after: Seq<(u32, StrategyEvent)>,
) -> bool {
    &&& command_run(s, seq, ts_ns, strategy_id, first_id, commands, pre, mid, ids, outs, at, outputs)
    &&& strategy_count > 0 && d < MAX_STRATEGY_DISPATCH_DEPTH ==> command_delivery_run(
        seq,
        ts_ns,
        strategy_id,
        commands,
        pre,
        ids,
        spans,
        before,
        after,
        d,
    )
}

/// A command delivery run grows by one command whose notices lie between `mid_log` and
/// `after`.
proof fn lemma_command_delivery_push(
    seq: SequenceNumber,
    ts_ns: TimestampNanos,
    strategy_id: StrategyId,
    commands: Seq<StrategyCommand>,
    pre: Seq<RuntimeState>,
    ids: Seq<OrderId>,
    spans: Seq<(Seq<(u32, StrategyEvent)>, Seq<(u32, StrategyEvent)>)>,
    before: Seq<(u32, StrategyEvent)>,
    mid_log: Seq<(u32, StrategyEvent)>,
    d: u32,
    command: StrategyCommand,
    st: RuntimeState,
    id: OrderId,
    after: Seq<(u32, StrategyEvent)>,
)
    requires
        command_delivery_run(seq, ts_ns, strategy_id, commands, pre, ids, spans, before, mid_log, d),
        pre.len() == commands.len(),
        ids.len() == commands.len(),
        delivers(mid_log, after, d, command_notices(st, seq, ts_ns, strategy_id, id, command), true),
    ensures
        command_delivery_run(
            seq,
            ts_ns,
            strategy_id,
            commands.push(command),
            pre.push(st),
            ids.push(id),
            spans.push((mid_log, after)),
            before,
            after,
            d,
        ),
{
    let spans2 = spans.push((mid_log, after));
    let pre2 = pre.push(st);
    let ids2 = ids.push(id);
    let cs2 = commands.push(command);
    assert forall|k: int| 0 < k < spans2.len() implies (#[trigger] spans2[k]).0 == spans2[k - 1].1 by {
        if k < spans.len() {
            assert(spans2[k] == spans[k]);
        }
        assert(spans2[k - 1] == spans[k - 1]);
    }
    assert forall|k: int| 0 <= k < spans2.len() implies delivers(
        (#[trigger] spans2[k]).0,
        spans2[k].1,
        d,
        command_notices(pre2[k], seq, ts_ns, strategy_id, ids2[k], cs2[k]),
        true,
    ) by {
        if k < spans.len() {
            assert(spans2[k] == spans[k]);
            assert(pre2[k] == pre[k] && ids2[k] == ids[k] && cs2[k] == commands[k]);
        }
    }
}

/// The order ID the runtime hands out after a command: a new order takes one (saturating at
/// the largest ID), a cancel none.
pub open spec fn next_command_id(id: OrderId, command: StrategyCommand) -> OrderId {
    match command {
        StrategyCommand::PlaceOrder { .. } => if id == u64::MAX {
            id
        } else {
            (id + 1) as u64
        },
        StrategyCommand::Cancel { .. } => id,
    }
}

/// A run of the first `results.len()` commands with no strategy called back: command `i`
/// leads from `states[i]` with order ID `ids[i]` to `states[i + 1]` and `ids[i + 1]` with
/// result `results[i]`, and every command but the last succeeded.
pub open spec fn command_trace(
    seq: SequenceNumber,
    ts_ns: TimestampNanos,
    strategy_id: StrategyId,
    states: Seq<RuntimeState>,
    ids: Seq<OrderId>,
    commands: Seq<StrategyCommand>,
    results: Seq<StepResult>,
) -> bool {
    &&& states.len() == results.len() + 1
    &&& ids.len() == results.len() + 1
    &&& results.len() <= commands.len()
    &&& forall|i: int|
        0 <= i < results.len() ==> command_step(states[i], seq, ts_ns, strategy_id, ids[i], commands[i], states[i + 1], #[trigger] results[i])
            && ids[i + 1] == next_command_id(ids[i], commands[i])
    &&& forall|i: int| 0 <= i < results.len() - 1 ==> (#[trigger] results[i]) is Ok
}

/// Commands carried out in order from `s` with next order ID `first_id`, no strategy called
/// back, ending in `s2` with next order ID `last_id`: either all of them, with their outputs
/// concatenated, or up to the first error, after which nothing more is carried out.
pub open spec fn command_runs(
    s: RuntimeState,
    seq: SequenceNumber,
    ts_ns: TimestampNanos,
    strategy_id: StrategyId,
    first_id: OrderId,
    commands: Seq<StrategyCommand>,
    s2: RuntimeState,
    last_id: OrderId,
    res: StepResult,
) -> bool {
    exists|states: Seq<RuntimeState>, ids: Seq<OrderId>, results: Seq<StepResult>|
        #[trigger] command_trace(seq, ts_ns, strategy_id, states, ids, commands, results) && states[0] == s && ids[0] == first_id
            && states.last() == s2 && ids.last() == last_id && if results.len() > 0 && results.last() is Err {
            res == results.last()
        } else {
            results.len() == commands.len() && res == Ok::<Seq<RuntimeOutput>, RuntimeError>(concat_outputs(results))
        }
}

/// How a run of commands stopped at command `k == pre.len()`: the commands before it
/// succeeded as `command_run` describes, their outputs standing in `at_k.skip(before.len())`;
/// command `k` was stepped from `pre_k` with order ID `id_k` (the run's start when `k` is
/// zero) to `m` with result `res0`, and the call's result `r`, state `s2` and outputs `after`
/// follow from it as `step_then_callbacks` says.
pub open spec fn command_failure(
    s: RuntimeState,
    seq: SequenceNumber,
    ts_ns: TimestampNanos,
    strategy_id: StrategyId,
    first_id: OrderId,
    commands: Seq<StrategyCommand>,
    pre: Seq<RuntimeState>,
    mid: Seq<RuntimeState>,
    ids: Seq<OrderId>,
    outs: Seq<Seq<RuntimeOutput>>,
    at: Seq<int>,
    pre_k: RuntimeState,
    id_k: OrderId,
    m: RuntimeState,
    res0: StepResult,
    before: Seq<RuntimeOutput>,
    at_k: Seq<RuntimeOutput>,
    r: Result<(), RuntimeError>,
    s2: RuntimeState,
    after: Seq<RuntimeOutput>,
) -> bool {
    let k = pre.len() as int;
    &&& k < commands.len()
    &&& before.is_prefix_of(at_k)
    &&& command_run(s, seq, ts_ns, strategy_id, first_id, commands.take(k), pre, mid, ids, outs, at, at_k.skip(before.len() as int))
    &&& k == 0 ==> pre_k == s && id_k == first_id && at_k == before
    &&& command_step(pre_k, seq, ts_ns, strategy_id, id_k, commands[k], m, res0)
    &&& step_then_callbacks(m, res0, r, s2, at_k, after)
}

/// A command trace grows by one command stepped from where it stands.
proof fn lemma_command_trace_push(
    seq: SequenceNumber,
    ts_ns: TimestampNanos,
    strategy_id: StrategyId,
    states: Seq<RuntimeState>,
    ids: Seq<OrderId>,
    commands: Seq<StrategyCommand>,
    results: Seq<StepResult>,
    o0: Seq<RuntimeOutput>,
    o_before: Seq<RuntimeOutput>,
    o_after: Seq<RuntimeOutput>,
    s_after: RuntimeState,
    id_after: OrderId,
    res: Result<(), RuntimeError>,
)
    requires
        command_trace(seq, ts_ns, strategy_id, states, ids, commands, results),
        results.len() < commands.len(),
        forall|i: int| 0 <= i < results.len() ==> (#[trigger] results[i]) is Ok,
        concat_outputs(results) == o_before.skip(o0.len() as int),
        o0.is_prefix_of(o_before),
        o_before.is_prefix_of(o_after),
        command_step(
            states.last(),
            seq,
            ts_ns,
            strategy_id,
            ids.last(),
            commands[results.len() as int],
            s_after,
            step_result(res, o_before, o_after),
        ),
        id_after == next_command_id(ids.last(), commands[results.len() as int]),
    ensures
        ({
            let results2 = results.push(step_result(res, o_before, o_after));
            &&& command_trace(seq, ts_ns, strategy_id, states.push(s_after), ids.push(id_after), commands, results2)
            &&& res is Ok ==> concat_outputs(results2) == o_after.skip(o0.len() as int)
        }),
{
    let n = results.len() as int;
    let results2 = results.push(step_result(res, o_before, o_after));
    let states2 = states.push(s_after);
    let ids2 = ids.push(id_after);
    assert forall|i: int| 0 <= i < results2.len() implies command_step(
        states2[i],
        seq,
        ts_ns,
        strategy_id,
        ids2[i],
        commands[i],
        states2[i + 1],
        #[trigger] results2[i],
    ) && ids2[i + 1] == next_command_id(ids2[i], commands[i]) by {
        if i < n {
            assert(results2[i] == results[i]);
            assert(states2[i] == states[i] && states2[i + 1] == states[i + 1]);
            assert(ids2[i] == ids[i] && ids2[i + 1] == ids[i + 1]);
        }
    }
    assert forall|i: int| 0 <= i < results2.len() - 1 implies (#[trigger] results2[i]) is Ok by {
        assert(results2[i] == results[i]);
    }
    assert(results2.drop_last() =~= results);
    if res is Ok {
        assert(o_before.skip(o0.len() as int) + o_after.skip(o_before.len() as int) =~= o_after.skip(o0.len() as int)) by {
            assert forall|j: int| 0 <= j < o_before.len() implies #[trigger] o_after[j] == o_before[j] by {}
        }
    }
}

/// A run of commands grows by one command whose own step succeeded with `out_c`, where the
/// outputs so far were `o_before` and `o_before + out_c` begins the outputs after it.
proof fn lemma_command_run_push(
    s: RuntimeState,
    seq: SequenceNumber,
    ts_ns: TimestampNanos,
    strategy_id: StrategyId,
    first_id: OrderId,
    commands: Seq<StrategyCommand>,
    pres: Seq<RuntimeState>,
    mids: Seq<RuntimeState>,
    ids: Seq<OrderId>,
    outs: Seq<Seq<RuntimeOutput>>,
    ats: Seq<int>,
    o0: Seq<RuntimeOutput>,
    o_before: Seq<RuntimeOutput>,
    o_after: Seq<RuntimeOutput>,
    st_before: RuntimeState,
    id_before: OrderId,
    command: StrategyCommand,
    m: RuntimeState,
    out_c: Seq<RuntimeOutput>,
)
    requires
        command_run(s, seq, ts_ns, strategy_id, first_id, commands, pres, mids, ids, outs, ats, o_before.skip(o0.len() as int)),
        commands.len() == 0 ==> st_before == s && id_before == first_id && o_before == o0,
        o0.is_prefix_of(o_before),
        (o_before + out_c).is_prefix_of(o_after),
        command_step(st_before, seq, ts_ns, strategy_id, id_before, command, m, Ok::<Seq<RuntimeOutput>, RuntimeError>(out_c)),
    ensures
        command_run(
            s,
            seq,
            ts_ns,
            strategy_id,
            first_id,
            commands.push(command),
            pres.push(st_before),
            mids.push(m),
            ids.push(id_before),
            outs.push(out_c),
            ats.push(o_before.len() - o0.len()),
            o_after.skip(o0.len() as int),
        ),
{
    let c = commands.len() as int;
    let app = o_after.skip(o0.len() as int);
    let app_before = o_before.skip(o0.len() as int);
    let pres2 = pres.push(st_before);
    let mids2 = mids.push(m);
    let ids2 = ids.push(id_before);
    let outs2 = outs.push(out_c);
    let ats2 = ats.push(o_before.len() - o0.len());
    let cs2 = commands.push(command);
    let pre_c = o_before + out_c;
    assert forall|j: int| 0 <= j < o_before.len() implies #[trigger] o_after[j] == o_before[j] by {
        assert(pre_c[j] == o_before[j]);
    }
    assert forall|i: int| 0 <= i < cs2.len() implies #[trigger] command_step(
        pres2[i],
        seq,
        ts_ns,
        strategy_id,
        ids2[i],
        cs2[i],
        mids2[i],
        Ok::<Seq<RuntimeOutput>, RuntimeError>(outs2[i]),
    ) by {
        if i < c {
            assert(cs2[i] == commands[i]);
        }
    }
    assert forall|i: int| 0 <= i < cs2.len() implies 0 <= #[trigger] ats2[i] && ats2[i] + outs2[i].len() <= app.len()
        && app.subrange(ats2[i], ats2[i] + outs2[i].len()) == outs2[i] by {
        if i < c {
            assert forall|j: int| 0 <= j < outs2[i].len() implies #[trigger] app[ats2[i] + j] == app_before[ats2[i] + j] by {
                assert(o_after[o0.len() + ats2[i] + j] == o_before[o0.len() + ats2[i] + j]);
            }
            assert(app.subrange(ats2[i], ats2[i] + outs2[i].len()) =~= app_before.subrange(ats2[i], ats2[i] + outs2[i].len()));
        } else {
            assert(ats2[i] == app_before.len() && outs2[i] == out_c);
            assert forall|j: int| 0 <= j < out_c.len() implies #[trigger] app[app_before.len() + j] == out_c[j] by {
                assert(app[app_before.len() + j] == o_after[o_before.len() + j]);
                assert(pre_c[o_before.len() + j] == out_c[j]);
                assert(o_after[o_before.len() + j] == pre_c[o_before.len() + j]);
            }
            let sub = app.subrange(app_before.len() as int, (app_before.len() + out_c.len()) as int);
            assert forall|j: int| 0 <= j < out_c.len() implies sub[j] == out_c[j] by {
                assert(sub[j] == app[app_before.len() + j]);
            }
            assert(sub =~= out_c);
        }
    }
    assert forall|i: int| 0 <= i < cs2.len() - 1 implies #[trigger] ats2[i] + outs2[i].len() <= ats2[i + 1] by {
        if i < c - 1 {
        } else {
            assert(ats[i] + outs[i].len() <= app_before.len());
        }
    }
}

/// One strategy command as a step: a new order with the given ID, owned by the portfolio, or
/// a cancel.
pub open spec fn command_step(
    s: RuntimeState,
    seq: SequenceNumber,
    ts_ns: TimestampNanos,
    strategy_id: StrategyId,
    order_id: OrderId,
    command: StrategyCommand,
    s2: RuntimeState,
    res: StepResult,
) -> bool {
    match command {
        StrategyCommand::PlaceOrder { symbol, side, order_type, price, qty } => order_step(
            s,
            seq,
            ts_ns,
            Order { order_id, symbol, side, order_type, price, qty, timestamp_ns: ts_ns, strategy_id: Some(strategy_id) },
            true,
            s2,
            res,
        ),
        StrategyCommand::Cancel { order_id: id, symbol } => cancel_step(s, seq, ts_ns, id, symbol, s2, res),
    }
}

/// The context a strategy is told it is active with when registered: its own ID, sequence
/// and time zero, no book, the kill switch as it stands, and the portfolio as any callback
/// sees it (a snapshot, or the cash alone when the snapshot fails).
pub open spec fn activation_context(ctx: StrategyContext, id: StrategyId, rt: Runtime) -> bool {
    &&& ctx.strategy_id == id
    &&& ctx.seq == 0
    &&& ctx.ts_ns == 0
    &&& ctx.book is None
    &&& ctx.risk_killed == rt.spec_risk().spec_killed()
    &&& match snapshot_failure(rt.spec_portfolio()) {
        None => is_snapshot_of(rt.spec_portfolio(), ctx.portfolio),
        Some(_) => {
            &&& ctx.portfolio.cash == rt.spec_portfolio()@.cash
            &&& ctx.portfolio.realized_pnl == rt.spec_portfolio()@.realized_pnl
            &&& ctx.portfolio.unrealized_pnl == 0
            &&& ctx.portfolio.equity == rt.spec_portfolio()@.cash
            &&& ctx.portfolio.positions@.len() == 0
        },
    }
}

/// The engines made for `symbols` are empty, one per symbol text.
proof fn lemma_engines_for(symbols: Seq<Symbol>)
    ensures
        forall|k: Seq<char>| #[trigger]
            engines_for(symbols).contains_key(k) ==> engines_for(symbols)[k].1 == empty_model() && exists|i: int|
                0 <= i < symbols.len() && symbols[i]@ == k,
    decreases symbols.len(),
{
    if symbols.len() > 0 {
        let rest = symbols.drop_last();
        lemma_engines_for(rest);
        assert forall|k: Seq<char>| #[trigger] engines_for(symbols).contains_key(k) implies engines_for(symbols)[k].1
            == empty_model() && exists|i: int| 0 <= i < symbols.len() && symbols[i]@ == k by {
            if engines_for(rest).contains_key(k) {
                let i = choose|i: int| 0 <= i < rest.len() && rest[i]@ == k;
                assert(symbols[i] == rest[i]);
            } else {
                assert(symbols[symbols.len() - 1]@ == k);
            }
        }
    }
}

/// Every symbol with an engine in `a` still has one in `b`.
pub open spec fn keeps_engines(a: RuntimeState, b: RuntimeState) -> bool {
    forall|s: Seq<char>| #[trigger] a.engines.contains_key(s) ==> b.engines.contains_key(s)
}

/// Keeping every engine carries over.
proof fn lemma_keeps_trans(a: RuntimeState, b: RuntimeState, c: RuntimeState)
    requires
        keeps_engines(a, b),
        keeps_engines(b, c),
    ensures
        keeps_engines(a, c),
{
}

/// A snapshot of the book of `symbol`.
pub open spec fn snapshot_for(book: BookSnapshot, symbol: Symbol) -> bool {
    book.symbol@ == symbol@
}

/// What a call at depth `d` delivered at that depth, from log `before` to log `after`: a
/// start of `notices`, which the call did not complete; or all of them followed by an
/// update of `symbol`'s book.
pub open spec fn delivers_then_book(
    before: Seq<(u32, StrategyEvent)>,
    after: Seq<(u32, StrategyEvent)>,
    d: u32,
    notices: Seq<StrategyEvent>,
    symbol: Symbol,
    complete: bool,
) -> bool {
    let got = at_depth(after.skip(before.len() as int), d);
    ||| !complete && got.is_prefix_of(notices)
    ||| {
        &&& got.len() == notices.len() + 1
        &&& got.take(notices.len() as int) == notices
        &&& got.last() matches StrategyEvent::BookUpdate { symbol: s, book } && s == symbol && snapshot_for(book, symbol)
    }
}

/// What the runtime delivered to strategies at the top level for one external event, from
/// log `before` to log `after`, its own step taken from `s`: for an order, its notices then
/// an update of its symbol's book; for a cancel, an update of the book the cancel left; for
/// a timer tick, the tick. All of them when the event was `complete`d, else a start of them.
pub open spec fn event_delivers(
    s: RuntimeState,
    event: RuntimeEvent,
    before: Seq<(u32, StrategyEvent)>,
    after: Seq<(u32, StrategyEvent)>,
    complete: bool,
) -> bool {
    match event {
        RuntimeEvent::NewOrder { seq, ts_ns, order } => delivers_then_book(
            before,
            after,
            0,
            order_notices(s, seq, ts_ns, order, order.strategy_id is Some),
            order.symbol,
            complete,
        ),
        RuntimeEvent::Cancel { seq, ts_ns, order_id, symbol } => exists|book: BookSnapshot|
            #[trigger] cancel_book(s, seq, ts_ns, order_id, symbol, book) && delivers(
                before,
                after,
                0,
                seq![StrategyEvent::BookUpdate { symbol, book }],
                complete,
            ),
        RuntimeEvent::Timer { seq, ts_ns, .. } => delivers(before, after, 0, seq![StrategyEvent::Timer { seq, ts_ns }], complete),
    }
}

/// What a batch delivered to strategies at the top level, event by event: event `i`, its
/// own step taken from `pre[i]`, delivered what lies in the log between `spans[i].0` and
/// `spans[i].1`; the spans follow one another from log `before` to log `after`.
pub open spec fn delivery_run(
    events: Seq<RuntimeEvent>,
    pre: Seq<RuntimeState>,
    spans: Seq<(Seq<(u32, StrategyEvent)>, Seq<(u32, StrategyEvent)>)>,
    before: Seq<(u32, StrategyEvent)>,
    after: Seq<(u32, StrategyEvent)>,
) -> bool {
    &&& spans.len() == events.len()
    &&& events.len() == 0 ==> after == before
    &&& events.len() > 0 ==> spans[0].0 == before && spans.last().1 == after
    &&& forall|i: int| 0 < i < spans.len() ==> (#[trigger] spans[i]).0 == spans[i - 1].1
    &&& forall|i: int| 0 <= i < spans.len() ==> event_delivers(pre[i], events[i], (#[trigger] spans[i]).0, spans[i].1, true)
}

/// A batch's run with strategies called back (`callback_run`), and, when any strategy is
/// registered, what it delivered to them (`delivery_run`).
pub open spec fn callback_delivery_run(
    s: RuntimeState,
    events: Seq<RuntimeEvent>,
    pre: Seq<RuntimeState>,
    mid: Seq<RuntimeState>,
    outs: Seq<Seq<RuntimeOutput>>,
    at: Seq<int>,
    outputs: Seq<RuntimeOutput>,
    strategy_count: nat,
    spans: Seq<(Seq<(u32, StrategyEvent)>, Seq<(u32, StrategyEvent)>)>,
    before: Seq<(u32, StrategyEvent)>,
    after: Seq<(u32, StrategyEvent)>,
) -> bool {
    &&& callback_run(s, events, pre, mid, outs, at, outputs)
    &&& strategy_count > 0 ==> delivery_run(events, pre, spans, before, after)
}

/// A delivery run grows by one event whose deliveries lie between `mid_log` and `after`.
proof fn lemma_delivery_run_push(
    events: Seq<RuntimeEvent>,
    pre: Seq<RuntimeState>,
    spans: Seq<(Seq<(u32, StrategyEvent)>, Seq<(u32, StrategyEvent)>)>,
    before: Seq<(u32, StrategyEvent)>,
    mid_log: Seq<(u32, StrategyEvent)>,
    st: RuntimeState,
    ev: RuntimeEvent,
    after: Seq<(u32, StrategyEvent)>,
)
    requires
        delivery_run(events, pre, spans, before, mid_log),
        pre.len() == events.len(),
        event_delivers(st, ev, mid_log, after, true),
    ensures
        delivery_run(events.push(ev), pre.push(st), spans.push((mid_log, after)), before, after),
{
    let spans2 = spans.push((mid_log, after));
    let pre2 = pre.push(st);
    let evs2 = events.push(ev);
    assert forall|i: int| 0 < i < spans2.len() implies (#[trigger] spans2[i]).0 == spans2[i - 1].1 by {
        if i < spans.len() {
            assert(spans2[i] == spans[i]);
        }
        assert(spans2[i - 1] == spans[i - 1]);
    }
    assert forall|i: int| 0 <= i < spans2.len() implies event_delivers(pre2[i], evs2[i], (#[trigger] spans2[i]).0, spans2[i].1, true) by {
        if i < spans.len() {
            assert(spans2[i] == spans[i]);
            assert(pre2[i] == pre[i] && evs2[i] == events[i]);
        }
    }
}

/// How a batch with strategies called back stopped with error `e`: the events before event
/// `k == pre.len()` succeeded as `callback_run` describes, their outputs being `at_k`; then
/// either event `k` was stepped from `pre_k` (the batch's start when `k` is zero) to `m`
/// with result `res0`, and `e` follows from it as `step_then_callbacks` says, the runtime
/// ending in `s2` with outputs `after`; or every event succeeded and `e` is the failure to
/// take a snapshot of the portfolio `p` the batch ended with.
#[verifier::opaque]
pub open spec fn batch_failure(
    s: RuntimeState,
    events: Seq<RuntimeEvent>,
    pre: Seq<RuntimeState>,
    mid: Seq<RuntimeState>,
    outs: Seq<Seq<RuntimeOutput>>,
    at: Seq<int>,
    pre_k: RuntimeState,
    m: RuntimeState,
    res0: StepResult,
    at_k: Seq<RuntimeOutput>,
    after: Seq<RuntimeOutput>,
    e: RuntimeError,
    s2: RuntimeState,
    p: Portfolio,
) -> bool {
    let k = pre.len() as int;
    &&& k <= events.len()
    &&& callback_run(s, events.take(k), pre, mid, outs, at, at_k)
    &&& if k < events.len() {
        &&& k == 0 ==> pre_k == s && at_k.len() == 0
        &&& event_step(pre_k, events[k], m, res0)
        &&& step_then_callbacks(m, res0, Err(e), s2, at_k, after)
    } else {
        snapshot_failure(p) matches Some(pe) && e == RuntimeError::Portfolio(pe)
    }
}

/// A batch stopped by the own step of event `pre.len()`, or by the callbacks after it.
proof fn lemma_batch_failure_at(
    s: RuntimeState,
    events: Seq<RuntimeEvent>,
    pre: Seq<RuntimeState>,
    mid: Seq<RuntimeState>,
    outs: Seq<Seq<RuntimeOutput>>,
    at: Seq<int>,
    pre_k: RuntimeState,
    m: RuntimeState,
    res0: StepResult,
    at_k: Seq<RuntimeOutput>,
    after: Seq<RuntimeOutput>,
    e: RuntimeError,
    s2: RuntimeState,
    p: Portfolio,
)
    requires
        pre.len() < events.len(),
        callback_run(s, events.take(pre.len() as int), pre, mid, outs, at, at_k),
        pre.len() == 0 ==> pre_k == s && at_k.len() == 0,
        event_step(pre_k, events[pre.len() as int], m, res0),
        step_then_callbacks(m, res0, Err(e), s2, at_k, after),
    ensures
        batch_failure(s, events, pre, mid, outs, at, pre_k, m, res0, at_k, after, e, s2, p),
{
    reveal(batch_failure);
}

/// A batch whose events all succeeded, stopped by the failure to take a snapshot of `p`.
proof fn lemma_batch_failure_snapshot(
    s: RuntimeState,
    events: Seq<RuntimeEvent>,
    pre: Seq<RuntimeState>,
    mid: Seq<RuntimeState>,
    outs: Seq<Seq<RuntimeOutput>>,
    at: Seq<int>,
    outputs: Seq<RuntimeOutput>,
    e: RuntimeError,
    s2: RuntimeState,
    p: Portfolio,
)
    requires
        callback_run(s, events, pre, mid, outs, at, outputs),
        snapshot_failure(p) matches Some(pe) && e == RuntimeError::Portfolio(pe),
    ensures
        batch_failure(s, events, pre, mid, outs, at, s, s, Ok::<Seq<RuntimeOutput>, RuntimeError>(Seq::empty()), outputs, outputs, e, s2, p),
{
    reveal(batch_failure);
    assert(events.take(events.len() as int) =~= events);
}

/// A full-depth snapshot of an engine's book, the engine given by its symbol and model.
pub open spec fn model_snapshot_of(b: BookSnapshot, sym: Symbol, m: EngineModel) -> bool {
    &&& b.symbol == sym
    &&& side_snapshot_of(b.bids@, m.bids, usize::MAX)
    &&& side_snapshot_of(b.asks@, m.asks, usize::MAX)
}

/// `book` shows the book of `symbol`'s engine once a cancel's own step is taken from `s`.
pub open spec fn cancel_book(
    s: RuntimeState,
    seq: SequenceNumber,
    ts: TimestampNanos,
    order_id: OrderId,
    symbol: Symbol,
    book: BookSnapshot,
) -> bool {
    let engines = with_engine(s.engines, symbol);
    let (sym, m) = engines[symbol@];
    let out = spec_event(m, sym, InputEvent::Cancel(CancelOrderEvent { seq, order_id, symbol, timestamp_ns: ts }), ts);
    model_snapshot_of(book, sym, out.state)
}

/// The notices a strategy command brings: those of its new order, which gets `order_id`;
/// none for a cancel, which does not notify strategies.
pub open spec fn command_notices(
    s: RuntimeState,
    seq: SequenceNumber,
    ts_ns: TimestampNanos,
    strategy_id: StrategyId,
    order_id: OrderId,
    command: StrategyCommand,
) -> Seq<StrategyEvent> {
    match command {
        StrategyCommand::PlaceOrder { symbol, side, order_type, price, qty } => order_notices(
            s,
            seq,
            ts_ns,
            Order { order_id, symbol, side, order_type, price, qty, timestamp_ns: ts_ns, strategy_id: Some(strategy_id) },
            true,
        ),
        StrategyCommand::Cancel { .. } => Seq::empty(),
    }
}

/// Being a prefix carries over.
proof fn lemma_prefix_trans(a: Seq<RuntimeOutput>, b: Seq<RuntimeOutput>, c: Seq<RuntimeOutput>)
    requires
        a.is_prefix_of(b),
        b.is_prefix_of(c),
    ensures
        a.is_prefix_of(c),
{
    assert forall|i: int| 0 <= i < a.len() implies a[i] == c[i] by {
        assert(a[i] == b[i]);
        assert(b[i] == c[i]);
    }
}

/// A run of callbacks grows by one event whose own step succeeded with `out`, where the
/// outputs so far were `before` and `before + out` begins the outputs after the event.
proof fn lemma_callback_run_push(
    s: RuntimeState,
    events: Seq<RuntimeEvent>,
    pre: Seq<RuntimeState>,
    mid: Seq<RuntimeState>,
    outs: Seq<Seq<RuntimeOutput>>,
    at: Seq<int>,
    before: Seq<RuntimeOutput>,
    st: RuntimeState,
    ev: RuntimeEvent,
    m: RuntimeState,
    out: Seq<RuntimeOutput>,
    after: Seq<RuntimeOutput>,
)
    requires
        callback_run(s, events, pre, mid, outs, at, before),
        events.len() == 0 ==> st == s && before.len() == 0,
        event_step(st, ev, m, Ok::<Seq<RuntimeOutput>, RuntimeError>(out)),
        (before + out).is_prefix_of(after),
    ensures
        callback_run(
            s,
            events.push(ev),
            pre.push(st),
            mid.push(m),
            outs.push(out),
            at.push(before.len() as int),
            after,
        ),
{
    let n = events.len() as int;
    let evs2 = events.push(ev);
    let pres2 = pre.push(st);
    let mids2 = mid.push(m);
    let outs2 = outs.push(out);
    let ats2 = at.push(before.len() as int);
    let pre_n = before + out;
    assert forall|i: int| 0 <= i < evs2.len() implies #[trigger] event_step(
        pres2[i],
        evs2[i],
        mids2[i],
        Ok::<Seq<RuntimeOutput>, RuntimeError>(outs2[i]),
    ) by {
        if i < n {
            assert(evs2[i] == events[i]);
        }
    }
    assert forall|i: int| 0 <= i < evs2.len() implies 0 <= #[trigger] ats2[i] && ats2[i] + outs2[i].len()
        <= after.len() && after.subrange(ats2[i], ats2[i] + outs2[i].len()) == outs2[i] by {
        if i < n {
            assert forall|j: int| 0 <= j < outs2[i].len() implies after[ats2[i] + j] == outs2[i][j] by {
                assert(before.subrange(at[i], at[i] + outs[i].len())[j] == outs[i][j]);
                assert(pre_n[ats2[i] + j] == before[ats2[i] + j]);
                assert(after[ats2[i] + j] == pre_n[ats2[i] + j]);
            }
            assert(after.subrange(ats2[i], ats2[i] + outs2[i].len()) =~= outs2[i]);
        } else {
            assert forall|j: int| 0 <= j < out.len() implies after[before.len() + j] == out[j] by {
                assert(pre_n[before.len() + j] == out[j]);
                assert(after[before.len() + j] == pre_n[before.len() + j]);
            }
            assert(after.subrange(ats2[i], ats2[i] + outs2[i].len()) =~= out);
        }
    }
    assert forall|i: int| 0 <= i < evs2.len() - 1 implies #[trigger] ats2[i] + outs2[i].len() <= ats2[i + 1] by {
        if i < n - 1 {
        } else {
            assert(at[i] + outs[i].len() <= before.len());
        }
    }
}

/// How a step shows in a call after which strategy callbacks may still run: a failed step
/// is the call's result, leaving the state the step left and no output; a successful step's
/// outputs come first among the outputs the call appends.
pub open spec fn step_then_callbacks(
    mid: RuntimeState,
    res0: StepResult,
    r: Result<(), RuntimeError>,
    after: RuntimeState,
    before_out: Seq<RuntimeOutput>,
    after_out: Seq<RuntimeOutput>,
) -> bool {
    match res0 {
        Ok(out) => (before_out + out).is_prefix_of(after_out),
        Err(e) => r == Err::<(), RuntimeError>(e) && after == mid && after_out == before_out,
    }
}

/// The output a risk rejection of an external new order gives, before anything else the
/// event causes: `None` for other events and for orders the risk checks allow.
pub open spec fn external_risk_rejection(risk: RiskManager, p: PortfolioView, event: RuntimeEvent) -> Option<
    RuntimeOutput,
> {
    match event {
        RuntimeEvent::NewOrder { seq, ts_ns, order } => match spec_check_new_order(
            risk.spec_limits(),
            risk.spec_killed(),
            order,
            p,
        ) {
            RiskDecision::Reject { reason } => Some(
                RuntimeOutput { seq, ts_ns, kind: RuntimeOutputKind::RiskRejected { order_id: Some(order.order_id), reason } },
            ),
            RiskDecision::Allow => None,
        },
        _ => None,
    }
}

/// Fill notices for the owned sides of trades, in trade order, the taker's before the
/// maker's.
pub open spec fn owned_fill_notices(owned: Set<OrderId>, trades: Seq<Trade>) -> Seq<StrategyEvent>
    decreases trades.len(),
{
    if trades.len() == 0 {
        Seq::empty()
    } else {
        let t = trades.last();
        let taker = if owned.contains(t.taker_order_id) {
            seq![StrategyEvent::Fill { order_id: t.taker_order_id, symbol: t.symbol, side: t.aggressor_side, price: t.price, qty: t.qty }]
        } else {
            Seq::empty()
        };
        let maker = if owned.contains(t.maker_order_id) {
            seq![
                StrategyEvent::Fill {
                    order_id: t.maker_order_id,
                    symbol: t.symbol,
                    side: spec_opposite(t.aggressor_side),
                    price: t.price,
                    qty: t.qty,
                },
            ]
        } else {
            Seq::empty()
        };
        owned_fill_notices(owned, trades.drop_last()) + taker + maker
    }
}

/// The strategy events delivered at dispatch depth `d`, in the order they were delivered,
/// read from a delivery log of `(depth, event)` entries.
pub open spec fn at_depth(log: Seq<(u32, StrategyEvent)>, d: u32) -> Seq<StrategyEvent>
    decreases log.len(),
{
    if log.len() == 0 {
        Seq::empty()
    } else {
        let rest = at_depth(log.drop_last(), d);
        if log.last().0 == d {
            rest.push(log.last().1)
        } else {
            rest
        }
    }
}

/// A delivery log only grows, and what a call at depth `d` adds is delivered at depth `d`
/// or deeper.
pub open spec fn log_grows(a: Seq<(u32, StrategyEvent)>, b: Seq<(u32, StrategyEvent)>, d: u32) -> bool {
    &&& a.is_prefix_of(b)
    &&& forall|i: int| a.len() <= i < b.len() ==> (#[trigger] b[i]).0 >= d
}

/// The notices the runtime delivers to strategies for an order, in order, once its own
/// step is taken from `s`: a risk rejection; or, when the step succeeds, the acceptance of
/// a strategy order, each trade, then the fills of owned orders, taker before maker.
pub open spec fn order_notices(
    s: RuntimeState,
    seq: SequenceNumber,
    ts: TimestampNanos,
    order: Order,
    owned_flag: bool,
) -> Seq<StrategyEvent> {
    let engines = with_engine(s.engines, order.symbol);
    match spec_check_new_order(s.risk.spec_limits(), s.risk.spec_killed(), order, s.portfolio@) {
        RiskDecision::Reject { reason } => seq![StrategyEvent::RiskRejection { order_id: Some(order.order_id), reason }],
        RiskDecision::Allow => if owned_flag && s.owned.contains(order.order_id) {
            Seq::empty()
        } else {
            let owned = if owned_flag {
                s.owned.insert(order.order_id)
            } else {
                s.owned
            };
            let (sym, m) = engines[order.symbol@];
            let out = spec_event(m, sym, InputEvent::NewOrder(NewOrderEvent { seq, order }), ts);
            match owned_fills(s.portfolio@, owned, out.trades).1 {
                Err(_) => Seq::empty(),
                Ok(()) => {
                    let accepted = if owned_flag && out.reports.contains(ExecutionReport::Accepted { order_id: order.order_id }) {
                        seq![
                            StrategyEvent::OrderAccepted {
                                order_id: order.order_id,
                                symbol: order.symbol,
                                side: order.side,
                                price: order.price,
                                qty: order.qty,
                            },
                        ]
                    } else {
                        Seq::empty()
                    };
                    accepted + trade_notices(out.trades) + owned_fill_notices(owned, out.trades)
                },
            }
        },
    }
}

/// One `Trade` notice per trade, in order.
pub open spec fn trade_notices(trades: Seq<Trade>) -> Seq<StrategyEvent> {
    trades.map_values(|t: Trade| StrategyEvent::Trade { trade: t })
}

/// What two logs deliver at one depth, delivered one after the other.
proof fn lemma_at_depth_add(a: Seq<(u32, StrategyEvent)>, b: Seq<(u32, StrategyEvent)>, d: u32)
    ensures
        at_depth(a + b, d) == at_depth(a, d) + at_depth(b, d),
    decreases b.len(),
{
    if b.len() == 0 {
        assert(a + b =~= a);
        assert(at_depth(a, d) + at_depth(b, d) =~= at_depth(a, d));
    } else {
        lemma_at_depth_add(a, b.drop_last(), d);
        assert((a + b).drop_last() =~= a + b.drop_last());
        assert((a + b).last() == b.last());
        if b.last().0 == d {
            assert(at_depth(a, d) + at_depth(b.drop_last(), d).push(b.last().1) =~= (at_depth(a, d) + at_depth(
                b.drop_last(),
                d,
            )).push(b.last().1));
        }
    }
}

/// Entries deeper than `d` deliver nothing at depth `d`.
proof fn lemma_at_depth_deeper(log: Seq<(u32, StrategyEvent)>, d: u32)
    requires
        forall|i: int| 0 <= i < log.len() ==> (#[trigger] log[i]).0 > d,
    ensures
        at_depth(log, d) == Seq::<StrategyEvent>::empty(),
    decreases log.len(),
{
    if log.len() > 0 {
        lemma_at_depth_deeper(log.drop_last(), d);
    }
}

/// What a call at depth `d` delivered at that depth, from log `before` to log `after`, is
/// the start of `notices`, and all of them when the call `complete`d.
pub open spec fn delivers(
    before: Seq<(u32, StrategyEvent)>,
    after: Seq<(u32, StrategyEvent)>,
    d: u32,
    notices: Seq<StrategyEvent>,
    complete: bool,
) -> bool {
    &&& at_depth(after.skip(before.len() as int), d).is_prefix_of(notices)
    &&& complete ==> at_depth(after.skip(before.len() as int), d) == notices
}

/// Nothing delivered since a log was taken: none of `notices` yet.
proof fn lemma_nothing_delivered(log: Seq<(u32, StrategyEvent)>, d: u32, notices: Seq<StrategyEvent>)
    ensures
        at_depth(log.skip(log.len() as int), d) == Seq::<StrategyEvent>::empty(),
        at_depth(log.skip(log.len() as int), d) == notices.take(0),
        log_grows(log, log, d),
{
    assert(log.skip(log.len() as int) =~= Seq::<(u32, StrategyEvent)>::empty());
    assert(notices.take(0) =~= Seq::<StrategyEvent>::empty());
    lemma_log_grows_refl(log, d);
}

/// The first `k` notices delivered: a start of them, and all of them when `k` is their number.
proof fn lemma_delivered_first(
    before: Seq<(u32, StrategyEvent)>,
    after: Seq<(u32, StrategyEvent)>,
    d: u32,
    notices: Seq<StrategyEvent>,
    k: int,
)
    requires
        0 <= k <= notices.len(),
        at_depth(after.skip(before.len() as int), d) == notices.take(k),
    ensures
        delivers(before, after, d, notices, k == notices.len()),
        delivers(before, after, d, notices, false),
{
    assert(notices.take(k) =~= notices.subrange(0, k));
    if k == notices.len() {
        assert(notices.take(k) =~= notices);
    }
}

/// After the first `k` notices, one more call that delivers exactly notice `k` at the same
/// depth leaves the first `k + 1` delivered.
proof fn lemma_deliver_next(
    before: Seq<(u32, StrategyEvent)>,
    mid: Seq<(u32, StrategyEvent)>,
    after: Seq<(u32, StrategyEvent)>,
    d: u32,
    notices: Seq<StrategyEvent>,
    k: int,
)
    requires
        log_grows(before, mid, d),
        log_grows(mid, after, d),
        0 <= k < notices.len(),
        at_depth(mid.skip(before.len() as int), d) == notices.take(k),
        at_depth(after.skip(mid.len() as int), d) == seq![notices[k]],
    ensures
        log_grows(before, after, d),
        at_depth(after.skip(before.len() as int), d) == notices.take(k + 1),
{
    lemma_log_chain(before, mid, after, d);
    assert(notices.take(k) + seq![notices[k]] =~= notices.take(k + 1));
}

/// A log grows into itself.
proof fn lemma_log_grows_refl(a: Seq<(u32, StrategyEvent)>, d: u32)
    ensures
        log_grows(a, a, d),
{
    assert(a.subrange(0, a.len() as int) =~= a);
}

/// Three logs, each extending the one before: what the third added since the first is
/// what the second added, then what the third added since the second.
proof fn lemma_log_chain(a: Seq<(u32, StrategyEvent)>, b: Seq<(u32, StrategyEvent)>, c: Seq<(u32, StrategyEvent)>, d: u32)
    requires
        log_grows(a, b, d),
        log_grows(b, c, d),
    ensures
        log_grows(a, c, d),
        at_depth(c.skip(a.len() as int), d) == at_depth(b.skip(a.len() as int), d) + at_depth(c.skip(b.len() as int), d),
{
    assert forall|i: int| 0 <= i < a.len() implies a[i] == c[i] by {
        assert(a[i] == b[i]);
        assert(b[i] == c[i]);
    }
    assert forall|i: int| a.len() <= i < c.len() implies (#[trigger] c[i]).0 >= d by {
        if i < b.len() {
            assert(c[i] == b[i]);
        }
    }
    assert(c.skip(a.len() as int) =~= b.skip(a.len() as int) + c.skip(b.len() as int)) by {
        assert forall|i: int| 0 <= i < b.len() - a.len() implies #[trigger] c[a.len() + i] == b[a.len() + i] by {}
    }
    lemma_at_depth_add(b.skip(a.len() as int), c.skip(b.len() as int), d);
}

pub struct Runtime {
    engines: Vec<MatchingEngine>,
    portfolio: Portfolio,
    risk: RiskManager,
    strategies: Vec<Box<dyn Strategy>>,
    owned_orders: HashSet<OrderId>,
    order_side: HashMap<OrderId, Side>,
    next_order_id: OrderId,
    max_strategy_commands_per_event: usize,
    last_seq: Option<SequenceNumber>,
    dispatch_depth: u32,
    delivered_log: Ghost<Seq<(u32, StrategyEvent)>>,
    activations: Ghost<Seq<(StrategyEvent, StrategyContext)>>,
    strategy_ids: Ghost<Seq<StrategyId>>,
}

/// A batch's result reports the runtime as it ends: the portfolio snapshot and one
/// full-depth book snapshot per engine, in ascending symbol order.
pub open spec fn result_of(res: RuntimeResult, rt: Runtime) -> bool {
    &&& is_snapshot_of(rt.spec_portfolio(), res.portfolio)
    &&& res.books@.len() == rt.engines_view().len()
    &&& forall|i: int| 0 <= i < res.books@.len() ==> book_snapshot_of(#[trigger] res.books@[i], rt.engines_view()[i])
}

impl Runtime {
    /// Engines sorted by symbol and well formed, portfolio and risk well formed, dispatch
    /// depth within its bound.
    pub closed spec fn wf(&self) -> bool {
        &&& engines_ok(self.engines@)
        &&& self.portfolio.wf()
        &&& self.risk.wf()
        &&& self.dispatch_depth <= MAX_STRATEGY_DISPATCH_DEPTH
        &&& self.activations@.len() == self.strategies@.len()
        &&& self.strategy_ids@.len() == self.strategies@.len()
    }

    pub closed spec fn engines_view(&self) -> Seq<MatchingEngine> {
        self.engines@
    }

    pub closed spec fn spec_last_seq(&self) -> Option<SequenceNumber> {
        self.last_seq
    }

    pub closed spec fn spec_portfolio(&self) -> Portfolio {
        self.portfolio
    }

    pub closed spec fn spec_risk(&self) -> RiskManager {
        self.risk
    }

    pub closed spec fn depth(&self) -> u32 {
        self.dispatch_depth
    }

    pub closed spec fn strategy_count(&self) -> nat {
        self.strategies@.len()
    }

    /// The registered strategies, in registration order.
    pub closed spec fn spec_strategies(&self) -> Seq<Box<dyn Strategy>> {
        self.strategies@
    }

    /// How many commands of one strategy are run per event.
    pub closed spec fn spec_command_cap(&self) -> usize {
        self.max_strategy_commands_per_event
    }

    /// The ID the next strategy order gets.
    pub closed spec fn spec_next_order_id(&self) -> OrderId {
        self.next_order_id
    }

    /// The IDs the registered strategies reported when they were registered, in
    /// registration order.
    pub closed spec fn spec_strategy_ids(&self) -> Seq<StrategyId> {
        self.strategy_ids@
    }

    /// The event and context each registered strategy was handed when it was told it is
    /// active, one per strategy, in registration order.
    pub closed spec fn spec_activations(&self) -> Seq<(StrategyEvent, StrategyContext)> {
        self.activations@
    }

    /// The strategy events dispatched so far, in order, each with the dispatch depth it was
    /// dispatched at; each went to every strategy registered at the time. The activation call
    /// that `add_strategy` makes goes to the new strategy alone and is no dispatch.
    pub closed spec fn delivered(&self) -> Seq<(u32, StrategyEvent)> {
        self.delivered_log@
    }

    /// No strategy is called back: none is registered, or callbacks are nested as deep as
    /// they may go.
    pub open spec fn quiet(&self) -> bool {
        self.strategy_count() == 0 || self.depth() >= MAX_STRATEGY_DISPATCH_DEPTH
    }

    /// The state a strategy-free runtime's decisions depend on.
    pub closed spec fn state(&self) -> RuntimeState {
        RuntimeState {
            engines: engine_map(self.engines@),
            portfolio: self.portfolio,
            risk: self.risk,
            owned: self.owned_orders@,
        }
    }

    /// A runtime with one engine per distinct symbol, empty books and an empty portfolio.
    pub fn new(symbols: Vec<Symbol>, config: RuntimeConfig) -> (r: Self)
        ensures
            r.wf(),
            r.depth() == 0,
            r.spec_last_seq() is None,
            r.strategy_count() == 0,
            r.spec_portfolio()@.cash == config.starting_cash,
            r.spec_risk().spec_limits() == config.risk_limits,
            forall|i: int| 0 <= i < symbols@.len() ==> has_symbol(r.engines_view(), #[trigger] symbols@[i]@),
            r.state().engines == engines_for(symbols@),
            r.state().owned == Set::<OrderId>::empty(),
            r.state().portfolio@ == (PortfolioView {
                cash: config.starting_cash as int,
                realized_pnl: 0,
                positions: Map::empty(),
                marks: Map::empty(),
            }),
            r.state().portfolio.wf(),
            !r.state().risk.spec_killed(),
            r.state().risk.spec_kill_reason() is None,
            r.state().risk.spec_starting_equity() == config.starting_cash,
            r.state().risk.wf(),
            r.spec_command_cap() == config.max_strategy_commands_per_event,
            r.spec_next_order_id() == config.next_order_id,
            r.delivered() == Seq::<(u32, StrategyEvent)>::empty(),
            forall|j: int| 0 <= j < r.engines_view().len() ==> (#[trigger] r.engines_view()[j]).model() == empty_model(),
            forall|s: Seq<char>| #[trigger]
                has_symbol(r.engines_view(), s) ==> exists|i: int| 0 <= i < symbols@.len() && symbols@[i]@ == s,
            r.spec_portfolio()@ == fresh_view(config.starting_cash as int),
            r.spec_portfolio().wf(),
            !r.spec_risk().spec_killed(),
            r.spec_risk().spec_kill_reason() is None,
            r.spec_risk().spec_starting_equity() == config.starting_cash,
    {
        let starting = config.starting_cash;
        let mut rt = Runtime {
            engines: Vec::new(),
            portfolio: Portfolio::new(starting),
            risk: RiskManager::new(config.risk_limits, starting),
            strategies: Vec::new(),
            owned_orders: HashSet::new(),
            order_side: HashMap::new(),
            next_order_id: config.next_order_id,
            max_strategy_commands_per_event: config.max_strategy_commands_per_event,
            last_seq: None,
            dispatch_depth: 0,
            delivered_log: Ghost(Seq::empty()),
            activations: Ghost(Seq::empty()),
            strategy_ids: Ghost(Seq::empty()),
        };
        let mut i: usize = 0;
        while i < symbols.len()
            invariant
                0 <= i <= symbols@.len(),
                rt.wf(),
                rt.dispatch_depth == 0,
                rt.last_seq is None,
                rt.strategies@.len() == 0,
                rt.portfolio@.cash == starting,
                starting == config.starting_cash,
                rt.risk.spec_limits() == config.risk_limits,
                forall|k: int| 0 <= k < i ==> has_symbol(rt.engines@, #[trigger] symbols@[k]@),
                rt.state().engines == engines_for(symbols@.take(i as int)),
                rt.owned_orders@ == Set::<OrderId>::empty(),
                rt.portfolio@ == (PortfolioView {
                    cash: config.starting_cash as int,
                    realized_pnl: 0,
                    positions: Map::empty(),
                    marks: Map::empty(),
                }),
                rt.portfolio.wf(),
                !rt.risk.spec_killed(),
                rt.risk.spec_kill_reason() is None,
                rt.risk.spec_starting_equity() == config.starting_cash,
                rt.risk.wf(),
                rt.max_strategy_commands_per_event == config.max_strategy_commands_per_event,
                rt.next_order_id == config.next_order_id,
                rt.delivered_log@ == Seq::<(u32, StrategyEvent)>::empty(),
            decreases symbols@.len() - i,
        {
            let ghost before = rt.engines@;
            proof {
                assert(symbols@.take(i + 1).drop_last() =~= symbols@.take(i as int));
            }
            rt.ensure_symbol(&symbols[i]);
            proof {
                assert forall|k: int| 0 <= k < i + 1 implies has_symbol(rt.engines@, #[trigger] symbols@[k]@) by {
                    if k < i {
                        assert(has_symbol(before, symbols@[k]@));
                    }
                }
            }
            i = i + 1;
        }
        proof {
            assert(symbols@.take(symbols@.len() as int) =~= symbols@);
            lemma_engines_for(symbols@);
            let e = rt.engines@;
            assert forall|j: int| 0 <= j < e.len() implies (#[trigger] e[j]).model() == empty_model() by {
                lemma_engine_map_at(e, j);
            }
            assert forall|s: Seq<char>| #[trigger] has_symbol(e, s) implies exists|i: int|
                0 <= i < symbols@.len() && symbols@[i]@ == s by {
                assert(engine_map(e).contains_key(s));
            }
        }
        rt
    }

    /// The decision state is made of the engines, portfolio and risk manager the accessors
    /// show.
    pub proof fn lemma_state_parts(&self)
        ensures
            self.state().engines == engine_map(self.engines_view()),
            self.state().portfolio == self.spec_portfolio(),
            self.state().risk == self.spec_risk(),
    {
    }

    /// Add an engine for `symbol` unless one exists.
    pub fn ensure_symbol(&mut self, symbol: &Symbol)
        requires
            old(self).wf(),
        ensures
            final(self).wf(),
            final(self).depth() == old(self).depth(),
            final(self).spec_last_seq() == old(self).spec_last_seq(),
            final(self).strategy_count() == old(self).strategy_count(),
            final(self).spec_portfolio() == old(self).spec_portfolio(),
            final(self).spec_risk() == old(self).spec_risk(),
            has_symbol(final(self).engines_view(), symbol@),
            forall|s: Seq<char>| has_symbol(old(self).engines_view(), s) ==> #[trigger] has_symbol(final(self).engines_view(), s),
            forall|s: Seq<char>| #[trigger] has_symbol(final(self).engines_view(), s) ==> has_symbol(old(self).engines_view(), s) || s == symbol@,
            final(self).state() == (RuntimeState { engines: with_engine(old(self).state().engines, *symbol), ..old(self).state() }),
            final(self).spec_command_cap() == old(self).spec_command_cap(),
            final(self).spec_next_order_id() == old(self).spec_next_order_id(),
            final(self).delivered() == old(self).delivered(),
    {
        let (i, found) = find_engine(&self.engines, symbol);
        if found {
            proof {
                assert(self.engines@[i as int].spec_symbol()@ == symbol@);
                assert(has_symbol(self.engines@, symbol@));
                assert(self.state().engines.contains_key(symbol@));
                assert(self.state() == (RuntimeState { engines: with_engine(old(self).state().engines, *symbol), ..old(self).state() }));
            }
            return;
        }
        let ghost e0 = self.engines@;
        let engine = MatchingEngine::new(symbol.duplicate());
        proof {
            assert(engine.model() == empty_model());
        }
        self.engines.insert(i, engine);
        proof {
            let e1 = self.engines@;
            assert(e1[i as int].spec_symbol()@ == symbol@);
            assert forall|a: int, b: int| 0 <= a < b < e1.len() implies text_lt(#[trigger] e1[a].spec_symbol()@, #[trigger] e1[b].spec_symbol()@) by {
                if a == i {
                    if b - 1 > i {
                        assert(text_lt(e0[i as int].spec_symbol()@, e0[b - 1].spec_symbol()@));
                        lemma_text_lt_transitive(symbol@, e0[i as int].spec_symbol()@, e0[b - 1].spec_symbol()@);
                    }
                } else if b == i {
                    assert(text_lt(e0[a].spec_symbol()@, symbol@));
                } else if a < i && b > i {
                    assert(text_lt(e0[a].spec_symbol()@, e0[b - 1].spec_symbol()@));
                } else if a < i {
                    assert(text_lt(e0[a].spec_symbol()@, e0[b].spec_symbol()@));
                } else {
                    assert(text_lt(e0[a - 1].spec_symbol()@, e0[b - 1].spec_symbol()@));
                }
            }
            assert forall|s: Seq<char>| has_symbol(e0, s) implies #[trigger] has_symbol(e1, s) by {
                let j = choose|j: int| 0 <= j < e0.len() && (#[trigger] e0[j]).spec_symbol()@ == s;
                if j < i {
                    assert(e1[j] == e0[j]);
                } else {
                    assert(e1[j + 1] == e0[j]);
                }
            }
            assert forall|s: Seq<char>| #[trigger] has_symbol(e1, s) implies has_symbol(e0, s) || s == symbol@ by {
                let j = choose|j: int| 0 <= j < e1.len() && (#[trigger] e1[j]).spec_symbol()@ == s;
                if j < i {
                    assert(e0[j] == e1[j]);
                } else if j > i {
                    assert(e0[j - 1] == e1[j]);
                }
            }
            assert(!has_symbol(e0, symbol@));
            let m0 = engine_map(e0);
            let m1 = engine_map(e1);
            lemma_engine_map_at(e1, i as int);
            assert forall|s: Seq<char>| #[trigger] m1.contains_key(s) <==> m0.insert(symbol@, (*symbol, empty_model())).contains_key(s) by {
                if has_symbol(e0, s) {
                    assert(has_symbol(e1, s));
                }
            }
            assert forall|s: Seq<char>| #[trigger] m1.contains_key(s) implies m1[s] == m0.insert(symbol@, (*symbol, empty_model()))[s] by {
                if s != symbol@ {
                    let j0 = engine_index(e0, s);
                    lemma_engine_map_at(e0, j0);
                    if j0 < i {
                        assert(e1[j0] == e0[j0]);
                        lemma_engine_map_at(e1, j0);
                    } else {
                        assert(e1[j0 + 1] == e0[j0]);
                        lemma_engine_map_at(e1, j0 + 1);
                    }
                }
            }
            assert(m1 =~= m0.insert(symbol@, (*symbol, empty_model())));
        }
    }

    /// Register a strategy and tell it, once, that it is active: it is called with
    /// `Activated` and the context `activation_context` describes, and what it returns is
    /// not acted on. Its ID joins `spec_strategy_ids`; nothing else the runtime holds changes.
    pub fn add_strategy(&mut self, strategy: Box<dyn Strategy>)
        requires
            old(self).wf(),
        ensures
            final(self).wf(),
            final(self).strategy_count() == old(self).strategy_count() + 1,
            final(self).engines_view() == old(self).engines_view(),
            final(self).depth() == old(self).depth(),
            final(self).spec_last_seq() == old(self).spec_last_seq(),
            final(self).state() == old(self).state(),
            final(self).spec_portfolio() == old(self).spec_portfolio(),
            final(self).spec_risk() == old(self).spec_risk(),
            final(self).spec_next_order_id() == old(self).spec_next_order_id(),
            final(self).spec_strategies().take(old(self).strategy_count() as int) == old(self).spec_strategies(),
            final(self).spec_strategy_ids() == old(self).spec_strategy_ids().push(strategy.spec_strategy_id()),
            final(self).spec_activations().drop_last() == old(self).spec_activations(),
            final(self).spec_activations().last().0 == StrategyEvent::Activated,
            activation_context(final(self).spec_activations().last().1, strategy.spec_strategy_id(), *old(self)),
            final(self).delivered() == old(self).delivered(),
    {
        let mut strategy = strategy;
        let id = strategy.id();
        let ctx = self.strategy_context(id, 0, 0, None);
        // What the strategy returns on activation is not acted on.
        let activated = StrategyEvent::Activated;
        let _ = strategy.on_event(&activated, &ctx);
        self.activations = Ghost(self.activations@.push((activated, ctx)));
        self.strategy_ids = Ghost(self.strategy_ids@.push(id));
        let ghost v0 = self.strategies@;
        self.strategies.push(strategy);
        proof {
            vstd::seq::axiom_seq_push_len(v0, strategy);
            let t = self.strategies@.take(v0.len() as int);
            vstd::seq::axiom_seq_subrange_len(self.strategies@, 0, v0.len() as int);
            assert forall|i: int| 0 <= i < v0.len() implies t[i] == v0[i] by {
                vstd::seq::axiom_seq_subrange_index(self.strategies@, 0, v0.len() as int, i);
                vstd::seq::axiom_seq_push_index_different(v0, strategy, i);
            }
            vstd::seq::axiom_seq_ext_equal(t, v0);
            assert(self.activations@.drop_last() =~= old(self).activations@);
        }
    }

    pub fn portfolio(&self) -> (r: &Portfolio)
        ensures
            *r == self.spec_portfolio(),
    {
        &self.portfolio
    }

    pub fn risk(&self) -> (r: &RiskManager)
        ensures
            *r == self.spec_risk(),
    {
        &self.risk
    }

    pub fn risk_mut(&mut self) -> (r: &mut RiskManager)
        ensures
            *r == old(self).spec_risk(),
            final(self).spec_risk() == *final(r),
            final(self).engines_view() == old(self).engines_view(),
            final(self).spec_portfolio() == old(self).spec_portfolio(),
            final(self).depth() == old(self).depth(),
            final(self).spec_last_seq() == old(self).spec_last_seq(),
            final(self).strategy_count() == old(self).strategy_count(),
            final(self).delivered() == old(self).delivered(),
    {
        &mut self.risk
    }

    /// The engine for `symbol`, if the runtime has one.
    pub fn engine(&self, symbol: &Symbol) -> (r: Option<&MatchingEngine>)
        requires
            self.wf(),
        ensures
            match r {
                Some(e) => exists|j: int| 0 <= j < self.engines_view().len() && self.engines_view()[j] == *e && e.spec_symbol()@ == symbol@,
                None => forall|j: int| 0 <= j < self.engines_view().len() ==> (#[trigger] self.engines_view()[j]).spec_symbol()@ != symbol@,
            },
    {
        let (i, found) = find_engine(&self.engines, symbol);
        if found {
            proof {
                assert(self.engines_view()[i as int] == self.engines@[i as int]);
            }
            Some(&self.engines[i])
        } else {
            None
        }
    }

    pub fn last_seq(&self) -> (r: Option<SequenceNumber>)
        ensures
            r == self.spec_last_seq(),
    {
        self.last_seq
    }

    /// Process a batch. Sequence numbers are checked for the whole batch first: on a
    /// duplicate or out-of-order number nothing is processed and the runtime is unchanged.
    /// An empty batch changes nothing and succeeds unless the portfolio cannot be valued; a
    /// failing batch failed at an event's own step or the callbacks after it, or at the
    /// final snapshot (`batch_failure`).
    #[verifier::rlimit(100)]
    #[verifier::spinoff_prover]
    pub fn process_events(&mut self, events: Vec<RuntimeEvent>) -> (r: Result<RuntimeResult, RuntimeError>)
        requires
            old(self).wf(),
            old(self).depth() == 0,
        ensures
            final(self).wf(),
            final(self).depth() == 0,
            final(self).strategy_count() == old(self).strategy_count(),
            match runtime_sequence_error(old(self).spec_last_seq(), events@) {
                Some(e) => r matches Err(x) && x == e && *final(self) == *old(self),
                None => r is Ok ==> final(self).spec_last_seq() == (if events@.len() > 0 {
                    Some(spec_event_seq(events@.last()))
                } else {
                    old(self).spec_last_seq()
                }),
            },
            r matches Ok(res) ==> result_of(res, *final(self)),
            runtime_sequence_error(old(self).spec_last_seq(), events@) is None && events@.len() == 0 ==> *final(self) == *old(
                self,
            ) && match snapshot_failure(old(self).spec_portfolio()) {
                None => r is Ok,
                Some(pe) => r == Err::<RuntimeResult, RuntimeError>(RuntimeError::Portfolio(pe)),
            },
            runtime_sequence_error(old(self).spec_last_seq(), events@) is None ==> (r matches Err(e) ==> exists|
                pre: Seq<RuntimeState>,
                mid: Seq<RuntimeState>,
                outs: Seq<Seq<RuntimeOutput>>,
                at: Seq<int>,
                pre_k: RuntimeState,
                m: RuntimeState,
                res0: StepResult,
                at_k: Seq<RuntimeOutput>,
                after: Seq<RuntimeOutput>,
            |
                #[trigger] batch_failure(
                    old(self).state(),
                    events@,
                    pre,
                    mid,
                    outs,
                    at,
                    pre_k,
                    m,
                    res0,
                    at_k,
                    after,
                    e,
                    final(self).state(),
                    final(self).spec_portfolio(),
                )),
            r matches Ok(res) ==> exists|
                pre: Seq<RuntimeState>,
                mid: Seq<RuntimeState>,
                outs: Seq<Seq<RuntimeOutput>>,
                at: Seq<int>,
                spans: Seq<(Seq<(u32, StrategyEvent)>, Seq<(u32, StrategyEvent)>)>,
            |
                #[trigger] callback_delivery_run(
                    old(self).state(),
                    events@,
                    pre,
                    mid,
                    outs,
                    at,
                    res.outputs@,
                    old(self).strategy_count(),
                    spans,
                    old(self).delivered(),
                    final(self).delivered(),
                ),
            old(self).strategy_count() == 0 && runtime_sequence_error(old(self).spec_last_seq(), events@) is None
                ==> exists|run: StepResult|
                #[trigger] runs(old(self).state(), events@, final(self).state(), run) && batch_result(
                    run,
                    final(self).state().portfolio,
                ) == match r {
                    Ok(res) => Ok::<Seq<RuntimeOutput>, RuntimeError>(res.outputs@),
                    Err(e) => Err::<Seq<RuntimeOutput>, RuntimeError>(e),
                },
    {
        match self.validate_sequences(&events) {
            Ok(()) => {},
            Err(e) => return Err(e),
        }
        let mut outputs: Vec<RuntimeOutput> = Vec::new();
        let ghost all = events@;
        let ghost s0 = self.state();
        let ghost mut states: Seq<RuntimeState> = seq![s0];
        let ghost mut results: Seq<StepResult> = Seq::empty();
        let ghost mut pres: Seq<RuntimeState> = Seq::empty();
        let ghost mut mids: Seq<RuntimeState> = Seq::empty();
        let ghost mut outs: Seq<Seq<RuntimeOutput>> = Seq::empty();
        let ghost mut ats: Seq<int> = Seq::empty();
        let ghost mut spans: Seq<(Seq<(u32, StrategyEvent)>, Seq<(u32, StrategyEvent)>)> = Seq::empty();
        let mut queue = events;
        let mut n: usize = 0;
        proof {
            assert(all.len() == queue.len());
            assert(all.skip(0) =~= all);
        }
        while queue.len() > 0
            invariant
                self.wf(),
                self.dispatch_depth == 0,
                self.strategies@.len() == old(self).strategies@.len(),
                all.len() <= usize::MAX,
                0 <= n <= all.len(),
                queue@ == all.skip(n as int),
                all == events@,
                runtime_sequence_error(old(self).last_seq, all) is None,
                n == 0 ==> self.last_seq == old(self).last_seq,
                n > 0 ==> self.last_seq == Some(spec_event_seq(all[n - 1])),
                s0 == old(self).state(),
                callback_run(s0, all.take(n as int), pres, mids, outs, ats, outputs@),
                old(self).strategies@.len() > 0 ==> delivery_run(all.take(n as int), pres, spans, old(self).delivered_log@, self.delivered_log@),
                n == 0 ==> self.state() == s0 && outputs@.len() == 0 && *self == *old(self),
                old(self).strategies@.len() == 0 ==> {
                    &&& is_trace(states, all, results)
                    &&& results.len() == n
                    &&& states[0] == s0
                    &&& states.last() == self.state()
                    &&& forall|i: int| 0 <= i < n ==> (#[trigger] results[i]) is Ok
                    &&& concat_outputs(results) == outputs@
                },
            decreases queue@.len(),
        {
            let event = queue.remove(0);
            proof {
                assert(event == all[n as int]);
                assert(queue@ =~= all.skip(n as int + 1));
            }
            let seq = event_seq(&event);
            let ghost o_before = outputs@;
            let ghost st_before = self.state();
            let ghost ev_n = event;
            let ghost log_before = self.delivered_log@;
            let step = self.process_one(event, &mut outputs);
            proof {
                if step is Ok {
                    let (m, r0) = choose|m: RuntimeState, r0: StepResult|
                        #[trigger] event_step(st_before, ev_n, m, r0) && step_then_callbacks(
                            m,
                            r0,
                            step,
                            self.state(),
                            o_before,
                            outputs@,
                        );
                    assert(r0 is Ok);
                    let out_n = r0->Ok_0;
                    let evs2 = all.take(n as int + 1);
                    assert(all.take(n as int).push(all[n as int]) =~= evs2);
                    lemma_callback_run_push(
                        s0,
                        all.take(n as int),
                        pres,
                        mids,
                        outs,
                        ats,
                        o_before,
                        st_before,
                        ev_n,
                        m,
                        out_n,
                        outputs@,
                    );
                    if old(self).strategies@.len() > 0 {
                        lemma_delivery_run_push(all.take(n as int), pres, spans, old(self).delivered_log@, log_before, st_before, ev_n, self.delivered_log@);
                    }
                    let pres2 = pres.push(st_before);
                    let mids2 = mids.push(m);
                    let outs2 = outs.push(out_n);
                    let ats2 = ats.push(o_before.len() as int);
                    spans = spans.push((log_before, self.delivered_log@));
                    pres = pres2;
                    mids = mids2;
                    outs = outs2;
                    ats = ats2;
                }
            }
            proof {
                if old(self).strategies@.len() == 0 {
                    let res_n = step_result(step, o_before, outputs@);
                    let states2 = states.push(self.state());
                    let results2 = results.push(res_n);
                    assert(states2[n as int] == st_before);
                    assert forall|i: int| 0 <= i < results2.len() implies event_step(
                        states2[i],
                        all[i],
                        states2[i + 1],
                        #[trigger] results2[i],
                    ) by {
                        if i < n {
                            assert(results2[i] == results[i]);
                            assert(states2[i] == states[i]);
                            assert(states2[i + 1] == states[i + 1]);
                        }
                    }
                    assert forall|i: int| 0 <= i < results2.len() - 1 implies (#[trigger] results2[i]) is Ok by {
                        assert(results2[i] == results[i]);
                    }
                    assert(results2.drop_last() =~= results);
                    if step is Ok {
                        assert(o_before + outputs@.skip(o_before.len() as int) =~= outputs@);
                    }
                    states = states2;
                    results = results2;
                }
            }
            match step {
                Ok(()) => {},
                Err(e) => {
                    proof {
                        let (m, r0) = choose|m: RuntimeState, r0: StepResult|
                            #[trigger] event_step(st_before, ev_n, m, r0) && step_then_callbacks(
                                m,
                                r0,
                                step,
                                self.state(),
                                o_before,
                                outputs@,
                            );
                        lemma_batch_failure_at(
                            s0,
                            all,
                            pres,
                            mids,
                            outs,
                            ats,
                            st_before,
                            m,
                            r0,
                            o_before,
                            outputs@,
                            e,
                            self.state(),
                            self.portfolio,
                        );
                        assert(batch_failure(
                            old(self).state(),
                            events@,
                            pres,
                            mids,
                            outs,
                            ats,
                            st_before,
                            m,
                            r0,
                            o_before,
                            outputs@,
                            e,
                            self.state(),
                            self.spec_portfolio(),
                        ));
                        if old(self).strategies@.len() == 0 {
                            assert(is_trace(states, all, results));
                            assert(results.last() == Err::<Seq<RuntimeOutput>, RuntimeError>(e));
                            assert(runs(s0, all, self.state(), Err::<Seq<RuntimeOutput>, RuntimeError>(e)));
                        }
                    }
                    return Err(e);
                },
            }
            self.last_seq = Some(seq);
            n = n + 1;
        }
        proof {
            if all.len() > 0 {
                assert(n == all.len());
            }
            if old(self).strategies@.len() == 0 {
                assert(is_trace(states, all, results));
                assert(runs(s0, all, self.state(), Ok::<Seq<RuntimeOutput>, RuntimeError>(outputs@)));
            }
            assert(all.take(n as int) =~= all);
        }
        let ghost final_out = outputs@;
        let res = self.snapshot_result(outputs);
        proof {
            if res is Err {
                lemma_batch_failure_snapshot(s0, all, pres, mids, outs, ats, final_out, res->Err_0, self.state(), self.portfolio);
                assert(batch_failure(
                    old(self).state(),
                    events@,
                    pres,
                    mids,
                    outs,
                    ats,
                    s0,
                    s0,
                    Ok::<Seq<RuntimeOutput>, RuntimeError>(Seq::empty()),
                    final_out,
                    final_out,
                    res->Err_0,
                    self.state(),
                    self.spec_portfolio(),
                ));
            }
            if res is Ok {
                assert(callback_run(old(self).state(), events@, pres, mids, outs, ats, res->Ok_0.outputs@));
                assert(callback_delivery_run(
                    old(self).state(),
                    events@,
                    pres,
                    mids,
                    outs,
                    ats,
                    res->Ok_0.outputs@,
                    old(self).strategy_count(),
                    spans,
                    old(self).delivered(),
                    self.delivered(),
                ));
            }
        }
        res
    }

    /// Process one external event, appending its outputs.
    pub fn process_one(&mut self, event: RuntimeEvent, outputs: &mut Vec<RuntimeOutput>) -> (r: Result<(), RuntimeError>)
        requires
            old(self).wf(),
            old(self).depth() == 0,
        ensures
            final(self).wf(),
            final(self).depth() == 0,
            final(self).spec_last_seq() == old(self).spec_last_seq(),
            final(self).strategy_count() == old(self).strategy_count(),
            old(outputs)@.is_prefix_of(final(outputs)@),
            log_grows(old(self).delivered(), final(self).delivered(), old(self).depth()),
            old(self).strategy_count() == 0 ==> event_step(
                old(self).state(),
                event,
                final(self).state(),
                step_result(r, old(outputs)@, final(outputs)@),
            ),
            external_risk_rejection(old(self).spec_risk(), old(self).spec_portfolio()@, event) matches Some(o)
                ==> final(outputs)@.len() > old(outputs)@.len() && final(outputs)@[old(outputs)@.len() as int] == o,
            exists|mid: RuntimeState, res0: StepResult|
                #[trigger] event_step(old(self).state(), event, mid, res0) && step_then_callbacks(
                    mid,
                    res0,
                    r,
                    final(self).state(),
                    old(outputs)@,
                    final(outputs)@,
                ),
            old(self).strategy_count() > 0 ==> event_delivers(
                old(self).state(),
                event,
                old(self).delivered(),
                final(self).delivered(),
                r is Ok,
            ),
    {
        proof {
            assert(outputs@.skip(outputs@.len() as int) =~= Seq::<RuntimeOutput>::empty());
        }
        let ghost ev0 = event;
        proof {
            lemma_log_grows_refl(self.delivered_log@, self.dispatch_depth);
        }
        match event {
            RuntimeEvent::NewOrder { seq, ts_ns, order } => {
                let res = self.handle_external_order(seq, ts_ns, order, outputs);
                proof {
                    let (mid, res0) = choose|mid: RuntimeState, res0: StepResult|
                        #[trigger] order_step(old(self).state(), seq, ts_ns, order, order.strategy_id is Some, mid, res0)
                            && step_then_callbacks(mid, res0, res, self.state(), old(outputs)@, outputs@);
                    assert(event_step(old(self).state(), ev0, mid, res0));
                }
                res
            },
            RuntimeEvent::Cancel { seq, ts_ns, order_id, symbol } => {
                let ghost sym = symbol;
                let res = self.execute_cancel(seq, ts_ns, order_id, symbol, outputs, true);
                proof {
                    let (mid, res0) = choose|mid: RuntimeState, res0: StepResult|
                        #[trigger] cancel_step(old(self).state(), seq, ts_ns, order_id, sym, mid, res0)
                            && step_then_callbacks(mid, res0, res, self.state(), old(outputs)@, outputs@);
                    assert(event_step(old(self).state(), ev0, mid, res0));
                }
                res
            },
            RuntimeEvent::Timer { seq, ts_ns, symbol } => {
                let ev = StrategyEvent::Timer { seq, ts_ns };
                let res = match &symbol {
                    Some(s) => self.dispatch_strategies(seq, ts_ns, &ev, Some(s), outputs),
                    None => self.dispatch_strategies(seq, ts_ns, &ev, None, outputs),
                };
                proof {
                    if old(self).strategy_count() > 0 {
                        lemma_nothing_delivered(old(self).delivered_log@, 0, seq![ev]);
                        lemma_deliver_next(old(self).delivered_log@, old(self).delivered_log@, self.delivered_log@, 0, seq![ev], 0);
                        lemma_delivered_first(old(self).delivered_log@, self.delivered_log@, 0, seq![ev], 1);
                    }
                    let e0 = Seq::<RuntimeOutput>::empty();
                    assert(old(outputs)@ + e0 =~= old(outputs)@);
                    assert(event_step(old(self).state(), event, old(self).state(), Ok::<Seq<RuntimeOutput>, RuntimeError>(e0)));
                    assert(step_then_callbacks(old(self).state(), Ok::<Seq<RuntimeOutput>, RuntimeError>(e0), res, self.state(), old(outputs)@, outputs@));
                }
                res
            },
        }
    }

    fn handle_external_order(
        &mut self,
        seq: SequenceNumber,
        ts_ns: TimestampNanos,
        order: Order,
        outputs: &mut Vec<RuntimeOutput>,
    ) -> (r: Result<(), RuntimeError>)
        requires
            old(self).wf(),
        ensures
            final(self).wf(),
            final(self).depth() == old(self).depth(),
            final(self).spec_last_seq() == old(self).spec_last_seq(),
            final(self).strategy_count() == old(self).strategy_count(),
            old(outputs)@.is_prefix_of(final(outputs)@),
            log_grows(old(self).delivered(), final(self).delivered(), old(self).depth()),
            keeps_engines(old(self).state(), final(self).state()),
            old(self).quiet() ==> order_step(
                old(self).state(),
                seq,
                ts_ns,
                order,
                order.strategy_id is Some,
                final(self).state(),
                step_result(r, old(outputs)@, final(outputs)@),
            ),
            spec_check_new_order(
                old(self).spec_risk().spec_limits(),
                old(self).spec_risk().spec_killed(),
                order,
                old(self).spec_portfolio()@,
            ) matches RiskDecision::Reject { reason } ==> final(outputs)@.len() > old(outputs)@.len()
                && final(outputs)@[old(outputs)@.len() as int] == (RuntimeOutput {
                    seq,
                    ts_ns,
                    kind: RuntimeOutputKind::RiskRejected { order_id: Some(order.order_id), reason },
                }),
            exists|mid: RuntimeState, res0: StepResult|
                #[trigger] order_step(old(self).state(), seq, ts_ns, order, order.strategy_id is Some, mid, res0)
                    && step_then_callbacks(mid, res0, r, final(self).state(), old(outputs)@, final(outputs)@),
            !old(self).quiet() ==> delivers_then_book(
                old(self).delivered(),
                final(self).delivered(),
                old(self).depth(),
                order_notices(old(self).state(), seq, ts_ns, order, order.strategy_id is Some),
                order.symbol,
                r is Ok,
            ),
        decreases MAX_STRATEGY_DISPATCH_DEPTH - old(self).depth(), 4nat,
    {
        let ghost g_order = order;
        let symbol = order.symbol.duplicate();
        proof {
            lemma_log_grows_refl(self.delivered_log@, self.dispatch_depth);
        }
        let ghost ks_pre = self.state();
        self.ensure_symbol(&symbol);
        proof {
            lemma_keeps_trans(old(self).state(), ks_pre, self.state());
        }
        proof {
            assert(with_engine(self.state().engines, g_order.symbol) == with_engine(old(self).state().engines, g_order.symbol));
        }
        // Replayed external liquidity is portfolio-owned only when it names a strategy.
        let owned = order.strategy_id.is_some();
        let ghost s_pre = self.state();
        let ghost o_pre = outputs@;
        let ghost ks_pre = self.state();
        let sub = self.submit_order(seq, ts_ns, order, owned, outputs);
        proof {
            lemma_keeps_trans(old(self).state(), ks_pre, self.state());
        }
        let ghost (mid, res0) = choose|mid: RuntimeState, res0: StepResult|
            #[trigger] order_step(s_pre, seq, ts_ns, g_order, owned, mid, res0) && step_then_callbacks(
                mid,
                res0,
                sub,
                self.state(),
                o_pre,
                outputs@,
            );
        let ghost notices = order_notices(old(self).state(), seq, ts_ns, g_order, g_order.strategy_id is Some);
        let ghost log1 = self.delivered_log@;
        proof {
            assert(order_step(old(self).state(), seq, ts_ns, g_order, g_order.strategy_id is Some, mid, res0));
            assert(order_notices(s_pre, seq, ts_ns, g_order, owned) == notices);
        }
        match sub {
            Ok(()) => {},
            Err(e) => return Err(e),
        }
        let (i, found) = find_engine(&self.engines, &symbol);
        proof {
            assert(s_pre.engines.contains_key(symbol@));
            assert(self.state().engines.contains_key(symbol@));
            assert(has_symbol(self.engines@, symbol@));
        }
        if found {
            let book = self.engines[i].book().snapshot(usize::MAX);
            let ghost g_book = book;
            let ev = StrategyEvent::BookUpdate { symbol: symbol.duplicate(), book };
            let ghost pre_out = outputs@;
            let ghost pre_log = self.delivered_log@;
            let ghost ks_pre = self.state();
            let res = self.dispatch_strategies(seq, ts_ns, &ev, Some(&symbol), outputs);
            proof {
                lemma_keeps_trans(old(self).state(), ks_pre, self.state());
            }
            proof {
                lemma_log_chain(old(self).delivered_log@, pre_log, self.delivered_log@, self.dispatch_depth);
                if res0 is Ok {
                    lemma_prefix_trans(o_pre + res0->Ok_0, pre_out, outputs@);
                }
                assert(step_then_callbacks(mid, res0, res, self.state(), o_pre, outputs@));
                if !old(self).quiet() {
                    let got = at_depth(self.delivered_log@.skip(old(self).delivered_log@.len() as int), self.dispatch_depth);
                    assert(at_depth(log1.skip(old(self).delivered_log@.len() as int), self.dispatch_depth) == notices);
                    assert(at_depth(self.delivered_log@.skip(log1.len() as int), self.dispatch_depth) == seq![ev]);
                    assert(got =~= notices.push(ev));
                    assert(got.take(notices.len() as int) =~= notices);
                    assert(snapshot_for(g_book, g_order.symbol));
                }
            }
            return res;
        }
        Ok(())
    }

    fn execute_cancel(
        &mut self,
        seq: SequenceNumber,
        ts_ns: TimestampNanos,
        order_id: OrderId,
        symbol: Symbol,
        outputs: &mut Vec<RuntimeOutput>,
        notify_strategies: bool,
    ) -> (r: Result<(), RuntimeError>)
        requires
            old(self).wf(),
        ensures
            final(self).wf(),
            final(self).depth() == old(self).depth(),
            final(self).spec_last_seq() == old(self).spec_last_seq(),
            final(self).strategy_count() == old(self).strategy_count(),
            old(outputs)@.is_prefix_of(final(outputs)@),
            log_grows(old(self).delivered(), final(self).delivered(), old(self).depth()),
            keeps_engines(old(self).state(), final(self).state()),
            old(self).quiet() ==> final(self).spec_next_order_id() == old(self).spec_next_order_id(),
            old(self).quiet() ==> cancel_step(
                old(self).state(),
                seq,
                ts_ns,
                order_id,
                symbol,
                final(self).state(),
                step_result(r, old(outputs)@, final(outputs)@),
            ),
            exists|mid: RuntimeState, res0: StepResult|
                #[trigger] cancel_step(old(self).state(), seq, ts_ns, order_id, symbol, mid, res0) && step_then_callbacks(
                    mid,
                    res0,
                    r,
                    final(self).state(),
                    old(outputs)@,
                    final(outputs)@,
                ),
            !notify_strategies ==> final(self).delivered() == old(self).delivered(),
            notify_strategies && !old(self).quiet() ==> exists|book: BookSnapshot|
                #[trigger] cancel_book(old(self).state(), seq, ts_ns, order_id, symbol, book) && delivers(
                    old(self).delivered(),
                    final(self).delivered(),
                    old(self).depth(),
                    seq![StrategyEvent::BookUpdate { symbol, book }],
                    r is Ok,
                ),
        decreases MAX_STRATEGY_DISPATCH_DEPTH - old(self).depth(), 1nat,
    {
        let ghost o0 = outputs@;
        proof {
            lemma_log_grows_refl(self.delivered_log@, self.dispatch_depth);
        }
        let ghost ks_pre = self.state();
        self.ensure_symbol(&symbol);
        proof {
            lemma_keeps_trans(old(self).state(), ks_pre, self.state());
        }
        let ghost s1 = self.state();
        let (i, found) = find_engine(&self.engines, &symbol);
        if !found {
            proof {
                let j = choose|j: int| 0 <= j < self.engines@.len() && (#[trigger] self.engines@[j]).spec_symbol()@ == symbol@;
                assert(self.engines@[j].spec_symbol()@ != symbol@);
            }
            return Err(RuntimeError::UnknownSymbol(symbol.duplicate()));
        }
        let input = InputEvent::Cancel(
            CancelOrderEvent { seq, order_id, symbol: symbol.duplicate(), timestamp_ns: ts_ns },
        );
        let ghost pre = self.engines@;
        let ghost m0 = self.engines@[i as int].model();
        let ghost sym0 = self.engines@[i as int].spec_symbol();
        proof {
            law_one_trade_per_fill(m0, sym0, input, ts_ns);
            lemma_engine_map_at(pre, i as int);
        }
        let ghost ks_pre = self.state();
        let (reports, trades) = self.engines[i].process_event_with_trades(input, ts_ns);
        proof {
            self.lemma_engine_updated(pre, i as int);
            lemma_keeps_trans(old(self).state(), ks_pre, self.state());
        }
        self.emit_reports(seq, ts_ns, &reports, &trades, outputs);
        self.owned_orders.remove(&order_id);
        self.order_side.remove(&order_id);
        let ghost done = *self;
        let ghost done_outputs = outputs@;
        let ghost mid = self.state();
        let ghost mid_out = done_outputs.skip(o0.len() as int);
        proof {
            assert(done_outputs.skip(o0.len() as int) =~= runtime_outputs(seq, ts_ns, reports@, trades@));
            assert(s1.engines[symbol@] == (sym0, m0));
            assert(cancel_step(old(self).state(), seq, ts_ns, order_id, symbol, mid, Ok::<Seq<RuntimeOutput>, RuntimeError>(mid_out)));
            assert(o0 + mid_out =~= done_outputs);
        }
        if notify_strategies {
            let book = self.engines[i].book().snapshot(usize::MAX);
            let ghost g_book = book;
            let ev = StrategyEvent::BookUpdate { symbol: symbol.duplicate(), book };
            let ghost log0 = self.delivered_log@;
            let ghost notices = seq![ev];
            proof {
                self.engines@[i as int].lemma_model();
                assert(cancel_book(old(self).state(), seq, ts_ns, order_id, symbol, g_book));
                lemma_nothing_delivered(log0, self.dispatch_depth, notices);
            }
            let ghost ks_pre = self.state();
            let res = self.dispatch_strategies(seq, ts_ns, &ev, Some(&symbol), outputs);
            proof {
                lemma_keeps_trans(old(self).state(), ks_pre, self.state());
            }
            proof {
                if !old(self).quiet() {
                    lemma_deliver_next(log0, log0, self.delivered_log@, self.dispatch_depth, notices, 0);
                    lemma_delivered_first(log0, self.delivered_log@, self.dispatch_depth, notices, 1);
                }
                assert(step_then_callbacks(mid, Ok::<Seq<RuntimeOutput>, RuntimeError>(mid_out), res, self.state(), o0, outputs@));
            }
            return res;
        }
        proof {
            assert(step_then_callbacks(mid, Ok::<Seq<RuntimeOutput>, RuntimeError>(mid_out), Ok(()), self.state(), o0, outputs@));
        }
        Ok(())
    }

    /// After one engine changed in place, the engine list is still well ordered.
    proof fn lemma_engine_updated(&self, before: Seq<MatchingEngine>, i: int)
        requires
            engines_ok(before),
            0 <= i < before.len(),
            self.engines@.len() == before.len(),
            forall|j: int| 0 <= j < before.len() && j != i ==> self.engines@[j] == before[j],
            self.engines@[i].wf(),
            self.engines@[i].spec_symbol() == before[i].spec_symbol(),
        ensures
            engines_ok(self.engines@),
            engine_map(self.engines@) == engine_map(before).insert(
                before[i].spec_symbol()@,
                (before[i].spec_symbol(), self.engines@[i].model()),
            ),
    {
        let e = self.engines@;
        assert forall|a: int, b: int| 0 <= a < b < e.len() implies text_lt(#[trigger] e[a].spec_symbol()@, #[trigger] e[b].spec_symbol()@) by {
            assert(text_lt(before[a].spec_symbol()@, before[b].spec_symbol()@));
        }
        assert forall|a: int| 0 <= a < e.len() implies (#[trigger] e[a]).wf() by {
            if a != i {
                assert(before[a].wf());
            }
        }
        let m0 = engine_map(before);
        let m1 = engine_map(e);
        let k = before[i].spec_symbol()@;
        let m2 = m0.insert(k, (before[i].spec_symbol(), e[i].model()));
        lemma_engine_map_at(e, i);
        lemma_engine_map_at(before, i);
        assert forall|s: Seq<char>| #[trigger] m1.contains_key(s) <==> m2.contains_key(s) by {
            if has_symbol(before, s) {
                let j = engine_index(before, s);
                lemma_engine_map_at(before, j);
                if j != i {
                    assert(e[j] == before[j]);
                }
                lemma_engine_map_at(e, j);
            }
            if has_symbol(e, s) {
                let j = engine_index(e, s);
                lemma_engine_map_at(e, j);
                if j != i {
                    assert(e[j] == before[j]);
                }
                lemma_engine_map_at(before, j);
            }
        }
        assert forall|s: Seq<char>| #[trigger] m1.contains_key(s) implies m1[s] == m2[s] by {
            let j = engine_index(e, s);
            lemma_engine_map_at(e, j);
            if j != i {
                assert(e[j] == before[j]);
                lemma_engine_map_at(before, j);
            }
        }
        assert(m1 =~= m2);
    }

    #[verifier::rlimit(60)]
    #[verifier::spinoff_prover]
    fn submit_order(
        &mut self,
        seq: SequenceNumber,
        ts_ns: TimestampNanos,
        order: Order,
        mark_owned: bool,
        outputs: &mut Vec<RuntimeOutput>,
    ) -> (r: Result<(), RuntimeError>)
        requires
            old(self).wf(),
        ensures
            final(self).wf(),
            final(self).depth() == old(self).depth(),
            final(self).spec_last_seq() == old(self).spec_last_seq(),
            final(self).strategy_count() == old(self).strategy_count(),
            old(outputs)@.is_prefix_of(final(outputs)@),
            log_grows(old(self).delivered(), final(self).delivered(), old(self).depth()),
            keeps_engines(old(self).state(), final(self).state()),
            old(self).quiet() ==> final(self).spec_next_order_id() == old(self).spec_next_order_id(),
            spec_check_new_order(
                old(self).spec_risk().spec_limits(),
                old(self).spec_risk().spec_killed(),
                order,
                old(self).spec_portfolio()@,
            ) matches RiskDecision::Reject { reason } ==> final(outputs)@.len() > old(outputs)@.len()
                && final(outputs)@[old(outputs)@.len() as int] == (RuntimeOutput {
                    seq,
                    ts_ns,
                    kind: RuntimeOutputKind::RiskRejected { order_id: Some(order.order_id), reason },
                }),
            old(self).quiet() ==> order_step(
                old(self).state(),
                seq,
                ts_ns,
                order,
                mark_owned,
                final(self).state(),
                step_result(r, old(outputs)@, final(outputs)@),
            ),
            exists|mid: RuntimeState, res0: StepResult|
                #[trigger] order_step(old(self).state(), seq, ts_ns, order, mark_owned, mid, res0) && step_then_callbacks(
                    mid,
                    res0,
                    r,
                    final(self).state(),
                    old(outputs)@,
                    final(outputs)@,
                ),
            !old(self).quiet() ==> delivers(
                old(self).delivered(),
                final(self).delivered(),
                old(self).depth(),
                order_notices(old(self).state(), seq, ts_ns, order, mark_owned),
                r is Ok,
            ),
        decreases MAX_STRATEGY_DISPATCH_DEPTH - old(self).depth(), 2nat,
    {
        let ghost g_order = order;
        let ghost o0 = outputs@;
        let ghost log0 = self.delivered_log@;
        let ghost d = self.dispatch_depth;
        let ghost notices = order_notices(self.state(), seq, ts_ns, order, mark_owned);
        proof {
            lemma_nothing_delivered(log0, d, notices);
            lemma_delivered_first(log0, log0, d, notices, 0);
        }
        let symbol = order.symbol.duplicate();
        let order_id = order.order_id;
        let side = order.side;
        let order_price = order.price;
        let order_qty = order.qty;
        let ghost ks_pre = self.state();
        self.ensure_symbol(&symbol);
        proof {
            lemma_keeps_trans(old(self).state(), ks_pre, self.state());
        }
        let ghost s1 = self.state();
        match self.risk.check_new_order(&order, &self.portfolio) {
            RiskDecision::Reject { reason } => {
                let ghost before = outputs@;
                outputs.push(
                    RuntimeOutput {
                        seq,
                        ts_ns,
                        kind: RuntimeOutputKind::RiskRejected { order_id: Some(order_id), reason: reason.duplicate() },
                    },
                );
                let ghost pushed = outputs@;
                let ghost out0 = seq![pushed[before.len() as int]];
                proof {
                    assert(order_step(old(self).state(), seq, ts_ns, g_order, mark_owned, s1, Ok::<Seq<RuntimeOutput>, RuntimeError>(out0)));
                    assert(o0 + out0 =~= pushed);
                }
                let ev = StrategyEvent::RiskRejection { order_id: Some(order_id), reason };
                proof {
                    assert(notices == seq![ev]);
                }
                let ghost ks_pre = self.state();
                let res = self.dispatch_strategies(seq, ts_ns, &ev, Some(&symbol), outputs);
                proof {
                    lemma_keeps_trans(old(self).state(), ks_pre, self.state());
                }
                proof {
                    if !old(self).quiet() {
                        lemma_deliver_next(log0, log0, self.delivered_log@, d, notices, 0);
                        lemma_delivered_first(log0, self.delivered_log@, d, notices, 1);
                    }
                    assert(before.is_prefix_of(pushed));
                    assert(outputs@[before.len() as int] == pushed[before.len() as int]);
                    if old(self).quiet() {
                        assert(outputs@.skip(o0.len() as int) =~= seq![pushed[before.len() as int]]);
                    }
                    assert((o0 + out0).is_prefix_of(outputs@));
                    assert(step_then_callbacks(s1, Ok::<Seq<RuntimeOutput>, RuntimeError>(out0), res, self.state(), o0, outputs@));
                }
                return res;
            },
            RiskDecision::Allow => {},
        }
        if mark_owned {
            if !self.owned_orders.insert(order_id) {
                proof {
                    assert(self.owned_orders@ =~= old(self).owned_orders@);
                    assert(order_step(old(self).state(), seq, ts_ns, g_order, mark_owned, self.state(), Err::<Seq<RuntimeOutput>, RuntimeError>(RuntimeError::DuplicateOrderId(order_id))));
                }
                return Err(RuntimeError::DuplicateOrderId(order_id));
            }
            self.order_side.insert(order_id, side);
        }
        let (i, found) = find_engine(&self.engines, &symbol);
        if !found {
            proof {
                let j = choose|j: int| 0 <= j < self.engines@.len() && (#[trigger] self.engines@[j]).spec_symbol()@ == symbol@;
                assert(self.engines@[j].spec_symbol()@ != symbol@);
            }
            return Err(RuntimeError::UnknownSymbol(symbol.duplicate()));
        }
        let input = InputEvent::NewOrder(NewOrderEvent { seq, order });
        let ghost pre = self.engines@;
        let ghost m0 = self.engines@[i as int].model();
        let ghost sym0 = self.engines@[i as int].spec_symbol();
        proof {
            law_one_trade_per_fill(m0, sym0, input, ts_ns);
            lemma_engine_map_at(pre, i as int);
        }
        let ghost ks_pre = self.state();
        let (reports, trades) = self.engines[i].process_event_with_trades(input, ts_ns);
        proof {
            self.lemma_engine_updated(pre, i as int);
            lemma_keeps_trans(old(self).state(), ks_pre, self.state());
        }
        match self.apply_owned_fills(&trades) {
            Ok(()) => {},
            Err(e) => {
                proof {
                    assert(order_step(old(self).state(), seq, ts_ns, g_order, mark_owned, self.state(), Err::<Seq<RuntimeOutput>, RuntimeError>(e)));
                }
                return Err(e);
            },
        }
        let ghost risk_before = self.risk;
        let loss_check = self.risk.check_post_trade_loss(&self.portfolio);
        proof {
            assert(post_trade_loss_outcome(risk_before, self.portfolio, self.risk, loss_check));
        }
        let fill_events = self.owned_fill_events(&trades);
        let mut accepted = false;
        let mut k: usize = 0;
        while k < reports.len()
            invariant
                0 <= k <= reports@.len(),
                accepted <==> exists|j: int| 0 <= j < k && reports@[j] == (ExecutionReport::Accepted { order_id }),
            decreases reports@.len() - k,
        {
            match reports[k] {
                ExecutionReport::Accepted { order_id: id } => {
                    if id == order_id {
                        accepted = true;
                    }
                },
                _ => {},
            }
            k = k + 1;
        }
        self.emit_reports(seq, ts_ns, &reports, &trades, outputs);
        let ghost emitted = outputs@;
        let ghost mid = self.state();
        let ghost mid_out = emitted.skip(o0.len() as int);
        proof {
            assert(mid_out =~= runtime_outputs(seq, ts_ns, reports@, trades@));
            let st = old(self).state();
            let engines = with_engine(st.engines, g_order.symbol);
            assert(engines == s1.engines);
            assert(spec_check_new_order(st.risk.spec_limits(), st.risk.spec_killed(), g_order, st.portfolio@) is Allow);
            assert(engines[g_order.symbol@] == (sym0, m0));
            let owned = if mark_owned { st.owned.insert(g_order.order_id) } else { st.owned };
            assert(mid.owned == owned);
            assert(mid.engines == engines.insert(g_order.symbol@, (sym0, self.engines@[i as int].model())));
            assert(post_trade_loss_outcome(st.risk, mid.portfolio, mid.risk, loss_check));
            assert(order_step(st, seq, ts_ns, g_order, mark_owned, mid, Ok::<Seq<RuntimeOutput>, RuntimeError>(mid_out)));
            assert(o0 + mid_out =~= emitted);
        }
        let ghost acc: Seq<StrategyEvent> = if mark_owned && accepted {
            seq![
                StrategyEvent::OrderAccepted {
                    order_id,
                    symbol: g_order.symbol,
                    side: g_order.side,
                    price: g_order.price,
                    qty: g_order.qty,
                },
            ]
        } else {
            Seq::empty()
        };
        let ghost trade_evs = trade_notices(trades@);
        proof {
            let st = old(self).state();
            let engines = with_engine(st.engines, g_order.symbol);
            let out = spec_event(m0, sym0, input, ts_ns);
            assert(engines[g_order.symbol@] == (sym0, m0));
            assert(reports@ == out.reports && trades@ == out.trades);
            assert(accepted == out.reports.contains(ExecutionReport::Accepted { order_id: g_order.order_id }));
            assert(fill_events@ == owned_fill_notices(mid.owned, out.trades));
            assert(notices == acc + trade_evs + fill_events@);
        }
        if mark_owned && accepted {
            let ev = StrategyEvent::OrderAccepted {
                order_id,
                symbol: symbol.duplicate(),
                side,
                price: order_price,
                qty: order_qty,
            };
            let ghost pre_out = outputs@;
            proof {
                assert(ev == notices[0]);
            }
            let ghost ks_pre = self.state();
            let res = self.dispatch_strategies(seq, ts_ns, &ev, Some(&symbol), outputs);
            proof {
                lemma_keeps_trans(old(self).state(), ks_pre, self.state());
            }
            proof {
                lemma_prefix_trans(o0 + mid_out, pre_out, outputs@);
                if !old(self).quiet() {
                    lemma_deliver_next(log0, log0, self.delivered_log@, d, notices, 0);
                    lemma_delivered_first(log0, self.delivered_log@, d, notices, 1);
                }
            }
            match res {
                Ok(()) => {},
                Err(e) => {
                    proof {
                        assert(step_then_callbacks(mid, Ok::<Seq<RuntimeOutput>, RuntimeError>(mid_out), Err(e), self.state(), o0, outputs@));
                    }
                    return Err(e);
                },
            }
        }
        let ghost done = *self;
        let ghost done_outputs = outputs@;
        let mut t: usize = 0;
        while t < trades.len()
            invariant
                self.wf(),
                self.dispatch_depth == old(self).dispatch_depth,
                self.last_seq == old(self).last_seq,
                self.strategies@.len() == old(self).strategies@.len(),
                old(outputs)@.is_prefix_of(outputs@),
                0 <= t <= trades@.len(),
                !(spec_check_new_order(old(self).risk.spec_limits(), old(self).risk.spec_killed(), order, old(self).portfolio@) is Reject),
                old(self).quiet() ==> *self == done && outputs@ == done_outputs,
                order_step(old(self).state(), seq, ts_ns, g_order, mark_owned, mid, Ok::<Seq<RuntimeOutput>, RuntimeError>(mid_out)),
                (o0 + mid_out).is_prefix_of(outputs@),
                o0 == old(outputs)@,
                g_order == order,
                log0 == old(self).delivered_log@,
                d == old(self).dispatch_depth,
                notices == acc + trade_evs + fill_events@,
                notices == order_notices(old(self).state(), seq, ts_ns, order, mark_owned),
                trade_evs == trade_notices(trades@),
                log_grows(log0, self.delivered_log@, d),
                keeps_engines(old(self).state(), self.state()),
                !old(self).quiet() ==> at_depth(self.delivered_log@.skip(log0.len() as int), d) == notices.take(acc.len() + t),
            decreases trades@.len() - t,
        {
            let ev = StrategyEvent::Trade { trade: trades[t].duplicate() };
            let ghost pre_out = outputs@;
            let ghost pre_log = self.delivered_log@;
            let ghost k = acc.len() + t;
            proof {
                assert(notices[k] == trade_evs[t as int]);
                assert(ev == notices[k]);
            }
            let ghost ks_pre = self.state();
            let res = self.dispatch_strategies(seq, ts_ns, &ev, Some(&symbol), outputs);
            proof {
                lemma_keeps_trans(old(self).state(), ks_pre, self.state());
            }
            proof {
                lemma_prefix_trans(o0 + mid_out, pre_out, outputs@);
                lemma_log_chain(log0, pre_log, self.delivered_log@, d);
                if !old(self).quiet() {
                    lemma_deliver_next(log0, pre_log, self.delivered_log@, d, notices, k);
                    lemma_delivered_first(log0, self.delivered_log@, d, notices, k + 1);
                }
            }
            match res {
                Ok(()) => {},
                Err(e) => {
                    proof {
                        assert(step_then_callbacks(mid, Ok::<Seq<RuntimeOutput>, RuntimeError>(mid_out), Err(e), self.state(), o0, outputs@));
                    }
                    return Err(e);
                },
            }
            t = t + 1;
        }
        let mut f: usize = 0;
        while f < fill_events.len()
            invariant
                self.wf(),
                self.dispatch_depth == old(self).dispatch_depth,
                self.last_seq == old(self).last_seq,
                self.strategies@.len() == old(self).strategies@.len(),
                old(outputs)@.is_prefix_of(outputs@),
                0 <= f <= fill_events@.len(),
                !(spec_check_new_order(old(self).risk.spec_limits(), old(self).risk.spec_killed(), order, old(self).portfolio@) is Reject),
                old(self).quiet() ==> *self == done && outputs@ == done_outputs,
                order_step(old(self).state(), seq, ts_ns, g_order, mark_owned, mid, Ok::<Seq<RuntimeOutput>, RuntimeError>(mid_out)),
                (o0 + mid_out).is_prefix_of(outputs@),
                o0 == old(outputs)@,
                g_order == order,
                log0 == old(self).delivered_log@,
                d == old(self).dispatch_depth,
                notices == acc + trade_evs + fill_events@,
                notices == order_notices(old(self).state(), seq, ts_ns, order, mark_owned),
                trade_evs == trade_notices(trades@),
                log_grows(log0, self.delivered_log@, d),
                keeps_engines(old(self).state(), self.state()),
                !old(self).quiet() ==> at_depth(self.delivered_log@.skip(log0.len() as int), d) == notices.take(
                    acc.len() + trades@.len() + f,
                ),
            decreases fill_events@.len() - f,
        {
            let ghost pre_out = outputs@;
            let ghost pre_log = self.delivered_log@;
            let ghost k = acc.len() + trades@.len() + f;
            proof {
                assert(notices[k] == fill_events@[f as int]);
            }
            let ghost ks_pre = self.state();
            let res = self.dispatch_strategies(seq, ts_ns, &fill_events[f], Some(&symbol), outputs);
            proof {
                lemma_keeps_trans(old(self).state(), ks_pre, self.state());
            }
            proof {
                lemma_prefix_trans(o0 + mid_out, pre_out, outputs@);
                lemma_log_chain(log0, pre_log, self.delivered_log@, d);
                if !old(self).quiet() {
                    lemma_deliver_next(log0, pre_log, self.delivered_log@, d, notices, k);
                    lemma_delivered_first(log0, self.delivered_log@, d, notices, k + 1);
                }
            }
            match res {
                Ok(()) => {},
                Err(e) => {
                    proof {
                        assert(step_then_callbacks(mid, Ok::<Seq<RuntimeOutput>, RuntimeError>(mid_out), Err(e), self.state(), o0, outputs@));
                    }
                    return Err(e);
                },
            }
            f = f + 1;
        }
        proof {
            if old(self).quiet() {
                assert(emitted == done_outputs);
                assert(self.state() == mid);
                assert(outputs@.skip(o0.len() as int) == mid_out);
            }
            assert(step_then_callbacks(mid, Ok::<Seq<RuntimeOutput>, RuntimeError>(mid_out), Ok(()), self.state(), o0, outputs@));
            if !old(self).quiet() {
                lemma_delivered_first(log0, self.delivered_log@, d, notices, notices.len() as int);
            }
        }
        Ok(())
    }

    /// Fill notices for the strategy-owned sides of trades, taker before maker.
    fn owned_fill_events(&self, trades: &Vec<Trade>) -> (r: Vec<StrategyEvent>)
        ensures
            r@ == owned_fill_notices(self.owned_orders@, trades@),
    {
        let mut events: Vec<StrategyEvent> = Vec::new();
        let mut t: usize = 0;
        while t < trades.len()
            invariant
                0 <= t <= trades@.len(),
                events@ == owned_fill_notices(self.owned_orders@, trades@.take(t as int)),
            decreases trades@.len() - t,
        {
            proof {
                assert(trades@.take(t as int + 1).drop_last() =~= trades@.take(t as int));
            }
            let trade = &trades[t];
            if self.owned_orders.contains(&trade.taker_order_id) {
                events.push(
                    StrategyEvent::Fill {
                        order_id: trade.taker_order_id,
                        symbol: trade.symbol.duplicate(),
                        side: trade.aggressor_side,
                        price: trade.price,
                        qty: trade.qty,
                    },
                );
            }
            if self.owned_orders.contains(&trade.maker_order_id) {
                events.push(
                    StrategyEvent::Fill {
                        order_id: trade.maker_order_id,
                        symbol: trade.symbol.duplicate(),
                        side: trade.aggressor_side.opposite(),
                        price: trade.price,
                        qty: trade.qty,
                    },
                );
            }
            t = t + 1;
        }
        proof {
            assert(trades@.take(t as int) =~= trades@);
        }
        events
    }

    /// Book strategy-owned fills into the portfolio and mark each trade's price.
    fn apply_owned_fills(&mut self, trades: &Vec<Trade>) -> (r: Result<(), RuntimeError>)
        requires
            old(self).wf(),
        ensures
            final(self).wf(),
            final(self).engines_view() == old(self).engines_view(),
            final(self).depth() == old(self).depth(),
            final(self).spec_last_seq() == old(self).spec_last_seq(),
            final(self).strategy_count() == old(self).strategy_count(),
            final(self).risk == old(self).risk,
            final(self).owned_orders@ == old(self).owned_orders@,
            final(self).strategies@ == old(self).strategies@,
            final(self).delivered_log == old(self).delivered_log,
            final(self).next_order_id == old(self).next_order_id,
            final(self).portfolio@ == owned_fills(old(self).portfolio@, old(self).owned_orders@, trades@).0,
            match owned_fills(old(self).portfolio@, old(self).owned_orders@, trades@).1 {
                Ok(()) => r is Ok,
                Err(e) => r == Err::<(), RuntimeError>(RuntimeError::Portfolio(e)),
            },
    {
        let ghost p0 = self.portfolio@;
        let ghost owned = self.owned_orders@;
        proof {
            assert(trades@.take(0) =~= Seq::<Trade>::empty());
        }
        let mut t: usize = 0;
        while t < trades.len()
            invariant
                0 <= t <= trades@.len(),
                self.wf(),
                self.engines@ == old(self).engines@,
                self.dispatch_depth == old(self).dispatch_depth,
                self.last_seq == old(self).last_seq,
                self.strategies@ == old(self).strategies@,
                self.risk == old(self).risk,
                self.owned_orders@ == owned,
                p0 == old(self).portfolio@,
                owned == old(self).owned_orders@,
                self.delivered_log == old(self).delivered_log,
                self.next_order_id == old(self).next_order_id,
                owned_fills(p0, owned, trades@.take(t as int)) == (self.portfolio@, Ok::<(), PortfolioError>(())),
            decreases trades@.len() - t,
        {
            let trade = &trades[t];
            let ghost pt = self.portfolio@;
            proof {
                assert(trades@.take(t as int + 1).drop_last() =~= trades@.take(t as int));
                assert(trades@.take(t as int + 1).last() == trades@[t as int]);
            }
            if self.owned_orders.contains(&trade.taker_order_id) {
                match self.portfolio.apply_fill(&trade.symbol, trade.aggressor_side, trade.price, trade.qty) {
                    Ok(()) => {},
                    Err(e) => {
                        proof {
                            lemma_owned_fills_stop(p0, owned, trades@, t as int + 1);
                        }
                        return Err(RuntimeError::Portfolio(e));
                    },
                }
            }
            if self.owned_orders.contains(&trade.maker_order_id) {
                match self.portfolio.apply_fill(&trade.symbol, trade.aggressor_side.opposite(), trade.price, trade.qty) {
                    Ok(()) => {},
                    Err(e) => {
                        proof {
                            lemma_owned_fills_stop(p0, owned, trades@, t as int + 1);
                        }
                        return Err(RuntimeError::Portfolio(e));
                    },
                }
            }
            let _ = self.portfolio.set_mark(&trade.symbol, trade.price);
            proof {
                assert(trade_fills(pt, owned, trades@[t as int]) == (self.portfolio@, Ok::<(), PortfolioError>(())));
            }
            t = t + 1;
        }
        proof {
            assert(trades@.take(t as int) =~= trades@);
        }
        Ok(())
    }

    /// Deliver an event to every strategy, with the context `strategy_context` gives, cap
    /// each strategy's commands with `cap_strategy_commands`, then run them in order with
    /// `execute_strategy_command`, stopping at the first error. Nested dispatch stops at
    /// the depth bound; with no strategy to call back, nothing happens.
    fn dispatch_strategies(
        &mut self,
        seq: SequenceNumber,
        ts_ns: TimestampNanos,
        event: &StrategyEvent,
        symbol: Option<&Symbol>,
        outputs: &mut Vec<RuntimeOutput>,
    ) -> (r: Result<(), RuntimeError>)
        requires
            old(self).wf(),
        ensures
            final(self).wf(),
            final(self).depth() == old(self).depth(),
            final(self).spec_last_seq() == old(self).spec_last_seq(),
            final(self).strategy_count() == old(self).strategy_count(),
            old(outputs)@.is_prefix_of(final(outputs)@),
            log_grows(old(self).delivered(), final(self).delivered(), old(self).depth()),
            keeps_engines(old(self).state(), final(self).state()),
            old(self).quiet() ==> r is Ok && *final(self) == *old(self) && final(outputs)@ == old(outputs)@,
            !old(self).quiet() ==> at_depth(final(self).delivered().skip(old(self).delivered().len() as int), old(self).depth())
                == seq![*event],
        decreases MAX_STRATEGY_DISPATCH_DEPTH - old(self).depth(), 0nat,
    {
        proof {
            lemma_log_grows_refl(self.delivered_log@, self.dispatch_depth);
        }
        if self.dispatch_depth >= MAX_STRATEGY_DISPATCH_DEPTH {
            return Ok(());
        }
        let ghost d = self.dispatch_depth;
        let ghost log0 = self.delivered_log@;
        let count = self.strategies.len();
        if count > 0 {
            self.delivered_log = Ghost(self.delivered_log@.push((d, *event)));
        }
        let ghost log1 = self.delivered_log@;
        self.dispatch_depth = self.dispatch_depth + 1;
        let ghost bumped = *self;
        let mut pending: Vec<(StrategyId, Vec<StrategyCommand>)> = Vec::new();
        let mut idx: usize = 0;
        while idx < count
            invariant
                0 <= idx <= count,
                count == self.strategies@.len(),
                self.strategies@.len() == old(self).strategies@.len(),
                self.wf(),
                self.dispatch_depth == old(self).dispatch_depth + 1,
                self.last_seq == old(self).last_seq,
                old(outputs)@.is_prefix_of(outputs@),
                forall|p: int| 0 <= p < pending@.len() ==> (#[trigger] pending@[p]).1@.len() <= self.max_strategy_commands_per_event,
                pending@.len() <= idx,
                count == 0 ==> *self == bumped && outputs@ == old(outputs)@,
                self.delivered_log@ == log1,
                self.state() == old(self).state(),
            decreases count - idx,
        {
            let id = self.strategies[idx].id();
            let ctx = self.strategy_context(id, seq, ts_ns, symbol);
            let returned = self.strategies[idx].on_event(event, &ctx);
            let ghost before = outputs@;
            let commands = cap_strategy_commands(id, seq, ts_ns, returned, self.max_strategy_commands_per_event, outputs);
            proof {
                assert(old(outputs)@.is_prefix_of(outputs@)) by {
                    assert forall|q: int| 0 <= q < old(outputs)@.len() implies outputs@[q] == old(outputs)@[q] by {
                        assert(before[q] == old(outputs)@[q]);
                    }
                }
            }
            if commands.len() > 0 {
                pending.push((id, commands));
            }
            idx = idx + 1;
        }
        let mut result: Result<(), RuntimeError> = Ok(());
        let mut p: usize = 0;
        proof {
            lemma_log_grows_refl(log1, (d + 1) as u32);
        }
        while p < pending.len()
            invariant
                0 <= p <= pending@.len(),
                self.wf(),
                self.dispatch_depth == old(self).dispatch_depth + 1,
                self.dispatch_depth <= MAX_STRATEGY_DISPATCH_DEPTH,
                self.last_seq == old(self).last_seq,
                self.strategies@.len() == old(self).strategies@.len(),
                old(outputs)@.is_prefix_of(outputs@),
                old(self).strategies@.len() == 0 ==> pending@.len() == 0 && *self == bumped && outputs@ == old(outputs)@
                    && result is Ok,
                log_grows(log1, self.delivered_log@, (d + 1) as u32),
                d == old(self).dispatch_depth,
                keeps_engines(old(self).state(), self.state()),
            decreases pending@.len() - p,
        {
            let strategy_id = pending[p].0;
            let ghost pre_out = outputs@;
            let ghost pre_log = self.delivered_log@;
            let ghost ks_pre = self.state();
            let run = self.run_strategy_commands(seq, ts_ns, strategy_id, &pending[p].1, outputs);
            proof {
                lemma_keeps_trans(old(self).state(), ks_pre, self.state());
            }
            proof {
                lemma_prefix_trans(old(outputs)@, pre_out, outputs@);
                lemma_log_chain(log1, pre_log, self.delivered_log@, (d + 1) as u32);
            }
            match run {
                Ok(()) => {},
                Err(e) => {
                    result = Err(e);
                    break;
                },
            }
            p = p + 1;
        }
        self.dispatch_depth = self.dispatch_depth - 1;
        proof {
            let fin = self.delivered_log@;
            assert forall|i: int| log0.len() <= i < fin.len() implies (#[trigger] fin[i]).0 >= d by {
                if i >= log1.len() {
                    assert(fin[i].0 >= d + 1);
                } else {
                    assert(fin[i] == log1[i]);
                }
            }
            if count > 0 {
                let tail = fin.skip(log1.len() as int);
                assert forall|i: int| 0 <= i < tail.len() implies (#[trigger] tail[i]).0 > d by {
                    assert(tail[i] == fin[log1.len() + i]);
                }
                lemma_at_depth_deeper(tail, d);
                assert(fin.skip(log0.len() as int) =~= seq![(d, *event)] + tail) by {
                    assert(fin[log0.len() as int] == log1[log0.len() as int]);
                }
                lemma_at_depth_add(seq![(d, *event)], tail, d);
                assert(at_depth(seq![(d, *event)], d) =~= seq![*event]) by {
                    reveal_with_fuel(at_depth, 2);
                    assert(seq![(d, *event)].drop_last() =~= Seq::<(u32, StrategyEvent)>::empty());
                }
            }
        }
        result
    }

    /// Carry out one command a strategy returned: a new order gets the next runtime ID and
    /// goes through the same steps as any owned order; a cancel is carried out without
    /// notifying strategies. When no strategy is called back, the outcome is the
    /// strategy-free step for that command.
    pub fn execute_strategy_command(
        &mut self,
        seq: SequenceNumber,
        ts_ns: TimestampNanos,
        strategy_id: StrategyId,
        command: StrategyCommand,
        outputs: &mut Vec<RuntimeOutput>,
    ) -> (r: Result<(), RuntimeError>)
        requires
            old(self).wf(),
        ensures
            final(self).wf(),
            final(self).depth() == old(self).depth(),
            final(self).spec_last_seq() == old(self).spec_last_seq(),
            final(self).strategy_count() == old(self).strategy_count(),
            old(outputs)@.is_prefix_of(final(outputs)@),
            log_grows(old(self).delivered(), final(self).delivered(), old(self).depth()),
            keeps_engines(old(self).state(), final(self).state()),
            old(self).quiet() ==> match command {
                StrategyCommand::PlaceOrder { symbol, side, order_type, price, qty } => order_step(
                    old(self).state(),
                    seq,
                    ts_ns,
                    (Order {
                        order_id: old(self).spec_next_order_id(),
                        symbol,
                        side,
                        order_type,
                        price,
                        qty,
                        timestamp_ns: ts_ns,
                        strategy_id: Some(strategy_id),
                    }),
                    true,
                    final(self).state(),
                    step_result(r, old(outputs)@, final(outputs)@),
                ),
                StrategyCommand::Cancel { order_id, symbol } => cancel_step(
                    old(self).state(),
                    seq,
                    ts_ns,
                    order_id,
                    symbol,
                    final(self).state(),
                    step_result(r, old(outputs)@, final(outputs)@),
                ),
            },
            command matches StrategyCommand::PlaceOrder { symbol, side, order_type, price, qty } ==> (spec_check_new_order(
                old(self).spec_risk().spec_limits(),
                old(self).spec_risk().spec_killed(),
                (Order {
                    order_id: old(self).spec_next_order_id(),
                    symbol,
                    side,
                    order_type,
                    price,
                    qty,
                    timestamp_ns: ts_ns,
                    strategy_id: Some(strategy_id),
                }),
                old(self).spec_portfolio()@,
            ) matches RiskDecision::Reject { reason } ==> final(outputs)@.len() > old(outputs)@.len()
                && final(outputs)@[old(outputs)@.len() as int] == (RuntimeOutput {
                    seq,
                    ts_ns,
                    kind: RuntimeOutputKind::RiskRejected { order_id: Some(old(self).spec_next_order_id()), reason },
                })),
            exists|mid: RuntimeState, res0: StepResult|
                #[trigger] command_step(old(self).state(), seq, ts_ns, strategy_id, old(self).spec_next_order_id(), command, mid, res0)
                    && step_then_callbacks(mid, res0, r, final(self).state(), old(outputs)@, final(outputs)@),
            !old(self).quiet() ==> delivers(
                old(self).delivered(),
                final(self).delivered(),
                old(self).depth(),
                command_notices(old(self).state(), seq, ts_ns, strategy_id, old(self).spec_next_order_id(), command),
                r is Ok,
            ),
            old(self).quiet() ==> final(self).spec_next_order_id() == next_command_id(old(self).spec_next_order_id(), command),
        decreases MAX_STRATEGY_DISPATCH_DEPTH - old(self).depth(), 3nat,
    {
        let ghost cmd0 = command;
        proof {
            lemma_log_grows_refl(self.delivered_log@, self.dispatch_depth);
        }
        match command {
            StrategyCommand::PlaceOrder { symbol, side, order_type, price, qty } => {
                let order_id = self.alloc_order_id();
                let order = Order {
                    order_id,
                    symbol,
                    side,
                    order_type,
                    price,
                    qty,
                    timestamp_ns: ts_ns,
                    strategy_id: Some(strategy_id),
                };
                let ghost g_order = order;
                proof {
                    assert(self.state() == old(self).state());
                }
                let res = self.submit_order(seq, ts_ns, order, true, outputs);
                proof {
                    let (mid, res0) = choose|mid: RuntimeState, res0: StepResult|
                        #[trigger] order_step(old(self).state(), seq, ts_ns, g_order, true, mid, res0)
                            && step_then_callbacks(mid, res0, res, self.state(), old(outputs)@, outputs@);
                    assert(command_step(old(self).state(), seq, ts_ns, strategy_id, old(self).spec_next_order_id(), cmd0, mid, res0));
                }
                res
            },
            StrategyCommand::Cancel { order_id, symbol } => {
                let ghost sym = symbol;
                // Cancels from inside a dispatch do not notify strategies again.
                let res = self.execute_cancel(seq, ts_ns, order_id, symbol, outputs, false);
                proof {
                    lemma_nothing_delivered(self.delivered_log@, self.dispatch_depth, Seq::<StrategyEvent>::empty());
                    lemma_delivered_first(
                        self.delivered_log@,
                        self.delivered_log@,
                        self.dispatch_depth,
                        Seq::<StrategyEvent>::empty(),
                        0,
                    );
                    let (mid, res0) = choose|mid: RuntimeState, res0: StepResult|
                        #[trigger] cancel_step(old(self).state(), seq, ts_ns, order_id, sym, mid, res0)
                            && step_then_callbacks(mid, res0, res, self.state(), old(outputs)@, outputs@);
                    assert(command_step(old(self).state(), seq, ts_ns, strategy_id, old(self).spec_next_order_id(), cmd0, mid, res0));
                }
                res
            },
        }
    }

    /// Run one strategy's commands in order, each as `execute_strategy_command` does,
    /// stopping at the first error. With no strategy called back this is exactly the run
    /// `command_runs` describes. Otherwise, when all succeed, each command's own step (a new
    /// order with the next runtime ID at its turn, or a cancel) succeeded, its outputs
    /// standing in order among those appended, strategy callbacks possibly following each
    /// step; on an error, `command_failure` says which command's step it follows from.
    #[verifier::rlimit(100)]
    #[verifier::spinoff_prover]
    pub fn run_strategy_commands(
        &mut self,
        seq: SequenceNumber,
        ts_ns: TimestampNanos,
        strategy_id: StrategyId,
        commands: &Vec<StrategyCommand>,
        outputs: &mut Vec<RuntimeOutput>,
    ) -> (r: Result<(), RuntimeError>)
        requires
            old(self).wf(),
        ensures
            final(self).wf(),
            final(self).depth() == old(self).depth(),
            final(self).spec_last_seq() == old(self).spec_last_seq(),
            final(self).strategy_count() == old(self).strategy_count(),
            old(outputs)@.is_prefix_of(final(outputs)@),
            log_grows(old(self).delivered(), final(self).delivered(), old(self).depth()),
            keeps_engines(old(self).state(), final(self).state()),
            r is Ok ==> exists|
                pre: Seq<RuntimeState>,
                mid: Seq<RuntimeState>,
                ids: Seq<OrderId>,
                outs: Seq<Seq<RuntimeOutput>>,
                at: Seq<int>,
                spans: Seq<(Seq<(u32, StrategyEvent)>, Seq<(u32, StrategyEvent)>)>,
            |
                #[trigger] command_callback_run(
                    old(self).state(),
                    seq,
                    ts_ns,
                    strategy_id,
                    old(self).spec_next_order_id(),
                    commands@,
                    pre,
                    mid,
                    ids,
                    outs,
                    at,
                    final(outputs)@.skip(old(outputs)@.len() as int),
                    old(self).strategy_count(),
                    old(self).depth(),
                    spans,
                    old(self).delivered(),
                    final(self).delivered(),
                ),
            old(self).quiet() ==> command_runs(
                old(self).state(),
                seq,
                ts_ns,
                strategy_id,
                old(self).spec_next_order_id(),
                commands@,
                final(self).state(),
                final(self).spec_next_order_id(),
                step_result(r, old(outputs)@, final(outputs)@),
            ),
            r is Err ==> exists|
                pre: Seq<RuntimeState>,
                mid: Seq<RuntimeState>,
                ids: Seq<OrderId>,
                outs: Seq<Seq<RuntimeOutput>>,
                at: Seq<int>,
                pre_k: RuntimeState,
                id_k: OrderId,
                m: RuntimeState,
                res0: StepResult,
                at_k: Seq<RuntimeOutput>,
            |
                #[trigger] command_failure(
                    old(self).state(),
                    seq,
                    ts_ns,
                    strategy_id,
                    old(self).spec_next_order_id(),
                    commands@,
                    pre,
                    mid,
                    ids,
                    outs,
                    at,
                    pre_k,
                    id_k,
                    m,
                    res0,
                    old(outputs)@,
                    at_k,
                    r,
                    final(self).state(),
                    final(outputs)@,
                ),
        decreases MAX_STRATEGY_DISPATCH_DEPTH - old(self).depth(), 5nat,
    {
        let ghost o0 = outputs@;
        let ghost s0 = self.state();
        let ghost id0 = self.next_order_id;
        let ghost mut pres: Seq<RuntimeState> = Seq::empty();
        let ghost mut mids: Seq<RuntimeState> = Seq::empty();
        let ghost mut ids: Seq<OrderId> = Seq::empty();
        let ghost mut outs: Seq<Seq<RuntimeOutput>> = Seq::empty();
        let ghost mut ats: Seq<int> = Seq::empty();
        let ghost mut spans: Seq<(Seq<(u32, StrategyEvent)>, Seq<(u32, StrategyEvent)>)> = Seq::empty();
        let ghost mut qstates: Seq<RuntimeState> = seq![s0];
        let ghost mut qids: Seq<OrderId> = seq![id0];
        let ghost mut qresults: Seq<StepResult> = Seq::empty();
        let n = commands.len();
        let mut c: usize = 0;
        proof {
            lemma_log_grows_refl(self.delivered_log@, self.dispatch_depth);
            assert(outputs@.skip(o0.len() as int) =~= Seq::<RuntimeOutput>::empty());
        }
        while c < n
            invariant
                0 <= c <= n,
                n == commands@.len(),
                self.wf(),
                self.dispatch_depth == old(self).dispatch_depth,
                self.last_seq == old(self).last_seq,
                self.strategies@.len() == old(self).strategies@.len(),
                o0 == old(outputs)@,
                o0.is_prefix_of(outputs@),
                s0 == old(self).state(),
                id0 == old(self).spec_next_order_id(),
                c == 0 ==> self.state() == s0 && outputs@ == o0 && self.next_order_id == id0,
                command_run(s0, seq, ts_ns, strategy_id, id0, commands@.take(c as int), pres, mids, ids, outs, ats, outputs@.skip(o0.len() as int)),
                !old(self).quiet() ==> command_delivery_run(
                    seq,
                    ts_ns,
                    strategy_id,
                    commands@.take(c as int),
                    pres,
                    ids,
                    spans,
                    old(self).delivered_log@,
                    self.delivered_log@,
                    self.dispatch_depth,
                ),
                log_grows(old(self).delivered_log@, self.delivered_log@, self.dispatch_depth),
                keeps_engines(old(self).state(), self.state()),
                old(self).quiet() ==> {
                    &&& command_trace(seq, ts_ns, strategy_id, qstates, qids, commands@, qresults)
                    &&& qresults.len() == c
                    &&& qstates[0] == s0
                    &&& qids[0] == id0
                    &&& qstates.last() == self.state()
                    &&& qids.last() == self.next_order_id
                    &&& forall|i: int| 0 <= i < c ==> (#[trigger] qresults[i]) is Ok
                    &&& concat_outputs(qresults) == outputs@.skip(o0.len() as int)
                },
            decreases n - c,
        {
            let command = commands[c].duplicate();
            let ghost st_before = self.state();
            let ghost id_before = self.next_order_id;
            let ghost o_before = outputs@;
            let ghost log_before = self.delivered_log@;
            let ghost ks_pre = self.state();
            let res = self.execute_strategy_command(seq, ts_ns, strategy_id, command, outputs);
            proof {
                lemma_keeps_trans(old(self).state(), ks_pre, self.state());
            }
            proof {
                lemma_prefix_trans(o0, o_before, outputs@);
                lemma_log_chain(old(self).delivered_log@, log_before, self.delivered_log@, self.dispatch_depth);
                if old(self).quiet() {
                    lemma_command_trace_push(
                        seq,
                        ts_ns,
                        strategy_id,
                        qstates,
                        qids,
                        commands@,
                        qresults,
                        o0,
                        o_before,
                        outputs@,
                        self.state(),
                        self.next_order_id,
                        res,
                    );
                    let r_c = step_result(res, o_before, outputs@);
                    assert(qresults.push(r_c).drop_last() =~= qresults);
                    qstates = qstates.push(self.state());
                    qids = qids.push(self.next_order_id);
                    qresults = qresults.push(r_c);
                }
                if res is Err {
                    let (m, r0) = choose|m: RuntimeState, r0: StepResult|
                        #[trigger] command_step(st_before, seq, ts_ns, strategy_id, id_before, commands@[c as int], m, r0)
                            && step_then_callbacks(m, r0, res, self.state(), o_before, outputs@);
                    assert(command_failure(
                        s0,
                        seq,
                        ts_ns,
                        strategy_id,
                        id0,
                        commands@,
                        pres,
                        mids,
                        ids,
                        outs,
                        ats,
                        st_before,
                        id_before,
                        m,
                        r0,
                        o0,
                        o_before,
                        res,
                        self.state(),
                        outputs@,
                    ));
                }
            }
            match res {
                Ok(()) => {},
                Err(e) => return Err(e),
            }
            proof {
                let (m, r0) = choose|m: RuntimeState, r0: StepResult|
                    #[trigger] command_step(st_before, seq, ts_ns, strategy_id, id_before, commands@[c as int], m, r0)
                        && step_then_callbacks(m, r0, res, self.state(), o_before, outputs@);
                assert(r0 is Ok);
                let out_c = r0->Ok_0;
                let app = outputs@.skip(o0.len() as int);
                let app_before = o_before.skip(o0.len() as int);
                let pres2 = pres.push(st_before);
                let mids2 = mids.push(m);
                let ids2 = ids.push(id_before);
                let outs2 = outs.push(out_c);
                let ats2 = ats.push(app_before.len() as int);
                let cs2 = commands@.take(c as int + 1);
                assert(commands@.take(c as int).push(commands@[c as int]) =~= cs2);
                lemma_command_run_push(
                    s0,
                    seq,
                    ts_ns,
                    strategy_id,
                    id0,
                    commands@.take(c as int),
                    pres,
                    mids,
                    ids,
                    outs,
                    ats,
                    o0,
                    o_before,
                    outputs@,
                    st_before,
                    id_before,
                    commands@[c as int],
                    m,
                    out_c,
                );
                if !old(self).quiet() {
                    lemma_command_delivery_push(
                        seq,
                        ts_ns,
                        strategy_id,
                        commands@.take(c as int),
                        pres,
                        ids,
                        spans,
                        old(self).delivered_log@,
                        log_before,
                        self.dispatch_depth,
                        commands@[c as int],
                        st_before,
                        id_before,
                        self.delivered_log@,
                    );
                }
                spans = spans.push((log_before, self.delivered_log@));
                pres = pres2;
                mids = mids2;
                ids = ids2;
                outs = outs2;
                ats = ats2;
            }
            c = c + 1;
        }
        proof {
            assert(commands@.take(c as int) =~= commands@);
            assert(command_callback_run(
                old(self).state(),
                seq,
                ts_ns,
                strategy_id,
                old(self).spec_next_order_id(),
                commands@,
                pres,
                mids,
                ids,
                outs,
                ats,
                outputs@.skip(old(outputs)@.len() as int),
                old(self).strategy_count(),
                old(self).depth(),
                spans,
                old(self).delivered(),
                self.delivered(),
            ));
        }
        Ok(())
    }

    /// The next runtime-assigned order ID (saturating).
    fn alloc_order_id(&mut self) -> (r: OrderId)
        ensures
            r == old(self).next_order_id,
            final(self).next_order_id == (if old(self).next_order_id == u64::MAX {
                u64::MAX
            } else {
                (old(self).next_order_id + 1) as u64
            }),
            final(self).engines@ == old(self).engines@,
            final(self).portfolio == old(self).portfolio,
            final(self).risk == old(self).risk,
            final(self).dispatch_depth == old(self).dispatch_depth,
            final(self).last_seq == old(self).last_seq,
            final(self).strategies@ == old(self).strategies@,
            final(self).owned_orders@ == old(self).owned_orders@,
            final(self).order_side@ == old(self).order_side@,
            final(self).delivered_log == old(self).delivered_log,
            final(self).activations == old(self).activations,
            final(self).strategy_ids == old(self).strategy_ids,
    {
        let id = self.next_order_id;
        self.next_order_id = if id == u64::MAX { u64::MAX } else { id + 1 };
        id
    }

    /// Read-only context for a strategy callback: the symbol's book if given and known, a
    /// portfolio snapshot (cash only when the snapshot fails), and the kill-switch state.
    fn strategy_context(&self, strategy_id: StrategyId, seq: u64, ts_ns: TimestampNanos, symbol: Option<&Symbol>) -> (r: StrategyContext)
        requires
            self.wf(),
        ensures
            r.strategy_id == strategy_id,
            r.seq == seq,
            r.ts_ns == ts_ns,
            r.risk_killed == self.spec_risk().spec_killed(),
            match symbol {
                Some(sym) => match r.book {
                    Some(b) => has_symbol(self.engines_view(), sym@) && book_snapshot_of(
                        b,
                        self.engines_view()[engine_index(self.engines_view(), sym@)],
                    ),
                    None => !has_symbol(self.engines_view(), sym@),
                },
                None => r.book is None,
            },
            match snapshot_failure(self.spec_portfolio()) {
                None => is_snapshot_of(self.spec_portfolio(), r.portfolio),
                Some(_) => {
                    &&& r.portfolio.cash == self.spec_portfolio()@.cash
                    &&& r.portfolio.realized_pnl == self.spec_portfolio()@.realized_pnl
                    &&& r.portfolio.unrealized_pnl == 0
                    &&& r.portfolio.equity == self.spec_portfolio()@.cash
                    &&& r.portfolio.positions@.len() == 0
                },
            },
    {
        let book = match symbol {
            Some(sym) => {
                let (i, found) = find_engine(&self.engines, sym);
                if found {
                    proof {
                        self.engines@[i as int].lemma_model();
                        lemma_engine_map_at(self.engines@, i as int);
                    }
                    Some(self.engines[i].book().snapshot(usize::MAX))
                } else {
                    None
                }
            },
            None => None,
        };
        let portfolio = match self.portfolio.snapshot() {
            Ok(s) => s,
            Err(_) => PortfolioSnapshot {
                cash: self.portfolio.cash(),
                realized_pnl: self.portfolio.realized_pnl(),
                unrealized_pnl: 0,
                equity: self.portfolio.cash(),
                positions: Vec::new(),
            },
        };
        StrategyContext { strategy_id, seq, ts_ns, portfolio, book, risk_killed: self.risk.is_killed() }
    }

    /// Append the outputs for an engine's reports; the k-th fill report carries the k-th trade.
    fn emit_reports(
        &self,
        seq: SequenceNumber,
        ts_ns: TimestampNanos,
        reports: &Vec<ExecutionReport>,
        trades: &Vec<Trade>,
        outputs: &mut Vec<RuntimeOutput>,
    )
        requires
            fill_count(reports@) == trades@.len(),
        ensures
            final(outputs)@ == old(outputs)@ + runtime_outputs(seq, ts_ns, reports@, trades@),
    {
        let ghost o0 = outputs@;
        let mut t: usize = 0;
        let mut j: usize = 0;
        while j < reports.len()
            invariant
                0 <= j <= reports@.len(),
                fill_count(reports@) == trades@.len(),
                t == fill_count(reports@.take(j as int)),
                outputs@ == o0 + runtime_outputs(seq, ts_ns, reports@.take(j as int), trades@),
            decreases reports@.len() - j,
        {
            proof {
                assert(reports@.take(j as int + 1).drop_last() =~= reports@.take(j as int));
                assert(reports@.take(j as int + 1).last() == reports@[j as int]);
                lemma_fill_count_prefix(reports@, j as int + 1);
                assert(fill_count(reports@.take(j as int + 1)) == fill_count(reports@.take(j as int)) + (if is_fill(
                    reports@[j as int],
                ) {
                    1nat
                } else {
                    0nat
                }));
            }
            let kind = match reports[j] {
                ExecutionReport::Accepted { order_id } => Some(RuntimeOutputKind::Accepted { order_id }),
                ExecutionReport::Filled { .. } | ExecutionReport::PartiallyFilled { .. } => {
                    assert(is_fill(reports@[j as int]));
                    assert(t < trades.len());
                    let trade = trades[t].duplicate();
                    t = t + 1;
                    Some(RuntimeOutputKind::Trade { trade })
                },
                ExecutionReport::Rested { .. } => None,
                ExecutionReport::Cancelled { order_id } => Some(RuntimeOutputKind::Cancelled { order_id }),
                ExecutionReport::Expired { order_id, remaining } => Some(RuntimeOutputKind::Expired { order_id, remaining }),
                ExecutionReport::Rejected { order_id, reason } => Some(
                    RuntimeOutputKind::Rejected { order_id: Some(order_id), reason },
                ),
            };
            match kind {
                Some(kind) => outputs.push(RuntimeOutput { seq, ts_ns, kind }),
                None => {},
            }
            j = j + 1;
        }
        proof {
            assert(reports@.take(j as int) =~= reports@);
        }
    }

    fn validate_sequences(&self, events: &Vec<RuntimeEvent>) -> (r: Result<(), RuntimeError>)
        ensures
            match runtime_sequence_error(self.last_seq, events@) {
                Some(e) => r matches Err(x) && x == e,
                None => r is Ok,
            },
    {
        let mut previous = self.last_seq;
        let mut i: usize = 0;
        while i < events.len()
            invariant
                0 <= i <= events@.len(),
                runtime_sequence_error(self.last_seq, events@) == runtime_sequence_error(previous, events@.skip(i as int)),
            decreases events@.len() - i,
        {
            let s = event_seq(&events[i]);
            proof {
                assert(events@.skip(i as int)[0] == events@[i as int]);
                assert(events@.skip(i as int).drop_first() =~= events@.skip(i as int + 1));
            }
            match previous {
                Some(p) => {
                    if s == p {
                        return Err(RuntimeError::DuplicateSequence { seq: s });
                    }
                    if s < p {
                        return Err(RuntimeError::OutOfOrderSequence { previous: p, seq: s });
                    }
                },
                None => {},
            }
            previous = Some(s);
            i = i + 1;
        }
        proof {
            assert(events@.skip(i as int).len() == 0);
        }
        Ok(())
    }

    /// Final books in ascending symbol order and the portfolio snapshot.
    fn snapshot_result(&self, outputs: Vec<RuntimeOutput>) -> (r: Result<RuntimeResult, RuntimeError>)
        requires
            self.wf(),
        ensures
            match snapshot_failure(self.portfolio) {
                Some(e) => r == Err::<RuntimeResult, RuntimeError>(RuntimeError::Portfolio(e)),
                None => r matches Ok(res) && res.outputs@ == outputs@ && result_of(res, *self),
            },
    {
        let mut books: Vec<BookSnapshot> = Vec::new();
        let mut i: usize = 0;
        while i < self.engines.len()
            invariant
                0 <= i <= self.engines@.len(),
                engines_ok(self.engines@),
                books@.len() == i,
                forall|k: int| 0 <= k < i ==> book_snapshot_of(#[trigger] books@[k], self.engines@[k]),
            decreases self.engines@.len() - i,
        {
            let b = self.engines[i].book().snapshot(usize::MAX);
            proof {
                self.engines@[i as int].lemma_model();
            }
            books.push(b);
            i = i + 1;
        }
        let portfolio = match self.portfolio.snapshot() {
            Ok(s) => s,
            Err(e) => return Err(RuntimeError::Portfolio(e)),
        };
        Ok(RuntimeResult { outputs, portfolio, books })
    }
}

} // verus!
