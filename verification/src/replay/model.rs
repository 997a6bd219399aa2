//! A replay as values: the engine outcome of each record, the output records it yields,
//! sequence validation, and output counts.
use vstd::prelude::*;

use crate::events::{CancelOrderEvent, ExecutionReport, InputEvent, NewOrderEvent, Trade};
use crate::matching::laws::fill_count;
use crate::matching::model::{spec_event, EngineModel};
use crate::types::{SequenceNumber, Symbol, TimestampNanos};

use super::driver::ReplayError;
use super::summary::ReplaySummary;
use super::types::{ReplayEvent, ReplayEventKind, ReplayOutputEvent, ReplayOutputKind};

verus! {

/// The engine input a replay record stands for.
pub open spec fn input_of(e: ReplayEvent) -> InputEvent {
    match e.kind {
        ReplayEventKind::NewOrder { order } => InputEvent::NewOrder(NewOrderEvent { seq: e.seq, order }),
        ReplayEventKind::Cancel { order_id, symbol } => InputEvent::Cancel(
            CancelOrderEvent { seq: e.seq, order_id, symbol, timestamp_ns: e.ts_ns },
        ),
    }
}

/// The output for one execution report; a fill report carries its trade, a rest report
/// yields nothing.
pub open spec fn output_kind(r: ExecutionReport, trade: Trade) -> Option<ReplayOutputKind> {
    match r {
        ExecutionReport::Accepted { order_id } => Some(ReplayOutputKind::Accepted { order_id }),
        ExecutionReport::Filled { .. } => Some(ReplayOutputKind::Trade { trade }),
        ExecutionReport::PartiallyFilled { .. } => Some(ReplayOutputKind::Trade { trade }),
        ExecutionReport::Rested { .. } => None,
        ExecutionReport::Cancelled { order_id } => Some(ReplayOutputKind::Cancelled { order_id }),
        ExecutionReport::Expired { order_id, remaining } => Some(ReplayOutputKind::Expired { order_id, remaining }),
        ExecutionReport::Rejected { order_id, reason } => Some(
            ReplayOutputKind::Rejected { order_id: Some(order_id), reason },
        ),
    }
}

/// Outputs for one record's reports: the k-th fill report carries the k-th trade.
pub open spec fn event_outputs(
    seq: SequenceNumber,
    ts: TimestampNanos,
    reports: Seq<ExecutionReport>,
    trades: Seq<Trade>,
) -> Seq<ReplayOutputEvent>
    decreases reports.len(),
{
    if reports.len() == 0 {
        Seq::empty()
    } else {
        let prev = event_outputs(seq, ts, reports.drop_last(), trades);
        match output_kind(reports.last(), trades[fill_count(reports.drop_last()) as int]) {
            Some(kind) => prev.push(ReplayOutputEvent { seq, ts_ns: ts, kind }),
            None => prev,
        }
    }
}

/// Engine state and outputs after replaying `events` in order from `m`.
pub open spec fn spec_replay(m: EngineModel, symbol: Symbol, events: Seq<ReplayEvent>) -> (EngineModel, Seq<
    ReplayOutputEvent,
>)
    decreases events.len(),
{
    if events.len() == 0 {
        (m, Seq::empty())
    } else {
        let prev = spec_replay(m, symbol, events.drop_last());
        let e = events.last();
        let out = spec_event(prev.0, symbol, input_of(e), e.ts_ns);
        (out.state, prev.1 + event_outputs(e.seq, e.ts_ns, out.reports, out.trades))
    }
}

/// The first sequence violation, if any: each record's sequence number must be strictly
/// greater than the one before it, starting from `last`.
pub open spec fn sequence_error(last: Option<SequenceNumber>, events: Seq<ReplayEvent>) -> Option<ReplayError>
    decreases events.len(),
{
    if events.len() == 0 {
        None
    } else {
        let s = events[0].seq;
        match last {
            Some(p) => if s == p {
                Some(ReplayError::DuplicateSequence { seq: s })
            } else if s < p {
                Some(ReplayError::OutOfOrderSequence { previous: p, seq: s })
            } else {
                sequence_error(Some(s), events.drop_first())
            },
            None => sequence_error(Some(s), events.drop_first()),
        }
    }
}

/// Output kinds by tag: accepted, rejected, trade, cancelled, expired.
pub open spec fn kind_tag(k: ReplayOutputKind) -> int {
    match k {
        ReplayOutputKind::Accepted { .. } => 0,
        ReplayOutputKind::Rejected { .. } => 1,
        ReplayOutputKind::Trade { .. } => 2,
        ReplayOutputKind::Cancelled { .. } => 3,
        ReplayOutputKind::Expired { .. } => 4,
    }
}

/// Number of outputs of one kind.
pub open spec fn count_tag(outs: Seq<ReplayOutputEvent>, tag: int) -> nat
    decreases outs.len(),
{
    if outs.len() == 0 {
        0
    } else {
        count_tag(outs.drop_last(), tag) + (if kind_tag(outs.last().kind) == tag { 1nat } else { 0nat })
    }
}

/// The summary's output counters agree with `outs`.
pub open spec fn counts_match(s: ReplaySummary, outs: Seq<ReplayOutputEvent>) -> bool {
    &&& s.output_events == outs.len()
    &&& s.accepted == count_tag(outs, 0)
    &&& s.rejected == count_tag(outs, 1)
    &&& s.trades == count_tag(outs, 2)
    &&& s.cancelled == count_tag(outs, 3)
    &&& s.expired == count_tag(outs, 4)
}

pub proof fn lemma_count_tag_le(outs: Seq<ReplayOutputEvent>, tag: int)
    ensures
        count_tag(outs, tag) <= outs.len(),
    decreases outs.len(),
{
    if outs.len() > 0 {
        lemma_count_tag_le(outs.drop_last(), tag);
    }
}

} // verus!
