//! Deterministic replay: validate sequence numbers for a whole batch, then feed each
//! record to the matching engine and collect output records and a summary.
use vstd::prelude::*;

use crate::book::check::lemma_wf_counts;
use crate::book::model::{flatten, LevelView};
use crate::book::order_book::{side_snapshot_of, OrderBook};
use crate::book::snapshot::{BookSnapshot, PriceLevelSnapshot};
use crate::events::{CancelOrderEvent, ExecutionReport, InputEvent, NewOrderEvent, Trade};
use crate::matching::laws::{fill_count, law_one_trade_per_fill};
use crate::matching::model::{spec_event, EngineModel};
use crate::matching::MatchingEngine;
use crate::types::{SequenceNumber, Symbol, TimestampNanos};

use super::model::{
    count_tag, counts_match, event_outputs, input_of, kind_tag, lemma_count_tag_le, output_kind, sequence_error,
    spec_replay,
};
use super::summary::{order_count_sum, ReplaySummary};
use super::types::{ReplayEvent, ReplayEventKind, ReplayOutputEvent, ReplayOutputKind};

verus! {

broadcast use vstd::seq_lib::group_seq_properties;

#[derive(Debug, Clone, Copy, PartialEq, Eq, Structural)]
pub enum ReplayError {
    DuplicateSequence { seq: SequenceNumber },
    OutOfOrderSequence { previous: SequenceNumber, seq: SequenceNumber },
}

#[derive(Debug, Clone, PartialEq, Eq)]
pub struct ReplayResult {
    pub outputs: Vec<ReplayOutputEvent>,
    pub summary: ReplaySummary,
    pub final_book: BookSnapshot,
}

#[derive(Debug)]
pub struct ReplayDriver {
    engine: MatchingEngine,
    last_seq: Option<SequenceNumber>,
}

/// Number of orders on a ladder equals the order counts of its full-depth snapshot.
proof fn lemma_snapshot_counts(snap: Seq<PriceLevelSnapshot>, levels: Seq<LevelView>)
    requires
        side_snapshot_of(snap, levels, usize::MAX),
        levels.len() <= usize::MAX,
    ensures
        order_count_sum(snap) == flatten(levels).len(),
    decreases levels.len(),
{
    if levels.len() > 0 {
        let n = levels.len() - 1;
        assert(snap.len() == levels.len());
        let ps = snap.drop_last();
        let pl = levels.drop_last();
        assert forall|i: int| 0 <= i < ps.len() implies crate::book::order_book::level_snapshot_of(#[trigger] ps[i], pl[i]) by {
            assert(ps[i] == snap[i]);
        }
        lemma_snapshot_counts(ps, pl);
        assert(levels =~= pl + seq![levels[n]]);
        crate::book::model::lemma_flatten_concat(pl, seq![levels[n]]);
        crate::book::model::lemma_flatten_single(levels[n]);
        assert(crate::book::order_book::level_snapshot_of(snap[n], levels[n]));
    } else {
        assert(flatten(levels).len() == 0);
    }
}

impl ReplayDriver {
    /// The engine is well formed.
    pub closed spec fn wf(&self) -> bool {
        self.engine.wf()
    }

    pub closed spec fn engine_view(&self) -> MatchingEngine {
        self.engine
    }

    pub closed spec fn last_seq_view(&self) -> Option<SequenceNumber> {
        self.last_seq
    }

    pub fn new(engine: MatchingEngine) -> (r: Self)
        requires
            engine.wf(),
        ensures
            r.wf(),
            r.engine_view() == engine,
            r.last_seq_view() is None,
    {
        ReplayDriver { engine, last_seq: None }
    }

    pub fn engine(&self) -> (r: &MatchingEngine)
        requires
            self.wf(),
        ensures
            *r == self.engine_view(),
            r.wf(),
    {
        &self.engine
    }

    pub fn engine_mut(&mut self) -> (r: &mut MatchingEngine)
        ensures
            *r == old(self).engine_view(),
            final(self).engine_view() == *final(r),
            final(self).last_seq_view() == old(self).last_seq_view(),
            final(self).wf() == final(r).wf(),
    {
        &mut self.engine
    }

    pub fn into_engine(self) -> (r: MatchingEngine)
        ensures
            r == self.engine_view(),
    {
        self.engine
    }

    /// Sequence number of the last record replayed.
    pub fn last_seq(&self) -> (r: Option<SequenceNumber>)
        ensures
            r == self.last_seq_view(),
    {
        self.last_seq
    }

    /// Replay a batch. Sequence numbers are checked for the whole batch first: on a
    /// duplicate or out-of-order number nothing is replayed and the driver is unchanged.
    /// Otherwise every record goes through the engine in order.
    pub fn replay_events(&mut self, events: Vec<ReplayEvent>) -> (r: Result<ReplayResult, ReplayError>)
        requires
            old(self).wf(),
        ensures
            final(self).wf(),
            match sequence_error(old(self).last_seq_view(), events@) {
                Some(e) => r == Err::<ReplayResult, ReplayError>(e) && *final(self) == *old(self),
                None => r matches Ok(res) && {
                    let run = spec_replay(
                        old(self).engine_view().model(),
                        old(self).engine_view().spec_symbol(),
                        events@,
                    );
                    let fm = final(self).engine_view().model();
                    &&& fm == run.0
                    &&& final(self).engine_view().spec_symbol() == old(self).engine_view().spec_symbol()
                    &&& res.outputs@ == run.1
                    &&& counts_match(res.summary, run.1)
                    &&& res.summary.input_events == events@.len()
                    &&& res.final_book.symbol == final(self).engine_view().spec_symbol()
                    &&& side_snapshot_of(res.final_book.bids@, fm.bids, usize::MAX)
                    &&& side_snapshot_of(res.final_book.asks@, fm.asks, usize::MAX)
                    &&& res.summary.final_bid_levels == fm.bids.len()
                    &&& res.summary.final_ask_levels == fm.asks.len()
                    &&& res.summary.final_resting_orders == flatten(fm.bids).len() + flatten(fm.asks).len()
                    &&& final(self).last_seq_view() == (if events@.len() > 0 {
                        Some(events@.last().seq)
                    } else {
                        old(self).last_seq_view()
                    })
                },
            },
    {
        match self.validate_sequences(&events) {
            Ok(()) => {},
            Err(e) => return Err(e),
        }
        let ghost m0 = self.engine.model();
        let ghost sym = self.engine.spec_symbol();
        let mut outputs: Vec<ReplayOutputEvent> = Vec::new();
        let mut summary = ReplaySummary::default();
        summary.input_events = events.len() as u64;
        let mut i: usize = 0;
        while i < events.len()
            invariant
                0 <= i <= events@.len(),
                self.wf(),
                self.engine.spec_symbol() == sym,
                self.last_seq == old(self).last_seq,
                ({
                    let run = spec_replay(m0, sym, events@.take(i as int));
                    &&& self.engine.model() == run.0
                    &&& outputs@ == run.1
                }),
                counts_match(summary, outputs@),
                summary.input_events == events@.len(),
            decreases events@.len() - i,
        {
            proof {
                assert(events@.take(i as int + 1).drop_last() =~= events@.take(i as int));
            }
            self.replay_event(&events[i], &mut outputs, &mut summary);
            i = i + 1;
        }
        proof {
            assert(events@.take(i as int) =~= events@);
        }
        if events.len() > 0 {
            self.last_seq = Some(events[events.len() - 1].seq);
        }
        let final_book = self.engine.book().snapshot(usize::MAX);
        proof {
            let b = self.engine.book_view();
            self.engine.lemma_model();
            lemma_wf_counts(&b);
            assert(b.bids_view().len() == b.bids@.len() && b.bids@.len() == b.bids.len());
            assert(b.asks_view().len() == b.asks@.len() && b.asks@.len() == b.asks.len());
            lemma_snapshot_counts(final_book.bids@, b.bids_view());
            lemma_snapshot_counts(final_book.asks@, b.asks_view());
            assert(usize::MAX <= u64::MAX);
        }
        summary.record_final_book(&final_book);
        Ok(ReplayResult { outputs, summary, final_book })
    }

    fn validate_sequences(&self, events: &Vec<ReplayEvent>) -> (r: Result<(), ReplayError>)
        ensures
            r == match sequence_error(self.last_seq, events@) {
                Some(e) => Err::<(), ReplayError>(e),
                None => Ok(()),
            },
    {
        let mut previous = self.last_seq;
        let mut i: usize = 0;
        while i < events.len()
            invariant
                0 <= i <= events@.len(),
                sequence_error(self.last_seq, events@) == sequence_error(previous, events@.skip(i as int)),
            decreases events@.len() - i,
        {
            let s = events[i].seq;
            proof {
                assert(events@.skip(i as int)[0] == events@[i as int]);
                assert(events@.skip(i as int).drop_first() =~= events@.skip(i as int + 1));
            }
            match previous {
                Some(p) => {
                    if s == p {
                        return Err(ReplayError::DuplicateSequence { seq: s });
                    }
                    if s < p {
                        return Err(ReplayError::OutOfOrderSequence { previous: p, seq: s });
                    }
                },
                None => {},
            }
            previous = Some(s);
            i = i + 1;
        }
        proof {
            assert(events@.skip(i as int).len() == 0);
        }
        Ok(())
    }

    fn replay_event(&mut self, event: &ReplayEvent, outputs: &mut Vec<ReplayOutputEvent>, summary: &mut ReplaySummary)
        requires
            old(self).wf(),
            counts_match(*old(summary), old(outputs)@),
        ensures
            final(self).wf(),
            final(self).last_seq == old(self).last_seq,
            ({
                let out = spec_event(
                    old(self).engine.model(),
                    old(self).engine.spec_symbol(),
                    input_of(*event),
                    event.ts_ns,
                );
                &&& final(self).engine.model() == out.state
                &&& final(self).engine.spec_symbol() == old(self).engine.spec_symbol()
                &&& final(outputs)@ == old(outputs)@ + event_outputs(event.seq, event.ts_ns, out.reports, out.trades)
            }),
            counts_match(*final(summary), final(outputs)@),
            final(summary).input_events == old(summary).input_events,
    {
        let seq = event.seq;
        let ts_ns = event.ts_ns;
        let input = match &event.kind {
            ReplayEventKind::NewOrder { order } => InputEvent::NewOrder(NewOrderEvent { seq, order: order.duplicate() }),
            ReplayEventKind::Cancel { order_id, symbol } => InputEvent::Cancel(
                CancelOrderEvent { seq, order_id: *order_id, symbol: symbol.duplicate(), timestamp_ns: ts_ns },
            ),
        };
        let ghost m0 = self.engine.model();
        let ghost sym = self.engine.spec_symbol();
        proof {
            law_one_trade_per_fill(m0, sym, input, ts_ns);
        }
        let (reports, trades) = self.engine.process_event_with_trades(input, ts_ns);
        let ghost o0 = outputs@;
        let mut t: usize = 0;
        let mut j: usize = 0;
        while j < reports.len()
            invariant
                0 <= j <= reports@.len(),
                fill_count(reports@) == trades@.len(),
                t == fill_count(reports@.take(j as int)),
                outputs@ == o0 + event_outputs(seq, ts_ns, reports@.take(j as int), trades@),
                counts_match(*summary, outputs@),
                summary.input_events == old(summary).input_events,
            decreases reports@.len() - j,
        {
            proof {
                assert(reports@.take(j as int + 1).drop_last() =~= reports@.take(j as int));
                assert(reports@.take(j as int + 1).last() == reports@[j as int]);
                lemma_fill_count_prefix(reports@, j as int + 1);
            }
            let report = reports[j];
            let kind = match report {
                ExecutionReport::Accepted { order_id } => Some(ReplayOutputKind::Accepted { order_id }),
                ExecutionReport::Filled { .. } | ExecutionReport::PartiallyFilled { .. } => {
                    let trade = trades[t].duplicate();
                    t = t + 1;
                    Some(ReplayOutputKind::Trade { trade })
                },
                ExecutionReport::Rested { .. } => None,
                ExecutionReport::Cancelled { order_id } => Some(ReplayOutputKind::Cancelled { order_id }),
                ExecutionReport::Expired { order_id, remaining } => Some(
                    ReplayOutputKind::Expired { order_id, remaining },
                ),
                ExecutionReport::Rejected { order_id, reason } => Some(
                    ReplayOutputKind::Rejected { order_id: Some(order_id), reason },
                ),
            };
            match kind {
                Some(kind) => {
                    Self::push_output(outputs, summary, seq, ts_ns, kind);
                },
                None => {},
            }
            j = j + 1;
        }
        proof {
            assert(reports@.take(j as int) =~= reports@);
        }
    }

    fn push_output(
        outputs: &mut Vec<ReplayOutputEvent>,
        summary: &mut ReplaySummary,
        seq: SequenceNumber,
        ts_ns: TimestampNanos,
        kind: ReplayOutputKind,
    )
        requires
            counts_match(*old(summary), old(outputs)@),
        ensures
            final(outputs)@ == old(outputs)@.push(ReplayOutputEvent { seq, ts_ns, kind }),
            counts_match(*final(summary), final(outputs)@),
            final(summary).input_events == old(summary).input_events,
            final(summary).final_resting_orders == old(summary).final_resting_orders,
            final(summary).final_bid_levels == old(summary).final_bid_levels,
            final(summary).final_ask_levels == old(summary).final_ask_levels,
    {
        let ghost before = outputs@;
        let tag: u8 = match &kind {
            ReplayOutputKind::Accepted { .. } => 0,
            ReplayOutputKind::Rejected { .. } => 1,
            ReplayOutputKind::Trade { .. } => 2,
            ReplayOutputKind::Cancelled { .. } => 3,
            ReplayOutputKind::Expired { .. } => 4,
        };
        outputs.push(ReplayOutputEvent { seq, ts_ns, kind });
        proof {
            let after = outputs@;
            assert(after.drop_last() =~= before);
            lemma_count_tag_le(after, 0);
            lemma_count_tag_le(after, 1);
            lemma_count_tag_le(after, 2);
            lemma_count_tag_le(after, 3);
            lemma_count_tag_le(after, 4);
            assert(outputs@.len() == outputs.len());
            assert(usize::MAX <= u64::MAX);
        }
        summary.output_events = summary.output_events + 1;
        if tag == 0 {
            summary.accepted = summary.accepted + 1;
        } else if tag == 1 {
            summary.rejected = summary.rejected + 1;
        } else if tag == 2 {
            summary.trades = summary.trades + 1;
        } else if tag == 3 {
            summary.cancelled = summary.cancelled + 1;
        } else {
            summary.expired = summary.expired + 1;
        }
    }
}

/// Fill counts of prefixes never exceed the whole.
proof fn lemma_fill_count_prefix(s: Seq<ExecutionReport>, n: int)
    requires
        0 <= n <= s.len(),
    ensures
        fill_count(s.take(n)) <= fill_count(s),
    decreases s.len() - n,
{
    if n < s.len() {
        lemma_fill_count_prefix(s, n + 1);
        assert(s.take(n + 1).drop_last() =~= s.take(n));
    } else {
        assert(s.take(n) =~= s);
    }
}

} // verus!
