//! In-memory mock paper session for deterministic local tests (no network).
use std::collections::VecDeque;

use vstd::prelude::*;

use crate::runtime::RuntimeEvent;

use super::convert::{paper_message_to_runtime_event, spec_convert, PaperConvertError};
use super::{reports_view, AdapterState, MarketDataAdapter, PaperMdMessage, PaperReport, ReconnectPolicy, ReportView};

verus! {

#[derive(Debug, Clone, PartialEq, Eq)]
pub enum MockPaperError {
    Disconnected(String),
    Closed,
}

/// Producer side: scripted messages waiting to be read, in order.
#[derive(Debug)]
pub struct MockPaperSink {
    queue: VecDeque<PaperMdMessage>,
    closed: bool,
}

impl Default for MockPaperSink {
    fn default() -> (r: Self)
        ensures
            r.queued() == Seq::<PaperMdMessage>::empty(),
            !r.is_closed(),
    {
        MockPaperSink { queue: VecDeque::new(), closed: false }
    }
}

impl MockPaperSink {
    /// Messages waiting, oldest first.
    pub closed spec fn queued(&self) -> Seq<PaperMdMessage> {
        self.queue@
    }

    pub closed spec fn is_closed(&self) -> bool {
        self.closed
    }

    pub fn new() -> (r: Self)
        ensures
            r.queued() == Seq::<PaperMdMessage>::empty(),
            !r.is_closed(),
    {
        MockPaperSink { queue: VecDeque::new(), closed: false }
    }

    /// Queue a message; a closed sink drops it.
    pub fn push(&mut self, msg: PaperMdMessage)
        ensures
            final(self).is_closed() == old(self).is_closed(),
            final(self).queued() == (if old(self).is_closed() {
                old(self).queued()
            } else {
                old(self).queued().push(msg)
            }),
    {
        if !self.closed {
            self.queue.push_back(msg);
        }
    }

    /// Queue each message in order.
    pub fn extend(&mut self, msgs: Vec<PaperMdMessage>)
        ensures
            final(self).is_closed() == old(self).is_closed(),
            final(self).queued() == (if old(self).is_closed() {
                old(self).queued()
            } else {
                old(self).queued() + msgs@
            }),
    {
        let mut msgs = msgs;
        let ghost all = msgs@;
        let ghost q0 = self.queue@;
        let mut n: usize = 0;
        proof {
            assert(msgs@.len() == msgs.len());
            assert(all.skip(0) =~= all);
        }
        while msgs.len() > 0
            invariant
                all.len() <= usize::MAX,
                msgs@ == all.skip(n as int),
                0 <= n <= all.len(),
                self.closed == old(self).closed,
                self.queue@ == (if self.closed { q0 } else { q0 + all.take(n as int) }),
            decreases msgs@.len(),
        {
            let m = msgs.remove(0);
            proof {
                assert(m == all[n as int]);
                assert(msgs@ =~= all.skip(n as int + 1));
                assert(all.take(n as int + 1) =~= all.take(n as int).push(m));
            }
            self.push(m);
            n = n + 1;
        }
        proof {
            assert(all.take(n as int) =~= all);
        }
    }

    pub fn close(&mut self)
        ensures
            final(self).is_closed(),
            final(self).queued() == old(self).queued(),
    {
        self.closed = true;
    }

    pub fn len(&self) -> (r: usize)
        ensures
            r == self.queued().len(),
    {
        self.queue.len()
    }

    pub fn is_empty(&self) -> (r: bool)
        ensures
            r == (self.queued().len() == 0),
    {
        self.queue.len() == 0
    }
}

/// The message recorded when reconnect attempts run out.
pub open spec fn exhausted_text(reason: Seq<char>) -> Seq<char> {
    "reconnect exhausted after disconnect: "@ + reason
}

/// A disconnect handled with `attempts` of `max` reconnect attempts used: the attempts used
/// after it, the adapter state, and the two reports (the disconnect, then the next attempt
/// or, once attempts are used up, an adapter error).
pub open spec fn disconnect_outcome(attempts: u32, max: u32, reason: Seq<char>) -> (u32, AdapterState, Seq<ReportView>) {
    if attempts < max {
        (
            (attempts + 1) as u32,
            AdapterState::Reconnecting,
            seq![ReportView::Disconnected { reason }, ReportView::Reconnecting { attempt: (attempts + 1) as u32 }],
        )
    } else {
        (
            attempts,
            AdapterState::Disconnected,
            seq![ReportView::Disconnected { reason }, ReportView::AdapterError { message: exhausted_text(reason) }],
        )
    }
}

/// Draining `msgs` with a policy at `attempts` (of `max`) in `state`: the attempts and state
/// after, the reports the disconnects met add, and the messages left unread (none, unless
/// a message fails to convert: then those after it).
pub open spec fn drain_walk(attempts: u32, state: AdapterState, max: u32, msgs: Seq<PaperMdMessage>) -> (
    u32,
    AdapterState,
    Seq<ReportView>,
    Seq<PaperMdMessage>,
)
    decreases msgs.len(),
{
    if msgs.len() == 0 {
        (attempts, state, Seq::empty(), msgs)
    } else {
        let rest = msgs.drop_first();
        match msgs[0] {
            PaperMdMessage::Disconnect { reason } => {
                let (a1, s1, r1) = disconnect_outcome(attempts, max, reason@);
                let (a2, s2, r2, left) = drain_walk(a1, s1, max, rest);
                (a2, s2, r1 + r2, left)
            },
            PaperMdMessage::Heartbeat { .. } => drain_walk(attempts, state, max, rest),
            _ => match spec_convert(msgs[0]) {
                Err(e) => if e is NotAnEvent {
                    drain_walk(attempts, state, max, rest)
                } else {
                    (attempts, state, Seq::empty(), rest)
                },
                Ok(_) => drain_walk(attempts, state, max, rest),
            },
        }
    }
}

/// Consumer side, implementing `MarketDataAdapter`.
#[derive(Debug)]
pub struct MockPaperSource {
    sink: MockPaperSink,
    reports: Vec<PaperReport>,
    reconnect: ReconnectPolicy,
}

impl MockPaperSource {
    pub closed spec fn spec_sink(&self) -> MockPaperSink {
        self.sink
    }

    pub closed spec fn spec_reports(&self) -> Seq<PaperReport> {
        self.reports@
    }

    pub closed spec fn spec_policy(&self) -> ReconnectPolicy {
        self.reconnect
    }

    /// A connected source over `sink` with the default reconnect policy.
    pub fn new(sink: MockPaperSink) -> (r: Self)
        ensures
            r.spec_sink() == sink,
            r.spec_reports() == Seq::<PaperReport>::empty(),
            r.spec_policy().spec_max() == 3,
            r.spec_policy().spec_attempts() == 0,
            r.spec_policy().spec_state() == AdapterState::Connected,
    {
        let mut reconnect = ReconnectPolicy::default();
        reconnect.on_connected();
        MockPaperSource { sink, reports: Vec::new(), reconnect }
    }

    /// A connected source over `sink` with the given reconnect policy.
    pub fn with_reconnect(sink: MockPaperSink, policy: ReconnectPolicy) -> (r: Self)
        ensures
            r.spec_sink() == sink,
            r.spec_reports() == Seq::<PaperReport>::empty(),
            r.spec_policy().spec_max() == policy.spec_max(),
            r.spec_policy().spec_attempts() == 0,
            r.spec_policy().spec_state() == AdapterState::Connected,
    {
        let mut policy = policy;
        policy.on_connected();
        MockPaperSource { sink, reports: Vec::new(), reconnect: policy }
    }

    pub fn reports(&self) -> (r: &[PaperReport])
        ensures
            r@ == self.spec_reports(),
    {
        self.reports.as_slice()
    }

    pub fn push_report(&mut self, report: PaperReport)
        ensures
            final(self).spec_reports() == old(self).spec_reports().push(report),
            final(self).spec_sink() == old(self).spec_sink(),
            final(self).spec_policy() == old(self).spec_policy(),
    {
        self.reports.push(report);
    }

    pub fn reconnect_policy(&self) -> (r: &ReconnectPolicy)
        ensures
            *r == self.spec_policy(),
    {
        &self.reconnect
    }

    /// Handle a disconnect under the reconnect policy (no sleeping): report it, then either
    /// the next reconnect attempt or, when attempts are exhausted, an adapter error.
    pub fn handle_disconnect(&mut self, reason: &str) -> (r: Vec<PaperReport>)
        ensures
            final(self).spec_sink() == old(self).spec_sink(),
            final(self).spec_reports() == old(self).spec_reports() + r@,
            r@.len() == 2,
            (r@[0] matches PaperReport::Disconnected { reason: text } && text@ == reason@),
            old(self).spec_policy().spec_attempts() < old(self).spec_policy().spec_max() ==> r@[1]
                == (PaperReport::Reconnecting { attempt: (old(self).spec_policy().spec_attempts() + 1) as u32 })
                && final(self).spec_policy().spec_attempts() == old(self).spec_policy().spec_attempts() + 1,
            old(self).spec_policy().spec_attempts() >= old(self).spec_policy().spec_max() ==> (r@[1] matches PaperReport::AdapterError { message } && message@
                == exhausted_text(reason@)) && final(self).spec_policy().spec_state() == AdapterState::Disconnected,
            final(self).spec_policy().spec_max() == old(self).spec_policy().spec_max(),
            ({
                let (a, st, reps) = disconnect_outcome(
                    old(self).spec_policy().spec_attempts(),
                    old(self).spec_policy().spec_max(),
                    reason@,
                );
                &&& reports_view(r@) == reps
                &&& final(self).spec_policy().spec_attempts() == a
                &&& final(self).spec_policy().spec_state() == st
            }),
    {
        let mut out: Vec<PaperReport> = Vec::new();
        out.push(PaperReport::Disconnected { reason: reason.to_owned() });
        match self.reconnect.on_disconnect() {
            Some(attempt) => {
                out.push(PaperReport::Reconnecting { attempt });
            },
            None => {
                self.reconnect.mark_failed();
                out.push(PaperReport::AdapterError { message: exhausted_message(reason) });
            },
        }
        let ghost r0 = self.reports@;
        let ghost pol = self.reconnect;
        let mut i: usize = 0;
        while i < out.len()
            invariant
                0 <= i <= out@.len(),
                self.sink == old(self).sink,
                self.reconnect == pol,
                self.reports@ == r0 + out@.take(i as int),
            decreases out@.len() - i,
        {
            self.reports.push(out[i].duplicate());
            proof {
                assert(out@.take(i as int + 1) =~= out@.take(i as int).push(out@[i as int]));
            }
            i = i + 1;
        }
        proof {
            assert(out@.take(i as int) =~= out@);
            assert(reports_view(out@) =~= disconnect_outcome(
                old(self).spec_policy().spec_attempts(),
                old(self).spec_policy().spec_max(),
                reason@,
            ).2);
        }
        out
    }

    pub fn mark_reconnected(&mut self)
        ensures
            final(self).spec_sink() == old(self).spec_sink(),
            final(self).spec_reports() == old(self).spec_reports(),
            final(self).spec_policy().spec_state() == AdapterState::Connected,
            final(self).spec_policy().spec_attempts() == 0,
            final(self).spec_policy().spec_max() == old(self).spec_policy().spec_max(),
    {
        self.reconnect.on_connected();
    }

    /// Next message, oldest first; `Closed` once the sink is closed and drained.
    fn take_next(&mut self) -> (r: Result<Option<PaperMdMessage>, MockPaperError>)
        ensures
            final(self).spec_reports() == old(self).spec_reports(),
            final(self).spec_policy() == old(self).spec_policy(),
            final(self).spec_sink().is_closed() == old(self).spec_sink().is_closed(),
            old(self).spec_sink().is_closed() && old(self).spec_sink().queued().len() == 0 ==> r
                == Err::<Option<PaperMdMessage>, MockPaperError>(MockPaperError::Closed) && final(self).spec_sink().queued()
                == old(self).spec_sink().queued(),
            !(old(self).spec_sink().is_closed() && old(self).spec_sink().queued().len() == 0) ==> {
                &&& old(self).spec_sink().queued().len() == 0 ==> r == Ok::<Option<PaperMdMessage>, MockPaperError>(None)
                    && final(self).spec_sink().queued() == old(self).spec_sink().queued()
                &&& old(self).spec_sink().queued().len() > 0 ==> r == Ok::<Option<PaperMdMessage>, MockPaperError>(
                    Some(old(self).spec_sink().queued()[0]),
                ) && final(self).spec_sink().queued() == old(self).spec_sink().queued().drop_first()
            },
    {
        if self.sink.closed && self.sink.queue.len() == 0 {
            return Err(MockPaperError::Closed);
        }
        Ok(self.sink.queue.pop_front())
    }
}

/// The adapter-error text for exhausted reconnects.
fn exhausted_message(reason: &str) -> (r: String)
    ensures
        r@ == exhausted_text(reason@),
{
    String::from_str("reconnect exhausted after disconnect: ").concat(reason)
}

impl MarketDataAdapter for MockPaperSource {
    type Error = MockPaperError;

    fn next_message(&mut self) -> (r: Result<Option<PaperMdMessage>, MockPaperError>)
        ensures
            final(self).spec_reports() == old(self).spec_reports(),
            final(self).spec_policy() == old(self).spec_policy(),
            final(self).spec_sink().is_closed() == old(self).spec_sink().is_closed(),
            old(self).spec_sink().is_closed() && old(self).spec_sink().queued().len() == 0 ==> r
                == Err::<Option<PaperMdMessage>, MockPaperError>(MockPaperError::Closed),
            old(self).spec_sink().queued().len() > 0 ==> r == Ok::<Option<PaperMdMessage>, MockPaperError>(
                Some(old(self).spec_sink().queued()[0]),
            ) && final(self).spec_sink().queued() == old(self).spec_sink().queued().drop_first(),
            !old(self).spec_sink().is_closed() && old(self).spec_sink().queued().len() == 0 ==> r == Ok::<
                Option<PaperMdMessage>,
                MockPaperError,
            >(None),
            old(self).spec_sink().queued().len() == 0 ==> final(self).spec_sink().queued() == old(self).spec_sink().queued(),
    {
        self.take_next()
    }
}

/// Errors while draining a mock session into runtime events.
#[derive(Debug, Clone, PartialEq, Eq)]
pub enum DrainError {
    Mock(MockPaperError),
    Convert(PaperConvertError),
}

/// The events a queue of messages drains into: disconnects and heartbeats contribute
/// nothing; other messages contribute their conversion; the first conversion error stops.
pub open spec fn drain_events(msgs: Seq<PaperMdMessage>) -> Result<Seq<RuntimeEvent>, PaperConvertError>
    decreases msgs.len(),
{
    if msgs.len() == 0 {
        Ok(Seq::empty())
    } else {
        let m = msgs[0];
        let here: Result<Seq<RuntimeEvent>, PaperConvertError> = match m {
            PaperMdMessage::Disconnect { .. } => Ok(Seq::empty()),
            PaperMdMessage::Heartbeat { .. } => Ok(Seq::empty()),
            _ => match spec_convert(m) {
                Ok(v) => Ok(v),
                Err(PaperConvertError::NotAnEvent) => Ok(Seq::empty()),
                Err(e) => Err(e),
            },
        };
        match here {
            Err(e) => Err(e),
            Ok(v) => match drain_events(msgs.drop_first()) {
                Ok(rest) => Ok(v + rest),
                Err(e) => Err(e),
            },
        }
    }
}

/// A scripted paper session.
#[derive(Debug)]
pub struct MockPaperSession {
    pub source: MockPaperSource,
}

impl MockPaperSession {
    /// A session whose source will deliver `messages` in order.
    pub fn from_messages(messages: Vec<PaperMdMessage>) -> (r: Self)
        ensures
            r.source.spec_sink().queued() == messages@,
            !r.source.spec_sink().is_closed(),
            r.source.spec_reports() == Seq::<PaperReport>::empty(),
    {
        let mut sink = MockPaperSink::new();
        sink.extend(messages);
        MockPaperSession { source: MockPaperSource::new(sink) }
    }

    /// Read every queued message and convert it; disconnects go through the reconnect
    /// policy, heartbeats are skipped, and the first conversion error stops the drain.
    pub fn drain_runtime_events(&mut self) -> (r: Result<Vec<RuntimeEvent>, DrainError>)
        ensures
            match drain_events(old(self).source.spec_sink().queued()) {
                Ok(events) => if old(self).source.spec_sink().is_closed() {
                    r == Err::<Vec<RuntimeEvent>, DrainError>(DrainError::Mock(MockPaperError::Closed))
                } else {
                    r matches Ok(v) && v@ == events
                },
                Err(e) => r == Err::<Vec<RuntimeEvent>, DrainError>(DrainError::Convert(e)),
            },
            ({
                let p = old(self).source.spec_policy();
                let (a, st, reps, left) = drain_walk(
                    p.spec_attempts(),
                    p.spec_state(),
                    p.spec_max(),
                    old(self).source.spec_sink().queued(),
                );
                &&& final(self).source.spec_sink().queued() == left
                &&& final(self).source.spec_sink().is_closed() == old(self).source.spec_sink().is_closed()
                &&& final(self).source.spec_policy().spec_attempts() == a
                &&& final(self).source.spec_policy().spec_state() == st
                &&& final(self).source.spec_policy().spec_max() == p.spec_max()
                &&& reports_view(final(self).source.spec_reports()) == reports_view(old(self).source.spec_reports()) + reps
            }),
    {
        let ghost all = self.source.spec_sink().queued();
        let ghost closed = self.source.spec_sink().is_closed();
        let ghost p0 = self.source.spec_policy();
        let ghost walk = drain_walk(p0.spec_attempts(), p0.spec_state(), p0.spec_max(), all);
        let ghost reps0 = reports_view(self.source.spec_reports());
        let mut events: Vec<RuntimeEvent> = Vec::new();
        loop
            invariant
                all == old(self).source.spec_sink().queued(),
                closed == old(self).source.spec_sink().is_closed(),
                p0 == old(self).source.spec_policy(),
                walk == drain_walk(p0.spec_attempts(), p0.spec_state(), p0.spec_max(), all),
                reps0 == reports_view(old(self).source.spec_reports()),
                self.source.spec_policy().spec_max() == p0.spec_max(),
                ({
                    let cur = drain_walk(
                        self.source.spec_policy().spec_attempts(),
                        self.source.spec_policy().spec_state(),
                        p0.spec_max(),
                        self.source.spec_sink().queued(),
                    );
                    &&& cur.0 == walk.0
                    &&& cur.1 == walk.1
                    &&& cur.3 == walk.3
                    &&& reports_view(self.source.spec_reports()) + cur.2 == reps0 + walk.2
                }),
                self.source.spec_sink().is_closed() == closed,
                all.len() >= self.source.spec_sink().queued().len(),
                self.source.spec_sink().queued() == all.skip(all.len() - self.source.spec_sink().queued().len()),
                match drain_events(all) {
                    Ok(evs) => drain_events(self.source.spec_sink().queued()) matches Ok(rest) && evs == events@ + rest,
                    Err(e) => drain_events(self.source.spec_sink().queued()) == Err::<Seq<RuntimeEvent>, PaperConvertError>(e),
                },
            decreases self.source.spec_sink().queued().len(),
        {
            let ghost q = self.source.spec_sink().queued();
            let next = match self.source.take_next() {
                Ok(n) => n,
                Err(e) => return Err(DrainError::Mock(e)),
            };
            match next {
                None => {
                    proof {
                        assert(q.len() == 0);
                        assert(events@ + Seq::<RuntimeEvent>::empty() =~= events@);
                    }
                    return Ok(events);
                },
                Some(msg) => {
                    proof {
                        assert(q.drop_first() =~= all.skip(all.len() - q.len() + 1));
                    }
                    match msg {
                        PaperMdMessage::Disconnect { reason } => {
                            let _ = self.source.handle_disconnect(reason.as_str());
                            proof {
                                assert(Seq::<RuntimeEvent>::empty() + drain_events(q.drop_first())->Ok_0 =~= drain_events(q.drop_first())->Ok_0);
                            }
                        },
                        PaperMdMessage::Heartbeat { .. } => {
                            proof {
                                assert(Seq::<RuntimeEvent>::empty() + drain_events(q.drop_first())->Ok_0 =~= drain_events(q.drop_first())->Ok_0);
                            }
                        },
                        _ => {
                            match paper_message_to_runtime_event(&msg) {
                                Ok(batch) => {
                                    let ghost before = events@;
                                    let mut batch = batch;
                                    events.append(&mut batch);
                                    proof {
                                        assert(events@ + drain_events(q.drop_first())->Ok_0 =~= before + (spec_convert(msg)->Ok_0 + drain_events(q.drop_first())->Ok_0));
                                    }
                                },
                                Err(PaperConvertError::NotAnEvent) => {
                                    proof {
                                        assert(Seq::<RuntimeEvent>::empty() + drain_events(q.drop_first())->Ok_0 =~= drain_events(q.drop_first())->Ok_0);
                                    }
                                },
                                Err(e) => return Err(DrainError::Convert(e)),
                            }
                        },
                    }
                },
            }
        }
    }
}

} // verus!
