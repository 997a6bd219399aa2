//! Preparing an input batch for the runtime, and summarizing what came out: the symbols a
//! batch trades, the runtime form of each replay event, and counts of outputs by kind.
use vstd::prelude::*;

use crate::keyed::{text_lt, SymbolMap};
use crate::replay::{ReplayEvent, ReplayEventKind};
use crate::runtime::{RuntimeEvent, RuntimeOutput, RuntimeOutputKind};
use crate::types::Symbol;

verus! {

/// The symbol a replay event names.
pub open spec fn replay_event_symbol(e: ReplayEvent) -> Symbol {
    match e.kind {
        ReplayEventKind::NewOrder { order } => order.symbol,
        ReplayEventKind::Cancel { symbol, .. } => symbol,
    }
}

/// `r` lists the symbols `names` holds, each once, in ascending order.
pub open spec fn lists_symbols(r: Seq<Symbol>, names: Set<Seq<char>>) -> bool {
    &&& forall|i: int, j: int| 0 <= i < j < r.len() ==> text_lt(#[trigger] r[i]@, #[trigger] r[j]@)
    &&& forall|i: int| 0 <= i < r.len() ==> names.contains(#[trigger] r[i]@)
    &&& forall|s: Seq<char>| #[trigger] names.contains(s) ==> exists|i: int| 0 <= i < r.len() && r[i]@ == s
}

/// The symbols replay events name.
pub open spec fn replay_names(events: Seq<ReplayEvent>) -> Set<Seq<char>> {
    Set::new(|s: Seq<char>| exists|i: int| 0 <= i < events.len() && (#[trigger] replay_event_symbol(events[i]))@ == s)
}

/// The symbols the events name, each once, in ascending order.
pub fn replay_symbols(events: &Vec<ReplayEvent>) -> (r: Vec<Symbol>)
    ensures
        lists_symbols(r@, replay_names(events@)),
{
    let mut seen: SymbolMap<bool> = SymbolMap::new();
    let mut i: usize = 0;
    while i < events.len()
        invariant
            0 <= i <= events@.len(),
            forall|s: Seq<char>|
                #[trigger] seen@.contains_key(s) <==> exists|k: int| 0 <= k < i && (#[trigger] replay_event_symbol(events@[k]))@ == s,
        decreases events@.len() - i,
    {
        let name = match &events[i].kind {
            ReplayEventKind::NewOrder { order } => order.symbol.0.clone(),
            ReplayEventKind::Cancel { symbol, .. } => symbol.0.clone(),
        };
        proof {
            assert(name@ == replay_event_symbol(events@[i as int])@);
        }
        seen.insert(name, true);
        proof {
            assert forall|s: Seq<char>|
                #[trigger] seen@.contains_key(s) <==> exists|k: int| 0 <= k < i + 1 && (#[trigger] replay_event_symbol(events@[k]))@ == s by {
                if s == replay_event_symbol(events@[i as int])@ {
                    assert(replay_event_symbol(events@[i as int])@ == s);
                }
            }
        }
        i = i + 1;
    }
    proof {
        assert(seen@.dom() =~= replay_names(events@));
    }
    seen.keys()
}

/// The runtime event for a replay event.
pub open spec fn spec_to_runtime(e: ReplayEvent) -> RuntimeEvent {
    match e.kind {
        ReplayEventKind::NewOrder { order } => RuntimeEvent::NewOrder { seq: e.seq, ts_ns: e.ts_ns, order },
        ReplayEventKind::Cancel { order_id, symbol } => RuntimeEvent::Cancel { seq: e.seq, ts_ns: e.ts_ns, order_id, symbol },
    }
}

/// The runtime form of a replay event: same sequence number, timestamp and payload.
pub fn to_runtime_event(e: ReplayEvent) -> (r: RuntimeEvent)
    ensures
        r == spec_to_runtime(e),
{
    match e.kind {
        ReplayEventKind::NewOrder { order } => RuntimeEvent::NewOrder { seq: e.seq, ts_ns: e.ts_ns, order },
        ReplayEventKind::Cancel { order_id, symbol } => RuntimeEvent::Cancel { seq: e.seq, ts_ns: e.ts_ns, order_id, symbol },
    }
}

/// A whole batch in runtime form, in order.
pub fn to_runtime_events(events: Vec<ReplayEvent>) -> (r: Vec<RuntimeEvent>)
    ensures
        r@.len() == events@.len(),
        forall|i: int| 0 <= i < r@.len() ==> #[trigger] r@[i] == spec_to_runtime(events@[i]),
{
    let ghost all = events@;
    let mut out: Vec<RuntimeEvent> = Vec::new();
    let mut rest = events;
    let mut n: usize = 0;
    proof {
        assert(all.len() == rest.len());
        assert(all.skip(0) =~= all);
    }
    while rest.len() > 0
        invariant
            all.len() <= usize::MAX,
            0 <= n <= all.len(),
            rest@ == all.skip(n as int),
            out@.len() == n,
            forall|i: int| 0 <= i < n ==> #[trigger] out@[i] == spec_to_runtime(all[i]),
        decreases rest@.len(),
    {
        let e = rest.remove(0);
        proof {
            assert(e == all[n as int]);
            assert(rest@ =~= all.skip(n as int + 1));
        }
        out.push(to_runtime_event(e));
        n = n + 1;
    }
    out
}

/// The symbol a runtime order names, if the event is an order.
pub open spec fn order_symbol(e: RuntimeEvent) -> Option<Symbol> {
    match e {
        RuntimeEvent::NewOrder { order, .. } => Some(order.symbol),
        _ => None,
    }
}

/// The symbols the orders among runtime events name.
pub open spec fn order_names(events: Seq<RuntimeEvent>) -> Set<Seq<char>> {
    Set::new(
        |s: Seq<char>|
            exists|i: int| 0 <= i < events.len() && (#[trigger] order_symbol(events[i])) is Some && order_symbol(events[i])->0@ == s,
    )
}

/// The symbols the orders of a batch name, each once, in ascending order; a batch with no
/// orders trades the default symbol `AAPL`.
pub fn order_symbols(events: &Vec<RuntimeEvent>) -> (r: Vec<Symbol>)
    ensures
        (exists|i: int| 0 <= i < events@.len() && (#[trigger] order_symbol(events@[i])) is Some) ==> lists_symbols(
            r@,
            order_names(events@),
        ),
        !(exists|i: int| 0 <= i < events@.len() && (#[trigger] order_symbol(events@[i])) is Some) ==> r@.len() == 1
            && r@[0]@ == "AAPL"@,
{
    let mut seen: SymbolMap<bool> = SymbolMap::new();
    let mut i: usize = 0;
    while i < events.len()
        invariant
            0 <= i <= events@.len(),
            forall|s: Seq<char>|
                #[trigger] seen@.contains_key(s) <==> exists|k: int|
                    0 <= k < i && (#[trigger] order_symbol(events@[k])) is Some && order_symbol(events@[k])->0@ == s,
        decreases events@.len() - i,
    {
        match &events[i] {
            RuntimeEvent::NewOrder { order, .. } => {
                let name = order.symbol.0.clone();
                seen.insert(name, true);
                proof {
                    assert forall|s: Seq<char>|
                        #[trigger] seen@.contains_key(s) <==> exists|k: int|
                            0 <= k < i + 1 && (#[trigger] order_symbol(events@[k])) is Some && order_symbol(events@[k])->0@
                                == s by {
                        if s == order_symbol(events@[i as int])->0@ {
                            assert(order_symbol(events@[i as int]) is Some);
                        }
                    }
                }
            },
            _ => {
                proof {
                    assert forall|s: Seq<char>|
                        #[trigger] seen@.contains_key(s) <==> exists|k: int|
                            0 <= k < i + 1 && (#[trigger] order_symbol(events@[k])) is Some && order_symbol(events@[k])->0@
                                == s by {
                        if exists|k: int|
                            0 <= k < i + 1 && (#[trigger] order_symbol(events@[k])) is Some && order_symbol(events@[k])->0@
                                == s {
                            let k = choose|k: int|
                                0 <= k < i + 1 && (#[trigger] order_symbol(events@[k])) is Some && order_symbol(events@[k])->0@
                                    == s;
                            assert(k != i);
                        }
                    }
                }
            },
        }
        i = i + 1;
    }
    let keys = seen.keys();
    if keys.len() == 0 {
        proof {
            assert forall|j: int| 0 <= j < events@.len() implies !(#[trigger] order_symbol(events@[j]) is Some) by {
                if order_symbol(events@[j]) is Some {
                    assert(seen@.contains_key(order_symbol(events@[j])->0@));
                }
            }
        }
        let mut only: Vec<Symbol> = Vec::new();
        only.push(Symbol::from_text("AAPL"));
        return only;
    }
    proof {
        assert(seen@.dom() =~= order_names(events@));
        assert(seen@.contains_key(keys@[0]@));
    }
    keys
}

/// The kind of a runtime output as a number: accepted, rejected, risk-rejected, trade,
/// cancelled, anything else.
pub open spec fn output_tag(k: RuntimeOutputKind) -> int {
    match k {
        RuntimeOutputKind::Accepted { .. } => 0,
        RuntimeOutputKind::Rejected { .. } => 1,
        RuntimeOutputKind::RiskRejected { .. } => 2,
        RuntimeOutputKind::Trade { .. } => 3,
        RuntimeOutputKind::Cancelled { .. } => 4,
        _ => 5,
    }
}

/// How many outputs carry a given tag.
pub open spec fn count_tagged(outputs: Seq<RuntimeOutput>, tag: int) -> nat
    decreases outputs.len(),
{
    if outputs.len() == 0 {
        0
    } else {
        count_tagged(outputs.drop_last(), tag) + if output_tag(outputs.last().kind) == tag {
            1nat
        } else {
            0nat
        }
    }
}

/// Counts of a batch's outputs by kind.
#[derive(Debug, Clone, Copy, PartialEq, Eq, Structural)]
pub struct OutputCounts {
    pub accepted: u64,
    pub rejected: u64,
    pub risk_rejected: u64,
    pub trades: u64,
    pub cancelled: u64,
}

/// Count the outputs by kind.
pub fn count_outputs(outputs: &Vec<RuntimeOutput>) -> (r: OutputCounts)
    ensures
        r.accepted == count_tagged(outputs@, 0),
        r.rejected == count_tagged(outputs@, 1),
        r.risk_rejected == count_tagged(outputs@, 2),
        r.trades == count_tagged(outputs@, 3),
        r.cancelled == count_tagged(outputs@, 4),
{
    let mut c = OutputCounts { accepted: 0, rejected: 0, risk_rejected: 0, trades: 0, cancelled: 0 };
    let mut i: usize = 0;
    while i < outputs.len()
        invariant
            0 <= i <= outputs@.len(),
            c.accepted == count_tagged(outputs@.take(i as int), 0),
            c.rejected == count_tagged(outputs@.take(i as int), 1),
            c.risk_rejected == count_tagged(outputs@.take(i as int), 2),
            c.trades == count_tagged(outputs@.take(i as int), 3),
            c.cancelled == count_tagged(outputs@.take(i as int), 4),
            c.accepted + c.rejected + c.risk_rejected + c.trades + c.cancelled <= i,
        decreases outputs@.len() - i,
    {
        proof {
            assert(outputs@.take(i as int + 1).drop_last() =~= outputs@.take(i as int));
            assert(outputs@.take(i as int + 1).last() == outputs@[i as int]);
        }
        match &outputs[i].kind {
            RuntimeOutputKind::Accepted { .. } => c.accepted = c.accepted + 1,
            RuntimeOutputKind::Rejected { .. } => c.rejected = c.rejected + 1,
            RuntimeOutputKind::RiskRejected { .. } => c.risk_rejected = c.risk_rejected + 1,
            RuntimeOutputKind::Trade { .. } => c.trades = c.trades + 1,
            RuntimeOutputKind::Cancelled { .. } => c.cancelled = c.cancelled + 1,
            _ => {},
        }
        i = i + 1;
    }
    proof {
        assert(outputs@.take(i as int) =~= outputs@);
    }
    c
}

} // verus!
