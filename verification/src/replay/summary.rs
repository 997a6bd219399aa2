//! Counters that summarise one replay run.
use vstd::prelude::*;

use crate::book::snapshot::{BookSnapshot, PriceLevelSnapshot};

verus! {

#[derive(Debug, Clone, Copy, PartialEq, Eq, Structural)]
pub struct ReplaySummary {
    pub input_events: u64,
    pub output_events: u64,
    pub accepted: u64,
    pub rejected: u64,
    pub trades: u64,
    pub cancelled: u64,
    pub expired: u64,
    pub final_resting_orders: u64,
    pub final_bid_levels: u64,
    pub final_ask_levels: u64,
}

impl Default for ReplaySummary {
    fn default() -> (r: Self)
        ensures
            r == (ReplaySummary {
                input_events: 0,
                output_events: 0,
                accepted: 0,
                rejected: 0,
                trades: 0,
                cancelled: 0,
                expired: 0,
                final_resting_orders: 0,
                final_bid_levels: 0,
                final_ask_levels: 0,
            }),
    {
        ReplaySummary {
            input_events: 0,
            output_events: 0,
            accepted: 0,
            rejected: 0,
            trades: 0,
            cancelled: 0,
            expired: 0,
            final_resting_orders: 0,
            final_bid_levels: 0,
            final_ask_levels: 0,
        }
    }
}

/// Total order count over snapshot levels.
pub open spec fn order_count_sum(levels: Seq<PriceLevelSnapshot>) -> nat
    decreases levels.len(),
{
    if levels.len() == 0 {
        0
    } else {
        order_count_sum(levels.drop_last()) + (levels.last().order_count as nat)
    }
}

proof fn lemma_order_count_sum_prefix(levels: Seq<PriceLevelSnapshot>, n: int)
    requires
        0 <= n <= levels.len(),
    ensures
        order_count_sum(levels.take(n)) <= order_count_sum(levels),
    decreases levels.len() - n,
{
    if n < levels.len() {
        lemma_order_count_sum_prefix(levels, n + 1);
        assert(levels.take(n + 1).drop_last() =~= levels.take(n));
    } else {
        assert(levels.take(n) =~= levels);
    }
}

fn sum_order_counts(levels: &Vec<PriceLevelSnapshot>) -> (r: u64)
    requires
        order_count_sum(levels@) <= u64::MAX,
    ensures
        r == order_count_sum(levels@),
{
    let mut total: u64 = 0;
    let mut i: usize = 0;
    while i < levels.len()
        invariant
            0 <= i <= levels@.len(),
            order_count_sum(levels@) <= u64::MAX,
            total == order_count_sum(levels@.take(i as int)),
        decreases levels@.len() - i,
    {
        proof {
            assert(levels@.take(i as int + 1).drop_last() =~= levels@.take(i as int));
            lemma_order_count_sum_prefix(levels@, i as int + 1);
        }
        total = total + levels[i].order_count as u64;
        i = i + 1;
    }
    proof {
        assert(levels@.take(i as int) =~= levels@);
    }
    total
}

impl ReplaySummary {
    /// Record the level counts of both sides and the number of resting orders.
    pub fn record_final_book(&mut self, snapshot: &BookSnapshot)
        requires
            order_count_sum(snapshot.bids@) + order_count_sum(snapshot.asks@) <= u64::MAX,
        ensures
            final(self).final_bid_levels == snapshot.bids@.len(),
            final(self).final_ask_levels == snapshot.asks@.len(),
            final(self).final_resting_orders == order_count_sum(snapshot.bids@) + order_count_sum(snapshot.asks@),
            final(self).input_events == old(self).input_events,
            final(self).output_events == old(self).output_events,
            final(self).accepted == old(self).accepted,
            final(self).rejected == old(self).rejected,
            final(self).trades == old(self).trades,
            final(self).cancelled == old(self).cancelled,
            final(self).expired == old(self).expired,
    {
        self.final_bid_levels = snapshot.bids.len() as u64;
        self.final_ask_levels = snapshot.asks.len() as u64;
        let bids = sum_order_counts(&snapshot.bids);
        let asks = sum_order_counts(&snapshot.asks);
        self.final_resting_orders = bids + asks;
    }
}

} // verus!
