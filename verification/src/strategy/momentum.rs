//! Momentum demonstration strategy over a rolling window of trade prices per symbol.
//!
//! Not a profitability claim.
use vstd::prelude::*;

use crate::events::Trade;
use crate::keyed::SymbolMap;
use crate::types::{OrderType, Qty, Side, StrategyId, Symbol};

use super::{context_position, snapshot_position, Strategy, StrategyCommand, StrategyContext, StrategyEvent};

verus! {

#[derive(Debug, Clone, PartialEq, Eq)]
pub struct MomentumConfig {
    pub window_size: usize,
    pub threshold_ticks: i64,
    /// Cooldown measured in external sequence numbers.
    pub cooldown_seqs: u64,
    pub order_qty: u64,
    pub max_abs_position: i64,
}

impl Default for MomentumConfig {
    fn default() -> (r: Self)
        ensures
            r == (MomentumConfig {
                window_size: 5,
                threshold_ticks: 10,
                cooldown_seqs: 2,
                order_qty: 1,
                max_abs_position: 5,
            }),
    {
        MomentumConfig { window_size: 5, threshold_ticks: 10, cooldown_seqs: 2, order_qty: 1, max_abs_position: 5 }
    }
}

#[derive(Debug)]
pub struct MomentumStrategy {
    id: StrategyId,
    config: MomentumConfig,
    window_slots: SymbolMap<usize>,
    windows: Vec<Vec<i64>>,
    last_trade_seq: SymbolMap<u64>,
}

/// The window after a new price: the newest `size` prices, oldest first.
pub open spec fn slide(w: Seq<i64>, price: i64, size: usize) -> Seq<i64> {
    let w2 = w.push(price);
    if w2.len() > size {
        w2.skip(w2.len() - size)
    } else {
        w2
    }
}

/// The signal of a full window: newest price minus oldest.
pub open spec fn signal(w: Seq<i64>, size: usize) -> Option<int> {
    if w.len() < size || w.len() == 0 {
        None
    } else {
        Some(w.last() - w[0])
    }
}

/// `a - b`, or zero when `b > a`.
pub open spec fn saturating_sub(a: u64, b: u64) -> int {
    if a >= b {
        a - b
    } else {
        0
    }
}

/// Buy intents on an upward move: close any short, then buy up to the room left below the
/// position limit.
pub open spec fn buy_commands(cfg: MomentumConfig, pos: i64, symbol: Symbol) -> Seq<StrategyCommand> {
    let close = if pos < 0 {
        seq![StrategyCommand::PlaceOrder {
            symbol,
            side: Side::Buy,
            order_type: OrderType::Market,
            price: None,
            qty: Qty((-pos) as u64),
        }]
    } else {
        Seq::empty()
    };
    let room = (cfg.max_abs_position - (if pos > 0 { pos as int } else { 0 })) as u64;
    let q = if cfg.order_qty < room { cfg.order_qty } else { room };
    if pos < cfg.max_abs_position && q > 0 {
        close.push(
            StrategyCommand::PlaceOrder { symbol, side: Side::Buy, order_type: OrderType::Market, price: None, qty: Qty(q) },
        )
    } else {
        close
    }
}

/// Sell intents on a downward move: close any long, then sell up to the room left above the
/// negative position limit.
pub open spec fn sell_commands(cfg: MomentumConfig, pos: i64, symbol: Symbol) -> Seq<StrategyCommand> {
    let close = if pos > 0 {
        seq![StrategyCommand::PlaceOrder {
            symbol,
            side: Side::Sell,
            order_type: OrderType::Market,
            price: None,
            qty: Qty(pos as u64),
        }]
    } else {
        Seq::empty()
    };
    let room = (cfg.max_abs_position + (if pos < 0 { pos as int } else { 0 })) as u64;
    let q = if cfg.order_qty < room { cfg.order_qty } else { room };
    if pos > -cfg.max_abs_position && q > 0 {
        close.push(
            StrategyCommand::PlaceOrder {
                symbol,
                side: Side::Sell,
                order_type: OrderType::Market,
                price: None,
                qty: Qty(q),
            },
        )
    } else {
        close
    }
}

/// One trade: the symbol's window slides; outside the cooldown, a full window whose move
/// reaches the threshold yields buy or sell intents and records the sequence number.
pub open spec fn trade_step(
    cfg: MomentumConfig,
    windows: Map<Seq<char>, Seq<i64>>,
    last: Map<Seq<char>, u64>,
    trade: Trade,
    ctx: StrategyContext,
    windows2: Map<Seq<char>, Seq<i64>>,
    last2: Map<Seq<char>, u64>,
    cmds: Seq<StrategyCommand>,
) -> bool {
    let k = trade.symbol@;
    let w = slide(if windows.contains_key(k) { windows[k] } else { Seq::empty() }, trade.price.0, cfg.window_size);
    let cooled = last.contains_key(k) && saturating_sub(ctx.seq, last[k]) < cfg.cooldown_seqs;
    let pos = snapshot_position(ctx.portfolio.positions@, k) as i64;
    &&& windows2 == windows.insert(k, w)
    &&& if cooled || signal(w, cfg.window_size) is None {
        cmds == Seq::<StrategyCommand>::empty() && last2 == last
    } else {
        let d = signal(w, cfg.window_size)->0;
        if d >= cfg.threshold_ticks {
            cmds == buy_commands(cfg, pos, trade.symbol) && last2 == last.insert(k, ctx.seq)
        } else if d <= -cfg.threshold_ticks {
            cmds == sell_commands(cfg, pos, trade.symbol) && last2 == last.insert(k, ctx.seq)
        } else {
            cmds == Seq::<StrategyCommand>::empty() && last2 == last
        }
    }
}

/// The total quantity of the orders the commands place on `side`.
pub open spec fn side_total(cmds: Seq<StrategyCommand>, side: Side) -> int
    decreases cmds.len(),
{
    if cmds.len() == 0 {
        0
    } else {
        side_total(cmds.drop_last(), side) + match cmds.last() {
            StrategyCommand::PlaceOrder { side: s, qty, .. } => if s == side {
                qty.0 as int
            } else {
                0
            },
            StrategyCommand::Cancel { .. } => 0,
        }
    }
}

/// Momentum orders respect the position limit: the buys on an upward move take the
/// position no higher than the limit (or leave it where it was, if already above), and the
/// sells on a downward move take it no lower than the negative limit. All are market
/// orders on the traded symbol, on one side only.
pub proof fn law_momentum_within_position_limit(cfg: MomentumConfig, pos: i64, symbol: Symbol)
    requires
        cfg.max_abs_position >= 0,
    ensures
        pos + side_total(buy_commands(cfg, pos, symbol), Side::Buy) <= (if pos > cfg.max_abs_position {
            pos as int
        } else {
            cfg.max_abs_position as int
        }),
        side_total(buy_commands(cfg, pos, symbol), Side::Sell) == 0,
        pos - side_total(sell_commands(cfg, pos, symbol), Side::Sell) >= (if pos < -cfg.max_abs_position {
            pos as int
        } else {
            -cfg.max_abs_position
        }),
        side_total(sell_commands(cfg, pos, symbol), Side::Buy) == 0,
        forall|i: int|
            0 <= i < buy_commands(cfg, pos, symbol).len() ==> (#[trigger] buy_commands(cfg, pos, symbol)[i] matches StrategyCommand::PlaceOrder {
                symbol: s,
                side: Side::Buy,
                order_type: OrderType::Market,
                price: None,
                ..
            } && s == symbol),
        forall|i: int|
            0 <= i < sell_commands(cfg, pos, symbol).len() ==> (#[trigger] sell_commands(cfg, pos, symbol)[i] matches StrategyCommand::PlaceOrder {
                symbol: s,
                side: Side::Sell,
                order_type: OrderType::Market,
                price: None,
                ..
            } && s == symbol),
{
    reveal_with_fuel(side_total, 3);
}

/// A momentum signal against the position first flattens it: on a downward move a long of
/// `p` is closed by a market sell of exactly `p` before anything else, leaving the position
/// no longer long; on an upward move a short is closed by a market buy of its size first,
/// leaving it no longer short.
pub proof fn law_momentum_closes_before_reversing(cfg: MomentumConfig, pos: i64, symbol: Symbol)
    ensures
        pos > 0 ==> sell_commands(cfg, pos, symbol).len() >= 1 && sell_commands(cfg, pos, symbol)[0]
            == (StrategyCommand::PlaceOrder {
            symbol,
            side: Side::Sell,
            order_type: OrderType::Market,
            price: None,
            qty: Qty(pos as u64),
        }),
        pos > 0 ==> pos - side_total(sell_commands(cfg, pos, symbol), Side::Sell) <= 0,
        pos < 0 ==> buy_commands(cfg, pos, symbol).len() >= 1 && buy_commands(cfg, pos, symbol)[0]
            == (StrategyCommand::PlaceOrder {
            symbol,
            side: Side::Buy,
            order_type: OrderType::Market,
            price: None,
            qty: Qty((-pos) as u64),
        }),
        pos < 0 ==> pos + side_total(buy_commands(cfg, pos, symbol), Side::Buy) >= 0,
{
    reveal_with_fuel(side_total, 3);
}

/// Where a momentum signal leaves the position: a downward move takes it one order size
/// below flat (any long closed first), but no lower than the short limit, and leaves a
/// position already at or beyond that limit alone; an upward move mirrors this.
pub proof fn law_momentum_lands_past_flat(cfg: MomentumConfig, pos: i64, symbol: Symbol)
    requires
        cfg.max_abs_position >= 0,
    ensures
        pos - side_total(sell_commands(cfg, pos, symbol), Side::Sell) == (if pos <= -cfg.max_abs_position {
            pos as int
        } else {
            let flat_or_short = if pos < 0 { pos as int } else { 0 };
            if flat_or_short - cfg.order_qty >= -cfg.max_abs_position {
                flat_or_short - cfg.order_qty
            } else {
                -cfg.max_abs_position
            }
        }),
        pos + side_total(buy_commands(cfg, pos, symbol), Side::Buy) == (if pos >= cfg.max_abs_position {
            pos as int
        } else {
            let flat_or_long = if pos > 0 { pos as int } else { 0 };
            if flat_or_long + cfg.order_qty <= cfg.max_abs_position {
                flat_or_long + cfg.order_qty
            } else {
                cfg.max_abs_position as int
            }
        }),
{
    reveal_with_fuel(side_total, 3);
}

/// Momentum follows the move: a trade that completes an upward move of at least the
/// threshold yields only buys, one that completes a downward move only sells.
pub proof fn law_momentum_follows_the_move(
    cfg: MomentumConfig,
    windows: Map<Seq<char>, Seq<i64>>,
    last: Map<Seq<char>, u64>,
    trade: Trade,
    ctx: StrategyContext,
    windows2: Map<Seq<char>, Seq<i64>>,
    last2: Map<Seq<char>, u64>,
    cmds: Seq<StrategyCommand>,
)
    requires
        trade_step(cfg, windows, last, trade, ctx, windows2, last2, cmds),
        cfg.threshold_ticks > 0,
        cfg.max_abs_position >= 0,
    ensures
        ({
            let k = trade.symbol@;
            let w = slide(if windows.contains_key(k) { windows[k] } else { Seq::empty() }, trade.price.0, cfg.window_size);
            &&& w.len() >= cfg.window_size && w.len() > 0 && w.last() - w[0] > 0 ==> side_total(cmds, Side::Sell) == 0
            &&& w.len() >= cfg.window_size && w.len() > 0 && w.last() - w[0] < 0 ==> side_total(cmds, Side::Buy) == 0
        }),
{
    let k = trade.symbol@;
    let pos = snapshot_position(ctx.portfolio.positions@, k) as i64;
    law_momentum_within_position_limit(cfg, pos, trade.symbol);
}

/// Signals are spaced by the cooldown: within `cooldown_seqs` sequence numbers of the last
/// signal for a symbol, a trade in it yields nothing and the last signal stays; a trade
/// that yields intents records its sequence number as the symbol's last signal.
pub proof fn law_momentum_cooldown(
    cfg: MomentumConfig,
    windows: Map<Seq<char>, Seq<i64>>,
    last: Map<Seq<char>, u64>,
    trade: Trade,
    ctx: StrategyContext,
    windows2: Map<Seq<char>, Seq<i64>>,
    last2: Map<Seq<char>, u64>,
    cmds: Seq<StrategyCommand>,
)
    requires
        trade_step(cfg, windows, last, trade, ctx, windows2, last2, cmds),
    ensures
        last.contains_key(trade.symbol@) && saturating_sub(ctx.seq, last[trade.symbol@]) < cfg.cooldown_seqs ==> cmds
            == Seq::<StrategyCommand>::empty() && last2 == last,
        cmds.len() > 0 ==> last2 == last.insert(trade.symbol@, ctx.seq),
{
}

impl MomentumStrategy {
    /// Every symbol's slot is a distinct window.
    pub closed spec fn wf(&self) -> bool {
        &&& forall|k: Seq<char>| #[trigger] self.window_slots@.contains_key(k) ==> self.window_slots@[k] < self.windows@.len()
        &&& forall|k1: Seq<char>, k2: Seq<char>|
            #[trigger] self.window_slots@.contains_key(k1) && #[trigger] self.window_slots@.contains_key(k2) && k1 != k2
                ==> self.window_slots@[k1] != self.window_slots@[k2]
    }

    pub closed spec fn spec_config(&self) -> MomentumConfig {
        self.config
    }

    pub closed spec fn spec_id(&self) -> StrategyId {
        self.id
    }

    /// Price windows by symbol.
    pub closed spec fn windows_view(&self) -> Map<Seq<char>, Seq<i64>> {
        Map::new(|k: Seq<char>| self.window_slots@.contains_key(k), |k: Seq<char>| self.windows@[self.window_slots@[k] as int]@)
    }

    /// Sequence number of the last signal per symbol.
    pub closed spec fn last_view(&self) -> Map<Seq<char>, u64> {
        self.last_trade_seq@
    }

    pub fn new(id: StrategyId, config: MomentumConfig) -> (r: Self)
        ensures
            r.wf(),
            r.spec_id() == id,
            r.spec_config() == config,
            r.windows_view() == Map::<Seq<char>, Seq<i64>>::empty(),
            r.last_view() == Map::<Seq<char>, u64>::empty(),
    {
        let r = MomentumStrategy {
            id,
            config,
            window_slots: SymbolMap::new(),
            windows: Vec::new(),
            last_trade_seq: SymbolMap::new(),
        };
        proof {
            assert(r.windows_view() =~= Map::<Seq<char>, Seq<i64>>::empty());
        }
        r
    }

    /// Append a trade price to the symbol's window and keep its newest `window_size` prices.
    fn push_price(&mut self, symbol: &Symbol, price: i64) -> (r: Vec<i64>)
        ensures
            final(self).spec_config() == old(self).spec_config(),
            final(self).spec_id() == old(self).spec_id(),
            final(self).last_view() == old(self).last_view(),
            old(self).wf() ==> final(self).wf(),
            old(self).wf() ==> r@ == slide(
                if old(self).windows_view().contains_key(symbol@) {
                    old(self).windows_view()[symbol@]
                } else {
                    Seq::empty()
                },
                price,
                old(self).spec_config().window_size,
            ),
            old(self).wf() ==> final(self).windows_view() == old(self).windows_view().insert(symbol@, r@),
    {
        let ghost old_view = self.windows_view();
        let ghost was_wf = self.wf();
        let slot = match self.window_slots.get(symbol) {
            Some(s) => s,
            None => {
                let s = self.windows.len();
                self.windows.push(Vec::new());
                self.window_slots.insert(symbol.0.clone(), s);
                proof {
                    assert(symbol.0@ == symbol@);
                }
                s
            },
        };
        if slot >= self.windows.len() {
            return Vec::new();
        }
        let mut w = self.windows[slot].clone();
        proof {
            if was_wf {
                assert(w@ =~= (if old_view.contains_key(symbol@) { old_view[symbol@] } else { Seq::<i64>::empty() }));
            }
        }
        let ghost w2 = w@.push(price);
        w.push(price);
        let size = self.config.window_size;
        let mut dropped: usize = 0;
        proof {
            assert(w@.len() == w.len());
            assert(w2.skip(0) =~= w2);
        }
        while w.len() > size
            invariant
                w@ == w2.skip(dropped as int),
                w2.len() <= usize::MAX,
                0 <= dropped <= w2.len(),
                dropped <= (if w2.len() > size { w2.len() - size } else { 0 }),
            decreases w@.len(),
        {
            w.remove(0);
            dropped = dropped + 1;
            proof {
                assert(w@ =~= w2.skip(dropped as int));
            }
        }
        proof {
            if w2.len() > size {
                assert(dropped == w2.len() - size);
            } else {
                assert(dropped == 0);
                assert(w2.skip(0) =~= w2);
            }
        }
        let out = w.clone();
        self.windows.set(slot, w);
        proof {
            assert(out@ =~= w@);
            if was_wf {
                assert(self.windows_view() =~= old_view.insert(symbol@, out@));
            }
        }
        out
    }

    fn buy_commands_exec(&self, pos: i64, symbol: &Symbol) -> (r: Vec<StrategyCommand>)
        ensures
            r@ == buy_commands(self.spec_config(), pos, *symbol),
    {
        let mut cmds: Vec<StrategyCommand> = Vec::new();
        if pos < 0 {
            cmds.push(
                StrategyCommand::PlaceOrder {
                    symbol: symbol.duplicate(),
                    side: Side::Buy,
                    order_type: OrderType::Market,
                    price: None,
                    qty: Qty((-(pos as i128)) as u64),
                },
            );
        }
        if pos < self.config.max_abs_position {
            let held: i64 = if pos > 0 { pos } else { 0 };
            let room = (self.config.max_abs_position - held) as u64;
            let qty = if self.config.order_qty < room { self.config.order_qty } else { room };
            if qty > 0 {
                cmds.push(
                    StrategyCommand::PlaceOrder {
                        symbol: symbol.duplicate(),
                        side: Side::Buy,
                        order_type: OrderType::Market,
                        price: None,
                        qty: Qty(qty),
                    },
                );
            }
        }
        proof {
            assert(cmds@ =~= buy_commands(self.spec_config(), pos, *symbol));
        }
        cmds
    }

    fn sell_commands_exec(&self, pos: i64, symbol: &Symbol) -> (r: Vec<StrategyCommand>)
        ensures
            r@ == sell_commands(self.spec_config(), pos, *symbol),
    {
        let mut cmds: Vec<StrategyCommand> = Vec::new();
        if pos > 0 {
            cmds.push(
                StrategyCommand::PlaceOrder {
                    symbol: symbol.duplicate(),
                    side: Side::Sell,
                    order_type: OrderType::Market,
                    price: None,
                    qty: Qty(pos as u64),
                },
            );
        }
        if (pos as i128) > -(self.config.max_abs_position as i128) {
            let short: i64 = if pos < 0 { pos } else { 0 };
            let room = (self.config.max_abs_position + short) as u64;
            let qty = if self.config.order_qty < room { self.config.order_qty } else { room };
            if qty > 0 {
                cmds.push(
                    StrategyCommand::PlaceOrder {
                        symbol: symbol.duplicate(),
                        side: Side::Sell,
                        order_type: OrderType::Market,
                        price: None,
                        qty: Qty(qty),
                    },
                );
            }
        }
        proof {
            assert(cmds@ =~= sell_commands(self.spec_config(), pos, *symbol));
        }
        cmds
    }

    /// React to a trade: slide the window, then (outside the cooldown) signal on a move of
    /// at least the threshold.
    fn on_trade(&mut self, trade: &Trade, ctx: &StrategyContext) -> (r: Vec<StrategyCommand>)
        ensures
            final(self).spec_config() == old(self).spec_config(),
            final(self).spec_id() == old(self).spec_id(),
            old(self).wf() ==> final(self).wf(),
            old(self).wf() ==> trade_step(
                old(self).spec_config(),
                old(self).windows_view(),
                old(self).last_view(),
                *trade,
                *ctx,
                final(self).windows_view(),
                final(self).last_view(),
                r@,
            ),
    {
        let symbol = &trade.symbol;
        let w = self.push_price(symbol, trade.price.0);
        match self.last_trade_seq.get(symbol) {
            Some(last) => {
                let since = if ctx.seq >= last { ctx.seq - last } else { 0 };
                if since < self.config.cooldown_seqs {
                    return Vec::new();
                }
            },
            None => {},
        }
        if w.len() < self.config.window_size || w.len() == 0 {
            return Vec::new();
        }
        let delta: i128 = (w[w.len() - 1] as i128) - (w[0] as i128);
        let pos = context_position(ctx, symbol);
        let threshold = self.config.threshold_ticks as i128;
        if delta >= threshold {
            let cmds = self.buy_commands_exec(pos, symbol);
            self.last_trade_seq.insert(symbol.0.clone(), ctx.seq);
            cmds
        } else if delta <= -threshold {
            let cmds = self.sell_commands_exec(pos, symbol);
            self.last_trade_seq.insert(symbol.0.clone(), ctx.seq);
            cmds
        } else {
            Vec::new()
        }
    }
}

impl Strategy for MomentumStrategy {
    closed spec fn spec_strategy_id(&self) -> StrategyId {
        self.spec_id()
    }

    fn id(&self) -> (r: StrategyId)
        ensures
            r == self.spec_id(),
    {
        self.id
    }

    fn name(&self) -> (r: &str)
        ensures
            r@ == "momentum"@,
    {
        "momentum"
    }

    fn on_event(&mut self, event: &StrategyEvent, ctx: &StrategyContext) -> (r: Vec<StrategyCommand>)
        ensures
            final(self).spec_config() == old(self).spec_config(),
            final(self).spec_id() == old(self).spec_id(),
            old(self).wf() ==> final(self).wf(),
            ctx.risk_killed || !(*event is Trade) ==> r@ == Seq::<StrategyCommand>::empty() && *final(self) == *old(
                self,
            ),
            !ctx.risk_killed && *event is Trade && old(self).wf() ==> trade_step(
                old(self).spec_config(),
                old(self).windows_view(),
                old(self).last_view(),
                event->trade,
                *ctx,
                final(self).windows_view(),
                final(self).last_view(),
                r@,
            ),
    {
        if ctx.risk_killed {
            return Vec::new();
        }
        match event {
            StrategyEvent::Trade { trade } => self.on_trade(trade, ctx),
            _ => Vec::new(),
        }
    }
}

} // verus!
