//! Inventory-aware market-making demonstration strategy.
//!
//! Places symmetric limit quotes around the mid price, shifted against inventory.
//! Not a profitability claim.
use vstd::prelude::*;

use crate::book::snapshot::BookSnapshot;
use crate::keyed::SymbolMap;
use crate::types::{OrderId, OrderType, PriceTicks, Qty, Side, StrategyId, Symbol};

use super::{context_position, snapshot_position, Strategy, StrategyCommand, StrategyContext, StrategyEvent};

verus! {

#[derive(Debug, Clone, PartialEq, Eq)]
pub struct MarketMakingConfig {
    pub half_spread_ticks: i64,
    pub quote_size: u64,
    pub max_active_orders: usize,
    /// Inventory skew in ticks per unit of position (shifts quotes).
    pub inventory_skew_ticks_per_unit: i64,
    pub max_inventory: i64,
}

impl Default for MarketMakingConfig {
    fn default() -> (r: Self)
        ensures
            r == (MarketMakingConfig {
                half_spread_ticks: 5,
                quote_size: 1,
                max_active_orders: 2,
                inventory_skew_ticks_per_unit: 1,
                max_inventory: 20,
            }),
    {
        MarketMakingConfig {
            half_spread_ticks: 5,
            quote_size: 1,
            max_active_orders: 2,
            inventory_skew_ticks_per_unit: 1,
            max_inventory: 20,
        }
    }
}

/// The strategy's own quotes in one symbol: order IDs once accepted, prices once placed.
#[derive(Debug, Clone, Copy, PartialEq, Eq, Structural, Default)]
pub struct QuotePair {
    pub bid_id: Option<OrderId>,
    pub ask_id: Option<OrderId>,
    pub bid_px: Option<PriceTicks>,
    pub ask_px: Option<PriceTicks>,
}

pub open spec fn empty_pair() -> QuotePair {
    QuotePair { bid_id: None, ask_id: None, bid_px: None, ask_px: None }
}

#[derive(Debug)]
pub struct MarketMakingStrategy {
    id: StrategyId,
    config: MarketMakingConfig,
    pub quotes: SymbolMap<QuotePair>,
}

/// `x` limited to the `i64` range.
pub open spec fn clamp64(x: int) -> int {
    if x < i64::MIN {
        i64::MIN as int
    } else if x > i64::MAX {
        i64::MAX as int
    } else {
        x
    }
}

/// Half of `s`, rounded toward zero.
pub open spec fn half_toward_zero(s: int) -> int {
    if s >= 0 {
        s / 2
    } else {
        -((-s) / 2)
    }
}

/// Mid price: halfway between best bid and best ask, or the one side present.
pub open spec fn spec_mid(book: BookSnapshot) -> Option<int> {
    if book.bids@.len() > 0 && book.asks@.len() > 0 {
        Some(half_toward_zero(book.bids@[0].price.0 + book.asks@[0].price.0))
    } else if book.bids@.len() > 0 {
        Some(book.bids@[0].price.0 as int)
    } else if book.asks@.len() > 0 {
        Some(book.asks@[0].price.0 as int)
    } else {
        None
    }
}

/// Desired bid and ask: half a spread either side of mid, shifted against inventory, bid at
/// least 1 and ask at least one tick above bid.
pub open spec fn spec_desired(cfg: MarketMakingConfig, mid: int, inventory: i64) -> (int, int) {
    let skew = clamp64(inventory * cfg.inventory_skew_ticks_per_unit);
    let b = clamp64(mid - cfg.half_spread_ticks - skew);
    let bid = if b > 1 { b } else { 1 };
    let a = clamp64(mid + cfg.half_spread_ticks - skew);
    let floor = clamp64(bid + 1);
    let ask = if a > floor { a } else { floor };
    (bid, ask)
}

/// Cancels for a pair's live orders, bid first.
pub open spec fn pair_cancels(q: QuotePair, symbol: Symbol) -> Seq<StrategyCommand> {
    let b = if q.bid_id is Some {
        seq![StrategyCommand::Cancel { order_id: q.bid_id->0, symbol }]
    } else {
        Seq::empty()
    };
    if q.ask_id is Some {
        b.push(StrategyCommand::Cancel { order_id: q.ask_id->0, symbol })
    } else {
        b
    }
}

/// A pair once the runtime accepted one of the strategy's orders: that side takes the
/// order's ID, and its price when the order had one.
pub open spec fn accepted_pair(q: QuotePair, order_id: OrderId, side: Side, price: Option<PriceTicks>) -> QuotePair {
    match side {
        Side::Buy => QuotePair { bid_id: Some(order_id), bid_px: if price is Some { price } else { q.bid_px }, ..q },
        Side::Sell => QuotePair { ask_id: Some(order_id), ask_px: if price is Some { price } else { q.ask_px }, ..q },
    }
}

/// A pair once one of its orders filled: the side holding that ID is cleared.
pub open spec fn filled_pair(q: QuotePair, order_id: OrderId) -> QuotePair {
    let q1 = if q.bid_id == Some(order_id) {
        QuotePair { bid_id: None, bid_px: None, ..q }
    } else {
        q
    };
    if q1.ask_id == Some(order_id) {
        QuotePair { ask_id: None, ask_px: None, ..q1 }
    } else {
        q1
    }
}

/// The order ID and symbol text a command names (a new order names no ID).
pub open spec fn command_target(c: StrategyCommand) -> (OrderId, Seq<char>) {
    match c {
        StrategyCommand::Cancel { order_id, symbol } => (order_id, symbol@),
        StrategyCommand::PlaceOrder { symbol, .. } => (0, symbol@),
    }
}

/// What each command names, in order.
pub open spec fn command_targets(cmds: Seq<StrategyCommand>) -> Seq<(OrderId, Seq<char>)> {
    cmds.map_values(|c: StrategyCommand| command_target(c))
}

/// Cancels for every pair of `quotes`, taking the symbols in the order of `keys`, each
/// pair's bid before its ask.
pub open spec fn sweep_targets(quotes: Map<Seq<char>, QuotePair>, keys: Seq<Seq<char>>) -> Seq<(OrderId, Seq<char>)>
    decreases keys.len(),
{
    if keys.len() == 0 {
        Seq::empty()
    } else {
        let k = keys.last();
        let q = quotes[k];
        let b: Seq<(OrderId, Seq<char>)> = if q.bid_id is Some {
            seq![(q.bid_id->0, k)]
        } else {
            Seq::empty()
        };
        let a: Seq<(OrderId, Seq<char>)> = if q.ask_id is Some {
            seq![(q.ask_id->0, k)]
        } else {
            Seq::empty()
        };
        sweep_targets(quotes, keys.drop_last()) + b + a
    }
}

/// Wrapping absolute value in 64 bits, as `i64::wrapping_abs` gives it (the minimum stays negative).
pub open spec fn abs64(x: i64) -> int {
    if x == i64::MIN {
        i64::MIN as int
    } else if x < 0 {
        -x
    } else {
        x as int
    }
}

/// Quote refresh for one symbol: cancel stale quotes, then place missing ones while under
/// the active-order cap.
pub open spec fn requote(cfg: MarketMakingConfig, q: QuotePair, want_bid: int, want_ask: int, symbol: Symbol) -> (
    QuotePair,
    Seq<StrategyCommand>,
) {
    let bid_stale = q.bid_px != Some(PriceTicks(want_bid as i64));
    let c1: Seq<StrategyCommand> = if bid_stale && q.bid_id is Some {
        seq![StrategyCommand::Cancel { order_id: q.bid_id->0, symbol }]
    } else {
        Seq::empty()
    };
    let q1 = if bid_stale { QuotePair { bid_id: None, bid_px: None, ..q } } else { q };
    let ask_stale = q1.ask_px != Some(PriceTicks(want_ask as i64));
    let c2 = if ask_stale && q1.ask_id is Some {
        c1.push(StrategyCommand::Cancel { order_id: q1.ask_id->0, symbol })
    } else {
        c1
    };
    let q2 = if ask_stale { QuotePair { ask_id: None, ask_px: None, ..q1 } } else { q1 };
    let active = (if q2.bid_id is Some { 1int } else { 0 }) + (if q2.ask_id is Some { 1int } else { 0 });
    let place_bid = q2.bid_id is None && q2.bid_px is None && active < cfg.max_active_orders;
    let c3 = if place_bid {
        c2.push(
            StrategyCommand::PlaceOrder {
                symbol,
                side: Side::Buy,
                order_type: OrderType::Limit,
                price: Some(PriceTicks(want_bid as i64)),
                qty: Qty(cfg.quote_size),
            },
        )
    } else {
        c2
    };
    let q3 = if place_bid { QuotePair { bid_px: Some(PriceTicks(want_bid as i64)), ..q2 } } else { q2 };
    let active2 = if place_bid { active + 1 } else { active };
    let place_ask = q3.ask_id is None && q3.ask_px is None && active2 < cfg.max_active_orders;
    let c4 = if place_ask {
        c3.push(
            StrategyCommand::PlaceOrder {
                symbol,
                side: Side::Sell,
                order_type: OrderType::Limit,
                price: Some(PriceTicks(want_ask as i64)),
                qty: Qty(cfg.quote_size),
            },
        )
    } else {
        c3
    };
    let q4 = if place_ask { QuotePair { ask_px: Some(PriceTicks(want_ask as i64)), ..q3 } } else { q3 };
    (q4, c4)
}

/// A book update for `symbol`: when killed or at the inventory limit, cancel the pair;
/// without a mid price do nothing; otherwise requote around the desired prices.
pub open spec fn refresh_step(
    cfg: MarketMakingConfig,
    quotes: Map<Seq<char>, QuotePair>,
    symbol: Symbol,
    book: BookSnapshot,
    ctx: StrategyContext,
) -> (Map<Seq<char>, QuotePair>, Seq<StrategyCommand>) {
    let k = symbol@;
    let cancel = if quotes.contains_key(k) {
        (quotes.remove(k), pair_cancels(quotes[k], symbol))
    } else {
        (quotes, Seq::empty())
    };
    if ctx.risk_killed {
        cancel
    } else if spec_mid(book) is None {
        (quotes, Seq::empty())
    } else {
        let inv = snapshot_position(ctx.portfolio.positions@, k) as i64;
        if abs64(inv) >= cfg.max_inventory {
            cancel
        } else {
            let (b, a) = spec_desired(cfg, spec_mid(book)->0, inv);
            let q = if quotes.contains_key(k) { quotes[k] } else { empty_pair() };
            let (q2, cmds) = requote(cfg, q, b, a, symbol);
            (quotes.insert(k, q2), cmds)
        }
    }
}

/// How many new orders the commands place.
pub open spec fn place_count(cmds: Seq<StrategyCommand>) -> nat
    decreases cmds.len(),
{
    if cmds.len() == 0 {
        0
    } else {
        place_count(cmds.drop_last()) + if cmds.last() is PlaceOrder {
            1nat
        } else {
            0nat
        }
    }
}

/// How many of a pair's orders are live (accepted and not yet filled or cancelled).
pub open spec fn live_orders(q: QuotePair) -> int {
    (if q.bid_id is Some { 1int } else { 0 }) + (if q.ask_id is Some { 1int } else { 0 })
}

/// Quotes never cross: the desired bid is at least one tick, and the desired ask lies
/// above it (unless the bid is already the largest price, where both are equal).
pub proof fn law_desired_quotes_ordered(cfg: MarketMakingConfig, mid: int, inventory: i64)
    ensures
        ({
            let (bid, ask) = spec_desired(cfg, mid, inventory);
            &&& 1 <= bid <= ask
            &&& bid < i64::MAX ==> bid < ask
        }),
{
}

/// Desired quotes lean against inventory: with a non-negative skew, a larger position gives
/// a bid and an ask no higher than a smaller one does.
pub proof fn lemma_desired_monotone(cfg: MarketMakingConfig, mid: int, inv1: i64, inv2: i64)
    requires
        inv1 <= inv2,
        cfg.inventory_skew_ticks_per_unit >= 0,
    ensures
        spec_desired(cfg, mid, inv2).0 <= spec_desired(cfg, mid, inv1).0,
        spec_desired(cfg, mid, inv2).1 <= spec_desired(cfg, mid, inv1).1,
{
    let t = cfg.inventory_skew_ticks_per_unit;
    assert(inv1 * t <= inv2 * t) by (nonlinear_arith)
        requires
            inv1 <= inv2,
            t >= 0,
    ;
}

/// A refresh of a symbol with no quotes yet leans its new quotes against inventory: with a
/// non-negative skew and room for both quotes, it places a bid then an ask, and a larger
/// position in the symbol gives a bid and an ask no higher than a smaller position does
/// (so a short is quoted at or above a long of the same size).
pub proof fn law_refresh_skews_against_inventory(
    cfg: MarketMakingConfig,
    quotes: Map<Seq<char>, QuotePair>,
    symbol: Symbol,
    book: BookSnapshot,
    ctx1: StrategyContext,
    ctx2: StrategyContext,
)
    requires
        !quotes.contains_key(symbol@),
        spec_mid(book) is Some,
        !ctx1.risk_killed,
        !ctx2.risk_killed,
        cfg.max_active_orders >= 2,
        cfg.inventory_skew_ticks_per_unit >= 0,
        abs64(snapshot_position(ctx1.portfolio.positions@, symbol@) as i64) < cfg.max_inventory,
        abs64(snapshot_position(ctx2.portfolio.positions@, symbol@) as i64) < cfg.max_inventory,
        snapshot_position(ctx1.portfolio.positions@, symbol@) as i64 <= snapshot_position(ctx2.portfolio.positions@, symbol@) as i64,
    ensures
        ({
            let c1 = refresh_step(cfg, quotes, symbol, book, ctx1).1;
            let c2 = refresh_step(cfg, quotes, symbol, book, ctx2).1;
            &&& c1.len() == 2 && c2.len() == 2
            &&& c1[0] matches StrategyCommand::PlaceOrder { side: Side::Buy, price: Some(bid_small), .. }
                && c2[0] matches StrategyCommand::PlaceOrder { side: Side::Buy, price: Some(bid_large), .. }
                && bid_large.0 <= bid_small.0
            &&& c1[1] matches StrategyCommand::PlaceOrder { side: Side::Sell, price: Some(ask_small), .. }
                && c2[1] matches StrategyCommand::PlaceOrder { side: Side::Sell, price: Some(ask_large), .. }
                && ask_large.0 <= ask_small.0
        }),
{
    let k = symbol@;
    let mid = spec_mid(book)->0;
    let inv1 = snapshot_position(ctx1.portfolio.positions@, k) as i64;
    let inv2 = snapshot_position(ctx2.portfolio.positions@, k) as i64;
    lemma_desired_monotone(cfg, mid, inv1, inv2);
    law_desired_quotes_ordered(cfg, mid, inv1);
    law_desired_quotes_ordered(cfg, mid, inv2);
}

/// With no inventory the desired quotes straddle the mid: half a spread below and above it,
/// when the spread is at least a tick either side and neither bound is reached.
pub proof fn law_flat_quotes_straddle_mid(cfg: MarketMakingConfig, mid: int)
    requires
        cfg.half_spread_ticks >= 1,
        mid - cfg.half_spread_ticks > 1,
        mid + cfg.half_spread_ticks < i64::MAX,
    ensures
        spec_desired(cfg, mid, 0).0 == mid - cfg.half_spread_ticks,
        spec_desired(cfg, mid, 0).1 == mid + cfg.half_spread_ticks,
{
}

/// While the kill switch is on, or the position in the symbol is at its limit, a refresh
/// only cancels.
pub proof fn law_blocked_refresh_only_cancels(
    cfg: MarketMakingConfig,
    quotes: Map<Seq<char>, QuotePair>,
    symbol: Symbol,
    book: BookSnapshot,
    ctx: StrategyContext,
)
    requires
        ctx.risk_killed || abs64(snapshot_position(ctx.portfolio.positions@, symbol@) as i64) >= cfg.max_inventory,
    ensures
        forall|i: int|
            0 <= i < refresh_step(cfg, quotes, symbol, book, ctx).1.len() ==> (#[trigger] refresh_step(
                cfg,
                quotes,
                symbol,
                book,
                ctx,
            ).1[i]) is Cancel,
{
    let k = symbol@;
    if quotes.contains_key(k) {
        let q = quotes[k];
        assert forall|i: int| 0 <= i < pair_cancels(q, symbol).len() implies (#[trigger] pair_cancels(q, symbol)[i]) is Cancel by {
        }
    }
}

/// A requote respects the cap on live quotes: when it places any order, the pair's live
/// orders plus the new ones number at most `max_active_orders`; it places at most one bid
/// and one ask, each a limit order of the configured size for the symbol.
pub proof fn law_requote_within_cap(cfg: MarketMakingConfig, q: QuotePair, want_bid: int, want_ask: int, symbol: Symbol)
    ensures
        ({
            let (q2, cmds) = requote(cfg, q, want_bid, want_ask, symbol);
            &&& place_count(cmds) <= 2
            &&& place_count(cmds) > 0 ==> live_orders(q2) + place_count(cmds) <= cfg.max_active_orders
            &&& forall|i: int|
                0 <= i < cmds.len() && (#[trigger] cmds[i]) is PlaceOrder ==> (cmds[i] matches StrategyCommand::PlaceOrder {
                    symbol: s,
                    order_type,
                    qty,
                    ..
                } && s == symbol && order_type == OrderType::Limit && qty == Qty(cfg.quote_size))
        }),
{
    let (q2, cmds) = requote(cfg, q, want_bid, want_ask, symbol);
    reveal_with_fuel(place_count, 5);
    let bid_stale = q.bid_px != Some(PriceTicks(want_bid as i64));
    let c1: Seq<StrategyCommand> = if bid_stale && q.bid_id is Some {
        seq![StrategyCommand::Cancel { order_id: q.bid_id->0, symbol }]
    } else {
        Seq::empty()
    };
    assert(place_count(c1) == 0);
}

impl MarketMakingStrategy {
    /// The quote pairs by symbol.
    pub closed spec fn quotes_view(&self) -> Map<Seq<char>, QuotePair> {
        self.quotes@
    }

    pub closed spec fn spec_config(&self) -> MarketMakingConfig {
        self.config
    }

    pub closed spec fn spec_id(&self) -> StrategyId {
        self.id
    }

    pub fn new(id: StrategyId, config: MarketMakingConfig) -> (r: Self)
        ensures
            r.spec_id() == id,
            r.spec_config() == config,
            r.quotes_view() == Map::<Seq<char>, QuotePair>::empty(),
    {
        MarketMakingStrategy { id, config, quotes: SymbolMap::new() }
    }

    fn mid(book: &BookSnapshot) -> (r: Option<i64>)
        ensures
            match spec_mid(*book) {
                Some(m) => r == Some(m as i64) && i64::MIN <= m <= i64::MAX,
                None => r is None,
            },
    {
        if book.bids.len() > 0 && book.asks.len() > 0 {
            let s: i128 = (book.bids[0].price.0 as i128) + (book.asks[0].price.0 as i128);
            let m: i128 = if s >= 0 { s / 2 } else { -((-s) / 2) };
            Some(m as i64)
        } else if book.bids.len() > 0 {
            Some(book.bids[0].price.0)
        } else if book.asks.len() > 0 {
            Some(book.asks[0].price.0)
        } else {
            None
        }
    }

    fn clamp(x: i128) -> (r: i64)
        ensures
            r == clamp64(x as int),
    {
        if x < i64::MIN as i128 {
            i64::MIN
        } else if x > i64::MAX as i128 {
            i64::MAX
        } else {
            x as i64
        }
    }

    fn desired(&self, mid: i64, inventory: i64) -> (r: (PriceTicks, PriceTicks))
        ensures
            ({
                let (b, a) = spec_desired(self.spec_config(), mid as int, inventory);
                r.0.0 == b && r.1.0 == a
            }),
    {
        proof {
            assert(-0x8000_0000_0000_0000 * 0x8000_0000_0000_0000 <= inventory * self.config.inventory_skew_ticks_per_unit
                <= 0x8000_0000_0000_0000 * 0x8000_0000_0000_0000) by (nonlinear_arith)
                requires
                    -0x8000_0000_0000_0000 <= inventory <= 0x7fff_ffff_ffff_ffff,
                    -0x8000_0000_0000_0000 <= self.config.inventory_skew_ticks_per_unit <= 0x7fff_ffff_ffff_ffff,
            ;
        }
        let skew = Self::clamp((inventory as i128) * (self.config.inventory_skew_ticks_per_unit as i128));
        let b = Self::clamp((mid as i128) - (self.config.half_spread_ticks as i128) - (skew as i128));
        let bid = if b > 1 { b } else { 1 };
        let a = Self::clamp((mid as i128) + (self.config.half_spread_ticks as i128) - (skew as i128));
        let floor = Self::clamp((bid as i128) + 1);
        let ask = if a > floor { a } else { floor };
        (PriceTicks(bid), PriceTicks(ask))
    }

    fn pair_cancels_exec(q: QuotePair, symbol: &Symbol) -> (r: Vec<StrategyCommand>)
        ensures
            r@ == pair_cancels(q, *symbol),
    {
        let mut cmds: Vec<StrategyCommand> = Vec::new();
        match q.bid_id {
            Some(order_id) => cmds.push(StrategyCommand::Cancel { order_id, symbol: symbol.duplicate() }),
            None => {},
        }
        match q.ask_id {
            Some(order_id) => cmds.push(StrategyCommand::Cancel { order_id, symbol: symbol.duplicate() }),
            None => {},
        }
        proof {
            assert(cmds@ =~= pair_cancels(q, *symbol));
        }
        cmds
    }

    /// Forget the symbol's pair and cancel its live orders.
    fn cancel_pair(&mut self, symbol: &Symbol) -> (r: Vec<StrategyCommand>)
        ensures
            final(self).spec_config() == old(self).spec_config(),
            final(self).spec_id() == old(self).spec_id(),
            old(self).quotes_view().contains_key(symbol@) ==> final(self).quotes_view() == old(self).quotes_view().remove(symbol@)
                && r@ == pair_cancels(old(self).quotes_view()[symbol@], *symbol),
            !old(self).quotes_view().contains_key(symbol@) ==> final(self).quotes_view() == old(self).quotes_view() && r@
                == Seq::<StrategyCommand>::empty(),
    {
        match self.quotes.get(symbol) {
            Some(q) => {
                self.quotes.remove(symbol);
                Self::pair_cancels_exec(q, symbol)
            },
            None => Vec::new(),
        }
    }

    fn refresh(&mut self, symbol: &Symbol, book: &BookSnapshot, ctx: &StrategyContext) -> (r: Vec<StrategyCommand>)
        ensures
            final(self).spec_config() == old(self).spec_config(),
            final(self).spec_id() == old(self).spec_id(),
            (final(self).quotes_view(), r@) == refresh_step(old(self).spec_config(), old(self).quotes_view(), *symbol, *book, *ctx),
    {
        if ctx.risk_killed {
            return self.cancel_pair(symbol);
        }
        let mid = match Self::mid(book) {
            Some(m) => m,
            None => return Vec::new(),
        };
        let inv = context_position(ctx, symbol);
        let inv_abs: i64 = if inv == i64::MIN {
            i64::MIN
        } else if inv < 0 {
            -inv
        } else {
            inv
        };
        if inv_abs >= self.config.max_inventory {
            return self.cancel_pair(symbol);
        }
        let (want_bid, want_ask) = self.desired(mid, inv);
        let mut q = match self.quotes.get(symbol) {
            Some(q) => q,
            None => QuotePair { bid_id: None, ask_id: None, bid_px: None, ask_px: None },
        };
        let mut cmds: Vec<StrategyCommand> = Vec::new();
        let bid_stale = match q.bid_px {
            Some(p) => p.0 != want_bid.0,
            None => true,
        };
        if bid_stale {
            match q.bid_id {
                Some(order_id) => cmds.push(StrategyCommand::Cancel { order_id, symbol: symbol.duplicate() }),
                None => {},
            }
            q.bid_id = None;
            q.bid_px = None;
        }
        let ask_stale = match q.ask_px {
            Some(p) => p.0 != want_ask.0,
            None => true,
        };
        if ask_stale {
            match q.ask_id {
                Some(order_id) => cmds.push(StrategyCommand::Cancel { order_id, symbol: symbol.duplicate() }),
                None => {},
            }
            q.ask_id = None;
            q.ask_px = None;
        }
        let mut active: usize = 0;
        if q.bid_id.is_some() {
            active = active + 1;
        }
        if q.ask_id.is_some() {
            active = active + 1;
        }
        if q.bid_id.is_none() && q.bid_px.is_none() && active < self.config.max_active_orders {
            cmds.push(
                StrategyCommand::PlaceOrder {
                    symbol: symbol.duplicate(),
                    side: Side::Buy,
                    order_type: OrderType::Limit,
                    price: Some(want_bid),
                    qty: Qty(self.config.quote_size),
                },
            );
            q.bid_px = Some(want_bid);
            active = active + 1;
        }
        if q.ask_id.is_none() && q.ask_px.is_none() && active < self.config.max_active_orders {
            cmds.push(
                StrategyCommand::PlaceOrder {
                    symbol: symbol.duplicate(),
                    side: Side::Sell,
                    order_type: OrderType::Limit,
                    price: Some(want_ask),
                    qty: Qty(self.config.quote_size),
                },
            );
            q.ask_px = Some(want_ask);
        }
        self.quotes.insert(symbol.0.clone(), q);
        proof {
            let (q4, c4) = requote(self.spec_config(), if old(self).quotes_view().contains_key(symbol@) {
                old(self).quotes_view()[symbol@]
            } else {
                empty_pair()
            }, want_bid.0 as int, want_ask.0 as int, *symbol);
            assert(cmds@ =~= c4);
            assert(q == q4);
        }
        cmds
    }
}

impl Strategy for MarketMakingStrategy {
    closed spec fn spec_strategy_id(&self) -> StrategyId {
        self.spec_id()
    }

    fn id(&self) -> (r: StrategyId)
        ensures
            r == self.spec_id(),
    {
        self.id
    }

    fn name(&self) -> (r: &str)
        ensures
            r@ == "market_making"@,
    {
        "market_making"
    }

    fn on_event(&mut self, event: &StrategyEvent, ctx: &StrategyContext) -> (r: Vec<StrategyCommand>)
        ensures
            final(self).spec_config() == old(self).spec_config(),
            final(self).spec_id() == old(self).spec_id(),
            *event matches StrategyEvent::BookUpdate { symbol, book } ==> (final(self).quotes_view(), r@) == refresh_step(
                old(self).spec_config(),
                old(self).quotes_view(),
                symbol,
                book,
                *ctx,
            ),
            *event is Timer && ctx.book is Some ==> (final(self).quotes_view(), r@) == refresh_step(
                old(self).spec_config(),
                old(self).quotes_view(),
                ctx.book->0.symbol,
                ctx.book->0,
                *ctx,
            ),
            *event is Timer && ctx.book is None ==> r@ == Seq::<StrategyCommand>::empty() && final(self).quotes_view() == old(self).quotes_view(),
            *event is Activated || *event is Trade ==> r@ == Seq::<StrategyCommand>::empty() && final(self).quotes_view()
                == old(self).quotes_view(),
            *event matches StrategyEvent::OrderAccepted { order_id, symbol, side, price, .. } ==> r@ == Seq::<
                StrategyCommand,
            >::empty() && final(self).quotes_view() == old(self).quotes_view().insert(
                symbol@,
                accepted_pair(
                    if old(self).quotes_view().contains_key(symbol@) {
                        old(self).quotes_view()[symbol@]
                    } else {
                        empty_pair()
                    },
                    order_id,
                    side,
                    price,
                ),
            ),
            *event matches StrategyEvent::Fill { order_id, symbol, .. } ==> r@ == Seq::<StrategyCommand>::empty()
                && final(self).quotes_view() == (if old(self).quotes_view().contains_key(symbol@) {
                old(self).quotes_view().insert(symbol@, filled_pair(old(self).quotes_view()[symbol@], order_id))
            } else {
                old(self).quotes_view()
            }),
            *event is RiskRejection || *event is Deactivated ==> {
                &&& final(self).quotes_view().dom() == Set::<Seq<char>>::empty()
                &&& forall|i: int| 0 <= i < r@.len() ==> #[trigger] r@[i] is Cancel
                &&& exists|keys: Seq<Seq<char>>|
                    {
                        &&& forall|a: int, b: int|
                            0 <= a < b < keys.len() ==> crate::keyed::text_lt(#[trigger] keys[a], #[trigger] keys[b])
                        &&& keys.to_set() == old(self).quotes_view().dom()
                        &&& command_targets(r@) == #[trigger] sweep_targets(old(self).quotes_view(), keys)
                    }
            },
    {
        match event {
            StrategyEvent::BookUpdate { symbol, book } => self.refresh(symbol, book, ctx),
            StrategyEvent::Timer { .. } => {
                match &ctx.book {
                    Some(book) => {
                        let symbol = book.symbol.duplicate();
                        self.refresh(&symbol, book, ctx)
                    },
                    None => Vec::new(),
                }
            },
            StrategyEvent::OrderAccepted { order_id, symbol, side, price, .. } => {
                let mut q = match self.quotes.get(symbol) {
                    Some(q) => q,
                    None => QuotePair { bid_id: None, ask_id: None, bid_px: None, ask_px: None },
                };
                match side {
                    Side::Buy => {
                        q.bid_id = Some(*order_id);
                        match price {
                            Some(p) => q.bid_px = Some(*p),
                            None => {},
                        }
                    },
                    Side::Sell => {
                        q.ask_id = Some(*order_id);
                        match price {
                            Some(p) => q.ask_px = Some(*p),
                            None => {},
                        }
                    },
                }
                self.quotes.insert(symbol.0.clone(), q);
                Vec::new()
            },
            StrategyEvent::Fill { order_id, symbol, .. } => {
                match self.quotes.get(symbol) {
                    Some(q0) => {
                        let mut q = q0;
                        if q.bid_id == Some(*order_id) {
                            q.bid_id = None;
                            q.bid_px = None;
                        }
                        if q.ask_id == Some(*order_id) {
                            q.ask_id = None;
                            q.ask_px = None;
                        }
                        self.quotes.insert(symbol.0.clone(), q);
                    },
                    None => {},
                }
                Vec::new()
            },
            StrategyEvent::RiskRejection { .. } | StrategyEvent::Deactivated => {
                let symbols = self.quotes.keys();
                let ghost q0 = self.quotes@;
                let ghost keys = symbols@.map_values(|s: Symbol| s@);
                let mut cmds: Vec<StrategyCommand> = Vec::new();
                let mut i: usize = 0;
                while i < symbols.len()
                    invariant
                        0 <= i <= symbols@.len(),
                        keys == symbols@.map_values(|s: Symbol| s@),
                        q0 == old(self).quotes_view(),
                        self.spec_config() == old(self).spec_config(),
                        self.spec_id() == old(self).spec_id(),
                        forall|j: int| 0 <= j < cmds@.len() ==> #[trigger] cmds@[j] is Cancel,
                        command_targets(cmds@) == sweep_targets(q0, keys.take(i as int)),
                        forall|j: int| i <= j < symbols@.len() ==> self.quotes@.contains_key(#[trigger] symbols@[j]@),
                        forall|k: Seq<char>| #[trigger] self.quotes@.contains_key(k) ==> self.quotes@[k] == q0[k],
                        forall|k: Seq<char>| #[trigger] self.quotes@.contains_key(k) ==> exists|j: int| i <= j < symbols@.len() && symbols@[j]@ == k,
                        forall|a: int, b: int| 0 <= a < b < symbols@.len() ==> crate::keyed::text_lt(#[trigger] symbols@[a]@, #[trigger] symbols@[b]@),
                    decreases symbols@.len() - i,
                {
                    let ghost before = self.quotes@;
                    let ghost c0 = cmds@;
                    let mut more = self.cancel_pair(&symbols[i]);
                    proof {
                        assert forall|j: int| i + 1 <= j < symbols@.len() implies self.quotes@.contains_key(#[trigger] symbols@[j]@) by {
                            assert(crate::keyed::text_lt(symbols@[i as int]@, symbols@[j]@));
                            crate::keyed::lemma_text_lt_irreflexive(symbols@[j]@);
                        }
                        assert forall|k: Seq<char>| #[trigger] self.quotes@.contains_key(k) implies exists|j: int| i + 1 <= j < symbols@.len() && symbols@[j]@ == k by {
                            let j = choose|j: int| i <= j < symbols@.len() && symbols@[j]@ == k;
                            assert(j != i);
                        }
                        let t = keys.take(i + 1);
                        assert(t.drop_last() =~= keys.take(i as int));
                        assert(t.last() == symbols@[i as int]@);
                        assert(before[symbols@[i as int]@] == q0[symbols@[i as int]@]);
                    }
                    let ghost m0 = more@;
                    cmds.append(&mut more);
                    proof {
                        assert(command_targets(cmds@) =~= sweep_targets(q0, keys.take(i + 1)));
                        assert forall|j: int| 0 <= j < cmds@.len() implies #[trigger] cmds@[j] is Cancel by {
                            if j >= c0.len() {
                                assert(cmds@[j] == m0[j - c0.len()]);
                            } else {
                                assert(cmds@[j] == c0[j]);
                            }
                        }
                    }
                    i = i + 1;
                }
                proof {
                    assert(self.quotes@.dom() =~= Set::<Seq<char>>::empty()) by {
                        assert forall|k: Seq<char>| !self.quotes@.dom().contains(k) by {
                            if self.quotes@.contains_key(k) {
                                let j = choose|j: int| i <= j < symbols@.len() && symbols@[j]@ == k;
                            }
                        }
                    }
                    assert(keys.take(i as int) =~= keys);
                    assert forall|a: int, b: int| 0 <= a < b < keys.len() implies crate::keyed::text_lt(
                        #[trigger] keys[a],
                        #[trigger] keys[b],
                    ) by {
                        assert(crate::keyed::text_lt(symbols@[a]@, symbols@[b]@));
                    }
                    assert(keys.to_set() =~= q0.dom()) by {
                        assert forall|k: Seq<char>| #[trigger] keys.to_set().contains(k) implies q0.contains_key(k) by {
                            let j = choose|j: int| 0 <= j < keys.len() && keys[j] == k;
                            assert(q0.contains_key(symbols@[j]@));
                        }
                        assert forall|k: Seq<char>| #[trigger] q0.contains_key(k) implies keys.to_set().contains(k) by {
                            let j = choose|j: int| 0 <= j < symbols@.len() && symbols@[j]@ == k;
                            assert(keys[j] == k);
                        }
                    }
                    assert(command_targets(cmds@) == sweep_targets(q0, keys));
                }
                cmds
            },
            StrategyEvent::Activated | StrategyEvent::Trade { .. } => Vec::new(),
        }
    }
}

} // verus!
