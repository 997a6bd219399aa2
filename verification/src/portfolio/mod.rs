//! Portfolio accounting with average-cost positions and integer P&L.
//!
//! Prices and quantities are integer ticks and units. Cash, notional and P&L are `i128`
//! amounts; every step that can leave that range is checked. Positions are kept in
//! ascending symbol order, so iteration and snapshots are deterministic.
use vstd::prelude::*;

use crate::events::Trade;
use crate::types::{PriceTicks, Qty, Side, Symbol};

use crate::keyed::{self, get_value, keyed_map, lemma_keyed_map_at, put_value, remove_value, sorted_entries, Keyed};

verus! {

broadcast use vstd::seq_lib::group_seq_properties;

/// Signed position quantity (positive = long, negative = short).
pub type PositionQty = i64;

/// Cash, notional and P&L amounts in tick-notional units (`price * qty`).
pub type Money = i128;

#[derive(Debug, Clone, PartialEq, Eq)]
pub enum PortfolioError {
    Overflow,
    InvalidQuantity,
    InvalidPrice,
    MissingMark(Symbol),
}

/// Per-symbol average-cost position.
#[derive(Debug, Clone, Copy, PartialEq, Eq, Structural)]
pub struct Position {
    /// Signed quantity: positive long, negative short.
    pub qty: PositionQty,
    /// Average entry price in ticks (non-negative).
    pub avg_cost: PriceTicks,
}

/// Read-only view of one position for external output.
#[derive(Debug, Clone, PartialEq, Eq)]
pub struct PositionSnapshot {
    pub symbol: Symbol,
    pub qty: PositionQty,
    pub avg_cost: PriceTicks,
    pub mark: Option<PriceTicks>,
    pub unrealized_pnl: Money,
    pub market_value: Money,
}

/// Portfolio snapshot with positions in ascending symbol order.
#[derive(Debug, Clone, PartialEq, Eq)]
pub struct PortfolioSnapshot {
    pub cash: Money,
    pub realized_pnl: Money,
    pub unrealized_pnl: Money,
    pub equity: Money,
    pub positions: Vec<PositionSnapshot>,
}

/// Why a snapshot of `p` fails, if it does: unrealized P&L first, then equity.
pub open spec fn snapshot_failure(p: Portfolio) -> Option<PortfolioError> {
    match sum_unrealized(p.position_entries(), p@.marks) {
        Err(e) => Some(e),
        Ok(_) => match sum_equity(p@.cash, p.position_entries(), p@.marks) {
            Err(e) => Some(e),
            Ok(_) => None,
        },
    }
}

/// `snap` is the snapshot of `p`: cash, realized and unrealized P&L, equity (which is cash
/// plus the market values), and one line per position in ascending symbol order.
pub open spec fn is_snapshot_of(p: Portfolio, snap: PortfolioSnapshot) -> bool {
    &&& sum_unrealized(p.position_entries(), p@.marks) matches Ok(u) && snap.unrealized_pnl == u
    &&& sum_equity(p@.cash, p.position_entries(), p@.marks) matches Ok(eq) && snap.equity == eq
    &&& snap.cash == p@.cash
    &&& snap.realized_pnl == p@.realized_pnl
    &&& snap.equity == snap.cash + sum_market_values(snap.positions@)
    &&& snap.positions@.len() == p.position_entries().len()
    &&& forall|i: int|
        0 <= i < snap.positions@.len() ==> #[trigger] snap.positions@[i] == position_line(
            p.position_entries()[i],
            p@.marks[p.position_entries()[i].symbol@],
        )
}

/// Portfolio state: cash, per-symbol positions, marks, and cumulative realized P&L.
#[derive(Debug, Clone, PartialEq, Eq)]
pub struct Portfolio {
    cash: Money,
    realized_pnl: Money,
    positions: Vec<Keyed<Position>>,
    marks: Vec<Keyed<PriceTicks>>,
}

/// The portfolio as values.
pub struct PortfolioView {
    pub cash: int,
    pub realized_pnl: int,
    pub positions: Map<Seq<char>, Position>,
    pub marks: Map<Seq<char>, PriceTicks>,
}

pub open spec fn in_money(x: int) -> bool {
    i128::MIN <= x <= i128::MAX
}

pub open spec fn abs(x: int) -> int {
    if x < 0 {
        -x
    } else {
        x
    }
}

/// Signed quantity change of a fill on `side`.
pub open spec fn signed_delta(side: Side, qty: u64) -> int {
    match side {
        Side::Buy => qty as int,
        Side::Sell => -(qty as int),
    }
}

/// Weighted average of two entry prices by absolute quantities, rounded down.
pub open spec fn weighted_avg(q1: int, p1: int, q2: int, p2: int) -> int {
    (abs(q1) * p1 + abs(q2) * p2) / (abs(q1) + abs(q2))
}

/// P&L realized by closing `close` units of a position of sign `old_qty` entered at `entry`.
pub open spec fn realized_on_close(old_qty: int, entry: int, exit: int, close: int) -> int {
    if old_qty > 0 {
        (exit - entry) * close
    } else {
        (entry - exit) * close
    }
}

/// A position after a signed change `delta` at `price`, and the P&L that realizes:
/// opening or adding averages the entry price; reducing keeps it and realizes P&L on the
/// closed units; crossing through zero opens the remainder at `price`. `None` when the new
/// quantity leaves `i64`.
pub open spec fn position_after(pos: Position, delta: int, price: int) -> Option<(Position, int)> {
    let old = pos.qty as int;
    let new_qty = old + delta;
    if old == 0 {
        Some((Position { qty: delta as i64, avg_cost: PriceTicks(price as i64) }, 0))
    } else if !(i64::MIN <= new_qty <= i64::MAX) {
        None
    } else if (old > 0) == (delta > 0) {
        Some(
            (
                Position {
                    qty: new_qty as i64,
                    avg_cost: PriceTicks(weighted_avg(old, pos.avg_cost.0 as int, delta, price) as i64),
                },
                0,
            ),
        )
    } else {
        let close = if abs(old) < abs(delta) { abs(old) } else { abs(delta) };
        let realized = realized_on_close(old, pos.avg_cost.0 as int, price, close);
        if new_qty == 0 {
            Some((Position { qty: 0, avg_cost: PriceTicks(0) }, realized))
        } else if (new_qty > 0) == (old > 0) {
            Some((Position { qty: new_qty as i64, avg_cost: pos.avg_cost }, realized))
        } else {
            Some((Position { qty: new_qty as i64, avg_cost: PriceTicks(price as i64) }, realized))
        }
    }
}

/// Outcome of a fill: validation, the cash change, then the position change and realized
/// P&L. The cash change is kept when a later step overflows.
pub open spec fn fill_outcome(v: PortfolioView, symbol: Seq<char>, side: Side, price: i64, qty: u64) -> (
    PortfolioView,
    Result<(), PortfolioError>,
) {
    if qty == 0 {
        (v, Err(PortfolioError::InvalidQuantity))
    } else if price < 0 {
        (v, Err(PortfolioError::InvalidPrice))
    } else if qty > i64::MAX {
        (v, Err(PortfolioError::Overflow))
    } else {
        let notional = price * qty;
        let cash1 = match side {
            Side::Buy => v.cash - notional,
            Side::Sell => v.cash + notional,
        };
        if !in_money(cash1) {
            (v, Err(PortfolioError::Overflow))
        } else {
            let v1 = PortfolioView { cash: cash1, ..v };
            let cur = if v.positions.contains_key(symbol) {
                v.positions[symbol]
            } else {
                Position { qty: 0, avg_cost: PriceTicks(0) }
            };
            match position_after(cur, signed_delta(side, qty), price as int) {
                None => (v1, Err(PortfolioError::Overflow)),
                Some((np, realized)) => {
                    let r1 = v.realized_pnl + realized;
                    if !in_money(r1) {
                        (v1, Err(PortfolioError::Overflow))
                    } else {
                        (
                            PortfolioView {
                                cash: cash1,
                                realized_pnl: r1,
                                positions: if np.qty == 0 {
                                    v.positions.remove(symbol)
                                } else {
                                    v.positions.insert(symbol, np)
                                },
                                marks: v.marks.insert(symbol, PriceTicks(price)),
                            },
                            Ok(()),
                        )
                    }
                },
            }
        }
    }
}

/// Unrealized P&L of a position at `mark`.
pub open spec fn unrealized_of(pos: Position, mark: i64) -> int {
    (mark - pos.avg_cost.0) * pos.qty
}

/// Running total of unrealized P&L over positions in order; the first missing mark or
/// overflow of the total stops it.
pub open spec fn sum_unrealized(ps: Seq<Keyed<Position>>, marks: Map<Seq<char>, PriceTicks>) -> Result<
    int,
    PortfolioError,
>
    decreases ps.len(),
{
    if ps.len() == 0 {
        Ok(0)
    } else {
        match sum_unrealized(ps.drop_last(), marks) {
            Err(e) => Err(e),
            Ok(t) => {
                let e = ps.last();
                if !marks.contains_key(e.symbol@) {
                    Err(PortfolioError::MissingMark(e.symbol))
                } else {
                    let t2 = t + unrealized_of(e.value, marks[e.symbol@].0);
                    if in_money(t2) {
                        Ok(t2)
                    } else {
                        Err(PortfolioError::Overflow)
                    }
                }
            },
        }
    }
}

/// Running equity: cash plus each position's market value (quantity times mark).
pub open spec fn sum_equity(cash: int, ps: Seq<Keyed<Position>>, marks: Map<Seq<char>, PriceTicks>) -> Result<
    int,
    PortfolioError,
>
    decreases ps.len(),
{
    if ps.len() == 0 {
        Ok(cash)
    } else {
        match sum_equity(cash, ps.drop_last(), marks) {
            Err(e) => Err(e),
            Ok(t) => {
                let e = ps.last();
                if !marks.contains_key(e.symbol@) {
                    Err(PortfolioError::MissingMark(e.symbol))
                } else {
                    let t2 = t + e.value.qty * marks[e.symbol@].0;
                    if in_money(t2) {
                        Ok(t2)
                    } else {
                        Err(PortfolioError::Overflow)
                    }
                }
            },
        }
    }
}

/// Every held symbol has a mark.
pub open spec fn marked_positions(v: PortfolioView) -> bool {
    forall|s: Seq<char>| #[trigger] v.positions.contains_key(s) ==> v.marks.contains_key(s)
}

/// Fills keep every held symbol marked: a fill that succeeds marks its symbol at the fill
/// price, one that fails leaves positions and marks as they were.
pub proof fn law_fill_keeps_marks(v: PortfolioView, symbol: Seq<char>, side: Side, price: i64, qty: u64)
    requires
        marked_positions(v),
    ensures
        marked_positions(fill_outcome(v, symbol, side, price, qty).0),
        fill_outcome(v, symbol, side, price, qty).1 is Ok ==> fill_outcome(v, symbol, side, price, qty).0.marks
            == v.marks.insert(symbol, PriceTicks(price)),
{
}

/// A change to a portfolio: a fill, or a mark.
pub enum PortfolioOp {
    Fill { symbol: Symbol, side: Side, price: PriceTicks, qty: Qty },
    Mark { symbol: Symbol, price: PriceTicks },
}

/// A portfolio with the given cash and nothing else.
pub open spec fn fresh_view(cash: int) -> PortfolioView {
    PortfolioView { cash, realized_pnl: 0, positions: Map::empty(), marks: Map::empty() }
}

/// A portfolio after the changes, in order, as `apply_fill` and `set_mark` make them.
pub open spec fn portfolio_run(v: PortfolioView, ops: Seq<PortfolioOp>) -> PortfolioView
    decreases ops.len(),
{
    if ops.len() == 0 {
        v
    } else {
        let w = portfolio_run(v, ops.drop_last());
        match ops.last() {
            PortfolioOp::Fill { symbol, side, price, qty } => fill_outcome(w, symbol@, side, price.0, qty.0).0,
            PortfolioOp::Mark { symbol, price } => if price.0 < 0 {
                w
            } else {
                PortfolioView { marks: w.marks.insert(symbol@, price), ..w }
            },
        }
    }
}

/// Fills and marks keep every held symbol marked.
proof fn lemma_run_keeps_marks(v: PortfolioView, ops: Seq<PortfolioOp>)
    requires
        marked_positions(v),
    ensures
        marked_positions(portfolio_run(v, ops)),
    decreases ops.len(),
{
    if ops.len() > 0 {
        lemma_run_keeps_marks(v, ops.drop_last());
        let w = portfolio_run(v, ops.drop_last());
        match ops.last() {
            PortfolioOp::Fill { symbol, side, price, qty } => law_fill_keeps_marks(w, symbol@, side, price.0, qty.0),
            PortfolioOp::Mark { symbol, price } => {},
        }
    }
}

/// With a mark for every entry, the running totals can fail only by overflow.
proof fn lemma_sums_only_overflow(cash: int, ps: Seq<Keyed<Position>>, marks: Map<Seq<char>, PriceTicks>)
    requires
        forall|i: int| 0 <= i < ps.len() ==> marks.contains_key((#[trigger] ps[i]).symbol@),
    ensures
        sum_equity(cash, ps, marks) is Err ==> sum_equity(cash, ps, marks)->Err_0 == PortfolioError::Overflow,
        sum_unrealized(ps, marks) is Err ==> sum_unrealized(ps, marks)->Err_0 == PortfolioError::Overflow,
    decreases ps.len(),
{
    if ps.len() > 0 {
        let p1 = ps.drop_last();
        assert forall|i: int| 0 <= i < p1.len() implies marks.contains_key((#[trigger] p1[i]).symbol@) by {
            assert(p1[i] == ps[i]);
        }
        lemma_sums_only_overflow(cash, p1, marks);
        assert(marks.contains_key(ps[ps.len() - 1].symbol@));
    }
}

/// The running equity depends only on the entries' key texts and values.
proof fn lemma_sum_equity_agree(
    cash: int,
    a: Seq<Keyed<Position>>,
    b: Seq<Keyed<Position>>,
    marks: Map<Seq<char>, PriceTicks>,
)
    requires
        a.len() == b.len(),
        forall|i: int| 0 <= i < a.len() ==> (#[trigger] a[i]).symbol@ == b[i].symbol@ && a[i].value == b[i].value,
    ensures
        (sum_equity(cash, a, marks) is Ok) == (sum_equity(cash, b, marks) is Ok),
        sum_equity(cash, a, marks) is Ok ==> sum_equity(cash, a, marks)->Ok_0 == sum_equity(cash, b, marks)->Ok_0,
    decreases a.len(),
{
    if a.len() > 0 {
        let a1 = a.drop_last();
        let b1 = b.drop_last();
        assert forall|i: int| 0 <= i < a1.len() implies (#[trigger] a1[i]).symbol@ == b1[i].symbol@ && a1[i].value
            == b1[i].value by {
            assert(a1[i] == a[i] && b1[i] == b[i]);
        }
        lemma_sum_equity_agree(cash, a1, b1, marks);
        assert(a.last() == a[a.len() - 1]);
    }
}

/// Once the running total stops with an error, the whole total stops with it.
pub proof fn lemma_sum_unrealized_stops(ps: Seq<Keyed<Position>>, marks: Map<Seq<char>, PriceTicks>, n: int)
    requires
        0 <= n <= ps.len(),
        sum_unrealized(ps.take(n), marks) is Err,
    ensures
        sum_unrealized(ps, marks) == sum_unrealized(ps.take(n), marks),
    decreases ps.len() - n,
{
    if n < ps.len() {
        assert(ps.take(n + 1).drop_last() =~= ps.take(n));
        lemma_sum_unrealized_stops(ps, marks, n + 1);
    } else {
        assert(ps.take(n) =~= ps);
    }
}

/// Once the running equity stops with an error, the whole sum stops with it.
pub proof fn lemma_sum_equity_stops(cash: int, ps: Seq<Keyed<Position>>, marks: Map<Seq<char>, PriceTicks>, n: int)
    requires
        0 <= n <= ps.len(),
        sum_equity(cash, ps.take(n), marks) is Err,
    ensures
        sum_equity(cash, ps, marks) == sum_equity(cash, ps.take(n), marks),
    decreases ps.len() - n,
{
    if n < ps.len() {
        assert(ps.take(n + 1).drop_last() =~= ps.take(n));
        lemma_sum_equity_stops(cash, ps, marks, n + 1);
    } else {
        assert(ps.take(n) =~= ps);
    }
}

/// Sum of market values over snapshot lines.
pub open spec fn sum_market_values(lines: Seq<PositionSnapshot>) -> int
    decreases lines.len(),
{
    if lines.len() == 0 {
        0
    } else {
        sum_market_values(lines.drop_last()) + lines.last().market_value
    }
}

/// A fill in one symbol leaves every other symbol's position and mark as they were.
pub proof fn law_fill_isolated(v: PortfolioView, symbol: Seq<char>, side: Side, price: i64, qty: u64, other: Seq<char>)
    requires
        other != symbol,
    ensures
        ({
            let v2 = fill_outcome(v, symbol, side, price, qty).0;
            &&& v2.positions.contains_key(other) == v.positions.contains_key(other)
            &&& v.positions.contains_key(other) ==> v2.positions[other] == v.positions[other]
            &&& v2.marks.contains_key(other) == v.marks.contains_key(other)
            &&& v.marks.contains_key(other) ==> v2.marks[other] == v.marks[other]
        }),
{
}

/// Buying into a flat symbol and selling the same quantity at the same price restores cash
/// and realized P&L and leaves the symbol flat.
pub proof fn law_round_trip(v: PortfolioView, symbol: Seq<char>, price: i64, qty: u64)
    requires
        !v.positions.contains_key(symbol),
        qty > 0,
        qty <= i64::MAX,
        price >= 0,
        in_money(v.cash - price * qty),
        in_money(v.cash),
        in_money(v.realized_pnl),
    ensures
        ({
            let (v1, r1) = fill_outcome(v, symbol, Side::Buy, price, qty);
            let (v2, r2) = fill_outcome(v1, symbol, Side::Sell, price, qty);
            &&& r1 is Ok
            &&& r2 is Ok
            &&& v2.cash == v.cash
            &&& v2.realized_pnl == v.realized_pnl
            &&& !v2.positions.contains_key(symbol)
        }),
{
    let (v1, r1) = fill_outcome(v, symbol, Side::Buy, price, qty);
    assert(v1.positions[symbol] == Position { qty: qty as i64, avg_cost: PriceTicks(price) });
    assert((price - price) * (qty as int) == 0);
}

/// Closing part of a long realizes the exit-minus-entry difference on the closed units and
/// keeps the entry price of the rest.
pub proof fn law_partial_close_long(pos: Position, price: int, qty: int)
    requires
        pos.qty > 0,
        0 < qty < pos.qty,
    ensures
        position_after(pos, -qty, price) == Some(
            (Position { qty: (pos.qty - qty) as i64, avg_cost: pos.avg_cost }, (price - pos.avg_cost.0) * qty),
        ),
{
}

/// The snapshot line for one position.
pub open spec fn position_line(e: Keyed<Position>, mark: PriceTicks) -> PositionSnapshot {
    PositionSnapshot {
        symbol: e.symbol,
        qty: e.value.qty,
        avg_cost: e.value.avg_cost,
        mark: Some(mark),
        unrealized_pnl: unrealized_of(e.value, mark.0) as i128,
        market_value: (e.value.qty * mark.0) as i128,
    }
}

impl View for Portfolio {
    type V = PortfolioView;

    closed spec fn view(&self) -> PortfolioView {
        PortfolioView {
            cash: self.cash as int,
            realized_pnl: self.realized_pnl as int,
            positions: keyed_map(self.positions@),
            marks: keyed_map(self.marks@),
        }
    }
}

impl Portfolio {
    /// Positions are in strictly ascending symbol order, none is flat, and entry prices and
    /// marks are non-negative.
    pub closed spec fn wf(&self) -> bool {
        &&& sorted_entries(self.positions@)
        &&& sorted_entries(self.marks@)
        &&& forall|i: int|
            0 <= i < self.positions@.len() ==> (#[trigger] self.positions@[i]).value.qty != 0
                && self.positions@[i].value.avg_cost.0 >= 0
        &&& forall|i: int| 0 <= i < self.marks@.len() ==> (#[trigger] self.marks@[i]).value.0 >= 0
    }

    /// Positions in ascending symbol order.
    pub closed spec fn position_entries(&self) -> Seq<Keyed<Position>> {
        self.positions@
    }

    /// Equity is a function of the portfolio's contents: two well-formed portfolios with the
    /// same view agree on whether their running equity succeeds and on its value.
    pub proof fn lemma_equity_by_view(&self, other: &Portfolio)
        requires
            self.wf(),
            other.wf(),
            self@ == other@,
        ensures
            (sum_equity(self@.cash, self.position_entries(), self@.marks) is Ok) == (sum_equity(
                other@.cash,
                other.position_entries(),
                other@.marks,
            ) is Ok),
            sum_equity(self@.cash, self.position_entries(), self@.marks) is Ok ==> sum_equity(
                self@.cash,
                self.position_entries(),
                self@.marks,
            )->Ok_0 == sum_equity(other@.cash, other.position_entries(), other@.marks)->Ok_0,
    {
        keyed::lemma_sorted_entries_determined(self.positions@, other.positions@);
        lemma_sum_equity_agree(self@.cash, self.positions@, other.positions@, self@.marks);
    }

    /// The ordered entries are exactly the position map.
    pub proof fn lemma_entries(&self)
        requires
            self.wf(),
        ensures
            sorted_entries(self.position_entries()),
            keyed_map(self.position_entries()) == self@.positions,
            forall|i: int|
                0 <= i < self.position_entries().len() ==> (#[trigger] self.position_entries()[i]).value.qty != 0
                    && self.position_entries()[i].value.avg_cost.0 >= 0,
    {
    }

    /// Every held position is open (nonzero quantity) at a non-negative average cost, and
    /// every mark is non-negative.
    pub proof fn lemma_positions_open(&self)
        requires
            self.wf(),
        ensures
            forall|s: Seq<char>|
                #[trigger] self@.positions.contains_key(s) ==> self@.positions[s].qty != 0
                    && self@.positions[s].avg_cost.0 >= 0,
            forall|s: Seq<char>| #[trigger] self@.marks.contains_key(s) ==> self@.marks[s].0 >= 0,
    {
        assert forall|s: Seq<char>| #[trigger] self@.positions.contains_key(s) implies self@.positions[s].qty != 0
            && self@.positions[s].avg_cost.0 >= 0 by {
            let i = choose|i: int| 0 <= i < self.positions@.len() && self.positions@[i].symbol@ == s;
            lemma_keyed_map_at(self.positions@, i);
        }
        assert forall|s: Seq<char>| #[trigger] self@.marks.contains_key(s) implies self@.marks[s].0 >= 0 by {
            let i = choose|i: int| 0 <= i < self.marks@.len() && self.marks@[i].symbol@ == s;
            lemma_keyed_map_at(self.marks@, i);
        }
    }

    /// When every held symbol has a mark, valuing the portfolio can fail only by overflow:
    /// its equity is then the cash plus each position's quantity times its mark.
    pub proof fn law_marked_portfolio_values(&self)
        requires
            self.wf(),
            marked_positions(self@),
        ensures
            sum_equity(self@.cash, self.position_entries(), self@.marks) is Err ==> sum_equity(
                self@.cash,
                self.position_entries(),
                self@.marks,
            )->Err_0 == PortfolioError::Overflow,
            sum_unrealized(self.position_entries(), self@.marks) is Err ==> sum_unrealized(
                self.position_entries(),
                self@.marks,
            )->Err_0 == PortfolioError::Overflow,
            snapshot_failure(*self) is Some ==> snapshot_failure(*self) == Some(PortfolioError::Overflow),
    {
        let ps = self.positions@;
        assert forall|i: int| 0 <= i < ps.len() implies self@.marks.contains_key((#[trigger] ps[i]).symbol@) by {
            lemma_keyed_map_at(ps, i);
            assert(self@.positions == keyed_map(ps));
            assert(self@.positions.contains_key(ps[i].symbol@));
        }
        lemma_sums_only_overflow(self@.cash, ps, self@.marks);
    }


    /// A portfolio built from a fresh one by fills and marks holds only marked symbols, so
    /// its equity, unrealized P&L and snapshot fail only by overflow; its equity is then the
    /// cash plus each position's quantity times its mark.
    pub proof fn law_built_portfolio_values(&self, cash: Money, ops: Seq<PortfolioOp>)
        requires
            self.wf(),
            self@ == portfolio_run(fresh_view(cash as int), ops),
        ensures
            marked_positions(self@),
            sum_equity(self@.cash, self.position_entries(), self@.marks) is Err ==> sum_equity(
                self@.cash,
                self.position_entries(),
                self@.marks,
            )->Err_0 == PortfolioError::Overflow,
            sum_unrealized(self.position_entries(), self@.marks) is Err ==> sum_unrealized(
                self.position_entries(),
                self@.marks,
            )->Err_0 == PortfolioError::Overflow,
            snapshot_failure(*self) is Some ==> snapshot_failure(*self) == Some(PortfolioError::Overflow),
    {
        lemma_run_keeps_marks(fresh_view(cash as int), ops);
        self.law_marked_portfolio_values();
    }

    /// A portfolio with the given starting cash and no positions.
    pub fn new(starting_cash: Money) -> (r: Self)
        ensures
            r.wf(),
            r@.cash == starting_cash,
            r@.realized_pnl == 0,
            r@.positions == Map::<Seq<char>, Position>::empty(),
            r@.marks == Map::<Seq<char>, PriceTicks>::empty(),
    {
        let r = Portfolio { cash: starting_cash, realized_pnl: 0, positions: Vec::new(), marks: Vec::new() };
        proof {
            assert(keyed_map(r.positions@) =~= Map::<Seq<char>, Position>::empty());
            assert(keyed_map(r.marks@) =~= Map::<Seq<char>, PriceTicks>::empty());
        }
        r
    }

    pub fn cash(&self) -> (r: Money)
        ensures
            r == self@.cash,
    {
        self.cash
    }

    pub fn realized_pnl(&self) -> (r: Money)
        ensures
            r == self@.realized_pnl,
    {
        self.realized_pnl
    }

    /// Signed quantity held in `symbol`, zero when flat.
    pub fn position_qty(&self, symbol: &Symbol) -> (r: PositionQty)
        requires
            self.wf(),
        ensures
            r == (if self@.positions.contains_key(symbol@) {
                self@.positions[symbol@].qty
            } else {
                0
            }),
    {
        match get_value(&self.positions, symbol) {
            Some(p) => p.qty,
            None => 0,
        }
    }

    /// The open position in `symbol`, if any.
    pub fn position(&self, symbol: &Symbol) -> (r: Option<&Position>)
        requires
            self.wf(),
        ensures
            match r {
                Some(p) => self@.positions.contains_key(symbol@) && *p == self@.positions[symbol@],
                None => !self@.positions.contains_key(symbol@),
            },
    {
        let (i, found) = keyed::find_key(&self.positions, symbol);
        if found {
            proof {
                lemma_keyed_map_at(self.positions@, i as int);
            }
            Some(&self.positions[i].value)
        } else {
            None
        }
    }

    /// The mark price of `symbol`, if one was set.
    pub fn mark(&self, symbol: &Symbol) -> (r: Option<PriceTicks>)
        requires
            self.wf(),
        ensures
            r == (if self@.marks.contains_key(symbol@) {
                Some(self@.marks[symbol@])
            } else {
                None
            }),
    {
        get_value(&self.marks, symbol)
    }

    /// Set the mark price used for unrealized P&L and equity; a negative price is refused.
    pub fn set_mark(&mut self, symbol: &Symbol, price: PriceTicks) -> (r: Result<(), PortfolioError>)
        requires
            old(self).wf(),
        ensures
            final(self).wf(),
            price.0 < 0 ==> r == Err::<(), PortfolioError>(PortfolioError::InvalidPrice) && final(self)@ == old(self)@,
            price.0 >= 0 ==> r is Ok && final(self)@ == (PortfolioView {
                marks: old(self)@.marks.insert(symbol@, price),
                ..old(self)@
            }),
    {
        if price.0 < 0 {
            return Err(PortfolioError::InvalidPrice);
        }
        let ghost m0 = self.marks@;
        put_value(&mut self.marks, symbol, price);
        proof {
            self.lemma_marks_nonneg_after_put(m0, symbol@, price);
        }
        Ok(())
    }

    proof fn lemma_marks_nonneg_after_put(&self, m0: Seq<Keyed<PriceTicks>>, k: Seq<char>, price: PriceTicks)
        requires
            sorted_entries(self.marks@),
            forall|i: int| 0 <= i < m0.len() ==> (#[trigger] m0[i]).value.0 >= 0,
            sorted_entries(m0),
            keyed_map(self.marks@) == keyed_map(m0).insert(k, price),
            price.0 >= 0,
        ensures
            forall|i: int| 0 <= i < self.marks@.len() ==> (#[trigger] self.marks@[i]).value.0 >= 0,
    {
        assert forall|i: int| 0 <= i < self.marks@.len() implies (#[trigger] self.marks@[i]).value.0 >= 0 by {
            lemma_keyed_map_at(self.marks@, i);
            let k2 = self.marks@[i].symbol@;
            if k2 != k {
                let j = keyed::key_index(m0, k2);
                lemma_keyed_map_at(m0, j);
            }
        }
    }

    /// Apply a fill for this portfolio's side of a trade: a buy adds to (or covers) the
    /// position, a sell reduces it (or opens a short). Cash moves by the notional; the
    /// fill price becomes the symbol's mark.
    pub fn apply_fill(&mut self, symbol: &Symbol, side: Side, price: PriceTicks, qty: Qty) -> (r: Result<(), PortfolioError>)
        requires
            old(self).wf(),
        ensures
            final(self).wf(),
            (final(self)@, r) == fill_outcome(old(self)@, symbol@, side, price.0, qty.0),
    {
        if qty.0 == 0 {
            return Err(PortfolioError::InvalidQuantity);
        }
        if price.0 < 0 {
            return Err(PortfolioError::InvalidPrice);
        }
        if qty.0 > i64::MAX as u64 {
            return Err(PortfolioError::Overflow);
        }
        let fill_qty = qty.0 as i64;
        let signed_delta: i64 = match side {
            Side::Buy => fill_qty,
            Side::Sell => -fill_qty,
        };
        proof {
            lemma_notional_bound(price.0, qty.0);
        }
        let notional: i128 = (price.0 as i128) * (qty.0 as i128);
        let cash = match side {
            Side::Buy => self.cash.checked_sub(notional),
            Side::Sell => self.cash.checked_add(notional),
        };
        let cash = match cash {
            Some(c) => c,
            None => return Err(PortfolioError::Overflow),
        };
        self.cash = cash;
        let current = get_value(&self.positions, symbol);
        let (new_position, realized_delta) = match current {
            None => (Position { qty: signed_delta, avg_cost: price }, 0i128),
            Some(pos) => {
                proof {
                    let i = keyed::key_index(self.positions@, symbol@);
                    lemma_keyed_map_at(self.positions@, i);
                }
                match apply_position_delta(pos, signed_delta, price) {
                    Some(x) => x,
                    None => return Err(PortfolioError::Overflow),
                }
            },
        };
        let realized = match self.realized_pnl.checked_add(realized_delta) {
            Some(x) => x,
            None => return Err(PortfolioError::Overflow),
        };
        self.realized_pnl = realized;
        let ghost p0 = self.positions@;
        if new_position.qty == 0 {
            remove_value(&mut self.positions, symbol);
        } else {
            put_value(&mut self.positions, symbol, new_position);
        }
        let ghost m0 = self.marks@;
        put_value(&mut self.marks, symbol, price);
        proof {
            self.lemma_marks_nonneg_after_put(m0, symbol@, price);
            self.lemma_positions_ok_after(p0, symbol@, new_position);
        }
        Ok(())
    }

    proof fn lemma_positions_ok_after(&self, p0: Seq<Keyed<Position>>, k: Seq<char>, np: Position)
        requires
            sorted_entries(self.positions@),
            sorted_entries(p0),
            forall|i: int| 0 <= i < p0.len() ==> (#[trigger] p0[i]).value.qty != 0 && p0[i].value.avg_cost.0 >= 0,
            np.avg_cost.0 >= 0,
            np.qty == 0 ==> keyed_map(self.positions@) == keyed_map(p0).remove(k),
            np.qty != 0 ==> keyed_map(self.positions@) == keyed_map(p0).insert(k, np),
        ensures
            forall|i: int|
                0 <= i < self.positions@.len() ==> (#[trigger] self.positions@[i]).value.qty != 0
                    && self.positions@[i].value.avg_cost.0 >= 0,
    {
        assert forall|i: int| 0 <= i < self.positions@.len() implies (#[trigger] self.positions@[i]).value.qty != 0
            && self.positions@[i].value.avg_cost.0 >= 0 by {
            lemma_keyed_map_at(self.positions@, i);
            let k2 = self.positions@[i].symbol@;
            if k2 != k {
                let j = keyed::key_index(p0, k2);
                lemma_keyed_map_at(p0, j);
            }
        }
    }

    /// Apply a trade as the given side (buyer or seller).
    pub fn apply_trade_as(&mut self, trade: &Trade, as_side: Side) -> (r: Result<(), PortfolioError>)
        requires
            old(self).wf(),
        ensures
            final(self).wf(),
            (final(self)@, r) == fill_outcome(old(self)@, trade.symbol@, as_side, trade.price.0, trade.qty.0),
    {
        self.apply_fill(&trade.symbol, as_side, trade.price, trade.qty)
    }

    /// Total unrealized P&L across positions at current marks.
    pub fn unrealized_pnl(&self) -> (r: Result<Money, PortfolioError>)
        requires
            self.wf(),
        ensures
            match sum_unrealized(self.position_entries(), self@.marks) {
                Ok(t) => r == Ok::<Money, PortfolioError>(t as i128) && in_money(t),
                Err(e) => r == Err::<Money, PortfolioError>(e),
            },
    {
        let mut total: Money = 0;
        let mut i: usize = 0;
        while i < self.positions.len()
            invariant
                self.wf(),
                0 <= i <= self.positions@.len(),
                sum_unrealized(self.positions@.take(i as int), self@.marks) == Ok::<int, PortfolioError>(total as int),
            decreases self.positions@.len() - i,
        {
            proof {
                assert(self.positions@.take(i as int + 1).drop_last() =~= self.positions@.take(i as int));
            }
            let e = &self.positions[i];
            let mark = match get_value(&self.marks, &e.symbol) {
                Some(m) => m,
                None => {
                    proof {
                        lemma_sum_unrealized_stops(self.positions@, self@.marks, i as int + 1);
                    }
                    return Err(PortfolioError::MissingMark(e.symbol.duplicate()));
                },
            };
            proof {
                let j = keyed::key_index(self.marks@, e.symbol@);
                lemma_keyed_map_at(self.marks@, j);
            }
            let ur = position_unrealized(&e.value, mark);
            total = match total.checked_add(ur) {
                Some(t) => t,
                None => {
                    proof {
                        lemma_sum_unrealized_stops(self.positions@, self@.marks, i as int + 1);
                    }
                    return Err(PortfolioError::Overflow);
                },
            };
            i = i + 1;
        }
        proof {
            assert(self.positions@.take(i as int) =~= self.positions@);
        }
        Ok(total)
    }

    /// Equity: cash plus each position's quantity times its mark.
    pub fn equity(&self) -> (r: Result<Money, PortfolioError>)
        requires
            self.wf(),
        ensures
            match sum_equity(self@.cash, self.position_entries(), self@.marks) {
                Ok(t) => r == Ok::<Money, PortfolioError>(t as i128) && in_money(t),
                Err(e) => r == Err::<Money, PortfolioError>(e),
            },
    {
        let mut equity: Money = self.cash;
        let mut i: usize = 0;
        while i < self.positions.len()
            invariant
                self.wf(),
                0 <= i <= self.positions@.len(),
                sum_equity(self@.cash, self.positions@.take(i as int), self@.marks) == Ok::<int, PortfolioError>(
                    equity as int,
                ),
            decreases self.positions@.len() - i,
        {
            proof {
                assert(self.positions@.take(i as int + 1).drop_last() =~= self.positions@.take(i as int));
            }
            let e = &self.positions[i];
            let mark = match get_value(&self.marks, &e.symbol) {
                Some(m) => m,
                None => {
                    proof {
                        lemma_sum_equity_stops(self@.cash, self.positions@, self@.marks, i as int + 1);
                    }
                    return Err(PortfolioError::MissingMark(e.symbol.duplicate()));
                },
            };
            proof {
                let j = keyed::key_index(self.marks@, e.symbol@);
                lemma_keyed_map_at(self.marks@, j);
            }
            let mv = market_value(e.value.qty, mark);
            equity = match equity.checked_add(mv) {
                Some(t) => t,
                None => {
                    proof {
                        lemma_sum_equity_stops(self@.cash, self.positions@, self@.marks, i as int + 1);
                    }
                    return Err(PortfolioError::Overflow);
                },
            };
            i = i + 1;
        }
        proof {
            assert(self.positions@.take(i as int) =~= self.positions@);
        }
        Ok(equity)
    }

    /// Snapshot with one line per position in ascending symbol order.
    pub fn snapshot(&self) -> (r: Result<PortfolioSnapshot, PortfolioError>)
        requires
            self.wf(),
        ensures
            match r {
                Ok(snap) => snapshot_failure(*self) is None && is_snapshot_of(*self, snap),
                Err(e) => snapshot_failure(*self) == Some(e),
            },
    {
        let mut positions: Vec<PositionSnapshot> = Vec::new();
        let mut unrealized_total: Money = 0;
        let mut i: usize = 0;
        while i < self.positions.len()
            invariant
                self.wf(),
                0 <= i <= self.positions@.len(),
                sum_unrealized(self.positions@.take(i as int), self@.marks) == Ok::<int, PortfolioError>(
                    unrealized_total as int,
                ),
                positions@.len() == i,
                forall|k: int|
                    0 <= k < i ==> #[trigger] positions@[k] == position_line(
                        self.positions@[k],
                        self@.marks[self.positions@[k].symbol@],
                    ),
            decreases self.positions@.len() - i,
        {
            proof {
                assert(self.positions@.take(i as int + 1).drop_last() =~= self.positions@.take(i as int));
            }
            let e = &self.positions[i];
            let mark = match get_value(&self.marks, &e.symbol) {
                Some(m) => m,
                None => {
                    proof {
                        lemma_sum_unrealized_stops(self.positions@, self@.marks, i as int + 1);
                    }
                    return Err(PortfolioError::MissingMark(e.symbol.duplicate()));
                },
            };
            proof {
                let j = keyed::key_index(self.marks@, e.symbol@);
                lemma_keyed_map_at(self.marks@, j);
            }
            let unrealized = position_unrealized(&e.value, mark);
            let mv = market_value(e.value.qty, mark);
            unrealized_total = match unrealized_total.checked_add(unrealized) {
                Some(t) => t,
                None => {
                    proof {
                        lemma_sum_unrealized_stops(self.positions@, self@.marks, i as int + 1);
                    }
                    return Err(PortfolioError::Overflow);
                },
            };
            positions.push(
                PositionSnapshot {
                    symbol: e.symbol.duplicate(),
                    qty: e.value.qty,
                    avg_cost: e.value.avg_cost,
                    mark: Some(mark),
                    unrealized_pnl: unrealized,
                    market_value: mv,
                },
            );
            i = i + 1;
        }
        proof {
            assert(self.positions@.take(i as int) =~= self.positions@);
        }
        let equity = match self.equity() {
            Ok(x) => x,
            Err(e) => return Err(e),
        };
        proof {
            assert forall|key: Seq<char>| #[trigger] self@.marks.contains_key(key) implies self@.marks[key].0 >= 0 by {
                let j = keyed::key_index(self.marks@, key);
                lemma_keyed_map_at(self.marks@, j);
            }
            lemma_equity_is_market_sum(self@.cash, self.positions@, self@.marks, positions@);
        }
        Ok(
            PortfolioSnapshot {
                cash: self.cash,
                realized_pnl: self.realized_pnl,
                unrealized_pnl: unrealized_total,
                equity,
                positions,
            },
        )
    }

    /// Symbols with open positions, in ascending order.
    pub fn symbols(&self) -> (r: Vec<Symbol>)
        requires
            self.wf(),
        ensures
            r@.len() == self.position_entries().len(),
            forall|i: int| 0 <= i < r@.len() ==> #[trigger] r@[i] == self.position_entries()[i].symbol,
    {
        let mut out: Vec<Symbol> = Vec::new();
        let mut i: usize = 0;
        while i < self.positions.len()
            invariant
                0 <= i <= self.positions@.len(),
                out@.len() == i,
                forall|k: int| 0 <= k < i ==> #[trigger] out@[k] == self.positions@[k].symbol,
            decreases self.positions@.len() - i,
        {
            out.push(self.positions[i].symbol.duplicate());
            i = i + 1;
        }
        out
    }
}

/// Equity is cash plus the lines' market values.
proof fn lemma_equity_is_market_sum(
    cash: int,
    ps: Seq<Keyed<Position>>,
    marks: Map<Seq<char>, PriceTicks>,
    lines: Seq<PositionSnapshot>,
)
    requires
        sum_equity(cash, ps, marks) is Ok,
        lines.len() == ps.len(),
        forall|k: int| 0 <= k < ps.len() ==> #[trigger] lines[k] == position_line(ps[k], marks[ps[k].symbol@]),
        forall|key: Seq<char>| #[trigger] marks.contains_key(key) ==> marks[key].0 >= 0,
    ensures
        sum_equity(cash, ps, marks) == Ok::<int, PortfolioError>(cash + sum_market_values(lines)),
    decreases ps.len(),
{
    if ps.len() > 0 {
        let n = ps.len() - 1;
        assert forall|k: int| 0 <= k < n implies #[trigger] lines.drop_last()[k] == position_line(
            ps.drop_last()[k],
            marks[ps.drop_last()[k].symbol@],
        ) by {
            assert(lines.drop_last()[k] == lines[k]);
            assert(ps.drop_last()[k] == ps[k]);
        }
        lemma_equity_is_market_sum(cash, ps.drop_last(), marks, lines.drop_last());
        let e = ps.last();
        let m = marks[e.symbol@].0;
        assert(lines[n] == position_line(ps[n], marks[ps[n].symbol@]));
        assert(-0x8000_0000_0000_0000 * 0x7fff_ffff_ffff_ffff <= e.value.qty * m <= 0x7fff_ffff_ffff_ffff
            * 0x7fff_ffff_ffff_ffff) by (nonlinear_arith)
            requires
                -0x8000_0000_0000_0000 <= e.value.qty <= 0x7fff_ffff_ffff_ffff,
                0 <= m <= 0x7fff_ffff_ffff_ffff,
        ;
    }
}

proof fn lemma_notional_bound(price: i64, qty: u64)
    requires
        price >= 0,
    ensures
        0 <= price * qty <= 0x7fff_ffff_ffff_ffff * 0xffff_ffff_ffff_ffffu64,
        price * qty < i128::MAX,
{
    assert(0 <= price * qty <= 0x7fff_ffff_ffff_ffff * 0xffff_ffff_ffff_ffffu64) by (nonlinear_arith)
        requires
            0 <= price <= 0x7fff_ffff_ffff_ffff,
            0 <= qty <= 0xffff_ffff_ffff_ffffu64,
    ;
}

/// Market value of a quantity at a mark.
fn market_value(qty: PositionQty, mark: PriceTicks) -> (r: Money)
    requires
        mark.0 >= 0,
    ensures
        r == qty * mark.0,
{
    proof {
        assert(-0x8000_0000_0000_0000 * 0x7fff_ffff_ffff_ffff <= qty * mark.0 <= 0x7fff_ffff_ffff_ffff
            * 0x7fff_ffff_ffff_ffff) by (nonlinear_arith)
            requires
                -0x8000_0000_0000_0000 <= qty <= 0x7fff_ffff_ffff_ffff,
                0 <= mark.0 <= 0x7fff_ffff_ffff_ffff,
        ;
    }
    (qty as i128) * (mark.0 as i128)
}

/// Unrealized P&L of one position at a mark.
fn position_unrealized(pos: &Position, mark: PriceTicks) -> (r: Money)
    requires
        mark.0 >= 0,
        pos.avg_cost.0 >= 0,
    ensures
        r == unrealized_of(*pos, mark.0),
{
    let diff: i128 = (mark.0 as i128) - (pos.avg_cost.0 as i128);
    proof {
        assert(-0x7fff_ffff_ffff_ffff * 0x8000_0000_0000_0000 <= diff * pos.qty <= 0x7fff_ffff_ffff_ffff
            * 0x8000_0000_0000_0000) by (nonlinear_arith)
            requires
                -0x8000_0000_0000_0000 <= pos.qty <= 0x7fff_ffff_ffff_ffff,
                -0x7fff_ffff_ffff_ffff <= diff <= 0x7fff_ffff_ffff_ffff,
        ;
    }
    diff * (pos.qty as i128)
}

/// Weighted average entry stays within the two entry prices.
proof fn lemma_weighted_avg_bounds(a: int, x: int, b: int, y: int, m: int)
    requires
        a > 0,
        b > 0,
        0 <= x <= m,
        0 <= y <= m,
    ensures
        0 <= (a * x + b * y) / (a + b) <= m,
{
    assert(0 <= a * x + b * y <= (a + b) * m) by (nonlinear_arith)
        requires
            a > 0,
            b > 0,
            0 <= x <= m,
            0 <= y <= m,
    ;
    assert((a * x + b * y) / (a + b) <= m) by (nonlinear_arith)
        requires
            0 <= a * x + b * y <= (a + b) * m,
            a + b > 0,
    ;
    assert(0 <= (a * x + b * y) / (a + b)) by (nonlinear_arith)
        requires
            0 <= a * x + b * y,
            a + b > 0,
    ;
}

/// Apply a signed change to an open position; `None` when the new quantity leaves `i64`.
fn apply_position_delta(pos: Position, signed_delta: PositionQty, price: PriceTicks) -> (r: Option<(Position, Money)>)
    requires
        pos.qty != 0,
        pos.avg_cost.0 >= 0,
        price.0 >= 0,
        signed_delta != 0,
        signed_delta != i64::MIN,
    ensures
        match position_after(pos, signed_delta as int, price.0 as int) {
            None => r is None,
            Some((np, realized)) => r == Some((np, realized as i128)) && np.avg_cost.0 >= 0 && in_money(realized),
        },
{
    let old_qty = pos.qty;
    let new_qty = match old_qty.checked_add(signed_delta) {
        Some(q) => q,
        None => return None,
    };
    let old_abs: i128 = if old_qty < 0 { -(old_qty as i128) } else { old_qty as i128 };
    let add_abs: i128 = if signed_delta < 0 { -(signed_delta as i128) } else { signed_delta as i128 };
    if (old_qty > 0) == (signed_delta > 0) {
        proof {
            assert(0 <= old_abs * pos.avg_cost.0 <= 0x8000_0000_0000_0000 * 0x7fff_ffff_ffff_ffff) by (nonlinear_arith)
                requires
                    0 < old_abs <= 0x8000_0000_0000_0000,
                    0 <= pos.avg_cost.0 <= 0x7fff_ffff_ffff_ffff,
            ;
            assert(0 <= add_abs * price.0 <= 0x8000_0000_0000_0000 * 0x7fff_ffff_ffff_ffff) by (nonlinear_arith)
                requires
                    0 < add_abs <= 0x8000_0000_0000_0000,
                    0 <= price.0 <= 0x7fff_ffff_ffff_ffff,
            ;
            let m = if pos.avg_cost.0 > price.0 { pos.avg_cost.0 as int } else { price.0 as int };
            lemma_weighted_avg_bounds(old_abs as int, pos.avg_cost.0 as int, add_abs as int, price.0 as int, m);
        }
        let old_cost = old_abs * (pos.avg_cost.0 as i128);
        let add_cost = add_abs * (price.0 as i128);
        let total_cost = old_cost + add_cost;
        let new_abs = old_abs + add_abs;
        let avg = (total_cost / new_abs) as i64;
        return Some((Position { qty: new_qty, avg_cost: PriceTicks(avg) }, 0));
    }
    let close_qty: i128 = if old_abs < add_abs { old_abs } else { add_abs };
    let entry = pos.avg_cost.0 as i128;
    let exit = price.0 as i128;
    let d: i128 = if old_qty > 0 { exit - entry } else { entry - exit };
    proof {
        assert(-0x7fff_ffff_ffff_ffff * 0x8000_0000_0000_0000 <= d * close_qty <= 0x7fff_ffff_ffff_ffff
            * 0x8000_0000_0000_0000) by (nonlinear_arith)
            requires
                0 < close_qty <= 0x8000_0000_0000_0000,
                -0x7fff_ffff_ffff_ffff <= d <= 0x7fff_ffff_ffff_ffff,
        ;
    }
    let realized = d * close_qty;
    if new_qty == 0 {
        return Some((Position { qty: 0, avg_cost: PriceTicks(0) }, realized));
    }
    if (new_qty > 0) == (old_qty > 0) {
        return Some((Position { qty: new_qty, avg_cost: pos.avg_cost }, realized));
    }
    Some((Position { qty: new_qty, avg_cost: price }, realized))
}

} // verus!
