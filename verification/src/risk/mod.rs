//! Pre-trade risk checks and kill-switch controls.
//!
//! Risk runs before matching. A check reads the order and the portfolio and changes
//! neither. Cancels stay allowed while the kill switch is active.
use vstd::prelude::*;

use crate::keyed::SymbolMap;
use crate::portfolio::{abs, in_money, signed_delta, sum_equity, Money, Portfolio, PortfolioError, PortfolioView};
use crate::types::{Order, OrderType, PriceTicks, Qty, Side, Symbol};

verus! {

/// Configurable risk limits. `None` disables a check.
#[derive(Debug, Clone, PartialEq, Eq)]
pub struct RiskLimits {
    /// Maximum quantity on a single new order.
    pub max_order_qty: Option<u64>,
    /// Maximum absolute position per symbol after the order.
    pub max_abs_position: Option<i64>,
    /// Maximum gross notional of a single order (`price * qty`).
    pub max_gross_notional: Option<Money>,
    /// Per-symbol limits on absolute position.
    pub per_symbol_max_abs_position: SymbolMap<i64>,
    /// Per-symbol limits on single-order quantity.
    pub per_symbol_max_order_qty: SymbolMap<u64>,
    /// Maximum total loss against starting equity; breaching it post-trade trips the kill switch.
    pub max_total_loss: Option<Money>,
}

impl RiskLimits {
    /// No limit at all.
    pub fn unrestricted() -> (r: Self)
        ensures
            r.max_order_qty is None,
            r.max_abs_position is None,
            r.max_gross_notional is None,
            r.max_total_loss is None,
            r.per_symbol_max_abs_position@ == Map::<Seq<char>, i64>::empty(),
            r.per_symbol_max_order_qty@ == Map::<Seq<char>, u64>::empty(),
    {
        Self::default()
    }
}

impl Default for RiskLimits {
    fn default() -> (r: Self)
        ensures
            r.max_order_qty is None,
            r.max_abs_position is None,
            r.max_gross_notional is None,
            r.max_total_loss is None,
            r.per_symbol_max_abs_position@ == Map::<Seq<char>, i64>::empty(),
            r.per_symbol_max_order_qty@ == Map::<Seq<char>, u64>::empty(),
    {
        RiskLimits {
            max_order_qty: None,
            max_abs_position: None,
            max_gross_notional: None,
            per_symbol_max_abs_position: SymbolMap::new(),
            per_symbol_max_order_qty: SymbolMap::new(),
            max_total_loss: None,
        }
    }
}

/// Why a pre-trade check rejected an order.
#[derive(Debug, Clone, PartialEq, Eq)]
pub enum RiskRejectReason {
    KillSwitchActive,
    MaxOrderQty { qty: u64, limit: u64 },
    PerSymbolMaxOrderQty { symbol: String, qty: u64, limit: u64 },
    MaxAbsPosition { projected: i64, limit: i64 },
    PerSymbolMaxAbsPosition { symbol: String, projected: i64, limit: i64 },
    MaxGrossNotional { notional: Money, limit: Money },
    InvalidPriceForNotional,
    Overflow,
}

impl RiskRejectReason {
    /// A field-for-field copy.
    pub fn duplicate(&self) -> (r: RiskRejectReason)
        ensures
            r == *self,
    {
        match self {
            RiskRejectReason::KillSwitchActive => RiskRejectReason::KillSwitchActive,
            RiskRejectReason::MaxOrderQty { qty, limit } => RiskRejectReason::MaxOrderQty { qty: *qty, limit: *limit },
            RiskRejectReason::PerSymbolMaxOrderQty { symbol, qty, limit } => RiskRejectReason::PerSymbolMaxOrderQty {
                symbol: symbol.clone(),
                qty: *qty,
                limit: *limit,
            },
            RiskRejectReason::MaxAbsPosition { projected, limit } => RiskRejectReason::MaxAbsPosition {
                projected: *projected,
                limit: *limit,
            },
            RiskRejectReason::PerSymbolMaxAbsPosition { symbol, projected, limit } => RiskRejectReason::PerSymbolMaxAbsPosition {
                symbol: symbol.clone(),
                projected: *projected,
                limit: *limit,
            },
            RiskRejectReason::MaxGrossNotional { notional, limit } => RiskRejectReason::MaxGrossNotional {
                notional: *notional,
                limit: *limit,
            },
            RiskRejectReason::InvalidPriceForNotional => RiskRejectReason::InvalidPriceForNotional,
            RiskRejectReason::Overflow => RiskRejectReason::Overflow,
        }
    }
}

/// Pre-trade decision.
#[derive(Debug, Clone, PartialEq, Eq)]
pub enum RiskDecision {
    Allow,
    Reject { reason: RiskRejectReason },
}

impl RiskDecision {
    pub fn is_allow(&self) -> (r: bool)
        ensures
            r == (*self is Allow),
    {
        match self {
            RiskDecision::Allow => true,
            RiskDecision::Reject { .. } => false,
        }
    }

    pub fn reject_reason(&self) -> (r: Option<&RiskRejectReason>)
        ensures
            match *self {
                RiskDecision::Allow => r is None,
                RiskDecision::Reject { reason } => r == Some(&reason),
            },
    {
        match self {
            RiskDecision::Allow => None,
            RiskDecision::Reject { reason } => Some(reason),
        }
    }
}

pub open spec fn reject(reason: RiskRejectReason) -> RiskDecision {
    RiskDecision::Reject { reason }
}

/// The gross-notional check: a limit order needs a non-negative price; a market order is
/// checked only when it carries a price estimate, which must be non-negative.
pub open spec fn notional_check(limits: RiskLimits, order: Order) -> Option<RiskDecision> {
    match limits.max_gross_notional {
        None => None,
        Some(limit) => if order.order_type == OrderType::Limit && !(order.price is Some && (order.price->0).0 >= 0) {
            Some(reject(RiskRejectReason::InvalidPriceForNotional))
        } else if order.price is Some && (order.price->0).0 < 0 {
            Some(reject(RiskRejectReason::InvalidPriceForNotional))
        } else if order.price is None {
            None
        } else {
            let notional = (order.price->0).0 * order.qty.0;
            if notional > limit {
                Some(reject(RiskRejectReason::MaxGrossNotional { notional: notional as i128, limit }))
            } else {
                None
            }
        },
    }
}

/// The position checks on the projected absolute position, per symbol first.
pub open spec fn position_check(limits: RiskLimits, order: Order, current: int) -> Option<RiskDecision> {
    if order.qty.0 > i64::MAX {
        Some(reject(RiskRejectReason::Overflow))
    } else {
        let projected = current + signed_delta(order.side, order.qty.0);
        if !(i64::MIN <= projected <= i64::MAX) || abs(projected) > i64::MAX {
            Some(reject(RiskRejectReason::Overflow))
        } else {
            let a = abs(projected);
            if limits.per_symbol_max_abs_position@.contains_key(order.symbol@) && a
                > limits.per_symbol_max_abs_position@[order.symbol@] {
                Some(
                    reject(
                        RiskRejectReason::PerSymbolMaxAbsPosition {
                            symbol: order.symbol.0,
                            projected: a as i64,
                            limit: limits.per_symbol_max_abs_position@[order.symbol@],
                        },
                    ),
                )
            } else if limits.max_abs_position is Some && a > limits.max_abs_position->0 {
                Some(
                    reject(RiskRejectReason::MaxAbsPosition { projected: a as i64, limit: limits.max_abs_position->0 }),
                )
            } else {
                None
            }
        }
    }
}

/// The position a portfolio holds in a symbol, zero when flat.
pub open spec fn held(p: PortfolioView, symbol: Seq<char>) -> int {
    if p.positions.contains_key(symbol) {
        p.positions[symbol].qty as int
    } else {
        0
    }
}

/// The pre-trade decision, checks in order: kill switch, order quantity, per-symbol order
/// quantity, gross notional, projected position.
pub open spec fn spec_check_new_order(limits: RiskLimits, killed: bool, order: Order, p: PortfolioView) -> RiskDecision {
    if killed {
        reject(RiskRejectReason::KillSwitchActive)
    } else if limits.max_order_qty is Some && order.qty.0 > limits.max_order_qty->0 {
        reject(RiskRejectReason::MaxOrderQty { qty: order.qty.0, limit: limits.max_order_qty->0 })
    } else if limits.per_symbol_max_order_qty@.contains_key(order.symbol@) && order.qty.0
        > limits.per_symbol_max_order_qty@[order.symbol@] {
        reject(
            RiskRejectReason::PerSymbolMaxOrderQty {
                symbol: order.symbol.0,
                qty: order.qty.0,
                limit: limits.per_symbol_max_order_qty@[order.symbol@],
            },
        )
    } else {
        match notional_check(limits, order) {
            Some(d) => d,
            None => match position_check(limits, order, held(p, order.symbol@)) {
                Some(d) => d,
                None => RiskDecision::Allow,
            },
        }
    }
}

/// The position check projects the order's fill: a buy adds its quantity to the position, a
/// sell takes it away. So an order that leaves the position no further from flat than it is
/// passes every position limit the current position already meets.
pub proof fn law_reducing_order_passes_position_limits(limits: RiskLimits, order: Order, current: i64)
    requires
        order.qty.0 <= i64::MAX,
        current > i64::MIN,
        ({
            let after = if order.side == Side::Buy {
                current + order.qty.0
            } else {
                current - order.qty.0
            };
            -after <= abs(current as int) && after <= abs(current as int)
        }),
        limits.per_symbol_max_abs_position@.contains_key(order.symbol@) ==> abs(current as int)
            <= limits.per_symbol_max_abs_position@[order.symbol@],
        limits.max_abs_position is Some ==> abs(current as int) <= limits.max_abs_position->0,
    ensures
        position_check(limits, order, current as int) is None,
{
}

/// With the projected position (the current one plus a buy's quantity, or minus a sell's)
/// inside `i64`, the position check rejects exactly when that position's distance from
/// flat exceeds the symbol's limit or the overall limit.
pub proof fn law_position_check_exact(limits: RiskLimits, order: Order, current: i64)
    requires
        order.qty.0 <= i64::MAX,
        ({
            let after = if order.side == Side::Buy {
                current + order.qty.0
            } else {
                current - order.qty.0
            };
            -i64::MAX <= after <= i64::MAX
        }),
    ensures
        ({
            let after = if order.side == Side::Buy {
                current + order.qty.0
            } else {
                current - order.qty.0
            };
            let dist = if after < 0 {
                -after
            } else {
                after
            };
            position_check(limits, order, current as int) is None <==> !(limits.per_symbol_max_abs_position@.contains_key(
                order.symbol@,
            ) && dist > limits.per_symbol_max_abs_position@[order.symbol@]) && !(limits.max_abs_position is Some && dist
                > limits.max_abs_position->0)
        }),
{
}

/// A pre-trade rejection for position size reports the position the order would leave:
/// the portfolio's position in the symbol plus a buy's quantity, or minus a sell's, taken
/// as a distance from flat, and that distance exceeds the limit it names.
pub proof fn law_position_rejection_reports_projection(limits: RiskLimits, killed: bool, order: Order, p: PortfolioView)
    ensures
        ({
            let after = held(p, order.symbol@) + (if order.side == Side::Buy {
                order.qty.0 as int
            } else {
                -(order.qty.0 as int)
            });
            let dist = if after < 0 {
                -after
            } else {
                after
            };
            &&& spec_check_new_order(limits, killed, order, p) matches RiskDecision::Reject {
                reason: RiskRejectReason::MaxAbsPosition { projected, limit },
            } ==> projected == dist && dist > limit
            &&& spec_check_new_order(limits, killed, order, p) matches RiskDecision::Reject {
                reason: RiskRejectReason::PerSymbolMaxAbsPosition { projected, limit, .. },
            } ==> projected == dist && dist > limit
        }),
{
}

/// A buy into a short and a sell into the same-sized long are judged alike by the position
/// check: the projected distance from flat is the same.
pub proof fn law_position_check_mirrors(limits: RiskLimits, buy: Order, current: i64)
    requires
        buy.side == Side::Buy,
        current > i64::MIN,
    ensures
        position_check(limits, buy, current as int) == position_check(
            limits,
            Order { side: Side::Sell, ..buy },
            -(current as int),
        ),
{
}

/// Tripping the kill switch and re-arming it restores an armed risk manager, so it decides
/// new orders as before.
pub proof fn law_reset_restores(m0: RiskManager, m1: RiskManager, m2: RiskManager)
    requires
        m0.wf(),
        !m0.spec_killed(),
        m1.spec_killed(),
        m1.spec_limits() == m0.spec_limits(),
        m1.spec_starting_equity() == m0.spec_starting_equity(),
        !m2.spec_killed(),
        m2.spec_kill_reason() is None,
        m2.spec_limits() == m1.spec_limits(),
        m2.spec_starting_equity() == m1.spec_starting_equity(),
    ensures
        m2 == m0,
        forall|order: Order, p: PortfolioView|
            spec_check_new_order(m2.spec_limits(), m2.spec_killed(), order, p) == spec_check_new_order(
                m0.spec_limits(),
                m0.spec_killed(),
                order,
                p,
            ),
{
    m0.lemma_armed_has_no_reason();
    m2.lemma_determined(&m0);
}

/// The decimal digits of `n`, most significant first.
pub open spec fn decimal_digits(n: nat) -> Seq<char>
    decreases n,
{
    let last = ((48 + n % 10) as u32) as char;
    if n < 10 {
        seq![last]
    } else {
        decimal_digits(n / 10).push(last)
    }
}

/// An integer in decimal, with a leading `-` when negative.
pub open spec fn decimal(x: int) -> Seq<char> {
    if x < 0 {
        seq!['-'] + decimal_digits((-x) as nat)
    } else {
        decimal_digits(x as nat)
    }
}

/// The text recorded when the loss limit trips the kill switch.
pub open spec fn loss_reason_text(loss: int, limit: int) -> Seq<char> {
    "max total loss breached: loss="@ + decimal(loss) + " limit="@ + decimal(limit)
}

/// What the post-trade loss check does. Limits and starting equity never change. Without a
/// loss limit nothing happens. Otherwise the equity is computed: if it, or the loss
/// against starting equity, leaves `i128`, the result is `Overflow` and nothing changes; a
/// loss beyond the limit trips the kill switch (recording why) and reports `true`; any other
/// loss changes nothing and reports `false`.
pub open spec fn post_trade_loss_outcome(
    before: RiskManager,
    portfolio: Portfolio,
    after: RiskManager,
    r: Result<bool, RiskRejectReason>,
) -> bool {
    &&& after.spec_limits() == before.spec_limits()
    &&& after.spec_starting_equity() == before.spec_starting_equity()
    &&& match before.spec_limits().max_total_loss {
        None => r == Ok::<bool, RiskRejectReason>(false) && after == before,
        Some(max_loss) => match sum_equity(portfolio@.cash, portfolio.position_entries(), portfolio@.marks) {
            Err(_) => r == Err::<bool, RiskRejectReason>(RiskRejectReason::Overflow) && after == before,
            Ok(equity) => {
                let loss = before.spec_starting_equity() - equity;
                if !in_money(loss) {
                    r == Err::<bool, RiskRejectReason>(RiskRejectReason::Overflow) && after == before
                } else if loss > max_loss {
                    &&& r == Ok::<bool, RiskRejectReason>(true)
                    &&& after.spec_killed()
                    &&& after.spec_kill_reason() == Some(loss_reason_text(loss, max_loss as int))
                } else {
                    r == Ok::<bool, RiskRejectReason>(false) && after == before
                }
            },
        },
    }
}

/// Pre-trade risk manager with manual and automatic kill switch.
#[derive(Debug, Clone, PartialEq, Eq)]
pub struct RiskManager {
    limits: RiskLimits,
    killed: bool,
    starting_equity: Money,
    kill_reason: Option<String>,
}

impl RiskManager {
    /// The kill switch is tripped exactly when a reason for it is recorded.
    pub closed spec fn wf(&self) -> bool {
        self.killed == self.kill_reason.is_some()
    }

    pub closed spec fn spec_limits(&self) -> RiskLimits {
        self.limits
    }

    pub closed spec fn spec_killed(&self) -> bool {
        self.killed
    }

    pub closed spec fn spec_starting_equity(&self) -> Money {
        self.starting_equity
    }

    pub closed spec fn spec_kill_reason(&self) -> Option<Seq<char>> {
        match self.kill_reason {
            Some(s) => Some(s@),
            None => None,
        }
    }

    pub fn new(limits: RiskLimits, starting_equity: Money) -> (r: Self)
        ensures
            r.wf(),
            r.spec_limits() == limits,
            !r.spec_killed(),
            r.spec_starting_equity() == starting_equity,
            r.spec_kill_reason() is None,
    {
        RiskManager { limits, killed: false, starting_equity, kill_reason: None }
    }

    pub fn limits(&self) -> (r: &RiskLimits)
        ensures
            *r == self.spec_limits(),
    {
        &self.limits
    }

    pub fn is_killed(&self) -> (r: bool)
        ensures
            r == self.spec_killed(),
    {
        self.killed
    }

    pub fn kill_reason(&self) -> (r: Option<&str>)
        ensures
            match self.spec_kill_reason() {
                Some(s) => r matches Some(t) && t@ == s,
                None => r is None,
            },
    {
        match &self.kill_reason {
            Some(s) => Some(s.as_str()),
            None => None,
        }
    }

    /// Manually activate the kill switch: new orders are rejected, cancels allowed.
    pub fn activate_kill_switch(&mut self, reason: &str)
        ensures
            final(self).spec_killed(),
            final(self).spec_kill_reason() == Some(reason@),
            final(self).spec_limits() == old(self).spec_limits(),
            final(self).spec_starting_equity() == old(self).spec_starting_equity(),
            final(self).wf(),
    {
        self.killed = true;
        self.kill_reason = Some(reason.to_owned());
    }

    /// Re-arm after a kill; touches nothing else.
    pub fn reset_kill_switch(&mut self)
        ensures
            !final(self).spec_killed(),
            final(self).spec_kill_reason() is None,
            final(self).spec_limits() == old(self).spec_limits(),
            final(self).spec_starting_equity() == old(self).spec_starting_equity(),
            final(self).wf(),
    {
        self.killed = false;
        self.kill_reason = None;
    }

    /// An armed, well-formed risk manager records no kill reason; a tripped one records one.
    pub proof fn lemma_armed_has_no_reason(&self)
        requires
            self.wf(),
        ensures
            !self.spec_killed() <==> self.spec_kill_reason() is None,
    {
    }

    /// A risk manager is fixed by its limits, kill switch, reason and starting equity.
    pub proof fn lemma_determined(&self, other: &RiskManager)
        requires
            self.spec_limits() == other.spec_limits(),
            self.spec_killed() == other.spec_killed(),
            self.spec_starting_equity() == other.spec_starting_equity(),
            self.spec_kill_reason() is None,
            other.spec_kill_reason() is None,
        ensures
            *self == *other,
    {
    }

    /// Cancels are always allowed, also while killed.
    pub fn allow_cancel(&self) -> (r: bool)
        ensures
            r,
    {
        true
    }

    /// Pre-trade check for a new order.
    pub fn check_new_order(&self, order: &Order, portfolio: &Portfolio) -> (r: RiskDecision)
        requires
            self.wf(),
            portfolio.wf(),
        ensures
            r == spec_check_new_order(self.spec_limits(), self.spec_killed(), *order, portfolio@),
    {
        if self.killed {
            return RiskDecision::Reject { reason: RiskRejectReason::KillSwitchActive };
        }
        match self.limits.max_order_qty {
            Some(limit) => {
                if order.qty.0 > limit {
                    return RiskDecision::Reject { reason: RiskRejectReason::MaxOrderQty { qty: order.qty.0, limit } };
                }
            },
            None => {},
        }
        match self.limits.per_symbol_max_order_qty.get(&order.symbol) {
            Some(limit) => {
                if order.qty.0 > limit {
                    return RiskDecision::Reject {
                        reason: RiskRejectReason::PerSymbolMaxOrderQty {
                            symbol: order.symbol.0.clone(),
                            qty: order.qty.0,
                            limit,
                        },
                    };
                }
            },
            None => {},
        }
        match self.check_notional(order) {
            Some(decision) => return decision,
            None => {},
        }
        match self.check_position(order, portfolio) {
            Some(decision) => return decision,
            None => {},
        }
        RiskDecision::Allow
    }

    /// Post-trade loss check: when the loss against starting equity exceeds the limit, the
    /// kill switch trips. Returns whether this call tripped it.
    pub fn check_post_trade_loss(&mut self, portfolio: &Portfolio) -> (r: Result<bool, RiskRejectReason>)
        requires
            old(self).wf(),
            portfolio.wf(),
        ensures
            final(self).wf(),
            final(self).spec_limits() == old(self).spec_limits(),
            post_trade_loss_outcome(*old(self), *portfolio, *final(self), r),
    {
        let max_loss = match self.limits.max_total_loss {
            Some(m) => m,
            None => return Ok(false),
        };
        let equity = match portfolio.equity() {
            Ok(e) => e,
            Err(_) => return Err(RiskRejectReason::Overflow),
        };
        let loss = match self.starting_equity.checked_sub(equity) {
            Some(l) => l,
            None => return Err(RiskRejectReason::Overflow),
        };
        if loss > max_loss {
            self.killed = true;
            self.kill_reason = Some(loss_reason(loss, max_loss));
            return Ok(true);
        }
        Ok(false)
    }

    fn check_notional(&self, order: &Order) -> (r: Option<RiskDecision>)
        ensures
            r == notional_check(self.spec_limits(), *order),
    {
        let limit = match self.limits.max_gross_notional {
            Some(l) => l,
            None => return None,
        };
        let price = match order.order_type {
            OrderType::Limit => match order.price {
                Some(p) => {
                    if p.0 >= 0 {
                        p
                    } else {
                        return Some(RiskDecision::Reject { reason: RiskRejectReason::InvalidPriceForNotional });
                    }
                },
                None => return Some(RiskDecision::Reject { reason: RiskRejectReason::InvalidPriceForNotional }),
            },
            OrderType::Market => match order.price {
                Some(p) => {
                    if p.0 >= 0 {
                        p
                    } else {
                        return Some(RiskDecision::Reject { reason: RiskRejectReason::InvalidPriceForNotional });
                    }
                },
                None => return None,
            },
        };
        let notional = order_notional(price, order.qty);
        match notional {
            Some(n) => {
                if n > limit {
                    Some(RiskDecision::Reject { reason: RiskRejectReason::MaxGrossNotional { notional: n, limit } })
                } else {
                    None
                }
            },
            None => Some(RiskDecision::Reject { reason: RiskRejectReason::Overflow }),
        }
    }

    fn check_position(&self, order: &Order, portfolio: &Portfolio) -> (r: Option<RiskDecision>)
        requires
            self.wf(),
            portfolio.wf(),
        ensures
            r == position_check(self.spec_limits(), *order, held(portfolio@, order.symbol@)),
    {
        if order.qty.0 > i64::MAX as u64 {
            return Some(RiskDecision::Reject { reason: RiskRejectReason::Overflow });
        }
        let qty = order.qty.0 as i64;
        let delta = match order.side {
            Side::Buy => qty,
            Side::Sell => -qty,
        };
        let current = portfolio.position_qty(&order.symbol);
        let projected = match current.checked_add(delta) {
            Some(p) => p,
            None => return Some(RiskDecision::Reject { reason: RiskRejectReason::Overflow }),
        };
        if projected == i64::MIN {
            return Some(RiskDecision::Reject { reason: RiskRejectReason::Overflow });
        }
        let abs_projected = if projected < 0 { -projected } else { projected };
        match self.limits.per_symbol_max_abs_position.get(&order.symbol) {
            Some(limit) => {
                if abs_projected > limit {
                    return Some(
                        RiskDecision::Reject {
                            reason: RiskRejectReason::PerSymbolMaxAbsPosition {
                                symbol: order.symbol.0.clone(),
                                projected: abs_projected,
                                limit,
                            },
                        },
                    );
                }
            },
            None => {},
        }
        match self.limits.max_abs_position {
            Some(limit) => {
                if abs_projected > limit {
                    return Some(
                        RiskDecision::Reject { reason: RiskRejectReason::MaxAbsPosition { projected: abs_projected, limit } },
                    );
                }
            },
            None => {},
        }
        None
    }
}

/// The decimal digit `d` as text.
fn digit_text(d: u8) -> (r: &'static str)
    requires
        d < 10,
    ensures
        r@ == seq![((48 + d) as u32) as char],
{
    match d {
        0 => {
            proof {
                reveal_strlit("0");
            }
            "0"
        },
        1 => {
            proof {
                reveal_strlit("1");
            }
            "1"
        },
        2 => {
            proof {
                reveal_strlit("2");
            }
            "2"
        },
        3 => {
            proof {
                reveal_strlit("3");
            }
            "3"
        },
        4 => {
            proof {
                reveal_strlit("4");
            }
            "4"
        },
        5 => {
            proof {
                reveal_strlit("5");
            }
            "5"
        },
        6 => {
            proof {
                reveal_strlit("6");
            }
            "6"
        },
        7 => {
            proof {
                reveal_strlit("7");
            }
            "7"
        },
        8 => {
            proof {
                reveal_strlit("8");
            }
            "8"
        },
        _ => {
            proof {
                reveal_strlit("9");
            }
            "9"
        },
    }
}

/// Append the decimal digits of `n`, most significant first.
fn append_digits(s: &mut String, n: u128)
    ensures
        final(s)@ == old(s)@ + decimal_digits(n as nat),
    decreases n,
{
    if n >= 10 {
        append_digits(s, n / 10);
    }
    s.append(digit_text((n % 10) as u8));
}

/// Append `x` in decimal, with a leading `-` when negative.
fn append_decimal(s: &mut String, x: i128)
    ensures
        final(s)@ == old(s)@ + decimal(x as int),
{
    if x < 0 {
        proof {
            reveal_strlit("-");
        }
        s.append("-");
        let magnitude: u128 = (-(x + 1)) as u128 + 1;
        append_digits(s, magnitude);
    } else {
        append_digits(s, x as u128);
    }
}

/// The kill-switch text for a loss breach.
fn loss_reason(loss: Money, limit: Money) -> (r: String)
    ensures
        r@ == loss_reason_text(loss as int, limit as int),
{
    let mut s = String::from_str("max total loss breached: loss=");
    append_decimal(&mut s, loss);
    s.append(" limit=");
    append_decimal(&mut s, limit);
    s
}

/// Notional of a price and quantity (`price * qty`); always representable.
pub fn order_notional(price: PriceTicks, qty: Qty) -> (r: Option<Money>)
    ensures
        r == Some((price.0 * qty.0) as i128),
        i128::MIN <= price.0 * qty.0 <= i128::MAX,
{
    proof {
        assert(-0x8000_0000_0000_0000 * 0xffff_ffff_ffff_ffffu64 <= price.0 * qty.0 <= 0x7fff_ffff_ffff_ffff
            * 0xffff_ffff_ffff_ffffu64) by (nonlinear_arith)
            requires
                -0x8000_0000_0000_0000 <= price.0 <= 0x7fff_ffff_ffff_ffff,
                0 <= qty.0 <= 0xffff_ffff_ffff_ffffu64,
        ;
    }
    Some((price.0 as i128) * (qty.0 as i128))
}

} // verus!
