#![allow(unused_imports, dead_code)]
use engine::portfolio::{Money, Portfolio};
use engine::risk::{RiskDecision, RiskLimits, RiskManager, RiskRejectReason};
use engine::types::{Order, PriceTicks, Qty, Side};
use engine::types::{OrderId, OrderType, Symbol, TimestampNanos};

fn sym(s: &str) -> Symbol {
    Symbol(s.to_owned())
}

fn order(id: OrderId, side: Side, price: i64, qty: u64) -> Order {
    Order {
        order_id: id,
        symbol: sym("AAPL"),
        side,
        order_type: OrderType::Limit,
        price: Some(PriceTicks(price)),
        qty: Qty(qty),
        timestamp_ns: id as TimestampNanos,
        strategy_id: None,
    }
}

#[test]
fn max_order_qty_boundary() {
    let limits = RiskLimits {
        max_order_qty: Some(10),
        ..RiskLimits::default()
    };
    let rm = RiskManager::new(limits, 1_000_000);
    let portfolio = Portfolio::new(1_000_000);

    assert!(rm
        .check_new_order(&order(1, Side::Buy, 100, 10), &portfolio)
        .is_allow());
    let reject = rm.check_new_order(&order(2, Side::Buy, 100, 11), &portfolio);
    assert!(matches!(
        reject,
        RiskDecision::Reject {
            reason: RiskRejectReason::MaxOrderQty { qty: 11, limit: 10 }
        }
    ));
}

#[test]
fn max_abs_position_boundary() {
    let limits = RiskLimits {
        max_abs_position: Some(10),
        ..RiskLimits::default()
    };
    let rm = RiskManager::new(limits, 1_000_000);
    let mut portfolio = Portfolio::new(1_000_000);
    portfolio
        .apply_fill(&sym("AAPL"), Side::Buy, PriceTicks(100), Qty(5))
        .unwrap();

    assert!(rm
        .check_new_order(&order(1, Side::Buy, 100, 5), &portfolio)
        .is_allow());
    let reject = rm.check_new_order(&order(2, Side::Buy, 100, 6), &portfolio);
    assert!(matches!(
        reject,
        RiskDecision::Reject {
            reason: RiskRejectReason::MaxAbsPosition {
                projected: 11,
                limit: 10
            }
        }
    ));
}

#[test]
fn max_gross_notional_boundary() {
    let limits = RiskLimits {
        max_gross_notional: Some(1_000),
        ..RiskLimits::default()
    };
    let rm = RiskManager::new(limits, 1_000_000);
    let portfolio = Portfolio::new(1_000_000);

    assert!(rm
        .check_new_order(&order(1, Side::Buy, 100, 10), &portfolio)
        .is_allow());
    let reject = rm.check_new_order(&order(2, Side::Buy, 100, 11), &portfolio);
    assert!(matches!(
        reject,
        RiskDecision::Reject {
            reason: RiskRejectReason::MaxGrossNotional { .. }
        }
    ));
}

#[test]
fn per_symbol_limits() {
    let mut limits = RiskLimits::default();
    limits.per_symbol_max_order_qty.insert("AAPL".into(), 3);
    limits.per_symbol_max_abs_position.insert("AAPL".into(), 5);

    let rm = RiskManager::new(limits, 1_000_000);
    let portfolio = Portfolio::new(1_000_000);

    assert!(matches!(
        rm.check_new_order(&order(1, Side::Buy, 100, 4), &portfolio),
        RiskDecision::Reject {
            reason: RiskRejectReason::PerSymbolMaxOrderQty { .. }
        }
    ));
    assert!(rm
        .check_new_order(&order(2, Side::Buy, 100, 3), &portfolio)
        .is_allow());
}

#[test]
fn kill_switch_rejects_orders_allows_cancels() {
    let mut rm = RiskManager::new(RiskLimits::default(), 1_000_000);
    let portfolio = Portfolio::new(1_000_000);
    rm.activate_kill_switch("manual");
    assert!(rm.is_killed());
    assert!(rm.allow_cancel());
    assert!(matches!(
        rm.check_new_order(&order(1, Side::Buy, 100, 1), &portfolio),
        RiskDecision::Reject {
            reason: RiskRejectReason::KillSwitchActive
        }
    ));

    rm.reset_kill_switch();
    assert!(!rm.is_killed());
    assert!(rm
        .check_new_order(&order(2, Side::Buy, 100, 1), &portfolio)
        .is_allow());
}

#[test]
fn automatic_kill_on_loss_breach() {
    let limits = RiskLimits {
        max_total_loss: Some(100),
        ..RiskLimits::default()
    };
    let mut rm = RiskManager::new(limits, 10_000);
    let mut portfolio = Portfolio::new(10_000);
    // Buy high, mark down to create unrealized loss > 100
    portfolio
        .apply_fill(&sym("AAPL"), Side::Buy, PriceTicks(100), Qty(10))
        .unwrap();
    portfolio.set_mark(&sym("AAPL"), PriceTicks(80)).unwrap();
    // equity = 10000 - 1000 + 800 = 9800; loss = 200 > 100
    assert!(rm.check_post_trade_loss(&portfolio).unwrap());
    assert!(rm.is_killed());
}

#[test]
fn loss_at_boundary_does_not_trip() {
    let limits = RiskLimits {
        max_total_loss: Some(200),
        ..RiskLimits::default()
    };
    let mut rm = RiskManager::new(limits, 10_000);
    let mut portfolio = Portfolio::new(10_000);
    portfolio
        .apply_fill(&sym("AAPL"), Side::Buy, PriceTicks(100), Qty(10))
        .unwrap();
    portfolio.set_mark(&sym("AAPL"), PriceTicks(80)).unwrap();
    // loss == 200, breach is strict >
    assert!(!rm.check_post_trade_loss(&portfolio).unwrap());
    assert!(!rm.is_killed());
}

#[test]
fn rejection_does_not_require_portfolio_mutation() {
    let limits = RiskLimits {
        max_order_qty: Some(1),
        ..RiskLimits::default()
    };
    let rm = RiskManager::new(limits, 1_000_000);
    let portfolio = Portfolio::new(1_000_000);
    let before = portfolio.clone();
    let _ = rm.check_new_order(&order(1, Side::Buy, 100, 5), &portfolio);
    assert_eq!(portfolio, before);
}
