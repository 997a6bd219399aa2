use engine::keyed::SymbolMap;
use engine::portfolio::{Portfolio, PortfolioError};
use engine::risk::{order_notional, RiskDecision, RiskLimits, RiskManager, RiskRejectReason};
use engine::types::{Order, OrderType, PriceTicks, Qty, Side, Symbol};

fn sym(s: &str) -> Symbol {
    Symbol(s.to_owned())
}

fn limit_order(order_id: u64, symbol: &str, side: Side, price: i64, qty: u64) -> Order {
    Order {
        order_id,
        symbol: sym(symbol),
        side,
        order_type: OrderType::Limit,
        price: Some(PriceTicks(price)),
        qty: Qty(qty),
        timestamp_ns: order_id,
        strategy_id: None,
    }
}

fn reject_reason(decision: RiskDecision) -> RiskRejectReason {
    match decision {
        RiskDecision::Reject { reason } => reason,
        RiskDecision::Allow => panic!("expected a rejection"),
    }
}

#[test]
fn buying_then_selling_the_same_lot_restores_cash() {
    let mut p = Portfolio::new(10_000);
    p.apply_fill(&sym("AAPL"), Side::Buy, PriceTicks(250), Qty(8)).unwrap();
    assert_eq!(p.cash(), 10_000 - 2_000);
    p.apply_fill(&sym("AAPL"), Side::Sell, PriceTicks(250), Qty(8)).unwrap();

    assert_eq!(p.cash(), 10_000);
    assert_eq!(p.realized_pnl(), 0);
    assert_eq!(p.position_qty(&sym("AAPL")), 0);
}

#[test]
fn partial_close_of_a_long_realizes_on_the_closed_quantity() {
    let mut p = Portfolio::new(0);
    p.apply_fill(&sym("AAPL"), Side::Buy, PriceTicks(100), Qty(10)).unwrap();
    p.apply_fill(&sym("AAPL"), Side::Sell, PriceTicks(130), Qty(4)).unwrap();

    assert_eq!(p.realized_pnl(), (130 - 100) * 4);
    let pos = p.position(&sym("AAPL")).unwrap();
    assert_eq!(pos.qty, 6);
    assert_eq!(pos.avg_cost, PriceTicks(100));
}

#[test]
fn a_fill_leaves_other_symbols_alone() {
    let mut p = Portfolio::new(0);
    p.apply_fill(&sym("MSFT"), Side::Sell, PriceTicks(50), Qty(3)).unwrap();
    let msft = *p.position(&sym("MSFT")).unwrap();
    let msft_mark = p.mark(&sym("MSFT"));

    p.apply_fill(&sym("AAPL"), Side::Buy, PriceTicks(70), Qty(2)).unwrap();

    assert_eq!(*p.position(&sym("MSFT")).unwrap(), msft);
    assert_eq!(p.mark(&sym("MSFT")), msft_mark);
    assert_eq!(p.mark(&sym("AAPL")), Some(PriceTicks(70)));
}

#[test]
fn fills_with_bad_inputs_are_refused_without_change() {
    let mut p = Portfolio::new(500);
    assert_eq!(
        p.apply_fill(&sym("AAPL"), Side::Buy, PriceTicks(10), Qty(0)),
        Err(PortfolioError::InvalidQuantity)
    );
    assert_eq!(
        p.apply_fill(&sym("AAPL"), Side::Buy, PriceTicks(-1), Qty(1)),
        Err(PortfolioError::InvalidPrice)
    );
    assert_eq!(
        p.apply_fill(&sym("AAPL"), Side::Buy, PriceTicks(1), Qty(u64::MAX)),
        Err(PortfolioError::Overflow)
    );
    assert_eq!(p.set_mark(&sym("AAPL"), PriceTicks(-5)), Err(PortfolioError::InvalidPrice));
    assert_eq!(p.cash(), 500);
    assert_eq!(p.position(&sym("AAPL")), None);
    assert_eq!(p.mark(&sym("AAPL")), None);
}

#[test]
fn equity_is_cash_plus_marked_positions() {
    let mut p = Portfolio::new(1_000);
    p.apply_fill(&sym("AAPL"), Side::Buy, PriceTicks(10), Qty(5)).unwrap();
    p.set_mark(&sym("AAPL"), PriceTicks(12)).unwrap();

    assert_eq!(p.unrealized_pnl(), Ok(10));
    assert_eq!(p.equity(), Ok(1_000 - 50 + 60));
    let snap = p.snapshot().unwrap();
    assert_eq!(snap.equity, snap.cash + snap.positions.iter().map(|x| x.market_value).sum::<i128>());
    assert_eq!(p.symbols(), vec![sym("AAPL")]);
}

#[test]
fn every_pre_trade_rejection_reason() {
    let portfolio = Portfolio::new(1_000_000);

    let mut killed = RiskManager::new(RiskLimits::default(), 1_000_000);
    killed.activate_kill_switch("halt");
    assert_eq!(killed.kill_reason(), Some("halt"));
    assert_eq!(
        reject_reason(killed.check_new_order(&limit_order(1, "AAPL", Side::Buy, 10, 1), &portfolio)),
        RiskRejectReason::KillSwitchActive
    );
    killed.reset_kill_switch();
    assert!(!killed.is_killed());
    assert_eq!(killed.kill_reason(), None);

    let qty_limited = RiskManager::new(RiskLimits { max_order_qty: Some(5), ..RiskLimits::default() }, 0);
    assert_eq!(
        reject_reason(qty_limited.check_new_order(&limit_order(1, "AAPL", Side::Buy, 10, 6), &portfolio)),
        RiskRejectReason::MaxOrderQty { qty: 6, limit: 5 }
    );

    let mut per_symbol_qty = SymbolMap::new();
    per_symbol_qty.insert("AAPL".to_owned(), 2);
    let per_symbol = RiskManager::new(
        RiskLimits { per_symbol_max_order_qty: per_symbol_qty, ..RiskLimits::default() },
        0,
    );
    assert_eq!(
        reject_reason(per_symbol.check_new_order(&limit_order(1, "AAPL", Side::Buy, 10, 3), &portfolio)),
        RiskRejectReason::PerSymbolMaxOrderQty { symbol: "AAPL".to_owned(), qty: 3, limit: 2 }
    );
    assert!(per_symbol.check_new_order(&limit_order(2, "MSFT", Side::Buy, 10, 3), &portfolio).is_allow());

    let notional = RiskManager::new(RiskLimits { max_gross_notional: Some(100), ..RiskLimits::default() }, 0);
    assert_eq!(
        reject_reason(notional.check_new_order(&limit_order(1, "AAPL", Side::Buy, 11, 10), &portfolio)),
        RiskRejectReason::MaxGrossNotional { notional: 110, limit: 100 }
    );
    assert_eq!(
        reject_reason(notional.check_new_order(&limit_order(2, "AAPL", Side::Buy, -1, 10), &portfolio)),
        RiskRejectReason::InvalidPriceForNotional
    );

    let position = RiskManager::new(RiskLimits { max_abs_position: Some(4), ..RiskLimits::default() }, 0);
    assert_eq!(
        reject_reason(position.check_new_order(&limit_order(1, "AAPL", Side::Sell, 10, 5), &portfolio)),
        RiskRejectReason::MaxAbsPosition { projected: 5, limit: 4 }
    );

    let mut per_symbol_pos = SymbolMap::new();
    per_symbol_pos.insert("AAPL".to_owned(), 1);
    let per_symbol_position = RiskManager::new(
        RiskLimits { per_symbol_max_abs_position: per_symbol_pos, ..RiskLimits::default() },
        0,
    );
    assert_eq!(
        reject_reason(per_symbol_position.check_new_order(&limit_order(1, "AAPL", Side::Buy, 10, 2), &portfolio)),
        RiskRejectReason::PerSymbolMaxAbsPosition { symbol: "AAPL".to_owned(), projected: 2, limit: 1 }
    );

    let unlimited = RiskManager::new(RiskLimits::unrestricted(), 0);
    assert_eq!(
        reject_reason(unlimited.check_new_order(&limit_order(1, "AAPL", Side::Buy, 10, u64::MAX), &portfolio)),
        RiskRejectReason::Overflow
    );
    assert!(unlimited.allow_cancel());
}

#[test]
fn loss_breach_trips_the_kill_switch_with_its_reason() {
    let mut p = Portfolio::new(1_000);
    p.apply_fill(&sym("AAPL"), Side::Buy, PriceTicks(100), Qty(10)).unwrap();
    p.set_mark(&sym("AAPL"), PriceTicks(80)).unwrap();
    let mut rm = RiskManager::new(RiskLimits { max_total_loss: Some(150), ..RiskLimits::default() }, 1_000);

    assert_eq!(rm.check_post_trade_loss(&p), Ok(true));
    assert!(rm.is_killed());
    assert_eq!(rm.kill_reason(), Some("max total loss breached: loss=200 limit=150"));
    assert_eq!(
        reject_reason(rm.check_new_order(&limit_order(9, "AAPL", Side::Sell, 80, 1), &p)),
        RiskRejectReason::KillSwitchActive
    );
}

#[test]
fn no_loss_limit_means_no_post_trade_action() {
    let p = Portfolio::new(0);
    let mut rm = RiskManager::new(RiskLimits::default(), 1_000_000);
    assert_eq!(rm.check_post_trade_loss(&p), Ok(false));
    assert!(!rm.is_killed());
}

#[test]
fn notional_is_price_times_quantity() {
    assert_eq!(order_notional(PriceTicks(-7), Qty(6)), Some(-42));
    assert_eq!(
        order_notional(PriceTicks(i64::MAX), Qty(u64::MAX)),
        Some(i64::MAX as i128 * u64::MAX as i128)
    );
}

#[test]
fn symbol_map_keeps_keys_sorted_and_replaces_values() {
    let mut map: SymbolMap<u64> = SymbolMap::new();
    map.insert("MSFT".to_owned(), 1);
    map.insert("AAPL".to_owned(), 2);
    map.insert("MSFT".to_owned(), 3);

    assert_eq!(map.keys(), vec![sym("AAPL"), sym("MSFT")]);
    assert_eq!(map.get(&sym("MSFT")), Some(3));
    map.remove(&sym("AAPL"));
    assert_eq!(map.get(&sym("AAPL")), None);
    assert_eq!(map.keys(), vec![sym("MSFT")]);
}

#[test]
fn loss_reason_writes_negative_amounts_in_decimal() {
    let p = Portfolio::new(1_003);
    let mut rm = RiskManager::new(RiskLimits { max_total_loss: Some(-5), ..RiskLimits::default() }, 1_000);
    assert_eq!(rm.check_post_trade_loss(&p), Ok(true));
    assert_eq!(rm.kill_reason(), Some("max total loss breached: loss=-3 limit=-5"));

    let big = Portfolio::new(0);
    let mut rm = RiskManager::new(RiskLimits { max_total_loss: Some(i128::MIN), ..RiskLimits::default() }, i128::MAX);
    assert_eq!(rm.check_post_trade_loss(&big), Ok(true));
    assert_eq!(
        rm.kill_reason(),
        Some("max total loss breached: loss=170141183460469231731687303715884105727 limit=-170141183460469231731687303715884105728")
    );
}
