#![allow(unused_imports, dead_code)]
use engine::events::Trade;
use engine::portfolio::{Money, Portfolio, PortfolioError, PortfolioSnapshot, Position, PositionQty, PositionSnapshot};
use engine::types::{PriceTicks, Qty, Side, Symbol};

fn sym(s: &str) -> Symbol {
    Symbol(s.to_owned())
}

fn px(p: i64) -> PriceTicks {
    PriceTicks(p)
}

fn qty(q: u64) -> Qty {
    Qty(q)
}

#[test]
fn open_and_add_to_long() {
    let mut p = Portfolio::new(1_000_000);
    p.apply_fill(&sym("AAPL"), Side::Buy, px(100), qty(10))
        .unwrap();
    assert_eq!(p.position_qty(&sym("AAPL")), 10);
    assert_eq!(p.position(&sym("AAPL")).unwrap().avg_cost, px(100));
    assert_eq!(p.cash(), 1_000_000 - 1_000);

    p.apply_fill(&sym("AAPL"), Side::Buy, px(110), qty(10))
        .unwrap();
    assert_eq!(p.position_qty(&sym("AAPL")), 20);
    assert_eq!(p.position(&sym("AAPL")).unwrap().avg_cost, px(105));
    assert_eq!(p.cash(), 1_000_000 - 1_000 - 1_100);
    assert_eq!(p.realized_pnl(), 0);
}

#[test]
fn partially_and_fully_close_long() {
    let mut p = Portfolio::new(1_000_000);
    p.apply_fill(&sym("AAPL"), Side::Buy, px(100), qty(10))
        .unwrap();
    p.apply_fill(&sym("AAPL"), Side::Sell, px(120), qty(4))
        .unwrap();
    assert_eq!(p.position_qty(&sym("AAPL")), 6);
    assert_eq!(p.realized_pnl(), 4 * (120 - 100));
    assert_eq!(p.position(&sym("AAPL")).unwrap().avg_cost, px(100));

    p.apply_fill(&sym("AAPL"), Side::Sell, px(130), qty(6))
        .unwrap();
    assert_eq!(p.position_qty(&sym("AAPL")), 0);
    assert!(p.position(&sym("AAPL")).is_none());
    assert_eq!(p.realized_pnl(), 4 * 20 + 6 * 30);
}

#[test]
fn open_and_add_to_short() {
    let mut p = Portfolio::new(1_000_000);
    p.apply_fill(&sym("AAPL"), Side::Sell, px(100), qty(10))
        .unwrap();
    assert_eq!(p.position_qty(&sym("AAPL")), -10);
    assert_eq!(p.cash(), 1_000_000 + 1_000);

    p.apply_fill(&sym("AAPL"), Side::Sell, px(90), qty(10))
        .unwrap();
    assert_eq!(p.position_qty(&sym("AAPL")), -20);
    assert_eq!(p.position(&sym("AAPL")).unwrap().avg_cost, px(95));
    assert_eq!(p.realized_pnl(), 0);
}

#[test]
fn partially_and_fully_cover_short() {
    let mut p = Portfolio::new(1_000_000);
    p.apply_fill(&sym("AAPL"), Side::Sell, px(100), qty(10))
        .unwrap();
    p.apply_fill(&sym("AAPL"), Side::Buy, px(80), qty(4))
        .unwrap();
    assert_eq!(p.position_qty(&sym("AAPL")), -6);
    assert_eq!(p.realized_pnl(), 4 * (100 - 80));

    p.apply_fill(&sym("AAPL"), Side::Buy, px(70), qty(6))
        .unwrap();
    assert_eq!(p.position_qty(&sym("AAPL")), 0);
    assert_eq!(p.realized_pnl(), 4 * 20 + 6 * 30);
}

#[test]
fn cross_long_to_short() {
    let mut p = Portfolio::new(1_000_000);
    p.apply_fill(&sym("AAPL"), Side::Buy, px(100), qty(10))
        .unwrap();
    p.apply_fill(&sym("AAPL"), Side::Sell, px(110), qty(15))
        .unwrap();
    assert_eq!(p.position_qty(&sym("AAPL")), -5);
    assert_eq!(p.position(&sym("AAPL")).unwrap().avg_cost, px(110));
    assert_eq!(p.realized_pnl(), 10 * (110 - 100));
}

#[test]
fn cross_short_to_long() {
    let mut p = Portfolio::new(1_000_000);
    p.apply_fill(&sym("AAPL"), Side::Sell, px(100), qty(10))
        .unwrap();
    p.apply_fill(&sym("AAPL"), Side::Buy, px(90), qty(15))
        .unwrap();
    assert_eq!(p.position_qty(&sym("AAPL")), 5);
    assert_eq!(p.position(&sym("AAPL")).unwrap().avg_cost, px(90));
    assert_eq!(p.realized_pnl(), 10 * (100 - 90));
}

#[test]
fn realized_pnl_correctness() {
    let mut p = Portfolio::new(0);
    p.apply_fill(&sym("X"), Side::Buy, px(50), qty(2)).unwrap();
    p.apply_fill(&sym("X"), Side::Sell, px(60), qty(2)).unwrap();
    assert_eq!(p.realized_pnl(), 20);
    assert_eq!(p.cash(), 20);
}

#[test]
fn unrealized_pnl_and_equity() {
    let mut p = Portfolio::new(10_000);
    p.apply_fill(&sym("AAPL"), Side::Buy, px(100), qty(10))
        .unwrap();
    p.set_mark(&sym("AAPL"), px(115)).unwrap();
    assert_eq!(p.unrealized_pnl().unwrap(), 10 * 15);
    assert_eq!(p.equity().unwrap(), 10_000 - 1_000 + 10 * 115);

    p.apply_fill(&sym("AAPL"), Side::Sell, px(100), qty(20))
        .unwrap();
    // Closed 10 long @ 100 → realized 0; opened 10 short @ 100
    assert_eq!(p.position_qty(&sym("AAPL")), -10);
    p.set_mark(&sym("AAPL"), px(90)).unwrap();
    assert_eq!(p.unrealized_pnl().unwrap(), 10 * (100 - 90));
}

#[test]
fn cash_correctness_round_trip() {
    let start = 500_000i128;
    let mut p = Portfolio::new(start);
    p.apply_fill(&sym("AAPL"), Side::Buy, px(200), qty(5))
        .unwrap();
    p.apply_fill(&sym("AAPL"), Side::Sell, px(200), qty(5))
        .unwrap();
    assert_eq!(p.cash(), start);
    assert_eq!(p.realized_pnl(), 0);
    assert_eq!(p.position_qty(&sym("AAPL")), 0);
}

#[test]
fn arithmetic_overflow_rejection() {
    let mut p = Portfolio::new(0);
    let err = p
        .apply_fill(&sym("AAPL"), Side::Buy, px(i64::MAX), qty(u64::MAX))
        .unwrap_err();
    assert_eq!(err, PortfolioError::Overflow);
    assert_eq!(p.cash(), 0);
    assert_eq!(p.position_qty(&sym("AAPL")), 0);

    let err = p
        .apply_fill(&sym("AAPL"), Side::Buy, px(100), qty(0))
        .unwrap_err();
    assert_eq!(err, PortfolioError::InvalidQuantity);
}

#[test]
fn multi_symbol_isolation() {
    let mut p = Portfolio::new(1_000_000);
    p.apply_fill(&sym("AAPL"), Side::Buy, px(100), qty(10))
        .unwrap();
    p.apply_fill(&sym("MSFT"), Side::Sell, px(200), qty(5))
        .unwrap();
    assert_eq!(p.position_qty(&sym("AAPL")), 10);
    assert_eq!(p.position_qty(&sym("MSFT")), -5);

    p.apply_fill(&sym("AAPL"), Side::Sell, px(110), qty(10))
        .unwrap();
    assert_eq!(p.realized_pnl(), 10 * 10);
    assert_eq!(p.position_qty(&sym("MSFT")), -5);
    assert_eq!(p.position(&sym("MSFT")).unwrap().avg_cost, px(200));
}

#[test]
fn snapshot_is_sorted_and_deterministic() {
    let mut p = Portfolio::new(1_000_000);
    p.apply_fill(&sym("MSFT"), Side::Buy, px(200), qty(1))
        .unwrap();
    p.apply_fill(&sym("AAPL"), Side::Buy, px(100), qty(2))
        .unwrap();
    p.apply_fill(&sym("ZZZ"), Side::Sell, px(50), qty(3))
        .unwrap();

    let snap = p.snapshot().unwrap();
    let symbols: Vec<_> = snap.positions.iter().map(|x| x.symbol.0.as_str()).collect();
    assert_eq!(symbols, vec!["AAPL", "MSFT", "ZZZ"]);

    let snap2 = p.snapshot().unwrap();
    assert_eq!(snap, snap2);
    assert_eq!(
        snap.equity,
        snap.cash + snap.positions.iter().map(|x| x.market_value).sum::<i128>()
    );
}

#[test]
fn apply_trade_as_buyer() {
    let mut p = Portfolio::new(10_000);
    let trade = Trade {
        symbol: sym("AAPL"),
        taker_order_id: 1,
        maker_order_id: 2,
        price: px(100),
        qty: qty(5),
        aggressor_side: Side::Buy,
        timestamp_ns: 1,
    };
    p.apply_trade_as(&trade, Side::Buy).unwrap();
    assert_eq!(p.position_qty(&sym("AAPL")), 5);
    assert_eq!(p.cash(), 10_000 - 500);
}
