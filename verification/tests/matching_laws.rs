use engine::book::{BookError, OrderBook};
use engine::events::{CancelOrderEvent, ExecutionReport, InputEvent, NewOrderEvent, RejectReason};
use engine::matching::MatchingEngine;
use engine::types::{Order, OrderId, OrderType, PriceTicks, Qty, Side, Symbol};

fn symbol() -> Symbol {
    Symbol("AAPL".to_owned())
}

fn order(order_id: OrderId, side: Side, order_type: OrderType, price: Option<i64>, qty: u64) -> Order {
    Order {
        order_id,
        symbol: symbol(),
        side,
        order_type,
        price: price.map(PriceTicks),
        qty: Qty(qty),
        timestamp_ns: order_id,
        strategy_id: None,
    }
}

fn limit(engine: &mut MatchingEngine, order_id: OrderId, side: Side, price: i64, qty: u64) -> Vec<ExecutionReport> {
    engine.process_event(InputEvent::NewOrder(NewOrderEvent {
        seq: order_id,
        order: order(order_id, side, OrderType::Limit, Some(price), qty),
    }))
}

fn market(engine: &mut MatchingEngine, order_id: OrderId, side: Side, qty: u64) -> Vec<ExecutionReport> {
    engine.process_event(InputEvent::NewOrder(NewOrderEvent {
        seq: order_id,
        order: order(order_id, side, OrderType::Market, None, qty),
    }))
}

fn cancel(engine: &mut MatchingEngine, order_id: OrderId) -> Vec<ExecutionReport> {
    engine.process_event(InputEvent::Cancel(CancelOrderEvent {
        seq: order_id,
        order_id,
        symbol: symbol(),
        timestamp_ns: order_id,
    }))
}

fn filled_qty(reports: &[ExecutionReport]) -> u64 {
    reports
        .iter()
        .map(|r| match r {
            ExecutionReport::Filled { qty, .. } | ExecutionReport::PartiallyFilled { qty, .. } => qty.0,
            _ => 0,
        })
        .sum()
}

#[test]
fn sweep_takes_better_prices_first_then_earlier_orders() {
    let mut engine = MatchingEngine::new(symbol());
    limit(&mut engine, 1, Side::Sell, 102, 5);
    limit(&mut engine, 2, Side::Sell, 101, 5);
    limit(&mut engine, 3, Side::Sell, 101, 5);

    let reports = limit(&mut engine, 4, Side::Buy, 102, 12);

    assert_eq!(
        reports,
        vec![
            ExecutionReport::Accepted { order_id: 4 },
            ExecutionReport::PartiallyFilled { order_id: 4, qty: Qty(5), remaining: Qty(7), price: PriceTicks(101) },
            ExecutionReport::PartiallyFilled { order_id: 4, qty: Qty(5), remaining: Qty(2), price: PriceTicks(101) },
            ExecutionReport::Filled { order_id: 4, qty: Qty(2), price: PriceTicks(102) },
        ]
    );
    assert_eq!(engine.book().get_order(1).unwrap().qty, Qty(3));
    assert_eq!(engine.book().get_order(2), None);
    assert_eq!(engine.book().get_order(3), None);
}

#[test]
fn sweep_never_fills_beyond_the_limit_price() {
    let mut engine = MatchingEngine::new(symbol());
    limit(&mut engine, 1, Side::Sell, 100, 5);
    limit(&mut engine, 2, Side::Sell, 103, 5);

    let reports = limit(&mut engine, 3, Side::Buy, 101, 8);

    assert_eq!(filled_qty(&reports), 5);
    assert_eq!(engine.book().best_bid(), Some(PriceTicks(101)));
    assert_eq!(engine.book().get_order(3).unwrap().qty, Qty(3));
    assert_eq!(engine.book().best_ask(), Some(PriceTicks(103)));
}

#[test]
fn filled_plus_resting_remainder_is_the_order_quantity() {
    let mut engine = MatchingEngine::new(symbol());
    limit(&mut engine, 1, Side::Buy, 99, 4);
    limit(&mut engine, 2, Side::Buy, 98, 4);

    let reports = limit(&mut engine, 3, Side::Sell, 98, 11);

    let resting = engine.book().get_order(3).map(|o| o.qty.0).unwrap_or(0);
    assert_eq!(filled_qty(&reports), 8);
    assert_eq!(filled_qty(&reports) + resting, 11);
}

#[test]
fn rejected_input_leaves_the_book_unchanged() {
    let mut engine = MatchingEngine::new(symbol());
    limit(&mut engine, 1, Side::Buy, 100, 5);
    let before = engine.book().clone();

    let reports = limit(&mut engine, 2, Side::Sell, 101, 0);

    assert_eq!(
        reports,
        vec![ExecutionReport::Rejected { order_id: 2, reason: RejectReason::InvalidQuantity }]
    );
    assert_eq!(engine.book(), &before);
}

#[test]
fn finished_ids_are_rejected_on_resubmission() {
    let mut engine = MatchingEngine::new(symbol());
    limit(&mut engine, 1, Side::Sell, 100, 5);
    limit(&mut engine, 2, Side::Buy, 100, 5);
    limit(&mut engine, 3, Side::Buy, 90, 5);
    cancel(&mut engine, 3);
    limit(&mut engine, 4, Side::Sell, 110, 2);
    market(&mut engine, 5, Side::Buy, 3);

    assert_eq!(
        limit(&mut engine, 2, Side::Buy, 80, 1),
        vec![ExecutionReport::Rejected { order_id: 2, reason: RejectReason::AlreadyFilled }]
    );
    assert_eq!(
        limit(&mut engine, 3, Side::Buy, 80, 1),
        vec![ExecutionReport::Rejected { order_id: 3, reason: RejectReason::AlreadyCancelled }]
    );
    assert_eq!(
        limit(&mut engine, 5, Side::Buy, 80, 1),
        vec![ExecutionReport::Rejected { order_id: 5, reason: RejectReason::AlreadyExpired }]
    );
}

#[test]
fn a_second_cancel_is_rejected_as_already_cancelled() {
    let mut engine = MatchingEngine::new(symbol());
    limit(&mut engine, 7, Side::Buy, 100, 5);

    assert_eq!(cancel(&mut engine, 7), vec![ExecutionReport::Cancelled { order_id: 7 }]);
    assert_eq!(
        cancel(&mut engine, 7),
        vec![ExecutionReport::Rejected { order_id: 7, reason: RejectReason::AlreadyCancelled }]
    );
}

#[test]
fn each_fill_report_carries_one_trade() {
    let mut engine = MatchingEngine::new(symbol());
    limit(&mut engine, 1, Side::Sell, 100, 2);
    limit(&mut engine, 2, Side::Sell, 101, 2);

    let (reports, trades) = engine.process_event_with_trades(
        InputEvent::NewOrder(NewOrderEvent { seq: 3, order: order(3, Side::Buy, OrderType::Market, None, 4) }),
        77,
    );

    let fills = reports
        .iter()
        .filter(|r| matches!(r, ExecutionReport::Filled { .. } | ExecutionReport::PartiallyFilled { .. }))
        .count();
    assert_eq!(fills, 2);
    assert_eq!(trades.len(), 2);
    assert_eq!(trades[0].maker_order_id, 1);
    assert_eq!(trades[0].price, PriceTicks(100));
    assert_eq!(trades[1].maker_order_id, 2);
    assert_eq!(trades[1].price, PriceTicks(101));
    assert!(trades.iter().all(|t| t.taker_order_id == 3 && t.timestamp_ns == 77 && t.aggressor_side == Side::Buy));
}

#[test]
fn market_order_against_one_sided_book_would_not_fill() {
    let mut engine = MatchingEngine::new(symbol());
    limit(&mut engine, 1, Side::Buy, 100, 2);

    assert_eq!(
        market(&mut engine, 2, Side::Buy, 1),
        vec![ExecutionReport::Rejected { order_id: 2, reason: RejectReason::MarketOrderWouldNotFill }]
    );
}

#[test]
fn market_order_on_empty_book_is_rejected() {
    let mut engine = MatchingEngine::new(symbol());
    assert_eq!(
        market(&mut engine, 1, Side::Sell, 1),
        vec![ExecutionReport::Rejected { order_id: 1, reason: RejectReason::EmptyBook }]
    );
}

#[test]
fn limit_order_without_price_is_rejected_as_invalid_price() {
    let mut engine = MatchingEngine::new(symbol());
    let reports = engine.process_event(InputEvent::NewOrder(NewOrderEvent {
        seq: 1,
        order: order(1, Side::Buy, OrderType::Limit, None, 3),
    }));
    assert_eq!(
        reports,
        vec![ExecutionReport::Rejected { order_id: 1, reason: RejectReason::InvalidPrice }]
    );
}

#[test]
fn direct_limit_entry_rejects_market_orders_as_invalid() {
    let mut engine = MatchingEngine::new(symbol());
    let reports = engine.submit_limit_order(order(1, Side::Buy, OrderType::Market, None, 3));
    assert_eq!(
        reports,
        vec![ExecutionReport::Rejected { order_id: 1, reason: RejectReason::InvalidOrder }]
    );
}

#[test]
fn cancel_of_unknown_order_in_nonempty_book_is_rejected() {
    let mut engine = MatchingEngine::new(symbol());
    limit(&mut engine, 1, Side::Buy, 100, 1);
    assert_eq!(
        cancel(&mut engine, 9),
        vec![ExecutionReport::Rejected { order_id: 9, reason: RejectReason::UnknownOrder }]
    );
}

#[test]
fn book_errors_for_each_kind_of_bad_order() {
    let mut book = OrderBook::new(symbol());
    book.add_limit_order(order(1, Side::Buy, OrderType::Limit, Some(100), 5)).unwrap();

    assert_eq!(
        book.add_limit_order(order(1, Side::Buy, OrderType::Limit, Some(100), 5)),
        Err(BookError::DuplicateOrderId(1))
    );
    assert_eq!(
        book.add_limit_order(order(2, Side::Buy, OrderType::Limit, Some(100), 0)),
        Err(BookError::InvalidQuantity(Qty(0)))
    );
    assert_eq!(
        book.add_limit_order(order(3, Side::Buy, OrderType::Market, None, 5)),
        Err(BookError::NotLimitOrder(3))
    );
    assert_eq!(
        book.add_limit_order(order(4, Side::Buy, OrderType::Limit, None, 5)),
        Err(BookError::MissingPrice(4))
    );
    let mut other = order(5, Side::Buy, OrderType::Limit, Some(100), 5);
    other.symbol = Symbol("MSFT".to_owned());
    assert_eq!(
        book.add_limit_order(other),
        Err(BookError::SymbolMismatch { expected: symbol(), actual: Symbol("MSFT".to_owned()) })
    );
    assert_eq!(
        book.add_limit_order(order(6, Side::Buy, OrderType::Limit, Some(100), u64::MAX)),
        Err(BookError::QuantityOverflow(PriceTicks(100)))
    );
    assert_eq!(book.cancel_order(42), Err(BookError::UnknownOrder(42)));
    assert_eq!(book.check_invariants(), Ok(()));
}
