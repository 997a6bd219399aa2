use engine::batch::{count_outputs, order_symbols, replay_symbols, to_runtime_event, to_runtime_events};
use engine::replay::{ReplayEvent, ReplayEventKind};
use engine::runtime::{Runtime, RuntimeConfig, RuntimeEvent};
use engine::types::{Order, OrderType, PriceTicks, Qty, Side, Symbol};

fn order(order_id: u64, symbol: &str, side: Side, price: i64, qty: u64) -> Order {
    Order {
        order_id,
        symbol: Symbol(symbol.to_owned()),
        side,
        order_type: OrderType::Limit,
        price: Some(PriceTicks(price)),
        qty: Qty(qty),
        timestamp_ns: order_id,
        strategy_id: None,
    }
}

fn replay_order(seq: u64, o: Order) -> ReplayEvent {
    ReplayEvent { seq, ts_ns: seq * 100, kind: ReplayEventKind::NewOrder { order: o } }
}

#[test]
fn replay_symbols_are_distinct_and_sorted() {
    let events = vec![
        replay_order(1, order(1, "MSFT", Side::Buy, 10, 1)),
        ReplayEvent { seq: 2, ts_ns: 200, kind: ReplayEventKind::Cancel { order_id: 1, symbol: Symbol("AAPL".into()) } },
        replay_order(3, order(2, "MSFT", Side::Sell, 11, 1)),
        replay_order(4, order(3, "AMZN", Side::Sell, 11, 1)),
    ];
    assert_eq!(
        replay_symbols(&events),
        vec![Symbol("AAPL".into()), Symbol("AMZN".into()), Symbol("MSFT".into())]
    );
    assert!(replay_symbols(&Vec::new()).is_empty());
}

#[test]
fn replay_events_keep_sequence_timestamp_and_payload() {
    let cancel = ReplayEvent { seq: 7, ts_ns: 70, kind: ReplayEventKind::Cancel { order_id: 3, symbol: Symbol("AAPL".into()) } };
    assert_eq!(
        to_runtime_event(cancel),
        RuntimeEvent::Cancel { seq: 7, ts_ns: 70, order_id: 3, symbol: Symbol("AAPL".into()) }
    );
    let converted = to_runtime_events(vec![replay_order(1, order(1, "AAPL", Side::Buy, 10, 2))]);
    assert_eq!(converted, vec![RuntimeEvent::NewOrder { seq: 1, ts_ns: 100, order: order(1, "AAPL", Side::Buy, 10, 2) }]);
}

#[test]
fn order_symbols_default_to_aapl_without_orders() {
    let timer_only = vec![RuntimeEvent::Timer { seq: 1, ts_ns: 1, symbol: Some(Symbol("MSFT".into())) }];
    assert_eq!(order_symbols(&timer_only), vec![Symbol("AAPL".into())]);

    let mixed = vec![
        RuntimeEvent::NewOrder { seq: 1, ts_ns: 1, order: order(1, "TSLA", Side::Buy, 5, 1) },
        RuntimeEvent::Cancel { seq: 2, ts_ns: 2, order_id: 9, symbol: Symbol("AAPL".into()) },
        RuntimeEvent::NewOrder { seq: 3, ts_ns: 3, order: order(2, "IBM", Side::Buy, 5, 1) },
    ];
    assert_eq!(order_symbols(&mixed), vec![Symbol("IBM".into()), Symbol("TSLA".into())]);
}

#[test]
fn outputs_are_counted_by_kind() {
    let mut rt = Runtime::new(vec![Symbol("AAPL".into())], RuntimeConfig::default());
    let result = rt
        .process_events(vec![
            RuntimeEvent::NewOrder { seq: 1, ts_ns: 1, order: order(1, "AAPL", Side::Sell, 100, 2) },
            RuntimeEvent::NewOrder { seq: 2, ts_ns: 2, order: order(2, "AAPL", Side::Buy, 100, 1) },
            RuntimeEvent::Cancel { seq: 3, ts_ns: 3, order_id: 1, symbol: Symbol("AAPL".into()) },
            RuntimeEvent::Cancel { seq: 4, ts_ns: 4, order_id: 1, symbol: Symbol("AAPL".into()) },
        ])
        .unwrap();
    let counts = count_outputs(&result.outputs);
    assert_eq!(counts.accepted, 2);
    assert_eq!(counts.trades, 1);
    assert_eq!(counts.cancelled, 1);
    assert_eq!(counts.rejected, 1);
    assert_eq!(counts.risk_rejected, 0);
}
