use engine::events::{CancelOrderEvent, InputEvent, NewOrderEvent};
use engine::matching::MatchingEngine;
use engine::types::{Order, OrderType, PriceTicks, Qty, Side, Symbol};
use engine::workload::synthetic_workload;

#[test]
fn workload_cycles_orders_and_cancels() {
    let events = synthetic_workload(20);
    assert_eq!(events.len(), 20);
    assert_eq!(
        events[0],
        InputEvent::NewOrder(NewOrderEvent {
            seq: 1,
            order: Order {
                order_id: 1,
                symbol: Symbol("AAPL".into()),
                side: Side::Buy,
                order_type: OrderType::Limit,
                price: Some(PriceTicks(90)),
                qty: Qty(1),
                timestamp_ns: 1,
                strategy_id: None,
            },
        })
    );
    match &events[7] {
        InputEvent::NewOrder(n) => {
            assert_eq!(n.order.side, Side::Sell);
            assert_eq!(n.order.price, Some(PriceTicks(97)));
            assert_eq!(n.order.qty, Qty(2));
        }
        other => panic!("expected an order, got {:?}", other),
    }
    assert_eq!(
        events[9],
        InputEvent::Cancel(CancelOrderEvent { seq: 10, order_id: 5, symbol: Symbol("AAPL".into()), timestamp_ns: 10 })
    );
    assert!(matches!(events[19], InputEvent::Cancel(CancelOrderEvent { order_id: 15, .. })));
    assert!(synthetic_workload(0).is_empty());

    // The workload runs through an engine without breaking its invariants.
    let mut engine = MatchingEngine::new(Symbol("AAPL".into()));
    for e in synthetic_workload(200) {
        engine.process_event(e);
    }
    assert!(engine.book().check_matching_invariants().is_ok());
}
