#![allow(unused_imports, dead_code)]
use engine::elite::lockfree_queue::EventQueue;
use engine::events::InputEvent;
use engine::{
    events::NewOrderEvent,
    types::{Order, OrderType, PriceTicks, Qty, Side, Symbol},
};

fn sample_event(id: u64) -> InputEvent {
    InputEvent::NewOrder(NewOrderEvent {
        seq: id,
        order: Order {
            order_id: id,
            symbol: Symbol("AAPL".into()),
            side: Side::Buy,
            order_type: OrderType::Limit,
            price: Some(PriceTicks(100)),
            qty: Qty(1),
            timestamp_ns: id,
            strategy_id: None,
        },
    })
}

#[test]
fn push_pop_preserves_order_single_thread() {
    let mut q = EventQueue::with_capacity(8);
    for i in 0..5 {
        q.push(sample_event(i)).unwrap();
    }
    for i in 0..5 {
        match q.pop().unwrap() {
            InputEvent::NewOrder(e) => assert_eq!(e.seq, i),
            _ => panic!("expected new order"),
        }
    }
    assert!(q.is_empty());
}

#[test]
fn bounded_queue_rejects_when_full() {
    let mut q = EventQueue::with_capacity(2);
    q.push(sample_event(1)).unwrap();
    q.push(sample_event(2)).unwrap();
    assert!(q.push(sample_event(3)).is_err());
    assert_eq!(q.len(), 2);
    assert!(q.pop().is_some());
    q.push(sample_event(4)).unwrap();
}
