#![allow(unused_imports, dead_code)]
use engine::types::{Order, OrderType, PriceTicks, Qty, Side, Symbol};

#[test]
fn price_ticks_ordering_works() {
    assert!(PriceTicks(101) > PriceTicks(100));
    assert!(PriceTicks(99) < PriceTicks(100));
    assert_eq!(PriceTicks(100), PriceTicks(100));
}

#[test]
fn qty_equality_works() {
    assert_eq!(Qty(10), Qty(10));
    assert_ne!(Qty(10), Qty(11));
}

#[test]
fn market_order_has_no_price() {
    let order = Order {
        order_id: 1,
        symbol: Symbol("AAPL".to_string()),
        side: Side::Buy,
        order_type: OrderType::Market,
        price: None,
        qty: Qty(10),
        timestamp_ns: 1,
        strategy_id: None,
    };

    assert_eq!(order.order_type, OrderType::Market);
    assert_eq!(order.price, None);
}

#[test]
fn limit_order_has_price() {
    let order = Order {
        order_id: 1,
        symbol: Symbol("AAPL".to_string()),
        side: Side::Buy,
        order_type: OrderType::Limit,
        price: Some(PriceTicks(10000)),
        qty: Qty(10),
        timestamp_ns: 1,
        strategy_id: None,
    };

    assert_eq!(order.order_type, OrderType::Limit);
    assert_eq!(order.price, Some(PriceTicks(10000)));
}
