#![allow(unused_imports, dead_code)]
use engine::types::{PriceTicks, Qty, Side};

use engine::book::{PriceLevel, RestingOrder};
use engine::types::OrderId;

const PRICE: PriceTicks = PriceTicks(100);

fn resting_order(order_id: OrderId) -> RestingOrder {
    RestingOrder {
        order_id,
        side: Side::Buy,
        price: PRICE,
        qty: Qty(10),
        timestamp_ns: order_id,
        strategy_id: None,
    }
}

#[test]
fn same_price_orders_preserve_fifo() {
    let mut level = PriceLevel::new(PRICE);

    level.push_back(resting_order(1));
    level.push_back(resting_order(2));

    let order_ids: Vec<_> = level.orders.iter().map(|order| order.order_id).collect();
    assert_eq!(order_ids, vec![1, 2]);
}

#[test]
fn front_order_is_earliest_order() {
    let mut level = PriceLevel::new(PRICE);

    level.push_back(resting_order(10));
    level.push_back(resting_order(11));

    assert_eq!(level.front().map(|order| order.order_id), Some(10));
}

#[test]
fn pop_front_removes_earliest_order() {
    let mut level = PriceLevel::new(PRICE);
    level.push_back(resting_order(10));
    level.push_back(resting_order(11));

    let removed = level.pop_front();

    assert_eq!(removed.map(|order| order.order_id), Some(10));
    assert_eq!(level.front().map(|order| order.order_id), Some(11));
    assert_eq!(level.len(), 1);
}

#[test]
fn price_level_len_updates() {
    let mut level = PriceLevel::new(PRICE);
    assert_eq!(level.len(), 0);

    level.push_back(resting_order(1));
    assert_eq!(level.len(), 1);

    level.push_back(resting_order(2));
    assert_eq!(level.len(), 2);
}

#[test]
fn price_level_empty_after_no_orders() {
    let level = PriceLevel::new(PRICE);

    assert!(level.is_empty());
    assert_eq!(level.front(), None);
}

#[test]
fn multiple_orders_same_price_keep_insertion_order() {
    let mut level = PriceLevel::new(PRICE);

    for order_id in 1..=5 {
        level.push_back(resting_order(order_id));
    }

    let order_ids: Vec<_> = level.orders.iter().map(|order| order.order_id).collect();
    assert_eq!(order_ids, vec![1, 2, 3, 4, 5]);
}
