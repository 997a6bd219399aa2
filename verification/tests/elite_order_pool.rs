#![allow(unused_imports, dead_code)]
use engine::elite::order_pool::{sample_order, OrderPool, PoolHandle};
use engine::types::{Order, OrderId, Qty};

#[test]
fn insert_get_remove_reuses_slot() {
    let mut pool = OrderPool::new();
    let h1 = pool.insert(sample_order(1));
    let h2 = pool.insert(sample_order(2));
    assert_eq!(pool.live_count(), 2);
    assert_eq!(pool.get(h1).unwrap().order_id, 1);
    pool.remove(h1).unwrap();
    assert_eq!(pool.live_count(), 1);
    let h3 = pool.insert(sample_order(3));
    assert_eq!(h3.index(), h1.index()); // reused slot index
    assert_ne!(h3.generation(), h1.generation()); // new generation
    assert_eq!(pool.get(h3).unwrap().order_id, 3);
    assert!(pool.get(h1).is_none()); // stale handle fails closed
    assert!(pool.get(h2).is_some());
    assert_eq!(pool.capacity_slots(), 2);
}

#[test]
fn stale_handle_cannot_remove_reused_slot() {
    let mut pool = OrderPool::new();
    let h1 = pool.insert(sample_order(1));
    pool.remove(h1).unwrap();
    let h2 = pool.insert(sample_order(2));
    assert!(pool.remove(h1).is_none());
    assert_eq!(pool.get(h2).unwrap().order_id, 2);
}

#[test]
fn parity_with_vec_storage() {
    let mut pool = OrderPool::with_capacity(8);
    let mut handles = Vec::new();
    let mut vec_store = Vec::new();
    for i in 0..20u64 {
        let o = sample_order(i);
        vec_store.push(o.clone());
        handles.push(pool.insert(o));
    }
    for i in (0..20).step_by(2) {
        let _ = pool.remove(handles[i]);
    }
    assert_eq!(pool.live_count(), 10);
    assert_eq!(vec_store.len(), 20);
}
