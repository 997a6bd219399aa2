#![allow(unused_imports, dead_code)]
use engine::book::{BookError, BookInvariantError, BookSnapshot, LevelSnapshot, OrderBook, OrderLocation, PriceLevel, RestingOrder};
use engine::types::{Order, OrderId, OrderType, PriceTicks, Qty, Side, Symbol};

fn symbol() -> Symbol {
    Symbol("AAPL".to_owned())
}

fn limit_order(order_id: OrderId, side: Side, price: i64, qty: u64) -> Order {
    Order {
        order_id,
        symbol: symbol(),
        side,
        order_type: OrderType::Limit,
        price: Some(PriceTicks(price)),
        qty: Qty(qty),
        timestamp_ns: order_id,
        strategy_id: None,
    }
}

fn resting_order(order_id: OrderId, side: Side, price: i64, qty: u64) -> RestingOrder {
    RestingOrder {
        order_id,
        side,
        price: PriceTicks(price),
        qty: Qty(qty),
        timestamp_ns: order_id,
        strategy_id: None,
    }
}

/// Places `level` in the ladder under `price`, as the level at that key.
fn insert_level(levels: &mut Vec<PriceLevel>, price: PriceTicks, level: PriceLevel) {
    let mut level = level;
    level.price = price;
    levels.push(level);
}

/// The ladder's level at `price`.
fn level_mut(levels: &mut Vec<PriceLevel>, price: PriceTicks) -> Option<&mut PriceLevel> {
    levels.iter_mut().find(|level| level.price == price)
}

#[test]
fn new_book_is_empty() {
    let book = OrderBook::new(symbol());

    assert!(book.bids.is_empty());
    assert!(book.asks.is_empty());
    assert!(book.order_index.is_empty());
}

#[test]
fn empty_book_has_no_best_bid_or_ask() {
    let book = OrderBook::new(symbol());

    assert_eq!(book.best_bid(), None);
    assert_eq!(book.best_ask(), None);
}

#[test]
fn add_one_bid_updates_best_bid() {
    let mut book = OrderBook::new(symbol());

    book.add_limit_order(limit_order(1, Side::Buy, 100, 10))
        .unwrap();

    assert_eq!(book.best_bid(), Some(PriceTicks(100)));
}

#[test]
fn add_one_ask_updates_best_ask() {
    let mut book = OrderBook::new(symbol());

    book.add_limit_order(limit_order(1, Side::Sell, 101, 10))
        .unwrap();

    assert_eq!(book.best_ask(), Some(PriceTicks(101)));
}

#[test]
fn best_bid_is_highest_bid() {
    let mut book = OrderBook::new(symbol());
    book.add_limit_order(limit_order(1, Side::Buy, 100, 10))
        .unwrap();
    book.add_limit_order(limit_order(2, Side::Buy, 102, 10))
        .unwrap();
    book.add_limit_order(limit_order(3, Side::Buy, 101, 10))
        .unwrap();

    assert_eq!(book.best_bid(), Some(PriceTicks(102)));
}

#[test]
fn best_ask_is_lowest_ask() {
    let mut book = OrderBook::new(symbol());
    book.add_limit_order(limit_order(1, Side::Sell, 102, 10))
        .unwrap();
    book.add_limit_order(limit_order(2, Side::Sell, 100, 10))
        .unwrap();
    book.add_limit_order(limit_order(3, Side::Sell, 101, 10))
        .unwrap();

    assert_eq!(book.best_ask(), Some(PriceTicks(100)));
}

#[test]
fn multiple_bids_update_best_bid() {
    let mut book = OrderBook::new(symbol());
    book.add_limit_order(limit_order(1, Side::Buy, 101, 10))
        .unwrap();
    assert_eq!(book.best_bid(), Some(PriceTicks(101)));

    book.add_limit_order(limit_order(2, Side::Buy, 103, 10))
        .unwrap();
    assert_eq!(book.best_bid(), Some(PriceTicks(103)));
}

#[test]
fn multiple_asks_update_best_ask() {
    let mut book = OrderBook::new(symbol());
    book.add_limit_order(limit_order(1, Side::Sell, 103, 10))
        .unwrap();
    assert_eq!(book.best_ask(), Some(PriceTicks(103)));

    book.add_limit_order(limit_order(2, Side::Sell, 101, 10))
        .unwrap();
    assert_eq!(book.best_ask(), Some(PriceTicks(101)));
}

#[test]
fn bid_and_ask_books_are_independent() {
    let mut book = OrderBook::new(symbol());
    book.add_limit_order(limit_order(1, Side::Buy, 100, 10))
        .unwrap();
    book.add_limit_order(limit_order(2, Side::Sell, 105, 10))
        .unwrap();
    book.add_limit_order(limit_order(3, Side::Buy, 102, 10))
        .unwrap();
    book.add_limit_order(limit_order(4, Side::Sell, 103, 10))
        .unwrap();

    assert_eq!(book.best_bid(), Some(PriceTicks(102)));
    assert_eq!(book.best_ask(), Some(PriceTicks(103)));
}

#[test]
fn order_index_tracks_added_bid() {
    let mut book = OrderBook::new(symbol());

    book.add_limit_order(limit_order(1, Side::Buy, 100, 10))
        .unwrap();

    assert_eq!(
        book.order_index.get(&1),
        Some(&OrderLocation {
            side: Side::Buy,
            price: PriceTicks(100),
        })
    );
}

#[test]
fn order_index_tracks_added_ask() {
    let mut book = OrderBook::new(symbol());

    book.add_limit_order(limit_order(2, Side::Sell, 105, 20))
        .unwrap();

    assert_eq!(
        book.order_index.get(&2),
        Some(&OrderLocation {
            side: Side::Sell,
            price: PriceTicks(105),
        })
    );
}

#[test]
fn duplicate_order_id_is_rejected() {
    let mut book = OrderBook::new(symbol());
    book.add_limit_order(limit_order(1, Side::Buy, 100, 10))
        .unwrap();

    let result = book.add_limit_order(limit_order(1, Side::Sell, 101, 20));

    assert_eq!(result, Err(BookError::DuplicateOrderId(1)));
}

#[test]
fn rejected_duplicate_does_not_mutate_book() {
    let mut book = OrderBook::new(symbol());
    book.add_limit_order(limit_order(1, Side::Buy, 100, 10))
        .unwrap();
    let before = book.clone();

    let result = book.add_limit_order(limit_order(1, Side::Sell, 101, 20));

    assert_eq!(result, Err(BookError::DuplicateOrderId(1)));
    assert_eq!(book, before);
}

#[test]
fn rejected_invalid_quantity_does_not_mutate_book() {
    let mut book = OrderBook::new(symbol());
    book.add_limit_order(limit_order(1, Side::Buy, 100, 10))
        .unwrap();
    let before = book.clone();

    let result = book.add_limit_order(limit_order(2, Side::Sell, 101, 0));

    assert_eq!(result, Err(BookError::InvalidQuantity(Qty(0))));
    assert_eq!(book, before);
}

#[test]
fn rejected_quantity_overflow_does_not_mutate_book() {
    let mut book = OrderBook::new(symbol());
    book.add_limit_order(limit_order(1, Side::Buy, 100, u64::MAX))
        .unwrap();
    let before = book.clone();

    let result = book.add_limit_order(limit_order(2, Side::Buy, 100, 1));

    assert_eq!(result, Err(BookError::QuantityOverflow(PriceTicks(100))));
    assert_eq!(book, before);
    assert_eq!(book.snapshot(1).bids[0].total_qty, Qty(u64::MAX));
}

#[test]
fn get_unknown_order_returns_none() {
    let book = OrderBook::new(symbol());

    assert_eq!(book.get_order(999), None);
}

#[test]
fn get_order_returns_added_bid() {
    let mut book = OrderBook::new(symbol());
    book.add_limit_order(limit_order(7, Side::Buy, 100, 25))
        .unwrap();

    assert_eq!(
        book.get_order(7),
        Some(&resting_order(7, Side::Buy, 100, 25))
    );
}

#[test]
fn get_order_returns_added_ask() {
    let mut book = OrderBook::new(symbol());
    book.add_limit_order(limit_order(8, Side::Sell, 105, 30))
        .unwrap();

    assert_eq!(
        book.get_order(8),
        Some(&resting_order(8, Side::Sell, 105, 30))
    );
}

#[test]
fn snapshot_empty_book() {
    let book = OrderBook::new(symbol());

    assert_eq!(
        book.snapshot(5),
        BookSnapshot {
            symbol: symbol(),
            bids: vec![],
            asks: vec![],
        }
    );
}

#[test]
fn snapshot_zero_depth() {
    let mut book = OrderBook::new(symbol());
    book.add_limit_order(limit_order(1, Side::Buy, 100, 10))
        .unwrap();
    book.add_limit_order(limit_order(2, Side::Sell, 101, 20))
        .unwrap();

    let snapshot = book.snapshot(0);

    assert!(snapshot.bids.is_empty());
    assert!(snapshot.asks.is_empty());
}

#[test]
fn snapshot_bid_depth_sorted_descending() {
    let mut book = OrderBook::new(symbol());
    book.add_limit_order(limit_order(1, Side::Buy, 100, 10))
        .unwrap();
    book.add_limit_order(limit_order(2, Side::Buy, 103, 10))
        .unwrap();
    book.add_limit_order(limit_order(3, Side::Buy, 101, 10))
        .unwrap();

    let prices: Vec<_> = book
        .snapshot(2)
        .bids
        .into_iter()
        .map(|level| level.price)
        .collect();

    assert_eq!(prices, vec![PriceTicks(103), PriceTicks(101)]);
}

#[test]
fn snapshot_ask_depth_sorted_ascending() {
    let mut book = OrderBook::new(symbol());
    book.add_limit_order(limit_order(1, Side::Sell, 105, 10))
        .unwrap();
    book.add_limit_order(limit_order(2, Side::Sell, 103, 10))
        .unwrap();
    book.add_limit_order(limit_order(3, Side::Sell, 104, 10))
        .unwrap();

    let prices: Vec<_> = book
        .snapshot(2)
        .asks
        .into_iter()
        .map(|level| level.price)
        .collect();

    assert_eq!(prices, vec![PriceTicks(103), PriceTicks(104)]);
}

#[test]
fn snapshot_aggregates_quantity_at_level() {
    let mut book = OrderBook::new(symbol());
    book.add_limit_order(limit_order(1, Side::Buy, 100, 10))
        .unwrap();
    book.add_limit_order(limit_order(2, Side::Buy, 100, 25))
        .unwrap();

    assert_eq!(
        book.snapshot(1).bids,
        vec![LevelSnapshot {
            price: PriceTicks(100),
            total_qty: Qty(35),
            order_count: 2,
            order_ids: vec![1, 2],
        }]
    );
}

#[test]
fn snapshot_respects_depth_limit() {
    let mut book = OrderBook::new(symbol());
    for (order_id, price) in [(1, 100), (2, 101), (3, 102)] {
        book.add_limit_order(limit_order(order_id, Side::Buy, price, 10))
            .unwrap();
    }
    for (order_id, price) in [(4, 103), (5, 104), (6, 105)] {
        book.add_limit_order(limit_order(order_id, Side::Sell, price, 10))
            .unwrap();
    }

    let snapshot = book.snapshot(2);

    assert_eq!(snapshot.bids.len(), 2);
    assert_eq!(snapshot.asks.len(), 2);
    assert_eq!(snapshot.bids[0].price, PriceTicks(102));
    assert_eq!(snapshot.asks[0].price, PriceTicks(103));
}

#[test]
fn snapshot_includes_symbol() {
    let book = OrderBook::new(symbol());

    assert_eq!(book.snapshot(1).symbol, symbol());
}

#[test]
fn snapshot_is_deterministic() {
    let mut book = OrderBook::new(symbol());
    book.add_limit_order(limit_order(1, Side::Buy, 100, 10))
        .unwrap();
    book.add_limit_order(limit_order(2, Side::Sell, 101, 20))
        .unwrap();

    let first = format!("{:?}", book.snapshot(10));
    let second = format!("{:?}", book.snapshot(10));

    assert_eq!(first, second);
}

#[test]
fn invariants_hold_after_multiple_adds() {
    let mut book = OrderBook::new(symbol());
    book.add_limit_order(limit_order(1, Side::Buy, 100, 10))
        .unwrap();
    book.add_limit_order(limit_order(2, Side::Buy, 100, 20))
        .unwrap();
    book.add_limit_order(limit_order(3, Side::Buy, 99, 30))
        .unwrap();
    book.add_limit_order(limit_order(4, Side::Sell, 101, 40))
        .unwrap();
    book.add_limit_order(limit_order(5, Side::Sell, 102, 50))
        .unwrap();

    assert_eq!(book.check_invariants(), Ok(()));
}

#[test]
fn invariants_hold_after_duplicate_rejection() {
    let mut book = OrderBook::new(symbol());
    book.add_limit_order(limit_order(1, Side::Buy, 100, 10))
        .unwrap();

    assert_eq!(
        book.add_limit_order(limit_order(1, Side::Sell, 101, 20)),
        Err(BookError::DuplicateOrderId(1))
    );
    assert_eq!(book.check_invariants(), Ok(()));
}

#[test]
fn invariants_hold_after_invalid_quantity_rejection() {
    let mut book = OrderBook::new(symbol());
    book.add_limit_order(limit_order(1, Side::Buy, 100, 10))
        .unwrap();

    assert_eq!(
        book.add_limit_order(limit_order(2, Side::Sell, 101, 0)),
        Err(BookError::InvalidQuantity(Qty(0)))
    );
    assert_eq!(book.check_invariants(), Ok(()));
}

#[test]
fn no_empty_price_levels_after_adds() {
    let mut book = OrderBook::new(symbol());
    book.add_limit_order(limit_order(1, Side::Buy, 100, 10))
        .unwrap();
    book.add_limit_order(limit_order(2, Side::Sell, 101, 20))
        .unwrap();

    assert!(book.bids.iter().all(|level| !level.is_empty()));
    assert!(book.asks.iter().all(|level| !level.is_empty()));
    assert_eq!(book.check_invariants(), Ok(()));
}

#[test]
fn invariant_count_matches_total_resting_orders() {
    let mut book = OrderBook::new(symbol());
    book.add_limit_order(limit_order(1, Side::Buy, 100, 10))
        .unwrap();
    book.add_limit_order(limit_order(2, Side::Buy, 100, 20))
        .unwrap();
    book.add_limit_order(limit_order(3, Side::Sell, 101, 30))
        .unwrap();

    let resting_count: usize = book
        .bids
        .iter()
        .chain(book.asks.iter())
        .map(PriceLevel::len)
        .sum();

    assert_eq!(book.order_index.len(), resting_count);
    assert_eq!(book.check_invariants(), Ok(()));
}

#[test]
fn invariant_checker_detects_empty_price_level() {
    let mut book = OrderBook::new(symbol());
    insert_level(&mut book.bids, PriceTicks(100), PriceLevel::new(PriceTicks(100)));

    assert_eq!(
        book.check_invariants(),
        Err(BookInvariantError::EmptyPriceLevel {
            side: Side::Buy,
            price: PriceTicks(100),
        })
    );
}

#[test]
fn invariant_checker_detects_missing_index_entry() {
    let mut book = OrderBook::new(symbol());
    book.add_limit_order(limit_order(1, Side::Buy, 100, 10))
        .unwrap();
    book.order_index.remove(&1);

    assert_eq!(
        book.check_invariants(),
        Err(BookInvariantError::MissingIndexEntry(1))
    );
}

#[test]
fn invariant_checker_detects_index_pointing_to_missing_order() {
    let mut book = OrderBook::new(symbol());
    book.order_index.insert(
        1,
        OrderLocation {
            side: Side::Sell,
            price: PriceTicks(101),
        },
    );

    assert_eq!(
        book.check_invariants(),
        Err(BookInvariantError::IndexPointsToMissingOrder {
            order_id: 1,
            side: Side::Sell,
            price: PriceTicks(101),
        })
    );
}

#[test]
fn invariant_checker_detects_wrong_order_side() {
    let mut book = OrderBook::new(symbol());
    book.add_limit_order(limit_order(1, Side::Buy, 100, 10))
        .unwrap();
    level_mut(&mut book.bids, PriceTicks(100))
        .unwrap()
        .push_back(resting_order(2, Side::Sell, 100, 10));

    assert_eq!(
        book.check_invariants(),
        Err(BookInvariantError::WrongOrderSide {
            order_id: 2,
            expected: Side::Buy,
            actual: Side::Sell,
        })
    );
}

#[test]
fn invariant_checker_detects_wrong_order_price() {
    let mut book = OrderBook::new(symbol());
    let mut level = PriceLevel::new(PriceTicks(99));
    level.push_back(resting_order(1, Side::Buy, 99, 10));
    insert_level(&mut book.bids, PriceTicks(100), level);

    assert_eq!(
        book.check_invariants(),
        Err(BookInvariantError::WrongOrderPrice {
            order_id: 1,
            level_price: PriceTicks(100),
            order_price: PriceTicks(99),
        })
    );
}

#[test]
fn invariant_checker_detects_zero_quantity() {
    let mut book = OrderBook::new(symbol());
    let mut level = PriceLevel::new(PriceTicks(100));
    level.push_back(resting_order(1, Side::Buy, 100, 0));
    insert_level(&mut book.bids, PriceTicks(100), level);

    assert_eq!(
        book.check_invariants(),
        Err(BookInvariantError::ZeroQuantity(1))
    );
}

#[test]
fn invariant_checker_detects_index_location_mismatch() {
    let mut book = OrderBook::new(symbol());
    book.add_limit_order(limit_order(1, Side::Buy, 100, 10))
        .unwrap();
    book.order_index.insert(
        1,
        OrderLocation {
            side: Side::Sell,
            price: PriceTicks(101),
        },
    );

    assert_eq!(
        book.check_invariants(),
        Err(BookInvariantError::IndexLocationMismatch {
            order_id: 1,
            indexed_side: Side::Sell,
            indexed_price: PriceTicks(101),
            resting_side: Side::Buy,
            resting_price: PriceTicks(100),
        })
    );
}

#[test]
fn invariant_checker_detects_order_count_mismatch() {
    let mut book = OrderBook::new(symbol());
    book.add_limit_order(limit_order(1, Side::Buy, 100, 10))
        .unwrap();
    level_mut(&mut book.bids, PriceTicks(100))
        .unwrap()
        .push_back(resting_order(1, Side::Buy, 100, 10));

    assert_eq!(
        book.check_invariants(),
        Err(BookInvariantError::OrderCountMismatch {
            indexed: 1,
            resting: 2,
        })
    );
}

#[test]
fn invariant_checker_detects_quantity_overflow() {
    let mut book = OrderBook::new(symbol());
    book.add_limit_order(limit_order(1, Side::Buy, 100, u64::MAX))
        .unwrap();
    level_mut(&mut book.bids, PriceTicks(100))
        .unwrap()
        .push_back(resting_order(2, Side::Buy, 100, 1));

    assert_eq!(
        book.check_invariants(),
        Err(BookInvariantError::QuantityOverflow {
            side: Side::Buy,
            price: PriceTicks(100),
        })
    );
}
