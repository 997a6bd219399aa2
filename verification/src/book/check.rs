//! Run-time check of the book's structural invariant, for books whose fields were
//! changed by hand; it reports the first violation it finds.
use std::collections::HashMap;

use vstd::prelude::*;
use vstd::std_specs::iter::IteratorSpec;

use crate::types::{OrderId, PriceTicks, Qty, Side};

use super::model::{
    better, flatten, ids_of, index_ok, ladder_sorted, ladder_wf, lemma_flatten_concat, lemma_flatten_index,
    lemma_flatten_position, lemma_offset_step, level_wf, location_of, offset, qty_sum, LevelView,
};
use super::order_book::{better_exec, levels_view, BookInvariantError, OrderBook, OrderLocation, RestingOrder};
use super::price_level::{lemma_qty_sum_prefix_le, PriceLevel};

verus! {

broadcast use {vstd::seq_lib::group_seq_properties, vstd::std_specs::hash::group_hash_axioms};

/// Every order of the ladder has an index entry holding its own side and price.
pub open spec fn ladder_indexed(levels: Seq<LevelView>, index: Map<OrderId, OrderLocation>) -> bool {
    forall|k: int|
        0 <= k < flatten(levels).len() ==> {
            &&& index.contains_key((#[trigger] flatten(levels)[k]).order_id)
            &&& index[flatten(levels)[k].order_id] == location_of(flatten(levels)[k])
        }
}

/// The check of one resting order at `price` on `side`, with `count` orders seen so far and
/// `qty` summed so far on its level: the count must leave room, then side, price, positive
/// quantity, level total within `u64`, an index entry, and that entry's location, in that
/// order. On success, the count and level total with this order.
pub open spec fn order_check(
    o: RestingOrder,
    side: Side,
    price: PriceTicks,
    index: Map<OrderId, OrderLocation>,
    count: int,
    qty: int,
) -> Result<(int, int), BookInvariantError> {
    if count >= usize::MAX {
        Err(BookInvariantError::OrderCountMismatch { indexed: index.len() as usize, resting: usize::MAX })
    } else if o.side != side {
        Err(BookInvariantError::WrongOrderSide { order_id: o.order_id, expected: side, actual: o.side })
    } else if o.price != price {
        Err(BookInvariantError::WrongOrderPrice { order_id: o.order_id, level_price: price, order_price: o.price })
    } else if o.qty.0 == 0 {
        Err(BookInvariantError::ZeroQuantity(o.order_id))
    } else if qty + o.qty.0 > u64::MAX {
        Err(BookInvariantError::QuantityOverflow { side, price })
    } else if !index.contains_key(o.order_id) {
        Err(BookInvariantError::MissingIndexEntry(o.order_id))
    } else if index[o.order_id].side != side || index[o.order_id].price != price {
        Err(
            BookInvariantError::IndexLocationMismatch {
                order_id: o.order_id,
                indexed_side: index[o.order_id].side,
                indexed_price: index[o.order_id].price,
                resting_side: side,
                resting_price: price,
            },
        )
    } else {
        Ok((count + 1, qty + o.qty.0))
    }
}

/// The orders of one level checked front to back; the first failure is the result.
pub open spec fn orders_scan(
    orders: Seq<RestingOrder>,
    side: Side,
    price: PriceTicks,
    index: Map<OrderId, OrderLocation>,
    count: int,
) -> Result<(int, int), BookInvariantError>
    decreases orders.len(),
{
    if orders.len() == 0 {
        Ok((count, 0))
    } else {
        match orders_scan(orders.drop_last(), side, price, index, count) {
            Err(e) => Err(e),
            Ok((c, q)) => order_check(orders.last(), side, price, index, c, q),
        }
    }
}

/// The levels of a ladder checked best first: each must hold orders and come strictly
/// after the one before it, then its orders are checked. The first failure is the result;
/// on success, the count of orders seen.
pub open spec fn levels_scan(
    v: Seq<LevelView>,
    side: Side,
    index: Map<OrderId, OrderLocation>,
    count: int,
) -> Result<int, BookInvariantError>
    decreases v.len(),
{
    if v.len() == 0 {
        Ok(count)
    } else {
        match levels_scan(v.drop_last(), side, index, count) {
            Err(e) => Err(e),
            Ok(c) => {
                let (price, orders) = v.last();
                if orders.len() == 0 {
                    Err(BookInvariantError::EmptyPriceLevel { side, price })
                } else if v.len() > 1 && !better(side, v[v.len() - 2].0 .0, price.0) {
                    Err(BookInvariantError::UnsortedPriceLevels { side, price })
                } else {
                    match orders_scan(orders, side, price, index, c) {
                        Err(e) => Err(e),
                        Ok((c2, _)) => Ok(c2),
                    }
                }
            },
        }
    }
}

/// What the structural check reports: bids are checked before asks, best level first and
/// each level front to back, and the first failure is reported; then the index entries (in
/// the index's own order, so which of several stale entries is named is left open), then
/// the count of entries against the count of resting orders.
pub open spec fn structural_outcome(book: OrderBook, r: Result<(), BookInvariantError>) -> bool {
    match levels_scan(book.bids_view(), Side::Buy, book.order_index@, 0) {
        Err(e) => r == Err::<(), BookInvariantError>(e),
        Ok(c) => match levels_scan(book.asks_view(), Side::Sell, book.order_index@, c) {
            Err(e) => r == Err::<(), BookInvariantError>(e),
            Ok(c2) => if exists|id: OrderId| stale_entry(book, id) {
                (r matches Err(BookInvariantError::IndexPointsToMissingOrder { order_id, side, price })
                    && stale_entry(book, order_id) && book.order_index@[order_id] == (OrderLocation { side, price }))
            } else if book.order_index@.len() != c2 {
                r == Err::<(), BookInvariantError>(
                    BookInvariantError::OrderCountMismatch {
                        indexed: book.order_index@.len() as usize,
                        resting: c2 as usize,
                    },
                )
            } else {
                r is Ok
            },
        },
    }
}

/// An index entry whose order does not rest at the side and price the entry names.
pub open spec fn stale_entry(book: OrderBook, id: OrderId) -> bool {
    &&& book.order_index@.contains_key(id)
    &&& !exists|k: int|
        0 <= k < flatten(book.ladder(book.order_index@[id].side)).len() && (#[trigger] flatten(
            book.ladder(book.order_index@[id].side),
        )[k]).order_id == id && flatten(book.ladder(book.order_index@[id].side))[k].price
            == book.order_index@[id].price
}

/// Once a prefix of the orders fails, the whole scan fails the same way.
proof fn lemma_orders_scan_stops(
    orders: Seq<RestingOrder>,
    side: Side,
    price: PriceTicks,
    index: Map<OrderId, OrderLocation>,
    count: int,
    n: int,
)
    requires
        0 <= n <= orders.len(),
        orders_scan(orders.take(n), side, price, index, count) is Err,
    ensures
        orders_scan(orders, side, price, index, count) == orders_scan(orders.take(n), side, price, index, count),
    decreases orders.len() - n,
{
    if n < orders.len() {
        assert(orders.take(n + 1).drop_last() =~= orders.take(n));
        lemma_orders_scan_stops(orders, side, price, index, count, n + 1);
    } else {
        assert(orders.take(n) =~= orders);
    }
}

/// Once a prefix of the levels fails, the whole scan fails the same way.
proof fn lemma_levels_scan_stops(v: Seq<LevelView>, side: Side, index: Map<OrderId, OrderLocation>, count: int, n: int)
    requires
        0 <= n <= v.len(),
        levels_scan(v.take(n), side, index, count) is Err,
    ensures
        levels_scan(v, side, index, count) == levels_scan(v.take(n), side, index, count),
    decreases v.len() - n,
{
    if n < v.len() {
        assert(v.take(n + 1).drop_last() =~= v.take(n));
        lemma_levels_scan_stops(v, side, index, count, n + 1);
    } else {
        assert(v.take(n) =~= v);
    }
}

/// A level that holds orders and is in order passes to its orders' scan: when that scan,
/// from the count before the level, ends in `res`, the scan of the levels through this one
/// ends there too.
proof fn lemma_level_step(
    v: Seq<LevelView>,
    side: Side,
    index: Map<OrderId, OrderLocation>,
    count: int,
    i: int,
    c: int,
)
    requires
        0 <= i < v.len(),
        levels_scan(v.take(i), side, index, count) == Ok::<int, BookInvariantError>(c),
        v[i].1.len() > 0,
        i > 0 ==> better(side, v[i - 1].0 .0, v[i].0 .0),
    ensures
        levels_scan(v.take(i + 1), side, index, count) == match orders_scan(v[i].1, side, v[i].0, index, c) {
            Err(e) => Err::<int, BookInvariantError>(e),
            Ok((c2, _)) => Ok(c2),
        },
{
    let s = v.take(i + 1);
    assert(s.drop_last() =~= v.take(i));
    assert(s.last() == v[i]);
    if i > 0 {
        assert(s[s.len() - 2] == v[i - 1]);
    }
}

/// A failure among the orders of level `i` is the failure of the whole ladder's scan.
proof fn lemma_order_fails(
    v: Seq<LevelView>,
    side: Side,
    index: Map<OrderId, OrderLocation>,
    count: int,
    i: int,
    j: int,
    c: int,
    e: BookInvariantError,
)
    requires
        0 <= i < v.len(),
        0 <= j < v[i].1.len(),
        levels_scan(v.take(i + 1), side, index, count) == match orders_scan(v[i].1, side, v[i].0, index, c) {
            Err(e) => Err::<int, BookInvariantError>(e),
            Ok((c2, _)) => Ok(c2),
        },
        orders_scan(v[i].1.take(j + 1), side, v[i].0, index, c) == Err::<(int, int), BookInvariantError>(e),
    ensures
        levels_scan(v, side, index, count) == Err::<int, BookInvariantError>(e),
{
    lemma_orders_scan_stops(v[i].1, side, v[i].0, index, c, j + 1);
    lemma_levels_scan_stops(v, side, index, count, i + 1);
}

/// `e` names a defect that the ladder `v` for `side` really has, given the order index; a
/// count that reaches the end of `usize` is reported with `resting` at its maximum, where
/// `before` is what the count held when the ladder's scan began.
pub open spec fn ladder_defect(
    v: Seq<LevelView>,
    side: Side,
    index: Map<OrderId, OrderLocation>,
    before: int,
    e: BookInvariantError,
) -> bool {
    match e {
        BookInvariantError::EmptyPriceLevel { side: s, price } => s == side && exists|i: int|
            0 <= i < v.len() && (#[trigger] v[i]).0 == price && v[i].1.len() == 0,
        BookInvariantError::UnsortedPriceLevels { side: s, price } => s == side && exists|i: int|
            0 < i < v.len() && (#[trigger] v[i]).0 == price && !better(side, v[i - 1].0 .0, price.0),
        BookInvariantError::WrongOrderSide { order_id, expected, actual } => expected == side && actual != side
            && exists|i: int, j: int|
            0 <= i < v.len() && 0 <= j < v[i].1.len() && (#[trigger] v[i].1[j]).order_id == order_id && v[i].1[j].side
                == actual,
        BookInvariantError::WrongOrderPrice { order_id, level_price, order_price } => level_price != order_price
            && exists|i: int, j: int|
            0 <= i < v.len() && 0 <= j < v[i].1.len() && v[i].0 == level_price && (#[trigger] v[i].1[j]).order_id
                == order_id && v[i].1[j].price == order_price,
        BookInvariantError::ZeroQuantity(order_id) => exists|i: int, j: int|
            0 <= i < v.len() && 0 <= j < v[i].1.len() && (#[trigger] v[i].1[j]).order_id == order_id && v[i].1[j].qty.0
                == 0,
        BookInvariantError::QuantityOverflow { side: s, price } => s == side && exists|i: int|
            0 <= i < v.len() && (#[trigger] v[i]).0 == price && qty_sum(v[i].1) > u64::MAX,
        BookInvariantError::MissingIndexEntry(order_id) => !index.contains_key(order_id) && exists|i: int, j: int|
            0 <= i < v.len() && 0 <= j < v[i].1.len() && (#[trigger] v[i].1[j]).order_id == order_id,
        BookInvariantError::IndexLocationMismatch {
            order_id,
            indexed_side,
            indexed_price,
            resting_side,
            resting_price,
        } => {
            &&& resting_side == side
            &&& index.contains_key(order_id)
            &&& index[order_id] == (OrderLocation { side: indexed_side, price: indexed_price })
            &&& (indexed_side != resting_side || indexed_price != resting_price)
            &&& exists|i: int, j: int|
                0 <= i < v.len() && 0 <= j < v[i].1.len() && v[i].0 == resting_price && (#[trigger] v[i].1[j]).order_id
                    == order_id
        },
        BookInvariantError::OrderCountMismatch { indexed, resting } => indexed == index.len() && resting == usize::MAX
            && before + flatten(v).len() > usize::MAX,
        _ => false,
    }
}

/// `e` names a defect the book really has: one of a ladder's, an index entry whose order
/// does not rest where the entry says, or an index that counts differently from the
/// resting orders.
pub open spec fn book_defect(book: OrderBook, e: BookInvariantError) -> bool {
    ||| ladder_defect(book.bids_view(), Side::Buy, book.order_index@, 0, e)
    ||| ladder_defect(book.asks_view(), Side::Sell, book.order_index@, flatten(book.bids_view()).len() as int, e)
    ||| match e {
        BookInvariantError::IndexPointsToMissingOrder { order_id, side, price } => {
            &&& book.order_index@.contains_key(order_id)
            &&& book.order_index@[order_id] == (OrderLocation { side, price })
            &&& !exists|k: int|
                0 <= k < flatten(book.ladder(side)).len() && (#[trigger] flatten(book.ladder(side))[k]).order_id
                    == order_id && flatten(book.ladder(side))[k].price == price
        },
        BookInvariantError::OrderCountMismatch { indexed, resting } => {
            &&& indexed == book.order_index@.len()
            &&& resting == flatten(book.bids_view()).len() + flatten(book.asks_view()).len()
            &&& indexed != resting
        },
        _ => false,
    }
}

/// Check one ladder: levels nonempty and strictly best-first, orders of the right side and
/// price with positive quantities that sum within `u64`, each indexed at its location.
/// `resting` grows by the number of orders seen.
fn check_ladder(
    levels: &Vec<PriceLevel>,
    side: Side,
    index: &HashMap<OrderId, OrderLocation>,
    resting: &mut usize,
) -> (r: Result<(), BookInvariantError>)
    ensures
        ({
            let v = levels_view(levels@);
            &&& r is Ok ==> {
                &&& ladder_wf(v, side)
                &&& ladder_indexed(v, index@)
                &&& *final(resting) == *old(resting) + flatten(v).len()
            }
            &&& r is Err ==> !(ladder_wf(v, side) && ladder_indexed(v, index@) && *old(resting) + flatten(v).len()
                <= usize::MAX)
            &&& r matches Err(e) ==> ladder_defect(v, side, index@, *old(resting) as int, e)
            &&& r is Ok ==> levels_scan(v, side, index@, *old(resting) as int) == Ok::<int, BookInvariantError>(
                *final(resting) as int,
            )
            &&& r matches Err(e) ==> levels_scan(v, side, index@, *old(resting) as int) == Err::<int, BookInvariantError>(e)
        }),
{
    let ghost v = levels_view(levels@);
    let ghost r0 = *resting;
    let mut i: usize = 0;
    while i < levels.len()
        invariant
            v == levels_view(levels@),
            r0 == *old(resting),
            0 <= i <= levels@.len(),
            *resting == r0 + offset(v, i as int),
            levels_scan(v.take(i as int), side, index@, r0 as int) == Ok::<int, BookInvariantError>(*resting as int),
            forall|a: int| 0 <= a < i ==> level_wf(#[trigger] v[a], side),
            forall|a: int, b: int| 0 <= a < b < i ==> better(side, #[trigger] v[a].0 .0, #[trigger] v[b].0 .0),
            forall|a: int, b: int|
                0 <= a < i && 0 <= b < v[a].1.len() ==> {
                    &&& index@.contains_key((#[trigger] v[a].1[b]).order_id)
                    &&& index@[v[a].1[b].order_id] == location_of(v[a].1[b])
                },
        decreases levels@.len() - i,
    {
        let level = &levels[i];
        proof {
            lemma_offset_step(v, i as int);
            lemma_flatten_split_len(v, i as int);
        }
        let ghost c_level = *resting as int;
        if level.orders.len() == 0 {
            proof {
                let t = v.take(i + 1);
                assert(t.drop_last() =~= v.take(i as int));
                lemma_levels_scan_stops(v, side, index@, r0 as int, i + 1);
            }
            return Err(BookInvariantError::EmptyPriceLevel { side, price: level.price });
        }
        if i > 0 && !better_exec(side, levels[i - 1].price.0, level.price.0) {
            proof {
                assert(!better(side, v[i - 1].0 .0, v[i as int].0 .0));
                let t = v.take(i + 1);
                assert(t.drop_last() =~= v.take(i as int));
                assert(t[t.len() - 2] == v[i - 1]);
                lemma_levels_scan_stops(v, side, index@, r0 as int, i + 1);
            }
            return Err(BookInvariantError::UnsortedPriceLevels { side, price: level.price });
        }
        proof {
            lemma_level_step(v, side, index@, r0 as int, i as int, c_level);
        }
        let mut level_qty: u64 = 0;
        let mut j: usize = 0;
        while j < level.orders.len()
            invariant
                v == levels_view(levels@),
                r0 == *old(resting),
                0 <= i < levels@.len(),
                *level == levels@[i as int],
                v[i as int] == (level.price, level.orders@),
                0 <= j <= level.orders@.len(),
                *resting == r0 + offset(v, i as int) + j,
                offset(v, i as int) + level.orders@.len() <= flatten(v).len(),
                level_qty == qty_sum(level.orders@.take(j as int)),
                c_level == r0 + offset(v, i as int),
                levels_scan(v.take(i + 1), side, index@, r0 as int) == match orders_scan(
                    level.orders@,
                    side,
                    level.price,
                    index@,
                    c_level,
                ) {
                    Err(e) => Err::<int, BookInvariantError>(e),
                    Ok((c2, _)) => Ok(c2),
                },
                orders_scan(level.orders@.take(j as int), side, level.price, index@, c_level) == Ok::<
                    (int, int),
                    BookInvariantError,
                >((*resting as int, level_qty as int)),
                forall|b: int|
                    0 <= b < j ==> {
                        &&& (#[trigger] level.orders@[b]).side == side
                        &&& level.orders@[b].price == level.price
                        &&& level.orders@[b].qty.0 > 0
                        &&& index@.contains_key(level.orders@[b].order_id)
                        &&& index@[level.orders@[b].order_id] == location_of(level.orders@[b])
                    },
            decreases level.orders@.len() - j,
        {
            let order = &level.orders[j];
            let ghost c0 = *resting as int;
            let ghost q0 = level_qty as int;
            proof {
                lemma_flatten_index(v, i as int, j as int);
                let t = level.orders@.take(j as int + 1);
                assert(t.drop_last() =~= level.orders@.take(j as int));
                assert(t.last() == level.orders@[j as int]);
                assert(orders_scan(t, side, level.price, index@, c_level) == order_check(
                    *order,
                    side,
                    level.price,
                    index@,
                    c0,
                    q0,
                ));
            }
            if *resting == usize::MAX {
                let e = BookInvariantError::OrderCountMismatch { indexed: index.len(), resting: usize::MAX };
                proof {
                    lemma_order_fails(v, side, index@, r0 as int, i as int, j as int, c_level, e);
                }
                return Err(e);
            }
            *resting = *resting + 1;
            if order.side != side {
                let e = BookInvariantError::WrongOrderSide {
                    order_id: order.order_id,
                    expected: side,
                    actual: order.side,
                };
                proof {
                    lemma_order_fails(v, side, index@, r0 as int, i as int, j as int, c_level, e);
                }
                return Err(e);
            }
            if order.price.0 != level.price.0 {
                let e = BookInvariantError::WrongOrderPrice {
                    order_id: order.order_id,
                    level_price: level.price,
                    order_price: order.price,
                };
                proof {
                    lemma_order_fails(v, side, index@, r0 as int, i as int, j as int, c_level, e);
                }
                return Err(e);
            }
            if order.qty.0 == 0 {
                let e = BookInvariantError::ZeroQuantity(order.order_id);
                proof {
                    lemma_order_fails(v, side, index@, r0 as int, i as int, j as int, c_level, e);
                }
                return Err(e);
            }
            proof {
                assert(level.orders@.take(j as int + 1).drop_last() =~= level.orders@.take(j as int));
            }
            match level_qty.checked_add(order.qty.0) {
                Some(q) => {
                    level_qty = q;
                },
                None => {
                    proof {
                        lemma_qty_sum_prefix_le(level.orders@, j as int + 1);
                    }
                    let e = BookInvariantError::QuantityOverflow { side, price: level.price };
                    proof {
                        lemma_order_fails(v, side, index@, r0 as int, i as int, j as int, c_level, e);
                    }
                    return Err(e);
                },
            }
            match index.get(&order.order_id) {
                Some(location) => {
                    if location.side != side || location.price.0 != level.price.0 {
                        let e = BookInvariantError::IndexLocationMismatch {
                            order_id: order.order_id,
                            indexed_side: location.side,
                            indexed_price: location.price,
                            resting_side: side,
                            resting_price: level.price,
                        };
                        proof {
                            lemma_order_fails(v, side, index@, r0 as int, i as int, j as int, c_level, e);
                        }
                        return Err(e);
                    }
                },
                None => {
                    let e = BookInvariantError::MissingIndexEntry(order.order_id);
                    proof {
                        lemma_order_fails(v, side, index@, r0 as int, i as int, j as int, c_level, e);
                    }
                    return Err(e);
                },
            }
            j = j + 1;
        }
        proof {
            assert(level.orders@.take(j as int) =~= level.orders@);
            assert(level_wf(v[i as int], side));
            assert(levels_scan(v.take(i + 1), side, index@, r0 as int) == Ok::<int, BookInvariantError>(
                *resting as int,
            ));
            assert forall|a: int, b: int| 0 <= a < b < i + 1 implies better(side, #[trigger] v[a].0 .0, #[trigger] v[b].0 .0) by {
                if b == i && a < i - 1 {
                    assert(better(side, v[a].0 .0, v[i - 1].0 .0));
                }
            }
        }
        i = i + 1;
    }
    proof {
        assert(v.take(i as int) =~= v);
        assert(ladder_sorted(v, side));
        assert(levels_scan(v, side, index@, r0 as int) == Ok::<int, BookInvariantError>(*resting as int));
        assert forall|k: int| 0 <= k < flatten(v).len() implies {
            &&& index@.contains_key((#[trigger] flatten(v)[k]).order_id)
            &&& index@[flatten(v)[k].order_id] == location_of(flatten(v)[k])
        } by {
            let (a, b) = lemma_flatten_position(v, k);
        }
    }
    Ok(())
}

/// Offsets stay within the flattened ladder.
proof fn lemma_flatten_split_len(v: Seq<LevelView>, i: int)
    requires
        0 <= i < v.len(),
    ensures
        offset(v, i) + v[i].1.len() <= flatten(v).len(),
{
    super::model::lemma_flatten_split(v, i);
}

/// Is an order with this ID resting at this side and price?
fn rests_at(book: &OrderBook, order_id: OrderId, location: OrderLocation) -> (r: bool)
    requires
        ladder_wf(book.ladder(location.side), location.side),
    ensures
        r <==> exists|k: int|
            0 <= k < flatten(book.ladder(location.side)).len() && (#[trigger] flatten(
                book.ladder(location.side),
            )[k]).order_id == order_id && flatten(book.ladder(location.side))[k].price == location.price,
{
    let levels = match location.side {
        Side::Buy => &book.bids,
        Side::Sell => &book.asks,
    };
    let ghost v = book.ladder(location.side);
    assert(v == levels_view(levels@));
    let mut i: usize = 0;
    while i < levels.len()
        invariant
            v == levels_view(levels@),
            v == book.ladder(location.side),
            ladder_wf(v, location.side),
            0 <= i <= levels@.len(),
            forall|a: int| 0 <= a < i ==> v[a].0 != location.price,
        decreases levels@.len() - i,
    {
        if levels[i].price.0 == location.price.0 {
            let level = &levels[i];
            let mut j: usize = 0;
            while j < level.orders.len()
                invariant
                    *level == levels@[i as int],
                    v[i as int] == (level.price, level.orders@),
                    level.price == location.price,
                    0 <= i < levels@.len(),
                    v == levels_view(levels@),
                    v == book.ladder(location.side),
                    ladder_wf(v, location.side),
                    forall|a: int| 0 <= a < i ==> v[a].0 != location.price,
                    0 <= j <= level.orders@.len(),
                    forall|b: int| 0 <= b < j ==> (#[trigger] level.orders@[b]).order_id != order_id,
                decreases level.orders@.len() - j,
            {
                if level.orders[j].order_id == order_id {
                    proof {
                        lemma_flatten_index(v, i as int, j as int);
                        assert(level_wf(v[i as int], location.side));
                    }
                    return true;
                }
                j = j + 1;
            }
            proof {
                assert forall|k: int|
                    0 <= k < flatten(v).len() && (#[trigger] flatten(v)[k]).order_id == order_id implies flatten(
                        v,
                    )[k].price != location.price by {
                    let (a, b) = lemma_flatten_position(v, k);
                    assert(level_wf(v[a], location.side));
                    if a != i {
                        if a < i {
                            assert(v[a].0 != location.price);
                        } else {
                            assert(better(location.side, v[i as int].0 .0, v[a].0 .0));
                        }
                    }
                }
            }
            return false;
        }
        i = i + 1;
    }
    proof {
        assert forall|k: int|
            0 <= k < flatten(v).len() && (#[trigger] flatten(v)[k]).order_id == order_id implies flatten(
                v,
            )[k].price != location.price by {
            let (a, b) = lemma_flatten_position(v, k);
            assert(level_wf(v[a], location.side));
        }
    }
    false
}

impl OrderBook {
    /// Check the structural invariant: nonempty, strictly sorted levels of orders of the
    /// right side and price with positive quantities that sum within `u64`, and an index
    /// that maps exactly the resting order IDs to their locations. `Ok` exactly when the
    /// book is well formed; the first failure found is reported (see `structural_outcome`).
    pub fn check_invariants(&self) -> (r: Result<(), BookInvariantError>)
        ensures
            r is Ok <==> self.wf(),
            r matches Err(e) ==> book_defect(*self, e),
            structural_outcome(*self, r),
    {
        let mut resting: usize = 0;
        let ghost fb = flatten(self.bids_view());
        let ghost fa = flatten(self.asks_view());
        let ghost all = self.all_orders();
        let ghost idx = self.order_index@;
        proof {
            if self.wf() {
                lemma_wf_counts(self);
            }
        }
        match check_ladder(&self.bids, Side::Buy, &self.order_index, &mut resting) {
            Ok(()) => {},
            Err(e) => return Err(e),
        }
        let ghost c_bids = resting as int;
        match check_ladder(&self.asks, Side::Sell, &self.order_index, &mut resting) {
            Ok(()) => {},
            Err(e) => return Err(e),
        }
        let ghost covered = ids_of(all).to_set();
        let ghost s0 = vstd::std_specs::hash::spec_hash_map_iter(&self.order_index).remaining();
        let ghost mut seen: int = 0;
        for entry in it: self.order_index.iter()
            invariant
                it.seq() == s0,
                seen == it.index(),
                s0 == vstd::std_specs::hash::spec_hash_map_iter(&self.order_index).remaining(),
                forall|n: int| 0 <= n < seen ==> covered.contains(*(#[trigger] s0[n]).0),
                forall|n: int| 0 <= n < seen ==> !stale_entry(*self, *(#[trigger] s0[n]).0),
                levels_scan(self.bids_view(), Side::Buy, idx, 0) == Ok::<int, BookInvariantError>(c_bids),
                levels_scan(self.asks_view(), Side::Sell, idx, c_bids) == Ok::<int, BookInvariantError>(resting as int),
                ladder_wf(self.bids_view(), Side::Buy),
                ladder_wf(self.asks_view(), Side::Sell),
                idx == self.order_index@,
                all == self.all_orders(),
                covered == ids_of(all).to_set(),
                self.wf() ==> index_ok(all, idx),
        {
            let (order_id, location) = entry;
            proof {
                assert(it.seq() == vstd::std_specs::hash::spec_hash_map_iter(&self.order_index).remaining());
                assert(idx.contains_key(*order_id) && idx[*order_id] == *location);
            }
            if !rests_at(self, *order_id, *location) {
                proof {
                    if self.wf() {
                        lemma_indexed_key_rests(self, *order_id);
                    }
                    assert(stale_entry(*self, *order_id));
                }
                return Err(
                    BookInvariantError::IndexPointsToMissingOrder {
                        order_id: *order_id,
                        side: location.side,
                        price: location.price,
                    },
                );
            }
            proof {
                lemma_rests_covered(self, *order_id, location.side);
                seen = seen + 1;
            }
        }
        proof {
            assert(seen == s0.len());
            assert forall|k: OrderId| idx.contains_key(k) implies covered.contains(k) && !stale_entry(*self, k) by {
                let s = s0;
                assert(s.contains((&k, &idx[k])));
                let n = choose|n: int| 0 <= n < s.len() && s[n] == (&k, &idx[k]);
                assert(covered.contains(*s[n].0));
                assert(!stale_entry(*self, *s[n].0));
            }
            assert(!exists|id: OrderId| stale_entry(*self, id));
        }
        if self.order_index.len() != resting {
            return Err(BookInvariantError::OrderCountMismatch { indexed: self.order_index.len(), resting });
        }
        proof {
            lemma_check_complete(self, resting);
        }
        Ok(())
    }
}

impl OrderBook {
    /// The structural check, then: the best bid is strictly below the best ask.
    /// `Ok` exactly when the book is well formed and uncrossed.
    pub fn check_matching_invariants(&self) -> (r: Result<(), BookInvariantError>)
        ensures
            r is Ok <==> (self.wf() && self.uncrossed()),
            r matches Err(e) ==> book_defect(*self, e) || e is CrossedBook,
            r matches Err(BookInvariantError::CrossedBook { best_bid, best_ask }) ==> self.wf() && self.bids@.len() > 0
                && self.asks@.len() > 0 && best_bid == self.bids@[0].price && best_ask == self.asks@[0].price
                && best_bid.0 >= best_ask.0,
            !self.wf() ==> structural_outcome(*self, r),
            self.wf() && !self.uncrossed() ==> r == Err::<(), BookInvariantError>(
                BookInvariantError::CrossedBook { best_bid: self.bids@[0].price, best_ask: self.asks@[0].price },
            ),
    {
        match self.check_invariants() {
            Ok(()) => {},
            Err(e) => return Err(e),
        }
        if self.bids.len() > 0 && self.asks.len() > 0 {
            let best_bid = self.bids[0].price;
            let best_ask = self.asks[0].price;
            if best_bid.0 >= best_ask.0 {
                return Err(BookInvariantError::CrossedBook { best_bid, best_ask });
            }
        }
        Ok(())
    }
}

/// Check a book's structural invariant and that it is not crossed.
pub fn assert_book_invariants(book: &OrderBook) -> (r: Result<(), BookInvariantError>)
    ensures
        r is Ok <==> (book.wf() && book.uncrossed()),
        r matches Err(e) ==> book_defect(*book, e) || e is CrossedBook,
        r matches Err(BookInvariantError::CrossedBook { best_bid, best_ask }) ==> book.wf() && book.bids@.len() > 0
            && book.asks@.len() > 0 && best_bid == book.bids@[0].price && best_ask == book.asks@[0].price
            && best_bid.0 >= best_ask.0,
        !book.wf() ==> structural_outcome(*book, r),
        book.wf() && !book.uncrossed() ==> r == Err::<(), BookInvariantError>(
            BookInvariantError::CrossedBook { best_bid: book.bids@[0].price, best_ask: book.asks@[0].price },
        ),
{
    book.check_matching_invariants()
}

/// Under the invariant: index counts and per-ladder index facts.
pub proof fn lemma_wf_counts(book: &OrderBook)
    requires
        book.wf(),
    ensures
        book.all_orders().len() == book.order_index@.len(),
        book.all_orders().len() <= usize::MAX,
        ladder_indexed(book.bids_view(), book.order_index@),
        ladder_indexed(book.asks_view(), book.order_index@),
        flatten(book.bids_view()).len() + flatten(book.asks_view()).len() == book.all_orders().len(),
{
    let all = book.all_orders();
    let fb = flatten(book.bids_view());
    let idx = book.order_index@;
    ids_of(all).unique_seq_to_set();
    assert(idx.dom() == ids_of(all).to_set());
    assert(idx.len() == idx.dom().len());
    assert(book.order_index.len() == idx.len());
    assert forall|k: int| 0 <= k < fb.len() implies {
        &&& idx.contains_key((#[trigger] fb[k]).order_id)
        &&& idx[fb[k].order_id] == location_of(fb[k])
    } by {
        assert(all[k] == fb[k]);
        assert(ids_of(all)[k] == fb[k].order_id);
    }
    let fa = flatten(book.asks_view());
    assert forall|k: int| 0 <= k < fa.len() implies {
        &&& idx.contains_key((#[trigger] fa[k]).order_id)
        &&& idx[fa[k].order_id] == location_of(fa[k])
    } by {
        assert(all[fb.len() + k] == fa[k]);
        assert(ids_of(all)[fb.len() + k] == fa[k].order_id);
    }
}

/// Under the invariant, an indexed ID rests at the indexed location.
proof fn lemma_indexed_key_rests(book: &OrderBook, id: OrderId)
    requires
        book.wf(),
        book.order_index@.contains_key(id),
    ensures
        ({
            let loc = book.order_index@[id];
            exists|k: int|
                0 <= k < flatten(book.ladder(loc.side)).len() && (#[trigger] flatten(book.ladder(loc.side))[k]).order_id
                    == id && flatten(book.ladder(loc.side))[k].price == loc.price
        }),
{
    let all = book.all_orders();
    let fb = flatten(book.bids_view());
    let fa = flatten(book.asks_view());
    let loc = book.order_index@[id];
    assert(ids_of(all).to_set().contains(id));
    let k = choose|k: int| 0 <= k < ids_of(all).len() && ids_of(all)[k] == id;
    assert(book.order_index@[all[k].order_id] == location_of(all[k]));
    if k < fb.len() {
        assert(all[k] == fb[k]);
        super::model::lemma_flatten_orders_wf(book.bids_view(), Side::Buy, k);
        assert(flatten(book.ladder(loc.side))[k].order_id == id);
    } else {
        assert(all[k] == fa[k - fb.len()]);
        super::model::lemma_flatten_orders_wf(book.asks_view(), Side::Sell, k - fb.len());
        assert(flatten(book.ladder(loc.side))[k - fb.len()].order_id == id);
    }
}

/// An ID resting on either side is among the IDs of all resting orders.
proof fn lemma_rests_covered(book: &OrderBook, id: OrderId, side: Side)
    requires
        exists|k: int|
            0 <= k < flatten(book.ladder(side)).len() && (#[trigger] flatten(book.ladder(side))[k]).order_id == id,
    ensures
        ids_of(book.all_orders()).to_set().contains(id),
{
    let all = book.all_orders();
    let fb = flatten(book.bids_view());
    let k = choose|k: int| 0 <= k < flatten(book.ladder(side)).len() && (#[trigger] flatten(book.ladder(side))[k]).order_id == id;
    let p = if side == Side::Buy { k } else { fb.len() + k };
    assert(ids_of(all)[p] == id);
}

/// When every check passed, the book is well formed.
proof fn lemma_check_complete(book: &OrderBook, resting: usize)
    requires
        ladder_wf(book.bids_view(), Side::Buy),
        ladder_wf(book.asks_view(), Side::Sell),
        ladder_indexed(book.bids_view(), book.order_index@),
        ladder_indexed(book.asks_view(), book.order_index@),
        resting == flatten(book.bids_view()).len() + flatten(book.asks_view()).len(),
        book.order_index.len() == resting,
        forall|k: OrderId| book.order_index@.contains_key(k) ==> ids_of(book.all_orders()).to_set().contains(k),
    ensures
        book.wf(),
{
    let all = book.all_orders();
    let fb = flatten(book.bids_view());
    let fa = flatten(book.asks_view());
    let idx = book.order_index@;
    let ids = ids_of(all);
    assert forall|k: int| 0 <= k < all.len() implies idx.contains_key((#[trigger] all[k]).order_id) && idx[all[k].order_id]
        == location_of(all[k]) by {
        if k < fb.len() {
            assert(all[k] == fb[k]);
        } else {
            assert(all[k] == fa[k - fb.len()]);
        }
    }
    assert forall|x: OrderId| ids.to_set().contains(x) implies idx.contains_key(x) by {
        let k = choose|k: int| 0 <= k < ids.len() && ids[k] == x;
        assert(idx.contains_key(all[k].order_id));
    }
    assert(idx.dom() =~= ids.to_set());
    assert(idx.len() == book.order_index.len());
    ids.lemma_no_dup_set_cardinality();
}

} // verus!
