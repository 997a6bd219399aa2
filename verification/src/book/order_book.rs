//! Single-symbol limit order book: bid and ask ladders of FIFO price levels and an
//! order-ID index.
use std::collections::HashMap;

use vstd::prelude::*;

use crate::types::{Order, OrderId, OrderType, PriceTicks, Qty, Side, StrategyId, Symbol, TimestampNanos};

use super::model::{
    better, find_level, flatten, ids_of, index_ok, insert_point, is_insert_point, ladder_add,
    ladder_pop_front, ladder_remove_at, ladder_set_front_qty, ladder_wf, lemma_flatten_concat,
    lemma_flatten_index, lemma_flatten_orders_wf, lemma_flatten_position, lemma_flatten_split,
    lemma_index_insert, lemma_index_remove, lemma_index_update, lemma_locate_unique, lemma_pop_front,
    lemma_remove_at, lemma_set_front_qty, level_wf, locate, location_of, offset, qty_sum, LevelView,
};
use super::price_level::{lemma_qty_sum_prefix_le, PriceLevel};
use super::snapshot::{BookSnapshot, PriceLevelSnapshot};

verus! {

broadcast use {vstd::seq_lib::group_seq_properties, vstd::std_specs::hash::group_hash_axioms};

#[derive(Debug, Clone, Copy, PartialEq, Eq, Structural)]
pub struct RestingOrder {
    pub order_id: OrderId,
    pub side: Side,
    pub price: PriceTicks,
    pub qty: Qty,
    pub timestamp_ns: TimestampNanos,
    pub strategy_id: Option<StrategyId>,
}

/// Where a resting order lives: its side and price level.
#[derive(Debug, Clone, Copy, PartialEq, Eq, Structural)]
pub struct OrderLocation {
    pub side: Side,
    pub price: PriceTicks,
}

#[derive(Debug, Clone, PartialEq, Eq)]
pub enum BookError {
    DuplicateOrderId(OrderId),
    InvalidQuantity(Qty),
    QuantityOverflow(PriceTicks),
    SymbolMismatch { expected: Symbol, actual: Symbol },
    NotLimitOrder(OrderId),
    MissingPrice(OrderId),
    InvalidPrice(OrderId),
    UnknownOrder(OrderId),
}

#[derive(Debug, Clone, Copy, PartialEq, Eq, Structural)]
pub enum BookInvariantError {
    EmptyPriceLevel { side: Side, price: PriceTicks },
    UnsortedPriceLevels { side: Side, price: PriceTicks },
    WrongOrderSide { order_id: OrderId, expected: Side, actual: Side },
    WrongOrderPrice { order_id: OrderId, level_price: PriceTicks, order_price: PriceTicks },
    ZeroQuantity(OrderId),
    QuantityOverflow { side: Side, price: PriceTicks },
    MissingIndexEntry(OrderId),
    IndexLocationMismatch {
        order_id: OrderId,
        indexed_side: Side,
        indexed_price: PriceTicks,
        resting_side: Side,
        resting_price: PriceTicks,
    },
    IndexPointsToMissingOrder { order_id: OrderId, side: Side, price: PriceTicks },
    OrderCountMismatch { indexed: usize, resting: usize },
    CrossedBook { best_bid: PriceTicks, best_ask: PriceTicks },
}

/// Ladders as values.
pub open spec fn levels_view(v: Seq<PriceLevel>) -> Seq<LevelView> {
    v.map_values(|l: PriceLevel| l.view_level())
}

/// The resting form of an accepted limit order at `price`.
pub open spec fn resting_from(order: Order, price: PriceTicks) -> RestingOrder {
    RestingOrder {
        order_id: order.order_id,
        side: order.side,
        price,
        qty: order.qty,
        timestamp_ns: order.timestamp_ns,
        strategy_id: order.strategy_id,
    }
}

/// Validation of a new limit order against a book given by its two ladders and symbol:
/// duplicate ID, zero quantity, symbol, order type, missing or non-positive price, and
/// aggregate-quantity overflow at the order's level, in that order.
pub open spec fn validate_on(bids: Seq<LevelView>, asks: Seq<LevelView>, symbol: Symbol, order: Order) -> Result<
    PriceTicks,
    BookError,
> {
    let own = match order.side {
        Side::Buy => bids,
        Side::Sell => asks,
    };
    if ids_of(flatten(bids) + flatten(asks)).contains(order.order_id) {
        Err(BookError::DuplicateOrderId(order.order_id))
    } else if order.qty.0 == 0 {
        Err(BookError::InvalidQuantity(order.qty))
    } else if order.symbol@ != symbol@ {
        Err(BookError::SymbolMismatch { expected: symbol, actual: order.symbol })
    } else if order.order_type != OrderType::Limit {
        Err(BookError::NotLimitOrder(order.order_id))
    } else {
        match order.price {
            None => Err(BookError::MissingPrice(order.order_id)),
            Some(p) => if p.0 <= 0 {
                Err(BookError::InvalidPrice(order.order_id))
            } else {
                match find_level(own, p) {
                    Some(i) => if qty_sum(own[i].1) + order.qty.0 > u64::MAX {
                        Err(BookError::QuantityOverflow(p))
                    } else {
                        Ok(p)
                    },
                    None => Ok(p),
                }
            },
        }
    }
}

/// Bids are kept best (highest) first and asks best (lowest) first.
#[derive(Debug, Clone, PartialEq, Eq)]
pub struct OrderBook {
    pub symbol: Symbol,
    pub bids: Vec<PriceLevel>,
    pub asks: Vec<PriceLevel>,
    pub order_index: HashMap<OrderId, OrderLocation>,
}

impl OrderBook {
    pub open spec fn bids_view(&self) -> Seq<LevelView> {
        levels_view(self.bids@)
    }

    pub open spec fn asks_view(&self) -> Seq<LevelView> {
        levels_view(self.asks@)
    }

    pub open spec fn ladder(&self, side: Side) -> Seq<LevelView> {
        match side {
            Side::Buy => self.bids_view(),
            Side::Sell => self.asks_view(),
        }
    }

    /// Every resting order: bids in priority order, then asks in priority order.
    pub open spec fn all_orders(&self) -> Seq<RestingOrder> {
        flatten(self.bids_view()) + flatten(self.asks_view())
    }

    /// Structural invariant: sorted non-empty levels of well-formed orders, unique IDs,
    /// and an index that maps exactly the resting IDs to their locations.
    pub open spec fn wf(&self) -> bool {
        &&& ladder_wf(self.bids_view(), Side::Buy)
        &&& ladder_wf(self.asks_view(), Side::Sell)
        &&& index_ok(self.all_orders(), self.order_index@)
    }

    /// An order with this ID rests in the book.
    pub open spec fn rests(&self, order_id: OrderId) -> bool {
        ids_of(self.all_orders()).contains(order_id)
    }

    pub open spec fn spec_best(&self, side: Side) -> Option<PriceTicks> {
        if self.ladder(side).len() > 0 {
            Some(self.ladder(side)[0].0)
        } else {
            None
        }
    }

    /// The best bid is strictly below the best ask whenever both exist.
    pub open spec fn uncrossed(&self) -> bool {
        self.bids@.len() > 0 && self.asks@.len() > 0 ==> self.bids@[0].price.0 < self.asks@[0].price.0
    }

    /// The validation outcome for a new limit order, checks in order.
    pub open spec fn spec_validate(&self, order: Order) -> Result<PriceTicks, BookError> {
        validate_on(self.bids_view(), self.asks_view(), self.symbol, order)
    }

    pub fn new(symbol: Symbol) -> (r: Self)
        ensures
            r.wf(),
            r.symbol == symbol,
            r.bids@.len() == 0,
            r.asks@.len() == 0,
    {
        let r = OrderBook { symbol, bids: Vec::new(), asks: Vec::new(), order_index: HashMap::new() };
        proof {
            assert(r.bids_view() =~= Seq::<LevelView>::empty());
            assert(r.asks_view() =~= Seq::<LevelView>::empty());
            assert(r.all_orders() =~= Seq::<RestingOrder>::empty());
            assert(ids_of(r.all_orders()).to_set() =~= Set::<OrderId>::empty());
        }
        r
    }

    pub fn symbol(&self) -> (r: &Symbol)
        ensures
            *r == self.symbol,
    {
        &self.symbol
    }

    pub fn best_bid(&self) -> (r: Option<PriceTicks>)
        ensures
            r == self.spec_best(Side::Buy),
    {
        if self.bids.len() > 0 {
            Some(self.bids[0].price)
        } else {
            None
        }
    }

    pub fn best_ask(&self) -> (r: Option<PriceTicks>)
        ensures
            r == self.spec_best(Side::Sell),
    {
        if self.asks.len() > 0 {
            Some(self.asks[0].price)
        } else {
            None
        }
    }

    /// Validate a new limit order against this book without changing it.
    pub fn validate_limit_order(&self, order: &Order) -> (r: Result<PriceTicks, BookError>)
        requires
            self.wf(),
        ensures
            r == self.spec_validate(*order),
    {
        if self.order_index.contains_key(&order.order_id) {
            return Err(BookError::DuplicateOrderId(order.order_id));
        }
        if order.qty.0 == 0 {
            return Err(BookError::InvalidQuantity(order.qty));
        }
        if !order.symbol.same_as(&self.symbol) {
            return Err(
                BookError::SymbolMismatch {
                    expected: self.symbol.duplicate(),
                    actual: order.symbol.duplicate(),
                },
            );
        }
        if order.order_type != OrderType::Limit {
            return Err(BookError::NotLimitOrder(order.order_id));
        }
        let price = match order.price {
            Some(p) => p,
            None => return Err(BookError::MissingPrice(order.order_id)),
        };
        if price.0 <= 0 {
            return Err(BookError::InvalidPrice(order.order_id));
        }
        let levels = match order.side {
            Side::Buy => &self.bids,
            Side::Sell => &self.asks,
        };
        match find_level_index(levels, order.side, price) {
            Some(i) => {
                let total = levels[i].total_qty();
                if total.0.checked_add(order.qty.0).is_none() {
                    return Err(BookError::QuantityOverflow(price));
                }
            },
            None => {},
        }
        Ok(price)
    }

    /// Rest a validated limit order at the back of its price level.
    pub fn add_limit_order(&mut self, order: Order) -> (r: Result<(), BookError>)
        requires
            old(self).wf(),
        ensures
            final(self).wf(),
            match old(self).spec_validate(order) {
                Ok(p) => {
                    &&& r is Ok
                    &&& final(self).symbol == old(self).symbol
                    &&& final(self).ladder(order.side) == ladder_add(
                        old(self).ladder(order.side),
                        order.side,
                        resting_from(order, p),
                    )
                    &&& final(self).ladder(crate::types::spec_opposite(order.side)) == old(self).ladder(
                        crate::types::spec_opposite(order.side),
                    )
                    &&& (old(self).uncrossed() && match old(self).spec_best(crate::types::spec_opposite(order.side)) {
                        Some(b) => better(crate::types::spec_opposite(order.side), p.0, b.0),
                        None => true,
                    }) ==> final(self).uncrossed()
                },
                Err(e) => r == Err::<(), BookError>(e) && *final(self) == *old(self),
            },
    {
        let price = match self.validate_limit_order(&order) {
            Ok(p) => p,
            Err(e) => return Err(e),
        };
        let order_id = order.order_id;
        let side = order.side;
        let resting_order = RestingOrder {
            order_id,
            side,
            price,
            qty: order.qty,
            timestamp_ns: order.timestamp_ns,
            strategy_id: order.strategy_id,
        };
        let ghost old_all = self.all_orders();
        let ghost old_bids = self.bids_view();
        let ghost old_asks = self.asks_view();
        let ghost old_index = self.order_index@;
        let ghost pos: int;
        match side {
            Side::Buy => {
                let p = ladder_push(&mut self.bids, Side::Buy, resting_order);
                proof {
                    pos = p@;
                    assert(self.all_orders() =~= old_all.insert(pos, resting_order));
                }
            },
            Side::Sell => {
                let p = ladder_push(&mut self.asks, Side::Sell, resting_order);
                proof {
                    pos = flatten(old_bids).len() + p@;
                    assert(self.all_orders() =~= old_all.insert(pos, resting_order));
                }
            },
        }
        self.order_index.insert(order_id, OrderLocation { side, price });
        proof {
            lemma_index_insert(old_all, old_index, pos, resting_order);
            let own = if side == Side::Buy { old_bids } else { old_asks };
            lemma_ladder_add_front(own, side, resting_order);
        }
        Ok(())
    }
}

impl OrderBook {
    /// IDs on each side are distinct, and the flattening of all orders splits into the two sides.
    pub proof fn lemma_sides(&self)
        requires
            self.wf(),
        ensures
            ids_of(flatten(self.bids_view())).no_duplicates(),
            ids_of(flatten(self.asks_view())).no_duplicates(),
            ids_of(self.all_orders()) == ids_of(flatten(self.bids_view())) + ids_of(flatten(self.asks_view())),
    {
        let a = ids_of(flatten(self.bids_view()));
        let b = ids_of(flatten(self.asks_view()));
        let all = ids_of(self.all_orders());
        assert(all =~= a + b);
        assert forall|x: int, y: int| 0 <= x < a.len() && 0 <= y < a.len() && x != y implies a[x] != a[y] by {
            assert(a[x] == all[x]);
            assert(a[y] == all[y]);
        }
        assert forall|x: int, y: int| 0 <= x < b.len() && 0 <= y < b.len() && x != y implies b[x] != b[y] by {
            assert(b[x] == all[x + a.len()]);
            assert(b[y] == all[y + a.len()]);
        }
    }

    /// Where a resting order with this ID sits: its side (as indexed), level and queue slot.
    pub proof fn lemma_find_by_id(&self, id: OrderId) -> (r: (Side, int, int))
        requires
            self.wf(),
            self.rests(id),
        ensures
            self.order_index@.contains_key(id),
            r.0 == self.order_index@[id].side,
            0 <= r.1 < self.ladder(r.0).len(),
            0 <= r.2 < self.ladder(r.0)[r.1].1.len(),
            self.ladder(r.0)[r.1].1[r.2].order_id == id,
            self.ladder(r.0)[r.1].0 == self.order_index@[id].price,
            locate(self.ladder(r.0), id) == (r.1, r.2),
            ids_of(flatten(self.ladder(r.0))).no_duplicates(),
    {
        self.lemma_sides();
        let all = self.all_orders();
        let bv = self.bids_view();
        let av = self.asks_view();
        let k = choose|k: int| 0 <= k < ids_of(all).len() && ids_of(all)[k] == id;
        assert(ids_of(all).to_set().contains(id));
        assert(self.order_index@[all[k].order_id] == location_of(all[k]));
        let nb = flatten(bv).len() as int;
        if k < nb {
            assert(all[k] == flatten(bv)[k]);
            let (i, j) = lemma_flatten_position(bv, k);
            lemma_flatten_orders_wf(bv, Side::Buy, k);
            assert(level_wf(bv[i], Side::Buy));
            assert(bv[i].1[j].price == bv[i].0);
            lemma_locate_unique(bv, i, j);
            (Side::Buy, i, j)
        } else {
            assert(all[k] == flatten(av)[k - nb]);
            let (i, j) = lemma_flatten_position(av, k - nb);
            lemma_flatten_orders_wf(av, Side::Sell, k - nb);
            assert(level_wf(av[i], Side::Sell));
            assert(av[i].1[j].price == av[i].0);
            lemma_locate_unique(av, i, j);
            (Side::Sell, i, j)
        }
    }

    /// The resting order with this ID, if any.
    pub fn get_order(&self, order_id: OrderId) -> (r: Option<&RestingOrder>)
        requires
            self.wf(),
        ensures
            r is Some <==> self.rests(order_id),
            r matches Some(o) ==> o.order_id == order_id && self.all_orders().contains(*o),
    {
        let loc = match self.order_index.get(&order_id) {
            Some(l) => *l,
            None => {
                proof {
                    assert(!ids_of(self.all_orders()).to_set().contains(order_id));
                }
                return None;
            },
        };
        let ghost found = self.lemma_find_by_id(order_id);
        let levels = match loc.side {
            Side::Buy => &self.bids,
            Side::Sell => &self.asks,
        };
        let ghost v = levels_view(levels@);
        proof {
            assert(v == self.ladder(loc.side));
            assert(exists|m: int| 0 <= m < v.len() && v[m].0 == loc.price);
        }
        let i = match find_level_index(levels, loc.side, loc.price) {
            Some(i) => i,
            None => {
                proof {
                    assert(v[found.1].0 == loc.price);
                }
                return None;
            },
        };
        proof {
            let c = find_level(v, loc.price).unwrap();
            assert(v[found.1].0 == loc.price);
            if found.1 < c {
                assert(better(loc.side, v[found.1].0 .0, v[c].0 .0));
            } else if found.1 > c {
                assert(better(loc.side, v[c].0 .0, v[found.1].0 .0));
            }
            assert(found.1 == i);
            assert(v[i as int].1 == levels@[i as int].orders@);
            assert(levels@[i as int].orders@[found.2].order_id == order_id);
        }
        let r = levels[i].get_order(order_id);
        proof {
            match r {
                Some(o) => {
                    let j = choose|j: int| 0 <= j < levels@[i as int].orders@.len() && levels@[i as int].orders@[j] == *o;
                    lemma_flatten_index(v, i as int, j);
                    let p = offset(v, i as int) + j;
                    if loc.side == Side::Buy {
                        assert(self.all_orders()[p] == *o);
                    } else {
                        assert(self.all_orders()[flatten(self.bids_view()).len() + p] == *o);
                    }
                },
                None => {},
            }
        }
        r
    }

    /// The best order on the side opposite to `incoming_side`.
    pub fn best_opposite_order(&self, incoming_side: Side) -> (r: Option<&RestingOrder>)
        requires
            self.wf(),
        ensures
            r == (if self.ladder(crate::types::spec_opposite(incoming_side)).len() > 0 {
                Some(&self.ladder(crate::types::spec_opposite(incoming_side))[0].1[0])
            } else {
                None
            }),
    {
        let levels = match incoming_side {
            Side::Buy => &self.asks,
            Side::Sell => &self.bids,
        };
        if levels.len() == 0 {
            return None;
        }
        proof {
            assert(level_wf(levels_view(levels@)[0], crate::types::spec_opposite(incoming_side)));
        }
        levels[0].front()
    }

    /// Remove and return the best order opposite to `incoming_side`.
    pub fn remove_best_opposite(&mut self, incoming_side: Side) -> (r: Option<RestingOrder>)
        requires
            old(self).wf(),
        ensures
            final(self).wf(),
            old(self).uncrossed() ==> final(self).uncrossed(),
            final(self).symbol == old(self).symbol,
            final(self).ladder(incoming_side) == old(self).ladder(incoming_side),
            old(self).ladder(crate::types::spec_opposite(incoming_side)).len() == 0 ==> r is None && *final(self)
                == *old(self),
            old(self).ladder(crate::types::spec_opposite(incoming_side)).len() > 0 ==> {
                &&& r == Some(old(self).ladder(crate::types::spec_opposite(incoming_side))[0].1[0])
                &&& final(self).ladder(crate::types::spec_opposite(incoming_side)) == ladder_pop_front(
                    old(self).ladder(crate::types::spec_opposite(incoming_side)),
                )
            },
    {
        let ghost old_all = self.all_orders();
        let ghost old_index = self.order_index@;
        let ghost nb = flatten(self.bids_view()).len() as int;
        let removed = match incoming_side {
            Side::Buy => {
                if self.asks.len() == 0 {
                    return None;
                }
                let ghost v = self.asks_view();
                proof {
                    lemma_pop_front(v, Side::Sell);
                }
                let removed = ladder_pop_best(&mut self.asks);
                proof {
                    assert(self.asks_view() =~= ladder_pop_front(v));
                    assert(self.all_orders() =~= old_all.remove(nb));
                    if v.len() > 1 {
                        assert(better(Side::Sell, v[0].0 .0, v[1].0 .0));
                    }
                }
                removed
            },
            Side::Sell => {
                if self.bids.len() == 0 {
                    return None;
                }
                let ghost v = self.bids_view();
                proof {
                    lemma_pop_front(v, Side::Buy);
                }
                let removed = ladder_pop_best(&mut self.bids);
                proof {
                    assert(self.bids_view() =~= ladder_pop_front(v));
                    assert(self.all_orders() =~= old_all.remove(0));
                    if v.len() > 1 {
                        assert(better(Side::Buy, v[0].0 .0, v[1].0 .0));
                    }
                }
                removed
            },
        };
        self.order_index.remove(&removed.order_id);
        proof {
            let k = if incoming_side == Side::Buy { nb } else { 0 };
            assert(old_all[k] == removed);
            lemma_index_remove(old_all, old_index, k);
        }
        Some(removed)
    }

    /// Reduce the quantity of the best order opposite to `incoming_side` by `fill_qty`,
    /// which must be smaller than that order's quantity; returns the updated order.
    pub fn reduce_best_opposite_qty(&mut self, incoming_side: Side, fill_qty: Qty) -> (r: Option<RestingOrder>)
        requires
            old(self).wf(),
            old(self).ladder(crate::types::spec_opposite(incoming_side)).len() > 0,
            0 < fill_qty.0 < old(self).ladder(crate::types::spec_opposite(incoming_side))[0].1[0].qty.0,
        ensures
            final(self).wf(),
            old(self).uncrossed() ==> final(self).uncrossed(),
            final(self).symbol == old(self).symbol,
            final(self).ladder(incoming_side) == old(self).ladder(incoming_side),
            final(self).ladder(crate::types::spec_opposite(incoming_side)) == ladder_set_front_qty(
                old(self).ladder(crate::types::spec_opposite(incoming_side)),
                (old(self).ladder(crate::types::spec_opposite(incoming_side))[0].1[0].qty.0 - fill_qty.0) as u64,
            ),
            r == Some(final(self).ladder(crate::types::spec_opposite(incoming_side))[0].1[0]),
    {
        let ghost old_all = self.all_orders();
        let ghost nb = flatten(self.bids_view()).len() as int;
        match incoming_side {
            Side::Buy => {
                let ghost v = self.asks_view();
                proof {
                    assert(level_wf(v[0], Side::Sell));
                    lemma_set_front_qty(v, Side::Sell, (v[0].1[0].qty.0 - fill_qty.0) as u64);
                }
                let updated = ladder_reduce_best(&mut self.asks, fill_qty);
                proof {
                    let q = (v[0].1[0].qty.0 - fill_qty.0) as u64;
                    assert(self.asks_view() =~= ladder_set_front_qty(v, q));
                    assert(self.all_orders() =~= old_all.update(nb, updated));
                    lemma_index_update(old_all, self.order_index@, nb, updated);
                    assert(self.asks_view()[0].1[0] == updated);
                }
                Some(updated)
            },
            Side::Sell => {
                let ghost v = self.bids_view();
                proof {
                    assert(level_wf(v[0], Side::Buy));
                    lemma_set_front_qty(v, Side::Buy, (v[0].1[0].qty.0 - fill_qty.0) as u64);
                }
                let updated = ladder_reduce_best(&mut self.bids, fill_qty);
                proof {
                    let q = (v[0].1[0].qty.0 - fill_qty.0) as u64;
                    assert(self.bids_view() =~= ladder_set_front_qty(v, q));
                    assert(self.all_orders() =~= old_all.update(0, updated));
                    lemma_index_update(old_all, self.order_index@, 0, updated);
                    assert(self.bids_view()[0].1[0] == updated);
                }
                Some(updated)
            },
        }
    }

    /// Remove the resting order with this ID.
    pub fn cancel_order(&mut self, order_id: OrderId) -> (r: Result<RestingOrder, BookError>)
        requires
            old(self).wf(),
        ensures
            final(self).wf(),
            old(self).uncrossed() ==> final(self).uncrossed(),
            !old(self).rests(order_id) ==> r == Err::<RestingOrder, BookError>(BookError::UnknownOrder(order_id))
                && *final(self) == *old(self),
            old(self).rests(order_id) ==> (r matches Ok(o) && {
                let s = o.side;
                let (i, j) = locate(old(self).ladder(s), order_id);
                &&& o.order_id == order_id
                &&& 0 <= i < old(self).ladder(s).len()
                &&& 0 <= j < old(self).ladder(s)[i].1.len()
                &&& o == old(self).ladder(s)[i].1[j]
                &&& final(self).symbol == old(self).symbol
                &&& final(self).ladder(s) == ladder_remove_at(old(self).ladder(s), i, j)
                &&& final(self).ladder(crate::types::spec_opposite(s)) == old(self).ladder(
                    crate::types::spec_opposite(s),
                )
            }),
    {
        let loc = match self.order_index.get(&order_id) {
            Some(l) => *l,
            None => {
                proof {
                    assert(!ids_of(self.all_orders()).to_set().contains(order_id));
                }
                return Err(BookError::UnknownOrder(order_id));
            },
        };
        let ghost found = self.lemma_find_by_id(order_id);
        let ghost old_all = self.all_orders();
        let ghost old_index = self.order_index@;
        let ghost nb = flatten(self.bids_view()).len() as int;
        let ghost gk: int;
        let removed = match loc.side {
            Side::Buy => {
                let ghost v = self.bids_view();
                let removed = ladder_cancel(&mut self.bids, Side::Buy, loc.price, order_id, Ghost(found.1), Ghost(found.2));
                proof {
                    lemma_remove_at(v, Side::Buy, found.1, found.2);
                    assert(self.bids_view() =~= ladder_remove_at(v, found.1, found.2));
                    if v.len() > 1 {
                        assert(better(Side::Buy, v[0].0 .0, v[1].0 .0));
                    }
                    gk = offset(v, found.1) + found.2;
                    assert(self.all_orders() =~= old_all.remove(gk));
                    lemma_flatten_index(v, found.1, found.2);
                }
                removed
            },
            Side::Sell => {
                let ghost v = self.asks_view();
                let removed = ladder_cancel(&mut self.asks, Side::Sell, loc.price, order_id, Ghost(found.1), Ghost(found.2));
                proof {
                    lemma_remove_at(v, Side::Sell, found.1, found.2);
                    assert(self.asks_view() =~= ladder_remove_at(v, found.1, found.2));
                    if v.len() > 1 {
                        assert(better(Side::Sell, v[0].0 .0, v[1].0 .0));
                    }
                    gk = nb + offset(v, found.1) + found.2;
                    assert(self.all_orders() =~= old_all.remove(gk));
                    lemma_flatten_index(v, found.1, found.2);
                }
                removed
            },
        };
        self.order_index.remove(&order_id);
        proof {
            assert(old_all[gk] == removed);
            lemma_index_remove(old_all, old_index, gk);
            assert(level_wf(old(self).ladder(loc.side)[found.1], loc.side));
        }
        Ok(removed)
    }
}

/// Pop the best order of a non-empty ladder, dropping its level when it empties.
fn ladder_pop_best(levels: &mut Vec<PriceLevel>) -> (r: RestingOrder)
    requires
        old(levels)@.len() > 0,
        old(levels)@[0].orders@.len() > 0,
    ensures
        r == old(levels)@[0].orders@[0],
        levels_view(final(levels)@) == ladder_pop_front(levels_view(old(levels)@)),
{
    let ghost v = levels_view(levels@);
    let r = levels[0].orders.remove(0);
    if levels[0].orders.len() == 0 {
        levels.remove(0);
        proof {
            assert(levels_view(levels@) =~= v.drop_first());
        }
    } else {
        proof {
            assert(levels_view(levels@) =~= v.update(0, (v[0].0, v[0].1.drop_first())));
        }
    }
    r
}

/// Reduce the best order of a non-empty ladder by `fill_qty`.
fn ladder_reduce_best(levels: &mut Vec<PriceLevel>, fill_qty: Qty) -> (r: RestingOrder)
    requires
        old(levels)@.len() > 0,
        old(levels)@[0].orders@.len() > 0,
        fill_qty.0 <= old(levels)@[0].orders@[0].qty.0,
    ensures
        r == (RestingOrder { qty: Qty((old(levels)@[0].orders@[0].qty.0 - fill_qty.0) as u64), ..old(levels)@[0].orders@[0] }),
        levels_view(final(levels)@) == ladder_set_front_qty(
            levels_view(old(levels)@),
            (old(levels)@[0].orders@[0].qty.0 - fill_qty.0) as u64,
        ),
{
    let ghost v = levels_view(levels@);
    let o = levels[0].orders[0];
    let updated = RestingOrder { qty: Qty(o.qty.0 - fill_qty.0), ..o };
    levels[0].orders[0] = updated;
    proof {
        assert(levels_view(levels@) =~= ladder_set_front_qty(v, (o.qty.0 - fill_qty.0) as u64));
    }
    updated
}

/// Remove the order with this ID from the level at `price`; it sits at (`gi`, `gj`).
fn ladder_cancel(
    levels: &mut Vec<PriceLevel>,
    side: Side,
    price: PriceTicks,
    order_id: OrderId,
    gi: Ghost<int>,
    gj: Ghost<int>,
) -> (r: RestingOrder)
    requires
        ladder_wf(levels_view(old(levels)@), side),
        0 <= gi@ < old(levels)@.len(),
        0 <= gj@ < old(levels)@[gi@].orders@.len(),
        old(levels)@[gi@].price == price,
        old(levels)@[gi@].orders@[gj@].order_id == order_id,
        locate(levels_view(old(levels)@), order_id) == (gi@, gj@),
        ids_of(flatten(levels_view(old(levels)@))).no_duplicates(),
    ensures
        r == old(levels)@[gi@].orders@[gj@],
        levels_view(final(levels)@) == ladder_remove_at(levels_view(old(levels)@), gi@, gj@),
{
    let ghost v = levels_view(levels@);
    proof {
        assert(v[gi@].0 == price);
        lemma_locate_unique(v, gi@, gj@);
    }
    let i = match find_level_index(levels, side, price) {
        Some(i) => i,
        None => {
            proof {
                assert(exists|m: int| 0 <= m < v.len() && v[m].0 == price);
            }
            unreached()
        },
    };
    proof {
        let c = find_level(v, price).unwrap();
        if gi@ < c {
            assert(better(side, v[gi@].0 .0, v[c].0 .0));
        } else if gi@ > c {
            assert(better(side, v[c].0 .0, v[gi@].0 .0));
        }
        assert(i == gi@);
    }
    let j = match levels[i].position_of(order_id) {
        Some(j) => j,
        None => {
            proof {
                assert(levels@[i as int].orders@[gj@].order_id == order_id);
            }
            unreached()
        },
    };
    proof {
        assert(v[i as int].1[j as int].order_id == order_id);
        assert(j == gj@);
    }
    if levels[i].orders.len() == 1 {
        let l = levels.remove(i);
        proof {
            assert(levels_view(levels@) =~= v.remove(i as int));
        }
        l.orders[0]
    } else {
        let r = levels[i].orders.remove(j);
        proof {
            assert(levels_view(levels@) =~= v.update(i as int, (v[i as int].0, v[i as int].1.remove(j as int))));
        }
        r
    }
}

/// A level snapshot describes a level: same price, aggregate quantity, count and FIFO IDs.
pub open spec fn level_snapshot_of(s: PriceLevelSnapshot, l: LevelView) -> bool {
    &&& s.price == l.0
    &&& s.total_qty.0 == qty_sum(l.1)
    &&& s.order_count == l.1.len()
    &&& s.order_ids@ == ids_of(l.1)
}

/// The snapshot of one side lists its best `depth` levels, best first.
pub open spec fn side_snapshot_of(snap: Seq<PriceLevelSnapshot>, levels: Seq<LevelView>, depth: usize) -> bool {
    &&& snap.len() == (if depth < levels.len() { depth as int } else { levels.len() as int })
    &&& forall|i: int| 0 <= i < snap.len() ==> level_snapshot_of(#[trigger] snap[i], levels[i])
}

fn snapshot_side(levels: &Vec<PriceLevel>, side: Side, depth: usize) -> (r: Vec<PriceLevelSnapshot>)
    requires
        ladder_wf(levels_view(levels@), side),
    ensures
        side_snapshot_of(r@, levels_view(levels@), depth),
{
    let ghost v = levels_view(levels@);
    let mut out: Vec<PriceLevelSnapshot> = Vec::new();
    let mut i: usize = 0;
    while i < levels.len() && i < depth
        invariant
            v == levels_view(levels@),
            ladder_wf(v, side),
            i <= levels@.len(),
            i <= depth,
            out@.len() == i,
            forall|m: int| 0 <= m < i ==> level_snapshot_of(#[trigger] out@[m], v[m]),
        decreases levels@.len() - i,
    {
        proof {
            assert(level_wf(v[i as int], side));
        }
        let level = &levels[i];
        let snap = PriceLevelSnapshot {
            price: level.price,
            total_qty: level.total_qty(),
            order_count: level.len(),
            order_ids: level.order_ids(),
        };
        out.push(snap);
        i = i + 1;
    }
    out
}

impl OrderBook {
    /// Copy of the best `depth` levels on each side, best first.
    pub fn snapshot(&self, depth: usize) -> (r: BookSnapshot)
        requires
            self.wf(),
        ensures
            r.symbol == self.symbol,
            side_snapshot_of(r.bids@, self.bids_view(), depth),
            side_snapshot_of(r.asks@, self.asks_view(), depth),
    {
        let bids = snapshot_side(&self.bids, Side::Buy, depth);
        let asks = snapshot_side(&self.asks, Side::Sell, depth);
        BookSnapshot { symbol: self.symbol.duplicate(), bids, asks }
    }
}

/// Index of the level at `price` in a sorted ladder.
fn find_level_index(levels: &Vec<PriceLevel>, side: Side, price: PriceTicks) -> (r: Option<usize>)
    requires
        ladder_wf(levels_view(levels@), side),
    ensures
        r matches Some(i) ==> i < levels@.len() && levels@[i as int].price == price
            && find_level(levels_view(levels@), price) == Some(i as int),
        r is None ==> find_level(levels_view(levels@), price) is None,
{
    let ghost v = levels_view(levels@);
    let mut i: usize = 0;
    while i < levels.len()
        invariant
            i <= levels@.len(),
            v == levels_view(levels@),
            ladder_wf(v, side),
            forall|m: int| 0 <= m < i ==> levels@[m].price != price,
        decreases levels@.len() - i,
    {
        if levels[i].price == price {
            proof {
                assert(v[i as int].0 == price);
                assert(exists|j: int| 0 <= j < v.len() && v[j].0 == price);
                let j = find_level(v, price).unwrap();
                assert(0 <= j < v.len() && v[j].0 == price);
                if j < i {
                    assert(levels@[j].price == v[j].0);
                    assert(false);
                } else if j > i {
                    let a = v[i as int].0 .0;
                    let b = v[j].0 .0;
                    assert(better(side, a, b));
                    assert(false);
                }
            }
            return Some(i);
        }
        i = i + 1;
    }
    proof {
        assert forall|m: int| 0 <= m < v.len() implies v[m].0 != price by {
            assert(levels@[m].price != price);
        }
    }
    None
}

/// First level whose price is not strictly better than `price`.
fn insert_index(levels: &Vec<PriceLevel>, side: Side, price: i64) -> (k: usize)
    requires
        ladder_wf(levels_view(levels@), side),
        forall|i: int| 0 <= i < levels@.len() ==> levels@[i].price.0 != price,
    ensures
        k <= levels@.len(),
        is_insert_point(levels_view(levels@), side, price, k as int),
        insert_point(levels_view(levels@), side, price) == k,
{
    let ghost v = levels_view(levels@);
    let mut k: usize = 0;
    while k < levels.len() && better_exec(side, levels[k].price.0, price)
        invariant
            k <= levels@.len(),
            v == levels_view(levels@),
            ladder_wf(v, side),
            forall|i: int| 0 <= i < k ==> better(side, #[trigger] v[i].0 .0, price),
        decreases levels@.len() - k,
    {
        k = k + 1;
    }
    proof {
        assert forall|i: int| k <= i < v.len() implies better(side, price, #[trigger] v[i].0 .0) by {
            assert(v[k as int].0 .0 != price);
            if i > k {
                assert(better(side, v[k as int].0 .0, v[i].0 .0));
            }
        }
        lemma_insert_point_unique(v, side, price, k as int);
    }
    k
}

/// Add an order to a ladder; returns (as a ghost value) where it lands in priority order.
fn ladder_push(levels: &mut Vec<PriceLevel>, side: Side, o: RestingOrder) -> (pos: Ghost<int>)
    requires
        ladder_wf(levels_view(old(levels)@), side),
        o.side == side,
        o.qty.0 > 0,
        match find_level(levels_view(old(levels)@), o.price) {
            Some(i) => qty_sum(levels_view(old(levels)@)[i].1) + o.qty.0 <= u64::MAX,
            None => true,
        },
    ensures
        levels_view(final(levels)@) == ladder_add(levels_view(old(levels)@), side, o),
        ladder_wf(levels_view(final(levels)@), side),
        0 <= pos@ <= flatten(levels_view(old(levels)@)).len(),
        flatten(levels_view(final(levels)@)) == flatten(levels_view(old(levels)@)).insert(pos@, o),
        find_level(levels_view(old(levels)@), o.price) is None ==> is_insert_point(
            levels_view(old(levels)@),
            side,
            o.price.0,
            insert_point(levels_view(old(levels)@), side, o.price.0),
        ),
{
    let ghost v = levels_view(levels@);
    match find_level_index(levels, side, o.price) {
        Some(i) => {
            levels[i].push_back(o);
            let ghost nv = levels_view(levels@);
            proof {
                assert(nv =~= v.update(i as int, (v[i as int].0, v[i as int].1.push(o))));
                lemma_push_existing(v, side, i as int, o);
            }
            let ghost off = offset(v, i as int) + v[i as int].1.len();
            Ghost(off)
        },
        None => {
            proof {
                assert forall|m: int| 0 <= m < levels@.len() implies levels@[m].price.0 != o.price.0 by {
                    if levels@[m].price.0 == o.price.0 {
                        assert(v[m].0 == o.price);
                        assert(exists|j: int| 0 <= j < v.len() && v[j].0 == o.price);
                    }
                }
            }
            let k = insert_index(levels, side, o.price.0);
            let mut l = PriceLevel::new(o.price);
            l.push_back(o);
            levels.insert(k, l);
            let ghost nv = levels_view(levels@);
            proof {
                assert(l.orders@ =~= seq![o]);
                assert(nv =~= v.insert(k as int, (o.price, seq![o])));
                lemma_insert_new(v, side, k as int, o);
            }
            let ghost off = offset(v, k as int);
            Ghost(off)
        },
    }
}

proof fn lemma_push_existing(v: Seq<LevelView>, side: Side, i: int, o: RestingOrder)
    requires
        ladder_wf(v, side),
        0 <= i < v.len(),
        v[i].0 == o.price,
        o.side == side,
        o.qty.0 > 0,
        qty_sum(v[i].1) + o.qty.0 <= u64::MAX,
    ensures
        ladder_wf(v.update(i, (v[i].0, v[i].1.push(o))), side),
        flatten(v.update(i, (v[i].0, v[i].1.push(o)))) == flatten(v).insert(offset(v, i) + v[i].1.len(), o),
        0 <= offset(v, i) + v[i].1.len() <= flatten(v).len(),
{
    let nl = (v[i].0, v[i].1.push(o));
    let nv = v.update(i, nl);
    assert(nl.1.drop_last() =~= v[i].1);
    assert forall|m: int| 0 <= m < nv.len() implies level_wf(#[trigger] nv[m], side) by {
        if m != i {
            assert(nv[m] == v[m]);
        } else {
            assert(level_wf(v[m], side));
            assert forall|j: int| 0 <= j < nl.1.len() implies {
                &&& (#[trigger] nl.1[j]).side == side
                &&& nl.1[j].price == nl.0
                &&& nl.1[j].qty.0 > 0
            } by {
                if j < v[i].1.len() {
                    assert(nl.1[j] == v[i].1[j]);
                }
            }
        }
    }
    assert forall|a: int, b: int| 0 <= a < b < nv.len() implies better(
        side,
        #[trigger] nv[a].0 .0,
        #[trigger] nv[b].0 .0,
    ) by {
        assert(nv[a].0 == v[a].0);
        assert(nv[b].0 == v[b].0);
        assert(better(side, v[a].0 .0, v[b].0 .0));
    }
    lemma_flatten_split(v, i);
    lemma_flatten_split(nv, i);
    assert(nv.take(i) =~= v.take(i));
    assert(nv.skip(i + 1) =~= v.skip(i + 1));
    assert(flatten(nv) =~= flatten(v).insert(offset(v, i) + v[i].1.len(), o));
}

proof fn lemma_insert_new(v: Seq<LevelView>, side: Side, k: int, o: RestingOrder)
    requires
        ladder_wf(v, side),
        is_insert_point(v, side, o.price.0, k),
        o.side == side,
        o.qty.0 > 0,
    ensures
        ladder_wf(v.insert(k, (o.price, seq![o])), side),
        flatten(v.insert(k, (o.price, seq![o]))) == flatten(v).insert(offset(v, k), o),
        0 <= offset(v, k) <= flatten(v).len(),
{
    lemma_insert_new_wf(v, side, k, o);
    lemma_insert_new_flatten(v, k, o);
}

/// A new one-order level at its insertion point keeps the ladder well formed.
proof fn lemma_insert_new_wf(v: Seq<LevelView>, side: Side, k: int, o: RestingOrder)
    requires
        ladder_wf(v, side),
        is_insert_point(v, side, o.price.0, k),
        o.side == side,
        o.qty.0 > 0,
    ensures
        ladder_wf(v.insert(k, (o.price, seq![o])), side),
{
    let nl = (o.price, seq![o]);
    let nv = v.insert(k, nl);
    assert(nl.1.drop_last() =~= Seq::<RestingOrder>::empty());
    assert(qty_sum(nl.1.drop_last()) == 0);
    assert(qty_sum(nl.1) == o.qty.0);
    assert forall|m: int| 0 <= m < nv.len() implies level_wf(#[trigger] nv[m], side) by {
        if m < k {
            assert(nv[m] == v[m]);
        } else if m > k {
            assert(nv[m] == v[m - 1]);
        }
    }
    assert forall|a: int, b: int| 0 <= a < b < nv.len() implies better(
        side,
        #[trigger] nv[a].0 .0,
        #[trigger] nv[b].0 .0,
    ) by {
        if a < k && b < k {
            assert(better(side, v[a].0 .0, v[b].0 .0));
        } else if a < k && b == k {
            assert(better(side, v[a].0 .0, o.price.0));
        } else if a < k && b > k {
            assert(nv[b] == v[b - 1]);
            assert(better(side, v[a].0 .0, v[b - 1].0 .0));
        } else if a == k {
            assert(nv[b] == v[b - 1]);
            assert(better(side, o.price.0, v[b - 1].0 .0));
        } else {
            assert(nv[a] == v[a - 1]);
            assert(nv[b] == v[b - 1]);
            assert(better(side, v[a - 1].0 .0, v[b - 1].0 .0));
        }
    }
}

/// A new one-order level at position `k` puts its order after all orders of the better levels.
proof fn lemma_insert_new_flatten(v: Seq<LevelView>, k: int, o: RestingOrder)
    requires
        0 <= k <= v.len(),
    ensures
        flatten(v.insert(k, (o.price, seq![o]))) == flatten(v).insert(offset(v, k), o),
        0 <= offset(v, k) <= flatten(v).len(),
{
    let nl = (o.price, seq![o]);
    let nv = v.insert(k, nl);
    assert(v =~= v.take(k) + v.skip(k));
    lemma_flatten_concat(v.take(k), v.skip(k));
    lemma_flatten_split(nv, k);
    assert(nv.take(k) =~= v.take(k));
    assert(nv.skip(k + 1) =~= v.skip(k));
    assert(nv[k] == nl);
    assert(flatten(nv) =~= flatten(v).insert(offset(v, k), o));
}

/// The best level after an order joins a ladder is the old best level or the order's own price.
proof fn lemma_ladder_add_front(levels: Seq<LevelView>, side: Side, o: RestingOrder)
    requires
        find_level(levels, o.price) is None ==> is_insert_point(levels, side, o.price.0, insert_point(levels, side, o.price.0)),
    ensures
        ladder_add(levels, side, o).len() > 0,
        ladder_add(levels, side, o)[0].0 == o.price || (levels.len() > 0 && ladder_add(levels, side, o)[0].0
            == levels[0].0),
{
    match find_level(levels, o.price) {
        Some(i) => {
            assert(0 <= i < levels.len() && levels[i].0 == o.price);
        },
        None => {},
    }
}

pub fn better_exec(side: Side, a: i64, b: i64) -> (r: bool)
    ensures
        r == better(side, a, b),
{
    match side {
        Side::Buy => a > b,
        Side::Sell => a < b,
    }
}

proof fn lemma_insert_point_unique(v: Seq<LevelView>, side: Side, price: i64, k: int)
    requires
        is_insert_point(v, side, price, k),
    ensures
        insert_point(v, side, price) == k,
{
    let c = insert_point(v, side, price);
    assert(is_insert_point(v, side, price, c));
    if c < k {
        assert(better(side, v[c].0 .0, price));
        assert(better(side, price, v[c].0 .0));
    } else if c > k {
        assert(better(side, v[k].0 .0, price));
        assert(better(side, price, v[k].0 .0));
    }
}

} // verus!
