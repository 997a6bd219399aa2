//! Mathematical model of an order book: price levels as (price, FIFO queue) pairs,
//! one ladder per side, and the facts about flattening ladders into priority order.
use vstd::prelude::*;

use crate::types::{OrderId, PriceTicks, Side};

use super::order_book::{OrderLocation, RestingOrder};

verus! {

broadcast use vstd::seq_lib::group_seq_properties;

/// A price level as a value: its price and its orders in time priority.
pub type LevelView = (PriceTicks, Seq<RestingOrder>);

/// Sum of the quantities of a sequence of orders.
pub open spec fn qty_sum(s: Seq<RestingOrder>) -> nat
    decreases s.len(),
{
    if s.len() == 0 {
        0
    } else {
        qty_sum(s.drop_last()) + (s.last().qty.0 as nat)
    }
}

/// Order IDs of a sequence of orders, in the same order.
pub open spec fn ids_of(s: Seq<RestingOrder>) -> Seq<OrderId> {
    s.map_values(|o: RestingOrder| o.order_id)
}

/// All orders of a ladder in priority order: best level first, FIFO within a level.
pub open spec fn flatten(levels: Seq<LevelView>) -> Seq<RestingOrder>
    decreases levels.len(),
{
    if levels.len() == 0 {
        Seq::empty()
    } else {
        levels[0].1 + flatten(levels.drop_first())
    }
}

/// `a` has strictly better priority than `b` on `side`: higher for bids, lower for asks.
pub open spec fn better(side: Side, a: i64, b: i64) -> bool {
    match side {
        Side::Buy => a > b,
        Side::Sell => a < b,
    }
}

/// A level is well formed: nonempty, every order belongs to this side and price and
/// has a positive quantity, and the aggregate quantity fits in `u64`.
pub open spec fn level_wf(l: LevelView, side: Side) -> bool {
    &&& l.1.len() > 0
    &&& forall|j: int|
        0 <= j < l.1.len() ==> {
            &&& (#[trigger] l.1[j]).side == side
            &&& l.1[j].price == l.0
            &&& l.1[j].qty.0 > 0
        }
    &&& qty_sum(l.1) <= u64::MAX
}

/// Levels strictly ordered from best to worst price.
pub open spec fn ladder_sorted(levels: Seq<LevelView>, side: Side) -> bool {
    forall|i: int, j: int|
        0 <= i < j < levels.len() ==> better(side, #[trigger] levels[i].0 .0, #[trigger] levels[j].0 .0)
}

/// A ladder is well formed: sorted best-first, and every level well formed.
pub open spec fn ladder_wf(levels: Seq<LevelView>, side: Side) -> bool {
    &&& ladder_sorted(levels, side)
    &&& forall|i: int| 0 <= i < levels.len() ==> level_wf(#[trigger] levels[i], side)
}

/// The location an order index should hold for a resting order.
pub open spec fn location_of(o: RestingOrder) -> OrderLocation {
    OrderLocation { side: o.side, price: o.price }
}

/// The order index covers exactly the resting orders, with their locations,
/// and no order ID rests twice.
pub open spec fn index_ok(all: Seq<RestingOrder>, index: Map<OrderId, OrderLocation>) -> bool {
    &&& ids_of(all).no_duplicates()
    &&& index.dom() == ids_of(all).to_set()
    &&& forall|k: int| 0 <= k < all.len() ==> index[(#[trigger] all[k]).order_id] == location_of(all[k])
}

/// Index of the level at `price`, if any.
pub open spec fn find_level(levels: Seq<LevelView>, price: PriceTicks) -> Option<int> {
    if exists|i: int| 0 <= i < levels.len() && levels[i].0 == price {
        Some(choose|i: int| 0 <= i < levels.len() && levels[i].0 == price)
    } else {
        None
    }
}

/// Where a new level at `price` goes: after every strictly better level.
pub open spec fn is_insert_point(levels: Seq<LevelView>, side: Side, price: i64, k: int) -> bool {
    &&& 0 <= k <= levels.len()
    &&& forall|i: int| 0 <= i < k ==> better(side, #[trigger] levels[i].0 .0, price)
    &&& forall|i: int| k <= i < levels.len() ==> better(side, price, #[trigger] levels[i].0 .0)
}

pub open spec fn insert_point(levels: Seq<LevelView>, side: Side, price: i64) -> int {
    choose|k: int| is_insert_point(levels, side, price, k)
}

/// The ladder after a new order joins it: at the back of its level's queue,
/// or as the only order of a new level in price order.
pub open spec fn ladder_add(levels: Seq<LevelView>, side: Side, o: RestingOrder) -> Seq<LevelView> {
    match find_level(levels, o.price) {
        Some(i) => levels.update(i, (levels[i].0, levels[i].1.push(o))),
        None => levels.insert(insert_point(levels, side, o.price.0), (o.price, seq![o])),
    }
}

/// The ladder after its best order leaves (its level too, when that empties).
pub open spec fn ladder_pop_front(levels: Seq<LevelView>) -> Seq<LevelView> {
    if levels[0].1.len() == 1 {
        levels.drop_first()
    } else {
        levels.update(0, (levels[0].0, levels[0].1.drop_first()))
    }
}

/// The ladder after its best order's quantity becomes `q`.
pub open spec fn ladder_set_front_qty(levels: Seq<LevelView>, q: u64) -> Seq<LevelView> {
    let o = levels[0].1[0];
    levels.update(0, (levels[0].0, levels[0].1.update(0, RestingOrder { qty: crate::types::Qty(q), ..o })))
}

/// The ladder after the order at queue position `j` of level `i` leaves.
pub open spec fn ladder_remove_at(levels: Seq<LevelView>, i: int, j: int) -> Seq<LevelView> {
    if levels[i].1.len() == 1 {
        levels.remove(i)
    } else {
        levels.update(i, (levels[i].0, levels[i].1.remove(j)))
    }
}

/// Number of orders in the levels before level `i`.
pub open spec fn offset(levels: Seq<LevelView>, i: int) -> int {
    flatten(levels.take(i)).len() as int
}

// ---------------------------------------------------------------------------
// Lemmas
// ---------------------------------------------------------------------------

pub proof fn lemma_flatten_concat(a: Seq<LevelView>, b: Seq<LevelView>)
    ensures
        flatten(a + b) == flatten(a) + flatten(b),
    decreases a.len(),
{
    if a.len() == 0 {
        assert(a + b =~= b);
        assert(flatten(a) =~= Seq::<RestingOrder>::empty());
        assert(flatten(a) + flatten(b) =~= flatten(b));
    } else {
        assert((a + b).drop_first() =~= a.drop_first() + b);
        lemma_flatten_concat(a.drop_first(), b);
        assert(flatten(a + b) =~= flatten(a) + flatten(b));
    }
}

pub proof fn lemma_flatten_single(l: LevelView)
    ensures
        flatten(seq![l]) == l.1,
{
    assert(seq![l].drop_first() =~= Seq::<LevelView>::empty());
    assert(flatten(Seq::<LevelView>::empty()) =~= Seq::<RestingOrder>::empty());
    assert(flatten(seq![l]) == l.1 + flatten(seq![l].drop_first()));
    assert(flatten(seq![l]) =~= l.1);
}

/// Splitting a ladder around level `i`.
pub proof fn lemma_flatten_split(levels: Seq<LevelView>, i: int)
    requires
        0 <= i < levels.len(),
    ensures
        flatten(levels) == flatten(levels.take(i)) + levels[i].1 + flatten(levels.skip(i + 1)),
        offset(levels, i) + levels[i].1.len() + flatten(levels.skip(i + 1)).len() == flatten(levels).len(),
{
    assert(levels =~= levels.take(i) + seq![levels[i]] + levels.skip(i + 1));
    lemma_flatten_concat(levels.take(i) + seq![levels[i]], levels.skip(i + 1));
    lemma_flatten_concat(levels.take(i), seq![levels[i]]);
    lemma_flatten_single(levels[i]);
}

/// The order at position `j` of level `i` sits at position `offset(i) + j` of the flattening.
pub proof fn lemma_flatten_index(levels: Seq<LevelView>, i: int, j: int)
    requires
        0 <= i < levels.len(),
        0 <= j < levels[i].1.len(),
    ensures
        0 <= offset(levels, i) + j < flatten(levels).len(),
        flatten(levels)[offset(levels, i) + j] == levels[i].1[j],
{
    lemma_flatten_split(levels, i);
}

/// Every position of the flattening comes from some level position.
pub proof fn lemma_flatten_position(levels: Seq<LevelView>, k: int) -> (ij: (int, int))
    requires
        0 <= k < flatten(levels).len(),
    ensures
        0 <= ij.0 < levels.len(),
        0 <= ij.1 < levels[ij.0].1.len(),
        k == offset(levels, ij.0) + ij.1,
        flatten(levels)[k] == levels[ij.0].1[ij.1],
    decreases levels.len(),
{
    if k < levels[0].1.len() {
        assert(levels.take(0) =~= Seq::<LevelView>::empty());
        assert(flatten(levels.take(0)) =~= Seq::<RestingOrder>::empty());
        (0, k)
    } else {
        let rest = levels.drop_first();
        let (i, j) = lemma_flatten_position(rest, k - levels[0].1.len());
        assert(levels.take(i + 1) =~= seq![levels[0]] + rest.take(i));
        lemma_flatten_concat(seq![levels[0]], rest.take(i));
        lemma_flatten_single(levels[0]);
        (i + 1, j)
    }
}

/// Every order of a well-formed ladder is on that side and at its level's price, with positive quantity.
pub proof fn lemma_flatten_orders_wf(levels: Seq<LevelView>, side: Side, k: int)
    requires
        ladder_wf(levels, side),
        0 <= k < flatten(levels).len(),
    ensures
        flatten(levels)[k].side == side,
        flatten(levels)[k].qty.0 > 0,
        exists|i: int| 0 <= i < levels.len() && levels[i].0 == flatten(levels)[k].price,
{
    let (i, j) = lemma_flatten_position(levels, k);
    assert(level_wf(levels[i], side));
}

/// Removing the first element of an ID sequence without duplicates.
pub proof fn lemma_nodup_remove(s: Seq<OrderId>, k: int)
    requires
        s.no_duplicates(),
        0 <= k < s.len(),
    ensures
        s.remove(k).no_duplicates(),
        s.remove(k).to_set() == s.to_set().remove(s[k]),
{
    let r = s.remove(k);
    assert forall|a: int, b: int| 0 <= a < r.len() && 0 <= b < r.len() && a != b implies r[a] != r[b] by {
        let oa = if a < k { a } else { a + 1 };
        let ob = if b < k { b } else { b + 1 };
        assert(r[a] == s[oa]);
        assert(r[b] == s[ob]);
    }
    assert forall|x: OrderId| r.to_set().contains(x) <==> s.to_set().remove(s[k]).contains(x) by {
        if r.to_set().contains(x) {
            let a = choose|a: int| 0 <= a < r.len() && r[a] == x;
            let oa = if a < k { a } else { a + 1 };
            assert(s[oa] == x);
            assert(s.contains(x));
        }
        if s.to_set().remove(s[k]).contains(x) {
            let a = choose|a: int| 0 <= a < s.len() && s[a] == x;
            assert(a != k);
            if a < k {
                assert(r[a] == x);
            } else {
                assert(r[a - 1] == x);
            }
            assert(r.contains(x));
        }
    }
    assert(r.to_set() =~= s.to_set().remove(s[k]));
}

/// Inserting a fresh ID into a sequence without duplicates.
pub proof fn lemma_nodup_insert(s: Seq<OrderId>, k: int, x: OrderId)
    requires
        s.no_duplicates(),
        0 <= k <= s.len(),
        !s.contains(x),
    ensures
        s.insert(k, x).no_duplicates(),
        s.insert(k, x).to_set() == s.to_set().insert(x),
{
    let r = s.insert(k, x);
    s.insert_ensures(k, x);
    assert forall|a: int, b: int| 0 <= a < r.len() && 0 <= b < r.len() && a != b implies r[a] != r[b] by {
        if a != k && b != k {
            let oa = if a < k { a } else { a - 1 };
            let ob = if b < k { b } else { b - 1 };
            assert(r[a] == s[oa]);
            assert(r[b] == s[ob]);
        } else if a == k {
            let ob = if b < k { b } else { b - 1 };
            assert(r[b] == s[ob]);
        } else {
            let oa = if a < k { a } else { a - 1 };
            assert(r[a] == s[oa]);
        }
    }
    assert forall|y: OrderId| r.to_set().contains(y) <==> s.to_set().insert(x).contains(y) by {
        if r.to_set().contains(y) {
            let a = choose|a: int| 0 <= a < r.len() && r[a] == y;
            if a != k {
                let oa = if a < k { a } else { a - 1 };
                assert(r[a] == s[oa]);
                assert(s.contains(y));
            }
        }
        if s.to_set().insert(x).contains(y) {
            if y == x {
                assert(r[k] == x);
            } else {
                let a = choose|a: int| 0 <= a < s.len() && s[a] == y;
                if a < k {
                    assert(r[a] == y);
                } else {
                    assert(r[a + 1] == y);
                }
            }
            assert(r.contains(y));
        }
    }
    assert(r.to_set() =~= s.to_set().insert(x));
}

/// The index stays consistent when the order at position `k` leaves.
pub proof fn lemma_index_remove(all: Seq<RestingOrder>, index: Map<OrderId, OrderLocation>, k: int)
    requires
        index_ok(all, index),
        0 <= k < all.len(),
    ensures
        index_ok(all.remove(k), index.remove(all[k].order_id)),
{
    assert(ids_of(all.remove(k)) =~= ids_of(all).remove(k));
    lemma_nodup_remove(ids_of(all), k);
    let r = all.remove(k);
    let ni = index.remove(all[k].order_id);
    assert(ni.dom() =~= ids_of(r).to_set());
    assert forall|m: int| 0 <= m < r.len() implies ni[(#[trigger] r[m]).order_id] == location_of(r[m]) by {
        let om = if m < k { m } else { m + 1 };
        assert(r[m] == all[om]);
        assert(ids_of(all)[om] != ids_of(all)[k]);
    }
}

/// The index stays consistent when a fresh order joins at position `k`.
pub proof fn lemma_index_insert(all: Seq<RestingOrder>, index: Map<OrderId, OrderLocation>, k: int, o: RestingOrder)
    requires
        index_ok(all, index),
        0 <= k <= all.len(),
        !ids_of(all).contains(o.order_id),
    ensures
        index_ok(all.insert(k, o), index.insert(o.order_id, location_of(o))),
{
    assert(ids_of(all.insert(k, o)) =~= ids_of(all).insert(k, o.order_id));
    lemma_nodup_insert(ids_of(all), k, o.order_id);
    let r = all.insert(k, o);
    all.insert_ensures(k, o);
    let ni = index.insert(o.order_id, location_of(o));
    assert(ni.dom() =~= ids_of(r).to_set());
    assert forall|m: int| 0 <= m < r.len() implies ni[(#[trigger] r[m]).order_id] == location_of(r[m]) by {
        if m != k {
            let om = if m < k { m } else { m - 1 };
            assert(r[m] == all[om]);
            assert(ids_of(all)[om] == all[om].order_id);
            assert(ids_of(all).contains(all[om].order_id));
        }
    }
}

/// The index stays consistent when an order is replaced by one with the same ID and location.
pub proof fn lemma_index_update(all: Seq<RestingOrder>, index: Map<OrderId, OrderLocation>, k: int, o: RestingOrder)
    requires
        index_ok(all, index),
        0 <= k < all.len(),
        o.order_id == all[k].order_id,
        location_of(o) == location_of(all[k]),
    ensures
        index_ok(all.update(k, o), index),
{
    assert(ids_of(all.update(k, o)) =~= ids_of(all));
    let r = all.update(k, o);
    assert forall|m: int| 0 <= m < r.len() implies index[(#[trigger] r[m]).order_id] == location_of(r[m]) by {
        if m != k {
            assert(r[m] == all[m]);
        }
    }
}

} // verus!

verus! {

/// Position (level, queue slot) of the order with this ID.
pub open spec fn locate(levels: Seq<LevelView>, order_id: OrderId) -> (int, int) {
    choose|i: int, j: int|
        0 <= i < levels.len() && 0 <= j < levels[i].1.len() && levels[i].1[j].order_id == order_id
}

pub proof fn lemma_qty_sum_update(s: Seq<RestingOrder>, k: int, o: RestingOrder)
    requires
        0 <= k < s.len(),
    ensures
        qty_sum(s.update(k, o)) == qty_sum(s) - s[k].qty.0 + o.qty.0,
    decreases s.len(),
{
    if k == s.len() - 1 {
        assert(s.update(k, o).drop_last() =~= s.drop_last());
    } else {
        lemma_qty_sum_update(s.drop_last(), k, o);
        assert(s.update(k, o).drop_last() =~= s.drop_last().update(k, o));
    }
}

pub proof fn lemma_qty_sum_drop_first(s: Seq<RestingOrder>)
    requires
        s.len() > 0,
    ensures
        qty_sum(s.drop_first()) == qty_sum(s) - s[0].qty.0,
    decreases s.len(),
{
    if s.len() == 1 {
        assert(s.drop_first() =~= Seq::<RestingOrder>::empty());
        assert(s.drop_last() =~= Seq::<RestingOrder>::empty());
    } else {
        lemma_qty_sum_drop_first(s.drop_last());
        assert(s.drop_first().drop_last() =~= s.drop_last().drop_first());
    }
}

pub proof fn lemma_qty_sum_remove(s: Seq<RestingOrder>, k: int)
    requires
        0 <= k < s.len(),
    ensures
        qty_sum(s.remove(k)) == qty_sum(s) - s[k].qty.0,
    decreases s.len(),
{
    if k == s.len() - 1 {
        assert(s.remove(k) =~= s.drop_last());
    } else {
        lemma_qty_sum_remove(s.drop_last(), k);
        assert(s.remove(k).drop_last() =~= s.drop_last().remove(k));
    }
}

/// The best order leaving a ladder leaves it well formed and drops the first order of its flattening.
pub proof fn lemma_pop_front(levels: Seq<LevelView>, side: Side)
    requires
        ladder_wf(levels, side),
        levels.len() > 0,
    ensures
        ladder_wf(ladder_pop_front(levels), side),
        flatten(levels).len() > 0,
        flatten(levels)[0] == levels[0].1[0],
        flatten(ladder_pop_front(levels)) == flatten(levels).drop_first(),
{
    assert(level_wf(levels[0], side));
    let nv = ladder_pop_front(levels);
    if levels[0].1.len() == 1 {
        assert(flatten(levels) == levels[0].1 + flatten(levels.drop_first()));
        assert(flatten(nv) =~= flatten(levels).drop_first());
        assert forall|a: int, b: int| 0 <= a < b < nv.len() implies better(
            side,
            #[trigger] nv[a].0 .0,
            #[trigger] nv[b].0 .0,
        ) by {
            assert(better(side, levels[a + 1].0 .0, levels[b + 1].0 .0));
        }
        assert forall|m: int| 0 <= m < nv.len() implies level_wf(#[trigger] nv[m], side) by {
            assert(level_wf(levels[m + 1], side));
        }
    } else {
        let nl = (levels[0].0, levels[0].1.drop_first());
        lemma_qty_sum_drop_first(levels[0].1);
        assert(nv.drop_first() =~= levels.drop_first());
        assert(flatten(nv) == nl.1 + flatten(nv.drop_first()));
        assert(flatten(nv) =~= flatten(levels).drop_first());
        assert forall|m: int| 0 <= m < nv.len() implies level_wf(#[trigger] nv[m], side) by {
            if m == 0 {
                assert forall|j: int| 0 <= j < nl.1.len() implies {
                    &&& (#[trigger] nl.1[j]).side == side
                    &&& nl.1[j].price == nl.0
                    &&& nl.1[j].qty.0 > 0
                } by {
                    assert(nl.1[j] == levels[0].1[j + 1]);
                }
            } else {
                assert(nv[m] == levels[m]);
            }
        }
        assert forall|a: int, b: int| 0 <= a < b < nv.len() implies better(
            side,
            #[trigger] nv[a].0 .0,
            #[trigger] nv[b].0 .0,
        ) by {
            assert(better(side, levels[a].0 .0, levels[b].0 .0));
        }
    }
}

/// Reducing the best order's quantity keeps the ladder well formed and updates the first order.
pub proof fn lemma_set_front_qty(levels: Seq<LevelView>, side: Side, q: u64)
    requires
        ladder_wf(levels, side),
        levels.len() > 0,
        0 < q <= levels[0].1[0].qty.0,
    ensures
        ladder_wf(ladder_set_front_qty(levels, q), side),
        flatten(levels).len() > 0,
        flatten(ladder_set_front_qty(levels, q)) == flatten(levels).update(
            0,
            RestingOrder { qty: crate::types::Qty(q), ..levels[0].1[0] },
        ),
{
    assert(level_wf(levels[0], side));
    let o = levels[0].1[0];
    let no = RestingOrder { qty: crate::types::Qty(q), ..o };
    let nl = (levels[0].0, levels[0].1.update(0, no));
    let nv = ladder_set_front_qty(levels, q);
    lemma_qty_sum_update(levels[0].1, 0, no);
    assert(nv.drop_first() =~= levels.drop_first());
    assert(flatten(levels) == levels[0].1 + flatten(levels.drop_first()));
    assert(flatten(nv) == nl.1 + flatten(nv.drop_first()));
    assert(flatten(nv) =~= flatten(levels).update(0, no));
    assert forall|m: int| 0 <= m < nv.len() implies level_wf(#[trigger] nv[m], side) by {
        if m == 0 {
            assert forall|j: int| 0 <= j < nl.1.len() implies {
                &&& (#[trigger] nl.1[j]).side == side
                &&& nl.1[j].price == nl.0
                &&& nl.1[j].qty.0 > 0
            } by {
                if j > 0 {
                    assert(nl.1[j] == levels[0].1[j]);
                }
            }
        } else {
            assert(nv[m] == levels[m]);
        }
    }
    assert forall|a: int, b: int| 0 <= a < b < nv.len() implies better(
        side,
        #[trigger] nv[a].0 .0,
        #[trigger] nv[b].0 .0,
    ) by {
        assert(better(side, levels[a].0 .0, levels[b].0 .0));
    }
}

/// Removing the order at (i, j) keeps the ladder well formed and removes one position of the flattening.
pub proof fn lemma_remove_at(levels: Seq<LevelView>, side: Side, i: int, j: int)
    requires
        ladder_wf(levels, side),
        0 <= i < levels.len(),
        0 <= j < levels[i].1.len(),
    ensures
        ladder_wf(ladder_remove_at(levels, i, j), side),
        0 <= offset(levels, i) + j < flatten(levels).len(),
        flatten(ladder_remove_at(levels, i, j)) == flatten(levels).remove(offset(levels, i) + j),
{
    assert(level_wf(levels[i], side));
    let nv = ladder_remove_at(levels, i, j);
    lemma_flatten_split(levels, i);
    if levels[i].1.len() == 1 {
        assert(levels.take(i) + levels.skip(i + 1) =~= nv);
        lemma_flatten_concat(levels.take(i), levels.skip(i + 1));
        assert(flatten(nv) =~= flatten(levels).remove(offset(levels, i) + j));
        assert forall|a: int, b: int| 0 <= a < b < nv.len() implies better(
            side,
            #[trigger] nv[a].0 .0,
            #[trigger] nv[b].0 .0,
        ) by {
            let oa = if a < i { a } else { a + 1 };
            let ob = if b < i { b } else { b + 1 };
            assert(nv[a] == levels[oa]);
            assert(nv[b] == levels[ob]);
            assert(better(side, levels[oa].0 .0, levels[ob].0 .0));
        }
        assert forall|m: int| 0 <= m < nv.len() implies level_wf(#[trigger] nv[m], side) by {
            let om = if m < i { m } else { m + 1 };
            assert(nv[m] == levels[om]);
        }
    } else {
        let nl = (levels[i].0, levels[i].1.remove(j));
        lemma_qty_sum_remove(levels[i].1, j);
        lemma_flatten_split(nv, i);
        assert(nv.take(i) =~= levels.take(i));
        assert(nv.skip(i + 1) =~= levels.skip(i + 1));
        assert(flatten(nv) =~= flatten(levels).remove(offset(levels, i) + j));
        assert forall|m: int| 0 <= m < nv.len() implies level_wf(#[trigger] nv[m], side) by {
            if m == i {
                assert forall|jj: int| 0 <= jj < nl.1.len() implies {
                    &&& (#[trigger] nl.1[jj]).side == side
                    &&& nl.1[jj].price == nl.0
                    &&& nl.1[jj].qty.0 > 0
                } by {
                    let oj = if jj < j { jj } else { jj + 1 };
                    assert(nl.1[jj] == levels[i].1[oj]);
                }
            } else {
                assert(nv[m] == levels[m]);
            }
        }
        assert forall|a: int, b: int| 0 <= a < b < nv.len() implies better(
            side,
            #[trigger] nv[a].0 .0,
            #[trigger] nv[b].0 .0,
        ) by {
            assert(better(side, levels[a].0 .0, levels[b].0 .0));
        }
    }
}

} // verus!

verus! {

pub proof fn lemma_offset_step(levels: Seq<LevelView>, a: int)
    requires
        0 <= a < levels.len(),
    ensures
        offset(levels, a + 1) == offset(levels, a) + levels[a].1.len(),
{
    assert(levels.take(a + 1) =~= levels.take(a) + seq![levels[a]]);
    lemma_flatten_concat(levels.take(a), seq![levels[a]]);
    lemma_flatten_single(levels[a]);
}

pub proof fn lemma_offset_mono(levels: Seq<LevelView>, a: int, b: int)
    requires
        0 <= a < b <= levels.len(),
    ensures
        offset(levels, a) + levels[a].1.len() <= offset(levels, b),
    decreases b - a,
{
    lemma_offset_step(levels, a);
    if a + 1 < b {
        lemma_offset_mono(levels, a + 1, b);
        assert(offset(levels, a + 1) + levels[a + 1].1.len() <= offset(levels, b));
    }
}

/// Distinct level positions of a ladder have distinct flattened positions.
pub proof fn lemma_offset_injective(levels: Seq<LevelView>, i: int, j: int, i2: int, j2: int)
    requires
        0 <= i < levels.len(),
        0 <= j < levels[i].1.len(),
        0 <= i2 < levels.len(),
        0 <= j2 < levels[i2].1.len(),
        offset(levels, i) + j == offset(levels, i2) + j2,
    ensures
        i == i2 && j == j2,
{
    if i < i2 {
        lemma_offset_mono(levels, i, i2);
    } else if i2 < i {
        lemma_offset_mono(levels, i2, i);
    }
}

/// In a ladder whose flattened IDs are distinct, an ID sits at exactly one level position,
/// and `locate` finds it.
pub proof fn lemma_locate_unique(levels: Seq<LevelView>, i: int, j: int)
    requires
        ids_of(flatten(levels)).no_duplicates(),
        0 <= i < levels.len(),
        0 <= j < levels[i].1.len(),
    ensures
        locate(levels, levels[i].1[j].order_id) == (i, j),
        forall|i2: int, j2: int|
            0 <= i2 < levels.len() && 0 <= j2 < levels[i2].1.len() && (#[trigger] levels[i2].1[j2]).order_id
                == levels[i].1[j].order_id ==> i2 == i && j2 == j,
{
    let id = levels[i].1[j].order_id;
    assert forall|i2: int, j2: int|
        0 <= i2 < levels.len() && 0 <= j2 < levels[i2].1.len() && (#[trigger] levels[i2].1[j2]).order_id == id
        implies i2 == i && j2 == j by {
        lemma_flatten_index(levels, i, j);
        lemma_flatten_index(levels, i2, j2);
        let p = offset(levels, i) + j;
        let p2 = offset(levels, i2) + j2;
        assert(ids_of(flatten(levels))[p] == id);
        assert(ids_of(flatten(levels))[p2] == id);
        lemma_offset_injective(levels, i, j, i2, j2);
    }
    let (a, b) = locate(levels, id);
    assert(0 <= i < levels.len() && 0 <= j < levels[i].1.len() && levels[i].1[j].order_id == id);
    assert(0 <= a < levels.len() && 0 <= b < levels[a].1.len() && levels[a].1[b].order_id == id);
}

} // verus!
