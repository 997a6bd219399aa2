//! A FIFO queue of resting orders at one price.
use vstd::prelude::*;

use crate::types::{OrderId, PriceTicks, Qty};

use super::model::{ids_of, qty_sum, LevelView};
use super::order_book::RestingOrder;

verus! {

broadcast use vstd::seq_lib::group_seq_properties;

#[derive(Debug, Clone, PartialEq, Eq)]
pub struct PriceLevel {
    pub price: PriceTicks,
    pub orders: Vec<RestingOrder>,
}

impl PriceLevel {
    /// This level as a value: price and queue in time priority.
    pub open spec fn view_level(&self) -> LevelView {
        (self.price, self.orders@)
    }

    pub fn new(price: PriceTicks) -> (r: Self)
        ensures
            r.price == price,
            r.orders@ == Seq::<RestingOrder>::empty(),
    {
        PriceLevel { price, orders: Vec::new() }
    }

    /// Append an order at the back of the queue; it must carry this level's price.
    pub fn push_back(&mut self, order: RestingOrder)
        requires
            order.price == old(self).price,
        ensures
            final(self).price == old(self).price,
            final(self).orders@ == old(self).orders@.push(order),
    {
        self.orders.push(order);
    }

    /// The earliest order, if any.
    pub fn front(&self) -> (r: Option<&RestingOrder>)
        ensures
            r == (if self.orders@.len() > 0 { Some(&self.orders@[0]) } else { None }),
    {
        if self.orders.len() > 0 {
            Some(&self.orders[0])
        } else {
            None
        }
    }

    /// Remove and return the earliest order, if any.
    pub fn pop_front(&mut self) -> (r: Option<RestingOrder>)
        ensures
            final(self).price == old(self).price,
            old(self).orders@.len() == 0 ==> r is None && final(self).orders@ == old(self).orders@,
            old(self).orders@.len() > 0 ==> r == Some(old(self).orders@[0])
                && final(self).orders@ == old(self).orders@.drop_first(),
    {
        if self.orders.len() > 0 {
            Some(self.orders.remove(0))
        } else {
            None
        }
    }

    pub fn len(&self) -> (r: usize)
        ensures
            r == self.orders@.len(),
    {
        self.orders.len()
    }

    pub fn is_empty(&self) -> (r: bool)
        ensures
            r == (self.orders@.len() == 0),
    {
        self.orders.len() == 0
    }

    /// Aggregate quantity of the level.
    pub fn total_qty(&self) -> (r: Qty)
        requires
            qty_sum(self.orders@) <= u64::MAX,
        ensures
            r.0 == qty_sum(self.orders@),
    {
        let mut total: u64 = 0;
        let mut i: usize = 0;
        while i < self.orders.len()
            invariant
                i <= self.orders@.len(),
                total == qty_sum(self.orders@.take(i as int)),
                qty_sum(self.orders@) <= u64::MAX,
            decreases self.orders@.len() - i,
        {
            proof {
                assert(self.orders@.take(i as int + 1).drop_last() =~= self.orders@.take(i as int));
                lemma_qty_sum_prefix_le(self.orders@, i as int + 1);
            }
            total = total + self.orders[i].qty.0;
            i = i + 1;
        }
        proof {
            assert(self.orders@.take(i as int) =~= self.orders@);
        }
        Qty(total)
    }

    /// The order IDs of the queue, front first.
    pub fn order_ids(&self) -> (r: Vec<OrderId>)
        ensures
            r@ == ids_of(self.orders@),
    {
        let mut out: Vec<OrderId> = Vec::new();
        let mut i: usize = 0;
        while i < self.orders.len()
            invariant
                i <= self.orders@.len(),
                out@ == ids_of(self.orders@.take(i as int)),
            decreases self.orders@.len() - i,
        {
            out.push(self.orders[i].order_id);
            i = i + 1;
            proof {
                assert(ids_of(self.orders@.take(i as int)) =~= ids_of(self.orders@.take(i as int - 1)).push(
                    self.orders@[i as int - 1].order_id,
                ));
            }
        }
        proof {
            assert(self.orders@.take(i as int) =~= self.orders@);
        }
        out
    }

    /// Position in the queue of the order with this ID, if any (the first such position).
    pub fn position_of(&self, order_id: OrderId) -> (r: Option<usize>)
        ensures
            r matches Some(j) ==> j < self.orders@.len() && self.orders@[j as int].order_id == order_id
                && forall|m: int| 0 <= m < j ==> self.orders@[m].order_id != order_id,
            r is None ==> forall|m: int| 0 <= m < self.orders@.len() ==> self.orders@[m].order_id != order_id,
    {
        let mut j: usize = 0;
        while j < self.orders.len()
            invariant
                j <= self.orders@.len(),
                forall|m: int| 0 <= m < j ==> self.orders@[m].order_id != order_id,
            decreases self.orders@.len() - j,
        {
            if self.orders[j].order_id == order_id {
                return Some(j);
            }
            j = j + 1;
        }
        None
    }

    /// The order with this ID in the queue, if any: the front order is looked at first.
    pub fn get_order(&self, order_id: OrderId) -> (r: Option<&RestingOrder>)
        ensures
            r matches Some(o) ==> exists|j: int|
                0 <= j < self.orders@.len() && *o == self.orders@[j] && o.order_id == order_id
                    && forall|m: int| 0 <= m < j ==> (#[trigger] self.orders@[m]).order_id != order_id,
            r is None ==> forall|m: int| 0 <= m < self.orders@.len() ==> self.orders@[m].order_id != order_id,
    {
        match self.position_of(order_id) {
            Some(j) => Some(&self.orders[j]),
            None => None,
        }
    }
}

/// The quantity sum of a prefix never exceeds the whole sum, and grows by the next order.
pub proof fn lemma_qty_sum_prefix_le(s: Seq<RestingOrder>, n: int)
    requires
        0 <= n <= s.len(),
    ensures
        qty_sum(s.take(n)) <= qty_sum(s),
    decreases s.len() - n,
{
    if n < s.len() {
        lemma_qty_sum_prefix_le(s, n + 1);
        assert(s.take(n + 1).drop_last() =~= s.take(n));
    } else {
        assert(s.take(n) =~= s);
    }
}

} // verus!
