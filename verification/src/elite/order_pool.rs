//! Slab-style order pool with generation-checked handles: a removed slot is reused by a
//! later insert, and a handle to the removed order no longer reaches the slot.
use vstd::prelude::*;

use crate::types::{Order, OrderId, OrderType, PriceTicks, Qty, Side, Symbol, TimestampNanos};

verus! {

broadcast use vstd::seq_lib::group_seq_properties;

/// One slot: the order last stored, its generation, and whether it is in use.
#[derive(Debug, Clone)]
pub struct Slot {
    pub order: Order,
    pub generation: u32,
    pub live: bool,
}

/// Dense free-list order pool.
#[derive(Debug)]
pub struct OrderPool {
    slots: Vec<Slot>,
    free: Vec<usize>,
}

/// Slot index and generation.
#[derive(Debug, Clone, Copy, PartialEq, Eq, Hash, Structural)]
pub struct PoolHandle {
    index: usize,
    generation: u32,
}

impl PoolHandle {
    pub closed spec fn spec_index(self) -> usize {
        self.index
    }

    pub closed spec fn spec_generation(self) -> u32 {
        self.generation
    }

    pub fn index(self) -> (r: usize)
        ensures
            r == self.spec_index(),
    {
        self.index
    }

    pub fn generation(self) -> (r: u32)
        ensures
            r == self.spec_generation(),
    {
        self.generation
    }
}

/// The handle reaches a live slot of its generation.
pub open spec fn handle_valid(slots: Seq<Slot>, h: PoolHandle) -> bool {
    &&& h.spec_index() < slots.len()
    &&& slots[h.spec_index() as int].live
    &&& slots[h.spec_index() as int].generation == h.spec_generation()
}

/// Number of live slots.
pub open spec fn live_slots(slots: Seq<Slot>) -> nat
    decreases slots.len(),
{
    if slots.len() == 0 {
        0
    } else {
        live_slots(slots.drop_last()) + (if slots.last().live { 1nat } else { 0nat })
    }
}

impl OrderPool {
    /// Free-list entries are distinct indices of slots not in use.
    pub closed spec fn wf(&self) -> bool {
        pool_wf(self.slots@, self.free@)
    }

    /// A well-formed pool's slots and free list are well formed.
    pub proof fn lemma_wf(&self)
        requires
            self.wf(),
        ensures
            pool_wf(self.slots_view(), self.free_view()),
    {
    }

    pub closed spec fn slots_view(&self) -> Seq<Slot> {
        self.slots@
    }

    pub closed spec fn free_view(&self) -> Seq<usize> {
        self.free@
    }

    pub fn new() -> (r: Self)
        ensures
            r.wf(),
            r.slots_view() == Seq::<Slot>::empty(),
            r.free_view() == Seq::<usize>::empty(),
    {
        OrderPool { slots: Vec::new(), free: Vec::new() }
    }

    pub fn with_capacity(cap: usize) -> (r: Self)
        ensures
            r.wf(),
            r.slots_view() == Seq::<Slot>::empty(),
            r.free_view() == Seq::<usize>::empty(),
    {
        OrderPool { slots: Vec::with_capacity(cap), free: Vec::new() }
    }

    /// Store an order, reusing the most recently freed slot if any (keeping its
    /// generation), else appending a slot of generation zero.
    pub fn insert(&mut self, order: Order) -> (h: PoolHandle)
        requires
            old(self).wf(),
        ensures
            final(self).wf(),
            handle_valid(final(self).slots_view(), h),
            final(self).slots_view()[h.spec_index() as int].order == order,
            (final(self).slots_view(), final(self).free_view()) == pool_step(
                old(self).slots_view(),
                old(self).free_view(),
                PoolOp::Insert(order),
            ),
            old(self).free_view().len() > 0 ==> {
                &&& h.spec_index() == old(self).free_view().last()
                &&& h.spec_generation() == old(self).slots_view()[h.spec_index() as int].generation
                &&& final(self).free_view() == old(self).free_view().drop_last()
                &&& final(self).slots_view() == old(self).slots_view().update(
                    h.spec_index() as int,
                    Slot { order, generation: h.spec_generation(), live: true },
                )
            },
            old(self).free_view().len() == 0 ==> {
                &&& h.spec_index() == old(self).slots_view().len()
                &&& h.spec_generation() == 0
                &&& final(self).free_view() == old(self).free_view()
                &&& final(self).slots_view() == old(self).slots_view().push(Slot { order, generation: 0, live: true })
            },
    {
        match self.free.pop() {
            Some(idx) => {
                let generation = self.slots[idx].generation;
                self.slots.set(idx, Slot { order, generation, live: true });
                proof {
                    let f = self.free@;
                    let f0 = old(self).free@;
                    assert forall|k: int| 0 <= k < f.len() implies (#[trigger] f[k]) < self.slots@.len()
                        && !self.slots@[f[k] as int].live by {
                        assert(f[k] == f0[k]);
                        assert(f0[k] != f0[f0.len() - 1]);
                    }
                }
                PoolHandle { index: idx, generation }
            },
            None => {
                let idx = self.slots.len();
                self.slots.push(Slot { order, generation: 0, live: true });
                PoolHandle { index: idx, generation: 0 }
            },
        }
    }

    /// The order a valid handle reaches.
    pub fn get(&self, handle: PoolHandle) -> (r: Option<&Order>)
        ensures
            handle_valid(self.slots_view(), handle) ==> r == Some(&self.slots_view()[handle.spec_index() as int].order),
            !handle_valid(self.slots_view(), handle) ==> r is None,
    {
        if handle.index >= self.slots.len() {
            return None;
        }
        let slot = &self.slots[handle.index];
        if slot.live && slot.generation == handle.generation {
            Some(&slot.order)
        } else {
            None
        }
    }

    /// Mutable access to the order a valid handle reaches.
    pub fn get_mut(&mut self, handle: PoolHandle) -> (r: Option<&mut Order>)
        ensures
            !handle_valid(old(self).slots_view(), handle) ==> r is None && final(self).slots_view() == old(
                self,
            ).slots_view(),
            handle_valid(old(self).slots_view(), handle) ==> (r matches Some(o) && *o == old(
                self,
            ).slots_view()[handle.spec_index() as int].order && final(self).slots_view() == old(self).slots_view().update(
                handle.spec_index() as int,
                (Slot { order: *final(o), ..old(self).slots_view()[handle.spec_index() as int] }),
            )),
            final(self).free_view() == old(self).free_view(),
            handle_valid(old(self).slots_view(), handle) ==> (r matches Some(o) && (
                final(self).slots_view(),
                final(self).free_view(),
            ) == pool_step(old(self).slots_view(), old(self).free_view(), PoolOp::Update(handle, *final(o)))),
    {
        if handle.index >= self.slots.len() {
            return None;
        }
        if !(self.slots[handle.index].live && self.slots[handle.index].generation == handle.generation) {
            return None;
        }
        let slot = &mut self.slots[handle.index];
        Some(&mut slot.order)
    }

    /// Free the slot a valid handle reaches and return its order; the slot's generation
    /// moves on (wrapping), so the handle stops reaching it.
    pub fn remove(&mut self, handle: PoolHandle) -> (r: Option<Order>)
        requires
            old(self).wf(),
        ensures
            final(self).wf(),
            !handle_valid(old(self).slots_view(), handle) ==> r is None && final(self).slots_view() == old(
                self,
            ).slots_view() && final(self).free_view() == old(self).free_view(),
            handle_valid(old(self).slots_view(), handle) ==> {
                let i = handle.spec_index() as int;
                let s = old(self).slots_view()[i];
                &&& r == Some(s.order)
                &&& final(self).slots_view() == old(self).slots_view().update(
                    i,
                    Slot { order: s.order, generation: (if s.generation == u32::MAX { 0 } else { s.generation + 1 }) as u32, live: false },
                )
                &&& final(self).free_view() == old(self).free_view().push(handle.spec_index())
            },
            !handle_valid(final(self).slots_view(), handle),
            (final(self).slots_view(), final(self).free_view()) == pool_step(
                old(self).slots_view(),
                old(self).free_view(),
                PoolOp::Remove(handle),
            ),
    {
        if handle.index >= self.slots.len() {
            return None;
        }
        let live = self.slots[handle.index].live;
        let generation = self.slots[handle.index].generation;
        if !live || generation != handle.generation {
            return None;
        }
        let order = self.slots[handle.index].order.duplicate();
        let next_generation = if generation == u32::MAX { 0 } else { generation + 1 };
        let kept = self.slots[handle.index].order.duplicate();
        self.slots.set(handle.index, Slot { order: kept, generation: next_generation, live: false });
        proof {
            assert(!self.free@.contains(handle.index)) by {
                if self.free@.contains(handle.index) {
                    let k = choose|k: int| 0 <= k < self.free@.len() && self.free@[k] == handle.index;
                    assert(!old(self).slots@[old(self).free@[k] as int].live);
                }
            }
        }
        self.free.push(handle.index);
        proof {
            let f = self.free@;
            assert forall|k: int| 0 <= k < f.len() implies (#[trigger] f[k]) < self.slots@.len() && !self.slots@[f[k] as int].live by {
                if k < f.len() - 1 {
                    assert(f[k] == old(self).free@[k]);
                }
            }
        }
        Some(order)
    }

    /// Number of slots in use.
    pub fn live_count(&self) -> (r: usize)
        ensures
            r == live_slots(self.slots_view()),
    {
        let mut n: usize = 0;
        let mut i: usize = 0;
        while i < self.slots.len()
            invariant
                0 <= i <= self.slots@.len(),
                n == live_slots(self.slots@.take(i as int)),
                n <= i,
            decreases self.slots@.len() - i,
        {
            proof {
                assert(self.slots@.take(i as int + 1).drop_last() =~= self.slots@.take(i as int));
            }
            if self.slots[i].live {
                n = n + 1;
            }
            i = i + 1;
        }
        proof {
            assert(self.slots@.take(i as int) =~= self.slots@);
        }
        n
    }

    /// Number of slots ever allocated.
    pub fn capacity_slots(&self) -> (r: usize)
        ensures
            r == self.slots_view().len(),
    {
        self.slots.len()
    }
}

/// The generation a removal moves a slot to (wrapping).
pub open spec fn next_generation(g: u32) -> u32 {
    if g == u32::MAX {
        0
    } else {
        (g + 1) as u32
    }
}

/// Free-list entries are distinct indices of slots not in use.
pub open spec fn pool_wf(slots: Seq<Slot>, free: Seq<usize>) -> bool {
    &&& forall|k: int| 0 <= k < free.len() ==> (#[trigger] free[k]) < slots.len() && !slots[free[k] as int].live
    &&& free.no_duplicates()
}

/// An operation on a pool: store an order, remove the order a handle reaches, or replace
/// the order a handle reaches.
pub enum PoolOp {
    Insert(Order),
    Remove(PoolHandle),
    Update(PoolHandle, Order),
}

/// The slots and free list after one operation, as `insert`, `remove` and `get_mut` leave
/// them: an insert reuses the most recently freed slot under its generation, else appends
/// a slot of generation zero; a removal through a valid handle frees the slot and moves its
/// generation on; an update through a valid handle replaces the order. Through a handle that
/// is not valid nothing changes.
pub open spec fn pool_step(slots: Seq<Slot>, free: Seq<usize>, op: PoolOp) -> (Seq<Slot>, Seq<usize>) {
    match op {
        PoolOp::Insert(order) => if free.len() > 0 {
            let i = free.last() as int;
            (slots.update(i, Slot { order, generation: slots[i].generation, live: true }), free.drop_last())
        } else {
            (slots.push(Slot { order, generation: 0, live: true }), free)
        },
        PoolOp::Remove(h) => if handle_valid(slots, h) {
            let i = h.spec_index() as int;
            (
                slots.update(i, Slot { order: slots[i].order, generation: next_generation(slots[i].generation), live: false }),
                free.push(h.spec_index()),
            )
        } else {
            (slots, free)
        },
        PoolOp::Update(h, order) => if handle_valid(slots, h) {
            let i = h.spec_index() as int;
            (slots.update(i, Slot { order, ..slots[i] }), free)
        } else {
            (slots, free)
        },
    }
}

/// The slots and free list after the operations, in order.
pub open spec fn pool_run(slots: Seq<Slot>, free: Seq<usize>, ops: Seq<PoolOp>) -> (Seq<Slot>, Seq<usize>)
    decreases ops.len(),
{
    if ops.len() == 0 {
        (slots, free)
    } else {
        let (s, f) = pool_run(slots, free, ops.drop_last());
        pool_step(s, f, ops.last())
    }
}

/// How many of the operations, run in order, removed the order in slot `i`.
pub open spec fn slot_removals(slots: Seq<Slot>, free: Seq<usize>, ops: Seq<PoolOp>, i: int) -> nat
    decreases ops.len(),
{
    if ops.len() == 0 {
        0
    } else {
        let (s, f) = pool_run(slots, free, ops.drop_last());
        slot_removals(slots, free, ops.drop_last(), i) + match ops.last() {
            PoolOp::Remove(h) => if handle_valid(s, h) && h.spec_index() == i {
                1nat
            } else {
                0nat
            },
            _ => 0nat,
        }
    }
}

/// One operation keeps the pool well formed, keeps slot `i`, and moves its generation on
/// exactly when it removes the order in that slot.
proof fn lemma_pool_step(slots: Seq<Slot>, free: Seq<usize>, op: PoolOp, i: int)
    requires
        pool_wf(slots, free),
        0 <= i < slots.len(),
    ensures
        ({
            let (s, f) = pool_step(slots, free, op);
            &&& pool_wf(s, f)
            &&& i < s.len()
            &&& s[i].generation == (if op matches PoolOp::Remove(h) && handle_valid(slots, h) && h.spec_index() == i {
                next_generation(slots[i].generation)
            } else {
                slots[i].generation
            })
        }),
{
    let (s, f) = pool_step(slots, free, op);
    match op {
        PoolOp::Insert(order) => {
            if free.len() > 0 {
                let j = free.last() as int;
                assert(free[free.len() - 1] < slots.len());
                assert forall|k: int| 0 <= k < f.len() implies (#[trigger] f[k]) < s.len() && !s[f[k] as int].live by {
                    assert(f[k] == free[k]);
                    assert(free[k] != free[free.len() - 1]);
                }
            }
        },
        PoolOp::Remove(h) => {
            if handle_valid(slots, h) {
                let j = h.spec_index();
                assert(!free.contains(j)) by {
                    if free.contains(j) {
                        let k = choose|k: int| 0 <= k < free.len() && free[k] == j;
                        assert(!slots[free[k] as int].live);
                    }
                }
                assert forall|k: int| 0 <= k < f.len() implies (#[trigger] f[k]) < s.len() && !s[f[k] as int].live by {
                    if k < free.len() {
                        assert(f[k] == free[k]);
                    }
                }
            }
        },
        PoolOp::Update(h, order) => {
            if handle_valid(slots, h) {
                assert forall|k: int| 0 <= k < f.len() implies (#[trigger] f[k]) < s.len() && !s[f[k] as int].live by {
                    assert(f[k] == free[k]);
                }
            }
        },
    }
}

/// Along a run of operations the pool stays well formed and keeps slot `i`, whose
/// generation has moved on (wrapping) once per removal of its order.
proof fn lemma_pool_run(slots: Seq<Slot>, free: Seq<usize>, ops: Seq<PoolOp>, i: int)
    requires
        pool_wf(slots, free),
        0 <= i < slots.len(),
    ensures
        ({
            let (s, f) = pool_run(slots, free, ops);
            &&& pool_wf(s, f)
            &&& i < s.len()
            &&& s[i].generation as int == (slots[i].generation + slot_removals(slots, free, ops, i)) % 0x1_0000_0000
        }),
    decreases ops.len(),
{
    if ops.len() > 0 {
        lemma_pool_run(slots, free, ops.drop_last(), i);
        let (s0, f0) = pool_run(slots, free, ops.drop_last());
        lemma_pool_step(s0, f0, ops.last(), i);
        let x = slots[i].generation + slot_removals(slots, free, ops.drop_last(), i);
        assert(((x % 0x1_0000_0000) + 1) % 0x1_0000_0000 == (x + 1) % 0x1_0000_0000) by {
            vstd::arithmetic::div_mod::lemma_add_mod_noop(x, 1, 0x1_0000_0000);
        }
    }
}

proof fn lemma_slot_removals_prefix(slots: Seq<Slot>, free: Seq<usize>, ops: Seq<PoolOp>, k: int, i: int)
    requires
        0 <= k <= ops.len(),
    ensures
        slot_removals(slots, free, ops.take(k), i) <= slot_removals(slots, free, ops, i),
    decreases ops.len() - k,
{
    if k < ops.len() {
        lemma_slot_removals_prefix(slots, free, ops.drop_last(), k, i);
        assert(ops.drop_last().take(k) =~= ops.take(k));
        assert(ops.take(ops.len() as int) =~= ops);
    } else {
        assert(ops.take(k) =~= ops);
    }
}

/// Once the order a handle reaches is removed, the handle reaches nothing in any later
/// state of the pool, whatever inserts reuse its slot, while the slot's order is removed
/// fewer than 2^32 times in all (`u32::MAX` more after this removal): `get`, `get_mut`
/// and `remove` through it all answer `None`. `ops` are the later operations.
pub proof fn law_removed_handle_never_valid(slots: Seq<Slot>, free: Seq<usize>, h: PoolHandle, ops: Seq<PoolOp>)
    requires
        pool_wf(slots, free),
        handle_valid(slots, h),
        ({
            let (s1, f1) = pool_step(slots, free, PoolOp::Remove(h));
            slot_removals(s1, f1, ops, h.spec_index() as int) < u32::MAX
        }),
    ensures
        ({
            let (s1, f1) = pool_step(slots, free, PoolOp::Remove(h));
            forall|k: int| 0 <= k <= ops.len() ==> !handle_valid(#[trigger] pool_run(s1, f1, ops.take(k)).0, h)
        }),
{
    let (s1, f1) = pool_step(slots, free, PoolOp::Remove(h));
    let i = h.spec_index() as int;
    lemma_pool_step(slots, free, PoolOp::Remove(h), i);
    assert forall|k: int| 0 <= k <= ops.len() implies !handle_valid(#[trigger] pool_run(s1, f1, ops.take(k)).0, h) by {
        lemma_pool_run(s1, f1, ops.take(k), i);
        lemma_slot_removals_prefix(s1, f1, ops, k, i);
    }
}

/// A sample limit order for pool tests.
pub fn sample_order(id: OrderId) -> (r: Order)
    ensures
        r.order_id == id,
        r.symbol@ == "AAPL"@,
        r.side == Side::Buy,
        r.order_type == OrderType::Limit,
        r.price == Some(PriceTicks(100)),
        r.qty == Qty(1),
        r.timestamp_ns == id,
        r.strategy_id is None,
{
    Order {
        order_id: id,
        symbol: Symbol::from_text("AAPL"),
        side: Side::Buy,
        order_type: OrderType::Limit,
        price: Some(PriceTicks(100)),
        qty: Qty(1),
        timestamp_ns: id as TimestampNanos,
        strategy_id: None,
    }
}

} // verus!
