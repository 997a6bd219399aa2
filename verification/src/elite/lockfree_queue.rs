//! Bounded event queue backed by `crossbeam_queue::ArrayQueue`.
//!
//! An infrastructure prototype: the deterministic core stays single-threaded. Access here
//! is exclusive (`&mut`), under which the queue behaves as a bounded FIFO.
use crossbeam_queue::ArrayQueue;

use vstd::prelude::*;

use crate::events::InputEvent;

verus! {

#[verifier::external_type_specification]
#[verifier::external_body]
#[verifier::reject_recursive_types(T)]
pub struct ExArrayQueue<T>(ArrayQueue<T>);

/// The events a queue holds, oldest first.
pub uninterp spec fn queue_items(q: ArrayQueue<InputEvent>) -> Seq<InputEvent>;

/// The capacity a queue was created with.
pub uninterp spec fn queue_capacity(q: ArrayQueue<InputEvent>) -> nat;

/// `ArrayQueue::new`: an empty queue of the given capacity. It panics on a zero capacity
/// and on one whose lap size overflows, which the precondition rules out. Failure to
/// allocate the buffer is left unsaid, as vstd leaves it unsaid for `Vec::with_capacity`.
#[verifier::external_body]
fn array_queue_new(cap: usize) -> (q: ArrayQueue<InputEvent>)
    requires
        0 < cap <= isize::MAX,
    ensures
        queue_items(q) == Seq::<InputEvent>::empty(),
        queue_capacity(q) == cap,
{
    ArrayQueue::new(cap)
}

/// `ArrayQueue::push` under exclusive access: appends unless full, in which case the event
/// comes back as the error.
#[verifier::external_body]
fn array_queue_push(q: &mut ArrayQueue<InputEvent>, event: InputEvent) -> (r: Result<(), InputEvent>)
    ensures
        r is Ok <==> queue_items(*old(q)).len() < queue_capacity(*old(q)),
        r is Ok ==> queue_items(*final(q)) == queue_items(*old(q)).push(event),
        r is Err ==> r->Err_0 == event && queue_items(*final(q)) == queue_items(*old(q)),
        queue_capacity(*final(q)) == queue_capacity(*old(q)),
        queue_items(*final(q)).len() <= queue_capacity(*final(q)),
{
    q.push(event)
}

/// `ArrayQueue::pop` under exclusive access: the oldest event, if any.
#[verifier::external_body]
fn array_queue_pop(q: &mut ArrayQueue<InputEvent>) -> (r: Option<InputEvent>)
    ensures
        r is Some <==> queue_items(*old(q)).len() > 0,
        r is Some ==> r == Some(queue_items(*old(q))[0]) && queue_items(*final(q)) == queue_items(*old(q)).drop_first(),
        r is None ==> queue_items(*final(q)) == queue_items(*old(q)),
        queue_capacity(*final(q)) == queue_capacity(*old(q)),
{
    q.pop()
}

/// `ArrayQueue::len`: the number of queued events.
#[verifier::external_body]
fn array_queue_len(q: &ArrayQueue<InputEvent>) -> (r: usize)
    ensures
        r == queue_items(*q).len(),
{
    q.len()
}

/// `ArrayQueue::is_empty`.
#[verifier::external_body]
fn array_queue_is_empty(q: &ArrayQueue<InputEvent>) -> (r: bool)
    ensures
        r == (queue_items(*q).len() == 0),
{
    q.is_empty()
}

/// `ArrayQueue::capacity`.
#[verifier::external_body]
fn array_queue_capacity(q: &ArrayQueue<InputEvent>) -> (r: usize)
    ensures
        r == queue_capacity(*q),
{
    q.capacity()
}

/// Bounded FIFO of input events.
pub struct EventQueue {
    inner: ArrayQueue<InputEvent>,
}

impl EventQueue {
    /// Queued events, oldest first.
    pub closed spec fn items(&self) -> Seq<InputEvent> {
        queue_items(self.inner)
    }

    pub closed spec fn spec_capacity(&self) -> nat {
        queue_capacity(self.inner)
    }

    /// An empty queue holding at most `cap` events.
    pub fn with_capacity(cap: usize) -> (r: Self)
        requires
            0 < cap <= isize::MAX,
        ensures
            r.items() == Seq::<InputEvent>::empty(),
            r.spec_capacity() == cap,
    {
        EventQueue { inner: array_queue_new(cap) }
    }

    /// Append an event; when the queue is full the event comes back as the error.
    pub fn push(&mut self, event: InputEvent) -> (r: Result<(), InputEvent>)
        ensures
            final(self).spec_capacity() == old(self).spec_capacity(),
            old(self).items().len() < old(self).spec_capacity() ==> r is Ok && final(self).items() == old(
                self,
            ).items().push(event),
            old(self).items().len() >= old(self).spec_capacity() ==> r == Err::<(), InputEvent>(event)
                && final(self).items() == old(self).items(),
    {
        array_queue_push(&mut self.inner, event)
    }

    /// Remove and return the oldest event, if any.
    pub fn pop(&mut self) -> (r: Option<InputEvent>)
        ensures
            final(self).spec_capacity() == old(self).spec_capacity(),
            old(self).items().len() > 0 ==> r == Some(old(self).items()[0]) && final(self).items() == old(
                self,
            ).items().drop_first(),
            old(self).items().len() == 0 ==> r is None && final(self).items() == old(self).items(),
    {
        array_queue_pop(&mut self.inner)
    }

    pub fn len(&self) -> (r: usize)
        ensures
            r == self.items().len(),
    {
        array_queue_len(&self.inner)
    }

    pub fn is_empty(&self) -> (r: bool)
        ensures
            r == (self.items().len() == 0),
    {
        array_queue_is_empty(&self.inner)
    }

    pub fn capacity(&self) -> (r: usize)
        ensures
            r == self.spec_capacity(),
    {
        array_queue_capacity(&self.inner)
    }
}

} // verus!
