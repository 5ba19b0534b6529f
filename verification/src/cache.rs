use vstd::prelude::*;
use ringbuffer::{AllocRingBuffer, RingBuffer};
use crate::message::{msg_views, Message, MessageView};

verus! {

#[verifier::external_type_specification]
#[verifier::external_body]
#[verifier::reject_recursive_types(T)]
pub struct ExAllocRingBuffer<T>(AllocRingBuffer<T>);

/// The elements the hot-cache ring holds, oldest first.
pub uninterp spec fn ring_contents(rb: AllocRingBuffer<Message>) -> Seq<MessageView>;

/// The capacity the ring was created with.
pub uninterp spec fn ring_capacity(rb: AllocRingBuffer<Message>) -> nat;

/// Relies on AllocRingBuffer::new: an empty ring of the given capacity.
/// It panics on a capacity of zero, which the precondition rules out.
#[verifier::external_body]
pub(crate) fn ring_new(capacity: usize) -> (rb: AllocRingBuffer<Message>)
    requires
        capacity > 0,
    ensures
        ring_contents(rb) == Seq::<MessageView>::empty(),
        ring_capacity(rb) == capacity,
{
    AllocRingBuffer::new(capacity)
}

/// Relies on RingBuffer::enqueue: adds at the back; when the ring is full it
/// cycles, dropping the oldest element.
#[verifier::external_body]
pub(crate) fn ring_push(rb: &mut AllocRingBuffer<Message>, m: Message)
    ensures
        ring_capacity(*final(rb)) == ring_capacity(*old(rb)),
        ring_contents(*old(rb)).len() < ring_capacity(*old(rb)) ==> ring_contents(*final(rb))
            == ring_contents(*old(rb)).push(m@),
        ring_contents(*old(rb)).len() >= ring_capacity(*old(rb)) ==> ring_contents(*final(rb))
            == ring_contents(*old(rb)).drop_first().push(m@),
{
    let _ = rb.enqueue(m);
}

/// Relies on RingBuffer::is_empty.
#[verifier::external_body]
pub(crate) fn ring_is_empty(rb: &AllocRingBuffer<Message>) -> (r: bool)
    ensures
        r == (ring_contents(*rb).len() == 0),
{
    rb.is_empty()
}

/// Relies on RingBuffer::get: index 0 is the oldest element, present whenever
/// the ring is not empty.
#[verifier::external_body]
pub(crate) fn ring_front(rb: &AllocRingBuffer<Message>) -> (m: &Message)
    requires
        ring_contents(*rb).len() > 0,
    ensures
        m@ == ring_contents(*rb)[0],
{
    rb.get(0).unwrap()
}

/// Relies on RingBuffer::to_vec: clones the elements out, oldest first.
#[verifier::external_body]
pub(crate) fn ring_to_vec(rb: &AllocRingBuffer<Message>) -> (v: Vec<Message>)
    ensures
        msg_views(v@) == ring_contents(*rb),
{
    rb.to_vec()
}

} // verus!
