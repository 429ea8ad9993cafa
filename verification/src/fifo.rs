use vstd::prelude::*;
use queues::{IsQueue, Queue};

verus! {

/// The first-in first-out queue of the `queues` crate.
#[verifier::external_type_specification]
#[verifier::external_body]
#[verifier::reject_recursive_types(T)]
pub struct ExQueue<T: Clone>(Queue<T>);

/// The nodes that a queue holds, oldest first.
pub uninterp spec fn queue_contents(q: Queue<u8>) -> Seq<u8>;

/// `queues::Queue::new`: the queue starts empty.
#[verifier::external_body]
pub(crate) fn queue_new() -> (q: Queue<u8>)
    ensures
        queue_contents(q) == Seq::<u8>::empty(),
{
    Queue::new()
}

/// `IsQueue::add` for `Queue`: appends `val` at the back and always succeeds
/// with `Ok(None)`, handed on as `Some(None)` (the crate pushes onto its inner vector).
#[verifier::external_body]
pub(crate) fn queue_add(q: &mut Queue<u8>, val: u8) -> (r: Option<Option<u8>>)
    ensures
        queue_contents(*final(q)) == queue_contents(*old(q)).push(val),
        r == Some(None::<u8>),
{
    match q.add(val) {
        Ok(x) => Some(x),
        Err(_) => None,
    }
}

/// `IsQueue::peek` for `Queue`: the oldest element, or an error (here `None`)
/// when empty.
#[verifier::external_body]
pub(crate) fn queue_peek(q: &Queue<u8>) -> (r: Option<u8>)
    ensures
        r == (if queue_contents(*q).len() > 0 {
            Some(queue_contents(*q)[0])
        } else {
            None
        }),
{
    match q.peek() {
        Ok(x) => Some(x),
        Err(_) => None,
    }
}

/// `IsQueue::remove` for `Queue`: takes out and returns the oldest element, or
/// leaves an empty queue as it is and returns an error (here `None`).
#[verifier::external_body]
pub(crate) fn queue_remove(q: &mut Queue<u8>) -> (r: Option<u8>)
    ensures
        r == (if queue_contents(*old(q)).len() > 0 {
            Some(queue_contents(*old(q))[0])
        } else {
            None
        }),
        queue_contents(*final(q)) == (if queue_contents(*old(q)).len() > 0 {
            queue_contents(*old(q)).drop_first()
        } else {
            queue_contents(*old(q))
        }),
{
    match q.remove() {
        Ok(x) => Some(x),
        Err(_) => None,
    }
}

/// `IsQueue::size` for `Queue`: the number of elements held.
#[verifier::external_body]
pub(crate) fn queue_size(q: &Queue<u8>) -> (n: usize)
    ensures
        n == queue_contents(*q).len(),
{
    q.size()
}

} // verus!
