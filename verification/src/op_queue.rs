//! Timer operations, and the bounded queue that holds them until the reactor applies them.
//!
//! The queue is crossbeam's `ArrayQueue`. Its contents and its capacity are named below, and
//! each method the reactor calls has a trusted wrapper that says what it does to them. The
//! wrappers take the queue by `&mut`: the reactor owns its queue, so no other thread pushes
//! or pops while a wrapper runs, and a push fails exactly when the queue is full.
use crossbeam::queue::ArrayQueue;
use crossbeam::queue::PushError;
use std::task::Waker;
use vstd::pervasive::cloned;
use vstd::prelude::*;

verus! {

#[verifier::external_type_specification]
#[verifier::external_body]
pub struct ExWaker(Waker);

#[verifier::external_type_specification]
#[verifier::external_body]
#[verifier::reject_recursive_types(T)]
pub struct ExArrayQueue<T>(ArrayQueue<T>);

/// A single timer operation.
pub enum TimerOp {
    /// Register the waker under key `(when, id)`.
    Insert(u64, usize, Waker),
    /// Deregister the timer with key `(when, id)`.
    Remove(u64, usize),
}

/// The operations held by the queue, oldest first.
pub uninterp spec fn queued_ops(q: ArrayQueue<TimerOp>) -> Seq<TimerOp>;

/// The capacity the queue was created with.
pub uninterp spec fn queue_capacity(q: ArrayQueue<TimerOp>) -> nat;

/// Calls `ArrayQueue::new`: an empty queue that holds at most `cap` operations.
/// It panics when `cap` is zero, which `requires` rules out.
#[verifier::external_body]
pub(crate) fn new_op_queue(cap: usize) -> (q: ArrayQueue<TimerOp>)
    requires
        cap > 0,
    ensures
        queued_ops(q) == Seq::<TimerOp>::empty(),
        queue_capacity(q) == cap,
{
    ArrayQueue::new(cap)
}

/// Calls `ArrayQueue::push`: appends `op` when fewer than `capacity` operations are held;
/// otherwise the queue is full, it is left as it was and `op` comes back as the error.
#[verifier::external_body]
pub(crate) fn push_op(q: &mut ArrayQueue<TimerOp>, op: TimerOp) -> (r: Result<(), TimerOp>)
    ensures
        queue_capacity(*final(q)) == queue_capacity(*old(q)),
        queued_ops(*old(q)).len() < queue_capacity(*old(q)) ==> r is Ok && queued_ops(*final(q))
            == queued_ops(*old(q)).push(op),
        queued_ops(*old(q)).len() >= queue_capacity(*old(q)) ==> (r matches Err(e) && e == op)
            && queued_ops(*final(q)) == queued_ops(*old(q)),
{
    match q.push(op) {
        Ok(()) => Ok(()),
        Err(PushError(op)) => Err(op),
    }
}

/// Calls `ArrayQueue::pop`: removes and returns the oldest operation, or `None` when the
/// queue is empty.
#[verifier::external_body]
pub(crate) fn pop_op(q: &mut ArrayQueue<TimerOp>) -> (r: Option<TimerOp>)
    ensures
        queue_capacity(*final(q)) == queue_capacity(*old(q)),
        queued_ops(*old(q)).len() > 0 ==> r == Some(queued_ops(*old(q))[0]) && queued_ops(
            *final(q),
        ) == queued_ops(*old(q)).drop_first(),
        queued_ops(*old(q)).len() == 0 ==> r is None && queued_ops(*final(q)) == queued_ops(
            *old(q),
        ),
{
    q.pop().ok()
}

/// Calls `ArrayQueue::capacity`.
#[verifier::external_body]
pub(crate) fn op_queue_capacity(q: &ArrayQueue<TimerOp>) -> (c: usize)
    ensures
        c == queue_capacity(*q),
{
    q.capacity()
}

/// A clone of `x`, made by its type's `Clone::clone`.
fn clone_of<T: Clone>(x: &T) -> (r: T)
    ensures
        cloned(*x, r),
{
    x.clone()
}

/// A clone of `waker`, made by `Waker::clone`: a handle that wakes the same task.
pub(crate) fn clone_waker(waker: &Waker) -> (w: Waker)
    ensures
        cloned(*waker, w),
{
    clone_of(waker)
}

} // verus!
