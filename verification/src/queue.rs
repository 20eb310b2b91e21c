//! The lock-free queues of a module, each a `crossbeam` `SegQueue`.
//!
//! The library always holds a queue by exclusive reference when it pushes or
//! pops, so the queue behaves as a plain first-in first-out sequence.
use crate::types::{AsyncCallArguments, AsyncCallReturnValue};
use crossbeam::queue::SegQueue;
use vstd::prelude::*;

verus! {

#[verifier::external_type_specification]
#[verifier::external_body]
#[verifier::reject_recursive_types(T)]
pub struct ExSegQueue<T>(SegQueue<T>);

/// The calls that a submission queue holds, oldest first.
pub uninterp spec fn queued_calls(q: SegQueue<AsyncCallArguments>) -> Seq<AsyncCallArguments>;

/// The answers that a completion queue holds, oldest first.
pub uninterp spec fn queued_returns(q: SegQueue<AsyncCallReturnValue>) -> Seq<AsyncCallReturnValue>;

/// Calls `SegQueue::new`; the queue it makes is empty.
#[verifier::external_body]
pub(crate) fn new_call_queue() -> (q: SegQueue<AsyncCallArguments>)
    ensures
        queued_calls(q) == Seq::<AsyncCallArguments>::empty(),
{
    SegQueue::new()
}

/// Calls `SegQueue::push`, which appends the value at the tail.
/// Not stated: `push` advances a tail index by 2 per push, an index of 64
/// bits, or of `usize` where the target has no 64-bit atomics; it would
/// overflow after about 2^63 (or, with a 32-bit `usize`, 2^31) pushes.
#[verifier::external_body]
pub(crate) fn push_call(q: &mut SegQueue<AsyncCallArguments>, args: AsyncCallArguments)
    ensures
        queued_calls(*final(q)) == queued_calls(*old(q)).push(args),
{
    q.push(args)
}

/// Calls `SegQueue::pop`, which removes and returns the value at the head,
/// or returns `None` and leaves the queue as it is when it is empty.
#[verifier::external_body]
pub(crate) fn pop_call(q: &mut SegQueue<AsyncCallArguments>) -> (r: Option<AsyncCallArguments>)
    ensures
        match r {
            Some(a) => {
                &&& queued_calls(*old(q)).len() > 0
                &&& a == queued_calls(*old(q))[0]
                &&& queued_calls(*final(q)) == queued_calls(*old(q)).drop_first()
            },
            None => {
                &&& queued_calls(*old(q)).len() == 0
                &&& queued_calls(*final(q)) == queued_calls(*old(q))
            },
        },
{
    q.pop()
}

/// Calls `SegQueue::len`, the number of values the queue holds.
#[verifier::external_body]
pub(crate) fn call_queue_len(q: &SegQueue<AsyncCallArguments>) -> (n: usize)
    ensures
        n == queued_calls(*q).len(),
{
    q.len()
}

/// Calls `SegQueue::new`; the queue it makes is empty.
#[verifier::external_body]
pub(crate) fn new_return_queue() -> (q: SegQueue<AsyncCallReturnValue>)
    ensures
        queued_returns(q) == Seq::<AsyncCallReturnValue>::empty(),
{
    SegQueue::new()
}

/// Calls `SegQueue::push`, which appends the value at the tail.
/// Not stated: `push` advances a tail index by 2 per push, an index of 64
/// bits, or of `usize` where the target has no 64-bit atomics; it would
/// overflow after about 2^63 (or, with a 32-bit `usize`, 2^31) pushes.
#[verifier::external_body]
pub(crate) fn push_return(q: &mut SegQueue<AsyncCallReturnValue>, ret: AsyncCallReturnValue)
    ensures
        queued_returns(*final(q)) == queued_returns(*old(q)).push(ret),
{
    q.push(ret)
}

/// Calls `SegQueue::pop`, which removes and returns the value at the head,
/// or returns `None` and leaves the queue as it is when it is empty.
#[verifier::external_body]
pub(crate) fn pop_return(q: &mut SegQueue<AsyncCallReturnValue>) -> (r: Option<AsyncCallReturnValue>)
    ensures
        match r {
            Some(a) => {
                &&& queued_returns(*old(q)).len() > 0
                &&& a == queued_returns(*old(q))[0]
                &&& queued_returns(*final(q)) == queued_returns(*old(q)).drop_first()
            },
            None => {
                &&& queued_returns(*old(q)).len() == 0
                &&& queued_returns(*final(q)) == queued_returns(*old(q))
            },
        },
{
    q.pop()
}

} // verus!
