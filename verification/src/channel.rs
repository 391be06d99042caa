//! Bounded queues with drop-on-full sends.
//!
//! Every queue in the system is bounded at the same depth: the registry's
//! control queue and each subscriber's delivery channel. A send into a full
//! queue is a recoverable, skipped failure; it never blocks the sender.

use vstd::prelude::*;

verus! {

/// Depth of every bounded queue: the registry's control queue and each
/// subscriber's delivery channel.
pub const CHANNEL_CAPACITY: usize = 10;

/// What one drop-on-full send leaves in a queue: the value is appended when
/// there is room and dropped otherwise.
pub open spec fn offer_spec(q: Seq<u64>, v: u64) -> Seq<u64> {
    if q.len() < CHANNEL_CAPACITY {
        q.push(v)
    } else {
        q
    }
}

/// Deliver `v` into a bounded queue. Returns whether the value was accepted;
/// a full queue leaves the queue unchanged.
pub fn offer(q: &mut Vec<u64>, v: u64) -> (accepted: bool)
    ensures
        final(q)@ == offer_spec(old(q)@, v),
        accepted <==> old(q)@.len() < CHANNEL_CAPACITY,
{
    if q.len() < CHANNEL_CAPACITY {
        q.push(v);
        true
    } else {
        false
    }
}

/// Take the oldest value out of a queue, if there is one.
pub fn poll(q: &mut Vec<u64>) -> (r: Option<u64>)
    ensures
        old(q)@.len() == 0 ==> r is None && final(q)@ == old(q)@,
        old(q)@.len() > 0 ==> r == Some(old(q)@[0]) && final(q)@ == old(q)@.remove(0),
{
    if q.len() == 0 {
        None
    } else {
        Some(q.remove(0))
    }
}

} // verus!
