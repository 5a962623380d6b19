//! The per-type idle pool.
//!
//! Each PE type has one multi-producer/multi-consumer lock-free unbounded
//! queue of idle handles, crossbeam's `SegQueue`. The queue is the one
//! shared structure on the hot acquire/release path; its operations are
//! taken on trust against crossbeam's source, with their contracts stated
//! over the mathematical sequence of queued handles (oldest first, as the
//! FIFO order of the queue has it). The wrappers take the pool `&mut`:
//! their contracts state what one operation does to a pool no other party
//! is touching at that moment.

use vstd::prelude::*;
use crate::pe::PE;
use crate::pe::PEView;

verus! {

#[verifier::external_type_specification]
#[verifier::external_body]
#[verifier::reject_recursive_types(T)]
pub struct ExSegQueue<T>(crossbeam::queue::SegQueue<T>);

/// The handles queued in an idle pool, oldest first.
pub uninterp spec fn pool_seq(q: crossbeam::queue::SegQueue<PE>) -> Seq<PEView>;

/// One type's idle pool of PE handles.
pub(crate) struct Pool {
    pub q: crossbeam::queue::SegQueue<PE>,
}

impl Pool {
    /// The handles this pool holds, oldest first.
    pub(crate) open spec fn contents(&self) -> Seq<PEView> {
        pool_seq(self.q)
    }

    /// Relies on crossbeam's `SegQueue::new`: the new queue holds nothing.
    #[verifier::external_body]
    pub(crate) fn new() -> (p: Pool)
        ensures
            pool_seq(p.q) == Seq::<PEView>::empty(),
    {
        Pool { q: crossbeam::queue::SegQueue::new() }
    }

    /// Relies on crossbeam's `SegQueue::push`: the element joins the tail
    /// of the queue.
    #[verifier::external_body]
    pub(crate) fn push(&mut self, pe: PE)
        ensures
            pool_seq(final(self).q) == pool_seq(old(self).q).push(pe@),
    {
        self.q.push(pe);
    }

    /// Relies on crossbeam's `SegQueue::pop`: the head element comes out,
    /// and `None` is reported only when the queue holds nothing.
    #[verifier::external_body]
    pub(crate) fn pop(&mut self) -> (r: Option<PE>)
        ensures
            (r matches Some(pe) ==> pool_seq(old(self).q).len() > 0
                && pe@ == pool_seq(old(self).q)[0]
                && pool_seq(final(self).q) == pool_seq(old(self).q).drop_first()),
            (r is None ==> pool_seq(old(self).q).len() == 0
                && pool_seq(final(self).q) == pool_seq(old(self).q)),
    {
        self.q.pop()
    }

    /// Relies on crossbeam's `SegQueue::len`: the number of queued
    /// elements.
    #[verifier::external_body]
    pub(crate) fn len(&self) -> (n: usize)
        ensures
            n as nat == pool_seq(self.q).len(),
    {
        self.q.len()
    }
}

} // verus!
