//! Fixed-capacity, insertion-ordered queue with FIFO eviction.
//!
//! The queue is the only piece of shared state in the pipeline: a scanner
//! appends observations, a query handler reads them all back. When a push
//! would exceed the capacity, the single oldest entry leaves first, so the
//! queue always holds the most recent entries, oldest first.

use vstd::prelude::*;

verus! {

use std::collections::VecDeque;

/// One push into a bounded queue of capacity `cap`: if the queue is full,
/// the oldest entry is evicted before the new entry is appended.
pub open spec fn pushed<T>(s: Seq<T>, cap: nat, item: T) -> Seq<T> {
    if s.len() < cap {
        s.push(item)
    } else {
        s.drop_first().push(item)
    }
}

/// The contents of a queue of capacity `cap` after pushing `items` in
/// order into a fresh queue.
pub open spec fn fill<T>(cap: nat, items: Seq<T>) -> Seq<T>
    decreases items.len(),
{
    if items.len() == 0 {
        Seq::<T>::empty()
    } else {
        pushed(fill(cap, items.drop_last()), cap, items.last())
    }
}

/// A queue that never grows past the capacity fixed at construction;
/// once full, each push evicts the oldest entry.
pub struct FixedQueue<T> {
    queue: VecDeque<T>,
    max_len: usize,
}

impl<T> View for FixedQueue<T> {
    type V = Seq<T>;

    closed spec fn view(&self) -> Seq<T> {
        self.queue@
    }
}

impl<T> FixedQueue<T> {
    /// The capacity fixed at construction.
    pub closed spec fn capacity(&self) -> nat {
        self.max_len as nat
    }

    pub open spec fn wf(&self) -> bool {
        &&& self.capacity() >= 1
        &&& self@.len() <= self.capacity()
    }

    /// A fresh queue is empty and its capacity is positive.
    pub fn new(max_len: usize) -> (q: Self)
        requires
            max_len >= 1,
        ensures
            q.wf(),
            q.capacity() == max_len,
            q@ == Seq::<T>::empty(),
    {
        FixedQueue { queue: VecDeque::with_capacity(max_len), max_len }
    }

    /// Appends `item`; if the queue is full, the oldest entry is evicted
    /// first. Never fails.
    pub fn push(&mut self, item: T)
        requires
            old(self).wf(),
        ensures
            final(self).wf(),
            final(self).capacity() == old(self).capacity(),
            final(self)@ == pushed(old(self)@, old(self).capacity(), item),
    {
        if self.queue.len() == self.max_len {
            self.queue.pop_front();
            assert(self.queue@ =~= old(self)@.drop_first());
        }
        self.queue.push_back(item);
    }

    /// Read-only access to the current entries, oldest first.
    pub fn get_queue(&self) -> (r: &VecDeque<T>)
        ensures
            r@ == self@,
    {
        &self.queue
    }
}

/// Bounded size: for every sequence of pushes into a fresh queue, the
/// number of entries equals `min(capacity, total_pushes)`.
pub proof fn lemma_bounded_size<T>(cap: nat, items: Seq<T>)
    requires
        cap >= 1,
    ensures
        fill(cap, items).len() == if items.len() <= cap {
            items.len()
        } else {
            cap
        },
    decreases items.len(),
{
    if items.len() > 0 {
        lemma_bounded_size(cap, items.drop_last());
    }
}

/// Eviction order: after pushing `items` in order into a fresh queue of
/// capacity `cap`, the queue holds exactly the most recent
/// `min(cap, items.len())` of them, in insertion order.
pub proof fn lemma_eviction_order<T>(cap: nat, items: Seq<T>)
    requires
        cap >= 1,
    ensures
        fill(cap, items) == items.skip(
            if items.len() <= cap {
                0
            } else {
                items.len() - cap
            },
        ),
    decreases items.len(),
{
    if items.len() == 0 {
        assert(fill(cap, items) =~= items.skip(0));
    } else {
        let prefix = items.drop_last();
        lemma_eviction_order(cap, prefix);
        lemma_bounded_size(cap, prefix);
        if prefix.len() < cap {
            assert(fill(cap, items) =~= items.skip(0));
        } else {
            let k = items.len() - cap;
            assert(fill(cap, items) =~= items.skip(k as int));
        }
    }
}

} // verus!
