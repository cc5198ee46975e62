//! The shared observation history and the query answer built from it.
//!
//! A `BleInfoQueue` pairs the device identifier with the bounded history
//! of observations. The scanner is its only writer; the query endpoint
//! serializes a snapshot of it on every request and never mutates it.

use vstd::prelude::*;

verus! {

use vstd::utf8::encode_utf8;
use crate::observation::{BleInfo, BleInfoView};
use crate::queue::{FixedQueue, pushed};
use crate::codec::{snapshot_json, snapshot_tok, views_of};

/// The bounded observation history, served under a fixed device
/// identifier.
pub struct BleInfoQueue {
    device_id: String,
    ble: FixedQueue<BleInfo>,
}

impl BleInfoQueue {
    /// The identifier the history is served under.
    pub closed spec fn device_id(&self) -> Seq<char> {
        self.device_id@
    }

    /// The current entries, oldest first.
    pub closed spec fn entries(&self) -> Seq<BleInfoView> {
        views_of(self.ble@)
    }

    /// The capacity fixed at construction.
    pub closed spec fn capacity(&self) -> nat {
        self.ble.capacity()
    }

    pub open spec fn wf(&self) -> bool {
        &&& self.capacity() >= 1
        &&& self.entries().len() <= self.capacity()
    }

    /// A fresh history is empty and its capacity is positive.
    pub fn new(device_id: String, max_len: usize) -> (q: Self)
        requires
            max_len >= 1,
        ensures
            q.wf(),
            q.device_id() == device_id@,
            q.capacity() == max_len,
            q.entries() == Seq::<BleInfoView>::empty(),
    {
        let q = BleInfoQueue { device_id, ble: FixedQueue::new(max_len) };
        proof {
            assert(q.entries() =~= Seq::<BleInfoView>::empty());
        }
        q
    }

    /// Appends one observation, evicting the oldest entry when the
    /// history is full. Never fails.
    pub fn push(&mut self, item: BleInfo)
        requires
            old(self).wf(),
        ensures
            final(self).wf(),
            final(self).capacity() == old(self).capacity(),
            final(self).device_id() == old(self).device_id(),
            final(self).entries() == pushed(old(self).entries(), old(self).capacity(), item@),
    {
        proof {
            let s = self.ble@;
            let cap = self.ble.capacity();
            if s.len() < cap {
                assert(views_of(s.push(item)) =~= views_of(s).push(item@));
            } else {
                assert(views_of(s.drop_first().push(item)) =~= views_of(s).drop_first().push(
                    item@,
                ));
            }
        }
        self.ble.push(item);
    }

    /// The query answer: the whole current history in the wire shape,
    /// oldest first. Never mutates the history; an empty history yields
    /// an empty `ble` array, not an error.
    pub fn get_json(&self) -> (r: String)
        ensures
            encode_utf8(r@) == snapshot_tok(self.device_id(), self.entries()),
    {
        snapshot_json(self.device_id.as_str(), self.ble.get_queue())
    }

    /// An independent copy of the current entries, oldest first: later
    /// pushes leave the copy untouched.
    pub fn snapshot(&self) -> (r: Vec<BleInfo>)
        ensures
            views_of(r@) == self.entries(),
    {
        let q = self.ble.get_queue();
        let mut r: Vec<BleInfo> = Vec::new();
        let mut i: usize = 0;
        while i < q.len()
            invariant
                i <= q@.len(),
                r@.len() == i,
                forall|k: int| 0 <= k < i ==> r@[k]@ == q@[k]@,
            decreases q@.len() - i,
        {
            r.push(q[i].duplicate());
            i = i + 1;
        }
        proof {
            assert(views_of(r@) =~= views_of(q@));
        }
        r
    }
}

} // verus!
