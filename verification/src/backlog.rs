//! A fixed-capacity overwrite-oldest buffer whose snapshot lists the retained
//! items in push order, oldest first.

use vstd::prelude::*;
use crate::circular_buffer::{lemma_push_all_shape, RingModel};

verus! {

/// The retained items in push order: everything from the overwrite slot to
/// the end of storage, then the prefix before the slot.
pub open spec fn ordered_contents<T>(m: RingModel<T>) -> Seq<T> {
    m.data.subrange(m.next as int, m.data.len() as int) + m.data.subrange(0, m.next as int)
}

/// Like [`crate::circular_buffer::CircularBuffer`], but its snapshot restores
/// the push order of the retained items.
#[derive(Clone, Debug, PartialEq)]
pub struct Backlog<T> {
    buffer: Vec<T>,
    next_index: usize,
    capacity: usize,
}

impl<T> View for Backlog<T> {
    type V = RingModel<T>;

    closed spec fn view(&self) -> RingModel<T> {
        RingModel { cap: self.capacity as nat, data: self.buffer@, next: self.next_index as nat }
    }
}

impl<T: Clone> Backlog<T> {
    pub fn with_capacity(capacity: usize) -> (r: Self)
        ensures
            r@ == RingModel::<T>::spec_empty(capacity as nat),
            r@.wf(),
    {
        Backlog { buffer: Vec::new(), next_index: 0, capacity }
    }

    /// Adds an item, overwriting the oldest one when the buffer is full.
    pub fn push(&mut self, item: T)
        requires
            old(self)@.wf(),
            old(self)@.cap > 0,
        ensures
            final(self)@ == old(self)@.spec_push(item),
            final(self)@.wf(),
    {
        if self.buffer.len() < self.capacity {
            self.buffer.push(item);
        } else {
            self.buffer.set(self.next_index, item);
        }
        self.next_index = (self.next_index + 1) % self.capacity;
        proof {
            let n0 = old(self)@.next;
            let c = old(self)@.cap;
            if n0 + 1 < c {
                vstd::arithmetic::div_mod::lemma_small_mod((n0 + 1) as nat, c);
            } else {
                vstd::arithmetic::div_mod::lemma_mod_self_0(c as int);
            }
        }
    }

    /// The retained items, oldest first. Each returned element is a clone of
    /// the corresponding stored one.
    pub fn snapshot(&self) -> (r: Vec<T>)
        requires
            self@.wf(),
        ensures
            r@.len() == ordered_contents(self@).len(),
            forall|i: int|
                0 <= i < r@.len() ==> cloned::<T>(ordered_contents(self@)[i], #[trigger] r@[i]),
    {
        let ghost ord = ordered_contents(self@);
        let len = self.buffer.len();
        let mut items: Vec<T> = Vec::new();
        let mut i: usize = self.next_index;
        if i >= len {
            // Not yet full (or empty): storage order is push order.
            i = 0;
            proof {
                assert(self@.data.subrange(self@.next as int, self@.data.len() as int) =~= Seq::<
                    T,
                >::empty());
                assert(ord =~= self@.data);
            }
            while i < len
                invariant
                    len == self.buffer@.len(),
                    ord == self.buffer@,
                    i <= len,
                    items@.len() == i,
                    forall|j: int| 0 <= j < i ==> cloned::<T>(ord[j], #[trigger] items@[j]),
                decreases len - i,
            {
                items.push(self.buffer[i].clone());
                i += 1;
            }
        } else {
            proof {
                assert(forall|j: int|
                    0 <= j < len - self@.next ==> ord[j] == self.buffer@[self@.next + j]);
                assert(forall|j: int|
                    len - self@.next <= j < len ==> ord[j] == self.buffer@[j - (len
                        - self@.next)]);
            }
            while i < len
                invariant
                    len == self.buffer@.len(),
                    ord.len() == len,
                    self@.next <= i <= len,
                    items@.len() == i - self@.next,
                    forall|j: int|
                        0 <= j < len - self@.next ==> ord[j] == self.buffer@[self@.next + j],
                    forall|j: int| 0 <= j < items@.len() ==> cloned::<T>(ord[j], #[trigger] items@[j]),
                decreases len - i,
            {
                items.push(self.buffer[i].clone());
                i += 1;
            }
            i = 0;
            while i < self.next_index
                invariant
                    len == self.buffer@.len(),
                    ord.len() == len,
                    self@.next <= len,
                    i <= self@.next,
                    items@.len() == len - self@.next + i,
                    forall|j: int|
                        len - self@.next <= j < len ==> ord[j] == self.buffer@[j - (len
                            - self@.next)],
                    forall|j: int| 0 <= j < items@.len() ==> cloned::<T>(ord[j], #[trigger] items@[j]),
                decreases self.next_index - i,
            {
                items.push(self.buffer[i].clone());
                i += 1;
            }
        }
        items
    }
}

/// A backlog filled from scratch snapshots exactly the last
/// `min(items.len(), cap)` pushed items, in push order.
pub proof fn lemma_backlog_snapshot_order<T>(cap: nat, items: Seq<T>)
    requires
        cap > 0,
    ensures
        ordered_contents(RingModel::<T>::spec_empty(cap).spec_push_all(items))
            == RingModel::<T>::window(cap, items),
{
    let m = RingModel::<T>::spec_empty(cap).spec_push_all(items);
    let w = RingModel::<T>::window(cap, items);
    lemma_push_all_shape(cap, items);
    if items.len() < cap {
        assert(ordered_contents(m) =~= w);
    } else {
        assert(ordered_contents(m) =~= w);
    }
}

} // verus!
