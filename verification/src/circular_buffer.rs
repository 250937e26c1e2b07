//! Fixed-capacity container that overwrites its oldest element once full.
//! Used to keep the most recent raid invitations per boss; the stored order is
//! unspecified and sorting is the caller's responsibility.

use vstd::prelude::*;
use vstd::arithmetic::div_mod::{lemma_mod_self_0, lemma_small_mod};
use vstd::seq_lib::lemma_seq_union_to_multiset_commutative;

verus! {

/// The mathematical state of a [`CircularBuffer`]: its capacity, current
/// contents (in storage order), and the slot the next overwrite lands in.
pub ghost struct RingModel<T> {
    pub cap: nat,
    pub data: Seq<T>,
    pub next: nat,
}

impl<T> RingModel<T> {
    pub open spec fn wf(self) -> bool {
        &&& self.data.len() <= self.cap
        &&& (self.cap > 0 ==> self.next < self.cap)
        &&& (self.data.len() < self.cap ==> self.next == self.data.len())
        &&& (self.cap == 0 ==> self.next == 0 && self.data.len() == 0)
    }

    pub open spec fn spec_empty(cap: nat) -> RingModel<T> {
        RingModel { cap, data: Seq::empty(), next: 0 }
    }

    /// What `push` does: append while below capacity, then overwrite the
    /// oldest slot.
    pub open spec fn spec_push(self, item: T) -> RingModel<T> {
        if self.data.len() < self.cap {
            RingModel {
                cap: self.cap,
                data: self.data.push(item),
                next: ((self.next as int + 1) % (self.cap as int)) as nat,
            }
        } else {
            RingModel {
                cap: self.cap,
                data: self.data.update(self.next as int, item),
                next: ((self.next as int + 1) % (self.cap as int)) as nat,
            }
        }
    }

    /// The state after pushing every element of `items` in order.
    pub open spec fn spec_push_all(self, items: Seq<T>) -> RingModel<T>
        decreases items.len(),
    {
        if items.len() == 0 {
            self
        } else {
            self.spec_push_all(items.drop_last()).spec_push(items.last())
        }
    }

    /// The last `min(items.len(), cap)` elements of `items`: what a buffer
    /// filled from `items` is expected to hold.
    pub open spec fn window(cap: nat, items: Seq<T>) -> Seq<T> {
        if items.len() <= cap {
            items
        } else {
            items.subrange(items.len() - cap, items.len() as int)
        }
    }
}

/// Fixed-capacity ring: O(1) `push` that overwrites the oldest element once
/// the buffer is full. Never holds more than its capacity.
#[derive(Clone, Debug, PartialEq)]
pub struct CircularBuffer<T> {
    buffer: Vec<T>,
    next_index: usize,
    capacity: usize,
}

impl<T> View for CircularBuffer<T> {
    type V = RingModel<T>;

    closed spec fn view(&self) -> RingModel<T> {
        RingModel { cap: self.capacity as nat, data: self.buffer@, next: self.next_index as nat }
    }
}

impl<T> CircularBuffer<T> {
    pub fn with_capacity(capacity: usize) -> (r: Self)
        ensures
            r@ == RingModel::<T>::spec_empty(capacity as nat),
            r@.wf(),
    {
        CircularBuffer { buffer: Vec::new(), next_index: 0, capacity }
    }

    /// Adds an item, overwriting the oldest one when the buffer is full.
    pub fn push(&mut self, item: T)
        requires
            old(self)@.wf(),
            old(self)@.cap > 0,
        ensures
            final(self)@ == old(self)@.spec_push(item),
            final(self)@.wf(),
    {
        if self.buffer.len() < self.capacity {
            self.buffer.push(item);
        } else {
            self.buffer.set(self.next_index, item);
        }
        self.next_index = (self.next_index + 1) % self.capacity;
        proof {
            let n0 = old(self)@.next;
            let c = old(self)@.cap;
            if n0 + 1 < c {
                lemma_small_mod((n0 + 1) as nat, c);
            } else {
                lemma_mod_self_0(c as int);
            }
        }
    }

    /// The current contents, in unspecified order.
    pub fn as_unordered_slice(&self) -> (r: &[T])
        ensures
            r@ == self@.data,
    {
        self.buffer.as_slice()
    }

    /// The number of items currently held.
    pub fn len(&self) -> (r: usize)
        ensures
            r == self@.data.len(),
    {
        self.buffer.len()
    }
}

/// Shape of a buffer filled from scratch: while not yet full it holds exactly
/// the items pushed; once full it holds the last `cap` items rotated so that
/// slot `next` is the oldest.
pub proof fn lemma_push_all_shape<T>(cap: nat, items: Seq<T>)
    requires
        cap > 0,
    ensures
        ({
            let m = RingModel::<T>::spec_empty(cap).spec_push_all(items);
            let w = RingModel::<T>::window(cap, items);
            &&& m.wf()
            &&& m.cap == cap
            &&& (items.len() < cap ==> m.data == items && m.next == items.len())
            &&& (items.len() >= cap ==> m.data.len() == cap && m.data == w.subrange(
                cap - m.next,
                cap as int,
            ) + w.subrange(0, cap - m.next))
        }),
    decreases items.len(),
{
    let m = RingModel::<T>::spec_empty(cap).spec_push_all(items);
    let w = RingModel::<T>::window(cap, items);
    if items.len() == 0 {
        assert(m.data =~= items);
    } else {
        let prev = items.drop_last();
        let t = items.last();
        lemma_push_all_shape(cap, prev);
        let m0 = RingModel::<T>::spec_empty(cap).spec_push_all(prev);
        let w0 = RingModel::<T>::window(cap, prev);
        assert(m == m0.spec_push(t));
        if prev.len() < cap {
            if items.len() < cap {
                lemma_small_mod(items.len(), cap);
            }
            assert(m.data =~= items);
            if items.len() >= cap {
                // The buffer just became full: slot `next` wrapped to 0.
                lemma_mod_self_0(cap as int);
                assert(m.next == 0);
                assert(w =~= items);
                assert(m.data =~= w.subrange(cap - 0, cap as int) + w.subrange(0, cap - 0));
            }
        } else {
            let n0 = m0.next;
            let n1 = m.next;
            assert(m.data == m0.data.update(n0 as int, t));
            assert(w0.len() == cap);
            assert(w.len() == cap);
            // New window drops the oldest element and appends the new one.
            assert(w =~= w0.subrange(1, cap as int).push(t));
            if n0 + 1 < cap {
                lemma_small_mod((n0 + 1) as nat, cap);
                assert(n1 == n0 + 1);
                assert(m.data =~= w.subrange(cap - n1, cap as int) + w.subrange(0, cap - n1));
            } else {
                lemma_mod_self_0(cap as int);
                assert(n0 == cap - 1 && n1 == 0);
                assert(m.data =~= w.subrange(cap - 0, cap as int) + w.subrange(0, cap - 0));
            }
        }
    }
}

/// For any sequence of pushes into an initially empty buffer of positive
/// capacity `cap`, the contents equal the last `min(items.len(), cap)` items
/// pushed, as a multiset.
pub proof fn lemma_ring_buffer_contents<T>(cap: nat, items: Seq<T>)
    requires
        cap > 0,
    ensures
        RingModel::<T>::spec_empty(cap).spec_push_all(items).data.to_multiset()
            == RingModel::<T>::window(cap, items).to_multiset(),
{
    let m = RingModel::<T>::spec_empty(cap).spec_push_all(items);
    let w = RingModel::<T>::window(cap, items);
    lemma_push_all_shape(cap, items);
    if items.len() < cap {
        assert(m.data == w);
    } else {
        let a = w.subrange(cap - m.next, cap as int);
        let b = w.subrange(0, cap - m.next);
        lemma_seq_union_to_multiset_commutative(a, b);
        assert(w =~= b + a);
    }
}

} // verus!
