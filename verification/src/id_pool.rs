//! Allocator for subscriber ids: monotonically increasing 32-bit ids with a
//! LIFO free list. Recycled ids are preferred over allocating a new one.

use vstd::prelude::*;

verus! {

/// A subscriber id handed out by [`IdPool`].
#[derive(Clone, Copy, Debug, Hash, PartialEq, Eq, Structural)]
pub struct Id(pub u32);

/// The mathematical state of an [`IdPool`]: the lowest never-allocated id and
/// the stack of recycled ids.
pub ghost struct PoolModel {
    pub next: nat,
    pub free: Seq<nat>,
}

impl PoolModel {
    /// Free-list entries are below `next` and pairwise distinct.
    pub open spec fn wf(self) -> bool {
        &&& forall|i: int| 0 <= i < self.free.len() ==> self.free[i] < self.next
        &&& forall|i: int, j: int|
            0 <= i < j < self.free.len() ==> self.free[i] != self.free[j]
    }

    /// An id is outstanding when it has been handed out and not recycled.
    pub open spec fn is_outstanding(self, x: nat) -> bool {
        x < self.next && !self.free.contains(x)
    }

    /// What `get` does: pop the most recently recycled id, or mint a new one.
    pub open spec fn spec_get(self) -> (PoolModel, nat) {
        if self.free.len() > 0 {
            (PoolModel { next: self.next, free: self.free.drop_last() }, self.free.last())
        } else {
            (PoolModel { next: self.next + 1, free: self.free }, self.next)
        }
    }

    /// What `recycle` does: push the id onto the free list.
    pub open spec fn spec_recycle(self, x: nat) -> PoolModel {
        PoolModel { next: self.next, free: self.free.push(x) }
    }
}

/// Hands out ids that are unique until recycled; recycled ids are reused in
/// LIFO order.
#[derive(Debug)]
pub struct IdPool {
    max_id: u32,
    available: Vec<Id>,
}

impl View for IdPool {
    type V = PoolModel;

    closed spec fn view(&self) -> PoolModel {
        PoolModel {
            next: self.max_id as nat,
            free: self.available@.map(|_i: int, id: Id| id.0 as nat),
        }
    }
}

impl IdPool {
    pub fn new() -> (r: Self)
        ensures
            r@.wf(),
            r@.next == 0,
            r@.free.len() == 0,
    {
        IdPool { max_id: 0, available: Vec::new() }
    }

    /// Returns an id that is not currently outstanding, preferring the most
    /// recently recycled one.
    pub fn get(&mut self) -> (r: Id)
        requires
            old(self)@.wf(),
            old(self)@.next < u32::MAX || old(self)@.free.len() > 0,
        ensures
            final(self)@.wf(),
            (final(self)@, r.0 as nat) == old(self)@.spec_get(),
            !old(self)@.is_outstanding(r.0 as nat),
            final(self)@.is_outstanding(r.0 as nat),
            forall|x: nat|
                x != r.0 ==> final(self)@.is_outstanding(x) == old(self)@.is_outstanding(x),
    {
        match self.available.pop() {
            Some(id) => {
                proof {
                    assert(self@.free == old(self)@.free.drop_last());
                    lemma_drop_last_keeps_outstanding(old(self)@, self@, id.0 as nat);
                }
                id
            }
            None => {
                let id = self.max_id;
                self.max_id = self.max_id + 1;
                proof {
                    assert(self@.free == old(self)@.free);
                    assert forall|x: nat| x != id implies self@.is_outstanding(x) == old(
                        self,
                    )@.is_outstanding(x) by {}
                }
                Id(id)
            }
        }
    }

    /// Returns an id to the pool.
    pub fn recycle(&mut self, id: Id)
        requires
            old(self)@.wf(),
            old(self)@.is_outstanding(id.0 as nat),
        ensures
            final(self)@.wf(),
            final(self)@ == old(self)@.spec_recycle(id.0 as nat),
            !final(self)@.is_outstanding(id.0 as nat),
            forall|x: nat|
                x != id.0 ==> final(self)@.is_outstanding(x) == old(self)@.is_outstanding(x),
    {
        self.available.push(id);
        proof {
            let f0 = old(self)@.free;
            let f1 = self@.free;
            assert(f1 == f0.push(id.0 as nat));
            assert(f1[f0.len() as int] == id.0 as nat);
            assert(f1.contains(id.0 as nat));
            assert forall|x: nat| x != id.0 implies self@.is_outstanding(x) == old(
                self,
            )@.is_outstanding(x) by {
                if f0.contains(x) {
                    let i = choose|i: int| 0 <= i < f0.len() && f0[i] == x;
                    assert(f1[i] == x);
                }
                if f1.contains(x) {
                    let i = choose|i: int| 0 <= i < f1.len() && f1[i] == x;
                    assert(i < f0.len());
                    assert(f0[i] == x);
                }
            }
        }
    }
}

proof fn lemma_drop_last_keeps_outstanding(m0: PoolModel, m1: PoolModel, r: nat)
    requires
        m0.wf(),
        m0.free.len() > 0,
        r == m0.free.last(),
        m1.next == m0.next,
        m1.free == m0.free.drop_last(),
    ensures
        m1.wf(),
        !m0.is_outstanding(r),
        m1.is_outstanding(r),
        forall|x: nat| x != r ==> m1.is_outstanding(x) == m0.is_outstanding(x),
{
    assert(m0.free.contains(r));
    assert(!m1.free.contains(r)) by {
        if m1.free.contains(r) {
            let i = choose|i: int| 0 <= i < m1.free.len() && m1.free[i] == r;
            assert(m0.free[i] == r);
            assert(m0.free[m0.free.len() - 1] == r);
        }
    }
    assert forall|x: nat| x != r implies m1.is_outstanding(x) == m0.is_outstanding(x) by {
        if m0.free.contains(x) {
            let i = choose|i: int| 0 <= i < m0.free.len() && m0.free[i] == x;
            assert(i < m0.free.len() - 1);
            assert(m1.free[i] == x);
        }
        if m1.free.contains(x) {
            let i = choose|i: int| 0 <= i < m1.free.len() && m1.free[i] == x;
            assert(m0.free[i] == x);
        }
    }
}

/// After an outstanding id is recycled, the very next allocation returns that
/// same id: the free list is used last-in-first-out.
pub proof fn lemma_recycled_id_reused(m: PoolModel, x: nat)
    requires
        m.wf(),
        m.is_outstanding(x),
    ensures
        m.spec_recycle(x).spec_get().1 == x,
{
}

} // verus!
