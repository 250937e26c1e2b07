//! Delivery groups. A `Broadcast` maps subscriber ids to subscribers; sending
//! walks every subscriber and evicts, in the same pass, each one whose
//! delivery fails. That eviction is the only backpressure toward consumers.

use vstd::prelude::*;
use crate::id_pool::Id;

verus! {

/// A consumer-supplied delivery capability. `accepts` is the declared
/// success condition of `send`: a delivery succeeds exactly when the
/// subscriber, in its current state, accepts the item.
pub trait Subscriber: Sized {
    type Item;

    /// Whether a delivery of `message` to this subscriber would succeed.
    spec fn accepts(&self, message: &Self::Item) -> bool;

    /// Delivers one item; failure means this subscriber cannot keep up or is
    /// gone, and leads to eviction.
    fn send(&mut self, message: &Self::Item) -> (r: Result<(), ()>)
        ensures
            r is Ok <==> old(self).accepts(message),
    ;
}

/// A subscriber that discards every item and never fails.
#[derive(Clone, Copy, Debug)]
pub struct NoOpSubscriber;

impl Subscriber for NoOpSubscriber {
    type Item = ();

    open spec fn accepts(&self, message: &()) -> bool {
        true
    }

    fn send(&mut self, message: &()) -> (r: Result<(), ()>) {
        Ok(())
    }
}

/// A subscriber that stores every delivered item, in order, and never fails.
#[derive(Clone, Debug)]
pub struct CollectingSubscriber<T> {
    pub items: Vec<T>,
}

impl<T: Copy> CollectingSubscriber<T> {
    pub fn new() -> (r: Self)
        ensures
            r.items@.len() == 0,
    {
        CollectingSubscriber { items: Vec::new() }
    }
}

impl<T: Copy> Subscriber for CollectingSubscriber<T> {
    type Item = T;

    open spec fn accepts(&self, message: &T) -> bool {
        true
    }

    fn send(&mut self, message: &T) -> (r: Result<(), ()>)
        ensures
            final(self).items@ == old(self).items@.push(*message),
    {
        self.items.push(*message);
        Ok(())
    }
}

/// A subscriber whose deliveries always fail: it stands for a consumer that
/// is gone, and is evicted on the first send.
#[derive(Debug)]
pub struct RejectingSubscriber<T> {
    marker: core::marker::PhantomData<T>,
}

impl<T> RejectingSubscriber<T> {
    pub fn new() -> (r: Self) {
        RejectingSubscriber { marker: core::marker::PhantomData }
    }
}

impl<T> Clone for RejectingSubscriber<T> {
    fn clone(&self) -> (r: Self) {
        RejectingSubscriber { marker: core::marker::PhantomData }
    }
}

impl<T> Subscriber for RejectingSubscriber<T> {
    type Item = T;

    open spec fn accepts(&self, message: &T) -> bool {
        false
    }

    fn send(&mut self, message: &T) -> (r: Result<(), ()>)
        ensures
            r is Err,
    {
        Err(())
    }
}

/// The ids that survive a delivery of `m` to `pairs`, in order: those whose
/// subscriber accepts `m`.
pub open spec fn survivor_ids<S: Subscriber>(pairs: Seq<(Id, S)>, m: &S::Item) -> Seq<Id>
    decreases pairs.len(),
{
    if pairs.len() == 0 {
        Seq::empty()
    } else {
        let rest = survivor_ids(pairs.drop_first(), m);
        if pairs[0].1.accepts(m) {
            seq![pairs[0].0] + rest
        } else {
            rest
        }
    }
}

/// A broadcast group: subscriber ids mapped to subscribers. Ids are unique
/// within a group.
pub struct Broadcast<S> {
    subscribers: Vec<(Id, S)>,
}

impl<S> View for Broadcast<S> {
    type V = Seq<(Id, S)>;

    closed spec fn view(&self) -> Seq<(Id, S)> {
        self.subscribers@
    }
}

impl<S: Subscriber> Broadcast<S> {
    /// The group holds `id`.
    pub open spec fn has(&self, id: u32) -> bool {
        exists|i: int| 0 <= i < self@.len() && self@[i].0.0 == id
    }

    /// Ids are pairwise distinct.
    pub open spec fn wf(&self) -> bool {
        forall|i: int, j: int| 0 <= i < j < self@.len() ==> self@[i].0.0 != self@[j].0.0
    }

    pub fn new() -> (r: Self)
        ensures
            r@.len() == 0,
            r.wf(),
    {
        Broadcast { subscribers: Vec::new() }
    }

    pub fn is_empty(&self) -> (r: bool)
        ensures
            r == (self@.len() == 0),
    {
        self.subscribers.len() == 0
    }

    pub fn subscriber_count(&self) -> (r: usize)
        ensures
            r == self@.len(),
    {
        self.subscribers.len()
    }

    fn find_index(&self, id: &Id) -> (r: Option<usize>)
        requires
            self.wf(),
        ensures
            match r {
                Some(i) => i < self@.len() && self@[i as int].0 == *id,
                None => !self.has(id.0),
            },
    {
        let n = self.subscribers.len();
        let mut i: usize = 0;
        while i < n
            invariant
                n == self@.len(),
                0 <= i <= n,
                forall|k: int| 0 <= k < i ==> self@[k].0.0 != id.0,
            decreases n - i,
        {
            if self.subscribers[i].0.0 == id.0 {
                proof {
                    assert(self@[i as int].0 == *id);
                }
                return Some(i);
            }
            i += 1;
        }
        None
    }

    /// A shared borrow of the subscriber registered under `id`.
    pub fn get(&self, id: &Id) -> (r: Option<&S>)
        requires
            self.wf(),
        ensures
            match r {
                Some(sub) => exists|i: int|
                    0 <= i < self@.len() && self@[i].0 == *id && self@[i].1 == *sub,
                None => !self.has(id.0),
            },
    {
        match self.find_index(id) {
            Some(i) => Some(&self.subscribers[i].1),
            None => None,
        }
    }

    /// An exclusive borrow of the subscriber registered under `id`. The
    /// borrower may advance the subscriber's own state; the group's ids are
    /// untouched.
    pub fn get_mut(&mut self, id: &Id) -> (r: Option<&mut S>)
        requires
            old(self).wf(),
        ensures
            r is Some <==> old(self).has(id.0),
            final(self).wf(),
            final(self)@.len() == old(self)@.len(),
            forall|i: int| 0 <= i < old(self)@.len() ==> final(self)@[i].0 == #[trigger] old(self)@[i].0,
    {
        match self.find_index(id) {
            Some(i) => Some(&mut self.subscribers[i].1),
            None => None,
        }
    }

    /// Registers `subscriber` under `id`; a subscriber already registered
    /// under that id is replaced and returned.
    pub fn subscribe(&mut self, id: Id, subscriber: S) -> (r: Option<S>)
        requires
            old(self).wf(),
        ensures
            final(self).wf(),
            final(self).has(id.0),
            forall|x: u32| x != id.0 ==> final(self).has(x) == old(self).has(x),
            match r {
                Some(prev) => exists|i: int|
                    {
                        &&& 0 <= i < old(self)@.len()
                        &&& old(self)@[i].0.0 == id.0
                        &&& prev == old(self)@[i].1
                        &&& final(self)@ == old(self)@.update(i, (id, subscriber))
                    },
                None => !old(self).has(id.0) && final(self)@ == old(self)@.push(
                    (id, subscriber),
                ),
            },
    {
        match self.find_index(&id) {
            Some(i) => {
                let mut pair = (id, subscriber);
                self.subscribers.set_and_swap(i, &mut pair);
                proof {
                    assert(final(self)@[i as int].0.0 == id.0);
                    assert forall|x: u32| x != id.0 implies final(self).has(x) == old(self).has(
                        x,
                    ) by {
                        if old(self).has(x) {
                            let k = choose|k: int|
                                0 <= k < old(self)@.len() && old(self)@[k].0.0 == x;
                            assert(final(self)@[k].0.0 == x);
                        }
                        if final(self).has(x) {
                            let k = choose|k: int|
                                0 <= k < final(self)@.len() && final(self)@[k].0.0 == x;
                            assert(old(self)@[k].0.0 == x);
                        }
                    }
                }
                Some(pair.1)
            }
            None => {
                self.subscribers.push((id, subscriber));
                proof {
                    assert(final(self)@[old(self)@.len() as int].0.0 == id.0);
                    assert forall|x: u32| x != id.0 implies final(self).has(x) == old(self).has(
                        x,
                    ) by {
                        if old(self).has(x) {
                            let k = choose|k: int|
                                0 <= k < old(self)@.len() && old(self)@[k].0.0 == x;
                            assert(final(self)@[k].0.0 == x);
                        }
                        if final(self).has(x) {
                            let k = choose|k: int|
                                0 <= k < final(self)@.len() && final(self)@[k].0.0 == x;
                            assert(k < old(self)@.len());
                            assert(old(self)@[k].0.0 == x);
                        }
                    }
                }
                None
            }
        }
    }

    /// Removes and returns the subscriber registered under `id`.
    pub fn unsubscribe(&mut self, id: &Id) -> (r: Option<S>)
        requires
            old(self).wf(),
        ensures
            final(self).wf(),
            !final(self).has(id.0),
            forall|x: u32| x != id.0 ==> final(self).has(x) == old(self).has(x),
            match r {
                Some(prev) => old(self).has(id.0) && final(self)@.len() == old(self)@.len() - 1,
                None => !old(self).has(id.0) && final(self)@ == old(self)@,
            },
    {
        match self.find_index(id) {
            Some(i) => {
                let pair = self.subscribers.remove(i);
                proof {
                    let f0 = old(self)@;
                    let f1 = self@;
                    assert(f1 =~= f0.remove(i as int));
                    assert forall|k: int| 0 <= k < f1.len() implies f1[k].0.0 != id.0 by {
                        if k < i {
                            assert(f1[k] == f0[k]);
                        } else {
                            assert(f1[k] == f0[k + 1]);
                        }
                    }
                    assert forall|x: u32| x != id.0 implies self.has(x) == old(self).has(x) by {
                        if old(self).has(x) {
                            let k = choose|k: int| 0 <= k < f0.len() && f0[k].0.0 == x;
                            if k < i {
                                assert(f1[k].0.0 == x);
                            } else {
                                assert(k > i);
                                assert(f1[k - 1].0.0 == x);
                            }
                        }
                        if self.has(x) {
                            let k = choose|k: int| 0 <= k < f1.len() && f1[k].0.0 == x;
                            if k < i {
                                assert(f0[k].0.0 == x);
                            } else {
                                assert(f0[k + 1].0.0 == x);
                            }
                        }
                    }
                    assert forall|a: int, b: int| 0 <= a < b < f1.len() implies f1[a].0.0
                        != f1[b].0.0 by {
                        let a0 = if a < i { a } else { a + 1 };
                        let b0 = if b < i { b } else { b + 1 };
                        assert(f1[a] == f0[a0] && f1[b] == f0[b0]);
                    }
                }
                Some(pair.1)
            }
            None => None,
        }
    }

    /// Delivers `message` to every subscriber; each one whose delivery fails
    /// is removed in the same pass. Survivors keep their order.
    pub fn send(&mut self, message: &S::Item)
        requires
            old(self).wf(),
        ensures
            final(self).wf(),
            final(self)@.map(|_i: int, p: (Id, S)| p.0) == survivor_ids(old(self)@, message),
            forall|i: int|
                0 <= i < old(self)@.len() ==> (final(self).has(#[trigger] old(self)@[i].0.0)
                    == old(self)@[i].1.accepts(message)),
            forall|x: u32| final(self).has(x) ==> old(self).has(x),
    {
        let ghost orig = self.subscribers@;
        let mut kept: Vec<(Id, S)> = Vec::new();
        proof {
            assert(kept@.map(|_i: int, p: (Id, S)| p.0) + survivor_ids(self.subscribers@, message)
                =~= survivor_ids(orig, message));
        }
        while self.subscribers.len() > 0
            invariant
                kept@.map(|_i: int, p: (Id, S)| p.0) + survivor_ids(self.subscribers@, message)
                    == survivor_ids(orig, message),
            decreases self.subscribers@.len(),
        {
            let ghost pre = self.subscribers@;
            let (id, mut sub) = self.subscribers.remove(0);
            proof {
                assert(self.subscribers@ =~= pre.drop_first());
            }
            match sub.send(message) {
                Ok(_) => {
                    kept.push((id, sub));
                    proof {
                        assert(pre[0].1.accepts(message));
                        assert(survivor_ids(pre, message) == seq![pre[0].0] + survivor_ids(
                            pre.drop_first(),
                            message,
                        ));
                        assert(kept@.map(|_i: int, p: (Id, S)| p.0) =~= kept@.drop_last().map(
                            |_i: int, p: (Id, S)| p.0,
                        ).push(id));
                        assert(kept@.map(|_i: int, p: (Id, S)| p.0) + survivor_ids(
                            self.subscribers@,
                            message,
                        ) =~= kept@.drop_last().map(|_i: int, p: (Id, S)| p.0) + survivor_ids(
                            pre,
                            message,
                        ));
                    }
                }
                Err(_) => {
                    proof {
                        assert(!pre[0].1.accepts(message));
                        assert(survivor_ids(pre, message) == survivor_ids(
                            pre.drop_first(),
                            message,
                        ));
                    }
                }
            }
        }
        proof {
            assert(kept@.map(|_i: int, p: (Id, S)| p.0) =~= survivor_ids(orig, message));
        }
        self.subscribers = kept;
        proof {
            let ids = self@.map(|_i: int, p: (Id, S)| p.0);
            assert(ids == survivor_ids(orig, message));
            lemma_survivor_ids_membership(orig, message);
            assert forall|i: int| 0 <= i < orig.len() implies (self.has(#[trigger] orig[i].0.0)
                == orig[i].1.accepts(message)) by {
                if orig[i].1.accepts(message) {
                    assert(ids.contains(orig[i].0));
                    let k = choose|k: int| 0 <= k < ids.len() && ids[k] == orig[i].0;
                    assert(self@[k].0 == orig[i].0);
                    assert(self.has(orig[i].0.0));
                }
                if self.has(orig[i].0.0) {
                    let k = choose|k: int| 0 <= k < self@.len() && self@[k].0.0 == orig[i].0.0;
                    assert(ids[k] == self@[k].0);
                    assert(ids.contains(self@[k].0));
                    let j = choose|j: int|
                        0 <= j < orig.len() && orig[j].0 == self@[k].0 && orig[j].1.accepts(
                            message,
                        );
                    assert(orig[j].0.0 == orig[i].0.0);
                    if j < i {
                        assert(orig[j].0.0 != orig[i].0.0);
                    } else if j > i {
                        assert(orig[i].0.0 != orig[j].0.0);
                    }
                    assert(orig[i].1.accepts(message));
                }
            }
            assert forall|x: u32| self.has(x) implies exists|i: int|
                0 <= i < orig.len() && orig[i].0.0 == x by {
                let k = choose|k: int| 0 <= k < self@.len() && self@[k].0.0 == x;
                assert(ids[k] == self@[k].0);
                assert(ids.contains(self@[k].0));
                let j = choose|j: int|
                    0 <= j < orig.len() && orig[j].0 == self@[k].0 && orig[j].1.accepts(message);
                assert(orig[j].0.0 == x);
            }
            assert forall|a: int, b: int| 0 <= a < b < self@.len() implies self@[a].0.0
                != self@[b].0.0 by {
                assert(ids[a] == self@[a].0 && ids[b] == self@[b].0);
                lemma_survivor_ids_distinct(orig, message, a, b);
            }
        }
    }

    /// Delivers `message` to the one subscriber registered under `id`, if
    /// present; the outcome is ignored and nobody is evicted.
    pub fn send_to(&mut self, id: &Id, message: &S::Item)
        requires
            old(self).wf(),
        ensures
            final(self).wf(),
            final(self)@.len() == old(self)@.len(),
            forall|i: int|
                0 <= i < old(self)@.len() ==> final(self)@[i].0 == #[trigger] old(self)@[i].0,
            forall|i: int|
                0 <= i < old(self)@.len() && old(self)@[i].0.0 != id.0 ==> final(self)@[i]
                    == #[trigger] old(self)@[i],
    {
        match self.find_index(id) {
            Some(i) => {
                let ghost pre = self.subscribers@;
                let (sid, mut sub) = self.subscribers.remove(i);
                let _ = sub.send(message);
                self.subscribers.insert(i, (sid, sub));
                proof {
                    assert(self@ =~= pre.remove(i as int).insert(i as int, (sid, sub)));
                    assert forall|k: int|
                        0 <= k < pre.len() && k != i implies self@[k] == pre[k] by {
                        if k < i {
                            assert(self@[k] == pre.remove(i as int)[k]);
                        } else {
                            assert(pre.remove(i as int).insert(i as int, (sid, sub))[k] == pre.remove(
                                i as int,
                            )[k - 1]);
                            assert(pre.remove(i as int)[k - 1] == pre[k]);
                        }
                    }
                    assert(self@[i as int].0 == pre[i as int].0);
                }
            }
            None => {}
        }
    }

    /// Delivers an optional message to the one subscriber registered under
    /// `id`, if both are present.
    pub fn maybe_send_to(&mut self, id: &Id, message: Option<&S::Item>)
        requires
            old(self).wf(),
        ensures
            final(self).wf(),
            final(self)@.len() == old(self)@.len(),
            forall|i: int|
                0 <= i < old(self)@.len() ==> final(self)@[i].0 == #[trigger] old(self)@[i].0,
    {
        if let Some(msg) = message {
            self.send_to(id, msg);
        }
    }

    /// Delivers an optional message: absent means nothing is sent and nobody
    /// is evicted.
    pub fn maybe_send(&mut self, message: Option<&S::Item>)
        requires
            old(self).wf(),
        ensures
            final(self).wf(),
            match message {
                Some(m) => {
                    &&& final(self)@.map(|_i: int, p: (Id, S)| p.0) == survivor_ids(old(self)@, m)
                    &&& forall|i: int|
                        0 <= i < old(self)@.len() ==> (final(self).has(
                            #[trigger] old(self)@[i].0.0,
                        ) == old(self)@[i].1.accepts(m))
                    &&& forall|x: u32| final(self).has(x) ==> old(self).has(x)
                },
                None => final(self)@ == old(self)@,
            },
    {
        if let Some(msg) = message {
            self.send(msg);
        }
    }
}

/// Each id in the survivor list belongs to a pair that accepts the message,
/// and every accepting pair's id is in the list.
proof fn lemma_survivor_ids_membership<S: Subscriber>(pairs: Seq<(Id, S)>, m: &S::Item)
    ensures
        forall|i: int|
            0 <= i < pairs.len() && #[trigger] pairs[i].1.accepts(m) ==> survivor_ids(
                pairs,
                m,
            ).contains(pairs[i].0),
        forall|x: Id|
            #[trigger] survivor_ids(pairs, m).contains(x) ==> exists|i: int|
                0 <= i < pairs.len() && pairs[i].0 == x && pairs[i].1.accepts(m),
    decreases pairs.len(),
{
    if pairs.len() > 0 {
        let rest = pairs.drop_first();
        lemma_survivor_ids_membership(rest, m);
        let sv = survivor_ids(pairs, m);
        let svr = survivor_ids(rest, m);
        assert forall|i: int| 0 <= i < pairs.len() && #[trigger] pairs[i].1.accepts(m) implies
        sv.contains(pairs[i].0) by {
            if i == 0 {
                assert(sv[0] == pairs[0].0);
            } else {
                assert(rest[i - 1] == pairs[i]);
                assert(svr.contains(pairs[i].0));
                let k = choose|k: int| 0 <= k < svr.len() && svr[k] == pairs[i].0;
                if pairs[0].1.accepts(m) {
                    assert(sv[k + 1] == svr[k]);
                } else {
                    assert(sv == svr);
                }
            }
        }
        assert forall|x: Id| #[trigger] sv.contains(x) implies exists|i: int|
            0 <= i < pairs.len() && pairs[i].0 == x && pairs[i].1.accepts(m) by {
            let k = choose|k: int| 0 <= k < sv.len() && sv[k] == x;
            if pairs[0].1.accepts(m) {
                if k == 0 {
                    assert(pairs[0].0 == x && pairs[0].1.accepts(m));
                } else {
                    assert(svr[k - 1] == x);
                    assert(svr.contains(x));
                    let i = choose|i: int| 0 <= i < rest.len() && rest[i].0 == x && rest[i].1.accepts(m);
                    assert(pairs[i + 1] == rest[i]);
                }
            } else {
                assert(svr.contains(x));
                let i = choose|i: int| 0 <= i < rest.len() && rest[i].0 == x && rest[i].1.accepts(m);
                assert(pairs[i + 1] == rest[i]);
            }
        }
    }
}

/// Distinct inputs keep the survivor list distinct.
proof fn lemma_survivor_ids_distinct<S: Subscriber>(pairs: Seq<(Id, S)>, m: &S::Item, a: int, b: int)
    requires
        forall|i: int, j: int| 0 <= i < j < pairs.len() ==> pairs[i].0.0 != pairs[j].0.0,
        0 <= a < b < survivor_ids(pairs, m).len(),
    ensures
        survivor_ids(pairs, m)[a].0 != survivor_ids(pairs, m)[b].0,
    decreases pairs.len(),
{
    let sv = survivor_ids(pairs, m);
    let rest = pairs.drop_first();
    let svr = survivor_ids(rest, m);
    if pairs[0].1.accepts(m) {
        if a == 0 {
            assert(sv[b] == svr[b - 1]);
            lemma_survivor_ids_membership(rest, m);
            assert(svr.contains(svr[b - 1]));
            let i = choose|i: int|
                0 <= i < rest.len() && rest[i].0 == svr[b - 1] && rest[i].1.accepts(m);
            assert(pairs[i + 1] == rest[i]);
            assert(pairs[0].0.0 != pairs[i + 1].0.0);
        } else {
            assert(sv[a] == svr[a - 1] && sv[b] == svr[b - 1]);
            lemma_survivor_ids_distinct(rest, m, a - 1, b - 1);
        }
    } else {
        assert(sv == svr);
        lemma_survivor_ids_distinct(rest, m, a, b);
    }
}

/// A subscriber that accepts nothing is evicted by the first delivery: its id
/// is not among the survivors, so a later delivery never reaches it.
pub proof fn lemma_failing_subscriber_evicted<S: Subscriber>(
    pairs: Seq<(Id, S)>,
    m: &S::Item,
    i: int,
)
    requires
        forall|a: int, b: int| 0 <= a < b < pairs.len() ==> pairs[a].0.0 != pairs[b].0.0,
        0 <= i < pairs.len(),
        !pairs[i].1.accepts(m),
    ensures
        !survivor_ids(pairs, m).contains(pairs[i].0),
{
    lemma_survivor_ids_membership(pairs, m);
    if survivor_ids(pairs, m).contains(pairs[i].0) {
        let j = choose|j: int|
            0 <= j < pairs.len() && pairs[j].0 == pairs[i].0 && pairs[j].1.accepts(m);
        if j < i {
            assert(pairs[j].0.0 != pairs[i].0.0);
        } else if j > i {
            assert(pairs[i].0.0 != pairs[j].0.0);
        }
    }
}

} // verus!
