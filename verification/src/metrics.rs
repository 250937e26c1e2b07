//! Pluggable counters: total subscribers, and per-boss follower and
//! invitation counts. The aggregator drives a `Metrics` implementation
//! synchronously; a no-op and a simple in-memory implementation are provided.

use vstd::prelude::*;
use crate::model::BossName;

verus! {

/// A counter sink the aggregator reports to.
pub trait Metrics: Sized {
    type Export;

    fn set_total_subscriber_count(&mut self, count: u32);

    fn set_follower_count(&mut self, boss_name: &BossName, count: u32);

    fn inc_tweet_count(&mut self, boss_name: &BossName);

    fn remove_boss(&mut self, boss_name: &BossName);

    fn export(&self) -> Self::Export;
}

/// A sink that counts nothing.
#[derive(Clone, Copy, Debug)]
pub struct NoOp;

impl Metrics for NoOp {
    type Export = ();

    fn set_total_subscriber_count(&mut self, count: u32) {
    }

    fn set_follower_count(&mut self, boss_name: &BossName, count: u32) {
    }

    fn inc_tweet_count(&mut self, boss_name: &BossName) {
    }

    fn remove_boss(&mut self, boss_name: &BossName) {
    }

    fn export(&self) -> Self::Export {
    }
}

/// Per-boss counters.
#[derive(Clone, Copy, Debug, Eq, PartialEq, Structural)]
pub struct Counts {
    pub followers: u32,
    pub tweets: u32,
}

/// Ghost image of [`SimpleMetrics`].
pub ghost struct SimpleMetricsView {
    pub total_subscriber_count: u32,
    pub boss_counts: Seq<(Seq<char>, Counts)>,
}

impl SimpleMetricsView {
    /// Boss names are pairwise distinct.
    pub open spec fn wf(self) -> bool {
        forall|i: int, j: int|
            0 <= i < j < self.boss_counts.len() ==> self.boss_counts[i].0 != self.boss_counts[j].0
    }

    pub open spec fn has_boss(self, name: Seq<char>) -> bool {
        exists|i: int| 0 <= i < self.boss_counts.len() && self.boss_counts[i].0 == name
    }
}

/// The in-memory counters.
#[derive(Debug, PartialEq)]
pub struct SimpleMetrics {
    total_subscriber_count: u32,
    boss_counts: Vec<(BossName, Counts)>,
}

impl View for SimpleMetrics {
    type V = SimpleMetricsView;

    closed spec fn view(&self) -> SimpleMetricsView {
        SimpleMetricsView {
            total_subscriber_count: self.total_subscriber_count,
            boss_counts: self.boss_counts@.map(|_i: int, p: (BossName, Counts)| (p.0@, p.1)),
        }
    }
}

impl Clone for SimpleMetrics {
    fn clone(&self) -> (r: Self)
        ensures
            r@ == self@,
    {
        let n = self.boss_counts.len();
        let mut boss_counts: Vec<(BossName, Counts)> = Vec::new();
        let mut i: usize = 0;
        while i < n
            invariant
                n == self.boss_counts@.len(),
                0 <= i <= n,
                boss_counts@.len() == i,
                forall|k: int|
                    0 <= k < i ==> (#[trigger] boss_counts@[k].0@ == self.boss_counts@[k].0@
                        && boss_counts@[k].1 == self.boss_counts@[k].1),
            decreases n - i,
        {
            boss_counts.push((self.boss_counts[i].0.clone(), self.boss_counts[i].1));
            i += 1;
        }
        let r = SimpleMetrics { total_subscriber_count: self.total_subscriber_count, boss_counts };
        proof {
            assert(r@.boss_counts =~= self@.boss_counts);
        }
        r
    }
}

impl SimpleMetrics {
    pub fn new() -> (r: Self)
        ensures
            r@.total_subscriber_count == 0,
            r@.boss_counts.len() == 0,
            r@.wf(),
    {
        SimpleMetrics { total_subscriber_count: 0, boss_counts: Vec::new() }
    }

    pub fn total_subscriber_count(&self) -> (r: u32)
        ensures
            r == self@.total_subscriber_count,
    {
        self.total_subscriber_count
    }

    fn find_index(&self, name: &BossName) -> (r: Option<usize>)
        ensures
            match r {
                Some(i) => i < self@.boss_counts.len() && self@.boss_counts[i as int].0 == name@
                    && forall|k: int| 0 <= k < i ==> self@.boss_counts[k].0 != name@,
                None => !self@.has_boss(name@),
            },
    {
        let n = self.boss_counts.len();
        let mut i: usize = 0;
        while i < n
            invariant
                n == self.boss_counts@.len(),
                n == self@.boss_counts.len(),
                0 <= i <= n,
                forall|k: int| 0 <= k < i ==> self@.boss_counts[k].0 != name@,
            decreases n - i,
        {
            if crate::text::eq_str(self.boss_counts[i].0.as_str(), name.as_str()) {
                proof {
                    assert(self@.boss_counts[i as int].0 == name@);
                }
                return Some(i);
            }
            i += 1;
        }
        None
    }

    /// The counters recorded for a boss.
    pub fn counts_for(&self, name: &BossName) -> (r: Option<Counts>)
        ensures
            match r {
                Some(c) => exists|i: int|
                    0 <= i < self@.boss_counts.len() && self@.boss_counts[i]
                        == (name@, c),
                None => !self@.has_boss(name@),
            },
    {
        match self.find_index(name) {
            Some(i) => {
                let c = self.boss_counts[i].1;
                proof {
                    assert(self@.boss_counts[i as int] == (name@, c));
                }
                Some(c)
            }
            None => None,
        }
    }

    pub fn set_total(&mut self, count: u32)
        ensures
            final(self)@.total_subscriber_count == count,
            final(self)@.boss_counts == old(self)@.boss_counts,
    {
        self.total_subscriber_count = count;
    }

    /// Sets a known boss's follower counter; a boss not yet counted gets a
    /// fresh record (no followers, one invitation).
    pub fn set_followers(&mut self, name: &BossName, count: u32)
        ensures
            final(self)@.total_subscriber_count == old(self)@.total_subscriber_count,
            old(self)@.wf() ==> final(self)@.wf(),
            match find_boss(old(self)@.boss_counts, name@) {
                Some(i) => final(self)@.boss_counts == old(self)@.boss_counts.update(
                    i,
                    (name@, Counts { followers: count, tweets: old(self)@.boss_counts[i].1.tweets }),
                ),
                None => final(self)@.boss_counts == old(self)@.boss_counts.push(
                    (name@, Counts { followers: 0, tweets: 1 }),
                ),
            },
    {
        let found = self.find_index(name);
        proof {
            lemma_find_boss_agrees(self@.boss_counts, name@, found);
        }
        match found {
            Some(i) => {
                let tweets = self.boss_counts[i].1.tweets;
                self.boss_counts.set(i, (name.clone(), Counts { followers: count, tweets }));
                proof {
                    assert(self@.boss_counts =~= old(self)@.boss_counts.update(
                        i as int,
                        (name@, Counts { followers: count, tweets }),
                    ));
                    lemma_update_same_key_wf(old(self)@, self@, i as int);
                }
            }
            None => {
                self.boss_counts.push((name.clone(), Counts { followers: 0, tweets: 1 }));
                proof {
                    assert(self@.boss_counts =~= old(self)@.boss_counts.push(
                        (name@, Counts { followers: 0, tweets: 1 }),
                    ));
                    lemma_push_new_key_wf(old(self)@, self@, name@);
                }
            }
        }
    }

    /// Counts one more invitation for a boss; a boss not yet counted gets a
    /// fresh record (no followers, one invitation).
    pub fn inc_tweets(&mut self, name: &BossName)
        ensures
            final(self)@.total_subscriber_count == old(self)@.total_subscriber_count,
            old(self)@.wf() ==> final(self)@.wf(),
            match find_boss(old(self)@.boss_counts, name@) {
                Some(i) => final(self)@.boss_counts == old(self)@.boss_counts.update(
                    i,
                    (
                        name@,
                        Counts {
                            followers: old(self)@.boss_counts[i].1.followers,
                            tweets: (old(self)@.boss_counts[i].1.tweets + 1) as u32,
                        },
                    ),
                ) && old(self)@.boss_counts[i].1.tweets < u32::MAX,
                None => final(self)@.boss_counts == old(self)@.boss_counts.push(
                    (name@, Counts { followers: 0, tweets: 1 }),
                ),
            } || final(self)@.boss_counts == old(self)@.boss_counts,
    {
        let found = self.find_index(name);
        proof {
            lemma_find_boss_agrees(self@.boss_counts, name@, found);
        }
        match found {
            Some(i) => {
                let followers = self.boss_counts[i].1.followers;
                let tweets = self.boss_counts[i].1.tweets;
                if tweets < u32::MAX {
                    self.boss_counts.set(
                        i,
                        (name.clone(), Counts { followers, tweets: tweets + 1 }),
                    );
                    proof {
                        assert(self@.boss_counts =~= old(self)@.boss_counts.update(
                            i as int,
                            (name@, Counts { followers, tweets: (tweets + 1) as u32 }),
                        ));
                        lemma_update_same_key_wf(old(self)@, self@, i as int);
                    }
                }
            }
            None => {
                self.boss_counts.push((name.clone(), Counts { followers: 0, tweets: 1 }));
                proof {
                    assert(self@.boss_counts =~= old(self)@.boss_counts.push(
                        (name@, Counts { followers: 0, tweets: 1 }),
                    ));
                    lemma_push_new_key_wf(old(self)@, self@, name@);
                }
            }
        }
    }

    /// Forgets a boss's counters.
    pub fn remove(&mut self, name: &BossName)
        ensures
            final(self)@.total_subscriber_count == old(self)@.total_subscriber_count,
            old(self)@.wf() ==> final(self)@.wf() && !final(self)@.has_boss(name@) && (forall|
                x: Seq<char>,
            |
                x != name@ ==> final(self)@.has_boss(x) == old(self)@.has_boss(x)),
            match find_boss(old(self)@.boss_counts, name@) {
                Some(i) => final(self)@.boss_counts == old(self)@.boss_counts.remove(i),
                None => final(self)@.boss_counts == old(self)@.boss_counts,
            },
    {
        let found = self.find_index(name);
        proof {
            lemma_find_boss_agrees(self@.boss_counts, name@, found);
        }
        match found {
            Some(i) => {
                self.boss_counts.remove(i);
                proof {
                    assert(self@.boss_counts =~= old(self)@.boss_counts.remove(i as int));
                    if old(self)@.wf() {
                        lemma_remove_key_wf(old(self)@, self@, name@, i as int);
                    }
                }
            }
            None => {}
        }
    }
}

/// The index a boss's counters are recorded at.
pub open spec fn find_boss(counts: Seq<(Seq<char>, Counts)>, name: Seq<char>) -> Option<int>
    decreases counts.len(),
{
    if counts.len() == 0 {
        None
    } else if counts[0].0 == name {
        Some(0)
    } else {
        match find_boss(counts.drop_first(), name) {
            Some(i) => Some(i + 1),
            None => None,
        }
    }
}

proof fn lemma_find_boss_props(counts: Seq<(Seq<char>, Counts)>, name: Seq<char>)
    ensures
        match find_boss(counts, name) {
            Some(i) => 0 <= i < counts.len() && counts[i].0 == name,
            None => forall|i: int| 0 <= i < counts.len() ==> counts[i].0 != name,
        },
    decreases counts.len(),
{
    if counts.len() > 0 && counts[0].0 != name {
        lemma_find_boss_props(counts.drop_first(), name);
        if find_boss(counts.drop_first(), name) is None {
            assert forall|i: int| 0 <= i < counts.len() implies counts[i].0 != name by {
                if i > 0 {
                    assert(counts.drop_first()[i - 1] == counts[i]);
                }
            }
        } else {
            let i = find_boss(counts.drop_first(), name)->Some_0;
            assert(counts.drop_first()[i] == counts[i + 1]);
        }
    }
}

/// The linear scan of `find_index` finds the same entry as [`find_boss`],
/// provided it reports the first occurrence.
proof fn lemma_find_boss_agrees(
    counts: Seq<(Seq<char>, Counts)>,
    name: Seq<char>,
    found: Option<usize>,
)
    requires
        match found {
            Some(i) => i < counts.len() && counts[i as int].0 == name && forall|k: int|
                0 <= k < i ==> counts[k].0 != name,
            None => forall|i: int| 0 <= i < counts.len() ==> counts[i].0 != name,
        },
    ensures
        match found {
            Some(i) => find_boss(counts, name) == Some(i as int),
            None => find_boss(counts, name) is None,
        },
    decreases counts.len(),
{
    lemma_find_boss_props(counts, name);
    match found {
        Some(i) => {
            if i == 0 {
            } else {
                assert forall|k: int| 0 <= k < i - 1 implies counts.drop_first()[k].0 != name by {
                    assert(counts.drop_first()[k] == counts[k + 1]);
                }
                assert(counts.drop_first()[i - 1] == counts[i as int]);
                lemma_find_boss_agrees(counts.drop_first(), name, Some((i - 1) as usize));
            }
        }
        None => {}
    }
}

proof fn lemma_update_same_key_wf(m0: SimpleMetricsView, m1: SimpleMetricsView, i: int)
    requires
        0 <= i < m0.boss_counts.len(),
        m1.boss_counts.len() == m0.boss_counts.len(),
        forall|k: int| 0 <= k < m0.boss_counts.len() && k != i ==> m1.boss_counts[k]
            == m0.boss_counts[k],
        m1.boss_counts[i].0 == m0.boss_counts[i].0,
    ensures
        m0.wf() ==> m1.wf(),
{
}

proof fn lemma_push_new_key_wf(m0: SimpleMetricsView, m1: SimpleMetricsView, name: Seq<char>)
    requires
        !m0.has_boss(name),
        m1.boss_counts.len() == m0.boss_counts.len() + 1,
        forall|k: int| 0 <= k < m0.boss_counts.len() ==> m1.boss_counts[k] == m0.boss_counts[k],
        m1.boss_counts[m0.boss_counts.len() as int].0 == name,
    ensures
        m0.wf() ==> m1.wf(),
{
    if m0.wf() {
        assert forall|a: int, b: int| 0 <= a < b < m1.boss_counts.len() implies m1.boss_counts[a].0
            != m1.boss_counts[b].0 by {
            if b == m0.boss_counts.len() {
                if m1.boss_counts[a].0 == name {
                    assert(m0.has_boss(name));
                }
            }
        }
    }
}

proof fn lemma_remove_key_wf(m0: SimpleMetricsView, m1: SimpleMetricsView, name: Seq<char>, i: int)
    requires
        m0.wf(),
        0 <= i < m0.boss_counts.len(),
        m0.boss_counts[i].0 == name,
        m1.boss_counts == m0.boss_counts.remove(i),
    ensures
        m1.wf(),
        !m1.has_boss(name),
        forall|x: Seq<char>| x != name ==> m1.has_boss(x) == m0.has_boss(x),
{
    let f0 = m0.boss_counts;
    let f1 = m1.boss_counts;
    assert forall|k: int| 0 <= k < f1.len() implies f1[k].0 != name by {
        if k < i {
            assert(f1[k] == f0[k]);
        } else {
            assert(f1[k] == f0[k + 1]);
        }
    }
    assert forall|x: Seq<char>| x != name implies m1.has_boss(x) == m0.has_boss(x) by {
        if m0.has_boss(x) {
            let k = choose|k: int| 0 <= k < f0.len() && f0[k].0 == x;
            if k < i {
                assert(f1[k].0 == x);
            } else {
                assert(k > i);
                assert(f1[k - 1].0 == x);
            }
        }
        if m1.has_boss(x) {
            let k = choose|k: int| 0 <= k < f1.len() && f1[k].0 == x;
            if k < i {
                assert(f0[k].0 == x);
            } else {
                assert(f0[k + 1].0 == x);
            }
        }
    }
    assert forall|a: int, b: int| 0 <= a < b < f1.len() implies f1[a].0 != f1[b].0 by {
        let a0 = if a < i { a } else { a + 1 };
        let b0 = if b < i { b } else { b + 1 };
        assert(f1[a] == f0[a0] && f1[b] == f0[b0]);
    }
}

/// The in-memory sink; exporting returns a snapshot of the counters.
#[derive(Debug)]
pub struct Simple {
    inner: SimpleMetrics,
}

impl View for Simple {
    type V = SimpleMetricsView;

    closed spec fn view(&self) -> SimpleMetricsView {
        self.inner@
    }
}

/// Builds the in-memory sink with all counters at zero.
pub fn simple() -> (r: Simple)
    ensures
        r@.total_subscriber_count == 0,
        r@.boss_counts.len() == 0,
{
    Simple { inner: SimpleMetrics::new() }
}

impl Metrics for Simple {
    type Export = SimpleMetrics;

    fn set_total_subscriber_count(&mut self, count: u32) {
        self.inner.set_total(count);
    }

    fn set_follower_count(&mut self, boss_name: &BossName, count: u32) {
        self.inner.set_followers(boss_name, count);
    }

    fn inc_tweet_count(&mut self, boss_name: &BossName) {
        self.inner.inc_tweets(boss_name);
    }

    fn remove_boss(&mut self, boss_name: &BossName) {
        self.inner.remove(boss_name);
    }

    fn export(&self) -> Self::Export {
        self.inner.clone()
    }
}

} // verus!
