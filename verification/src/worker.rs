//! The aggregator: the single owner of the boss catalog, the pending-follower
//! table, the global subscriber group and the id pool. The embedding program
//! merges its input streams (parsed posts, control requests, hash results)
//! and drives one of these, one event at a time; every decision and state
//! change happens here.

use vstd::prelude::*;
use crate::broadcast::{Broadcast, Subscriber};
use crate::circular_buffer::CircularBuffer;
use crate::id_pool::{Id, IdPool};
use crate::image_hash::ImageHash;
use crate::metrics::Metrics;
use crate::raid::RaidInfo;
use crate::model::{with_translation, BossImageUrl, BossName, Message, RaidBoss, RaidBossMetadata, RaidBossMetadataView, RaidBossView, RaidTweet, RaidTweetView};

verus! {

/// The default number of recent invitations kept per boss.
pub const DEFAULT_HISTORY_SIZE: usize = 10;

/// The default bound on concurrent image fetches in the hash pipeline.
pub const DEFAULT_HASH_CONCURRENCY: usize = 5;

/// One catalog entry: the boss and its bookkeeping, its recent invitations,
/// and the group of its followers.
pub struct RaidBossEntry<S> {
    pub boss_data: RaidBossMetadata,
    pub recent_tweets: CircularBuffer<RaidTweet>,
    pub broadcast: Broadcast<S>,
}

/// The views of a sequence of tweets.
pub open spec fn tweet_views(s: Seq<RaidTweet>) -> Seq<RaidTweetView> {
    s.map(|_i: int, t: RaidTweet| t@)
}

/// The aggregator state. `F` adapts internal messages to the opaque items
/// subscribers receive; returning `None` skips the message.
pub struct Worker<S: Subscriber, F, M> {
    pub id_pool: IdPool,
    pub bosses: Vec<RaidBossEntry<S>>,
    pub tweet_history_size: usize,
    pub requested_bosses: Vec<(BossName, Broadcast<S>)>,
    pub subscribers: Broadcast<S>,
    pub filter_map_message: F,
    pub cached_boss_list: Option<S::Item>,
    pub heartbeat: Option<S::Item>,
    pub metrics: M,
}

impl<S, F, M> Worker<S, F, M> where
    S: Subscriber + Clone,
    F: Fn(Message) -> Option<S::Item>,
    M: Metrics,
 {
    /// The catalog's boss names, in entry order.
    pub open spec fn boss_names(&self) -> Seq<Seq<char>> {
        self.bosses@.map(|_i: int, e: RaidBossEntry<S>| e.boss_data.boss.name@)
    }

    /// The catalog's bosses, in entry order.
    pub open spec fn boss_views(&self) -> Seq<RaidBossView> {
        self.bosses@.map(|_i: int, e: RaidBossEntry<S>| e.boss_data.boss@)
    }

    /// The catalog's entries with their bookkeeping, in entry order.
    pub open spec fn meta_views(&self) -> Seq<RaidBossMetadataView> {
        self.bosses@.map(|_i: int, e: RaidBossEntry<S>| e.boss_data@)
    }

    /// The pending table's boss names, in entry order.
    pub open spec fn pending_names(&self) -> Seq<Seq<char>> {
        self.requested_bosses@.map(|_i: int, p: (BossName, Broadcast<S>)| p.0@)
    }

    /// The catalog has an entry for `name`.
    pub open spec fn has_boss(&self, name: Seq<char>) -> bool {
        exists|i: int| 0 <= i < self.boss_names().len() && self.boss_names()[i] == name
    }

    /// The pending table has a group for `name`.
    pub open spec fn has_pending(&self, name: Seq<char>) -> bool {
        exists|i: int| 0 <= i < self.pending_names().len() && self.pending_names()[i] == name
    }

    /// One catalog entry is well formed: distinct followers, a history
    /// buffer of the configured capacity, and duplicate-free translations.
    pub open spec fn entry_wf(&self, i: int) -> bool {
        &&& self.bosses@[i].broadcast.wf()
        &&& self.bosses@[i].recent_tweets@.wf()
        &&& self.bosses@[i].recent_tweets@.cap == self.tweet_history_size
        &&& self.bosses@[i].boss_data.boss@.wf()
    }

    /// The aggregator's invariant: a sound id pool whose outstanding ids
    /// cover the global group, a positive history size, well-formed groups
    /// and entries, distinct catalog names, distinct pending names that name
    /// no cataloged boss, and an adapter that accepts every message.
    pub open spec fn wf(&self) -> bool {
        &&& self.id_pool@.wf()
        &&& self.tweet_history_size > 0
        &&& self.subscribers.wf()
        &&& forall|k: int|
            0 <= k < self.subscribers@.len() ==> self.id_pool@.is_outstanding(
                #[trigger] self.subscribers@[k].0.0 as nat,
            )
        &&& forall|i: int| 0 <= i < self.bosses@.len() ==> self.entry_wf(i)
        &&& forall|i: int, j: int|
            0 <= i < j < self.boss_names().len() ==> self.boss_names()[i] != self.boss_names()[j]
        &&& forall|i: int, j: int|
            0 <= i < j < self.pending_names().len() ==> self.pending_names()[i]
                != self.pending_names()[j]
        &&& forall|i: int|
            0 <= i < self.requested_bosses@.len() ==> (#[trigger] self.requested_bosses@[i]).1.wf()
        &&& forall|i: int| 0 <= i < self.pending_names().len() ==> !self.has_boss(
            #[trigger] self.pending_names()[i],
        )
        &&& forall|m: Message| call_requires(self.filter_map_message, (m,))
    }

    /// Well-formedness is kept by any step that leaves the catalog, the
    /// pending table and the adapter alone and keeps the global group sound
    /// against the pool.
    proof fn lemma_wf_preserved(a: &Self, b: &Self)
        requires
            a.wf(),
            b.bosses == a.bosses,
            b.tweet_history_size == a.tweet_history_size,
            b.requested_bosses == a.requested_bosses,
            b.filter_map_message == a.filter_map_message,
            b.id_pool@.wf(),
            b.subscribers.wf(),
            forall|k: int|
                0 <= k < b.subscribers@.len() ==> b.id_pool@.is_outstanding(
                    #[trigger] b.subscribers@[k].0.0 as nat,
                ),
        ensures
            b.wf(),
    {
        assert(b.boss_names() == a.boss_names());
        assert(b.pending_names() == a.pending_names());
        assert forall|i: int| 0 <= i < b.bosses@.len() implies b.entry_wf(i) by {
            assert(a.entry_wf(i));
        }
        assert forall|i: int| 0 <= i < b.pending_names().len() implies !b.has_boss(
            #[trigger] b.pending_names()[i],
        ) by {
            assert(!a.has_boss(a.pending_names()[i]));
            if b.has_boss(b.pending_names()[i]) {
                let k = choose|k: int|
                    0 <= k < b.boss_names().len() && b.boss_names()[k] == b.pending_names()[i];
                assert(a.boss_names()[k] == a.pending_names()[i]);
            }
        }
    }

    /// Unchanged ids in the global group stay outstanding when the pool did
    /// not change.
    proof fn lemma_same_ids_outstanding(a: &Self, b: &Self)
        requires
            a.wf(),
            b.id_pool == a.id_pool,
            b.subscribers@.len() == a.subscribers@.len(),
            forall|i: int|
                0 <= i < a.subscribers@.len() ==> b.subscribers@[i].0 == #[trigger] a.subscribers@[i].0,
        ensures
            forall|k: int|
                0 <= k < b.subscribers@.len() ==> b.id_pool@.is_outstanding(
                    #[trigger] b.subscribers@[k].0.0 as nat,
                ),
    {
        assert forall|k: int| 0 <= k < b.subscribers@.len() implies b.id_pool@.is_outstanding(
            #[trigger] b.subscribers@[k].0.0 as nat,
        ) by {
            assert(a.id_pool@.is_outstanding(a.subscribers@[k].0.0 as nat));
            assert(b.subscribers@[k].0 == a.subscribers@[k].0);
        }
    }

    /// Well-formedness is kept when one catalog entry's follower group or
    /// history changes under the same boss data.
    proof fn lemma_wf_entry_updated(a: &Self, b: &Self, i: int)
        requires
            a.wf(),
            0 <= i < a.bosses@.len(),
            b.bosses@.len() == a.bosses@.len(),
            forall|k: int|
                0 <= k < a.bosses@.len() && k != i ==> b.bosses@[k] == #[trigger] a.bosses@[k],
            b.bosses@[i].boss_data == a.bosses@[i].boss_data,
            b.bosses@[i].broadcast.wf(),
            b.bosses@[i].recent_tweets@.wf(),
            b.bosses@[i].recent_tweets@.cap == b.tweet_history_size,
            b.tweet_history_size == a.tweet_history_size,
            b.requested_bosses == a.requested_bosses,
            b.filter_map_message == a.filter_map_message,
            b.id_pool == a.id_pool,
            b.subscribers == a.subscribers,
        ensures
            b.wf(),
            b.boss_names() == a.boss_names(),
            b.pending_names() == a.pending_names(),
    {
        assert(b.boss_names() =~= a.boss_names());
        assert(b.pending_names() == a.pending_names());
        assert forall|k: int| 0 <= k < b.bosses@.len() implies b.entry_wf(k) by {
            assert(a.entry_wf(k));
        }
        assert forall|k: int| 0 <= k < b.pending_names().len() implies !b.has_boss(
            #[trigger] b.pending_names()[k],
        ) by {
            assert(!a.has_boss(a.pending_names()[k]));
            if b.has_boss(b.pending_names()[k]) {
                let j = choose|j: int|
                    0 <= j < b.boss_names().len() && b.boss_names()[j] == b.pending_names()[k];
                assert(a.boss_names()[j] == a.pending_names()[k]);
            }
        }
        Self::lemma_same_ids_outstanding(a, b);
    }

    /// Well-formedness is kept when one pending group changes under the
    /// same name.
    proof fn lemma_wf_pending_updated(a: &Self, b: &Self, i: int)
        requires
            a.wf(),
            0 <= i < a.requested_bosses@.len(),
            b.requested_bosses@.len() == a.requested_bosses@.len(),
            forall|k: int|
                0 <= k < a.requested_bosses@.len() && k != i ==> b.requested_bosses@[k]
                    == #[trigger] a.requested_bosses@[k],
            b.requested_bosses@[i].0 == a.requested_bosses@[i].0,
            b.requested_bosses@[i].1.wf(),
            b.bosses == a.bosses,
            b.tweet_history_size == a.tweet_history_size,
            b.filter_map_message == a.filter_map_message,
            b.id_pool == a.id_pool,
            b.subscribers == a.subscribers,
        ensures
            b.wf(),
            b.boss_names() == a.boss_names(),
            b.pending_names() == a.pending_names(),
    {
        assert(b.boss_names() == a.boss_names());
        assert(b.pending_names() =~= a.pending_names());
        assert forall|k: int| 0 <= k < b.bosses@.len() implies b.entry_wf(k) by {
            assert(a.entry_wf(k));
        }
        assert forall|k: int| 0 <= k < b.requested_bosses@.len() implies (
        #[trigger] b.requested_bosses@[k]).1.wf() by {
            if k != i {
                assert(a.requested_bosses@[k].1.wf());
            }
        }
        assert forall|k: int| 0 <= k < b.pending_names().len() implies !b.has_boss(
            #[trigger] b.pending_names()[k],
        ) by {
            assert(!a.has_boss(a.pending_names()[k]));
            if b.has_boss(b.pending_names()[k]) {
                let j = choose|j: int|
                    0 <= j < b.boss_names().len() && b.boss_names()[j] == b.pending_names()[k];
                assert(a.boss_names()[j] == a.pending_names()[k]);
            }
        }
        Self::lemma_same_ids_outstanding(a, b);
    }

    /// Well-formedness is kept when a group for a brand-new name joins the
    /// pending table.
    proof fn lemma_wf_pending_pushed(a: &Self, b: &Self, name: Seq<char>)
        requires
            a.wf(),
            !a.has_pending(name),
            !a.has_boss(name),
            b.requested_bosses@.len() == a.requested_bosses@.len() + 1,
            forall|k: int|
                0 <= k < a.requested_bosses@.len() ==> b.requested_bosses@[k]
                    == #[trigger] a.requested_bosses@[k],
            b.requested_bosses@[a.requested_bosses@.len() as int].0@ == name,
            b.requested_bosses@[a.requested_bosses@.len() as int].1.wf(),
            b.bosses == a.bosses,
            b.tweet_history_size == a.tweet_history_size,
            b.filter_map_message == a.filter_map_message,
            b.id_pool == a.id_pool,
            b.subscribers == a.subscribers,
        ensures
            b.wf(),
            b.boss_names() == a.boss_names(),
            b.pending_names() == a.pending_names().push(name),
    {
        let n = a.requested_bosses@.len() as int;
        assert(b.boss_names() == a.boss_names());
        assert(b.pending_names() =~= a.pending_names().push(name));
        assert forall|k: int| 0 <= k < b.bosses@.len() implies b.entry_wf(k) by {
            assert(a.entry_wf(k));
        }
        assert forall|i: int, j: int|
            0 <= i < j < b.pending_names().len() implies b.pending_names()[i]
            != b.pending_names()[j] by {
            if j == n {
                if b.pending_names()[i] == name {
                    assert(a.pending_names()[i] == name);
                    assert(a.has_pending(name));
                }
            }
        }
        assert forall|k: int| 0 <= k < b.requested_bosses@.len() implies (
        #[trigger] b.requested_bosses@[k]).1.wf() by {
            if k < n {
                assert(b.requested_bosses@[k] == a.requested_bosses@[k]);
                assert(a.requested_bosses@[k].1.wf());
            }
        }
        assert forall|k: int| 0 <= k < b.pending_names().len() implies !b.has_boss(
            #[trigger] b.pending_names()[k],
        ) by {
            if k < n {
                assert(!a.has_boss(a.pending_names()[k]));
            } else {
                assert(!a.has_boss(name));
            }
            if b.has_boss(b.pending_names()[k]) {
                let j = choose|j: int|
                    0 <= j < b.boss_names().len() && b.boss_names()[j] == b.pending_names()[k];
                assert(a.boss_names()[j] == b.pending_names()[k]);
                assert(a.has_boss(b.pending_names()[k]));
            }
        }
        Self::lemma_same_ids_outstanding(a, b);
    }

    /// Well-formedness is kept when a pending group leaves the table.
    proof fn lemma_wf_pending_removed(a: &Self, b: &Self, i: int)
        requires
            a.wf(),
            0 <= i < a.requested_bosses@.len(),
            b.requested_bosses@ == a.requested_bosses@.remove(i),
            b.bosses == a.bosses,
            b.tweet_history_size == a.tweet_history_size,
            b.filter_map_message == a.filter_map_message,
            b.id_pool == a.id_pool,
            b.subscribers == a.subscribers,
        ensures
            b.wf(),
            b.boss_names() == a.boss_names(),
            b.pending_names() == a.pending_names().remove(i),
            !b.has_pending(a.pending_names()[i]),
            forall|x: Seq<char>|
                x != a.pending_names()[i] ==> b.has_pending(x) == a.has_pending(x),
    {
        assert(b.boss_names() == a.boss_names());
        assert(b.pending_names() =~= a.pending_names().remove(i));
        let p0 = a.pending_names();
        let p1 = b.pending_names();
        let name = p0[i];
        assert forall|k: int| 0 <= k < b.bosses@.len() implies b.entry_wf(k) by {
            assert(a.entry_wf(k));
        }
        assert forall|k: int| 0 <= k < p1.len() implies p1[k] != name by {
            if k < i {
                assert(p1[k] == p0[k]);
            } else {
                assert(p1[k] == p0[k + 1]);
            }
        }
        assert forall|x: Seq<char>| x != name implies b.has_pending(x) == a.has_pending(x) by {
            if a.has_pending(x) {
                let k = choose|k: int| 0 <= k < p0.len() && p0[k] == x;
                if k < i {
                    assert(p1[k] == x);
                } else {
                    assert(k > i);
                    assert(p1[k - 1] == x);
                }
            }
            if b.has_pending(x) {
                let k = choose|k: int| 0 <= k < p1.len() && p1[k] == x;
                if k < i {
                    assert(p0[k] == x);
                } else {
                    assert(p0[k + 1] == x);
                }
            }
        }
        assert forall|x: int, y: int| 0 <= x < y < p1.len() implies p1[x] != p1[y] by {
            let x0 = if x < i { x } else { x + 1 };
            let y0 = if y < i { y } else { y + 1 };
            assert(p1[x] == p0[x0] && p1[y] == p0[y0]);
        }
        assert forall|k: int| 0 <= k < b.requested_bosses@.len() implies (
        #[trigger] b.requested_bosses@[k]).1.wf() by {
            if k < i {
                assert(b.requested_bosses@[k] == a.requested_bosses@[k]);
                assert(a.requested_bosses@[k].1.wf());
            } else {
                assert(b.requested_bosses@[k] == a.requested_bosses@[k + 1]);
                assert(a.requested_bosses@[k + 1].1.wf());
            }
        }
        assert forall|k: int| 0 <= k < p1.len() implies !b.has_boss(#[trigger] p1[k]) by {
            let k0 = if k < i { k } else { k + 1 };
            assert(p1[k] == p0[k0]);
            assert(!a.has_boss(p0[k0]));
            if b.has_boss(p1[k]) {
                let j = choose|j: int|
                    0 <= j < b.boss_names().len() && b.boss_names()[j] == p1[k];
                assert(a.boss_names()[j] == p1[k]);
            }
        }
        Self::lemma_same_ids_outstanding(a, b);
    }

    /// Well-formedness is kept when only boss bookkeeping changed: same
    /// names, well-formed translations, untouched groups and histories.
    proof fn lemma_wf_meta_updated(a: &Self, b: &Self)
        requires
            a.wf(),
            b.bosses@.len() == a.bosses@.len(),
            forall|k: int|
                0 <= k < a.bosses@.len() ==> {
                    &&& (#[trigger] b.bosses@[k]).recent_tweets == a.bosses@[k].recent_tweets
                    &&& b.bosses@[k].broadcast == a.bosses@[k].broadcast
                    &&& b.bosses@[k].boss_data.boss.name@ == a.bosses@[k].boss_data.boss.name@
                    &&& b.bosses@[k].boss_data.boss@.wf()
                },
            b.tweet_history_size == a.tweet_history_size,
            b.requested_bosses == a.requested_bosses,
            b.filter_map_message == a.filter_map_message,
            b.id_pool == a.id_pool,
            b.subscribers.wf(),
            forall|x: u32| #[trigger] b.subscribers.has(x) ==> a.subscribers.has(x),
        ensures
            b.wf(),
            b.boss_names() == a.boss_names(),
            b.pending_names() == a.pending_names(),
    {
        assert(b.boss_names() =~= a.boss_names());
        assert(b.pending_names() == a.pending_names());
        assert forall|k: int| 0 <= k < b.bosses@.len() implies b.entry_wf(k) by {
            assert(a.entry_wf(k));
        }
        assert forall|k: int| 0 <= k < b.pending_names().len() implies !b.has_boss(
            #[trigger] b.pending_names()[k],
        ) by {
            assert(!a.has_boss(a.pending_names()[k]));
            if b.has_boss(b.pending_names()[k]) {
                let j = choose|j: int|
                    0 <= j < b.boss_names().len() && b.boss_names()[j] == b.pending_names()[k];
                assert(a.boss_names()[j] == a.pending_names()[k]);
            }
        }
        assert forall|k: int| 0 <= k < b.subscribers@.len() implies b.id_pool@.is_outstanding(
            #[trigger] b.subscribers@[k].0.0 as nat,
        ) by {
            assert(b.subscribers.has(b.subscribers@[k].0.0));
            assert(a.subscribers.has(b.subscribers@[k].0.0));
            let j = choose|j: int|
                0 <= j < a.subscribers@.len() && a.subscribers@[j].0.0 == b.subscribers@[k].0.0;
            assert(a.id_pool@.is_outstanding(a.subscribers@[j].0.0 as nat));
        }
    }

    /// Well-formedness is kept by an in-place change of catalog entries that
    /// leaves the names, the pending table, the pool and the global group
    /// alone, provided every entry stays well formed.
    proof fn lemma_wf_preserved_catalog(a: &Self, b: &Self)
        requires
            a.wf(),
            b.boss_names() == a.boss_names(),
            b.bosses@.len() == a.bosses@.len(),
            forall|k: int| 0 <= k < b.bosses@.len() ==> b.entry_wf(k),
            b.tweet_history_size == a.tweet_history_size,
            b.requested_bosses == a.requested_bosses,
            b.filter_map_message == a.filter_map_message,
            b.id_pool == a.id_pool,
            b.subscribers == a.subscribers,
        ensures
            b.wf(),
    {
        assert(b.pending_names() == a.pending_names());
        assert forall|k: int| 0 <= k < b.pending_names().len() implies !b.has_boss(
            #[trigger] b.pending_names()[k],
        ) by {
            assert(!a.has_boss(a.pending_names()[k]));
            if b.has_boss(b.pending_names()[k]) {
                let j = choose|j: int|
                    0 <= j < b.boss_names().len() && b.boss_names()[j] == b.pending_names()[k];
                assert(a.boss_names()[j] == a.pending_names()[k]);
            }
        }
        Self::lemma_same_ids_outstanding(a, b);
    }

    /// Well-formedness is kept when a fresh boss joins the catalog: its name
    /// was not cataloged, its pending group (if any) left the table, and the
    /// global group shrank at most.
    proof fn lemma_wf_boss_pushed(a: &Self, b: &Self)
        requires
            a.wf(),
            b.bosses@.len() == a.bosses@.len() + 1,
            forall|k: int|
                0 <= k < a.bosses@.len() ==> b.bosses@[k] == #[trigger] a.bosses@[k],
            b.bosses@[a.bosses@.len() as int].broadcast.wf(),
            b.bosses@[a.bosses@.len() as int].recent_tweets@.wf(),
            b.bosses@[a.bosses@.len() as int].recent_tweets@.cap == b.tweet_history_size,
            b.bosses@[a.bosses@.len() as int].boss_data.boss@.wf(),
            !a.has_boss(b.bosses@[a.bosses@.len() as int].boss_data.boss.name@),
            ({
                let newname = b.bosses@[a.bosses@.len() as int].boss_data.boss.name@;
                ||| (exists|p: int|
                    0 <= p < a.requested_bosses@.len() && b.requested_bosses@
                        == a.requested_bosses@.remove(p) && a.pending_names()[p] == newname)
                ||| (b.requested_bosses@ == a.requested_bosses@ && !a.has_pending(newname))
            }),
            b.tweet_history_size == a.tweet_history_size,
            b.filter_map_message == a.filter_map_message,
            b.id_pool == a.id_pool,
            b.subscribers.wf(),
            forall|x: u32| #[trigger] b.subscribers.has(x) ==> a.subscribers.has(x),
        ensures
            b.wf(),
    {
        let n = a.bosses@.len() as int;
        let newname = b.bosses@[n].boss_data.boss.name@;
        assert(b.boss_names() =~= a.boss_names().push(newname));
        assert forall|k: int| 0 <= k < b.bosses@.len() implies b.entry_wf(k) by {
            if k < n {
                assert(a.entry_wf(k));
            }
        }
        assert forall|i: int, j: int|
            0 <= i < j < b.boss_names().len() implies b.boss_names()[i] != b.boss_names()[j] by {
            if j == n {
                if b.boss_names()[i] == newname {
                    assert(a.boss_names()[i] == newname);
                    assert(a.has_boss(newname));
                }
            }
        }
        if b.requested_bosses@ == a.requested_bosses@ {
            assert(b.pending_names() == a.pending_names());
            assert forall|k: int| 0 <= k < b.pending_names().len() implies !b.has_boss(
                #[trigger] b.pending_names()[k],
            ) by {
                assert(!a.has_boss(a.pending_names()[k]));
                assert(b.pending_names()[k] != newname) by {
                    if b.pending_names()[k] == newname {
                        assert(a.has_pending(newname));
                    }
                }
                if b.has_boss(b.pending_names()[k]) {
                    let j = choose|j: int|
                        0 <= j < b.boss_names().len() && b.boss_names()[j] == b.pending_names()[k];
                    if j < n {
                        assert(a.boss_names()[j] == a.pending_names()[k]);
                    }
                }
            }
        } else {
            let p = choose|p: int|
                0 <= p < a.requested_bosses@.len() && b.requested_bosses@
                    == a.requested_bosses@.remove(p) && a.pending_names()[p] == newname;
            let p0 = a.pending_names();
            let p1 = b.pending_names();
            assert(p1 =~= p0.remove(p));
            assert forall|k: int| 0 <= k < p1.len() implies p1[k] != newname by {
                let k0 = if k < p { k } else { k + 1 };
                assert(p1[k] == p0[k0]);
                if p0[k0] == newname {
                    if k0 < p {
                        assert(p0[k0] != p0[p]);
                    } else {
                        assert(p0[p] != p0[k0]);
                    }
                }
            }
            assert forall|x: int, y: int| 0 <= x < y < p1.len() implies p1[x] != p1[y] by {
                let x0 = if x < p { x } else { x + 1 };
                let y0 = if y < p { y } else { y + 1 };
                assert(p1[x] == p0[x0] && p1[y] == p0[y0]);
            }
            assert forall|k: int| 0 <= k < b.requested_bosses@.len() implies (
            #[trigger] b.requested_bosses@[k]).1.wf() by {
                let k0 = if k < p { k } else { k + 1 };
                assert(b.requested_bosses@[k] == a.requested_bosses@[k0]);
                assert(a.requested_bosses@[k0].1.wf());
            }
            assert forall|k: int| 0 <= k < p1.len() implies !b.has_boss(#[trigger] p1[k]) by {
                let k0 = if k < p { k } else { k + 1 };
                assert(p1[k] == p0[k0]);
                assert(!a.has_boss(p0[k0]));
                if b.has_boss(p1[k]) {
                    let j = choose|j: int|
                        0 <= j < b.boss_names().len() && b.boss_names()[j] == p1[k];
                    if j < n {
                        assert(a.boss_names()[j] == p1[k]);
                    } else {
                        assert(p1[k] == newname);
                    }
                }
            }
        }
        assert forall|k: int| 0 <= k < b.subscribers@.len() implies b.id_pool@.is_outstanding(
            #[trigger] b.subscribers@[k].0.0 as nat,
        ) by {
            assert(b.subscribers.has(b.subscribers@[k].0.0));
            assert(a.subscribers.has(b.subscribers@[k].0.0));
            let j = choose|j: int|
                0 <= j < a.subscribers@.len() && a.subscribers@[j].0.0 == b.subscribers@[k].0.0;
            assert(a.id_pool@.is_outstanding(a.subscribers@[j].0.0 as nat));
        }
    }

    /// Builds an aggregator from restored catalog entries. The entries start
    /// with no followers and an empty history.
    pub fn new(
        tweet_history_size: usize,
        filter_map_message: F,
        metrics: M,
        bosses: Vec<RaidBossMetadata>,
    ) -> (r: Self)
        requires
            tweet_history_size > 0,
            forall|m: Message| call_requires(filter_map_message, (m,)),
            forall|i: int, j: int|
                0 <= i < j < bosses@.len() ==> bosses@[i].boss.name@ != bosses@[j].boss.name@,
            forall|i: int| 0 <= i < bosses@.len() ==> (#[trigger] bosses@[i]).boss@.wf(),
        ensures
            r.wf(),
            r.boss_views() == bosses@.map(|_i: int, m: RaidBossMetadata| m.boss@),
            r.meta_views() == bosses@.map(|_i: int, m: RaidBossMetadata| m@),
            forall|i: int|
                0 <= i < r.bosses@.len() ==> (#[trigger] r.bosses@[i]).broadcast@.len() == 0
                    && r.bosses@[i].recent_tweets@.data.len() == 0,
            r.subscribers@.len() == 0,
            r.requested_bosses@.len() == 0,
            r.id_pool@.next == 0,
            r.id_pool@.free.len() == 0,
            call_ensures(filter_map_message, (Message::Heartbeat,), r.heartbeat),
            exists|bs: Vec<RaidBoss>|
                bs.deep_view() == r.boss_views() && call_ensures(
                    filter_map_message,
                    (Message::BossList(bs),),
                    r.cached_boss_list,
                ),
            r.filter_map_message == filter_map_message,
    {
        let ghost seed = bosses@;
        let mut entries: Vec<RaidBossEntry<S>> = Vec::new();
        let mut remaining = bosses;
        let ghost n = seed.len();
        while remaining.len() > 0
            invariant
                tweet_history_size > 0,
                seed.len() == entries@.len() + remaining@.len(),
                forall|i: int|
                    0 <= i < entries@.len() ==> (#[trigger] entries@[i]).boss_data == seed[i],
                forall|i: int|
                    0 <= i < remaining@.len() ==> #[trigger] remaining@[i] == seed[
                        entries@.len() + i
                    ],
                forall|i: int|
                    0 <= i < entries@.len() ==> (#[trigger] entries@[i]).broadcast.wf()
                        && entries@[i].broadcast@.len() == 0 && entries@[i].recent_tweets@.wf()
                        && entries@[i].recent_tweets@.cap == tweet_history_size
                        && entries@[i].recent_tweets@.data.len() == 0,
            decreases remaining@.len(),
        {
            let boss_data = remaining.remove(0);
            let entry = RaidBossEntry {
                boss_data,
                recent_tweets: CircularBuffer::with_capacity(tweet_history_size),
                broadcast: Broadcast::new(),
            };
            entries.push(entry);
        }
        let mut worker = Worker {
            id_pool: IdPool::new(),
            bosses: entries,
            tweet_history_size,
            requested_bosses: Vec::new(),
            subscribers: Broadcast::new(),
            heartbeat: (filter_map_message)(Message::Heartbeat),
            filter_map_message,
            cached_boss_list: None,
            metrics,
        };
        proof {
            assert(worker.boss_views() =~= seed.map(|_i: int, m: RaidBossMetadata| m.boss@));
            assert(worker.meta_views() =~= seed.map(|_i: int, m: RaidBossMetadata| m@));
            assert(worker.boss_names() =~= seed.map(|_i: int, m: RaidBossMetadata| m.boss.name@));
        }
        worker.update_cached_boss_list();
        worker
    }

    /// Rebuilds the cached adapted boss list from the current catalog.
    fn update_cached_boss_list(&mut self)
        requires
            old(self).wf(),
        ensures
            final(self).wf(),
            *final(self) == (Worker {
                cached_boss_list: final(self).cached_boss_list,
                ..*old(self)
            }),
            exists|bs: Vec<RaidBoss>|
                bs.deep_view() == old(self).boss_views() && call_ensures(
                    old(self).filter_map_message,
                    (Message::BossList(bs),),
                    final(self).cached_boss_list,
                ),
    {
        let updated = self.snapshot_bosses();
        let ghost witness = updated;
        self.cached_boss_list = (self.filter_map_message)(Message::BossList(updated));
        proof {
            assert(witness.deep_view() == old(self).boss_views());
            Self::lemma_wf_preserved(old(self), self);
        }
    }

    /// Clones the catalog's bosses, in entry order.
    fn snapshot_bosses(&self) -> (r: Vec<RaidBoss>)
        ensures
            r.deep_view() == self.boss_views(),
    {
        let n = self.bosses.len();
        let mut out: Vec<RaidBoss> = Vec::new();
        let mut i: usize = 0;
        while i < n
            invariant
                n == self.bosses@.len(),
                0 <= i <= n,
                out@.len() == i,
                forall|k: int| 0 <= k < i ==> #[trigger] out@[k]@ == self.bosses@[k].boss_data.boss@,
            decreases n - i,
        {
            out.push(self.bosses[i].boss_data.boss.clone());
            i += 1;
        }
        proof {
            assert(out.deep_view() =~= self.boss_views());
        }
        out
    }

    /// Handles a subscribe request: allocates an id, registers the
    /// subscriber in the global group, and returns the id.
    pub fn subscribe(&mut self, subscriber: S) -> (r: Id)
        requires
            old(self).wf(),
            old(self).id_pool@.next < u32::MAX || old(self).id_pool@.free.len() > 0,
        ensures
            final(self).wf(),
            !old(self).subscribers.has(r.0),
            final(self).subscribers@ == old(self).subscribers@.push((r, subscriber)),
            *final(self) == (Worker {
                id_pool: final(self).id_pool,
                subscribers: final(self).subscribers,
                metrics: final(self).metrics,
                ..*old(self)
            }),
    {
        let id = self.id_pool.get();
        proof {
            if self.subscribers.has(id.0) {
                let k = choose|k: int|
                    0 <= k < self.subscribers@.len() && self.subscribers@[k].0.0 == id.0;
            }
        }
        let prev = self.subscribers.subscribe(id, subscriber);
        let count = self.subscribers.subscriber_count();
        self.metrics.set_total_subscriber_count(#[verifier::truncate] (count as u32));
        proof {
            assert forall|k: int| 0 <= k < self.subscribers@.len() implies self.id_pool@.is_outstanding(
                #[trigger] self.subscribers@[k].0.0 as nat,
            ) by {
                if k < old(self).subscribers@.len() {
                    assert(old(self).id_pool@.is_outstanding(
                        old(self).subscribers@[k].0.0 as nat,
                    ));
                    assert(old(self).subscribers@[k].0.0 != id.0);
                } else {
                    assert(self.subscribers@[k].0 == id);
                }
            }
            Self::lemma_wf_preserved(old(self), self);
        }
        id
    }

    /// Handles an unsubscribe request: removes the id from the global group
    /// and recycles it. Per-boss follower groups are left alone; issuing an
    /// unfollow per followed boss beforehand is the subscription handle's
    /// job.
    pub fn unsubscribe(&mut self, id: &Id)
        requires
            old(self).wf(),
        ensures
            final(self).wf(),
            !final(self).subscribers.has(id.0),
            forall|x: u32| x != id.0 ==> final(self).subscribers.has(x) == old(self).subscribers.has(x),
            old(self).subscribers.has(id.0) ==> final(self).subscribers@.len() == old(self).subscribers@.len() - 1,
            !old(self).subscribers.has(id.0) ==> final(self).subscribers@ == old(self).subscribers@,
            *final(self) == (Worker {
                id_pool: final(self).id_pool,
                subscribers: final(self).subscribers,
                metrics: final(self).metrics,
                ..*old(self)
            }),
    {
        let ghost had = self.subscribers.has(id.0);
        let removed = self.subscribers.unsubscribe(id);
        let count = self.subscribers.subscriber_count();
        self.metrics.set_total_subscriber_count(#[verifier::truncate] (count as u32));
        match removed {
            Some(_) => {
                proof {
                    let k = choose|k: int|
                        0 <= k < old(self).subscribers@.len() && old(self).subscribers@[k].0.0
                            == id.0;
                }
                self.id_pool.recycle(Id(id.0));
                proof {
                    assert forall|k: int| 0 <= k < self.subscribers@.len() implies self.id_pool@.is_outstanding(
                        #[trigger] self.subscribers@[k].0.0 as nat,
                    ) by {
                        assert(self.subscribers.has(self.subscribers@[k].0.0));
                        assert(self.subscribers@[k].0.0 != id.0);
                        assert(old(self).subscribers.has(self.subscribers@[k].0.0));
                        let j = choose|j: int|
                            0 <= j < old(self).subscribers@.len() && old(self).subscribers@[j].0.0
                                == self.subscribers@[k].0.0;
                        assert(old(self).id_pool@.is_outstanding(
                            old(self).subscribers@[j].0.0 as nat,
                        ));
                    }
                    Self::lemma_wf_preserved(old(self), self);
                }
            }
            None => {
                proof {
                    assert forall|k: int| 0 <= k < self.subscribers@.len() implies self.id_pool@.is_outstanding(
                        #[trigger] self.subscribers@[k].0.0 as nat,
                    ) by {
                        assert(self.subscribers.has(self.subscribers@[k].0.0));
                        assert(old(self).subscribers.has(self.subscribers@[k].0.0));
                        let j = choose|j: int|
                            0 <= j < old(self).subscribers@.len() && old(self).subscribers@[j].0.0
                                == self.subscribers@[k].0.0;
                        assert(old(self).id_pool@.is_outstanding(
                            old(self).subscribers@[j].0.0 as nat,
                        ));
                    }
                    Self::lemma_wf_preserved(old(self), self);
                }
            }
        }
    }

    /// Handles a follow request: registers the subscriber (looked up in the
    /// global group) in the boss's follower group, or in the pending table
    /// when no such boss is cataloged. Unknown subscriber ids are ignored.
    pub fn follow(&mut self, id: Id, boss_name: BossName)
        requires
            old(self).wf(),
        ensures
            final(self).wf(),
            final(self).boss_names() == old(self).boss_names(),
            final(self).subscribers@ == old(self).subscribers@,
            final(self).id_pool == old(self).id_pool,
            final(self).filter_map_message == old(self).filter_map_message,
            final(self).cached_boss_list == old(self).cached_boss_list,
            final(self).heartbeat == old(self).heartbeat,
            final(self).tweet_history_size == old(self).tweet_history_size,
            !old(self).subscribers.has(id.0) ==> final(self).bosses@ == old(self).bosses@
                && final(self).requested_bosses@ == old(self).requested_bosses@,
            old(self).subscribers.has(id.0) ==> match find_name(
                old(self).boss_names(),
                boss_name@,
            ) {
                Some(i) => {
                    &&& final(self).pending_names() == old(self).pending_names()
                    &&& final(self).bosses@.len() == old(self).bosses@.len()
                    &&& (forall|k: int|
                        0 <= k < old(self).bosses@.len() && k != i ==> final(self).bosses@[k]
                            == #[trigger] old(self).bosses@[k])
                    &&& final(self).bosses@[i].boss_data == old(self).bosses@[i].boss_data
                    &&& final(self).bosses@[i].recent_tweets == old(self).bosses@[i].recent_tweets
                    &&& final(self).bosses@[i].broadcast.has(id.0)
                    &&& (forall|x: u32|
                        x != id.0 ==> final(self).bosses@[i].broadcast.has(x) == old(self).bosses@[i].broadcast.has(x))
                },
                None => {
                    &&& final(self).bosses@ == old(self).bosses@
                    &&& match find_name(old(self).pending_names(), boss_name@) {
                        Some(i) => {
                            &&& final(self).pending_names() == old(self).pending_names()
                            &&& (forall|k: int|
                                0 <= k < old(self).requested_bosses@.len() && k != i ==> final(self).requested_bosses@[k] == #[trigger] old(self).requested_bosses@[k])
                            &&& final(self).requested_bosses@[i].1.has(id.0)
                            &&& (forall|x: u32|
                                x != id.0 ==> final(self).requested_bosses@[i].1.has(x) == old(self).requested_bosses@[i].1.has(x))
                        },
                        None => {
                            &&& final(self).pending_names() == old(self).pending_names().push(
                                boss_name@,
                            )
                            &&& (forall|k: int|
                                0 <= k < old(self).requested_bosses@.len() ==> final(self).requested_bosses@[k] == #[trigger] old(self).requested_bosses@[k])
                            &&& final(self).requested_bosses@[old(self).requested_bosses@.len() as int].1.has(
                                id.0,
                            )
                            &&& final(self).requested_bosses@[old(self).requested_bosses@.len() as int].1@.len()
                                == 1
                        },
                    }
                },
            },
    {
        let subscriber = match self.subscribers.get(&id) {
            Some(s) => s.clone(),
            None => {
                return ;
            },
        };
        proof {
            assert(old(self).subscribers.has(id.0));
        }
        let found = self.find_boss_index(&boss_name);
        proof {
            lemma_find_name_agrees(self.boss_names(), boss_name@, found);
        }
        match found {
            Some(i) => {
                let ghost pre = self.bosses@;
                proof {
                    assert(old(self).entry_wf(i as int));
                }
                let mut entry = self.bosses.remove(i);
                entry.broadcast.subscribe(id, subscriber);
                let count = entry.broadcast.subscriber_count();
                self.bosses.insert(i, entry);
                self.metrics.set_follower_count(&boss_name, #[verifier::truncate] (count as u32));
                proof {
                    assert forall|k: int|
                        0 <= k < pre.len() && k != i implies self.bosses@[k] == pre[k] by {
                        if k < i {
                            assert(self.bosses@[k] == pre.remove(i as int)[k]);
                        } else {
                            assert(self.bosses@[k] == pre.remove(i as int)[k - 1]);
                            assert(pre.remove(i as int)[k - 1] == pre[k]);
                        }
                    }
                    Self::lemma_wf_entry_updated(old(self), self, i as int);
                }
            }
            None => {
                let pending_found = self.find_pending_index(&boss_name);
                proof {
                    lemma_find_name_agrees(self.pending_names(), boss_name@, pending_found);
                }
                match pending_found {
                    Some(i) => {
                        let ghost pre = self.requested_bosses@;
                        proof {
                            assert(old(self).requested_bosses@[i as int].1.wf());
                        }
                        let mut pair = self.requested_bosses.remove(i);
                        pair.1.subscribe(id, subscriber);
                        self.requested_bosses.insert(i, pair);
                        proof {
                            assert forall|k: int|
                                0 <= k < pre.len() && k != i implies self.requested_bosses@[k]
                                == pre[k] by {
                                if k < i {
                                    assert(self.requested_bosses@[k] == pre.remove(i as int)[k]);
                                } else {
                                    assert(self.requested_bosses@[k] == pre.remove(i as int)[k
                                        - 1]);
                                    assert(pre.remove(i as int)[k - 1] == pre[k]);
                                }
                            }
                            Self::lemma_wf_pending_updated(old(self), self, i as int);
                        }
                    }
                    None => {
                        let mut group: Broadcast<S> = Broadcast::new();
                        group.subscribe(id, subscriber);
                        self.requested_bosses.push((boss_name, group));
                        proof {
                            Self::lemma_wf_pending_pushed(old(self), self, boss_name@);
                        }
                    }
                }
            }
        }
    }

    /// Handles an unfollow request: removes the subscriber from the boss's
    /// follower group, or from its pending group; a pending group left empty
    /// is dropped.
    pub fn unfollow(&mut self, id: &Id, boss_name: &BossName)
        requires
            old(self).wf(),
        ensures
            final(self).wf(),
            final(self).boss_names() == old(self).boss_names(),
            final(self).subscribers@ == old(self).subscribers@,
            final(self).id_pool == old(self).id_pool,
            final(self).filter_map_message == old(self).filter_map_message,
            final(self).cached_boss_list == old(self).cached_boss_list,
            final(self).heartbeat == old(self).heartbeat,
            final(self).tweet_history_size == old(self).tweet_history_size,
            match find_name(old(self).boss_names(), boss_name@) {
                Some(i) => {
                    &&& final(self).pending_names() == old(self).pending_names()
                    &&& final(self).bosses@.len() == old(self).bosses@.len()
                    &&& (forall|k: int|
                        0 <= k < old(self).bosses@.len() && k != i ==> final(self).bosses@[k]
                            == #[trigger] old(self).bosses@[k])
                    &&& final(self).bosses@[i].boss_data == old(self).bosses@[i].boss_data
                    &&& final(self).bosses@[i].recent_tweets == old(self).bosses@[i].recent_tweets
                    &&& !final(self).bosses@[i].broadcast.has(id.0)
                    &&& (forall|x: u32|
                        x != id.0 ==> final(self).bosses@[i].broadcast.has(x) == old(self).bosses@[i].broadcast.has(x))
                    &&& (old(self).bosses@[i].broadcast.has(id.0) ==> final(self).bosses@[i].broadcast@.len() == old(self).bosses@[i].broadcast@.len() - 1)
                    &&& (!old(self).bosses@[i].broadcast.has(id.0) ==> final(self).bosses@[i].broadcast@ == old(self).bosses@[i].broadcast@)
                },
                None => {
                    &&& final(self).bosses@ == old(self).bosses@
                    &&& match find_name(old(self).pending_names(), boss_name@) {
                        Some(i) => {
                            &&& !final(self).has_pending(boss_name@) ==> true
                            &&& (forall|x: Seq<char>|
                                x != boss_name@ ==> final(self).has_pending(x) == old(self).has_pending(x))
                            &&& (final(self).has_pending(boss_name@) ==> final(self).pending_names() == old(self).pending_names() && !final(self).requested_bosses@[i].1.has(id.0))
                        },
                        None => final(self).requested_bosses@ == old(self).requested_bosses@,
                    }
                },
            },
    {
        let found = self.find_boss_index(boss_name);
        proof {
            lemma_find_name_agrees(self.boss_names(), boss_name@, found);
        }
        match found {
            Some(i) => {
                let ghost pre = self.bosses@;
                proof {
                    assert(old(self).entry_wf(i as int));
                }
                let mut entry = self.bosses.remove(i);
                entry.broadcast.unsubscribe(id);
                let count = entry.broadcast.subscriber_count();
                self.bosses.insert(i, entry);
                self.metrics.set_follower_count(boss_name, #[verifier::truncate] (count as u32));
                proof {
                    assert forall|k: int|
                        0 <= k < pre.len() && k != i implies self.bosses@[k] == pre[k] by {
                        if k < i {
                            assert(self.bosses@[k] == pre.remove(i as int)[k]);
                        } else {
                            assert(self.bosses@[k] == pre.remove(i as int)[k - 1]);
                            assert(pre.remove(i as int)[k - 1] == pre[k]);
                        }
                    }
                    Self::lemma_wf_entry_updated(old(self), self, i as int);
                }
            }
            None => {
                let pending_found = self.find_pending_index(boss_name);
                proof {
                    lemma_find_name_agrees(self.pending_names(), boss_name@, pending_found);
                }
                match pending_found {
                    Some(i) => {
                        let ghost pre = self.requested_bosses@;
                        proof {
                            assert(old(self).requested_bosses@[i as int].1.wf());
                        }
                        let mut pair = self.requested_bosses.remove(i);
                        pair.1.unsubscribe(id);
                        if pair.1.is_empty() {
                            proof {
                                assert(self.requested_bosses@ =~= pre.remove(i as int));
                                Self::lemma_wf_pending_removed(old(self), self, i as int);
                            }
                        } else {
                            self.requested_bosses.insert(i, pair);
                            proof {
                                assert forall|k: int|
                                    0 <= k < pre.len() && k != i implies self.requested_bosses@[k]
                                    == pre[k] by {
                                    if k < i {
                                        assert(self.requested_bosses@[k] == pre.remove(
                                            i as int,
                                        )[k]);
                                    } else {
                                        assert(self.requested_bosses@[k] == pre.remove(i as int)[k
                                            - 1]);
                                        assert(pre.remove(i as int)[k - 1] == pre[k]);
                                    }
                                }
                                Self::lemma_wf_pending_updated(old(self), self, i as int);
                                assert(self.has_pending(boss_name@)) by {
                                    assert(self.pending_names()[i as int] == boss_name@);
                                }
                            }
                        }
                    }
                    None => {}
                }
            }
        }
    }

    /// Handles a hash result: records the hash on the named boss, links every
    /// same-level, different-language boss with the same hash as a
    /// translation in both directions, and rebuilds the cached boss list when
    /// anything was linked. Results for unknown bosses are dropped.
    pub fn handle_image_hash(&mut self, boss_name: BossName, image_hash: ImageHash)
        requires
            old(self).wf(),
        ensures
            final(self).wf(),
            hash_update_rel(
                old(self).meta_views(),
                final(self).meta_views(),
                boss_name@,
                image_hash.0,
            ),
            final(self).boss_names() == old(self).boss_names(),
            final(self).requested_bosses@ == old(self).requested_bosses@,
            final(self).bosses@.len() == old(self).bosses@.len(),
            forall|k: int|
                0 <= k < old(self).bosses@.len() ==> (#[trigger] final(self).bosses@[k]).recent_tweets
                    == old(self).bosses@[k].recent_tweets && final(self).bosses@[k].broadcast
                    == old(self).bosses@[k].broadcast,
            forall|x: u32| #[trigger] final(self).subscribers.has(x) ==> old(self).subscribers.has(
                x,
            ),
    {
        let ghost h = image_hash.0;
        let found = self.find_boss_index(&boss_name);
        proof {
            lemma_find_name_agrees(self.boss_names(), boss_name@, found);
            assert(names_of(self.meta_views()) =~= self.boss_names());
        }
        let i = match found {
            Some(i) => i,
            None => {
                return ;
            },
        };
        let ghost pre = self.meta_views();
        proof {
            assert(old(self).entry_wf(i as int));
        }
        let ghost b0 = self.bosses@;
        let mut entry = self.bosses.remove(i);
        let level = entry.boss_data.boss.level;
        let language = entry.boss_data.boss.language;
        entry.boss_data.image_hash = Some(image_hash);
        let ghost enew = entry;
        self.bosses.insert(i, entry);
        proof {
            assert forall|k: int|
                0 <= k < b0.len() && k != i implies self.bosses@[k] == b0[k] by {
                if k < i {
                    assert(self.bosses@[k] == b0.remove(i as int)[k]);
                } else {
                    assert(self.bosses@[k] == b0.remove(i as int)[k - 1]);
                    assert(b0.remove(i as int)[k - 1] == b0[k]);
                }
            }
            assert(self.bosses@[i as int] == enew);
            assert(pre[i as int] == b0[i as int].boss_data@);
            assert forall|k: int| 0 <= k < pre.len() implies pre[k] == b0[k].boss_data@ by {}
            assert forall|k: int| 0 <= k < pre.len() && k != i implies (
            #[trigger] self.bosses@[k]).boss_data.boss@.wf() by {
                assert(old(self).entry_wf(k));
                assert(self.bosses@[k] == b0[k]);
            }
        }
        let n = self.bosses.len();
        let mut matches: Vec<BossName> = Vec::new();
        proof {
            assert(matches.deep_view() =~= Seq::<Seq<char>>::empty());
        }
        let mut j: usize = 0;
        while j < n
            invariant
                old(self).wf(),
                n == self.bosses@.len(),
                n == pre.len(),
                pre == old(self).meta_views(),
                h == image_hash.0,
                0 <= i < n,
                0 <= j <= n,
                level == pre[i as int].boss.level,
                language == pre[i as int].boss.language,
                self.filter_map_message == old(self).filter_map_message,
                forall|m: Message| call_requires(self.filter_map_message, (m,)),
                self.id_pool == old(self).id_pool,
                self.tweet_history_size == old(self).tweet_history_size,
                self.requested_bosses == old(self).requested_bosses,
                self.cached_boss_list == old(self).cached_boss_list,
                self.heartbeat == old(self).heartbeat,
                self.subscribers.wf(),
                forall|x: u32| #[trigger] self.subscribers.has(x) ==> old(self).subscribers.has(x),
                self.bosses@[i as int].recent_tweets == old(self).bosses@[i as int].recent_tweets,
                self.bosses@[i as int].broadcast == old(self).bosses@[i as int].broadcast,
                self.bosses@[i as int].boss_data@.boss == pre[i as int].boss,
                self.bosses@[i as int].boss_data@.last_seen == pre[i as int].last_seen,
                self.bosses@[i as int].boss_data@.image_hash == Some(h),
                self.bosses@[i as int].boss_data.boss.name@ == boss_name@,
                forall|k: int|
                    0 <= k < n && k != i ==> {
                        &&& (#[trigger] self.bosses@[k]).recent_tweets == old(self).bosses@[k].recent_tweets
                        &&& self.bosses@[k].broadcast == old(self).bosses@[k].broadcast
                        &&& self.bosses@[k].boss_data@.boss.name == pre[k].boss.name
                        &&& self.bosses@[k].boss_data@.boss.level == pre[k].boss.level
                        &&& self.bosses@[k].boss_data@.boss.language == pre[k].boss.language
                        &&& self.bosses@[k].boss_data@.boss.image == pre[k].boss.image
                        &&& self.bosses@[k].boss_data@.last_seen == pre[k].last_seen
                        &&& self.bosses@[k].boss_data@.image_hash == pre[k].image_hash
                        &&& self.bosses@[k].boss_data.boss@.wf()
                    },
                forall|k: int|
                    0 <= k < n && k != i && k < j ==> (#[trigger] self.bosses@[k]).boss_data@.boss.translations
                        == (if hash_match(pre, i as int, k, h) {
                        with_translation(pre[k].boss.translations, boss_name@)
                    } else {
                        pre[k].boss.translations
                    }),
                forall|k: int|
                    0 <= k < n && k != i && k >= j ==> (#[trigger] self.bosses@[k]).boss_data@.boss.translations
                        == pre[k].boss.translations,
                forall|x: Seq<char>|
                    #[trigger] matches.deep_view().contains(x) <==> exists|k: int|
                        0 <= k < j && k != i && #[trigger] hash_match(pre, i as int, k, h)
                            && pre[k].boss.name == x,
            decreases n - j,
        {
            if j != i {
                let matched = self.bosses[j].boss_data.boss.level == level
                    && self.bosses[j].boss_data.boss.language != language
                    && (match self.bosses[j].boss_data.image_hash {
                    Some(hh) => hh.0 == image_hash.0,
                    None => false,
                });
                proof {
                    assert(matched == hash_match(pre, i as int, j as int, h));
                }
                if matched {
                    let ghost bj = self.bosses@;
                    let ghost m0 = matches.deep_view();
                    let mut ej = self.bosses.remove(j);
                    ej.boss_data.boss.add_translation(&boss_name);
                    let ghost ssub = self.subscribers;
                    let message = (self.filter_map_message)(
                        Message::BossUpdate(ej.boss_data.boss.clone()),
                    );
                    self.subscribers.maybe_send(message.as_ref());
                    matches.push(ej.boss_data.boss.name.clone());
                    let ghost ejnew = ej;
                    self.bosses.insert(j, ej);
                    proof {
                        assert forall|x: u32| #[trigger] self.subscribers.has(x) implies old(self).subscribers.has(x) by {
                            assert(ssub.has(x));
                        }
                        assert forall|k: int|
                            0 <= k < bj.len() && k != j implies self.bosses@[k] == bj[k] by {
                            if k < j {
                                assert(self.bosses@[k] == bj.remove(j as int)[k]);
                            } else {
                                assert(self.bosses@[k] == bj.remove(j as int)[k - 1]);
                                assert(bj.remove(j as int)[k - 1] == bj[k]);
                            }
                        }
                        assert(self.bosses@[j as int] == ejnew);
                        assert(ejnew.boss_data@.boss.translations == with_translation(
                            pre[j as int].boss.translations,
                            boss_name@,
                        ));
                        let m1 = matches.deep_view();
                        assert(m1 =~= m0.push(pre[j as int].boss.name)) by {
                            assert forall|k: int| 0 <= k < m1.len() implies m1[k] == m0.push(
                                pre[j as int].boss.name,
                            )[k] by {
                                assert(m1[k] == matches@[k]@);
                            }
                        }
                        assert(m1[m0.len() as int] == pre[j as int].boss.name);
                        assert forall|x: Seq<char>|
                            #[trigger] m1.contains(x) <==> exists|k: int|
                                0 <= k < j + 1 && k != i && #[trigger] hash_match(
                                    pre,
                                    i as int,
                                    k,
                                    h,
                                ) && pre[k].boss.name == x by {
                            if m1.contains(x) {
                                let k = choose|k: int| 0 <= k < m1.len() && m1[k] == x;
                                if k < m0.len() {
                                    assert(m0[k] == x);
                                    assert(m0.contains(x));
                                } else {
                                    assert(x == pre[j as int].boss.name);
                                    assert(hash_match(pre, i as int, j as int, h));
                                }
                            }
                            if exists|k: int|
                                0 <= k < j + 1 && k != i && #[trigger] hash_match(
                                    pre,
                                    i as int,
                                    k,
                                    h,
                                ) && pre[k].boss.name == x {
                                let k = choose|k: int|
                                    0 <= k < j + 1 && k != i && #[trigger] hash_match(
                                        pre,
                                        i as int,
                                        k,
                                        h,
                                    ) && pre[k].boss.name == x;
                                if k < j {
                                    assert(m0.contains(x));
                                    let l = choose|l: int| 0 <= l < m0.len() && m0[l] == x;
                                    assert(m1[l] == x);
                                } else {
                                    assert(m1[m0.len() as int] == x);
                                }
                                assert(m1.contains(x));
                            }
                        }
                    }
                }
            }
            j += 1;
        }
        let ghost mfull = matches.deep_view();
        if matches.len() > 0 {
            let ghost bi = self.bosses@;
            proof {
                assert(bi[i as int].boss_data@.boss.translations == pre[i as int].boss.translations);
            }
            let mut ei = self.bosses.remove(i);
            let mn = matches.len();
            let mut k: usize = 0;
            proof {
                assert(mfull.subrange(0, 0) =~= Seq::<Seq<char>>::empty());
            }
            while k < mn
                invariant
                    mn == matches@.len(),
                    mn == mfull.len(),
                    mfull == matches.deep_view(),
                    0 <= k <= mn,
                    0 <= i < bi.len(),
                    ei.boss_data.boss@.name == bi[i as int].boss_data.boss@.name,
                    ei.boss_data.boss@.level == bi[i as int].boss_data.boss@.level,
                    ei.boss_data.boss@.language == bi[i as int].boss_data.boss@.language,
                    ei.boss_data.boss@.image == bi[i as int].boss_data.boss@.image,
                    ei.boss_data.image_hash == bi[i as int].boss_data.image_hash,
                    ei.boss_data.last_seen == bi[i as int].boss_data.last_seen,
                    ei.recent_tweets == bi[i as int].recent_tweets,
                    ei.broadcast == bi[i as int].broadcast,
                    bi[i as int].boss_data.boss@.wf() ==> ei.boss_data.boss@.wf(),
                    ei.boss_data.boss@.translations == crate::model::with_translations(
                        bi[i as int].boss_data.boss@.translations,
                        mfull.subrange(0, k as int),
                    ),
                decreases mn - k,
            {
                proof {
                    assert(matches.deep_view()[k as int] == matches@[k as int]@);
                }
                let ghost before = ei.boss_data.boss@.translations;
                ei.boss_data.boss.add_translation(&matches[k]);
                proof {
                    assert(ei.boss_data.boss@.translations == crate::model::with_translation(
                        before,
                        mfull[k as int],
                    ));
                    assert(mfull.subrange(0, k + 1).drop_last() =~= mfull.subrange(0, k as int));
                    assert(mfull.subrange(0, k + 1).last() == mfull[k as int]);
                }
                k += 1;
            }
            proof {
                assert(mfull.subrange(0, mn as int) =~= mfull);
            }
            let ghost ssub2 = self.subscribers;
            let message = (self.filter_map_message)(Message::BossUpdate(ei.boss_data.boss.clone()));
            self.subscribers.maybe_send(message.as_ref());
            let ghost einew = ei;
            self.bosses.insert(i, ei);
            proof {
                assert forall|x: u32| #[trigger] self.subscribers.has(x) implies old(self).subscribers.has(x) by {
                    assert(ssub2.has(x));
                }
                assert forall|k2: int|
                    0 <= k2 < bi.len() && k2 != i implies self.bosses@[k2] == bi[k2] by {
                    if k2 < i {
                        assert(self.bosses@[k2] == bi.remove(i as int)[k2]);
                    } else {
                        assert(self.bosses@[k2] == bi.remove(i as int)[k2 - 1]);
                        assert(bi.remove(i as int)[k2 - 1] == bi[k2]);
                    }
                }
                assert(self.bosses@[i as int] == einew);
                assert(old(self).entry_wf(i as int));
                assert forall|k2: int|
                    0 <= k2 < self.bosses@.len() implies (#[trigger] self.bosses@[k2]).boss_data.boss@.wf()
                    by {
                    if k2 != i {
                        if k2 < j {
                        }
                    } else {
                        assert(pre[i as int].boss.wf());
                    }
                }
                Self::lemma_wf_meta_updated(old(self), self);
            }
            self.update_cached_boss_list();
        } else {
            proof {
                assert(old(self).entry_wf(i as int));
                assert(pre[i as int].boss.wf());
                Self::lemma_wf_meta_updated(old(self), self);
            }
        }
        proof {
            let post = self.meta_views();
            assert(names_of(pre) =~= old(self).boss_names());
            assert(find_name(names_of(pre), boss_name@) == Some(i as int));
            assert(post.len() == pre.len());
            assert forall|jj: int| 0 <= jj < pre.len() && jj != i implies {
                &&& (#[trigger] post[jj]).boss.name == pre[jj].boss.name
                &&& post[jj].boss.level == pre[jj].boss.level
                &&& post[jj].boss.language == pre[jj].boss.language
                &&& post[jj].boss.image == pre[jj].boss.image
                &&& post[jj].last_seen == pre[jj].last_seen
                &&& post[jj].image_hash == pre[jj].image_hash
                &&& (forall|x: Seq<char>|
                    post[jj].boss.translations.contains(x) <==> (
                    pre[jj].boss.translations.contains(x) || (x == boss_name@ && hash_match(
                        pre,
                        i as int,
                        jj,
                        h,
                    ))))
            } by {
                assert(post[jj] == self.bosses@[jj].boss_data@);
                crate::model::lemma_with_translation_contains(
                    pre[jj].boss.translations,
                    boss_name@,
                );
            }
            assert(post[i as int] == self.bosses@[i as int].boss_data@);
            assert(post[i as int].image_hash == Some(h));
            assert(post[i as int].boss.name == pre[i as int].boss.name);
            assert(post[i as int].boss.level == pre[i as int].boss.level);
            assert(post[i as int].boss.language == pre[i as int].boss.language);
            assert(post[i as int].boss.image == pre[i as int].boss.image);
            assert(post[i as int].last_seen == pre[i as int].last_seen);
            assert(post[i as int].boss.translations == crate::model::with_translations(
                pre[i as int].boss.translations,
                mfull,
            ) || post[i as int].boss.translations == pre[i as int].boss.translations);
            crate::model::lemma_with_translations_contains(pre[i as int].boss.translations, mfull);
            assert forall|x: Seq<char>|
                post[i as int].boss.translations.contains(x) <==> (pre[
                i as int
            ].boss.translations.contains(x) || exists|jj: int|
                    0 <= jj < pre.len() && jj != i && #[trigger] hash_match(pre, i as int, jj, h)
                        && pre[jj].boss.name == x) by {
                assert(mfull.contains(x) <==> exists|jj: int|
                    0 <= jj < pre.len() && jj != i && #[trigger] hash_match(pre, i as int, jj, h)
                        && pre[jj].boss.name == x) by {
                    assert(matches.deep_view().contains(x) <==> exists|k: int|
                        0 <= k < n && k != i && #[trigger] hash_match(pre, i as int, k, h)
                            && pre[k].boss.name == x);
                }
                if matches@.len() == 0 {
                    assert(post[i as int].boss.translations == pre[i as int].boss.translations);
                    if mfull.contains(x) {
                        let l = choose|l: int| 0 <= l < mfull.len() && mfull[l] == x;
                    }
                } else {
                    assert(post[i as int].boss.translations == crate::model::with_translations(
                        pre[i as int].boss.translations,
                        mfull,
                    ));
                    assert(post[i as int].boss.translations.contains(x) <==> (pre[
                    i as int
                    ].boss.translations.contains(x) || mfull.contains(x)));
                }
            }
            assert(hash_update_rel(old(self).meta_views(), post, boss_name@, image_hash.0));
        }
    }

    /// Handles a parsed invitation. For a cataloged boss: refresh its last
    /// seen time, deliver the adapted invitation to its followers and to the
    /// followers of each of its translations (appending the invitation to
    /// those histories too), append it to the boss's own history, and adopt
    /// the carried image url when the boss had none, asking for its hash.
    /// For a new boss: promote its pending followers, parse its level from
    /// the name, announce it to the global group, deliver the invitation to
    /// the promoted followers, start its history with this invitation, ask
    /// for an image hash when an image came along, and rebuild the cached
    /// boss list. The returned pair is the hash request to dispatch, if any.
    pub fn handle_raid_info(&mut self, info: RaidInfo) -> (r: Option<(BossName, BossImageUrl)>)
        requires
            old(self).wf(),
        ensures
            final(self).wf(),
            final(self).id_pool == old(self).id_pool,
            final(self).heartbeat == old(self).heartbeat,
            final(self).filter_map_message == old(self).filter_map_message,
            match find_name(old(self).boss_names(), info.tweet.boss_name@) {
                Some(i) => {
                    &&& final(self).boss_names() == old(self).boss_names()
                    &&& final(self).requested_bosses@ == old(self).requested_bosses@
                    &&& final(self).subscribers == old(self).subscribers
                    &&& final(self).cached_boss_list == old(self).cached_boss_list
                    &&& final(self).bosses@.len() == old(self).bosses@.len()
                    &&& final(self).bosses@[i].boss_data@.last_seen == info.tweet@.created_at
                    &&& final(self).bosses@[i].boss_data@.boss.name == old(self).bosses@[i].boss_data@.boss.name
                    &&& final(self).bosses@[i].boss_data@.boss.level == old(self).bosses@[i].boss_data@.boss.level
                    &&& final(self).bosses@[i].boss_data@.boss.language == old(self).bosses@[i].boss_data@.boss.language
                    &&& final(self).bosses@[i].boss_data@.boss.translations == old(self).bosses@[i].boss_data@.boss.translations
                    &&& final(self).bosses@[i].boss_data@.image_hash == old(self).bosses@[i].boss_data@.image_hash
                    &&& (match old(self).bosses@[i].boss_data.boss.image {
                        Some(_) => final(self).bosses@[i].boss_data.boss.image == old(self).bosses@[i].boss_data.boss.image && r is None,
                        None => match info.image {
                            Some(url) => final(self).bosses@[i].boss_data@.boss.image == Some(
                                url@,
                            ) && (r matches Some(req) && req.0@ == info.tweet.boss_name@ && req.1@
                                == url@),
                            None => final(self).bosses@[i].boss_data@.boss.image is None
                                && r is None,
                        },
                    })
                    &&& (exists|t: RaidTweet|
                        t@ == info.tweet@ && final(self).bosses@[i].recent_tweets@ == old(self).bosses@[i].recent_tweets@.spec_push(t))
                    &&& (exists|out: Option<S::Item>|
                        {
                            &&& (exists|tw: RaidTweet|
                                tw@ == info.tweet@ && call_ensures(
                                    old(self).filter_map_message,
                                    (Message::Tweet(tw),),
                                    out,
                                ))
                            &&& group_maybe_sent(
                                old(self).bosses@[i].broadcast@,
                                final(self).bosses@[i].broadcast@,
                                out,
                            )
                            &&& (forall|k: int|
                                0 <= k < old(self).bosses@.len() && k != i ==> {
                                    if old(self).bosses@[i].boss_data@.boss.translations.contains(
                                        old(self).boss_names()[k],
                                    ) {
                                        &&& (#[trigger] final(self).bosses@[k]).boss_data == old(self).bosses@[k].boss_data
                                        &&& group_maybe_sent(
                                            old(self).bosses@[k].broadcast@,
                                            final(self).bosses@[k].broadcast@,
                                            out,
                                        )
                                        &&& (exists|t2: RaidTweet|
                                            t2@ == info.tweet@ && final(self).bosses@[k].recent_tweets@ == old(self).bosses@[k].recent_tweets@.spec_push(t2))
                                    } else {
                                        final(self).bosses@[k] == old(self).bosses@[k]
                                    }
                                })
                        })
                },
                None => {
                    &&& final(self).boss_names() == old(self).boss_names().push(
                        info.tweet.boss_name@,
                    )
                    &&& (forall|k: int|
                        0 <= k < old(self).bosses@.len() ==> final(self).bosses@[k] == #[trigger] old(self).bosses@[k])
                    &&& ({
                        let e = final(self).bosses@[old(self).bosses@.len() as int];
                        &&& e.boss_data@.boss.name == info.tweet.boss_name@
                        &&& e.boss_data@.boss.level == (match crate::model::spec_parse_level(
                            info.tweet.boss_name@,
                        ) {
                            Some(l) => l,
                            None => 0,
                        })
                        &&& e.boss_data@.boss.language == info.tweet.language
                        &&& e.boss_data@.boss.image == (match info.image {
                            Some(url) => Some(url@),
                            None => None,
                        })
                        &&& e.boss_data@.boss.translations.len() == 0
                        &&& e.boss_data@.last_seen == info.tweet@.created_at
                        &&& e.boss_data@.image_hash is None
                        &&& tweet_views(e.recent_tweets@.data) == seq![info.tweet@]
                        &&& (match find_name(old(self).pending_names(), info.tweet.boss_name@) {
                            Some(p) => final(self).pending_names() == old(self).pending_names().remove(p) && (exists|out: Option<S::Item>|
                                {
                                    &&& (exists|tw: RaidTweet|
                                        tw@ == info.tweet@ && call_ensures(
                                            old(self).filter_map_message,
                                            (Message::Tweet(tw),),
                                            out,
                                        ))
                                    &&& group_maybe_sent(
                                        old(self).requested_bosses@[p].1@,
                                        e.broadcast@,
                                        out,
                                    )
                                }),
                            None => final(self).pending_names() == old(self).pending_names()
                                && e.broadcast@.len() == 0,
                        })
                    })
                    &&& (r matches Some(req) ==> (req.0@ == info.tweet.boss_name@ && (match info.image {
                        Some(url) => req.1@ == url@,
                        None => false,
                    })))
                    &&& (r is Some <==> info.image is Some)
                    &&& (exists|bout: Option<S::Item>, b: RaidBoss|
                        b@ == final(self).bosses@[old(self).bosses@.len() as int].boss_data@.boss
                            && call_ensures(
                            old(self).filter_map_message,
                            (Message::BossUpdate(b),),
                            bout,
                        ) && group_maybe_sent(old(self).subscribers@, final(self).subscribers@, bout))
                    &&& (exists|bs: Vec<RaidBoss>|
                        bs.deep_view() == final(self).boss_views() && call_ensures(
                            old(self).filter_map_message,
                            (Message::BossList(bs),),
                            final(self).cached_boss_list,
                        ))
                },
            },
    {
        self.metrics.inc_tweet_count(&info.tweet.boss_name);
        let tweet_copy = info.tweet.clone();
        let ghost twit = tweet_copy;
        let mapped_tweet_message = (self.filter_map_message)(Message::Tweet(tweet_copy));
        let ghost out = mapped_tweet_message;
        let found = self.find_boss_index(&info.tweet.boss_name);
        proof {
            lemma_find_name_agrees(self.boss_names(), info.tweet.boss_name@, found);
        }
        match found {
            Some(i) => {
                proof {
                    assert(old(self).entry_wf(i as int));
                }
                let ghost b0 = self.bosses@;
                let mut entry = self.bosses.remove(i);
                entry.boss_data.last_seen = info.tweet.created_at;
                entry.broadcast.maybe_send(mapped_tweet_message.as_ref());
                let request = if entry.boss_data.boss.image.is_none() {
                    match &info.image {
                        Some(url) => {
                            entry.boss_data.boss.image = Some(url.clone());
                            Some((info.tweet.boss_name.clone(), url.clone()))
                        },
                        None => None,
                    }
                } else {
                    None
                };
                let translations = clone_names(&entry.boss_data.boss.translations);
                entry.recent_tweets.push(info.tweet.clone());
                let ghost enew = entry;
                self.bosses.insert(i, entry);
                proof {
                    assert forall|k: int|
                        0 <= k < b0.len() && k != i implies self.bosses@[k] == b0[k] by {
                        if k < i {
                            assert(self.bosses@[k] == b0.remove(i as int)[k]);
                        } else {
                            assert(self.bosses@[k] == b0.remove(i as int)[k - 1]);
                            assert(b0.remove(i as int)[k - 1] == b0[k]);
                        }
                    }
                    assert(self.bosses@[i as int] == enew);
                }
                let ghost trans = old(self).bosses@[i as int].boss_data.boss@.translations;
                proof {
                    assert(translations.deep_view() == trans);
                }
                // Deliver the invitation to each translated boss's followers
                // and append it to that boss's history.
                let tn = translations.len();
                let mut l: usize = 0;
                while l < tn
                    invariant
                        old(self).wf(),
                        tn == translations@.len(),
                        translations.deep_view() == trans,
                        out == mapped_tweet_message,
                        0 <= l <= tn,
                        0 <= i < self.bosses@.len(),
                        self.bosses@.len() == old(self).bosses@.len(),
                        self.boss_names() == old(self).boss_names(),
                        forall|a: int, b: int|
                            0 <= a < b < trans.len() ==> trans[a] != trans[b],
                        self.filter_map_message == old(self).filter_map_message,
                        forall|m: Message| call_requires(self.filter_map_message, (m,)),
                        self.id_pool == old(self).id_pool,
                        self.tweet_history_size == old(self).tweet_history_size,
                        self.requested_bosses == old(self).requested_bosses,
                        self.subscribers == old(self).subscribers,
                        self.cached_boss_list == old(self).cached_boss_list,
                        self.heartbeat == old(self).heartbeat,
                        self.bosses@[i as int] == enew,
                        enew.boss_data.boss@.translations == trans,
                        self.entry_wf(i as int),
                        forall|k: int|
                            0 <= k < self.bosses@.len() && k != i ==> {
                                if exists|q: int|
                                    0 <= q < l && trans[q] == old(self).boss_names()[k] {
                                    &&& (#[trigger] self.bosses@[k]).boss_data == old(self).bosses@[k].boss_data
                                    &&& group_maybe_sent(
                                        old(self).bosses@[k].broadcast@,
                                        self.bosses@[k].broadcast@,
                                        out,
                                    )
                                    &&& (exists|t2: RaidTweet|
                                        t2@ == info.tweet@ && self.bosses@[k].recent_tweets@ == old(self).bosses@[k].recent_tweets@.spec_push(t2))
                                    &&& self.entry_wf(k)
                                } else {
                                    self.bosses@[k] == old(self).bosses@[k]
                                }
                            },
                    decreases tn - l,
                {
                    let tname = &translations[l];
                    proof {
                        assert(translations.deep_view()[l as int] == translations@[l as int]@);
                        assert(trans[l as int] == tname@);
                    }
                    let tfound = self.find_boss_index(tname);
                    match tfound {
                        Some(k) => {
                            if k != i {
                                proof {
                                    assert(!(exists|q: int|
                                        0 <= q < l && trans[q] == old(self).boss_names()[
                                        k as int])) by {
                                        if exists|q: int|
                                            0 <= q < l && trans[q] == old(self).boss_names()[
                                            k as int] {
                                            let q = choose|q: int|
                                                0 <= q < l && trans[q] == old(self).boss_names()[
                                                k as int];
                                            assert(trans[q] == trans[l as int]);
                                        }
                                    }
                                    assert(self.bosses@[k as int] == old(self).bosses@[k as int]);
                                    assert(old(self).entry_wf(k as int));
                                    assert(self.entry_wf(k as int));
                                }
                                let ghost bk = self.bosses@;
                                let mut te = self.bosses.remove(k);
                                te.broadcast.maybe_send(mapped_tweet_message.as_ref());
                                te.recent_tweets.push(info.tweet.clone());
                                let ghost tenew = te;
                                self.bosses.insert(k, te);
                                proof {
                                    assert forall|k2: int|
                                        0 <= k2 < bk.len() && k2 != k implies self.bosses@[k2]
                                        == bk[k2] by {
                                        if k2 < k {
                                            assert(self.bosses@[k2] == bk.remove(k as int)[k2]);
                                        } else {
                                            assert(self.bosses@[k2] == bk.remove(k as int)[k2
                                                - 1]);
                                            assert(bk.remove(k as int)[k2 - 1] == bk[k2]);
                                        }
                                    }
                                    assert(self.bosses@[k as int] == tenew);
                                    assert(self.boss_names() =~= old(self).boss_names());
                                    assert forall|k2: int|
                                        0 <= k2 < self.bosses@.len() && k2 != i implies {
                                        if exists|q: int|
                                            0 <= q < l + 1 && trans[q] == old(self).boss_names()[
                                            k2] {
                                            &&& (#[trigger] self.bosses@[k2]).boss_data == old(self).bosses@[k2].boss_data
                                            &&& group_maybe_sent(
                                                old(self).bosses@[k2].broadcast@,
                                                self.bosses@[k2].broadcast@,
                                                out,
                                            )
                                            &&& (exists|t2: RaidTweet|
                                                t2@ == info.tweet@ && self.bosses@[k2].recent_tweets@
                                                    == old(self).bosses@[k2].recent_tweets@.spec_push(t2))
                                            &&& self.entry_wf(k2)
                                        } else {
                                            self.bosses@[k2] == old(self).bosses@[k2]
                                        }
                                    } by {
                                        if k2 == k {
                                            assert(old(self).boss_names()[k2] == trans[l as int]);
                                        } else {
                                            if exists|q: int|
                                                0 <= q < l + 1 && trans[q] == old(self).boss_names()[k2] {
                                                let q = choose|q: int|
                                                    0 <= q < l + 1 && trans[q] == old(self).boss_names()[k2];
                                                if q == l {
                                                    assert(old(self).boss_names()[k2] == old(self).boss_names()[k as int]);
                                                    assert(k2 == k);
                                                } else {
                                                    assert(exists|q2: int|
                                                        0 <= q2 < l && trans[q2] == old(self).boss_names()[k2]);
                                                }
                                            }
                                        }
                                    }
                                }
                            }
                        }
                        None => {
                            proof {
                                assert forall|k2: int|
                                    0 <= k2 < self.bosses@.len() && k2 != i implies {
                                    if exists|q: int|
                                        0 <= q < l + 1 && trans[q] == old(self).boss_names()[k2] {
                                        &&& (#[trigger] self.bosses@[k2]).boss_data == old(self).bosses@[k2].boss_data
                                        &&& group_maybe_sent(
                                            old(self).bosses@[k2].broadcast@,
                                            self.bosses@[k2].broadcast@,
                                            out,
                                        )
                                        &&& (exists|t2: RaidTweet|
                                            t2@ == info.tweet@ && self.bosses@[k2].recent_tweets@
                                                == old(self).bosses@[k2].recent_tweets@.spec_push(t2))
                                        &&& self.entry_wf(k2)
                                    } else {
                                        self.bosses@[k2] == old(self).bosses@[k2]
                                    }
                                } by {
                                    if exists|q: int|
                                        0 <= q < l + 1 && trans[q] == old(self).boss_names()[k2] {
                                        let q = choose|q: int|
                                            0 <= q < l + 1 && trans[q] == old(self).boss_names()[
                                            k2];
                                        if q == l {
                                            assert(self.boss_names()[k2] == tname@);
                                            assert(false);
                                        } else {
                                            assert(exists|q2: int|
                                                0 <= q2 < l && trans[q2] == old(self).boss_names()[k2]);
                                        }
                                    }
                                }
                            }
                        }
                    }
                    l += 1;
                }
                proof {
                    assert forall|k: int| 0 <= k < self.bosses@.len() implies self.entry_wf(k) by {
                        if k != i {
                            if !(exists|q: int|
                                0 <= q < tn && trans[q] == old(self).boss_names()[k]) {
                                assert(self.bosses@[k] == old(self).bosses@[k]);
                                assert(old(self).entry_wf(k));
                            }
                        }
                    }
                    assert forall|k: int|
                        0 <= k < self.bosses@.len() && k != i implies {
                        if old(self).bosses@[i as int].boss_data@.boss.translations.contains(
                            old(self).boss_names()[k],
                        ) {
                            &&& (#[trigger] self.bosses@[k]).boss_data == old(self).bosses@[k].boss_data
                            &&& group_maybe_sent(
                                old(self).bosses@[k].broadcast@,
                                self.bosses@[k].broadcast@,
                                out,
                            )
                            &&& (exists|t2: RaidTweet|
                                t2@ == info.tweet@ && self.bosses@[k].recent_tweets@ == old(self).bosses@[k].recent_tweets@.spec_push(t2))
                        } else {
                            self.bosses@[k] == old(self).bosses@[k]
                        }
                    } by {
                        assert(old(self).bosses@[i as int].boss_data@.boss.translations == trans);
                        if trans.contains(old(self).boss_names()[k]) {
                            let q = choose|q: int|
                                0 <= q < trans.len() && trans[q] == old(self).boss_names()[k];
                            assert(exists|q2: int|
                                0 <= q2 < tn && trans[q2] == old(self).boss_names()[k]);
                        } else {
                            if exists|q: int|
                                0 <= q < tn && trans[q] == old(self).boss_names()[k] {
                                let q = choose|q: int|
                                    0 <= q < tn && trans[q] == old(self).boss_names()[k];
                                assert(trans.contains(old(self).boss_names()[k]));
                            }
                        }
                    }
                    Self::lemma_wf_preserved_catalog(old(self), self);
                    assert(group_maybe_sent(
                        old(self).bosses@[i as int].broadcast@,
                        self.bosses@[i as int].broadcast@,
                        out,
                    ));
                    assert(exists|tw: RaidTweet|
                        tw@ == info.tweet@ && call_ensures(
                            old(self).filter_map_message,
                            (Message::Tweet(tw),),
                            out,
                        )) by {
                        assert(twit@ == info.tweet@ && call_ensures(
                            old(self).filter_map_message,
                            (Message::Tweet(twit),),
                            out,
                        ));
                    }
                    assert({
                        &&& (exists|tw: RaidTweet|
                            tw@ == info.tweet@ && call_ensures(
                                old(self).filter_map_message,
                                (Message::Tweet(tw),),
                                out,
                            ))
                        &&& group_maybe_sent(
                            old(self).bosses@[i as int].broadcast@,
                            self.bosses@[i as int].broadcast@,
                            out,
                        )
                        &&& (forall|k: int|
                            0 <= k < old(self).bosses@.len() && k != i ==> {
                                if old(self).bosses@[i as int].boss_data@.boss.translations.contains(
                                    old(self).boss_names()[k],
                                ) {
                                    &&& (#[trigger] self.bosses@[k]).boss_data == old(self).bosses@[k].boss_data
                                    &&& group_maybe_sent(
                                        old(self).bosses@[k].broadcast@,
                                        self.bosses@[k].broadcast@,
                                        out,
                                    )
                                    &&& (exists|t2: RaidTweet|
                                        t2@ == info.tweet@ && self.bosses@[k].recent_tweets@ == old(self).bosses@[k].recent_tweets@.spec_push(t2))
                                } else {
                                    self.bosses@[k] == old(self).bosses@[k]
                                }
                            })
                    });
                }
                request
            }
            None => {
                let ghost mut promoted_idx: Option<int> = None;
                let mut broadcast: Broadcast<S> = match self.find_pending_index(
                    &info.tweet.boss_name,
                ) {
                    Some(p) => {
                        proof {
                            assert(old(self).requested_bosses@[p as int].1.wf());
                            lemma_find_name_agrees(
                                self.pending_names(),
                                info.tweet.boss_name@,
                                Some(p),
                            );
                            promoted_idx = Some(p as int);
                        }
                        let pair = self.requested_bosses.remove(p);
                        pair.1
                    },
                    None => {
                        proof {
                            lemma_find_name_agrees(
                                self.pending_names(),
                                info.tweet.boss_name@,
                                None::<usize>,
                            );
                        }
                        Broadcast::new()
                    },
                };
                let ghost g0 = broadcast@;
                let level = match info.tweet.boss_name.parse_level() {
                    Some(l) => l,
                    None => 0,
                };
                let request = match &info.image {
                    Some(url) => Some((info.tweet.boss_name.clone(), url.clone())),
                    None => None,
                };
                let boss = RaidBoss {
                    level,
                    name: info.tweet.boss_name.clone(),
                    image: info.image,
                    language: info.tweet.language,
                    translations: Vec::new(),
                };
                let boss_copy = boss.clone();
                let ghost bwit = boss_copy;
                let boss_message = (self.filter_map_message)(Message::BossUpdate(boss_copy));
                let ghost bout = boss_message;
                self.subscribers.maybe_send(boss_message.as_ref());
                broadcast.maybe_send(mapped_tweet_message.as_ref());
                proof {
                    assert(group_maybe_sent(g0, broadcast@, out));
                }
                let mut recent_tweets = CircularBuffer::with_capacity(self.tweet_history_size);
                let last_seen = info.tweet.created_at;
                recent_tweets.push(info.tweet);
                let entry = RaidBossEntry {
                    boss_data: RaidBossMetadata { boss, last_seen, image_hash: None },
                    broadcast,
                    recent_tweets,
                };
                let ghost enew = entry;
                self.bosses.push(entry);
                proof {
                    assert(self.bosses@[old(self).bosses@.len() as int] == enew);
                    assert(self.boss_names() =~= old(self).boss_names().push(
                        enew.boss_data.boss.name@,
                    ));
                    assert(tweet_views(enew.recent_tweets@.data) =~= seq![
                        enew.recent_tweets@.data[0]@,
                    ]);
                    match promoted_idx {
                        Some(p) => {
                            assert(self.pending_names() =~= old(self).pending_names().remove(p));
                            assert(g0 == old(self).requested_bosses@[p].1@);
                            assert(exists|o: Option<S::Item>|
                                {
                                    &&& (exists|tw: RaidTweet|
                                        tw@ == info.tweet@ && call_ensures(
                                            old(self).filter_map_message,
                                            (Message::Tweet(tw),),
                                            o,
                                        ))
                                    &&& group_maybe_sent(
                                        old(self).requested_bosses@[p].1@,
                                        enew.broadcast@,
                                        o,
                                    )
                                }) by {
                                assert((exists|tw: RaidTweet|
                                    tw@ == info.tweet@ && call_ensures(
                                        old(self).filter_map_message,
                                        (Message::Tweet(tw),),
                                        out,
                                    )) && group_maybe_sent(
                                    old(self).requested_bosses@[p].1@,
                                    enew.broadcast@,
                                    out,
                                )) by {
                                    assert(twit@ == info.tweet@ && call_ensures(
                                        old(self).filter_map_message,
                                        (Message::Tweet(twit),),
                                        out,
                                    ));
                                }
                            }
                        }
                        None => {
                            assert(self.pending_names() == old(self).pending_names());
                            assert(g0.len() == 0);
                            if out is Some {
                                assert(crate::broadcast::survivor_ids(g0, &out->0)
                                    =~= Seq::<Id>::empty());
                                assert(enew.broadcast@.map(|_i: int, pr: (Id, S)| pr.0).len()
                                    == 0);
                            }
                            assert(enew.broadcast@.len() == 0);
                        }
                    }
                    assert(exists|tw: RaidTweet|
                        tw@ == info.tweet@ && call_ensures(
                            old(self).filter_map_message,
                            (Message::Tweet(tw),),
                            out,
                        )) by {
                        assert(twit@ == info.tweet@ && call_ensures(
                            old(self).filter_map_message,
                            (Message::Tweet(twit),),
                            out,
                        ));
                    }
                    assert(bwit@ == enew.boss_data@.boss);
                    assert(group_maybe_sent(old(self).subscribers@, self.subscribers@, bout));
                    Self::lemma_wf_boss_pushed(old(self), self);
                }
                self.update_cached_boss_list();
                request
            }
        }
    }

    /// Well-formedness is kept by a removal pass: the surviving entries are
    /// originals at strictly increasing positions, and the pending table grew
    /// only by the moved follower groups of other (removed) originals.
    proof fn lemma_wf_after_removal(a: &Self, b: &Self, srcidx: Seq<int>, psrc: Seq<int>)
        requires
            a.wf(),
            b.bosses@.len() == srcidx.len(),
            forall|j: int|
                0 <= j < srcidx.len() ==> 0 <= #[trigger] srcidx[j] < a.bosses@.len()
                    && b.bosses@[j] == a.bosses@[srcidx[j]],
            forall|x: int, y: int| 0 <= x < y < srcidx.len() ==> srcidx[x] < srcidx[y],
            b.requested_bosses@.len() == a.requested_bosses@.len() + psrc.len(),
            forall|l: int|
                0 <= l < a.requested_bosses@.len() ==> b.requested_bosses@[l]
                    == #[trigger] a.requested_bosses@[l],
            forall|l: int|
                0 <= l < psrc.len() ==> 0 <= #[trigger] psrc[l] < a.bosses@.len()
                    && b.requested_bosses@[a.requested_bosses@.len() + l].0@
                    == a.bosses@[psrc[l]].boss_data.boss.name@ && b.requested_bosses@[a.requested_bosses@.len()
                    + l].1 == a.bosses@[psrc[l]].broadcast,
            forall|x: int, y: int| 0 <= x < y < psrc.len() ==> psrc[x] < psrc[y],
            forall|x: int, y: int|
                0 <= x < srcidx.len() && 0 <= y < psrc.len() ==> #[trigger] srcidx[x]
                    != #[trigger] psrc[y],
            b.tweet_history_size == a.tweet_history_size,
            b.filter_map_message == a.filter_map_message,
            b.id_pool == a.id_pool,
            b.subscribers.wf(),
            forall|x: u32| #[trigger] b.subscribers.has(x) ==> a.subscribers.has(x),
        ensures
            b.wf(),
    {
        let pn = a.requested_bosses@.len() as int;
        assert forall|k: int| 0 <= k < b.bosses@.len() implies b.entry_wf(k) by {
            assert(a.entry_wf(srcidx[k]));
        }
        assert forall|i: int, j: int|
            0 <= i < j < b.boss_names().len() implies b.boss_names()[i] != b.boss_names()[j] by {
            assert(b.boss_names()[i] == a.boss_names()[srcidx[i]]);
            assert(b.boss_names()[j] == a.boss_names()[srcidx[j]]);
            assert(srcidx[i] < srcidx[j]);
        }
        assert forall|i: int, j: int|
            0 <= i < j < b.pending_names().len() implies b.pending_names()[i]
            != b.pending_names()[j] by {
            if j < pn {
                assert(b.pending_names()[i] == a.pending_names()[i]);
                assert(b.pending_names()[j] == a.pending_names()[j]);
            } else if i < pn {
                // An old pending name is never a cataloged one.
                assert(b.pending_names()[i] == a.pending_names()[i]);
                assert(b.pending_names()[j] == a.boss_names()[psrc[j - pn]]);
                if b.pending_names()[i] == b.pending_names()[j] {
                    assert(a.has_boss(a.pending_names()[i]));
                    assert(!a.has_boss(a.pending_names()[i]));
                }
            } else {
                assert(b.pending_names()[i] == a.boss_names()[psrc[i - pn]]);
                assert(b.pending_names()[j] == a.boss_names()[psrc[j - pn]]);
                assert(psrc[i - pn] < psrc[j - pn]);
            }
        }
        assert forall|l: int| 0 <= l < b.requested_bosses@.len() implies (
        #[trigger] b.requested_bosses@[l]).1.wf() by {
            if l < pn {
                assert(a.requested_bosses@[l].1.wf());
            } else {
                assert(a.entry_wf(psrc[l - pn]));
            }
        }
        assert forall|l: int| 0 <= l < b.pending_names().len() implies !b.has_boss(
            #[trigger] b.pending_names()[l],
        ) by {
            if b.has_boss(b.pending_names()[l]) {
                let j = choose|j: int|
                    0 <= j < b.boss_names().len() && b.boss_names()[j] == b.pending_names()[l];
                assert(b.boss_names()[j] == a.boss_names()[srcidx[j]]);
                if l < pn {
                    assert(b.pending_names()[l] == a.pending_names()[l]);
                    assert(a.has_boss(a.pending_names()[l]));
                    assert(!a.has_boss(a.pending_names()[l]));
                } else {
                    assert(b.pending_names()[l] == a.boss_names()[psrc[l - pn]]);
                    let x = srcidx[j];
                    let y = psrc[l - pn];
                    assert(a.boss_names()[x] == a.boss_names()[y]);
                    if x < y {
                        assert(a.boss_names()[x] != a.boss_names()[y]);
                    } else if y < x {
                        assert(a.boss_names()[y] != a.boss_names()[x]);
                    }
                    assert(x == y);
                    assert(srcidx[j] != psrc[l - pn]);
                }
            }
        }
        assert forall|k: int| 0 <= k < b.subscribers@.len() implies b.id_pool@.is_outstanding(
            #[trigger] b.subscribers@[k].0.0 as nat,
        ) by {
            assert(b.subscribers.has(b.subscribers@[k].0.0));
            assert(a.subscribers.has(b.subscribers@[k].0.0));
            let j = choose|j: int|
                0 <= j < a.subscribers@.len() && a.subscribers@[j].0.0 == b.subscribers@[k].0.0;
            assert(a.id_pool@.is_outstanding(a.subscribers@[j].0.0 as nat));
        }
    }

    /// Handles an operator's removal request: every catalog entry the
    /// predicate selects is announced as removed to the global group and
    /// dropped; its followers, if any, move to the pending table under the
    /// boss's name, ready to re-attach if the boss reappears. The cached boss
    /// list is rebuilt afterwards.
    pub fn remove_bosses<P: Fn(&RaidBossMetadata) -> bool>(&mut self, f: P)
        requires
            old(self).wf(),
            forall|m: RaidBossMetadata| call_requires(f, (&m,)),
        ensures
            final(self).wf(),
            final(self).bosses@.len() <= old(self).bosses@.len(),
            // Every surviving entry is an untouched original the predicate
            // rejected.
            forall|j: int|
                0 <= j < final(self).bosses@.len() ==> entry_kept_from(
                    #[trigger] final(self).bosses@[j],
                    old(self).bosses@,
                    f,
                ),
            // Every original entry either survives, or was selected and its
            // nonempty follower group moved to the pending table under its
            // name.
            forall|i: int|
                0 <= i < old(self).bosses@.len() ==> {
                    ||| (exists|j: int|
                        0 <= j < final(self).bosses@.len() && #[trigger] final(self).bosses@[j]
                            == old(self).bosses@[i])
                    ||| (call_ensures(f, (&old(self).bosses@[i].boss_data,), true) && (old(self).bosses@[i].broadcast@.len() > 0 ==> exists|l: int|
                        old(self).requested_bosses@.len() <= l < final(self).requested_bosses@.len() && (#[trigger] final(self).requested_bosses@[l]).0@
                            == old(self).bosses@[i].boss_data.boss.name@ && final(self).requested_bosses@[l].1 == old(self).bosses@[i].broadcast))
                },
            // The pending table keeps its old entries, in place.
            old(self).requested_bosses@.len() <= final(self).requested_bosses@.len(),
            forall|l: int|
                0 <= l < old(self).requested_bosses@.len() ==> final(self).requested_bosses@[l]
                    == #[trigger] old(self).requested_bosses@[l],
            forall|x: u32| #[trigger] final(self).subscribers.has(x) ==> old(self).subscribers.has(
                x,
            ),
            exists|bs: Vec<RaidBoss>|
                bs.deep_view() == final(self).boss_views() && call_ensures(
                    old(self).filter_map_message,
                    (Message::BossList(bs),),
                    final(self).cached_boss_list,
                ),
    {
        let ghost orig = self.bosses@;
        let ghost pend0 = self.requested_bosses@;
        let ghost mut srcidx: Seq<int> = Seq::empty();
        let ghost mut psrc: Seq<int> = Seq::empty();
        let mut kept: Vec<RaidBossEntry<S>> = Vec::new();
        while self.bosses.len() > 0
            invariant
                old(self).wf(),
                forall|m: RaidBossMetadata| call_requires(f, (&m,)),
                orig == old(self).bosses@,
                pend0 == old(self).requested_bosses@,
                self.bosses@.len() <= orig.len(),
                forall|t: int|
                    0 <= t < self.bosses@.len() ==> #[trigger] self.bosses@[t] == orig[orig.len()
                        - self.bosses@.len() + t],
                self.filter_map_message == old(self).filter_map_message,
                forall|m: Message| call_requires(self.filter_map_message, (m,)),
                self.id_pool == old(self).id_pool,
                self.tweet_history_size == old(self).tweet_history_size,
                self.cached_boss_list == old(self).cached_boss_list,
                self.heartbeat == old(self).heartbeat,
                self.subscribers.wf(),
                forall|x: u32| #[trigger] self.subscribers.has(x) ==> old(self).subscribers.has(x),
                kept@.len() == srcidx.len(),
                srcidx.len() + psrc.len() <= orig.len() - self.bosses@.len(),
                forall|j: int|
                    0 <= j < srcidx.len() ==> 0 <= #[trigger] srcidx[j] < orig.len()
                        - self.bosses@.len() && kept@[j] == orig[srcidx[j]] && call_ensures(
                        f,
                        (&orig[srcidx[j]].boss_data,),
                        false,
                    ),
                forall|x: int, y: int| 0 <= x < y < srcidx.len() ==> srcidx[x] < srcidx[y],
                self.requested_bosses@.len() == pend0.len() + psrc.len(),
                forall|l: int|
                    0 <= l < pend0.len() ==> self.requested_bosses@[l] == #[trigger] pend0[l],
                forall|l: int|
                    0 <= l < psrc.len() ==> 0 <= #[trigger] psrc[l] < orig.len()
                        - self.bosses@.len() && self.requested_bosses@[pend0.len() + l].0@
                        == orig[psrc[l]].boss_data.boss.name@ && self.requested_bosses@[pend0.len()
                        + l].1 == orig[psrc[l]].broadcast && orig[psrc[l]].broadcast@.len() > 0
                        && call_ensures(f, (&orig[psrc[l]].boss_data,), true),
                forall|x: int, y: int| 0 <= x < y < psrc.len() ==> psrc[x] < psrc[y],
                forall|x: int, y: int|
                    0 <= x < srcidx.len() && 0 <= y < psrc.len() ==> #[trigger] srcidx[x]
                        != #[trigger] psrc[y],
                forall|i: int|
                    0 <= i < orig.len() - self.bosses@.len() ==> {
                        ||| (exists|j: int|
                            0 <= j < kept@.len() && #[trigger] kept@[j] == orig[i])
                        ||| (call_ensures(f, (&orig[i].boss_data,), true) && (
                        orig[i].broadcast@.len() > 0 ==> exists|l: int|
                            pend0.len() <= l < self.requested_bosses@.len() && (
                            #[trigger] self.requested_bosses@[l]).0@
                                == orig[i].boss_data.boss.name@ && self.requested_bosses@[l].1
                                == orig[i].broadcast))
                    },
            decreases self.bosses@.len(),
        {
            let ghost done = orig.len() - self.bosses@.len();
            let ghost kept0 = kept@;
            let ghost rb0 = self.requested_bosses@;
            let entry = self.bosses.remove(0);
            let ghost eg = entry;
            proof {
                assert(eg == orig[done]);
            }
            if f(&entry.boss_data) {
                let ghost ssub = self.subscribers;
                let message = (self.filter_map_message)(
                    Message::BossRemove(entry.boss_data.boss.name.clone()),
                );
                self.subscribers.maybe_send(message.as_ref());
                self.metrics.remove_boss(&entry.boss_data.boss.name);
                if !entry.broadcast.is_empty() {
                    let name = entry.boss_data.boss.name.clone();
                    let group = entry.broadcast;
                    self.requested_bosses.push((name, group));
                    proof {
                        psrc = psrc.push(done);
                        assert(self.requested_bosses@[pend0.len() + psrc.len() - 1].0@ == orig[
                        done].boss_data.boss.name@);
                        assert(self.requested_bosses@[pend0.len() + psrc.len() - 1].1 == orig[
                        done].broadcast);
                    }
                }
                proof {
                    assert forall|x: u32| #[trigger] self.subscribers.has(x) implies old(self).subscribers.has(x) by {
                        assert(ssub.has(x));
                    }
                    assert(call_ensures(f, (&orig[done].boss_data,), true));
                    assert forall|i: int|
                        0 <= i < orig.len() - self.bosses@.len() implies {
                        ||| (exists|j: int|
                            0 <= j < kept@.len() && #[trigger] kept@[j] == orig[i])
                        ||| (call_ensures(f, (&orig[i].boss_data,), true) && (
                        orig[i].broadcast@.len() > 0 ==> exists|l: int|
                            pend0.len() <= l < self.requested_bosses@.len() && (
                            #[trigger] self.requested_bosses@[l]).0@
                                == orig[i].boss_data.boss.name@ && self.requested_bosses@[l].1
                                == orig[i].broadcast))
                    } by {
                        if i == done {
                            if orig[done].broadcast@.len() > 0 {
                                assert(self.requested_bosses@[pend0.len() + psrc.len() - 1].0@
                                    == orig[done].boss_data.boss.name@);
                            }
                        } else {
                            assert(kept@ == kept0);
                            if !(exists|j: int| 0 <= j < kept0.len() && kept0[j] == orig[i]) {
                                assert(call_ensures(f, (&orig[i].boss_data,), true));
                                if orig[i].broadcast@.len() > 0 {
                                    let l = choose|l: int|
                                        pend0.len() <= l < rb0.len() && rb0[l].0@
                                            == orig[i].boss_data.boss.name@ && rb0[l].1
                                            == orig[i].broadcast;
                                    assert(self.requested_bosses@[l] == rb0[l]);
                                }
                            }
                        }
                    }
                }
            } else {
                kept.push(entry);
                proof {
                    srcidx = srcidx.push(done);
                    assert(kept@[srcidx.len() - 1] == orig[done]);
                    assert forall|i: int|
                        0 <= i < orig.len() - self.bosses@.len() implies {
                        ||| (exists|j: int|
                            0 <= j < kept@.len() && #[trigger] kept@[j] == orig[i])
                        ||| (call_ensures(f, (&orig[i].boss_data,), true) && (
                        orig[i].broadcast@.len() > 0 ==> exists|l: int|
                            pend0.len() <= l < self.requested_bosses@.len() && (
                            #[trigger] self.requested_bosses@[l]).0@
                                == orig[i].boss_data.boss.name@ && self.requested_bosses@[l].1
                                == orig[i].broadcast))
                    } by {
                        if i == done {
                            assert(kept@[kept@.len() - 1] == orig[done]);
                        } else {
                            assert(self.requested_bosses@ == rb0);
                            if exists|j: int| 0 <= j < kept0.len() && kept0[j] == orig[i] {
                                let j = choose|j: int|
                                    0 <= j < kept0.len() && kept0[j] == orig[i];
                                assert(kept@[j] == orig[i]);
                            }
                        }
                    }
                }
            }
        }
        self.bosses = kept;
        proof {
            Self::lemma_wf_after_removal(old(self), self, srcidx, psrc);
        }
        self.update_cached_boss_list();
        proof {
            assert(self.bosses@ == kept@);
            assert forall|j: int| 0 <= j < self.bosses@.len() implies entry_kept_from(
                self.bosses@[j],
                old(self).bosses@,
                f,
            ) by {
                assert(0 <= srcidx[j] < old(self).bosses@.len() && self.bosses@[j] == old(self).bosses@[srcidx[j]] && call_ensures(
                    f,
                    (&old(self).bosses@[srcidx[j]].boss_data,),
                    false,
                ));
            }
            assert forall|i: int|
                0 <= i < old(self).bosses@.len() implies {
                ||| (exists|j: int|
                    0 <= j < self.bosses@.len() && #[trigger] self.bosses@[j] == old(self).bosses@[i])
                ||| (call_ensures(f, (&old(self).bosses@[i].boss_data,), true) && (old(self).bosses@[i].broadcast@.len() > 0 ==> exists|l: int|
                    old(self).requested_bosses@.len() <= l < self.requested_bosses@.len() && (
                    #[trigger] self.requested_bosses@[l]).0@ == old(self).bosses@[i].boss_data.boss.name@ && self.requested_bosses@[l].1 == old(self).bosses@[i].broadcast))
            } by {
                if exists|j: int| 0 <= j < kept@.len() && #[trigger] kept@[j] == orig[i] {
                    let j = choose|j: int| 0 <= j < kept@.len() && #[trigger] kept@[j] == orig[i];
                    assert(self.bosses@[j] == orig[i]);
                }
            }
        }
    }

    /// Tears a subscription down, as a dropped handle does: one unfollow per
    /// followed boss, then the unsubscribe. The global subscriber count drops
    /// by exactly one, and each previously-followed cataloged boss's follower
    /// count drops by exactly one; nothing else about the catalog changes.
    pub fn drop_subscription(&mut self, id: Id, following: &Vec<BossName>)
        requires
            old(self).wf(),
            forall|a: int, b: int|
                0 <= a < b < following.deep_view().len() ==> following.deep_view()[a]
                    != following.deep_view()[b],
        ensures
            final(self).wf(),
            final(self).boss_names() == old(self).boss_names(),
            !final(self).subscribers.has(id.0),
            old(self).subscribers.has(id.0) ==> final(self).subscribers@.len() == old(self).subscribers@.len() - 1,
            !old(self).subscribers.has(id.0) ==> final(self).subscribers@ == old(self).subscribers@,
            final(self).bosses@.len() == old(self).bosses@.len(),
            forall|k: int|
                0 <= k < old(self).bosses@.len() ==> {
                    if following.deep_view().contains(old(self).boss_names()[k]) {
                        &&& !(#[trigger] final(self).bosses@[k]).broadcast.has(id.0)
                        &&& (old(self).bosses@[k].broadcast.has(id.0) ==> final(self).bosses@[k].broadcast@.len() == old(self).bosses@[k].broadcast@.len() - 1)
                        &&& (!old(self).bosses@[k].broadcast.has(id.0) ==> final(self).bosses@[k].broadcast@ == old(self).bosses@[k].broadcast@)
                        &&& final(self).bosses@[k].boss_data == old(self).bosses@[k].boss_data
                        &&& final(self).bosses@[k].recent_tweets == old(self).bosses@[k].recent_tweets
                    } else {
                        final(self).bosses@[k] == old(self).bosses@[k]
                    }
                },
    {
        let ghost fdv = following.deep_view();
        let n = following.len();
        let mut l: usize = 0;
        while l < n
            invariant
                old(self).wf(),
                n == following@.len(),
                fdv == following.deep_view(),
                forall|a: int, b: int| 0 <= a < b < fdv.len() ==> fdv[a] != fdv[b],
                0 <= l <= n,
                self.wf(),
                self.boss_names() == old(self).boss_names(),
                self.subscribers@ == old(self).subscribers@,
                self.id_pool == old(self).id_pool,
                self.filter_map_message == old(self).filter_map_message,
                self.bosses@.len() == old(self).bosses@.len(),
                forall|k: int|
                    0 <= k < old(self).bosses@.len() ==> {
                        if exists|q: int| 0 <= q < l && fdv[q] == old(self).boss_names()[k] {
                            &&& !(#[trigger] self.bosses@[k]).broadcast.has(id.0)
                            &&& (old(self).bosses@[k].broadcast.has(id.0) ==> self.bosses@[k].broadcast@.len()
                                == old(self).bosses@[k].broadcast@.len() - 1)
                            &&& (!old(self).bosses@[k].broadcast.has(id.0) ==> self.bosses@[k].broadcast@
                                == old(self).bosses@[k].broadcast@)
                            &&& self.bosses@[k].boss_data == old(self).bosses@[k].boss_data
                            &&& self.bosses@[k].recent_tweets == old(self).bosses@[k].recent_tweets
                        } else {
                            self.bosses@[k] == old(self).bosses@[k]
                        }
                    },
            decreases n - l,
        {
            let name = &following[l];
            proof {
                assert(following.deep_view()[l as int] == following@[l as int]@);
                assert(fdv[l as int] == name@);
            }
            let ghost bpre = self.bosses@;
            let ghost found = find_name(self.boss_names(), name@);
            proof {
                lemma_find_name_props(self.boss_names(), name@);
            }
            self.unfollow(&id, name);
            proof {
                assert forall|k: int|
                    0 <= k < old(self).bosses@.len() implies {
                    if exists|q: int| 0 <= q < l + 1 && fdv[q] == old(self).boss_names()[k] {
                        &&& !(#[trigger] self.bosses@[k]).broadcast.has(id.0)
                        &&& (old(self).bosses@[k].broadcast.has(id.0) ==> self.bosses@[k].broadcast@.len()
                            == old(self).bosses@[k].broadcast@.len() - 1)
                        &&& (!old(self).bosses@[k].broadcast.has(id.0) ==> self.bosses@[k].broadcast@
                            == old(self).bosses@[k].broadcast@)
                        &&& self.bosses@[k].boss_data == old(self).bosses@[k].boss_data
                        &&& self.bosses@[k].recent_tweets == old(self).bosses@[k].recent_tweets
                    } else {
                        self.bosses@[k] == old(self).bosses@[k]
                    }
                } by {
                    match found {
                        Some(i) => {
                            assert(old(self).boss_names()[i] == name@);
                            if k == i {
                                assert(bpre[k].broadcast@ == old(self).bosses@[k].broadcast@)
                                    by {
                                    if exists|q: int|
                                        0 <= q < l && fdv[q] == old(self).boss_names()[k] {
                                        let q = choose|q: int|
                                            0 <= q < l && fdv[q] == old(self).boss_names()[k];
                                        assert(fdv[q] == fdv[l as int]);
                                    }
                                }
                                assert(exists|q: int|
                                    0 <= q < l + 1 && fdv[q] == old(self).boss_names()[k]) by {
                                    assert(fdv[l as int] == old(self).boss_names()[k]);
                                }
                            } else {
                                assert(self.bosses@[k] == bpre[k]);
                                if exists|q: int|
                                    0 <= q < l + 1 && fdv[q] == old(self).boss_names()[k] {
                                    let q = choose|q: int|
                                        0 <= q < l + 1 && fdv[q] == old(self).boss_names()[k];
                                    if q == l {
                                        assert(old(self).boss_names()[k] == name@);
                                        assert(old(self).boss_names()[k] == old(self).boss_names()[i]);
                                        if k < i {
                                            assert(old(self).boss_names()[k] != old(self).boss_names()[i]);
                                        } else {
                                            assert(old(self).boss_names()[i] != old(self).boss_names()[k]);
                                        }
                                    } else {
                                        assert(exists|q2: int|
                                            0 <= q2 < l && fdv[q2] == old(self).boss_names()[k]);
                                    }
                                }
                            }
                        }
                        None => {
                            assert(self.bosses@ == bpre);
                            if exists|q: int|
                                0 <= q < l + 1 && fdv[q] == old(self).boss_names()[k] {
                                let q = choose|q: int|
                                    0 <= q < l + 1 && fdv[q] == old(self).boss_names()[k];
                                if q == l {
                                    assert(old(self).boss_names()[k] == name@);
                                    assert(false);
                                } else {
                                    assert(exists|q2: int|
                                        0 <= q2 < l && fdv[q2] == old(self).boss_names()[k]);
                                }
                            }
                        }
                    }
                }
            }
            l += 1;
        }
        self.unsubscribe(&id);
        proof {
            assert forall|k: int|
                0 <= k < old(self).bosses@.len() implies {
                if fdv.contains(old(self).boss_names()[k]) {
                    &&& !(#[trigger] self.bosses@[k]).broadcast.has(id.0)
                    &&& (old(self).bosses@[k].broadcast.has(id.0) ==> self.bosses@[k].broadcast@.len()
                        == old(self).bosses@[k].broadcast@.len() - 1)
                    &&& (!old(self).bosses@[k].broadcast.has(id.0) ==> self.bosses@[k].broadcast@
                        == old(self).bosses@[k].broadcast@)
                    &&& self.bosses@[k].boss_data == old(self).bosses@[k].boss_data
                    &&& self.bosses@[k].recent_tweets == old(self).bosses@[k].recent_tweets
                } else {
                    self.bosses@[k] == old(self).bosses@[k]
                }
            } by {
                if fdv.contains(old(self).boss_names()[k]) {
                    let q = choose|q: int| 0 <= q < fdv.len() && fdv[q] == old(self).boss_names()[k];
                    assert(exists|q2: int| 0 <= q2 < n && fdv[q2] == old(self).boss_names()[k]);
                } else {
                    if exists|q: int| 0 <= q < n && fdv[q] == old(self).boss_names()[k] {
                        let q = choose|q: int| 0 <= q < n && fdv[q] == old(self).boss_names()[k];
                        assert(fdv.contains(old(self).boss_names()[k]));
                    }
                }
            }
        }
    }

    /// A snapshot of all cataloged bosses.
    pub fn get_bosses(&self) -> (r: Vec<RaidBoss>)
        ensures
            r.deep_view() == self.boss_views(),
    {
        self.snapshot_bosses()
    }

    /// A snapshot of all catalog entries with their bookkeeping.
    pub fn export_metadata(&self) -> (r: Vec<RaidBossMetadata>)
        ensures
            r.deep_view() == self.meta_views(),
    {
        let n = self.bosses.len();
        let mut out: Vec<RaidBossMetadata> = Vec::new();
        let mut i: usize = 0;
        while i < n
            invariant
                n == self.bosses@.len(),
                0 <= i <= n,
                out@.len() == i,
                forall|k: int| 0 <= k < i ==> #[trigger] out@[k]@ == self.bosses@[k].boss_data@,
            decreases n - i,
        {
            out.push(self.bosses[i].boss_data.clone());
            i += 1;
        }
        proof {
            assert(out.deep_view() =~= self.meta_views());
        }
        out
    }

    /// The current metrics export.
    pub fn export_metrics(&self) -> M::Export {
        self.metrics.export()
    }

    /// The index of the catalog entry for `name`.
    fn find_boss_index(&self, name: &BossName) -> (r: Option<usize>)
        ensures
            match r {
                Some(i) => i < self.bosses@.len() && self.boss_names()[i as int] == name@
                    && forall|k: int| 0 <= k < i ==> self.boss_names()[k] != name@,
                None => !self.has_boss(name@),
            },
    {
        let n = self.bosses.len();
        let mut i: usize = 0;
        while i < n
            invariant
                n == self.bosses@.len(),
                0 <= i <= n,
                forall|k: int| 0 <= k < i ==> self.boss_names()[k] != name@,
            decreases n - i,
        {
            if crate::text::eq_str(self.bosses[i].boss_data.boss.name.as_str(), name.as_str()) {
                proof {
                    assert(self.boss_names()[i as int] == name@);
                }
                return Some(i);
            }
            i += 1;
        }
        None
    }

    /// The index of the pending-follower group for `name`.
    fn find_pending_index(&self, name: &BossName) -> (r: Option<usize>)
        ensures
            match r {
                Some(i) => i < self.requested_bosses@.len() && self.pending_names()[i as int]
                    == name@ && forall|k: int| 0 <= k < i ==> self.pending_names()[k] != name@,
                None => !self.has_pending(name@),
            },
    {
        let n = self.requested_bosses.len();
        let mut i: usize = 0;
        while i < n
            invariant
                n == self.requested_bosses@.len(),
                0 <= i <= n,
                forall|k: int| 0 <= k < i ==> self.pending_names()[k] != name@,
            decreases n - i,
        {
            if crate::text::eq_str(self.requested_bosses[i].0.as_str(), name.as_str()) {
                proof {
                    assert(self.pending_names()[i as int] == name@);
                }
                return Some(i);
            }
            i += 1;
        }
        None
    }

    /// The unordered snapshot of a boss's recent invitations; empty when the
    /// boss is not cataloged.
    pub fn get_tweets(&self, boss_name: &BossName) -> (r: Vec<RaidTweet>)
        ensures
            match find_name(self.boss_names(), boss_name@) {
                Some(i) => r.deep_view() == tweet_views(self.bosses@[i].recent_tweets@.data),
                None => r.deep_view() == Seq::<RaidTweetView>::empty(),
            },
    {
        let found = self.find_boss_index(boss_name);
        proof {
            lemma_find_name_agrees(self.boss_names(), boss_name@, found);
        }
        match found {
            Some(i) => {
                let slice = self.bosses[i].recent_tweets.as_unordered_slice();
                let n = slice.len();
                let mut out: Vec<RaidTweet> = Vec::new();
                let mut k: usize = 0;
                while k < n
                    invariant
                        n == slice@.len(),
                        0 <= k <= n,
                        out@.len() == k,
                        forall|j: int| 0 <= j < k ==> #[trigger] out@[j]@ == slice@[j]@,
                    decreases n - k,
                {
                    out.push(slice[k].clone());
                    k += 1;
                }
                proof {
                    assert(out.deep_view() =~= tweet_views(slice@));
                }
                out
            }
            None => {
                let out: Vec<RaidTweet> = Vec::new();
                proof {
                    assert(out.deep_view() =~= Seq::<RaidTweetView>::empty());
                }
                out
            }
        }
    }

    /// Broadcasts the cached heartbeat item, if there is one, to the global
    /// group, evicting subscribers whose delivery fails.
    pub fn heartbeat(&mut self)
        requires
            old(self).wf(),
        ensures
            final(self).wf(),
            match old(self).heartbeat {
                Some(m) => final(self).subscribers@.map(|_i: int, p: (Id, S)| p.0)
                    == survivor_ids_of(old(self).subscribers@, m),
                None => final(self).subscribers@ == old(self).subscribers@,
            },
            *final(self) == (Worker { subscribers: final(self).subscribers, ..*old(self) }),
    {
        self.subscribers.maybe_send(self.heartbeat.as_ref());
        proof {
            assert forall|k: int| 0 <= k < self.subscribers@.len() implies self.id_pool@.is_outstanding(
                #[trigger] self.subscribers@[k].0.0 as nat,
            ) by {
                assert(self.subscribers.has(self.subscribers@[k].0.0));
                assert(old(self).subscribers.has(self.subscribers@[k].0.0));
                let j = choose|j: int|
                    0 <= j < old(self).subscribers@.len() && old(self).subscribers@[j].0.0
                        == self.subscribers@[k].0.0;
                assert(old(self).id_pool@.is_outstanding(old(self).subscribers@[j].0.0 as nat));
            }
            Self::lemma_wf_preserved(old(self), self);
        }
    }

    /// Sends the cached adapted boss list to one subscriber, if both exist;
    /// the outcome is ignored.
    pub fn get_bosses_for_subscriber(&mut self, id: &Id)
        requires
            old(self).wf(),
        ensures
            final(self).wf(),
            final(self).subscribers@.len() == old(self).subscribers@.len(),
            forall|i: int|
                0 <= i < old(self).subscribers@.len() ==> final(self).subscribers@[i].0
                    == #[trigger] old(self).subscribers@[i].0,
            *final(self) == (Worker { subscribers: final(self).subscribers, ..*old(self) }),
    {
        self.subscribers.maybe_send_to(id, self.cached_boss_list.as_ref());
        proof {
            Self::lemma_same_ids_outstanding(old(self), self);
            Self::lemma_wf_preserved(old(self), self);
        }
    }

    /// Adapts the boss's recent invitations and sends them to one
    /// subscriber, if present; the outcome is ignored.
    pub fn get_tweets_for_subscriber(&mut self, id: &Id, boss_name: &BossName)
        requires
            old(self).wf(),
        ensures
            final(self).wf(),
            final(self).subscribers@.len() == old(self).subscribers@.len(),
            forall|i: int|
                0 <= i < old(self).subscribers@.len() ==> final(self).subscribers@[i].0
                    == #[trigger] old(self).subscribers@[i].0,
            *final(self) == (Worker {
                subscribers: final(self).subscribers,
                ..*old(self)
            }),
    {
        let tweets = self.get_tweets(boss_name);
        let message = (self.filter_map_message)(Message::TweetList(tweets));
        self.subscribers.maybe_send_to(id, message.as_ref());
        proof {
            Self::lemma_same_ids_outstanding(old(self), self);
            Self::lemma_wf_preserved(old(self), self);
        }
    }

}

/// How a group relates to its pre-delivery state after `maybe_send` of an
/// optional adapted item: untouched when nothing was sent, otherwise exactly
/// the accepting subscribers survive, in order.
pub open spec fn group_maybe_sent<S: Subscriber>(
    g0: Seq<(Id, S)>,
    g1: Seq<(Id, S)>,
    m: Option<S::Item>,
) -> bool {
    match m {
        None => g1 == g0,
        Some(mm) => g1.map(|_i: int, p: (Id, S)| p.0) == crate::broadcast::survivor_ids(g0, &mm),
    }
}

/// The ids that survive a delivery, shared with the broadcast module's
/// statement but over an owned message.
pub open spec fn survivor_ids_of<S: Subscriber>(pairs: Seq<(Id, S)>, m: S::Item) -> Seq<Id> {
    crate::broadcast::survivor_ids(pairs, &m)
}

/// The names of a catalog, in entry order.
pub open spec fn names_of(metas: Seq<RaidBossMetadataView>) -> Seq<Seq<char>> {
    metas.map(|_i: int, m: RaidBossMetadataView| m.boss.name)
}

/// Entry `j` matches entry `i` under hash `h`: same level, different
/// language, and `j`'s recorded image hash equals `h`.
pub open spec fn hash_match(metas: Seq<RaidBossMetadataView>, i: int, j: int, h: u64) -> bool {
    &&& metas[j].boss.level == metas[i].boss.level
    &&& metas[j].boss.language != metas[i].boss.language
    &&& metas[j].image_hash == Some(h)
}

/// How a hash result changes the catalog: an unknown boss is dropped; a
/// known one records the hash, every matching entry gains the boss's name as
/// a translation, and the boss gains every matching entry's name. Everything
/// else is untouched.
pub open spec fn hash_update_rel(
    pre: Seq<RaidBossMetadataView>,
    post: Seq<RaidBossMetadataView>,
    name: Seq<char>,
    h: u64,
) -> bool {
    match find_name(names_of(pre), name) {
        None => post == pre,
        Some(i) => {
            &&& post.len() == pre.len()
            &&& post[i].boss.name == pre[i].boss.name
            &&& post[i].boss.level == pre[i].boss.level
            &&& post[i].boss.language == pre[i].boss.language
            &&& post[i].boss.image == pre[i].boss.image
            &&& post[i].last_seen == pre[i].last_seen
            &&& post[i].image_hash == Some(h)
            &&& (forall|x: Seq<char>|
                post[i].boss.translations.contains(x) <==> (pre[i].boss.translations.contains(x)
                    || exists|j: int|
                    0 <= j < pre.len() && j != i && #[trigger] hash_match(pre, i, j, h)
                        && pre[j].boss.name == x))
            &&& (forall|j: int|
                0 <= j < pre.len() && j != i ==> {
                    &&& (#[trigger] post[j]).boss.name == pre[j].boss.name
                    &&& post[j].boss.level == pre[j].boss.level
                    &&& post[j].boss.language == pre[j].boss.language
                    &&& post[j].boss.image == pre[j].boss.image
                    &&& post[j].last_seen == pre[j].last_seen
                    &&& post[j].image_hash == pre[j].image_hash
                    &&& (forall|x: Seq<char>|
                        post[j].boss.translations.contains(x) <==> (
                        pre[j].boss.translations.contains(x) || (x == name && hash_match(
                            pre,
                            i,
                            j,
                            h,
                        ))))
                })
        },
    }
}

/// When two same-level, different-language bosses receive the same image
/// hash, each ends up listed among the other's translations.
pub proof fn lemma_translation_symmetry(
    m0: Seq<RaidBossMetadataView>,
    m1: Seq<RaidBossMetadataView>,
    m2: Seq<RaidBossMetadataView>,
    a: Seq<char>,
    b: Seq<char>,
    h: u64,
)
    requires
        forall|i: int, j: int| 0 <= i < j < m0.len() ==> names_of(m0)[i] != names_of(m0)[j],
        hash_update_rel(m0, m1, a, h),
        hash_update_rel(m1, m2, b, h),
        find_name(names_of(m0), a) is Some,
        find_name(names_of(m0), b) is Some,
        a != b,
        ({
            let ia = find_name(names_of(m0), a)->Some_0;
            let ib = find_name(names_of(m0), b)->Some_0;
            m0[ia].boss.level == m0[ib].boss.level && m0[ia].boss.language != m0[ib].boss.language
        }),
    ensures
        ({
            let ia = find_name(names_of(m0), a)->Some_0;
            let ib = find_name(names_of(m0), b)->Some_0;
            m2[ia].boss.translations.contains(b) && m2[ib].boss.translations.contains(a)
        }),
{
    let ia = find_name(names_of(m0), a)->Some_0;
    let ib = find_name(names_of(m0), b)->Some_0;
    lemma_find_name_props(names_of(m0), a);
    lemma_find_name_props(names_of(m0), b);
    assert(names_of(m0)[ia] == a && names_of(m0)[ib] == b);
    assert(ia != ib);
    assert(names_of(m1) =~= names_of(m0));
    lemma_find_name_props(names_of(m1), b);
    let ib1 = find_name(names_of(m1), b)->Some_0;
    assert(find_name(names_of(m1), b) is Some && names_of(m1)[ib1] == b) by {
        if find_name(names_of(m1), b) is None {
            assert(names_of(m1)[ib] == b);
        }
    }
    assert(ib1 == ib);
    // After the first result, boss `a` carries hash `h` and everything else
    // about the two entries is unchanged.
    assert(m1[ia].image_hash == Some(h));
    assert(m1[ia].boss.name == a && m1[ib].boss.name == b);
    assert(m1[ia].boss.level == m0[ia].boss.level && m1[ib].boss.level == m0[ib].boss.level);
    assert(m1[ia].boss.language == m0[ia].boss.language && m1[ib].boss.language == m0[
        ib
    ].boss.language);
    // The second result therefore sees `a` as a match for `b`.
    assert(hash_match(m1, ib, ia, h));
    assert(m2[ia].boss.translations.contains(b));
    assert(m2[ib].boss.translations.contains(a)) by {
        assert(0 <= ia < m1.len() && ia != ib && hash_match(m1, ib, ia, h) && m1[ia].boss.name
            == a);
    }
}

/// The entry is one of the original catalog entries, untouched, and the
/// removal predicate rejected it.
pub open spec fn entry_kept_from<S: Subscriber, P: Fn(&RaidBossMetadata) -> bool>(
    e: RaidBossEntry<S>,
    olds: Seq<RaidBossEntry<S>>,
    f: P,
) -> bool {
    exists|i: int|
        0 <= i < olds.len() && e == #[trigger] olds[i] && call_ensures(
            f,
            (&olds[i].boss_data,),
            false,
        )
}

/// Clones a list of boss names.
fn clone_names(v: &Vec<BossName>) -> (r: Vec<BossName>)
    ensures
        r.deep_view() == v.deep_view(),
        r@.len() == v@.len(),
{
    let n = v.len();
    let mut out: Vec<BossName> = Vec::new();
    let mut i: usize = 0;
    while i < n
        invariant
            n == v@.len(),
            0 <= i <= n,
            out@.len() == i,
            forall|k: int| 0 <= k < i ==> #[trigger] out@[k]@ == v@[k]@,
        decreases n - i,
    {
        out.push(v[i].clone());
        i += 1;
    }
    proof {
        assert(out.deep_view() =~= v.deep_view());
    }
    out
}

/// The index of `name` in a name sequence.
pub open spec fn find_name(names: Seq<Seq<char>>, name: Seq<char>) -> Option<int>
    decreases names.len(),
{
    if names.len() == 0 {
        None
    } else if names[0] == name {
        Some(0)
    } else {
        match find_name(names.drop_first(), name) {
            Some(i) => Some(i + 1),
            None => None,
        }
    }
}

pub proof fn lemma_find_name_props(names: Seq<Seq<char>>, name: Seq<char>)
    ensures
        match find_name(names, name) {
            Some(i) => 0 <= i < names.len() && names[i] == name,
            None => forall|i: int| 0 <= i < names.len() ==> names[i] != name,
        },
    decreases names.len(),
{
    if names.len() > 0 && names[0] != name {
        lemma_find_name_props(names.drop_first(), name);
        if find_name(names.drop_first(), name) is None {
            assert forall|i: int| 0 <= i < names.len() implies names[i] != name by {
                if i > 0 {
                    assert(names.drop_first()[i - 1] == names[i]);
                }
            }
        } else {
            let i = find_name(names.drop_first(), name)->Some_0;
            assert(names.drop_first()[i] == names[i + 1]);
        }
    }
}

/// A first-occurrence linear scan lands on the same index as [`find_name`].
proof fn lemma_find_name_agrees(names: Seq<Seq<char>>, name: Seq<char>, found: Option<usize>)
    requires
        match found {
            Some(i) => i < names.len() && names[i as int] == name && forall|k: int|
                0 <= k < i ==> names[k] != name,
            None => forall|i: int| 0 <= i < names.len() ==> names[i] != name,
        },
    ensures
        match found {
            Some(i) => find_name(names, name) == Some(i as int),
            None => find_name(names, name) is None,
        },
    decreases names.len(),
{
    lemma_find_name_props(names, name);
    match found {
        Some(i) => {
            if i == 0 {
            } else {
                assert forall|k: int| 0 <= k < i - 1 implies names.drop_first()[k] != name by {
                    assert(names.drop_first()[k] == names[k + 1]);
                }
                assert(names.drop_first()[i - 1] == names[i as int]);
                lemma_find_name_agrees(names.drop_first(), name, Some((i - 1) as usize));
            }
        }
        None => {}
    }
}

} // verus!
