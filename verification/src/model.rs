//! The domain model: boss names and image urls, parsed raid invitations,
//! catalog entries, and the message sum type handed to the outbound adapter.
//!
//! Timestamps are plain integers (seconds since an epoch); converting wall
//! clock dates to and from them is the embedding program's concern.

use vstd::prelude::*;
use crate::image_hash::ImageHash;
use crate::text::{digits_value, is_digit, lemma_digits_value_extend, lemma_digits_value_nonneg};

verus! {

pub type DateTime = i64;

pub type TweetId = u64;

pub type BossLevel = i16;

/// The announcement template a post matched.
#[derive(Clone, Copy, Debug, Eq, PartialEq, Structural, Hash)]
pub enum Language {
    Japanese,
    English,
    Other,
}

/// A boss name; equality is by string value.
#[derive(Debug, Eq, Hash, PartialEq)]
pub struct BossName(pub String);

impl View for BossName {
    type V = Seq<char>;

    open spec fn view(&self) -> Seq<char> {
        self.0@
    }
}

impl DeepView for BossName {
    type V = Seq<char>;

    open spec fn deep_view(&self) -> Seq<char> {
        self@
    }
}

impl Clone for BossName {
    fn clone(&self) -> (r: Self)
        ensures
            r@ == self@,
    {
        BossName(self.0.clone())
    }
}

impl BossName {
    pub fn new(s: String) -> (r: Self)
        ensures
            r@ == s@,
    {
        BossName(s)
    }

    pub fn from_str(s: &str) -> (r: Self)
        ensures
            r@ == s@,
    {
        BossName(s.to_owned())
    }

    pub fn as_str(&self) -> (r: &str)
        ensures
            r@ == self@,
    {
        self.0.as_str()
    }

    /// Extracts the level from names such as `Lv60 ...` or `Lvl 60 ...`:
    /// the digit run after the first `Lv`/`Lvl ` marker that is followed by a
    /// space. `None` when no marker matches or the value exceeds the level
    /// type's range.
    pub fn parse_level(&self) -> (r: Option<BossLevel>)
        ensures
            r == spec_parse_level(self@),
    {
        let s = self.0.as_str();
        let len = s.unicode_len();
        if len < 2 {
            proof {
                lemma_find_level_match_miss(s@, 0);
            }
            return None;
        }
        let mut p: usize = 0;
        while p <= len - 2
            invariant
                s@ == self@,
                2 <= len,
                len == s@.len(),
                len <= usize::MAX,
                0 <= p,
                p <= len,
                forall|k: int| 0 <= k < p ==> !level_match_at(s@, k),
            decreases len - p,
        {
            if check_level_match(s, p, len) {
                proof {
                    lemma_find_level_match_hit(s@, 0, p as int);
                }
                let q = if len - p >= 4 && s.get_char(p + 2) == 'l' && s.get_char(p + 3) == ' '
                    && check_digits_then_space(s, p + 4, len) {
                    p + 4
                } else {
                    p + 2
                };
                assert(q as int == level_digits_start(s@, p as int));
                let e = digit_run(s, q, len);
                return digits_to_level(s, q, e);
            }
            p += 1;
        }
        proof {
            lemma_find_level_match_miss(s@, 0);
        }
        None
    }
}

/// The url of a boss image; equality is by string value.
#[derive(Debug, Eq, Hash, PartialEq)]
pub struct BossImageUrl(pub String);

impl View for BossImageUrl {
    type V = Seq<char>;

    open spec fn view(&self) -> Seq<char> {
        self.0@
    }
}

impl DeepView for BossImageUrl {
    type V = Seq<char>;

    open spec fn deep_view(&self) -> Seq<char> {
        self@
    }
}

impl Clone for BossImageUrl {
    fn clone(&self) -> (r: Self)
        ensures
            r@ == self@,
    {
        BossImageUrl(self.0.clone())
    }
}

impl BossImageUrl {
    pub fn new(s: String) -> (r: Self)
        ensures
            r@ == s@,
    {
        BossImageUrl(s)
    }

    pub fn from_str(s: &str) -> (r: Self)
        ensures
            r@ == s@,
    {
        BossImageUrl(s.to_owned())
    }

    pub fn as_str(&self) -> (r: &str)
        ensures
            r@ == self@,
    {
        self.0.as_str()
    }
}

/// Ghost image of a [`RaidTweet`].
pub ghost struct RaidTweetView {
    pub tweet_id: TweetId,
    pub boss_name: Seq<char>,
    pub raid_id: Seq<char>,
    pub user: Seq<char>,
    pub user_image: Option<Seq<char>>,
    pub text: Option<Seq<char>>,
    pub created_at: DateTime,
    pub language: Language,
}

/// A parsed raid invitation.
#[derive(Debug, PartialEq)]
pub struct RaidTweet {
    pub tweet_id: TweetId,
    pub boss_name: BossName,
    pub raid_id: String,
    pub user: String,
    pub user_image: Option<String>,
    pub text: Option<String>,
    pub created_at: DateTime,
    pub language: Language,
}

impl View for RaidTweet {
    type V = RaidTweetView;

    open spec fn view(&self) -> RaidTweetView {
        RaidTweetView {
            tweet_id: self.tweet_id,
            boss_name: self.boss_name@,
            raid_id: self.raid_id@,
            user: self.user@,
            user_image: match self.user_image {
                Some(s) => Some(s@),
                None => None,
            },
            text: match self.text {
                Some(s) => Some(s@),
                None => None,
            },
            created_at: self.created_at,
            language: self.language,
        }
    }
}

impl DeepView for RaidTweet {
    type V = RaidTweetView;

    open spec fn deep_view(&self) -> RaidTweetView {
        self@
    }
}

impl Clone for RaidTweet {
    fn clone(&self) -> (r: Self)
        ensures
            r@ == self@,
    {
        RaidTweet {
            tweet_id: self.tweet_id,
            boss_name: self.boss_name.clone(),
            raid_id: self.raid_id.clone(),
            user: self.user.clone(),
            user_image: match &self.user_image {
                Some(s) => Some(s.clone()),
                None => None,
            },
            text: match &self.text {
                Some(s) => Some(s.clone()),
                None => None,
            },
            created_at: self.created_at,
            language: self.language,
        }
    }
}

/// Ghost image of a [`RaidBoss`].
pub ghost struct RaidBossView {
    pub name: Seq<char>,
    pub level: BossLevel,
    pub image: Option<Seq<char>>,
    pub language: Language,
    pub translations: Seq<Seq<char>>,
}

impl RaidBossView {
    /// Discovered translations hold no duplicates.
    pub open spec fn wf(self) -> bool {
        forall|i: int, j: int|
            0 <= i < j < self.translations.len() ==> self.translations[i] != self.translations[j]
    }
}

/// A catalog entry: a boss together with the names of its discovered
/// other-language equivalents.
#[derive(Debug, PartialEq)]
pub struct RaidBoss {
    pub name: BossName,
    pub level: BossLevel,
    pub image: Option<BossImageUrl>,
    pub language: Language,
    pub translations: Vec<BossName>,
}

impl View for RaidBoss {
    type V = RaidBossView;

    open spec fn view(&self) -> RaidBossView {
        RaidBossView {
            name: self.name@,
            level: self.level,
            image: match self.image {
                Some(u) => Some(u@),
                None => None,
            },
            language: self.language,
            translations: self.translations.deep_view(),
        }
    }
}

impl DeepView for RaidBoss {
    type V = RaidBossView;

    open spec fn deep_view(&self) -> RaidBossView {
        self@
    }
}

impl Clone for RaidBoss {
    fn clone(&self) -> (r: Self)
        ensures
            r@ == self@,
    {
        let mut translations: Vec<BossName> = Vec::new();
        let n = self.translations.len();
        let mut i: usize = 0;
        while i < n
            invariant
                n == self.translations@.len(),
                0 <= i <= n,
                translations@.len() == i,
                forall|k: int|
                    0 <= k < i ==> #[trigger] translations@[k]@ == self.translations@[k]@,
            decreases n - i,
        {
            translations.push(self.translations[i].clone());
            i += 1;
        }
        proof {
            assert(translations.deep_view() =~= self.translations.deep_view());
        }
        RaidBoss {
            name: self.name.clone(),
            level: self.level,
            image: match &self.image {
                Some(u) => Some(u.clone()),
                None => None,
            },
            language: self.language,
            translations,
        }
    }
}

/// A translation list with one more name: unchanged when the name is
/// already listed, appended otherwise.
pub open spec fn with_translation(t: Seq<Seq<char>>, name: Seq<char>) -> Seq<Seq<char>> {
    if t.contains(name) {
        t
    } else {
        t.push(name)
    }
}

/// A translation list extended with each of `names`, in order.
pub open spec fn with_translations(t: Seq<Seq<char>>, names: Seq<Seq<char>>) -> Seq<Seq<char>>
    decreases names.len(),
{
    if names.len() == 0 {
        t
    } else {
        with_translation(with_translations(t, names.drop_last()), names.last())
    }
}

/// Membership in an extended translation list: the original names plus the
/// added one.
pub proof fn lemma_with_translation_contains(t: Seq<Seq<char>>, name: Seq<char>)
    ensures
        forall|x: Seq<char>|
            with_translation(t, name).contains(x) <==> (t.contains(x) || x == name),
{
    let w = with_translation(t, name);
    if !t.contains(name) {
        assert(w[t.len() as int] == name);
        assert forall|x: Seq<char>| #[trigger] w.contains(x) implies (t.contains(x) || x == name) by {
            let k = choose|k: int| 0 <= k < w.len() && w[k] == x;
            if k < t.len() {
                assert(t[k] == x);
            }
        }
        assert forall|x: Seq<char>| t.contains(x) implies w.contains(x) by {
            let k = choose|k: int| 0 <= k < t.len() && t[k] == x;
            assert(w[k] == x);
        }
    }
}

/// Membership in a list extended by many names: the original names plus any
/// of the added ones.
pub proof fn lemma_with_translations_contains(t: Seq<Seq<char>>, names: Seq<Seq<char>>)
    ensures
        forall|x: Seq<char>|
            with_translations(t, names).contains(x) <==> (t.contains(x) || names.contains(x)),
    decreases names.len(),
{
    if names.len() > 0 {
        lemma_with_translations_contains(t, names.drop_last());
        lemma_with_translation_contains(with_translations(t, names.drop_last()), names.last());
        assert forall|x: Seq<char>|
            with_translations(t, names).contains(x) <==> (t.contains(x) || names.contains(
                x,
            )) by {
            if names.drop_last().contains(x) {
                let k = choose|k: int|
                    0 <= k < names.drop_last().len() && names.drop_last()[k] == x;
                assert(names[k] == x);
            }
            if x == names.last() {
                assert(names.contains(x)) by {
                    assert(names[names.len() - 1] == x);
                }
            }
            if names.contains(x) && x != names.last() {
                let k = choose|k: int| 0 <= k < names.len() && names[k] == x;
                assert(names.drop_last()[k] == x);
            }
        }
    }
}

impl RaidBoss {
    /// Records another boss name as a discovered translation, keeping the
    /// list duplicate-free. Nothing else about the boss changes.
    pub fn add_translation(&mut self, name: &BossName)
        ensures
            final(self)@.translations == with_translation(old(self)@.translations, name@),
            forall|x: Seq<char>|
                final(self)@.translations.contains(x) <==> (old(
                    self,
                )@.translations.contains(x) || x == name@),
            old(self)@.wf() ==> final(self)@.wf(),
            final(self)@.name == old(self)@.name,
            final(self)@.level == old(self)@.level,
            final(self)@.image == old(self)@.image,
            final(self)@.language == old(self)@.language,
    {
        let n = self.translations.len();
        let mut i: usize = 0;
        while i < n
            invariant
                n == self.translations@.len(),
                0 <= i <= n,
                forall|k: int| 0 <= k < i ==> self.translations.deep_view()[k] != name@,
            decreases n - i,
        {
            if crate::text::eq_str(self.translations[i].as_str(), name.as_str()) {
                proof {
                    assert(self.translations.deep_view()[i as int] == name@);
                    assert(self@.translations.contains(name@));
                }
                return ;
            }
            proof {
                assert(self.translations.deep_view()[i as int] == self.translations@[i as int]@);
            }
            i += 1;
        }
        proof {
            assert(!self@.translations.contains(name@));
        }
        self.translations.push(name.clone());
        proof {
            let t0 = old(self)@.translations;
            let t1 = self@.translations;
            assert(t1 =~= t0.push(name@)) by {
                assert forall|k: int| 0 <= k < t1.len() implies t1[k] == t0.push(name@)[k] by {
                    if k < t0.len() {
                        assert(t1[k] == self.translations@[k]@);
                        assert(t0[k] == old(self).translations@[k]@);
                    } else {
                        assert(t1[k] == self.translations@[k]@);
                    }
                }
            }
            assert(t1[t0.len() as int] == name@);
            assert(t1.contains(name@));
            assert forall|x: Seq<char>| t1.contains(x) implies (t0.contains(x) || x == name@) by {
                let k = choose|k: int| 0 <= k < t1.len() && t1[k] == x;
                if k < t0.len() {
                    assert(t0[k] == x);
                }
            }
            assert forall|x: Seq<char>| t0.contains(x) implies t1.contains(x) by {
                let k = choose|k: int| 0 <= k < t0.len() && t0[k] == x;
                assert(t1[k] == x);
            }
            if old(self)@.wf() {
                assert forall|a: int, b: int| 0 <= a < b < t1.len() implies t1[a] != t1[b] by {
                    if b == t0.len() {
                        if t1[a] == name@ {
                            assert(t0[a] == name@);
                            assert(t0.contains(name@));
                        }
                    }
                }
            }
        }
    }
}

/// Ghost image of a [`RaidBossMetadata`].
pub ghost struct RaidBossMetadataView {
    pub boss: RaidBossView,
    pub last_seen: DateTime,
    pub image_hash: Option<u64>,
}

/// A catalog entry with its bookkeeping: when the boss was last seen and the
/// perceptual hash of its image, once known.
#[derive(Debug, PartialEq)]
pub struct RaidBossMetadata {
    pub boss: RaidBoss,
    pub last_seen: DateTime,
    pub image_hash: Option<ImageHash>,
}

impl View for RaidBossMetadata {
    type V = RaidBossMetadataView;

    open spec fn view(&self) -> RaidBossMetadataView {
        RaidBossMetadataView {
            boss: self.boss@,
            last_seen: self.last_seen,
            image_hash: match self.image_hash {
                Some(h) => Some(h.0),
                None => None,
            },
        }
    }
}

impl DeepView for RaidBossMetadata {
    type V = RaidBossMetadataView;

    open spec fn deep_view(&self) -> RaidBossMetadataView {
        self@
    }
}

impl Clone for RaidBossMetadata {
    fn clone(&self) -> (r: Self)
        ensures
            r@ == self@,
    {
        RaidBossMetadata {
            boss: self.boss.clone(),
            last_seen: self.last_seen,
            image_hash: self.image_hash,
        }
    }
}

/// Ghost image of a [`Message`].
pub ghost enum MessageView {
    Heartbeat,
    Tweet(RaidTweetView),
    TweetList(Seq<RaidTweetView>),
    BossUpdate(RaidBossView),
    BossList(Seq<RaidBossView>),
    BossRemove(Seq<char>),
}

/// What the aggregator tells the outbound adapter. The adapter maps each
/// message to an owned output item, or skips it.
#[derive(Debug, PartialEq)]
pub enum Message {
    Heartbeat,
    Tweet(RaidTweet),
    TweetList(Vec<RaidTweet>),
    BossUpdate(RaidBoss),
    BossList(Vec<RaidBoss>),
    BossRemove(BossName),
}

impl View for Message {
    type V = MessageView;

    open spec fn view(&self) -> MessageView {
        match self {
            Message::Heartbeat => MessageView::Heartbeat,
            Message::Tweet(t) => MessageView::Tweet(t@),
            Message::TweetList(ts) => MessageView::TweetList(ts.deep_view()),
            Message::BossUpdate(b) => MessageView::BossUpdate(b@),
            Message::BossList(bs) => MessageView::BossList(bs.deep_view()),
            Message::BossRemove(n) => MessageView::BossRemove(n@),
        }
    }
}

/// A boss name contains a level marker at `p`: `Lv` followed either by
/// `l ` and a digit run and a space, or directly by a digit run and a space.
pub open spec fn level_match_at(s: Seq<char>, p: int) -> bool {
    &&& 0 <= p
    &&& p + 2 <= s.len()
    &&& s[p] == 'L'
    &&& s[p + 1] == 'v'
    &&& (level_match_long(s, p) || level_match_short(s, p))
}

/// The `Lvl 60 ...` form.
pub open spec fn level_match_long(s: Seq<char>, p: int) -> bool {
    &&& p + 4 <= s.len()
    &&& s[p + 2] == 'l'
    &&& s[p + 3] == ' '
    &&& digits_then_space(s, p + 4)
}

/// The `Lv60 ...` form.
pub open spec fn level_match_short(s: Seq<char>, p: int) -> bool {
    digits_then_space(s, p + 2)
}

/// A nonempty digit run starting at `q`, immediately followed by a space.
pub open spec fn digits_then_space(s: Seq<char>, q: int) -> bool {
    &&& 0 <= q < s.len()
    &&& is_digit(s[q])
    &&& digit_run_end(s, q) < s.len()
    &&& s[digit_run_end(s, q)] == ' '
}

/// One past the last digit of the run starting at `q`.
pub open spec fn digit_run_end(s: Seq<char>, q: int) -> int
    decreases s.len() - q,
{
    if q < 0 || q >= s.len() || !is_digit(s[q]) {
        q
    } else {
        digit_run_end(s, q + 1)
    }
}

/// Where the level digits start for a match at `p`.
pub open spec fn level_digits_start(s: Seq<char>, p: int) -> int {
    if level_match_long(s, p) {
        p + 4
    } else {
        p + 2
    }
}

/// The first position with a level marker, scanning from `i`.
pub open spec fn find_level_match(s: Seq<char>, i: int) -> Option<int>
    recommends
        0 <= i,
    decreases s.len() - i,
{
    if i < 0 || i + 2 > s.len() {
        None
    } else if level_match_at(s, i) {
        Some(i)
    } else {
        find_level_match(s, i + 1)
    }
}

/// What `parse_level` returns: the value of the digit run of the leftmost
/// level marker, if there is one and the value fits the level type.
pub open spec fn spec_parse_level(s: Seq<char>) -> Option<BossLevel> {
    match find_level_match(s, 0) {
        None => None,
        Some(p) => {
            let q = level_digits_start(s, p);
            let e = digit_run_end(s, q);
            let v = digits_value(s.subrange(q, e));
            if v <= i16::MAX {
                Some(v as i16)
            } else {
                None
            }
        },
    }
}

proof fn lemma_find_level_match_hit(s: Seq<char>, i: int, p: int)
    requires
        0 <= i <= p,
        level_match_at(s, p),
        forall|k: int| i <= k < p ==> !level_match_at(s, k),
    ensures
        find_level_match(s, i) == Some(p),
    decreases p - i,
{
    if i < p {
        lemma_find_level_match_hit(s, i + 1, p);
    }
}

proof fn lemma_find_level_match_miss(s: Seq<char>, i: int)
    requires
        0 <= i,
        forall|k: int| i <= k ==> !level_match_at(s, k),
    ensures
        find_level_match(s, i) == None::<int>,
    decreases s.len() - i,
{
    if i + 2 <= s.len() {
        lemma_find_level_match_miss(s, i + 1);
    }
}

/// Every character strictly before the run end is a digit, and the run end is
/// not (or is the end of the string).
proof fn lemma_digit_run_end_shape(s: Seq<char>, q: int)
    requires
        0 <= q <= s.len(),
    ensures
        q <= digit_run_end(s, q) <= s.len(),
        forall|k: int| q <= k < digit_run_end(s, q) ==> is_digit(s[k]),
        digit_run_end(s, q) < s.len() ==> !is_digit(s[digit_run_end(s, q)]),
    decreases s.len() - q,
{
    if q < s.len() && is_digit(s[q]) {
        lemma_digit_run_end_shape(s, q + 1);
    }
}

/// Computes [`digit_run_end`].
fn digit_run(s: &str, q: usize, len: usize) -> (e: usize)
    requires
        len == s@.len(),
        len <= usize::MAX,
        q <= len,
    ensures
        e as int == digit_run_end(s@, q as int),
        q <= e <= len,
        forall|k: int| q <= k < e ==> is_digit(s@[k]),
{
    let mut e = q;
    while e < len
        invariant
            len == s@.len(),
            q <= e <= len,
            digit_run_end(s@, q as int) == digit_run_end(s@, e as int),
            forall|k: int| q <= k < e ==> is_digit(s@[k]),
        decreases len - e,
    {
        let c = s.get_char(e);
        if !('0' <= c && c <= '9') {
            return e;
        }
        e += 1;
    }
    e
}

/// Computes [`digits_then_space`].
fn check_digits_then_space(s: &str, q: usize, len: usize) -> (r: bool)
    requires
        len == s@.len(),
        len <= usize::MAX,
        q <= len,
    ensures
        r == digits_then_space(s@, q as int),
{
    if q >= len {
        return false;
    }
    let c = s.get_char(q);
    if !('0' <= c && c <= '9') {
        return false;
    }
    let e = digit_run(s, q, len);
    e < len && s.get_char(e) == ' '
}

/// Computes [`level_match_at`].
fn check_level_match(s: &str, p: usize, len: usize) -> (r: bool)
    requires
        len == s@.len(),
        len <= usize::MAX,
        p + 2 <= len,
    ensures
        r == level_match_at(s@, p as int),
{
    if s.get_char(p) != 'L' || s.get_char(p + 1) != 'v' {
        return false;
    }
    let long_ok = if len - p >= 4 && s.get_char(p + 2) == 'l' && s.get_char(p + 3) == ' ' {
        check_digits_then_space(s, p + 4, len)
    } else {
        false
    };
    if long_ok {
        return true;
    }
    check_digits_then_space(s, p + 2, len)
}

/// Parses the digit run `s[q..e]` as a level, `None` when it overflows.
fn digits_to_level(s: &str, q: usize, e: usize) -> (r: Option<BossLevel>)
    requires
        q <= e <= s@.len(),
        s@.len() <= usize::MAX,
        forall|k: int| q <= k < e ==> is_digit(s@[k]),
    ensures
        r == ({
            let v = digits_value(s@.subrange(q as int, e as int));
            if v <= i16::MAX {
                Some(v as i16)
            } else {
                None::<i16>
            }
        }),
{
    let mut acc: u32 = 0;
    let mut i = q;
    while i < e
        invariant
            q <= i <= e,
            e <= s@.len(),
            s@.len() <= usize::MAX,
            forall|k: int| q <= k < e ==> is_digit(s@[k]),
            acc == digits_value(s@.subrange(q as int, i as int)),
            acc <= 32767,
        decreases e - i,
    {
        let c = s.get_char(i);
        let d = (c as u32) - ('0' as u32);
        let next = acc * 10 + d;
        proof {
            assert(s@.subrange(q as int, i + 1).drop_last() =~= s@.subrange(q as int, i as int));
            assert(next == digits_value(s@.subrange(q as int, i + 1)));
        }
        if next > 32767 {
            proof {
                let a = s@.subrange(q as int, i as int + 1);
                let b = s@.subrange(i as int + 1, e as int);
                lemma_digits_value_extend(a, b);
                let full = s@.subrange(q as int, e as int);
                assert forall|k: int| 0 <= k < e - q implies (a + b)[k] == full[k] by {
                    assert(a.len() == i + 1 - q);
                    assert(b.len() == e - i - 1);
                    assert(full[k] == s@[q + k]);
                    if k < i + 1 - q {
                        assert((a + b)[k] == a[k]);
                        assert(a[k] == s@[q + k]);
                    } else {
                        assert((a + b)[k] == b[k - (i + 1 - q)]);
                        assert(b[k - (i + 1 - q)] == s@[i + 1 + (k - (i + 1 - q))]);
                    }
                }
                assert(a + b =~= full);
            }
            return None;
        }
        acc = next;
        i += 1;
    }
    Some(acc as i16)
}

} // verus!
