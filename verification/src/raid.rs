//! Recognizing raid-invitation posts. A post's text matches one of two
//! announcement templates (Japanese or English): optional free text, an
//! 8-hex-digit battle id, the template marker, a boss-name line, and an
//! optional image-url line. The free text is greedy, so the *last* position
//! where the id and marker fit is the one that counts.

use vstd::prelude::*;
use crate::model::{BossImageUrl, BossName, DateTime, Language, RaidTweet, RaidTweetView, TweetId};
use crate::text::{
    check_match_at, contains_seq, contains_str, eq_str, matches_at, spec_trim, trim,
};

verus! {

/// The `source` field a post must carry to be considered: the game's mobile
/// client.
pub open spec fn spec_game_source() -> Seq<char> {
    r#"<a href="http://granbluefantasy.jp/" rel="nofollow">グランブルー ファンタジー</a>"#@
}

/// The template marker that follows the battle id in a Japanese post.
pub open spec fn spec_marker_ja() -> Seq<char> {
    " :参戦ID\n参加者募集！\n"@
}

/// The template marker that follows the battle id in an English post.
pub open spec fn spec_marker_en() -> Seq<char> {
    " :Battle ID\nI need backup!\n"@
}

pub open spec fn is_hex_upper(c: char) -> bool {
    ('0' <= c && c <= '9') || ('A' <= c && c <= 'F')
}

/// The template matches at `p`: eight upper-case hex digits, the marker, and
/// a nonempty boss line.
pub open spec fn raid_match_at(s: Seq<char>, marker: Seq<char>, p: int) -> bool {
    &&& 0 <= p
    &&& p + 8 + marker.len() < s.len()
    &&& (forall|k: int| 0 <= k < 8 ==> is_hex_upper(#[trigger] s[p + k]))
    &&& matches_at(s, marker, p + 8)
    &&& s[p + 8 + marker.len()] != '\n'
}

/// The largest match position at or below `p`.
pub open spec fn find_raid_match_down(s: Seq<char>, marker: Seq<char>, p: int) -> Option<int>
    decreases p + 1,
{
    if p < 0 {
        None
    } else if raid_match_at(s, marker, p) {
        Some(p)
    } else {
        find_raid_match_down(s, marker, p - 1)
    }
}

/// The position the greedy free-text capture leaves for the id: the largest
/// match position.
pub open spec fn last_raid_match(s: Seq<char>, marker: Seq<char>) -> Option<int> {
    find_raid_match_down(s, marker, s.len() as int)
}

/// The end of the line starting at `b`: the next newline, or the end.
pub open spec fn line_end(s: Seq<char>, b: int) -> int
    decreases s.len() - b,
{
    if b < 0 || b >= s.len() || s[b] == '\n' {
        b
    } else {
        line_end(s, b + 1)
    }
}

/// An accepted image url: `http://` or `https://`, then at least one
/// character, none of them a space.
pub open spec fn is_image_url(u: Seq<char>) -> bool {
    ||| (matches_at(u, "http://"@, 0) && u.len() > "http://"@.len() && forall|k: int|
        "http://"@.len() <= k < u.len() ==> u[k] != ' ')
    ||| (matches_at(u, "https://"@, 0) && u.len() > "https://"@.len() && forall|k: int|
        "https://"@.len() <= k < u.len() ==> u[k] != ' ')
}

/// Ghost image of [`TweetParts`].
pub ghost struct TweetPartsView {
    pub language: Language,
    pub text: Option<Seq<char>>,
    pub raid_id: Seq<char>,
    pub boss_name: Seq<char>,
}

/// What the text of an invitation post parses into.
#[derive(Clone, Debug, PartialEq)]
pub struct TweetParts {
    pub language: Language,
    pub text: Option<String>,
    pub raid_id: String,
    pub boss_name: String,
}

impl View for TweetParts {
    type V = TweetPartsView;

    open spec fn view(&self) -> TweetPartsView {
        TweetPartsView {
            language: self.language,
            text: match self.text {
                Some(t) => Some(t@),
                None => None,
            },
            raid_id: self.raid_id@,
            boss_name: self.boss_name@,
        }
    }
}

impl TweetParts {
    pub fn new(language: Language, text: Option<&str>, raid_id: &str, boss_name: &str) -> (r: Self)
        ensures
            r@ == (TweetPartsView {
                language,
                text: match text {
                    Some(t) => Some(t@),
                    None => None,
                },
                raid_id: raid_id@,
                boss_name: boss_name@,
            }),
    {
        TweetParts {
            language,
            text: match text {
                Some(t) => Some(t.to_owned()),
                None => None,
            },
            raid_id: raid_id.to_owned(),
            boss_name: boss_name.to_owned(),
        }
    }
}

/// What parsing yields once the template has matched at `p` with a marker of
/// length `mlen`: the trimmed captures, unless the boss name embeds a url or
/// the url line is present but malformed.
pub open spec fn spec_finish_parse(s: Seq<char>, p: int, mlen: int, language: Language) -> Option<
    TweetPartsView,
> {
    let b = p + 8 + mlen;
    let boss_end = line_end(s, b);
    let url_start = if boss_end < s.len() {
        boss_end + 1
    } else {
        boss_end
    };
    let url_end = line_end(s, url_start);
    let boss_name = spec_trim(s.subrange(b, boss_end));
    let url = s.subrange(url_start, url_end);
    if contains_seq(boss_name, "http"@) {
        None
    } else if url.len() > 0 && !is_image_url(url) {
        None
    } else {
        let t = spec_trim(s.subrange(0, p));
        Some(
            TweetPartsView {
                language,
                text: if t.len() == 0 {
                    None
                } else {
                    Some(t)
                },
                raid_id: spec_trim(s.subrange(p, p + 8)),
                boss_name,
            },
        )
    }
}

/// What `parse_text` returns: the Japanese template is tried first, then the
/// English one; no match means the post is not an invitation.
pub open spec fn spec_parse_text(s: Seq<char>) -> Option<TweetPartsView> {
    if last_raid_match(s, spec_marker_ja()) is Some {
        spec_finish_parse(
            s,
            last_raid_match(s, spec_marker_ja())->Some_0,
            spec_marker_ja().len() as int,
            Language::Japanese,
        )
    } else if last_raid_match(s, spec_marker_en()) is Some {
        spec_finish_parse(
            s,
            last_raid_match(s, spec_marker_en())->Some_0,
            spec_marker_en().len() as int,
            Language::English,
        )
    } else {
        None
    }
}

proof fn lemma_find_down_skip(s: Seq<char>, marker: Seq<char>, hi: int, lo: int)
    requires
        -1 <= lo <= hi,
        forall|k: int| lo < k <= hi ==> !raid_match_at(s, marker, k),
    ensures
        find_raid_match_down(s, marker, hi) == find_raid_match_down(s, marker, lo),
    decreases hi - lo,
{
    if lo < hi {
        lemma_find_down_skip(s, marker, hi - 1, lo);
    }
}

proof fn lemma_line_end_shape(s: Seq<char>, b: int)
    requires
        0 <= b <= s.len(),
    ensures
        b <= line_end(s, b) <= s.len(),
        forall|k: int| b <= k < line_end(s, b) ==> s[k] != '\n',
        line_end(s, b) < s.len() ==> s[line_end(s, b)] == '\n',
    decreases s.len() - b,
{
    if b < s.len() && s[b] != '\n' {
        lemma_line_end_shape(s, b + 1);
    }
}

/// Computes [`line_end`].
fn find_line_end(s: &str, b: usize, len: usize) -> (e: usize)
    requires
        len == s@.len(),
        len <= usize::MAX,
        b <= len,
    ensures
        e as int == line_end(s@, b as int),
        b <= e <= len,
{
    let mut e = b;
    while e < len
        invariant
            len == s@.len(),
            b <= e <= len,
            line_end(s@, b as int) == line_end(s@, e as int),
        decreases len - e,
    {
        if s.get_char(e) == '\n' {
            return e;
        }
        e += 1;
    }
    e
}

/// Computes [`raid_match_at`].
fn check_raid_match(s: &str, marker: &str, p: usize, len: usize, mlen: usize) -> (r: bool)
    requires
        len == s@.len(),
        len <= usize::MAX,
        mlen == marker@.len(),
        p + 8 + mlen < len,
    ensures
        r == raid_match_at(s@, marker@, p as int),
{
    let mut k: usize = 0;
    while k < 8
        invariant
            len == s@.len(),
            p + 8 < len,
            0 <= k <= 8,
            forall|j: int| 0 <= j < k ==> is_hex_upper(#[trigger] s@[p + j]),
        decreases 8 - k,
    {
        let c = s.get_char(p + k);
        if !(('0' <= c && c <= '9') || ('A' <= c && c <= 'F')) {
            return false;
        }
        k += 1;
    }
    if !check_match_at(s, marker, p + 8) {
        return false;
    }
    s.get_char(p + 8 + mlen) != '\n'
}

/// The largest position where the template matches, scanning from the top.
fn find_last_raid_match(s: &str, marker: &str, len: usize) -> (r: Option<usize>)
    requires
        len == s@.len(),
        len <= usize::MAX,
    ensures
        match r {
            Some(p) => last_raid_match(s@, marker@) == Some(p as int) && raid_match_at(
                s@,
                marker@,
                p as int,
            ),
            None => last_raid_match(s@, marker@) is None,
        },
{
    let mlen = marker.unicode_len();
    if len < 9 || len - 9 < mlen {
        proof {
            assert forall|k: int| !raid_match_at(s@, marker@, k) by {}
            lemma_find_down_skip(s@, marker@, len as int, -1);
        }
        return None;
    }
    let top = len - 9 - mlen;
    proof {
        assert forall|k: int| top < k <= len implies !raid_match_at(s@, marker@, k) by {}
        lemma_find_down_skip(s@, marker@, len as int, top as int);
    }
    let mut p = top;
    loop
        invariant
            len == s@.len(),
            len <= usize::MAX,
            mlen == marker@.len(),
            top == len - 9 - mlen,
            0 <= p <= top,
            find_raid_match_down(s@, marker@, len as int) == find_raid_match_down(
                s@,
                marker@,
                p as int,
            ),
        decreases p,
    {
        if check_raid_match(s, marker, p, len, mlen) {
            return Some(p);
        }
        if p == 0 {
            proof {
                lemma_find_down_skip(s@, marker@, 0, -1);
            }
            return None;
        }
        p -= 1;
        proof {
            lemma_find_down_skip(s@, marker@, p as int + 1, p as int);
        }
    }
}

/// Computes [`is_image_url`].
fn check_image_url(u: &str) -> (r: bool)
    ensures
        r == is_image_url(u@),
{
    let n = u.unicode_len();
    let http = "http://";
    let https = "https://";
    let hlen = http.unicode_len();
    let hslen = https.unicode_len();
    if n > hlen && check_match_at(u, http, 0) && no_space_from(u, hlen, n) {
        return true;
    }
    if n > hslen && check_match_at(u, https, 0) && no_space_from(u, hslen, n) {
        return true;
    }
    false
}

fn no_space_from(u: &str, start: usize, n: usize) -> (r: bool)
    requires
        n == u@.len(),
        n <= usize::MAX,
        start <= n,
    ensures
        r == (forall|k: int| start <= k < n ==> u@[k] != ' '),
{
    let mut k = start;
    while k < n
        invariant
            n == u@.len(),
            start <= k <= n,
            forall|j: int| start <= j < k ==> u@[j] != ' ',
        decreases n - k,
    {
        if u.get_char(k) == ' ' {
            return false;
        }
        k += 1;
    }
    true
}

/// Parses a matched template's captures, applying the boss-name and url
/// rejections and the trimming rules.
fn finish_parse(s: &str, len: usize, p: usize, mlen: usize, language: Language) -> (r: Option<
    TweetParts,
>)
    requires
        len == s@.len(),
        len <= usize::MAX,
        p + 8 + mlen < len,
    ensures
        match r {
            Some(t) => spec_finish_parse(s@, p as int, mlen as int, language) == Some(t@),
            None => spec_finish_parse(s@, p as int, mlen as int, language) is None,
        },
{
    let b = p + 8 + mlen;
    let boss_end = find_line_end(s, b, len);
    let url_start = if boss_end < len {
        boss_end + 1
    } else {
        boss_end
    };
    let url_end = find_line_end(s, url_start, len);
    proof {
        lemma_line_end_shape(s@, b as int);
        lemma_line_end_shape(s@, url_start as int);
    }
    let boss_raw = s.substring_char(b, boss_end);
    let boss_name = trim(boss_raw);
    if contains_str(boss_name, "http") {
        return None;
    }
    let url = s.substring_char(url_start, url_end);
    if url.unicode_len() > 0 && !check_image_url(url) {
        return None;
    }
    let text_trimmed = trim(s.substring_char(0, p));
    let id_trimmed = trim(s.substring_char(p, p + 8));
    Some(
        TweetParts {
            language,
            text: if text_trimmed.unicode_len() == 0 {
                None
            } else {
                Some(text_trimmed.to_owned())
            },
            raid_id: id_trimmed.to_owned(),
            boss_name: boss_name.to_owned(),
        },
    )
}

/// Parses the text of a post against the two announcement templates.
/// The result is a function of the text alone.
pub fn parse_text(tweet_text: &str) -> (r: Option<TweetParts>)
    ensures
        match r {
            Some(t) => spec_parse_text(tweet_text@) == Some(t@),
            None => spec_parse_text(tweet_text@) is None,
        },
{
    let len = tweet_text.unicode_len();
    let ja = " :参戦ID\n参加者募集！\n";
    let en = " :Battle ID\nI need backup!\n";
    match find_last_raid_match(tweet_text, ja, len) {
        Some(p) => finish_parse(tweet_text, len, p, ja.unicode_len(), Language::Japanese),
        None => match find_last_raid_match(tweet_text, en, len) {
            Some(p) => finish_parse(tweet_text, len, p, en.unicode_len(), Language::English),
            None => None,
        },
    }
}

/// Ghost image of a [`Tweet`].
pub ghost struct TweetView {
    pub id: TweetId,
    pub created_at: DateTime,
    pub text: Seq<char>,
    pub source: Seq<char>,
    pub user_screen_name: Seq<char>,
    pub user_default_profile_image: bool,
    pub user_profile_image_url: Seq<char>,
    pub media: Seq<Seq<char>>,
}

/// The fields of a raw post that invitation parsing reads. The embedding
/// program fills one of these from whatever wire format the post stream
/// delivers.
#[derive(Clone, Debug, PartialEq)]
pub struct Tweet {
    pub id: TweetId,
    pub created_at: DateTime,
    pub text: String,
    pub source: String,
    pub user_screen_name: String,
    pub user_default_profile_image: bool,
    pub user_profile_image_url: String,
    pub media: Vec<String>,
}

impl View for Tweet {
    type V = TweetView;

    open spec fn view(&self) -> TweetView {
        TweetView {
            id: self.id,
            created_at: self.created_at,
            text: self.text@,
            source: self.source@,
            user_screen_name: self.user_screen_name@,
            user_default_profile_image: self.user_default_profile_image,
            user_profile_image_url: self.user_profile_image_url@,
            media: self.media.deep_view(),
        }
    }
}

/// Ghost image of a [`RaidInfo`].
pub ghost struct RaidInfoView {
    pub tweet: RaidTweetView,
    pub image: Option<Seq<char>>,
}

/// A recognized invitation: the parsed record and the boss image url the
/// post carried, if any.
#[derive(Debug, PartialEq)]
pub struct RaidInfo {
    pub tweet: RaidTweet,
    pub image: Option<BossImageUrl>,
}

impl View for RaidInfo {
    type V = RaidInfoView;

    open spec fn view(&self) -> RaidInfoView {
        RaidInfoView {
            tweet: self.tweet@,
            image: match self.image {
                Some(u) => Some(u@),
                None => None,
            },
        }
    }
}

impl Clone for RaidInfo {
    fn clone(&self) -> (r: Self)
        ensures
            r@ == self@,
    {
        RaidInfo {
            tweet: self.tweet.clone(),
            image: match &self.image {
                Some(u) => Some(u.clone()),
                None => None,
            },
        }
    }
}

/// What `from_tweet` returns: posts from any other client are dropped; the
/// user's avatar is kept only when it is a real one; the boss image is the
/// first attached media item.
pub open spec fn spec_from_tweet(t: TweetView) -> Option<RaidInfoView> {
    if t.source != spec_game_source() {
        None
    } else {
        match spec_parse_text(t.text) {
            None => None,
            Some(p) => Some(
                RaidInfoView {
                    tweet: RaidTweetView {
                        tweet_id: t.id,
                        boss_name: p.boss_name,
                        raid_id: p.raid_id,
                        user: t.user_screen_name,
                        user_image: if t.user_default_profile_image || contains_seq(
                            t.user_profile_image_url,
                            "default_profile"@,
                        ) {
                            None
                        } else {
                            Some(t.user_profile_image_url)
                        },
                        text: p.text,
                        created_at: t.created_at,
                        language: p.language,
                    },
                    image: if t.media.len() > 0 {
                        Some(t.media[0])
                    } else {
                        None
                    },
                },
            ),
        }
    }
}

impl RaidInfo {
    /// Recognizes an invitation in a raw post: the post must come from the
    /// game client and its text must match one of the two templates.
    pub fn from_tweet(tweet: Tweet) -> (r: Option<RaidInfo>)
        ensures
            match r {
                Some(info) => spec_from_tweet(tweet@) == Some(info@),
                None => spec_from_tweet(tweet@) is None,
            },
    {
        let game_source =
            r#"<a href="http://granbluefantasy.jp/" rel="nofollow">グランブルー ファンタジー</a>"#;
        if !eq_str(tweet.source.as_str(), game_source) {
            return None;
        }
        let parsed = match parse_text(tweet.text.as_str()) {
            Some(p) => p,
            None => {
                return None;
            },
        };
        let user_image = if tweet.user_default_profile_image || contains_str(
            tweet.user_profile_image_url.as_str(),
            "default_profile",
        ) {
            None
        } else {
            Some(tweet.user_profile_image_url.clone())
        };
        let image = if tweet.media.len() > 0 {
            Some(BossImageUrl(tweet.media[0].clone()))
        } else {
            None
        };
        let raid_tweet = RaidTweet {
            tweet_id: tweet.id,
            boss_name: BossName(parsed.boss_name),
            raid_id: parsed.raid_id,
            user: tweet.user_screen_name,
            user_image,
            text: parsed.text,
            created_at: tweet.created_at,
            language: parsed.language,
        };
        Some(RaidInfo { tweet: raid_tweet, image })
    }
}

} // verus!
