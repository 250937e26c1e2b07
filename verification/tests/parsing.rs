use petronel::model::BossName;
use petronel::model::Language::{English, Japanese};
use petronel::raid::{parse_text, RaidInfo, Tweet, TweetParts};

#[test]
fn raid_parse_ignore_invalid_text() {
    assert_eq!(
        parse_text("#GranblueHaiku http://example.com/haiku.png"),
        None
    );
}

#[test]
fn raid_parse_ignore_daily_refresh() {
    // Ignore posts made via the game's daily share button
    assert_eq!(
        parse_text(
            "救援依頼 参加者募集！参戦ID：114514810\n\
             Lv100 ケルベロス スマホRPGは今これをやってるよ。\
             今の推しキャラはこちら！　\
             ゲーム内プロフィール→　\
             https://t.co/5Xgohi9wlE https://t.co/Xlu7lqQ3km",
        ),
        None
    );
}

#[test]
fn raid_parse_ignore_another_daily_refresh() {
    // First two lines are user input
    assert_eq!(
        parse_text(
            "救援依頼 参加者募集！参戦ID：114514810\n\
             Lv100 ケルベロス\n\
             スマホRPGは今これをやってるよ。\
             今の推しキャラはこちら！　\
             ゲーム内プロフィール→　\
             https://t.co/5Xgohi9wlE https://t.co/Xlu7lqQ3km",
        ),
        None
    );
}

#[test]
fn raid_parse_ignore_extra_space_in_image_url() {
    // First two lines are user input
    assert_eq!(
        parse_text(
            "救援依頼 参加者募集！参戦ID：114514810\n\
             Lv100 ケルベロス\n\
             https://t.co/5Xgohi9wlE https://t.co/Xlu7lqQ3km",
        ),
        None
    );
}

#[test]
fn raid_parse_without_extra_text() {
    assert_eq!(
        parse_text(
            "ABCD1234 :参戦ID\n\
             参加者募集！\n\
             Lv60 オオゾラッコ\n\
             http://example.com/image-that-is-ignored.png",
        ),
        Some(TweetParts::new(
            Japanese,
            None,
            "ABCD1234",
            "Lv60 オオゾラッコ",
        ))
    );

    assert_eq!(
        parse_text(
            "ABCD1234 :Battle ID\n\
             I need backup!\n\
             Lvl 60 Ozorotter\n\
             http://example.com/image-that-is-ignored.png",
        ),
        Some(TweetParts::new(
            English,
            None,
            "ABCD1234",
            "Lvl 60 Ozorotter",
        ))
    );
}

#[test]
fn raid_parse_without_image_url() {
    assert_eq!(
        parse_text(
            "Help me ABCD1234 :参戦ID\n\
             参加者募集！\n\
             Lv60 オオゾラッコ",
        ),
        Some(TweetParts::new(
            Japanese,
            Some("Help me"),
            "ABCD1234",
            "Lv60 オオゾラッコ",
        ))
    );

    assert_eq!(
        parse_text(
            "Help me ABCD1234 :Battle ID\n\
             I need backup!\n\
             Lvl 60 Ozorotter",
        ),
        Some(TweetParts::new(
            English,
            Some("Help me"),
            "ABCD1234",
            "Lvl 60 Ozorotter",
        ))
    );
}

#[test]
fn raid_parse_with_extra_newline() {
    assert_eq!(
        parse_text(
            "ABCD1234 :参戦ID\n\
             参加者募集！\n\
             Lv60 オオゾラッコ\n",
        ),
        Some(TweetParts::new(
            Japanese,
            None,
            "ABCD1234",
            "Lv60 オオゾラッコ",
        ))
    );

    assert_eq!(
        parse_text(
            "ABCD1234 :Battle ID\n\
             I need backup!\n\
             Lvl 60 Ozorotter\n",
        ),
        Some(TweetParts::new(
            English,
            None,
            "ABCD1234",
            "Lvl 60 Ozorotter",
        ))
    );
}

#[test]
fn raid_parse_extra_text() {
    assert_eq!(
        parse_text(
            "Help me ABCD1234 :参戦ID\n\
             参加者募集！\n\
             Lv60 オオゾラッコ\n\
             http://example.com/image-that-is-ignored.png",
        ),
        Some(TweetParts::new(
            Japanese,
            Some("Help me"),
            "ABCD1234",
            "Lv60 オオゾラッコ",
        ))
    );

    assert_eq!(
        parse_text(
            "Help me ABCD1234 :Battle ID\n\
             I need backup!\n\
             Lvl 60 Ozorotter\n\
             http://example.com/image-that-is-ignored.png",
        ),
        Some(TweetParts::new(
            English,
            Some("Help me"),
            "ABCD1234",
            "Lvl 60 Ozorotter",
        ))
    );
}

#[test]
fn raid_parse_newlines_in_extra_text() {
    assert_eq!(
        parse_text(
            "Hey\n\
             Newlines\n\
             Are\n\
             Cool\n\
             ABCD1234 :参戦ID\n\
             参加者募集！\n\
             Lv60 オオゾラッコ\n\
             http://example.com/image-that-is-ignored.png",
        ),
        Some(TweetParts::new(
            Japanese,
            Some("Hey\nNewlines\nAre\nCool"),
            "ABCD1234",
            "Lv60 オオゾラッコ",
        ))
    );

    assert_eq!(
        parse_text(
            "Hey\n\
             Newlines\n\
             Are\n\
             Cool\n\
             ABCD1234 :Battle ID\n\
             I need backup!\n\
             Lvl 60 Ozorotter\n\
             http://example.com/image-that-is-ignored.png",
        ),
        Some(TweetParts::new(
            English,
            Some("Hey\nNewlines\nAre\nCool"),
            "ABCD1234",
            "Lvl 60 Ozorotter",
        ))
    );
}

#[test]
fn parse_is_deterministic() {
    // Parsing is a pure function of the text: repeated calls agree.
    let text = "Help me ABCD1234 :Battle ID\n\
                I need backup!\n\
                Lvl 60 Ozorotter";
    let first = parse_text(text);
    assert!(first.is_some());
    assert_eq!(parse_text(text), first);
}

#[test]
fn parse_level_variants() {
    assert_eq!(BossName::from_str("Lv60 オオゾラッコ").parse_level(), Some(60));
    assert_eq!(BossName::from_str("Lvl 60 Ozorotter").parse_level(), Some(60));
    assert_eq!(BossName::from_str("Lvl 120 Medusa Malice").parse_level(), Some(120));
    assert_eq!(BossName::from_str("Huanglong").parse_level(), None);
    assert_eq!(BossName::from_str("Lv999999 Grande").parse_level(), None);
    assert_eq!(BossName::from_str("Lv60Tiamat").parse_level(), None);
    // The level type's boundary.
    assert_eq!(BossName::from_str("Lv32767 X").parse_level(), Some(32767));
    assert_eq!(BossName::from_str("Lv32768 X").parse_level(), None);
}

#[test]
fn empty_buffer_has_no_contents() {
    let buf: petronel::circular_buffer::CircularBuffer<i32> =
        petronel::circular_buffer::CircularBuffer::with_capacity(3);
    assert!(buf.as_unordered_slice().is_empty());
    assert_eq!(buf.len(), 0);
}

fn game_tweet(text: &str) -> Tweet {
    Tweet {
        id: 42,
        created_at: 1491492255,
        text: text.to_owned(),
        source: "<a href=\"http://granbluefantasy.jp/\" rel=\"nofollow\">グランブルー ファンタジー</a>"
            .to_owned(),
        user_screen_name: "walfieee".to_owned(),
        user_default_profile_image: false,
        user_profile_image_url: "https://example.com/icon.png".to_owned(),
        media: vec!["https://example.com/media.jpg".to_owned()],
    }
}

#[test]
fn from_tweet_accepts_game_posts() {
    let tweet = game_tweet(
        "Help me ABCD1234 :Battle ID\n\
         I need backup!\n\
         Lvl 60 Ozorotter",
    );
    let info = RaidInfo::from_tweet(tweet).expect("a valid invitation");
    assert_eq!(info.tweet.tweet_id, 42);
    assert_eq!(info.tweet.boss_name.as_str(), "Lvl 60 Ozorotter");
    assert_eq!(info.tweet.raid_id, "ABCD1234");
    assert_eq!(info.tweet.user, "walfieee");
    assert_eq!(
        info.tweet.user_image.as_deref(),
        Some("https://example.com/icon.png")
    );
    assert_eq!(info.tweet.text.as_deref(), Some("Help me"));
    assert_eq!(info.tweet.created_at, 1491492255);
    assert_eq!(info.tweet.language, English);
    assert_eq!(
        info.image.as_ref().map(|u| u.as_str()),
        Some("https://example.com/media.jpg")
    );
}

#[test]
fn from_tweet_rejects_other_sources() {
    let mut tweet = game_tweet(
        "ABCD1234 :Battle ID\n\
         I need backup!\n\
         Lvl 60 Ozorotter",
    );
    tweet.source = "petronel".to_owned();
    assert_eq!(RaidInfo::from_tweet(tweet), None);
}

#[test]
fn from_tweet_drops_default_avatars() {
    let mut tweet = game_tweet(
        "ABCD1234 :Battle ID\n\
         I need backup!\n\
         Lvl 60 Ozorotter",
    );
    tweet.user_profile_image_url = "https://example.com/default_profile_3.png".to_owned();
    let info = RaidInfo::from_tweet(tweet).expect("a valid invitation");
    assert_eq!(info.tweet.user_image, None);
}
