use petronel::broadcast::{CollectingSubscriber, RejectingSubscriber};
use petronel::image_hash::{cropped_height, hash_from_bits, HashRequestTracker, ImageHash};
use petronel::metrics::{simple, Counts, Metrics, NoOp};
use petronel::model::{BossImageUrl, BossName, Language, Message, RaidBossMetadata, RaidTweet};
use petronel::raid::RaidInfo;
use petronel::worker::Worker;

fn adapt(message: Message) -> Option<u64> {
    match message {
        Message::Heartbeat => Some(0),
        Message::Tweet(_) => Some(1),
        Message::TweetList(_) => Some(2),
        Message::BossUpdate(_) => Some(3),
        Message::BossList(_) => Some(4),
        Message::BossRemove(_) => Some(5),
    }
}

type TestWorker = Worker<CollectingSubscriber<u64>, fn(Message) -> Option<u64>, NoOp>;

fn new_worker() -> TestWorker {
    Worker::new(10, adapt as fn(Message) -> Option<u64>, NoOp, Vec::new())
}

fn invitation(name: &str, language: Language, image: Option<&str>, at: i64) -> RaidInfo {
    RaidInfo {
        tweet: RaidTweet {
            tweet_id: 1,
            boss_name: BossName::from_str(name),
            raid_id: "ABCD1234".to_owned(),
            user: "u".to_owned(),
            user_image: None,
            text: None,
            created_at: at,
            language,
        },
        image: image.map(BossImageUrl::from_str),
    }
}

#[test]
fn single_new_boss() {
    let mut worker = new_worker();
    let request = worker.handle_raid_info(invitation("Lv60 Ozorotter", Language::English, None, 7));
    assert!(request.is_none());

    let bosses = worker.get_bosses();
    assert_eq!(bosses.len(), 1);
    assert_eq!(bosses[0].name.as_str(), "Lv60 Ozorotter");
    assert_eq!(bosses[0].level, 60);
    assert_eq!(bosses[0].image, None);
    assert_eq!(bosses[0].language, Language::English);
    assert!(bosses[0].translations.is_empty());

    let tweets = worker.get_tweets(&BossName::from_str("Lv60 Ozorotter"));
    assert_eq!(tweets.len(), 1);
    assert_eq!(tweets[0].raid_id, "ABCD1234");
    assert_eq!(tweets[0].created_at, 7);

    assert!(worker.get_tweets(&BossName::from_str("X")).is_empty());

    let meta = worker.export_metadata();
    assert_eq!(meta.len(), 1);
    assert_eq!(meta[0].last_seen, 7);
    assert_eq!(meta[0].image_hash, None);
}

#[test]
fn image_request_dispatched_once() {
    let mut worker = new_worker();
    let request = worker.handle_raid_info(invitation(
        "Lv60 Ozorotter",
        Language::English,
        Some("https://example.com/a.png"),
        1,
    ));
    let (name, url) = request.expect("a hash request for the new image");
    assert_eq!(name.as_str(), "Lv60 Ozorotter");
    assert_eq!(url.as_str(), "https://example.com/a.png");

    // The image is set now; a later invitation with an image does not
    // trigger another request.
    let again = worker.handle_raid_info(invitation(
        "Lv60 Ozorotter",
        Language::English,
        Some("https://example.com/b.png"),
        2,
    ));
    assert!(again.is_none());
}

#[test]
fn late_follower_promotion() {
    let mut worker = new_worker();
    let id = worker.subscribe(CollectingSubscriber::new());
    worker.follow(id, BossName::from_str("Lv60 Ozorotter"));
    assert_eq!(worker.requested_bosses.len(), 1);

    worker.handle_raid_info(invitation("Lv60 Ozorotter", Language::English, None, 1));

    // The pending table is empty and the promoted follower received the
    // adapted invitation.
    assert_eq!(worker.requested_bosses.len(), 0);
    let follower = worker.bosses[0].broadcast.get(&id).expect("promoted follower");
    assert_eq!(follower.items, vec![1]);
}

#[test]
fn translation_linking() {
    let mut worker = new_worker();
    worker.handle_raid_info(invitation(
        "Lv60 オオゾラッコ",
        Language::Japanese,
        Some("https://example.com/ja.png"),
        1,
    ));
    worker.handle_raid_info(invitation(
        "Lvl 60 Ozorotter",
        Language::English,
        Some("https://example.com/en.png"),
        2,
    ));
    worker.handle_image_hash(BossName::from_str("Lv60 オオゾラッコ"), ImageHash(0xDEADBEEF));
    worker.handle_image_hash(BossName::from_str("Lvl 60 Ozorotter"), ImageHash(0xDEADBEEF));

    let bosses = worker.get_bosses();
    let ja = bosses.iter().find(|b| b.name.as_str() == "Lv60 オオゾラッコ").unwrap();
    let en = bosses.iter().find(|b| b.name.as_str() == "Lvl 60 Ozorotter").unwrap();
    assert!(ja.translations.iter().any(|n| n.as_str() == "Lvl 60 Ozorotter"));
    assert!(en.translations.iter().any(|n| n.as_str() == "Lv60 オオゾラッコ"));

    // A translated boss's invitation also lands in the partner's history.
    worker.handle_raid_info(invitation("Lv60 オオゾラッコ", Language::Japanese, None, 3));
    let en_tweets = worker.get_tweets(&BossName::from_str("Lvl 60 Ozorotter"));
    assert_eq!(en_tweets.len(), 2);
}

#[test]
fn translation_requires_matching_level_and_hash() {
    let mut worker = new_worker();
    worker.handle_raid_info(invitation("Lv60 オオゾラッコ", Language::Japanese, None, 1));
    worker.handle_raid_info(invitation("Lvl 100 Medusa", Language::English, None, 2));
    worker.handle_image_hash(BossName::from_str("Lv60 オオゾラッコ"), ImageHash(1));
    worker.handle_image_hash(BossName::from_str("Lvl 100 Medusa"), ImageHash(1));

    for boss in worker.get_bosses() {
        assert!(boss.translations.is_empty());
    }
}

#[test]
fn remove_bosses_moves_followers_to_pending() {
    let mut worker = new_worker();
    worker.handle_raid_info(invitation("Lv60 オオゾラッコ", Language::Japanese, None, 1));
    worker.handle_raid_info(invitation("Lvl 60 Ozorotter", Language::English, None, 2));

    let id = worker.subscribe(CollectingSubscriber::new());
    worker.follow(id, BossName::from_str("Lv60 オオゾラッコ"));

    worker.remove_bosses(|m: &RaidBossMetadata| m.boss.name.as_str() == "Lv60 オオゾラッコ");

    let bosses = worker.get_bosses();
    assert_eq!(bosses.len(), 1);
    assert_eq!(bosses[0].name.as_str(), "Lvl 60 Ozorotter");
    assert_eq!(worker.requested_bosses.len(), 1);
    assert_eq!(worker.requested_bosses[0].0.as_str(), "Lv60 オオゾラッコ");

    // Re-adding the boss re-attaches the migrated follower.
    worker.handle_raid_info(invitation("Lv60 オオゾラッコ", Language::Japanese, None, 3));
    let entry = worker
        .bosses
        .iter()
        .find(|e| e.boss_data.boss.name.as_str() == "Lv60 オオゾラッコ")
        .unwrap();
    let follower = entry.broadcast.get(&id).expect("migrated follower");
    assert_eq!(follower.items.last(), Some(&1));
}

#[test]
fn failing_subscriber_evicted_on_first_broadcast() {
    let mut worker: Worker<RejectingSubscriber<u64>, fn(Message) -> Option<u64>, NoOp> =
        Worker::new(10, adapt as fn(Message) -> Option<u64>, NoOp, Vec::new());
    worker.subscribe(RejectingSubscriber::new());
    assert_eq!(worker.subscribers.subscriber_count(), 1);

    worker.heartbeat();
    assert_eq!(worker.subscribers.subscriber_count(), 0);

    // Later broadcasts find nobody left to call.
    worker.heartbeat();
    assert_eq!(worker.subscribers.subscriber_count(), 0);
}

#[test]
fn unfollow_and_unsubscribe_reduce_counts_by_one() {
    let mut worker = new_worker();
    worker.handle_raid_info(invitation("Lv60 Ozorotter", Language::English, None, 1));

    let id = worker.subscribe(CollectingSubscriber::new());
    let other = worker.subscribe(CollectingSubscriber::new());
    worker.follow(id, BossName::from_str("Lv60 Ozorotter"));
    worker.follow(other, BossName::from_str("Lv60 Ozorotter"));
    assert_eq!(worker.subscribers.subscriber_count(), 2);
    assert_eq!(worker.bosses[0].broadcast.subscriber_count(), 2);

    // Dropping a subscription issues one unfollow per followed boss, then an
    // unsubscribe: each count drops by exactly one.
    worker.unfollow(&id, &BossName::from_str("Lv60 Ozorotter"));
    assert_eq!(worker.bosses[0].broadcast.subscriber_count(), 1);
    worker.unsubscribe(&id);
    assert_eq!(worker.subscribers.subscriber_count(), 1);

    // The other subscription is untouched.
    assert!(worker.bosses[0].broadcast.get(&other).is_some());
}

#[test]
fn dropping_a_subscription_releases_everything() {
    let mut worker = new_worker();
    worker.handle_raid_info(invitation("Lv60 Ozorotter", Language::English, None, 1));
    worker.handle_raid_info(invitation("Lvl 75 Celeste", Language::English, None, 2));

    let id = worker.subscribe(CollectingSubscriber::new());
    let other = worker.subscribe(CollectingSubscriber::new());
    let ozo = BossName::from_str("Lv60 Ozorotter");
    let celeste = BossName::from_str("Lvl 75 Celeste");
    worker.follow(id, ozo.clone());
    worker.follow(id, celeste.clone());
    worker.follow(other, ozo.clone());

    // The handle's teardown: one unfollow per followed boss, then the
    // unsubscribe.
    worker.drop_subscription(id, &vec![ozo, celeste]);

    assert_eq!(worker.subscribers.subscriber_count(), 1);
    assert_eq!(worker.bosses[0].broadcast.subscriber_count(), 1);
    assert_eq!(worker.bosses[1].broadcast.subscriber_count(), 0);
    assert!(worker.subscribers.get(&other).is_some());
}

#[test]
fn get_mut_reaches_one_subscriber() {
    let mut worker = new_worker();
    let id = worker.subscribe(CollectingSubscriber::new());
    let missing = petronel::id_pool::Id(99);
    assert!(worker.subscribers.get_mut(&missing).is_none());
    let sub = worker.subscribers.get_mut(&id).expect("subscribed");
    sub.items.push(42);
    assert_eq!(worker.subscribers.get(&id).unwrap().items, vec![42]);
}

#[test]
fn recycled_id_reused_after_unsubscribe() {
    let mut worker = new_worker();
    let a = worker.subscribe(CollectingSubscriber::new());
    let b = worker.subscribe(CollectingSubscriber::new());
    assert_ne!(a, b);
    worker.unsubscribe(&a);
    let c = worker.subscribe(CollectingSubscriber::new());
    assert_eq!(a, c);
}

#[test]
fn hash_requests_deduplicated_while_in_flight() {
    let mut tracker = HashRequestTracker::new();
    let name = BossName::from_str("Lv60 Ozorotter");
    assert!(tracker.begin_request(&name));
    assert!(!tracker.begin_request(&name));
    assert!(tracker.begin_request(&BossName::from_str("Lvl 75 Celeste")));
    tracker.complete(&name);
    assert!(tracker.begin_request(&name));
}

#[test]
fn hash_bit_layout() {
    let mut bits = vec![false; 64];
    bits[1] = true;
    bits[63] = true;
    // Bit 0 is always clear, even if its comparison were true.
    bits[0] = true;
    assert_eq!(hash_from_bits(&bits), (1u64 << 1) | (1u64 << 63));
}

#[test]
fn crop_keeps_three_quarters() {
    assert_eq!(cropped_height(100), 75);
    assert_eq!(cropped_height(32), 24);
    assert_eq!(cropped_height(1), 0);
}

#[test]
fn simple_metrics_counts() {
    let mut sink = simple();
    let name = BossName::from_str("Lv60 Ozorotter");

    // A follower count for a boss never counted starts a fresh record.
    sink.set_follower_count(&name, 5);
    let snapshot = sink.export();
    assert_eq!(
        snapshot.counts_for(&name),
        Some(Counts { followers: 0, tweets: 1 })
    );

    sink.inc_tweet_count(&name);
    sink.set_follower_count(&name, 5);
    let snapshot = sink.export();
    assert_eq!(
        snapshot.counts_for(&name),
        Some(Counts { followers: 5, tweets: 2 })
    );

    sink.remove_boss(&name);
    let snapshot = sink.export();
    assert_eq!(snapshot.counts_for(&name), None);
    assert_eq!(snapshot.total_subscriber_count(), 0);
}

fn adapt_nothing(_message: Message) -> Option<u64> {
    None
}

#[test]
fn skipped_messages_send_nothing_and_evict_nobody() {
    let mut worker: Worker<RejectingSubscriber<u64>, fn(Message) -> Option<u64>, NoOp> =
        Worker::new(10, adapt_nothing as fn(Message) -> Option<u64>, NoOp, Vec::new());
    worker.subscribe(RejectingSubscriber::new());

    // The adapter skipped the heartbeat, so even an always-failing
    // subscriber stays: nothing was sent.
    worker.heartbeat();
    assert_eq!(worker.subscribers.subscriber_count(), 1);
}

#[test]
fn duplicate_follow_keeps_one_registration() {
    let mut worker = new_worker();
    worker.handle_raid_info(invitation("Lv60 Ozorotter", Language::English, None, 1));
    let id = worker.subscribe(CollectingSubscriber::new());
    let name = BossName::from_str("Lv60 Ozorotter");
    worker.follow(id, name.clone());
    worker.follow(id, name);
    assert_eq!(worker.bosses[0].broadcast.subscriber_count(), 1);
}

#[test]
fn heartbeat_delivered_to_subscribers() {
    let mut worker = new_worker();
    let id = worker.subscribe(CollectingSubscriber::new());
    worker.heartbeat();
    let sub = worker.subscribers.get(&id).expect("still subscribed");
    assert_eq!(sub.items, vec![0]);
}
