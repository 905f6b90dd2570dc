use fnf_signup::cache::TrackedRoomCache;
use fnf_signup::engine::handle_add;
use fnf_signup::events::{process_reaction, EventResponse};
use fnf_signup::filter::{filter_event, Emoji, FilterDecision, ReactionAction, ReactionEvent};
use fnf_signup::notify::Notification;
use fnf_signup::store::RosterStore;

const BOT: u64 = 999;
const GUILD: u64 = 1;
const CHANNEL: u64 = 10;

fn tracked_setup(room: u64) -> (RosterStore, TrackedRoomCache) {
    let mut store = RosterStore::new();
    store.set_channel(GUILD, CHANNEL);
    store.insert_room(room);
    let cache = TrackedRoomCache::bootstrap(&store);
    (store, cache)
}

fn affirmative(room: u64, user: u64) -> ReactionEvent {
    ReactionEvent {
        message_id: room,
        channel_id: CHANNEL,
        guild_id: Some(GUILD),
        user_id: Some(user),
        emoji: Emoji::Affirmative,
        action: ReactionAction::Added,
    }
}

#[test]
fn filter_accepts_tracked_affirmative() {
    let (_store, cache) = tracked_setup(100);
    assert_eq!(filter_event(&cache, BOT, &affirmative(100, 7)), FilterDecision::AcceptAdd);
}

#[test]
fn filter_accepts_tracked_negative_as_remove() {
    let (_store, cache) = tracked_setup(100);
    let mut ev = affirmative(100, 7);
    ev.emoji = Emoji::Negative;
    assert_eq!(filter_event(&cache, BOT, &ev), FilterDecision::AcceptRemove);
}

#[test]
fn filter_ignores_direct_messages() {
    let (_store, cache) = tracked_setup(100);
    let mut ev = affirmative(100, 7);
    ev.guild_id = None;
    assert_eq!(filter_event(&cache, BOT, &ev), FilterDecision::Ignore);
}

#[test]
fn filter_ignores_the_engines_own_reactions() {
    let (_store, cache) = tracked_setup(100);
    assert_eq!(filter_event(&cache, BOT, &affirmative(100, BOT)), FilterDecision::Ignore);
}

#[test]
fn filter_ignores_unwatched_channels() {
    let (_store, cache) = tracked_setup(100);
    let mut ev = affirmative(100, 7);
    ev.channel_id = CHANNEL + 1;
    assert_eq!(filter_event(&cache, BOT, &ev), FilterDecision::Ignore);
}

#[test]
fn filter_ignores_foreign_emoji() {
    let (_store, cache) = tracked_setup(100);
    let mut ev = affirmative(100, 7);
    ev.emoji = Emoji::Other;
    assert_eq!(filter_event(&cache, BOT, &ev), FilterDecision::Ignore);
}

#[test]
fn filter_ignores_reaction_removals() {
    let (_store, cache) = tracked_setup(100);
    let mut ev = affirmative(100, 7);
    ev.action = ReactionAction::Removed;
    assert_eq!(filter_event(&cache, BOT, &ev), FilterDecision::Ignore);
}

#[test]
fn bootstrap_filters_untracked_room_without_store_query() {
    // Store holds rooms 100 and 200; an event for room 300 dies in the
    // filter, whose only inputs are the cache and the event.
    let mut store = RosterStore::new();
    store.set_channel(GUILD, CHANNEL);
    store.insert_room(100);
    store.insert_room(200);
    let cache = TrackedRoomCache::bootstrap(&store);
    assert_eq!(filter_event(&cache, BOT, &affirmative(300, 7)), FilterDecision::Ignore);
    let resp = process_reaction(&mut store, &cache, BOT, &affirmative(300, 7));
    assert!(matches!(resp, EventResponse::Ignored));
    assert_eq!(filter_event(&cache, BOT, &affirmative(200, 7)), FilterDecision::AcceptAdd);
}

#[test]
fn tenth_add_lands_in_reserve_and_updates_footer() {
    // Nine members in; a tenth valid add is sequence 10, announced as
    // reserve 1/6, and the footer drops to five free spots.
    let (mut store, cache) = tracked_setup(100);
    let mut u: u64 = 0;
    while u < 9 {
        handle_add(&mut store, 100, 1000 + u);
        u += 1;
    }
    let resp = process_reaction(&mut store, &cache, BOT, &affirmative(100, 7));
    match resp {
        EventResponse::Handled { notification, footer } => {
            let n = notification.unwrap();
            assert_eq!(n, Notification::RegisteredReserve { rank: 1 });
            assert_eq!(
                n.text(),
                "You registered as a reserve for the room. Your position is 1/6."
            );
            assert_eq!(
                footer.unwrap(),
                "5/15 spots available | react to this message to register"
            );
        },
        EventResponse::Ignored => panic!("event should have been handled"),
    }
    assert_eq!(store.count_memberships(100), 10);
}

#[test]
fn sixteenth_add_leaves_count_and_footer_alone() {
    // A full room: the attempt changes nothing, earns no notification, and
    // asks for no footer rewrite — the counter stays at zero free spots.
    let (mut store, cache) = tracked_setup(100);
    let mut u: u64 = 0;
    while u < 15 {
        handle_add(&mut store, 100, 1000 + u);
        u += 1;
    }
    let resp = process_reaction(&mut store, &cache, BOT, &affirmative(100, 7));
    match resp {
        EventResponse::Handled { notification, footer } => {
            assert!(notification.is_none());
            assert!(footer.is_none());
        },
        EventResponse::Ignored => panic!("event should have been handled"),
    }
    assert_eq!(store.count_memberships(100), 15);
    assert_eq!(
        fnf_signup::text::footer_text(store.count_memberships(100)),
        "0/15 spots available | react to this message to register"
    );
}

#[test]
fn removal_event_deregisters_and_updates_footer() {
    let (mut store, cache) = tracked_setup(100);
    handle_add(&mut store, 100, 7);
    let mut ev = affirmative(100, 7);
    ev.emoji = Emoji::Negative;
    let resp = process_reaction(&mut store, &cache, BOT, &ev);
    match resp {
        EventResponse::Handled { notification, footer } => {
            assert_eq!(notification.unwrap(), Notification::Deregistered);
            assert_eq!(
                footer.unwrap(),
                "15/15 spots available | react to this message to register"
            );
        },
        EventResponse::Ignored => panic!("event should have been handled"),
    }
    assert_eq!(store.count_memberships(100), 0);
}

#[test]
fn removal_event_for_nonmember_stays_quiet() {
    let (mut store, cache) = tracked_setup(100);
    let mut ev = affirmative(100, 7);
    ev.emoji = Emoji::Negative;
    let resp = process_reaction(&mut store, &cache, BOT, &ev);
    match resp {
        EventResponse::Handled { notification, footer } => {
            assert!(notification.is_none());
            assert!(footer.is_none());
        },
        EventResponse::Ignored => panic!("event should have been handled"),
    }
}

#[test]
fn stale_cache_entry_surfaces_store_error() {
    // The cache believes a room exists that the store has lost: the event is
    // accepted, the mutation fails, the user gets the operator notice and no
    // footer rewrite happens.
    let mut store = RosterStore::new();
    store.set_channel(GUILD, CHANNEL);
    let mut cache = TrackedRoomCache::bootstrap(&store);
    cache.track(100);
    let resp = process_reaction(&mut store, &cache, BOT, &affirmative(100, 7));
    match resp {
        EventResponse::Handled { notification, footer } => {
            assert_eq!(notification.unwrap(), Notification::StoreError);
            assert!(footer.is_none());
        },
        EventResponse::Ignored => panic!("event should have been handled"),
    }
    assert_eq!(store.count_memberships(100), 0);
}

#[test]
fn cache_write_through_tracks_and_untracks() {
    let mut cache = TrackedRoomCache::new();
    assert!(!cache.contains_room(100));
    cache.track(100);
    cache.track(100);
    assert!(cache.contains_room(100));
    cache.untrack(100);
    assert!(!cache.contains_room(100));
}

#[test]
fn cache_config_write_through_keeps_other_field() {
    let mut cache = TrackedRoomCache::new();
    cache.set_host(GUILD, 5);
    cache.set_channel(GUILD, CHANNEL);
    let c = cache.config_of(GUILD).unwrap();
    assert_eq!(c.channel_id, Some(CHANNEL));
    assert_eq!(c.host_id, Some(5));
    assert!(cache.config_of(GUILD + 1).is_none());
}
