use fnf_signup::cache::TrackedRoomCache;
use fnf_signup::refs::{
    get_message_link, parse_id_pair, parse_message_url, parse_room_num, parse_u64, remove_canary,
    resolve_room_ref,
};
use fnf_signup::store::RosterStore;

#[test]
fn parse_u64_accepts_digits_and_a_plus_sign() {
    assert_eq!(parse_u64("0"), Some(0));
    assert_eq!(parse_u64("123"), Some(123));
    assert_eq!(parse_u64("+7"), Some(7));
    assert_eq!(parse_u64("18446744073709551615"), Some(u64::MAX));
}

#[test]
fn parse_u64_rejects_everything_else() {
    assert_eq!(parse_u64(""), None);
    assert_eq!(parse_u64("+"), None);
    assert_eq!(parse_u64("-3"), None);
    assert_eq!(parse_u64("12a"), None);
    assert_eq!(parse_u64(" 12"), None);
    assert_eq!(parse_u64("18446744073709551616"), None);
    assert_eq!(parse_u64("99999999999999999999999"), None);
}

#[test]
fn parse_room_num_stays_in_signed_range() {
    assert_eq!(parse_room_num("3"), Some(3));
    assert_eq!(parse_room_num("2147483647"), Some(2147483647));
    assert_eq!(parse_room_num("2147483648"), None);
    assert_eq!(parse_room_num("x"), None);
}

#[test]
fn id_pair_splits_at_the_first_dash() {
    assert_eq!(parse_id_pair("10-200"), Some((10, 200)));
    assert_eq!(parse_id_pair("10-200-300"), None);
    assert_eq!(parse_id_pair("10"), None);
    assert_eq!(parse_id_pair("a-200"), None);
    assert_eq!(parse_id_pair("10-"), None);
}

#[test]
fn message_url_parses_the_exact_announcement_link() {
    assert_eq!(
        parse_message_url("https://discord.com/channels/1/10/100"),
        Some((1, 10, 100))
    );
    assert_eq!(parse_message_url("https://discord.com/channels/1/10"), None);
    assert_eq!(parse_message_url("https://discord.com/channels/1/10/100/9"), None);
    assert_eq!(parse_message_url("https://example.com/channels/1/10/100"), None);
    assert_eq!(parse_message_url("discord.com/channels/1/10/100"), None);
}

#[test]
fn canary_subdomain_is_dropped_before_parsing() {
    assert_eq!(remove_canary("https://canary.discord.com/x"), "https://discord.com/x");
    assert_eq!(remove_canary("canary.canary."), "");
    assert_eq!(remove_canary("plain"), "plain");
}

#[test]
fn room_reference_prefers_the_room_number() {
    let mut s = RosterStore::new();
    s.insert_room(100);  // room #1
    s.insert_room(200);  // room #2
    assert_eq!(resolve_room_ref(&s, "2"), Some(200));
    // No room carries number 300: the input is read as a message id.
    assert_eq!(resolve_room_ref(&s, "300"), Some(300));
    assert_eq!(resolve_room_ref(&s, "10-200"), Some(200));
    assert_eq!(
        resolve_room_ref(&s, "https://discord.com/channels/1/10/100"),
        Some(100)
    );
    assert_eq!(
        resolve_room_ref(&s, "https://canary.discord.com/channels/1/10/100"),
        Some(100)
    );
    assert_eq!(resolve_room_ref(&s, "not a room"), None);
}

#[test]
fn message_link_needs_a_watched_channel() {
    let mut s = RosterStore::new();
    let cache = TrackedRoomCache::bootstrap(&s);
    assert!(get_message_link(100, &cache, 1).is_none());
    s.set_channel(1, 10);
    let cache = TrackedRoomCache::bootstrap(&s);
    assert_eq!(
        get_message_link(100, &cache, 1).unwrap(),
        "https://discord.com/channels/1/10/100"
    );
}
