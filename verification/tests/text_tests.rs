use fnf_signup::roster::{
    registered_field_header, reserves_field_header, roster_description, roster_lines,
};
use fnf_signup::text::{
    footer_text, format_user_str, host_description, i64_to_string, room_title, u64_to_string,
    user_mention,
};

#[test]
fn decimal_rendering_is_exact() {
    assert_eq!(u64_to_string(0), "0");
    assert_eq!(u64_to_string(7), "7");
    assert_eq!(u64_to_string(10), "10");
    assert_eq!(u64_to_string(1234567890), "1234567890");
    assert_eq!(u64_to_string(u64::MAX), "18446744073709551615");
}

#[test]
fn signed_rendering_handles_negatives() {
    assert_eq!(i64_to_string(0), "0");
    assert_eq!(i64_to_string(-1), "-1");
    assert_eq!(i64_to_string(i64::MIN), "-9223372036854775808");
    assert_eq!(i64_to_string(i64::MAX), "9223372036854775807");
}

#[test]
fn user_line_carries_mention_and_raw_id() {
    assert_eq!(format_user_str(42), "<@42> (42)\n");
    assert_eq!(format_user_str(-5), "<@-5> (-5)\n");
}

#[test]
fn mention_and_title_formats() {
    assert_eq!(user_mention(42), "<@42>");
    assert_eq!(room_title(3), "Room #3");
    assert_eq!(room_title(12), "Room #12");
}

#[test]
fn host_description_names_host_time_and_date() {
    assert_eq!(
        host_description(42, "Friday", "20:00"),
        "<@42> is hosting a room at **20:00** on **Friday!**"
    );
}

#[test]
fn footer_counts_remaining_spots() {
    assert_eq!(footer_text(0), "15/15 spots available | react to this message to register");
    assert_eq!(footer_text(10), "5/15 spots available | react to this message to register");
    assert_eq!(footer_text(15), "0/15 spots available | react to this message to register");
}

#[test]
fn roster_description_with_and_without_link() {
    assert_eq!(
        roster_description(3, Some("https://discord.com/channels/1/10/100"), true),
        "**[Signups for Room #3](https://discord.com/channels/1/10/100)**"
    );
    assert_eq!(roster_description(3, None, true), "**Signups for Room #3**");
    assert_eq!(
        roster_description(3, None, false),
        "**Signups for Room #3**\n\nNo signups yet."
    );
}

#[test]
fn field_headers_cap_primary_and_count_reserves() {
    assert_eq!(registered_field_header(4), "Registered (4/9)");
    assert_eq!(registered_field_header(9), "Registered (9/9)");
    assert_eq!(registered_field_header(12), "Registered (9/9)");
    assert_eq!(reserves_field_header(12), "Reserves (3/6)");
    assert_eq!(reserves_field_header(15), "Reserves (6/6)");
}

#[test]
fn roster_lines_split_at_nine() {
    let members: Vec<u64> = (1..=11).collect();
    let (registered, reserves) = roster_lines(&members);
    assert_eq!(
        registered,
        "<@1> (1)\n<@2> (2)\n<@3> (3)\n<@4> (4)\n<@5> (5)\n<@6> (6)\n<@7> (7)\n<@8> (8)\n<@9> (9)\n"
    );
    assert_eq!(reserves, "<@10> (10)\n<@11> (11)\n");
}

#[test]
fn roster_lines_without_reserves() {
    let members: Vec<u64> = vec![5, 6];
    let (registered, reserves) = roster_lines(&members);
    assert_eq!(registered, "<@5> (5)\n<@6> (6)\n");
    assert_eq!(reserves, "");
}

#[test]
fn roster_lines_empty() {
    let members: Vec<u64> = Vec::new();
    let (registered, reserves) = roster_lines(&members);
    assert_eq!(registered, "");
    assert_eq!(reserves, "");
}
