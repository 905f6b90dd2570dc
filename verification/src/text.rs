//! Verified text building: decimal rendering and the user-visible strings —
//! mentions, roster lines, and the announcement footer with its
//! remaining-capacity counter.

use vstd::prelude::*;
use vstd::string::*;

use crate::{REACT_STR, ROOM_CAPACITY};

verus! {

/// The decimal digit character for `d` in `0..=9`.
pub open spec fn spec_digit_char(d: int) -> char {
    if d == 0 {
        '0'
    } else if d == 1 {
        '1'
    } else if d == 2 {
        '2'
    } else if d == 3 {
        '3'
    } else if d == 4 {
        '4'
    } else if d == 5 {
        '5'
    } else if d == 6 {
        '6'
    } else if d == 7 {
        '7'
    } else if d == 8 {
        '8'
    } else {
        '9'
    }
}

/// The decimal rendering of a non-negative number, most significant digit
/// first, without leading zeroes.
pub open spec fn spec_dec_str(n: int) -> Seq<char>
    decreases n,
{
    if n < 10 {
        seq![spec_digit_char(n)]
    } else {
        spec_dec_str(n / 10).push(spec_digit_char(n % 10))
    }
}

/// The decimal rendering of an integer: a minus sign for negative values.
pub open spec fn spec_int_str(n: int) -> Seq<char> {
    if n < 0 {
        seq!['-'] + spec_dec_str(-n)
    } else {
        spec_dec_str(n)
    }
}

/// One roster line: a mention of the participant followed by the raw id, as
/// the store records it.
pub open spec fn spec_user_line(uid: int) -> Seq<char> {
    "<@"@ + spec_int_str(uid) + "> ("@ + spec_int_str(uid) + ")\n"@
}

/// A mention of the participant.
pub open spec fn spec_mention(uid: int) -> Seq<char> {
    "<@"@ + spec_dec_str(uid) + ">"@
}

/// A room's announcement title.
pub open spec fn spec_room_title(num: int) -> Seq<char> {
    "Room #"@ + spec_dec_str(num)
}

/// A room announcement's description: who hosts, when.
pub open spec fn spec_host_description(uid: int, date: Seq<char>, time: Seq<char>) -> Seq<char> {
    spec_mention(uid) + " is hosting a room at **"@ + time + "** on **"@ + date + "!**"@
}

/// The announcement footer for a room currently holding `count` members.
pub open spec fn spec_footer_text(count: int) -> Seq<char> {
    spec_dec_str(ROOM_CAPACITY - count) + "/15 spots available | "@ + REACT_STR@
}

/// The single-character string for digit `d`.
fn digit_str(d: u64) -> (s: &'static str)
    requires
        d < 10,
    ensures
        s@ == seq![spec_digit_char(d as int)],
{
    let s: &'static str = if d == 0 {
        "0"
    } else if d == 1 {
        "1"
    } else if d == 2 {
        "2"
    } else if d == 3 {
        "3"
    } else if d == 4 {
        "4"
    } else if d == 5 {
        "5"
    } else if d == 6 {
        "6"
    } else if d == 7 {
        "7"
    } else if d == 8 {
        "8"
    } else {
        "9"
    };
    proof {
        reveal_strlit("0");
        reveal_strlit("1");
        reveal_strlit("2");
        reveal_strlit("3");
        reveal_strlit("4");
        reveal_strlit("5");
        reveal_strlit("6");
        reveal_strlit("7");
        reveal_strlit("8");
        reveal_strlit("9");
        assert(s@ =~= seq![spec_digit_char(d as int)]);
    }
    s
}

/// Renders `n` in decimal.
pub fn u64_to_string(n: u64) -> (s: String)
    ensures
        s@ == spec_dec_str(n as int),
    decreases n,
{
    if n < 10 {
        String::from_str(digit_str(n))
    } else {
        proof {
            assert(n / 10 < n);
            assert(n / 10 >= 1);
        }
        let mut s = u64_to_string(n / 10);
        s.append(digit_str(n % 10));
        proof {
            assert(spec_dec_str((n / 10) as int).push(spec_digit_char((n % 10) as int))
                =~= spec_dec_str((n / 10) as int) + seq![spec_digit_char((n % 10) as int)]);
        }
        s
    }
}

/// Renders `n` in decimal, with a minus sign when negative.
pub fn i64_to_string(n: i64) -> (s: String)
    ensures
        s@ == spec_int_str(n as int),
{
    if n >= 0 {
        u64_to_string(n as u64)
    } else {
        let mag: u64 = ((-(n + 1)) as u64) + 1;
        proof {
            assert(mag as int == -(n as int));
        }
        let digits = u64_to_string(mag);
        let mut s = String::from_str("-");
        s.append(digits.as_str());
        proof {
            reveal_strlit("-");
            assert(s@ =~= spec_int_str(n as int));
        }
        s
    }
}

/// One roster line for the registrations overview: mention plus raw id, as
/// the store records it.
pub fn format_user_str(uid: i64) -> (s: String)
    ensures
        s@ == spec_user_line(uid as int),
{
    let digits = i64_to_string(uid);
    let mut s = String::from_str("<@");
    s.append(digits.as_str());
    s.append("> (");
    s.append(digits.as_str());
    s.append(")\n");
    proof {
        assert(s@ =~= spec_user_line(uid as int));
    }
    s
}

/// A mention of the participant, for announcements.
pub fn user_mention(uid: u64) -> (s: String)
    ensures
        s@ == spec_mention(uid as int),
{
    let digits = u64_to_string(uid);
    let mut s = String::from_str("<@");
    s.append(digits.as_str());
    s.append(">");
    proof {
        assert(s@ =~= spec_mention(uid as int));
    }
    s
}

/// A room's announcement title.
pub fn room_title(num: u32) -> (s: String)
    ensures
        s@ == spec_room_title(num as int),
{
    let mut s = String::from_str("Room #");
    let digits = u64_to_string(num as u64);
    s.append(digits.as_str());
    proof {
        assert(s@ =~= spec_room_title(num as int));
    }
    s
}

/// Builds a room announcement's description.
pub fn host_description(host_uid: u64, date: &str, time: &str) -> (s: String)
    ensures
        s@ == spec_host_description(host_uid as int, date@, time@),
{
    let mut s = user_mention(host_uid);
    s.append(" is hosting a room at **");
    s.append(time);
    s.append("** on **");
    s.append(date);
    s.append("!**");
    proof {
        assert(s@ =~= spec_host_description(host_uid as int, date@, time@));
    }
    s
}

/// The announcement footer for a room currently holding `count` members:
/// the remaining capacity over the total, and the standing invitation.
pub fn footer_text(count: usize) -> (s: String)
    requires
        count <= ROOM_CAPACITY,
    ensures
        s@ == spec_footer_text(count as int),
{
    let remaining = ROOM_CAPACITY - count;
    let mut s = u64_to_string(remaining as u64);
    s.append("/15 spots available | ");
    s.append(REACT_STR);
    proof {
        assert(s@ =~= spec_footer_text(count as int));
    }
    s
}

} // verus!
