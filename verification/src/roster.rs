//! Roster overview: the text of the registrations listing — a heading naming
//! the room, the primary slots, and the reserve slots, split at the
//! primary-slot count in admission order.

use vstd::prelude::*;
use vstd::string::*;

use crate::text::{format_user_str, spec_dec_str, spec_user_line, u64_to_string};
use crate::PRIMARY_SLOTS;

verus! {

/// The concatenated roster lines for `members`, in order.
pub open spec fn spec_lines(members: Seq<u64>) -> Seq<char>
    decreases members.len(),
{
    if members.len() == 0 {
        Seq::empty()
    } else {
        spec_lines(members.drop_last()) + spec_user_line(members.last() as i64 as int)
    }
}

/// The overview heading: the room number, linking to the announcement when a
/// link is at hand, and a note when nobody signed up.
pub open spec fn spec_roster_description(
    num: int,
    link: Option<Seq<char>>,
    has_signups: bool,
) -> Seq<char> {
    let head = match link {
        Some(l) => "**[Signups for Room #"@ + spec_dec_str(num) + "]("@ + l + ")**"@,
        None => "**Signups for Room #"@ + spec_dec_str(num) + "**"@,
    };
    if has_signups {
        head
    } else {
        head + "\n\nNo signups yet."@
    }
}

/// Header of the primary field for a roster of `n` members.
pub open spec fn spec_registered_header(n: int) -> Seq<char> {
    "Registered ("@ + spec_dec_str(
        if n < PRIMARY_SLOTS {
            n
        } else {
            PRIMARY_SLOTS as int
        },
    ) + "/9)"@
}

/// Header of the reserve field for a roster of `n` members.
pub open spec fn spec_reserves_header(n: int) -> Seq<char> {
    "Reserves ("@ + spec_dec_str(n - PRIMARY_SLOTS) + "/6)"@
}

/// Builds the overview heading.
pub fn roster_description(num: u32, link: Option<&str>, has_signups: bool) -> (s: String)
    ensures
        s@ == spec_roster_description(
            num as int,
            match link {
                Some(l) => Some(l@),
                None => None,
            },
            has_signups,
        ),
{
    let digits = u64_to_string(num as u64);
    let mut s = match link {
        Some(l) => {
            let mut s = String::from_str("**[Signups for Room #");
            s.append(digits.as_str());
            s.append("](");
            s.append(l);
            s.append(")**");
            s
        },
        None => {
            let mut s = String::from_str("**Signups for Room #");
            s.append(digits.as_str());
            s.append("**");
            s
        },
    };
    if !has_signups {
        s.append("\n\nNo signups yet.");
    }
    proof {
        assert(s@ =~= spec_roster_description(
            num as int,
            match link {
                Some(l) => Some(l@),
                None => None,
            },
            has_signups,
        ));
    }
    s
}

/// Builds the primary field header.
pub fn registered_field_header(n: usize) -> (s: String)
    ensures
        s@ == spec_registered_header(n as int),
{
    let shown = if n < PRIMARY_SLOTS {
        n
    } else {
        PRIMARY_SLOTS
    };
    let mut s = String::from_str("Registered (");
    let digits = u64_to_string(shown as u64);
    s.append(digits.as_str());
    s.append("/9)");
    proof {
        assert(s@ =~= spec_registered_header(n as int));
    }
    s
}

/// Builds the reserve field header.
pub fn reserves_field_header(n: usize) -> (s: String)
    requires
        n > PRIMARY_SLOTS,
    ensures
        s@ == spec_reserves_header(n as int),
{
    let mut s = String::from_str("Reserves (");
    let digits = u64_to_string((n - PRIMARY_SLOTS) as u64);
    s.append(digits.as_str());
    s.append("/6)");
    proof {
        assert(s@ =~= spec_reserves_header(n as int));
    }
    s
}

/// Splits a roster into its primary and reserve lines: the first
/// [`PRIMARY_SLOTS`] members in admission order, then the rest.
pub fn roster_lines(members: &Vec<u64>) -> (r: (String, String))
    ensures
        r.0@ == spec_lines(
            members@.subrange(
                0,
                if members@.len() < PRIMARY_SLOTS {
                    members@.len() as int
                } else {
                    PRIMARY_SLOTS as int
                },
            ),
        ),
        r.1@ == if members@.len() > PRIMARY_SLOTS {
            spec_lines(members@.subrange(PRIMARY_SLOTS as int, members@.len() as int))
        } else {
            Seq::<char>::empty()
        },
{
    let cut = if members.len() < PRIMARY_SLOTS {
        members.len()
    } else {
        PRIMARY_SLOTS
    };
    let mut registered = String::new();
    let mut i: usize = 0;
    while i < cut
        invariant
            0 <= i <= cut,
            cut <= members@.len(),
            cut <= PRIMARY_SLOTS,
            registered@ == spec_lines(members@.subrange(0, i as int)),
        decreases cut - i,
    {
        proof {
            assert(members@.subrange(0, i + 1).drop_last() =~= members@.subrange(0, i as int));
        }
        let line = format_user_str(members[i] as i64);
        registered.append(line.as_str());
        i = i + 1;
    }
    let mut reserves = String::new();
    let mut j: usize = cut;
    while j < members.len()
        invariant
            cut <= j <= members@.len(),
            cut == if members@.len() < PRIMARY_SLOTS {
                members@.len() as int
            } else {
                PRIMARY_SLOTS as int
            },
            reserves@ == spec_lines(members@.subrange(cut as int, j as int)),
        decreases members@.len() - j,
    {
        proof {
            assert(members@.subrange(cut as int, j + 1).drop_last() =~= members@.subrange(
                cut as int,
                j as int,
            ));
        }
        let line = format_user_str(members[j] as i64);
        reserves.append(line.as_str());
        j = j + 1;
    }
    proof {
        if members@.len() <= PRIMARY_SLOTS {
            assert(members@.subrange(cut as int, members@.len() as int) =~= Seq::<u64>::empty());
        }
    }
    (registered, reserves)
}

} // verus!
