//! Operator-facing room references: resolving the string a command names a
//! room by — a room number, a raw message id, a `channel-message` id pair,
//! or a message URL — to the announcement message id, and building message
//! links.

use vstd::prelude::*;
use vstd::string::*;

use crate::cache::TrackedRoomCache;
use crate::store::{first_by_val, key_of, RosterStore};
use crate::text::{spec_dec_str, u64_to_string};

verus! {

// ---------------------------------------------------------------------------
// Decimal parsing.
// ---------------------------------------------------------------------------

/// Whether `c` is a decimal digit.
pub open spec fn is_digit(c: char) -> bool {
    48 <= c as int <= 57
}

/// The value of the digit `c`.
pub open spec fn digit_val(c: char) -> int {
    c as int - 48
}

/// Whether every character is a decimal digit.
pub open spec fn all_digits(s: Seq<char>) -> bool {
    forall|i: int| 0 <= i < s.len() ==> is_digit(#[trigger] s[i])
}

/// The value of a digit string, most significant digit first.
pub open spec fn digits_val(s: Seq<char>) -> int
    decreases s.len(),
{
    if s.len() == 0 {
        0
    } else {
        digits_val(s.drop_last()) * 10 + digit_val(s.last())
    }
}

/// What `u64` parsing accepts: an optional leading plus sign, then at least
/// one digit, with the value in range.
pub open spec fn spec_parse_u64_chars(s: Seq<char>) -> Option<u64> {
    let digits = if s.len() > 0 && s[0] == '+' {
        s.subrange(1, s.len() as int)
    } else {
        s
    };
    if digits.len() > 0 && all_digits(digits) && digits_val(digits) <= u64::MAX {
        Some(digits_val(digits) as u64)
    } else {
        None
    }
}

/// A digit string's value is never negative.
proof fn lemma_digits_val_nonneg(s: Seq<char>)
    requires
        all_digits(s),
    ensures
        digits_val(s) >= 0,
    decreases s.len(),
{
    if s.len() > 0 {
        let dl = s.drop_last();
        assert forall|i: int| 0 <= i < dl.len() implies is_digit(#[trigger] dl[i]) by {
            assert(s[i] == dl[i]);
        }
        lemma_digits_val_nonneg(dl);
    }
}

/// Extending a digit string never shrinks its value.
proof fn lemma_digits_val_prefix_le(s: Seq<char>, k: int)
    requires
        all_digits(s),
        0 <= k <= s.len(),
    ensures
        digits_val(s.subrange(0, k)) <= digits_val(s),
    decreases s.len() - k,
{
    if k == s.len() {
        assert(s.subrange(0, k) =~= s);
    } else {
        lemma_digits_val_prefix_le(s, k + 1);
        let a = s.subrange(0, k);
        let b = s.subrange(0, k + 1);
        assert(b.drop_last() =~= a);
        assert forall|i: int| 0 <= i < a.len() implies is_digit(#[trigger] a[i]) by {
            assert(s[i] == a[i]);
        }
        lemma_digits_val_nonneg(a);
        assert(is_digit(b.last()));
    }
}

/// Parses a `u64` the way the standard parser does: an optional plus sign,
/// then digits, rejecting anything else or a value out of range.
pub fn parse_u64(s: &str) -> (r: Option<u64>)
    ensures
        r == spec_parse_u64_chars(s@),
{
    let n = s.unicode_len();
    let start: usize = if n > 0 && s.get_char(0) == '+' {
        1
    } else {
        0
    };
    let ghost digits = if s@.len() > 0 && s@[0] == '+' {
        s@.subrange(1, s@.len() as int)
    } else {
        s@
    };
    proof {
        if start == 0 {
            assert(digits =~= s@.subrange(0, s@.len() as int));
        }
    }
    if start >= n {
        return None;
    }
    let mut acc: u64 = 0;
    let mut j: usize = start;
    while j < n
        invariant
            start <= j <= n,
            n == s@.len(),
            start <= 1,
            digits == s@.subrange(start as int, n as int),
            digits == (if s@.len() > 0 && s@[0] == '+' {
                s@.subrange(1, s@.len() as int)
            } else {
                s@
            }),
            digits.len() > 0,
            all_digits(digits.subrange(0, (j - start) as int)),
            acc == digits_val(digits.subrange(0, (j - start) as int)),
        decreases n - j,
    {
        let c = s.get_char(j);
        let cv = c as u32;
        let ghost pre = digits.subrange(0, (j - start) as int);
        let ghost ext = digits.subrange(0, (j - start + 1) as int);
        proof {
            assert(ext.drop_last() =~= pre);
            assert(ext.last() == s@[j as int]);
        }
        if cv < 48 || cv > 57 {
            proof {
                assert(digits[(j - start) as int] == c);
                assert(c as int == cv as int);
                assert(!is_digit(digits[(j - start) as int]));
                assert(!all_digits(digits));
                assert(spec_parse_u64_chars(s@) is None);
            }
            return None;
        }
        let d = (cv - 48) as u64;
        proof {
            assert forall|i: int| 0 <= i < ext.len() implies is_digit(#[trigger] ext[i]) by {
                if i < ext.len() - 1 {
                    assert(pre[i] == ext[i]);
                }
            }
        }
        if acc > (u64::MAX - d) / 10 {
            proof {
                assert(c as int == cv as int);
                assert(digit_val(ext.last()) == d);
                assert(digits_val(ext) == acc * 10 + d);
                assert(acc * 10 + d > u64::MAX) by (nonlinear_arith)
                    requires
                        acc > (u64::MAX - d) / 10,
                        d <= 9,
                        acc >= 0,
                ;
                if all_digits(digits) {
                    lemma_digits_val_prefix_le(digits, (j - start + 1) as int);
                    assert(digits_val(digits.subrange(0, (j - start + 1) as int)) <= digits_val(
                        digits,
                    ));
                }
                assert(spec_parse_u64_chars(s@) is None);
            }
            return None;
        }
        proof {
            assert(acc * 10 + d <= u64::MAX) by (nonlinear_arith)
                requires
                    acc <= (u64::MAX - d) / 10,
                    d <= 9,
                    acc >= 0,
            ;
        }
        acc = acc * 10 + d;
        j = j + 1;
    }
    proof {
        assert(digits.subrange(0, digits.len() as int) =~= digits);
    }
    Some(acc)
}

/// Parses a room number: what fits a signed 32-bit parse and can name a
/// room.  A value beyond that range is read as a message id instead.
pub fn parse_room_num(s: &str) -> (r: Option<u32>)
    ensures
        r == (match spec_parse_u64_chars(s@) {
            Some(v) => if v <= i32::MAX as u64 {
                Some(v as u32)
            } else {
                None::<u32>
            },
            None => None::<u32>,
        }),
{
    match parse_u64(s) {
        Some(v) => if v <= i32::MAX as u64 {
            Some(v as u32)
        } else {
            None
        },
        None => None,
    }
}

// ---------------------------------------------------------------------------
// Splitting.
// ---------------------------------------------------------------------------

/// `i` is the first occurrence of `c` in `s`.
pub open spec fn splits_at(s: Seq<char>, c: char, i: int) -> bool {
    0 <= i < s.len() && s[i] == c && (forall|k: int| 0 <= k < i ==> s[k] != c)
}

/// Splits at the first occurrence of `c`: the part before and the part
/// after.
fn split_once_at<'a>(s: &'a str, c: char) -> (r: Option<(&'a str, &'a str)>)
    ensures
        (r is None) <==> (forall|k: int| 0 <= k < s@.len() ==> s@[k] != c),
        r matches Some((a, b)) ==> exists|i: int|
            #[trigger] splits_at(s@, c, i) && a@ == s@.subrange(0, i) && b@ == s@.subrange(
                i + 1,
                s@.len() as int,
            ),
{
    let n = s.unicode_len();
    let mut i: usize = 0;
    while i < n
        invariant
            0 <= i <= n,
            n == s@.len(),
            forall|k: int| 0 <= k < i ==> s@[k] != c,
        decreases n - i,
    {
        if s.get_char(i) == c {
            let a = s.substring_char(0, i);
            let b = s.substring_char(i + 1, n);
            proof {
                assert(splits_at(s@, c, i as int));
            }
            return Some((a, b));
        }
        i = i + 1;
    }
    None
}

/// What a `channel-message` id pair parses to: both halves of the first
/// dash, each a `u64`.
pub open spec fn spec_parse_pair(s: Seq<char>) -> Option<(u64, u64)> {
    if exists|i: int| splits_at(s, '-', i) {
        let i = choose|i: int| splits_at(s, '-', i);
        match (
            spec_parse_u64_chars(s.subrange(0, i)),
            spec_parse_u64_chars(s.subrange(i + 1, s.len() as int)),
        ) {
            (Some(c), Some(m)) => Some((c, m)),
            _ => None,
        }
    } else {
        None
    }
}

/// The first occurrence of a character is one place.
proof fn lemma_splits_at_unique(s: Seq<char>, c: char, i: int, j: int)
    requires
        splits_at(s, c, i),
        splits_at(s, c, j),
    ensures
        i == j,
{
}

/// Whether `s` begins with `p`.
fn str_starts_with(s: &str, p: &str) -> (b: bool)
    ensures
        b == (s@.len() >= p@.len() && s@.subrange(0, p@.len() as int) == p@),
{
    let n = s.unicode_len();
    let m = p.unicode_len();
    if n < m {
        return false;
    }
    let mut i: usize = 0;
    while i < m
        invariant
            0 <= i <= m,
            m <= n,
            n == s@.len(),
            m == p@.len(),
            forall|k: int| 0 <= k < i ==> s@[k] == p@[k],
        decreases m - i,
    {
        if s.get_char(i) != p.get_char(i) {
            proof {
                if s@.subrange(0, p@.len() as int) == p@ {
                    assert(s@.subrange(0, m as int)[i as int] == s@[i as int]);
                    assert(false);
                }
            }
            return false;
        }
        i = i + 1;
    }
    proof {
        assert(s@.subrange(0, m as int) =~= p@);
    }
    true
}

/// What a message URL parses to: the exact announcement-link prefix, then
/// guild, channel and message ids separated by slashes.
pub open spec fn spec_parse_url(s: Seq<char>) -> Option<(u64, u64, u64)> {
    let p = "https://discord.com/channels/"@;
    if s.len() >= p.len() && s.subrange(0, p.len() as int) == p {
        let rest = s.subrange(p.len() as int, s.len() as int);
        if exists|i: int| splits_at(rest, '/', i) {
            let i = choose|i: int| splits_at(rest, '/', i);
            let tail = rest.subrange(i + 1, rest.len() as int);
            if exists|j: int| splits_at(tail, '/', j) {
                let j = choose|j: int| splits_at(tail, '/', j);
                match (
                    spec_parse_u64_chars(rest.subrange(0, i)),
                    spec_parse_u64_chars(tail.subrange(0, j)),
                    spec_parse_u64_chars(tail.subrange(j + 1, tail.len() as int)),
                ) {
                    (Some(g), Some(c), Some(m)) => Some((g, c, m)),
                    _ => None,
                }
            } else {
                None
            }
        } else {
            None
        }
    } else {
        None
    }
}

/// Parses a message URL.
pub fn parse_message_url(s: &str) -> (r: Option<(u64, u64, u64)>)
    ensures
        r == spec_parse_url(s@),
{
    let prefix = "https://discord.com/channels/";
    if !str_starts_with(s, prefix) {
        return None;
    }
    let n = s.unicode_len();
    let m = prefix.unicode_len();
    let rest = s.substring_char(m, n);
    match split_once_at(rest, '/') {
        None => {
            proof {
                if exists|i: int| splits_at(rest@, '/', i) {
                    let i = choose|i: int| splits_at(rest@, '/', i);
                    assert(rest@[i] == '/');
                }
            }
            None
        },
        Some((g_part, tail)) => {
            proof {
                let i = choose|i: int|
                    #[trigger] splits_at(rest@, '/', i) && g_part@ == rest@.subrange(0, i)
                        && tail@ == rest@.subrange(i + 1, rest@.len() as int);
                let i2 = choose|i2: int| splits_at(rest@, '/', i2);
                lemma_splits_at_unique(rest@, '/', i, i2);
            }
            match split_once_at(tail, '/') {
                None => {
                    proof {
                        if exists|j: int| splits_at(tail@, '/', j) {
                            let j = choose|j: int| splits_at(tail@, '/', j);
                            assert(tail@[j] == '/');
                        }
                    }
                    None
                },
                Some((c_part, m_part)) => {
                    proof {
                        let j = choose|j: int|
                            #[trigger] splits_at(tail@, '/', j) && c_part@ == tail@.subrange(0, j)
                                && m_part@ == tail@.subrange(j + 1, tail@.len() as int);
                        let j2 = choose|j2: int| splits_at(tail@, '/', j2);
                        lemma_splits_at_unique(tail@, '/', j, j2);
                    }
                    match (parse_u64(g_part), parse_u64(c_part), parse_u64(m_part)) {
                        (Some(g), Some(c), Some(m2)) => Some((g, c, m2)),
                        _ => None,
                    }
                },
            }
        },
    }
}

/// `s` with every `canary.` dropped, leftmost first: what the canary
/// subdomain of a pasted link is reduced to before URL parsing.
pub open spec fn spec_remove_canary(s: Seq<char>) -> Seq<char>
    decreases s.len(),
{
    if s.len() >= 7 && s.subrange(0, 7) == "canary."@ {
        spec_remove_canary(s.subrange(7, s.len() as int))
    } else if s.len() == 0 {
        s
    } else {
        seq![s[0]] + spec_remove_canary(s.subrange(1, s.len() as int))
    }
}

/// Drops every `canary.` from `s`, leftmost first.
pub fn remove_canary(s: &str) -> (r: String)
    ensures
        r@ == spec_remove_canary(s@),
{
    let n = s.unicode_len();
    let mut out = String::new();
    let mut i: usize = 0;
    proof {
        assert(s@.subrange(0, n as int) =~= s@);
        assert(Seq::<char>::empty() + spec_remove_canary(s@) =~= spec_remove_canary(s@));
    }
    while i < n
        invariant
            0 <= i <= n,
            n == s@.len(),
            spec_remove_canary(s@) == out@ + spec_remove_canary(s@.subrange(i as int, n as int)),
        decreases n - i,
    {
        let ghost t = s@.subrange(i as int, n as int);
        let is_match = n - i >= 7 && s.get_char(i) == 'c' && s.get_char(i + 1) == 'a' && s.get_char(
            i + 2,
        ) == 'n' && s.get_char(i + 3) == 'a' && s.get_char(i + 4) == 'r' && s.get_char(i + 5)
            == 'y' && s.get_char(i + 6) == '.';
        if is_match {
            proof {
                reveal_strlit("canary.");
                assert(t.subrange(0, 7) =~= "canary."@);
                assert(t.subrange(7, t.len() as int) =~= s@.subrange(i + 7, n as int));
            }
            i = i + 7;
        } else {
            proof {
                reveal_strlit("canary.");
                if t.len() >= 7 && t.subrange(0, 7) == "canary."@ {
                    assert(t.subrange(0, 7)[0] == t[0]);
                    assert(t.subrange(0, 7)[1] == t[1]);
                    assert(t.subrange(0, 7)[2] == t[2]);
                    assert(t.subrange(0, 7)[3] == t[3]);
                    assert(t.subrange(0, 7)[4] == t[4]);
                    assert(t.subrange(0, 7)[5] == t[5]);
                    assert(t.subrange(0, 7)[6] == t[6]);
                    assert(false);
                }
                assert(t.subrange(1, t.len() as int) =~= s@.subrange(i + 1, n as int));
            }
            let ghost out0 = out@;
            let piece = s.substring_char(i, i + 1);
            proof {
                assert(piece@ =~= seq![s@[i as int]]);
            }
            out.append(piece);
            proof {
                assert(out@ + spec_remove_canary(s@.subrange(i + 1, n as int)) =~= out0 + (seq![
                    t[0],
                ] + spec_remove_canary(s@.subrange(i + 1, n as int))));
            }
            i = i + 1;
        }
    }
    proof {
        assert(s@.subrange(n as int, n as int) =~= Seq::<char>::empty());
        assert(out@ + spec_remove_canary(Seq::<char>::empty()) =~= out@);
    }
    out
}

/// The announcement link text for a message in a guild's channel.
pub open spec fn spec_message_link(gid: int, cid: int, mid: int) -> Seq<char> {
    "https://discord.com/channels/"@ + spec_dec_str(gid) + "/"@ + spec_dec_str(cid) + "/"@
        + spec_dec_str(mid)
}

/// The link to a room's announcement, when the guild has a watched channel
/// configured; the cache supplies the channel.
pub fn get_message_link(message_id: u64, cache: &TrackedRoomCache, guild_id: u64) -> (r: Option<
    String,
>)
    ensures
        (r is Some) <==> (match key_of(cache.configs@, guild_id) {
            Some(c) => c.channel_id is Some,
            None => false,
        }),
        r matches Some(link) ==> link@ == spec_message_link(
            guild_id as int,
            key_of(cache.configs@, guild_id)->Some_0.channel_id->Some_0 as int,
            message_id as int,
        ),
{
    match cache.config_of(guild_id) {
        Some(c) => match c.channel_id {
            Some(ch) => {
                let mut s = String::from_str("https://discord.com/channels/");
                let g = u64_to_string(guild_id);
                s.append(g.as_str());
                s.append("/");
                let cs = u64_to_string(ch);
                s.append(cs.as_str());
                s.append("/");
                let ms = u64_to_string(message_id);
                s.append(ms.as_str());
                proof {
                    assert(s@ =~= spec_message_link(
                        guild_id as int,
                        ch as int,
                        message_id as int,
                    ));
                }
                Some(s)
            },
            None => None,
        },
        None => None,
    }
}

/// What resolving an operator's room reference yields, branch by branch in
/// the order tried: a room number known to the store, a `channel-message`
/// pair, a raw message id, and last a message URL with any canary subdomain
/// dropped.  The id branches pass the id through unchecked — the commands
/// re-query the store anyway.
pub open spec fn spec_resolve_room_ref(store: RosterStore, s: Seq<char>) -> Option<u64> {
    let by_num = match (match spec_parse_u64_chars(s) {
        Some(v) => if v <= i32::MAX as u64 {
            Some(v as u32)
        } else {
            None::<u32>
        },
        None => None::<u32>,
    }) {
        Some(num) => first_by_val(store.rooms@, num),
        None => None,
    };
    if by_num is Some {
        by_num
    } else if spec_parse_pair(s) is Some {
        Some(spec_parse_pair(s)->Some_0.1)
    } else if spec_parse_u64_chars(s) is Some {
        spec_parse_u64_chars(s)
    } else {
        match spec_parse_url(spec_remove_canary(s)) {
            Some(t) => Some(t.2),
            None => None,
        }
    }
}

/// Resolves the operator's room reference to an announcement message id.
pub fn resolve_room_ref(store: &RosterStore, input: &str) -> (r: Option<u64>)
    ensures
        r == spec_resolve_room_ref(*store, input@),
{
    if let Some(num) = parse_room_num(input) {
        if let Some(mid) = store.find_room_by_num(num) {
            return Some(mid);
        }
    }
    if let Some(pair) = parse_id_pair(input) {
        return Some(pair.1);
    }
    if let Some(m) = parse_u64(input) {
        return Some(m);
    }
    let cleaned = remove_canary(input);
    match parse_message_url(cleaned.as_str()) {
        Some(ids) => Some(ids.2),
        None => None,
    }
}

/// Parses a `channel-message` id pair.
pub fn parse_id_pair(s: &str) -> (r: Option<(u64, u64)>)
    ensures
        r == spec_parse_pair(s@),
{
    match split_once_at(s, '-') {
        None => {
            proof {
                if exists|i: int| splits_at(s@, '-', i) {
                    let i = choose|i: int| splits_at(s@, '-', i);
                    assert(s@[i] == '-');
                }
            }
            None
        },
        Some((a, b)) => {
            proof {
                let i = choose|i: int|
                    #[trigger] splits_at(s@, '-', i) && a@ == s@.subrange(0, i) && b@
                        == s@.subrange(i + 1, s@.len() as int);
                let j = choose|j: int| splits_at(s@, '-', j);
                lemma_splits_at_unique(s@, '-', i, j);
            }
            match (parse_u64(a), parse_u64(b)) {
                (Some(c), Some(m)) => Some((c, m)),
                _ => None,
            }
        },
    }
}

} // verus!
