//! Roster store: the durable tables of rooms, memberships and guild
//! configurations, modelled as plain vectors of rows.
//!
//! The store is the source of truth for capacity and admission order.  A
//! membership row is the pair `(room message id, participant id)`; rows sit in
//! admission order, so a room's roster is the subsequence of rows carrying its
//! message id.  The store keeps the `(room, participant)` pair unique — the
//! analogue of the unique index that makes a duplicate concurrent insert
//! benign — but deliberately not capacity or cross-room exclusivity, which are
//! the validator's business.

use vstd::prelude::*;

use crate::cache::GuildConfig;

verus! {

// ---------------------------------------------------------------------------
// Spec views of row tables.
//
// Every table is a sequence of `(u64 key, value)` rows.  Lookups return the
// first matching row; deletions drop every matching row (there is at most one
// in a well-formed store).  All definitions recurse on `drop_last` so that
// appending a row unfolds them directly.
// ---------------------------------------------------------------------------

/// No two rows share a key.
pub open spec fn distinct_keys<T>(s: Seq<(u64, T)>) -> bool {
    forall|i: int, j: int| 0 <= i < j < s.len() ==> s[i].0 != s[j].0
}

/// No two rows are equal.
pub open spec fn distinct_rows<T>(s: Seq<(u64, T)>) -> bool {
    forall|i: int, j: int| 0 <= i < j < s.len() ==> s[i] != s[j]
}

/// Whether some row carries key `k`.
pub open spec fn has_key<T>(s: Seq<(u64, T)>, k: u64) -> bool {
    exists|i: int| 0 <= i < s.len() && (#[trigger] s[i]).0 == k
}

/// The value of the first row carrying key `k`.
pub open spec fn key_of<T>(s: Seq<(u64, T)>, k: u64) -> Option<T>
    decreases s.len(),
{
    if s.len() == 0 {
        None
    } else {
        let rest = key_of(s.drop_last(), k);
        if rest is Some {
            rest
        } else if s.last().0 == k {
            Some(s.last().1)
        } else {
            None
        }
    }
}

/// The key of the first row whose value is `v`.
pub open spec fn first_by_val<T>(s: Seq<(u64, T)>, v: T) -> Option<u64>
    decreases s.len(),
{
    if s.len() == 0 {
        None
    } else {
        let rest = first_by_val(s.drop_last(), v);
        if rest is Some {
            rest
        } else if s.last().1 == v {
            Some(s.last().0)
        } else {
            None
        }
    }
}

/// The rows left once every row keyed `k` is dropped.
pub open spec fn without_key<T>(s: Seq<(u64, T)>, k: u64) -> Seq<(u64, T)>
    decreases s.len(),
{
    if s.len() == 0 {
        s
    } else {
        let rest = without_key(s.drop_last(), k);
        if s.last().0 == k {
            rest
        } else {
            rest.push(s.last())
        }
    }
}

/// The rows left once the exact row `(k, v)` is dropped.
pub open spec fn without_row<T>(s: Seq<(u64, T)>, k: u64, v: T) -> Seq<(u64, T)>
    decreases s.len(),
{
    if s.len() == 0 {
        s
    } else {
        let rest = without_row(s.drop_last(), k, v);
        if s.last() == (k, v) {
            rest
        } else {
            rest.push(s.last())
        }
    }
}

// ---------------------------------------------------------------------------
// Spec views of the membership table in particular.
// ---------------------------------------------------------------------------

/// The participants of room `mid`, in admission order.
pub open spec fn members_of(s: Seq<(u64, u64)>, mid: u64) -> Seq<u64>
    decreases s.len(),
{
    if s.len() == 0 {
        Seq::empty()
    } else {
        let rest = members_of(s.drop_last(), mid);
        if s.last().0 == mid {
            rest.push(s.last().1)
        } else {
            rest
        }
    }
}

/// How many memberships room `mid` holds.
pub open spec fn member_count(s: Seq<(u64, u64)>, mid: u64) -> nat {
    members_of(s, mid).len()
}

/// Whether `uid` holds a membership in room `mid`.
pub open spec fn is_member(s: Seq<(u64, u64)>, mid: u64, uid: u64) -> bool {
    s.contains((mid, uid))
}

/// The room of `uid`'s earliest membership row, if any.
pub open spec fn first_room_of(s: Seq<(u64, u64)>, uid: u64) -> Option<u64> {
    first_by_val(s, uid)
}

/// Cross-room exclusivity: no participant holds two membership rows.
pub open spec fn exclusive(s: Seq<(u64, u64)>) -> bool {
    forall|i: int, j: int| 0 <= i < j < s.len() ==> s[i].1 != s[j].1
}

// ---------------------------------------------------------------------------
// Lemmas about the spec views.
// ---------------------------------------------------------------------------

proof fn lemma_contains_from_drop_last<T>(s: Seq<T>, q: T)
    requires
        s.len() > 0,
        s.drop_last().contains(q),
    ensures
        s.contains(q),
{
    let i = choose|i: int| 0 <= i < s.drop_last().len() && s.drop_last()[i] == q;
    assert(s[i] == q);
}

proof fn lemma_contains_split<T>(s: Seq<T>, q: T)
    requires
        s.len() > 0,
        s.contains(q),
    ensures
        s.drop_last().contains(q) || s.last() == q,
{
    let i = choose|i: int| 0 <= i < s.len() && s[i] == q;
    if i < s.len() - 1 {
        assert(s.drop_last()[i] == q);
    }
}

/// A room's roster never has more members than the table has rows.
pub proof fn lemma_member_count_le(s: Seq<(u64, u64)>, mid: u64)
    ensures
        member_count(s, mid) <= s.len(),
    decreases s.len(),
{
    if s.len() > 0 {
        lemma_member_count_le(s.drop_last(), mid);
    }
}

/// Appending a row extends exactly the roster of its room.
pub proof fn lemma_members_push(s: Seq<(u64, u64)>, p: (u64, u64), mid: u64)
    ensures
        members_of(s.push(p), mid) == if p.0 == mid {
            members_of(s, mid).push(p.1)
        } else {
            members_of(s, mid)
        },
{
    assert(s.push(p).drop_last() =~= s);
}

/// Membership after appending a row.
pub proof fn lemma_is_member_push(s: Seq<(u64, u64)>, p: (u64, u64), mid: u64, uid: u64)
    ensures
        is_member(s.push(p), mid, uid) <==> (is_member(s, mid, uid) || p == (mid, uid)),
{
    if is_member(s, mid, uid) {
        let i = choose|i: int| 0 <= i < s.len() && s[i] == (mid, uid);
        assert(s.push(p)[i] == (mid, uid));
    }
    if p == (mid, uid) {
        assert(s.push(p)[s.len() as int] == (mid, uid));
    }
    if is_member(s.push(p), mid, uid) {
        let i = choose|i: int| 0 <= i < s.push(p).len() && s.push(p)[i] == (mid, uid);
        if i < s.len() {
            assert(s[i] == (mid, uid));
        }
    }
}

/// Value search after appending a row: an earlier hit wins.
pub proof fn lemma_first_by_val_push<T>(s: Seq<(u64, T)>, p: (u64, T), v: T)
    ensures
        first_by_val(s.push(p), v) == (if first_by_val(s, v) is Some {
            first_by_val(s, v)
        } else if p.1 == v {
            Some(p.0)
        } else {
            None::<u64>
        }),
{
    assert(s.push(p).drop_last() =~= s);
}

/// Deleting a row never grows a roster.
pub proof fn lemma_without_row_count_le(s: Seq<(u64, u64)>, mid: u64, uid: u64, m: u64)
    ensures
        member_count(without_row(s, mid, uid), m) <= member_count(s, m),
    decreases s.len(),
{
    if s.len() > 0 {
        let dl = s.drop_last();
        lemma_without_row_count_le(dl, mid, uid, m);
        if s.last() == (mid, uid) {
        } else {
            lemma_members_push(without_row(dl, mid, uid), s.last(), m);
        }
    }
}

/// A lookup answers out of the first half of a split table if it can.
pub proof fn lemma_key_of_concat<T>(a: Seq<(u64, T)>, b: Seq<(u64, T)>, k: u64)
    ensures
        key_of(a + b, k) == if key_of(a, k) is Some {
            key_of(a, k)
        } else {
            key_of(b, k)
        },
    decreases b.len(),
{
    if b.len() == 0 {
        assert(a + b =~= a);
    } else {
        lemma_key_of_concat(a, b.drop_last(), k);
        assert((a + b).drop_last() =~= a + b.drop_last());
    }
}

/// A value search answers out of the first half of a split table if it can.
pub proof fn lemma_first_by_val_concat<T>(a: Seq<(u64, T)>, b: Seq<(u64, T)>, v: T)
    ensures
        first_by_val(a + b, v) == if first_by_val(a, v) is Some {
            first_by_val(a, v)
        } else {
            first_by_val(b, v)
        },
    decreases b.len(),
{
    if b.len() == 0 {
        assert(a + b =~= a);
    } else {
        lemma_first_by_val_concat(a, b.drop_last(), v);
        assert((a + b).drop_last() =~= a + b.drop_last());
    }
}

/// Looking a key up in a one-row table.
pub proof fn lemma_key_of_singleton<T>(p: (u64, T), k: u64)
    ensures
        key_of(seq![p], k) == if p.0 == k {
            Some(p.1)
        } else {
            None::<T>
        },
{
    let single = seq![p];
    assert(single.len() == 1);
    assert(single.drop_last() =~= Seq::<(u64, T)>::empty());
    assert(key_of(Seq::<(u64, T)>::empty(), k) is None);
    assert(single.last() == p);
}

/// A lookup succeeds exactly when the key is present, and returns a held row.
pub proof fn lemma_key_of_props<T>(s: Seq<(u64, T)>, k: u64)
    ensures
        (key_of(s, k) is Some) <==> has_key(s, k),
        key_of(s, k) is Some ==> s.contains((k, key_of(s, k)->Some_0)),
    decreases s.len(),
{
    if s.len() == 0 {
    } else {
        let dl = s.drop_last();
        lemma_key_of_props(dl, k);
        if has_key(s, k) && !(key_of(s, k) is Some) {
            let i = choose|i: int| 0 <= i < s.len() && (#[trigger] s[i]).0 == k;
            if i < s.len() - 1 {
                assert(dl[i].0 == k);
                assert(has_key(dl, k));
            }
            assert(false);
        }
        if key_of(dl, k) is Some {
            lemma_contains_from_drop_last(s, (k, key_of(dl, k)->Some_0));
        } else if key_of(s, k) is Some {
            assert(s[s.len() - 1] == (k, key_of(s, k)->Some_0));
        }
        if key_of(s, k) is Some && !has_key(s, k) {
            let i = choose|i: int| 0 <= i < s.len() && s[i] == (k, key_of(s, k)->Some_0);
            assert((#[trigger] s[i]).0 == k);
        }
    }
}

/// A value search fails exactly when no row holds the value, and otherwise
/// returns the key of a held row.
pub proof fn lemma_first_by_val_props<T>(s: Seq<(u64, T)>, v: T)
    ensures
        (first_by_val(s, v) is None) <==> (forall|i: int|
            0 <= i < s.len() ==> (#[trigger] s[i]).1 != v),
        first_by_val(s, v) is Some ==> s.contains((first_by_val(s, v)->Some_0, v)),
    decreases s.len(),
{
    if s.len() == 0 {
    } else {
        let dl = s.drop_last();
        lemma_first_by_val_props(dl, v);
        if first_by_val(s, v) is None {
            assert forall|i: int| 0 <= i < s.len() implies (#[trigger] s[i]).1 != v by {
                if i < s.len() - 1 {
                    assert(dl[i] == s[i]);
                }
            }
        }
        if first_by_val(dl, v) is Some {
            lemma_contains_from_drop_last(s, (first_by_val(dl, v)->Some_0, v));
        } else if first_by_val(s, v) is Some {
            assert(s[s.len() - 1] == (first_by_val(s, v)->Some_0, v));
        }
        if (forall|i: int| 0 <= i < s.len() ==> (#[trigger] s[i]).1 != v) && s.len() > 0 {
            assert forall|i: int| 0 <= i < dl.len() implies (#[trigger] dl[i]).1 != v by {
                assert(s[i] == dl[i]);
            }
        }
    }
}

/// What deleting a key leaves behind: the other rows, in order, with lookups
/// of other keys untouched.
pub proof fn lemma_without_key<T>(s: Seq<(u64, T)>, k: u64)
    ensures
        forall|q: (u64, T)| #[trigger]
            without_key(s, k).contains(q) <==> (s.contains(q) && q.0 != k),
        distinct_keys(s) ==> distinct_keys(without_key(s, k)),
        distinct_rows(s) ==> distinct_rows(without_key(s, k)),
        !has_key(without_key(s, k), k),
        forall|k2: u64| k2 != k ==> key_of(without_key(s, k), k2) == key_of(s, k2),
    decreases s.len(),
{
    if s.len() == 0 {
    } else {
        let dl = s.drop_last();
        let w = without_key(s, k);
        let wdl = without_key(dl, k);
        lemma_without_key(dl, k);
        if s.last().0 == k {
            assert(w == wdl);
        } else {
            assert(w == wdl.push(s.last()));
            assert(w.drop_last() =~= wdl);
            assert(w.last() == s.last());
        }
        assert forall|q: (u64, T)| #[trigger] w.contains(q) implies (s.contains(q) && q.0 != k) by {
            if s.last().0 == k {
                lemma_contains_from_drop_last(s, q);
            } else {
                lemma_contains_split(w, q);
                if wdl.contains(q) {
                    lemma_contains_from_drop_last(s, q);
                } else {
                    assert(s[s.len() - 1] == q);
                }
            }
        }
        assert forall|q: (u64, T)| s.contains(q) && q.0 != k implies #[trigger] w.contains(q) by {
            lemma_contains_split(s, q);
            if dl.contains(q) {
                if s.last().0 == k {
                    assert(w == wdl);
                } else {
                    lemma_contains_from_drop_last(w, q);
                }
            } else {
                assert(w.last() == q);
                assert(w[w.len() - 1] == q);
            }
        }
        if distinct_keys(s) {
            assert forall|i: int, j: int| 0 <= i < j < w.len() implies w[i].0 != w[j].0 by {
                if s.last().0 != k && j == w.len() - 1 {
                    assert(w[i] == wdl[i]);
                    assert(wdl.contains(wdl[i]));
                    assert(dl.contains(w[i]));
                    let x = choose|x: int| 0 <= x < dl.len() && dl[x] == w[i];
                    assert(s[x] == w[i]);
                    assert(s[s.len() - 1] == w[j]);
                } else {
                    assert(w[i] == wdl[i] && w[j] == wdl[j]);
                }
            }
        }
        if distinct_rows(s) {
            assert forall|i: int, j: int| 0 <= i < j < w.len() implies w[i] != w[j] by {
                if s.last().0 != k && j == w.len() - 1 {
                    assert(w[i] == wdl[i]);
                    assert(wdl.contains(wdl[i]));
                    assert(dl.contains(w[i]));
                    let x = choose|x: int| 0 <= x < dl.len() && dl[x] == w[i];
                    assert(s[x] == w[i]);
                    assert(s[s.len() - 1] == w[j]);
                } else {
                    assert(w[i] == wdl[i] && w[j] == wdl[j]);
                }
            }
        }
        if has_key(w, k) {
            let i = choose|i: int| 0 <= i < w.len() && (#[trigger] w[i]).0 == k;
            assert(w.contains(w[i]));
        }
        assert forall|k2: u64| k2 != k implies key_of(w, k2) == key_of(s, k2) by {
            assert(key_of(wdl, k2) == key_of(dl, k2));
        }
    }
}

/// What deleting one membership row leaves behind: every other row, in order;
/// other rooms' rosters are untouched, and the room loses exactly the one
/// member when the row was present.
pub proof fn lemma_without_row(s: Seq<(u64, u64)>, mid: u64, uid: u64)
    ensures
        forall|q: (u64, u64)| #[trigger]
            without_row(s, mid, uid).contains(q) <==> (s.contains(q) && q != (mid, uid)),
        distinct_rows(s) ==> distinct_rows(without_row(s, mid, uid)),
        exclusive(s) ==> exclusive(without_row(s, mid, uid)),
        forall|m2: u64|
            m2 != mid ==> members_of(without_row(s, mid, uid), m2) == members_of(s, m2),
        distinct_rows(s) && is_member(s, mid, uid) ==> member_count(without_row(s, mid, uid), mid)
            + 1 == member_count(s, mid),
        !is_member(s, mid, uid) ==> without_row(s, mid, uid) == s,
    decreases s.len(),
{
    if s.len() == 0 {
        assert(without_row(s, mid, uid) =~= s);
    } else {
        let dl = s.drop_last();
        let w = without_row(s, mid, uid);
        let wdl = without_row(dl, mid, uid);
        lemma_without_row(dl, mid, uid);
        if s.last() == (mid, uid) {
            assert(w == wdl);
        } else {
            assert(w == wdl.push(s.last()));
            assert(w.drop_last() =~= wdl);
            assert(w.last() == s.last());
        }
        assert forall|q: (u64, u64)| #[trigger]
            w.contains(q) implies (s.contains(q) && q != (mid, uid)) by {
            if s.last() == (mid, uid) {
                lemma_contains_from_drop_last(s, q);
            } else {
                lemma_contains_split(w, q);
                if wdl.contains(q) {
                    lemma_contains_from_drop_last(s, q);
                } else {
                    assert(s[s.len() - 1] == q);
                }
            }
        }
        assert forall|q: (u64, u64)| s.contains(q) && q != (mid, uid) implies #[trigger]
            w.contains(q) by {
            lemma_contains_split(s, q);
            if dl.contains(q) {
                if s.last() == (mid, uid) {
                    assert(w == wdl);
                } else {
                    lemma_contains_from_drop_last(w, q);
                }
            } else {
                assert(w.last() == q);
                assert(w[w.len() - 1] == q);
            }
        }
        if distinct_rows(s) {
            assert forall|i: int, j: int| 0 <= i < j < w.len() implies w[i] != w[j] by {
                if s.last() != (mid, uid) && j == w.len() - 1 {
                    assert(w[i] == wdl[i]);
                    assert(wdl.contains(wdl[i]));
                    assert(dl.contains(w[i]));
                    let x = choose|x: int| 0 <= x < dl.len() && dl[x] == w[i];
                    assert(s[x] == w[i]);
                    assert(s[s.len() - 1] == w[j]);
                } else {
                    assert(w[i] == wdl[i] && w[j] == wdl[j]);
                }
            }
        }
        if exclusive(s) {
            assert forall|i: int, j: int| 0 <= i < j < w.len() implies w[i].1 != w[j].1 by {
                if s.last() != (mid, uid) && j == w.len() - 1 {
                    assert(w[i] == wdl[i]);
                    assert(wdl.contains(wdl[i]));
                    assert(dl.contains(w[i]));
                    let x = choose|x: int| 0 <= x < dl.len() && dl[x] == w[i];
                    assert(s[x] == w[i]);
                    assert(s[s.len() - 1] == w[j]);
                } else {
                    assert(w[i] == wdl[i] && w[j] == wdl[j]);
                }
            }
        }
        assert forall|m2: u64| m2 != mid implies members_of(w, m2) == members_of(s, m2) by {
            assert(members_of(wdl, m2) == members_of(dl, m2));
            if s.last() != (mid, uid) {
                lemma_members_push(wdl, s.last(), m2);
            }
        }
        if s.last() == (mid, uid) {
            if is_member(dl, mid, uid) {
                let i = choose|i: int| 0 <= i < dl.len() && dl[i] == (mid, uid);
                assert(s[i] == (mid, uid));
                if distinct_rows(s) {
                    assert(s[s.len() - 1] == (mid, uid));
                    assert(false);
                }
            }
            if distinct_rows(s) {
                assert(w == wdl);
                assert(wdl == dl);
                assert(members_of(s, mid) == members_of(dl, mid).push(uid));
            }
            assert(is_member(s, mid, uid)) by {
                assert(s[s.len() - 1] == (mid, uid));
            }
        } else {
            lemma_members_push(wdl, s.last(), mid);
            if is_member(s, mid, uid) {
                lemma_contains_split(s, (mid, uid));
                assert(is_member(dl, mid, uid));
            }
            if !is_member(s, mid, uid) {
                if is_member(dl, mid, uid) {
                    lemma_contains_from_drop_last(s, (mid, uid));
                }
                assert(wdl == dl);
                assert(dl.push(s.last()) =~= s);
            }
        }
    }
}

// ---------------------------------------------------------------------------
// The store itself.
// ---------------------------------------------------------------------------

/// Outcome of the conditional membership insert.
#[derive(Debug, Clone, Copy, PartialEq, Eq, Structural)]
pub enum InsertOutcome {
    /// The row was inserted; the member holds this admission sequence
    /// (1-based position in the room's roster).
    Inserted { seq: usize },
    /// The row already existed; nothing was written.
    Conflict,
    /// No room is anchored to the message; nothing was written.
    NoRoom,
}

/// The rows of `v` whose key is not `k`, in order.
pub(crate) fn rows_without_key<T: Copy>(v: &Vec<(u64, T)>, k: u64) -> (w: Vec<(u64, T)>)
    ensures
        w@ == without_key(v@, k),
{
    let mut w: Vec<(u64, T)> = Vec::new();
    let mut i: usize = 0;
    while i < v.len()
        invariant
            0 <= i <= v@.len(),
            w@ == without_key(v@.subrange(0, i as int), k),
        decreases v@.len() - i,
    {
        proof {
            assert(v@.subrange(0, i + 1).drop_last() =~= v@.subrange(0, i as int));
        }
        if v[i].0 != k {
            w.push(v[i]);
        }
        i = i + 1;
    }
    proof {
        assert(v@.subrange(0, v@.len() as int) =~= v@);
    }
    w
}

/// Durable state: rooms, membership rows in admission order, and per-guild
/// configuration.
pub struct RosterStore {
    /// `(announcement message id, room number)`, one row per live room.
    pub rooms: Vec<(u64, u32)>,
    /// `(announcement message id, participant id)`, in admission order.
    pub signups: Vec<(u64, u64)>,
    /// `(guild id, configuration)`, one row per guild.
    pub configs: Vec<(u64, GuildConfig)>,
    /// Room number the next created room will receive.
    pub next_num: u32,
}

impl RosterStore {
    /// Store well-formedness: room ids are unique, membership rows are unique
    /// pairs, every membership belongs to a live room, guild rows are unique,
    /// and every room number was drawn from the counter.
    pub open spec fn wf(self) -> bool {
        &&& distinct_keys(self.rooms@)
        &&& distinct_rows(self.signups@)
        &&& forall|i: int|
            0 <= i < self.signups@.len() ==> has_key(
                self.rooms@,
                (#[trigger] self.signups@[i]).0,
            )
        &&& distinct_keys(self.configs@)
        &&& forall|i: int| 0 <= i < self.rooms@.len() ==> (#[trigger] self.rooms@[i]).1
            < self.next_num
    }

    /// What `find_membership` answers: the room and room number of the
    /// participant's earliest membership.
    pub open spec fn find_membership_spec(self, uid: u64) -> Option<(u64, u32)> {
        match first_room_of(self.signups@, uid) {
            None => None,
            Some(m) => match key_of(self.rooms@, m) {
                None => None,
                Some(n) => Some((m, n)),
            },
        }
    }

    /// An empty store, numbering its first room 1.
    pub fn new() -> (s: RosterStore)
        ensures
            s.wf(),
            s.rooms@.len() == 0,
            s.signups@.len() == 0,
            s.configs@.len() == 0,
            s.next_num == 1,
    {
        RosterStore { rooms: Vec::new(), signups: Vec::new(), configs: Vec::new(), next_num: 1 }
    }

    /// Whether a room is anchored to message `mid`.
    pub fn has_room(&self, mid: u64) -> (b: bool)
        ensures
            b == has_key(self.rooms@, mid),
    {
        let mut i: usize = 0;
        while i < self.rooms.len()
            invariant
                0 <= i <= self.rooms@.len(),
                forall|m: int| 0 <= m < i ==> (#[trigger] self.rooms@[m]).0 != mid,
            decreases self.rooms@.len() - i,
        {
            if self.rooms[i].0 == mid {
                return true;
            }
            i = i + 1;
        }
        false
    }

    /// The room number of the room anchored to message `mid`.
    pub fn room_num(&self, mid: u64) -> (r: Option<u32>)
        ensures
            r == key_of(self.rooms@, mid),
    {
        let s = Ghost(self.rooms@);
        let mut i: usize = 0;
        while i < self.rooms.len()
            invariant
                0 <= i <= s@.len(),
                s@ == self.rooms@,
                key_of(s@.subrange(0, i as int), mid) is None,
            decreases s@.len() - i,
        {
            proof {
                assert(s@.subrange(0, i + 1).drop_last() =~= s@.subrange(0, i as int));
            }
            if self.rooms[i].0 == mid {
                proof {
                    assert(s@ =~= s@.subrange(0, i + 1) + s@.subrange(i + 1, s@.len() as int));
                    lemma_key_of_concat(
                        s@.subrange(0, i + 1),
                        s@.subrange(i + 1, s@.len() as int),
                        mid,
                    );
                }
                return Some(self.rooms[i].1);
            }
            i = i + 1;
        }
        proof {
            assert(s@.subrange(0, s@.len() as int) =~= s@);
        }
        None
    }

    /// The message id of the first room carrying room number `num`.
    pub fn find_room_by_num(&self, num: u32) -> (r: Option<u64>)
        ensures
            r == first_by_val(self.rooms@, num),
    {
        let s = Ghost(self.rooms@);
        let mut i: usize = 0;
        while i < self.rooms.len()
            invariant
                0 <= i <= s@.len(),
                s@ == self.rooms@,
                first_by_val(s@.subrange(0, i as int), num) is None,
            decreases s@.len() - i,
        {
            proof {
                assert(s@.subrange(0, i + 1).drop_last() =~= s@.subrange(0, i as int));
            }
            if self.rooms[i].1 == num {
                proof {
                    assert(s@ =~= s@.subrange(0, i + 1) + s@.subrange(i + 1, s@.len() as int));
                    lemma_first_by_val_concat(
                        s@.subrange(0, i + 1),
                        s@.subrange(i + 1, s@.len() as int),
                        num,
                    );
                }
                return Some(self.rooms[i].0);
            }
            i = i + 1;
        }
        proof {
            assert(s@.subrange(0, s@.len() as int) =~= s@);
        }
        None
    }

    /// Authoritative membership count for room `mid`.
    pub fn count_memberships(&self, mid: u64) -> (n: usize)
        ensures
            n == member_count(self.signups@, mid),
    {
        let mut n: usize = 0;
        let mut i: usize = 0;
        while i < self.signups.len()
            invariant
                0 <= i <= self.signups@.len(),
                n == member_count(self.signups@.subrange(0, i as int), mid),
                n <= i,
            decreases self.signups@.len() - i,
        {
            proof {
                assert(self.signups@.subrange(0, i + 1).drop_last() =~= self.signups@.subrange(
                    0,
                    i as int,
                ));
            }
            if self.signups[i].0 == mid {
                n = n + 1;
            }
            i = i + 1;
        }
        proof {
            assert(self.signups@.subrange(0, self.signups@.len() as int) =~= self.signups@);
        }
        n
    }

    /// Whether `uid` already holds a membership in room `mid`.
    pub fn exists_membership(&self, mid: u64, uid: u64) -> (b: bool)
        ensures
            b == is_member(self.signups@, mid, uid),
    {
        let mut i: usize = 0;
        while i < self.signups.len()
            invariant
                0 <= i <= self.signups@.len(),
                forall|k: int| 0 <= k < i ==> #[trigger] self.signups@[k] != (mid, uid),
            decreases self.signups@.len() - i,
        {
            if self.signups[i].0 == mid && self.signups[i].1 == uid {
                assert(self.signups@[i as int] == (mid, uid));
                return true;
            }
            i = i + 1;
        }
        false
    }

    /// The room and room number of `uid`'s membership, if any: the
    /// cross-room exclusivity query.
    pub fn find_membership(&self, uid: u64) -> (r: Option<(u64, u32)>)
        ensures
            r == self.find_membership_spec(uid),
    {
        let s = Ghost(self.signups@);
        let mut i: usize = 0;
        while i < self.signups.len()
            invariant
                0 <= i <= s@.len(),
                s@ == self.signups@,
                first_by_val(s@.subrange(0, i as int), uid) is None,
            decreases s@.len() - i,
        {
            proof {
                assert(s@.subrange(0, i + 1).drop_last() =~= s@.subrange(0, i as int));
            }
            if self.signups[i].1 == uid {
                proof {
                    assert(s@ =~= s@.subrange(0, i + 1) + s@.subrange(i + 1, s@.len() as int));
                    lemma_first_by_val_concat(
                        s@.subrange(0, i + 1),
                        s@.subrange(i + 1, s@.len() as int),
                        uid,
                    );
                }
                let mid = self.signups[i].0;
                return match self.room_num(mid) {
                    Some(n) => Some((mid, n)),
                    None => None,
                };
            }
            i = i + 1;
        }
        proof {
            assert(s@.subrange(0, s@.len() as int) =~= s@);
        }
        None
    }

    /// The roster of room `mid`, in admission order.
    pub fn roster(&self, mid: u64) -> (v: Vec<u64>)
        ensures
            v@ == members_of(self.signups@, mid),
    {
        let mut v: Vec<u64> = Vec::new();
        let mut i: usize = 0;
        while i < self.signups.len()
            invariant
                0 <= i <= self.signups@.len(),
                v@ == members_of(self.signups@.subrange(0, i as int), mid),
            decreases self.signups@.len() - i,
        {
            proof {
                assert(self.signups@.subrange(0, i + 1).drop_last() =~= self.signups@.subrange(
                    0,
                    i as int,
                ));
            }
            if self.signups[i].0 == mid {
                v.push(self.signups[i].1);
            }
            i = i + 1;
        }
        proof {
            assert(self.signups@.subrange(0, self.signups@.len() as int) =~= self.signups@);
        }
        v
    }

    /// The message ids of all live rooms, for the cache bootstrap.
    pub fn list_rooms(&self) -> (v: Vec<u64>)
        ensures
            v@.len() == self.rooms@.len(),
            forall|i: int| 0 <= i < v@.len() ==> v@[i] == (#[trigger] self.rooms@[i]).0,
    {
        let mut v: Vec<u64> = Vec::new();
        let mut i: usize = 0;
        while i < self.rooms.len()
            invariant
                0 <= i <= self.rooms@.len(),
                v@.len() == i,
                forall|k: int| 0 <= k < i ==> v@[k] == (#[trigger] self.rooms@[k]).0,
            decreases self.rooms@.len() - i,
        {
            v.push(self.rooms[i].0);
            i = i + 1;
        }
        v
    }

    /// All guild configuration rows, for the cache bootstrap.
    pub fn list_configs(&self) -> (v: Vec<(u64, GuildConfig)>)
        ensures
            v@ == self.configs@,
    {
        let mut v: Vec<(u64, GuildConfig)> = Vec::new();
        let mut i: usize = 0;
        while i < self.configs.len()
            invariant
                0 <= i <= self.configs@.len(),
                v@ == self.configs@.subrange(0, i as int),
            decreases self.configs@.len() - i,
        {
            v.push(self.configs[i]);
            proof {
                assert(v@ =~= self.configs@.subrange(0, i + 1));
            }
            i = i + 1;
        }
        proof {
            assert(self.configs@.subrange(0, self.configs@.len() as int) =~= self.configs@);
        }
        v
    }

    /// Creates the room anchored to message `mid`, drawing its room number
    /// from the counter; an existing anchor is left untouched.
    pub fn insert_room(&mut self, mid: u64) -> (r: Option<u32>)
        requires
            old(self).wf(),
            old(self).next_num < u32::MAX,
        ensures
            final(self).wf(),
            final(self).signups == old(self).signups,
            final(self).configs == old(self).configs,
            has_key(old(self).rooms@, mid) ==> r is None && final(self).rooms == old(self).rooms
                && final(self).next_num == old(self).next_num,
            !has_key(old(self).rooms@, mid) ==> r == Some(old(self).next_num)
                && final(self).rooms@ == old(self).rooms@.push((mid, old(self).next_num))
                && final(self).next_num == old(self).next_num + 1,
    {
        if self.has_room(mid) {
            return None;
        }
        let num = self.next_num;
        self.rooms.push((mid, num));
        self.next_num = num + 1;
        proof {
            assert forall|i: int, j: int|
                0 <= i < j < self.rooms@.len() implies self.rooms@[i].0 != self.rooms@[j].0 by {
                if j == self.rooms@.len() - 1 {
                    assert((#[trigger] old(self).rooms@[i]).0 != mid);
                }
            }
            assert forall|i: int| 0 <= i < self.signups@.len() implies has_key(
                self.rooms@,
                (#[trigger] self.signups@[i]).0,
            ) by {
                let k0 = self.signups@[i].0;
                assert(has_key(old(self).rooms@, k0));
                let x = choose|x: int|
                    0 <= x < old(self).rooms@.len() && (#[trigger] old(self).rooms@[x]).0 == k0;
                assert((self.rooms@[x]).0 == k0);
            }
        }
        Some(num)
    }

    /// Deletes the room anchored to message `mid`, cascading to its
    /// memberships.
    pub fn delete_room(&mut self, mid: u64) -> (existed: bool)
        requires
            old(self).wf(),
        ensures
            final(self).wf(),
            existed == has_key(old(self).rooms@, mid),
            final(self).rooms@ == without_key(old(self).rooms@, mid),
            final(self).signups@ == without_key(old(self).signups@, mid),
            final(self).configs == old(self).configs,
            final(self).next_num == old(self).next_num,
    {
        let existed = self.has_room(mid);
        let new_rooms = rows_without_key(&self.rooms, mid);
        let new_signups = rows_without_key(&self.signups, mid);
        self.rooms = new_rooms;
        self.signups = new_signups;
        proof {
            lemma_without_key(old(self).rooms@, mid);
            lemma_without_key(old(self).signups@, mid);
            assert forall|i: int| 0 <= i < self.signups@.len() implies has_key(
                self.rooms@,
                (#[trigger] self.signups@[i]).0,
            ) by {
                let q = self.signups@[i];
                assert(self.signups@.contains(q));
                assert(old(self).signups@.contains(q) && q.0 != mid);
                let x = choose|x: int|
                    0 <= x < old(self).signups@.len() && old(self).signups@[x] == q;
                assert(has_key(old(self).rooms@, (#[trigger] old(self).signups@[x]).0));
                lemma_key_of_props(old(self).rooms@, q.0);
                lemma_key_of_props(self.rooms@, q.0);
            }
            assert forall|i: int| 0 <= i < self.rooms@.len() implies (
            #[trigger] self.rooms@[i]).1 < self.next_num by {
                let q = self.rooms@[i];
                assert(self.rooms@.contains(q));
                assert(old(self).rooms@.contains(q));
                let x = choose|x: int| 0 <= x < old(self).rooms@.len() && old(self).rooms@[x] == q;
                assert((#[trigger] old(self).rooms@[x]).1 < old(self).next_num);
            }
        }
        existed
    }

    /// Inserts the membership row `(mid, uid)` unless it already exists: the
    /// unique-pair guard that makes a racing duplicate insert benign.  The
    /// admission sequence of an inserted member is its 1-based roster
    /// position.  Capacity is deliberately not checked here; that is the
    /// validator's task.
    pub fn insert_membership(&mut self, mid: u64, uid: u64) -> (r: InsertOutcome)
        requires
            old(self).wf(),
            old(self).signups@.len() < usize::MAX,
        ensures
            final(self).wf(),
            final(self).rooms == old(self).rooms,
            final(self).configs == old(self).configs,
            final(self).next_num == old(self).next_num,
            !has_key(old(self).rooms@, mid) ==> r == InsertOutcome::NoRoom && final(self).signups
                == old(self).signups,
            has_key(old(self).rooms@, mid) && is_member(old(self).signups@, mid, uid) ==> r
                == InsertOutcome::Conflict && final(self).signups == old(self).signups,
            has_key(old(self).rooms@, mid) && !is_member(old(self).signups@, mid, uid) ==> r == (
            InsertOutcome::Inserted { seq: (member_count(old(self).signups@, mid) + 1) as usize })
                && final(self).signups@ == old(self).signups@.push((mid, uid)),
    {
        if !self.has_room(mid) {
            return InsertOutcome::NoRoom;
        }
        if self.exists_membership(mid, uid) {
            return InsertOutcome::Conflict;
        }
        let n = self.count_memberships(mid);
        proof {
            lemma_member_count_le(self.signups@, mid);
        }
        self.signups.push((mid, uid));
        proof {
            assert forall|i: int, j: int|
                0 <= i < j < self.signups@.len() implies self.signups@[i] != self.signups@[j] by {
                if j == self.signups@.len() - 1 {
                    if (#[trigger] old(self).signups@[i]) == (mid, uid) {
                        assert(old(self).signups@.contains((mid, uid)));
                    }
                }
            }
            assert forall|i: int| 0 <= i < self.signups@.len() implies has_key(
                self.rooms@,
                (#[trigger] self.signups@[i]).0,
            ) by {
                if i < self.signups@.len() - 1 {
                    assert(has_key(old(self).rooms@, (#[trigger] old(self).signups@[i]).0));
                } else {
                    assert(self.signups@[i].0 == mid);
                }
            }
        }
        InsertOutcome::Inserted { seq: n + 1 }
    }

    /// Deletes the membership row `(mid, uid)`; deleting an absent row is
    /// benign and reports that nothing was removed.
    pub fn delete_membership(&mut self, mid: u64, uid: u64) -> (removed: bool)
        requires
            old(self).wf(),
        ensures
            final(self).wf(),
            final(self).rooms == old(self).rooms,
            final(self).configs == old(self).configs,
            final(self).next_num == old(self).next_num,
            removed == is_member(old(self).signups@, mid, uid),
            final(self).signups@ == without_row(old(self).signups@, mid, uid),
    {
        let mut w: Vec<(u64, u64)> = Vec::new();
        let mut found = false;
        let mut i: usize = 0;
        while i < self.signups.len()
            invariant
                0 <= i <= self.signups@.len(),
                w@ == without_row(self.signups@.subrange(0, i as int), mid, uid),
                found == is_member(self.signups@.subrange(0, i as int), mid, uid),
            decreases self.signups@.len() - i,
        {
            proof {
                let a = self.signups@.subrange(0, i as int);
                let b = self.signups@.subrange(0, i + 1);
                assert(b.drop_last() =~= a);
                if a.contains((mid, uid)) {
                    lemma_contains_from_drop_last(b, (mid, uid));
                }
                if b.contains((mid, uid)) && self.signups@[i as int] != (mid, uid) {
                    lemma_contains_split(b, (mid, uid));
                }
                if self.signups@[i as int] == (mid, uid) {
                    assert(b[i as int] == (mid, uid));
                    assert(b.contains((mid, uid)));
                }
            }
            if self.signups[i].0 == mid && self.signups[i].1 == uid {
                found = true;
            } else {
                w.push(self.signups[i]);
            }
            i = i + 1;
        }
        proof {
            assert(self.signups@.subrange(0, self.signups@.len() as int) =~= self.signups@);
        }
        self.signups = w;
        proof {
            lemma_without_row(old(self).signups@, mid, uid);
            assert forall|i: int| 0 <= i < self.signups@.len() implies has_key(
                self.rooms@,
                (#[trigger] self.signups@[i]).0,
            ) by {
                let q = self.signups@[i];
                assert(self.signups@.contains(q));
                assert(old(self).signups@.contains(q));
                let x = choose|x: int|
                    0 <= x < old(self).signups@.len() && old(self).signups@[x] == q;
                assert(has_key(old(self).rooms@, (#[trigger] old(self).signups@[x]).0));
            }
        }
        found
    }

    /// Deletes every room and membership and restarts room numbering at 1;
    /// guild configuration stays.
    pub fn delete_all_rooms(&mut self)
        requires
            old(self).wf(),
        ensures
            final(self).wf(),
            final(self).rooms@.len() == 0,
            final(self).signups@.len() == 0,
            final(self).configs == old(self).configs,
            final(self).next_num == 1,
    {
        self.rooms = Vec::new();
        self.signups = Vec::new();
        self.next_num = 1;
    }

    /// Records `channel` as the watched signup channel of guild `gid`,
    /// keeping the guild's host role.
    pub fn set_channel(&mut self, gid: u64, channel: u64)
        requires
            old(self).wf(),
            old(self).configs@.len() < usize::MAX,
        ensures
            final(self).wf(),
            final(self).rooms == old(self).rooms,
            final(self).signups == old(self).signups,
            final(self).next_num == old(self).next_num,
            key_of(final(self).configs@, gid) == (Some(
                GuildConfig {
                    channel_id: Some(channel),
                    host_id: match key_of(old(self).configs@, gid) {
                        Some(c) => c.host_id,
                        None => None,
                    },
                },
            )),
            forall|g2: u64|
                g2 != gid ==> key_of(final(self).configs@, g2) == key_of(old(self).configs@, g2),
    {
        let base = match self.get_config(gid) {
            Some(c) => c,
            None => GuildConfig { channel_id: None, host_id: None },
        };
        let cfg = GuildConfig { channel_id: Some(channel), host_id: base.host_id };
        self.upsert_config(gid, cfg);
    }

    /// Records `role` as the authorized-host role of guild `gid`, keeping the
    /// guild's watched channel.
    pub fn set_host(&mut self, gid: u64, role: u64)
        requires
            old(self).wf(),
            old(self).configs@.len() < usize::MAX,
        ensures
            final(self).wf(),
            final(self).rooms == old(self).rooms,
            final(self).signups == old(self).signups,
            final(self).next_num == old(self).next_num,
            key_of(final(self).configs@, gid) == (Some(
                GuildConfig {
                    channel_id: match key_of(old(self).configs@, gid) {
                        Some(c) => c.channel_id,
                        None => None,
                    },
                    host_id: Some(role),
                },
            )),
            forall|g2: u64|
                g2 != gid ==> key_of(final(self).configs@, g2) == key_of(old(self).configs@, g2),
    {
        let base = match self.get_config(gid) {
            Some(c) => c,
            None => GuildConfig { channel_id: None, host_id: None },
        };
        let cfg = GuildConfig { channel_id: base.channel_id, host_id: Some(role) };
        self.upsert_config(gid, cfg);
    }

    /// Replaces guild `gid`'s configuration row with `cfg`.
    fn upsert_config(&mut self, gid: u64, cfg: GuildConfig)
        requires
            old(self).wf(),
            old(self).configs@.len() < usize::MAX,
        ensures
            final(self).wf(),
            final(self).rooms == old(self).rooms,
            final(self).signups == old(self).signups,
            final(self).next_num == old(self).next_num,
            key_of(final(self).configs@, gid) == Some(cfg),
            forall|g2: u64|
                g2 != gid ==> key_of(final(self).configs@, g2) == key_of(old(self).configs@, g2),
    {
        let w = rows_without_key(&self.configs, gid);
        self.configs = w;
        self.configs.push((gid, cfg));
        proof {
            lemma_without_key(old(self).configs@, gid);
            let w0 = without_key(old(self).configs@, gid);
            let single = seq![(gid, cfg)];
            assert(self.configs@ =~= w0 + single);
            lemma_key_of_singleton((gid, cfg), gid);
            lemma_key_of_concat(w0, single, gid);
            lemma_key_of_props(w0, gid);
            assert forall|g2: u64|
                g2 != gid implies key_of(self.configs@, g2) == key_of(old(self).configs@, g2) by {
                lemma_key_of_concat(w0, single, g2);
                lemma_key_of_singleton((gid, cfg), g2);
                assert(key_of(w0, g2) == key_of(old(self).configs@, g2));
            }
            assert forall|i: int, j: int|
                0 <= i < j < self.configs@.len() implies self.configs@[i].0 != self.configs@[j].0 by {
                if j == self.configs@.len() - 1 {
                    assert(w0.contains(w0[i]));
                    assert(self.configs@[i] == w0[i]);
                } else {
                    assert(self.configs@[i] == w0[i] && self.configs@[j] == w0[j]);
                }
            }
        }
    }

    /// The configuration recorded for guild `gid`.
    pub fn get_config(&self, gid: u64) -> (r: Option<GuildConfig>)
        ensures
            r == key_of(self.configs@, gid),
    {
        let s = Ghost(self.configs@);
        let mut i: usize = 0;
        while i < self.configs.len()
            invariant
                0 <= i <= s@.len(),
                s@ == self.configs@,
                key_of(s@.subrange(0, i as int), gid) is None,
            decreases s@.len() - i,
        {
            proof {
                assert(s@.subrange(0, i + 1).drop_last() =~= s@.subrange(0, i as int));
            }
            if self.configs[i].0 == gid {
                proof {
                    assert(s@ =~= s@.subrange(0, i + 1) + s@.subrange(i + 1, s@.len() as int));
                    lemma_key_of_concat(
                        s@.subrange(0, i + 1),
                        s@.subrange(i + 1, s@.len() as int),
                        gid,
                    );
                }
                return Some(self.configs[i].1);
            }
            i = i + 1;
        }
        proof {
            assert(s@.subrange(0, s@.len() as int) =~= s@);
        }
        None
    }
}

} // verus!
