//! The engine's laws, proved once over the spec-level transitions that the
//! executable functions are contracted to follow: capacity under concurrent
//! bursts, exclusivity, duplicate and repeated events as no-ops, and the
//! admission ordering.

use vstd::math::min;
use vstd::prelude::*;

use crate::engine::{
    capacity_ok, spec_add_outcome, spec_add_signups, spec_remove_outcome, AddOutcome,
    RemoveOutcome,
};
use crate::notify::{spec_notification_for_add, spec_notification_for_remove, Notification};
use crate::store::{
    exclusive, first_room_of, has_key, is_member, key_of, lemma_first_by_val_props,
    lemma_first_by_val_push, lemma_is_member_push, lemma_members_push, lemma_without_row,
    lemma_without_row_count_le, member_count, members_of, without_row,
};
use crate::{PRIMARY_SLOTS, RESERVE_SLOTS, ROOM_CAPACITY};

verus! {

/// An add never pushes any room past capacity.
pub proof fn lemma_add_preserves_capacity(
    rooms: Seq<(u64, u32)>,
    signups: Seq<(u64, u64)>,
    mid: u64,
    uid: u64,
)
    requires
        capacity_ok(signups),
    ensures
        capacity_ok(spec_add_signups(rooms, signups, mid, uid)),
{
    let t = spec_add_signups(rooms, signups, mid, uid);
    if spec_add_outcome(rooms, signups, mid, uid) is Admitted {
        assert forall|m: u64| member_count(t, m) <= ROOM_CAPACITY by {
            lemma_members_push(signups, (mid, uid), m);
            assert(member_count(signups, m) <= ROOM_CAPACITY);
        }
    }
}

/// A remove never pushes any room past capacity.
pub proof fn lemma_remove_preserves_capacity(signups: Seq<(u64, u64)>, mid: u64, uid: u64)
    requires
        capacity_ok(signups),
    ensures
        capacity_ok(without_row(signups, mid, uid)),
{
    let t = without_row(signups, mid, uid);
    assert forall|m: u64| member_count(t, m) <= ROOM_CAPACITY by {
        lemma_without_row_count_le(signups, mid, uid, m);
        assert(member_count(signups, m) <= ROOM_CAPACITY);
    }
}

/// An add preserves one-room-per-user exclusivity: only a participant with
/// no membership anywhere is ever admitted.
pub proof fn lemma_add_preserves_exclusive(
    rooms: Seq<(u64, u32)>,
    signups: Seq<(u64, u64)>,
    mid: u64,
    uid: u64,
)
    requires
        exclusive(signups),
    ensures
        exclusive(spec_add_signups(rooms, signups, mid, uid)),
{
    let t = spec_add_signups(rooms, signups, mid, uid);
    if spec_add_outcome(rooms, signups, mid, uid) is Admitted {
        lemma_first_by_val_props(signups, uid);
        assert forall|i: int, j: int| 0 <= i < j < t.len() implies t[i].1 != t[j].1 by {
            if j == t.len() - 1 {
                assert(t[i] == signups[i]);
                assert((#[trigger] signups[i]).1 != uid);
            } else {
                assert(t[i] == signups[i] && t[j] == signups[j]);
            }
        }
    }
}

/// A remove preserves one-room-per-user exclusivity.
pub proof fn lemma_remove_preserves_exclusive(signups: Seq<(u64, u64)>, mid: u64, uid: u64)
    requires
        exclusive(signups),
    ensures
        exclusive(without_row(signups, mid, uid)),
{
    lemma_without_row(signups, mid, uid);
}

/// The membership table after a burst of add events for room `mid` by
/// `users`, processed one after the other.
pub open spec fn spec_apply_adds(
    rooms: Seq<(u64, u32)>,
    signups: Seq<(u64, u64)>,
    mid: u64,
    users: Seq<u64>,
) -> Seq<(u64, u64)>
    decreases users.len(),
{
    if users.len() == 0 {
        signups
    } else {
        spec_add_signups(
            rooms,
            spec_apply_adds(rooms, signups, mid, users.drop_last()),
            mid,
            users.last(),
        )
    }
}

/// How many distinct ids a sequence holds.
pub open spec fn distinct_count(users: Seq<u64>) -> nat
    decreases users.len(),
{
    if users.len() == 0 {
        0
    } else {
        distinct_count(users.drop_last()) + (if users.drop_last().contains(users.last()) {
            0nat
        } else {
            1nat
        })
    }
}

/// Capacity under a concurrent burst: fire any number of add events for one
/// room at participants who are not yet registered anywhere — duplicates
/// allowed — and the roster ends at exactly
/// `min(previous count + distinct participants, capacity)`, never above
/// capacity, with every other room untouched.
pub proof fn lemma_concurrent_adds_capacity(
    rooms: Seq<(u64, u32)>,
    signups: Seq<(u64, u64)>,
    mid: u64,
    users: Seq<u64>,
)
    requires
        has_key(rooms, mid),
        member_count(signups, mid) <= ROOM_CAPACITY,
        forall|k: int| 0 <= k < users.len() ==> first_room_of(signups, #[trigger] users[k]) is None,
    ensures
        ({
            let t = spec_apply_adds(rooms, signups, mid, users);
            &&& member_count(t, mid) == min(
                member_count(signups, mid) + distinct_count(users) as int,
                ROOM_CAPACITY as int,
            )
            &&& member_count(t, mid) <= ROOM_CAPACITY
            &&& forall|m2: u64| m2 != mid ==> members_of(t, m2) == members_of(signups, m2)
            &&& forall|u: u64|
                (first_room_of(signups, u) is None) ==> #[trigger] first_room_of(t, u) == (
                if is_member(t, mid, u) {
                    Some(mid)
                } else {
                    None::<u64>
                })
            &&& forall|u: u64| #[trigger]
                is_member(t, mid, u) ==> (is_member(signups, mid, u) || users.contains(u))
            &&& (member_count(t, mid) < ROOM_CAPACITY ==> forall|k: int|
                0 <= k < users.len() ==> is_member(t, mid, #[trigger] users[k]))
        }),
    decreases users.len(),
{
    let t = spec_apply_adds(rooms, signups, mid, users);
    let c0 = member_count(signups, mid);
    if users.len() == 0 {
        assert forall|u: u64| (first_room_of(signups, u) is None) implies #[trigger]
            first_room_of(t, u) == (if is_member(t, mid, u) {
            Some(mid)
        } else {
            None::<u64>
        }) by {
            lemma_first_by_val_props(signups, u);
            if is_member(signups, mid, u) {
                let x = choose|x: int| 0 <= x < signups.len() && signups[x] == (mid, u);
                assert((#[trigger] signups[x]).1 == u);
            }
        }
    } else {
        let dl = users.drop_last();
        let u = users.last();
        assert(users[users.len() - 1] == u);
        assert forall|k: int|
            0 <= k < dl.len() implies first_room_of(signups, #[trigger] dl[k]) is None by {
            assert(dl[k] == users[k]);
        }
        lemma_concurrent_adds_capacity(rooms, signups, mid, dl);
        let t0 = spec_apply_adds(rooms, signups, mid, dl);
        assert(t == spec_add_signups(rooms, t0, mid, u));
        assert(first_room_of(signups, u) is None);
        // A fresh participant holds no membership in the room to begin with.
        lemma_first_by_val_props(signups, u);
        if is_member(signups, mid, u) {
            let x = choose|x: int| 0 <= x < signups.len() && signups[x] == (mid, u);
            assert((#[trigger] signups[x]).1 == u);
            assert(false);
        }
        assert(users.contains(u));
        assert forall|y: u64| dl.contains(y) implies users.contains(y) by {
            let k = choose|k: int| 0 <= k < dl.len() && dl[k] == y;
            assert(users[k] == y);
        }
        let o = spec_add_outcome(rooms, t0, mid, u);
        if is_member(t0, mid, u) {
            // A repeated participant already on the roster: a duplicate,
            // rejected without touching the table.
            assert(first_room_of(t0, u) == Some(mid));
            assert(o == AddOutcome::AlreadyRegistered);
            assert(t == t0);
            assert(dl.contains(u));
            assert(distinct_count(users) == distinct_count(dl));
            if member_count(t, mid) < ROOM_CAPACITY {
                assert forall|k: int|
                    0 <= k < users.len() implies is_member(t, mid, #[trigger] users[k]) by {
                    if k < users.len() - 1 {
                        assert(is_member(t0, mid, dl[k]));
                    }
                }
            }
        } else {
            assert(first_room_of(t0, u) == None::<u64>);
            if member_count(t0, mid) >= ROOM_CAPACITY {
                // The room is full: the attempt bounces and nothing changes.
                assert(o == AddOutcome::RoomFull);
                assert(t == t0);
                assert(member_count(t0, mid) == ROOM_CAPACITY);
                assert(distinct_count(users) >= distinct_count(dl));
            } else {
                // A fresh participant and free capacity: admitted.
                assert(o is Admitted);
                assert(t == t0.push((mid, u)));
                lemma_members_push(t0, (mid, u), mid);
                if dl.contains(u) {
                    let k = choose|k: int| 0 <= k < dl.len() && dl[k] == u;
                    assert(is_member(t0, mid, dl[k]));
                    assert(false);
                }
                assert(distinct_count(users) == distinct_count(dl) + 1);
                assert forall|m2: u64|
                    m2 != mid implies members_of(t, m2) == members_of(signups, m2) by {
                    lemma_members_push(t0, (mid, u), m2);
                    assert(members_of(t0, m2) == members_of(signups, m2));
                }
                assert forall|u2: u64| (first_room_of(signups, u2) is None) implies #[trigger]
                    first_room_of(t, u2) == (if is_member(t, mid, u2) {
                    Some(mid)
                } else {
                    None::<u64>
                }) by {
                    lemma_first_by_val_push(t0, (mid, u), u2);
                    lemma_is_member_push(t0, (mid, u), mid, u2);
                    assert(first_room_of(t0, u2) == (if is_member(t0, mid, u2) {
                        Some(mid)
                    } else {
                        None::<u64>
                    }));
                }
                assert forall|u2: u64| #[trigger]
                    is_member(t, mid, u2) implies (is_member(signups, mid, u2) || users.contains(
                    u2,
                )) by {
                    lemma_is_member_push(t0, (mid, u), mid, u2);
                }
                if member_count(t, mid) < ROOM_CAPACITY {
                    assert forall|k: int|
                        0 <= k < users.len() implies is_member(t, mid, #[trigger] users[k]) by {
                        lemma_is_member_push(t0, (mid, u), mid, users[k]);
                        if k < users.len() - 1 {
                            assert(is_member(t0, mid, dl[k]));
                        }
                    }
                }
            }
        }
    }
}

/// Admission sequences strictly increase within a room: of two adds admitted
/// in turn, the second receives the next sequence.
pub proof fn lemma_admission_seq_increases(
    rooms: Seq<(u64, u32)>,
    signups: Seq<(u64, u64)>,
    mid: u64,
    u1: u64,
    u2: u64,
)
    requires
        spec_add_outcome(rooms, signups, mid, u1) is Admitted,
        spec_add_outcome(rooms, spec_add_signups(rooms, signups, mid, u1), mid, u2) is Admitted,
    ensures
        ({
            let s1 = match spec_add_outcome(rooms, signups, mid, u1) {
                AddOutcome::Admitted { seq } => seq as int,
                _ => 0,
            };
            let s2 = match spec_add_outcome(
                rooms,
                spec_add_signups(rooms, signups, mid, u1),
                mid,
                u2,
            ) {
                AddOutcome::Admitted { seq } => seq as int,
                _ => 0,
            };
            s2 == s1 + 1
        }),
{
    lemma_members_push(signups, (mid, u1), mid);
}

/// Position labels: admission sequences up to the primary-slot count are
/// primary; later ones are reserves ranked by `seq - PRIMARY_SLOTS`, and a
/// reserve rank never exceeds the reserve-slot count.
pub proof fn lemma_position_labels(seq: usize)
    requires
        1 <= seq <= ROOM_CAPACITY,
    ensures
        seq <= PRIMARY_SLOTS ==> spec_notification_for_add(AddOutcome::Admitted { seq }) == Some(
            Notification::RegisteredPrimary,
        ),
        seq > PRIMARY_SLOTS ==> spec_notification_for_add(AddOutcome::Admitted { seq }) == Some(
            Notification::RegisteredReserve { rank: (seq - PRIMARY_SLOTS) as usize },
        ),
        seq > PRIMARY_SLOTS ==> 1 <= seq - PRIMARY_SLOTS <= RESERVE_SLOTS,
{
}

/// Re-adding an existing member is a no-op on the store and earns the
/// "already registered" acknowledgement.
pub proof fn lemma_duplicate_add_is_noop(
    rooms: Seq<(u64, u32)>,
    signups: Seq<(u64, u64)>,
    mid: u64,
    uid: u64,
)
    requires
        exclusive(signups),
        is_member(signups, mid, uid),
    ensures
        spec_add_outcome(rooms, signups, mid, uid) == AddOutcome::AlreadyRegistered,
        spec_add_signups(rooms, signups, mid, uid) == signups,
        spec_notification_for_add(spec_add_outcome(rooms, signups, mid, uid)) == Some(
            Notification::AlreadyRegistered,
        ),
{
    let x = choose|x: int| 0 <= x < signups.len() && signups[x] == (mid, uid);
    lemma_first_by_val_props(signups, uid);
    assert((#[trigger] signups[x]).1 == uid);
    assert(first_room_of(signups, uid) is Some);
    let m = first_room_of(signups, uid)->Some_0;
    assert(signups.contains((m, uid)));
    let y = choose|y: int| 0 <= y < signups.len() && signups[y] == (m, uid);
    if x != y {
        assert(signups[x].1 == signups[y].1);
        assert(false);
    }
    assert(m == mid);
}

/// Cross-room exclusivity: a member of room A who tries to join room B is
/// rejected, both rosters stay as they are, and the acknowledgement names
/// room A by its number.
pub proof fn lemma_exclusivity_rejection(
    rooms: Seq<(u64, u32)>,
    signups: Seq<(u64, u64)>,
    room_a: u64,
    room_b: u64,
    uid: u64,
)
    requires
        exclusive(signups),
        is_member(signups, room_a, uid),
        room_a != room_b,
    ensures
        ({
            let num = match key_of(rooms, room_a) {
                Some(n) => n,
                None => 0,
            };
            &&& spec_add_signups(rooms, signups, room_b, uid) == signups
            &&& members_of(spec_add_signups(rooms, signups, room_b, uid), room_a) == members_of(
                signups,
                room_a,
            )
            &&& members_of(spec_add_signups(rooms, signups, room_b, uid), room_b) == members_of(
                signups,
                room_b,
            )
            &&& spec_add_outcome(rooms, signups, room_b, uid) == (AddOutcome::RegisteredElsewhere {
                room_num: num,
            })
            &&& spec_notification_for_add(spec_add_outcome(rooms, signups, room_b, uid)) == Some(
                Notification::RegisteredElsewhere { room_num: num },
            )
        }),
{
    let x = choose|x: int| 0 <= x < signups.len() && signups[x] == (room_a, uid);
    lemma_first_by_val_props(signups, uid);
    assert((#[trigger] signups[x]).1 == uid);
    assert(first_room_of(signups, uid) is Some);
    let m = first_room_of(signups, uid)->Some_0;
    assert(signups.contains((m, uid)));
    let y = choose|y: int| 0 <= y < signups.len() && signups[y] == (m, uid);
    if x != y {
        assert(signups[x].1 == signups[y].1);
        assert(false);
    }
    assert(m == room_a);
}

/// Removing a non-member changes nothing and earns no message.
pub proof fn lemma_remove_nonmember_is_noop(signups: Seq<(u64, u64)>, mid: u64, uid: u64)
    requires
        !is_member(signups, mid, uid),
    ensures
        without_row(signups, mid, uid) == signups,
        spec_remove_outcome(signups, mid, uid) == RemoveOutcome::NotMember,
        spec_notification_for_remove(spec_remove_outcome(signups, mid, uid)) is None,
{
    lemma_without_row(signups, mid, uid);
}

/// A repeated remove is harmless: the second pass finds no membership,
/// changes nothing, and does not repeat the farewell.
pub proof fn lemma_remove_idempotent(signups: Seq<(u64, u64)>, mid: u64, uid: u64)
    ensures
        ({
            let once = without_row(signups, mid, uid);
            &&& !is_member(once, mid, uid)
            &&& without_row(once, mid, uid) == once
            &&& spec_remove_outcome(once, mid, uid) == RemoveOutcome::NotMember
            &&& spec_notification_for_remove(spec_remove_outcome(once, mid, uid)) is None
        }),
{
    let once = without_row(signups, mid, uid);
    lemma_without_row(signups, mid, uid);
    lemma_without_row(once, mid, uid);
}

} // verus!
