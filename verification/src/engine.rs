//! Membership validator and roster mutator: the decision core that turns a
//! filtered add or remove request into a store mutation and an outcome.
//!
//! Policy, fixed here once: a participant may hold at most one membership
//! across all rooms (cross-room exclusivity), a room admits at most
//! [`crate::ROOM_CAPACITY`] members, and admissions number the roster
//! 1-based, the first [`crate::PRIMARY_SLOTS`] being primary and the rest
//! reserve.

use vstd::prelude::*;

use crate::store::{
    first_room_of, has_key, is_member, key_of, lemma_first_by_val_props, lemma_key_of_props,
    lemma_without_row, member_count, without_row, InsertOutcome, RosterStore,
};
use crate::ROOM_CAPACITY;

verus! {

/// Outcome of an add request.
#[derive(Debug, Clone, Copy, PartialEq, Eq, Structural)]
pub enum AddOutcome {
    /// The participant was admitted with this 1-based admission sequence.
    Admitted { seq: usize },
    /// The participant already holds a membership in this very room; the
    /// store was not touched.
    AlreadyRegistered,
    /// Cross-room exclusivity: the participant is registered in another room,
    /// carried here by its room number; the store was not touched.
    RegisteredElsewhere { room_num: u32 },
    /// The room already holds the full capacity; the store was not touched.
    RoomFull,
    /// No room is anchored to the message (it raced with a room deletion);
    /// the store was not touched.
    MissingRoom,
}

/// Outcome of a remove request.
#[derive(Debug, Clone, Copy, PartialEq, Eq, Structural)]
pub enum RemoveOutcome {
    /// The membership existed and was deleted.
    Removed,
    /// The participant was not a member; the store was not touched.
    NotMember,
}

/// Every room holds at most the capacity.
pub open spec fn capacity_ok(signups: Seq<(u64, u64)>) -> bool {
    forall|m: u64| member_count(signups, m) <= ROOM_CAPACITY
}

/// What an add request decides, given the store's room and membership tables.
///
/// Checks run in the validator's order: exclusivity first, then capacity,
/// then existence of the room.
pub open spec fn spec_add_outcome(
    rooms: Seq<(u64, u32)>,
    signups: Seq<(u64, u64)>,
    mid: u64,
    uid: u64,
) -> AddOutcome {
    match first_room_of(signups, uid) {
        Some(m) => if m == mid {
            AddOutcome::AlreadyRegistered
        } else {
            AddOutcome::RegisteredElsewhere {
                room_num: match key_of(rooms, m) {
                    Some(n) => n,
                    None => 0,
                },
            }
        },
        None => if member_count(signups, mid) >= ROOM_CAPACITY {
            AddOutcome::RoomFull
        } else if !has_key(rooms, mid) {
            AddOutcome::MissingRoom
        } else {
            AddOutcome::Admitted { seq: (member_count(signups, mid) + 1) as usize }
        },
    }
}

/// The membership table an add request leaves behind: one appended row when
/// the participant is admitted, untouched otherwise.
pub open spec fn spec_add_signups(
    rooms: Seq<(u64, u32)>,
    signups: Seq<(u64, u64)>,
    mid: u64,
    uid: u64,
) -> Seq<(u64, u64)> {
    if spec_add_outcome(rooms, signups, mid, uid) is Admitted {
        signups.push((mid, uid))
    } else {
        signups
    }
}

/// What a remove request decides.
pub open spec fn spec_remove_outcome(signups: Seq<(u64, u64)>, mid: u64, uid: u64)
    -> RemoveOutcome {
    if is_member(signups, mid, uid) {
        RemoveOutcome::Removed
    } else {
        RemoveOutcome::NotMember
    }
}

/// Validates and applies an add request: rejects a duplicate, a participant
/// registered elsewhere, and a full room; otherwise inserts the membership
/// and reports its admission sequence.
pub fn handle_add(store: &mut RosterStore, mid: u64, uid: u64) -> (r: AddOutcome)
    requires
        old(store).wf(),
        old(store).signups@.len() < usize::MAX,
    ensures
        final(store).wf(),
        final(store).rooms == old(store).rooms,
        final(store).configs == old(store).configs,
        final(store).next_num == old(store).next_num,
        r == spec_add_outcome(old(store).rooms@, old(store).signups@, mid, uid),
        final(store).signups@ == spec_add_signups(old(store).rooms@, old(store).signups@, mid, uid),
{
    match store.find_membership(uid) {
        Some((m, num)) => {
            if m == mid {
                AddOutcome::AlreadyRegistered
            } else {
                AddOutcome::RegisteredElsewhere { room_num: num }
            }
        },
        None => {
            proof {
                // Under well-formedness a membership row always has a live
                // room, so a fruitless lookup means no membership at all.
                if first_room_of(old(store).signups@, uid) is Some {
                    let m = first_room_of(old(store).signups@, uid)->Some_0;
                    lemma_first_by_val_props(old(store).signups@, uid);
                    let x = choose|x: int|
                        0 <= x < old(store).signups@.len() && old(store).signups@[x] == (m, uid);
                    assert(has_key(old(store).rooms@, (#[trigger] old(store).signups@[x]).0));
                    lemma_key_of_props(old(store).rooms@, m);
                    assert(false);
                }
            }
            let count = store.count_memberships(mid);
            if count >= ROOM_CAPACITY {
                AddOutcome::RoomFull
            } else {
                match store.insert_membership(mid, uid) {
                    InsertOutcome::Inserted { seq } => AddOutcome::Admitted { seq },
                    InsertOutcome::Conflict => {
                        proof {
                            lemma_first_by_val_props(old(store).signups@, uid);
                            let x = choose|x: int|
                                0 <= x < old(store).signups@.len() && old(store).signups@[x] == (
                                mid,
                                uid,
                                );
                            assert((#[trigger] old(store).signups@[x]).1 == uid);
                            assert(false);
                        }
                        AddOutcome::AlreadyRegistered
                    },
                    InsertOutcome::NoRoom => AddOutcome::MissingRoom,
                }
            }
        },
    }
}

/// Validates and applies a remove request: deletes the membership if it
/// exists, and treats a missing one — already removed by a racing event — as
/// benign.
pub fn handle_remove(store: &mut RosterStore, mid: u64, uid: u64) -> (r: RemoveOutcome)
    requires
        old(store).wf(),
    ensures
        final(store).wf(),
        final(store).rooms == old(store).rooms,
        final(store).configs == old(store).configs,
        final(store).next_num == old(store).next_num,
        r == spec_remove_outcome(old(store).signups@, mid, uid),
        final(store).signups@ == without_row(old(store).signups@, mid, uid),
{
    if store.exists_membership(mid, uid) {
        store.delete_membership(mid, uid);
        RemoveOutcome::Removed
    } else {
        proof {
            lemma_without_row(old(store).signups@, mid, uid);
        }
        RemoveOutcome::NotMember
    }
}

} // verus!
