use fnf_signup::engine::{handle_add, handle_remove, AddOutcome, RemoveOutcome};
use fnf_signup::notify::{notification_for_add, notification_for_remove, Notification};
use fnf_signup::store::RosterStore;
use fnf_signup::{PRIMARY_SLOTS, ROOM_CAPACITY};

fn room_with_members(mid: u64, n: u64) -> RosterStore {
    let mut s = RosterStore::new();
    s.insert_room(mid);
    let mut u: u64 = 0;
    while u < n {
        let outcome = handle_add(&mut s, mid, 1000 + u);
        assert!(matches!(outcome, AddOutcome::Admitted { .. }));
        u += 1;
    }
    s
}

#[test]
fn first_add_is_admitted_with_sequence_one() {
    let mut s = RosterStore::new();
    s.insert_room(100);
    assert_eq!(handle_add(&mut s, 100, 7), AddOutcome::Admitted { seq: 1 });
    assert_eq!(s.count_memberships(100), 1);
    let n = notification_for_add(AddOutcome::Admitted { seq: 1 }).unwrap();
    assert_eq!(n, Notification::RegisteredPrimary);
    assert_eq!(n.text(), "You registered for the room.");
}

#[test]
fn admission_sequences_strictly_increase() {
    let mut s = RosterStore::new();
    s.insert_room(100);
    let mut expected: usize = 1;
    while expected <= ROOM_CAPACITY {
        let outcome = handle_add(&mut s, 100, 2000 + expected as u64);
        assert_eq!(outcome, AddOutcome::Admitted { seq: expected });
        expected += 1;
    }
}

#[test]
fn positions_split_into_primary_and_reserve() {
    let mut seq: usize = 1;
    while seq <= ROOM_CAPACITY {
        let n = notification_for_add(AddOutcome::Admitted { seq }).unwrap();
        if seq <= PRIMARY_SLOTS {
            assert_eq!(n, Notification::RegisteredPrimary);
        } else {
            assert_eq!(n, Notification::RegisteredReserve { rank: seq - PRIMARY_SLOTS });
        }
        seq += 1;
    }
}

#[test]
fn duplicate_add_is_a_noop_with_already_registered_notice() {
    let mut s = RosterStore::new();
    s.insert_room(100);
    handle_add(&mut s, 100, 7);
    let before = s.count_memberships(100);
    let outcome = handle_add(&mut s, 100, 7);
    assert_eq!(outcome, AddOutcome::AlreadyRegistered);
    assert_eq!(s.count_memberships(100), before);
    let n = notification_for_add(outcome).unwrap();
    assert_eq!(n, Notification::AlreadyRegistered);
    assert_eq!(n.text(), "You are already registered for this room.");
}

#[test]
fn cross_room_exclusivity_names_the_other_room() {
    let mut s = RosterStore::new();
    s.insert_room(100);  // room #1
    s.insert_room(200);  // room #2
    handle_add(&mut s, 100, 7);
    let outcome = handle_add(&mut s, 200, 7);
    assert_eq!(outcome, AddOutcome::RegisteredElsewhere { room_num: 1 });
    assert_eq!(s.count_memberships(100), 1);
    assert_eq!(s.count_memberships(200), 0);
    let n = notification_for_add(outcome).unwrap();
    assert_eq!(
        n.text(),
        "You can only register for one room. You are currently registered for room #1."
    );
}

#[test]
fn sixteenth_add_bounces_off_capacity_silently() {
    let mut s = room_with_members(100, ROOM_CAPACITY as u64);
    assert_eq!(s.count_memberships(100), ROOM_CAPACITY);
    let outcome = handle_add(&mut s, 100, 9999);
    assert_eq!(outcome, AddOutcome::RoomFull);
    assert_eq!(s.count_memberships(100), ROOM_CAPACITY);
    assert!(notification_for_add(outcome).is_none());
}

#[test]
fn add_without_room_reports_store_error_notice() {
    let mut s = RosterStore::new();
    let outcome = handle_add(&mut s, 100, 7);
    assert_eq!(outcome, AddOutcome::MissingRoom);
    let n = notification_for_add(outcome).unwrap();
    assert_eq!(n, Notification::StoreError);
    assert_eq!(n.text(), "There was an error registering. Please contact an operator.");
}

#[test]
fn remove_of_member_deregisters_with_farewell() {
    let mut s = RosterStore::new();
    s.insert_room(100);
    handle_add(&mut s, 100, 7);
    let outcome = handle_remove(&mut s, 100, 7);
    assert_eq!(outcome, RemoveOutcome::Removed);
    assert_eq!(s.count_memberships(100), 0);
    let n = notification_for_remove(outcome).unwrap();
    assert_eq!(n, Notification::Deregistered);
    assert_eq!(n.text(), "You have deregistered from the room.");
}

#[test]
fn remove_of_nonmember_is_a_noop_without_message() {
    let mut s = RosterStore::new();
    s.insert_room(100);
    handle_add(&mut s, 100, 8);
    let before = s.count_memberships(100);
    let outcome = handle_remove(&mut s, 100, 7);
    assert_eq!(outcome, RemoveOutcome::NotMember);
    assert_eq!(s.count_memberships(100), before);
    assert!(notification_for_remove(outcome).is_none());
}

#[test]
fn repeated_remove_does_not_error_or_renotify() {
    let mut s = RosterStore::new();
    s.insert_room(100);
    handle_add(&mut s, 100, 7);
    assert_eq!(handle_remove(&mut s, 100, 7), RemoveOutcome::Removed);
    let outcome = handle_remove(&mut s, 100, 7);
    assert_eq!(outcome, RemoveOutcome::NotMember);
    assert_eq!(s.count_memberships(100), 0);
    assert!(notification_for_remove(outcome).is_none());
}

#[test]
fn concurrent_burst_fills_to_min_of_unique_and_capacity() {
    // Twenty distinct participants racing for one room, some reacting twice:
    // the roster ends at min(20, 15) and the extras bounce.
    let mut s = RosterStore::new();
    s.insert_room(100);
    let mut attempts: Vec<u64> = Vec::new();
    let mut u: u64 = 0;
    while u < 20 {
        attempts.push(3000 + u);
        if u % 3 == 0 {
            attempts.push(3000 + u);
        }
        u += 1;
    }
    for uid in attempts {
        let _ = handle_add(&mut s, 100, uid);
    }
    assert_eq!(s.count_memberships(100), ROOM_CAPACITY);
}

#[test]
fn freed_slot_admits_next_participant() {
    let mut s = room_with_members(100, ROOM_CAPACITY as u64);
    assert_eq!(handle_add(&mut s, 100, 9999), AddOutcome::RoomFull);
    assert_eq!(handle_remove(&mut s, 100, 1000), RemoveOutcome::Removed);
    assert_eq!(handle_add(&mut s, 100, 9999), AddOutcome::Admitted { seq: 15 });
    assert_eq!(s.count_memberships(100), ROOM_CAPACITY);
}
