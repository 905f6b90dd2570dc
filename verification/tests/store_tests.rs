use fnf_signup::store::{InsertOutcome, RosterStore};

#[test]
fn new_store_is_empty() {
    let s = RosterStore::new();
    assert_eq!(s.count_memberships(1), 0);
    assert!(!s.has_room(1));
    assert!(s.list_rooms().is_empty());
    assert!(s.list_configs().is_empty());
}

#[test]
fn insert_room_draws_numbers_from_the_counter() {
    let mut s = RosterStore::new();
    assert_eq!(s.insert_room(100), Some(1));
    assert_eq!(s.insert_room(200), Some(2));
    assert_eq!(s.room_num(100), Some(1));
    assert_eq!(s.room_num(200), Some(2));
    assert_eq!(s.find_room_by_num(2), Some(200));
    assert_eq!(s.find_room_by_num(3), None);
}

#[test]
fn insert_room_conflict_is_benign() {
    let mut s = RosterStore::new();
    assert_eq!(s.insert_room(100), Some(1));
    assert_eq!(s.insert_room(100), None);
    assert_eq!(s.list_rooms(), vec![100]);
}

#[test]
fn insert_membership_assigns_admission_sequence() {
    let mut s = RosterStore::new();
    s.insert_room(100);
    assert_eq!(s.insert_membership(100, 7), InsertOutcome::Inserted { seq: 1 });
    assert_eq!(s.insert_membership(100, 8), InsertOutcome::Inserted { seq: 2 });
    assert_eq!(s.count_memberships(100), 2);
    assert_eq!(s.roster(100), vec![7, 8]);
}

#[test]
fn insert_membership_conflict_leaves_store_unchanged() {
    let mut s = RosterStore::new();
    s.insert_room(100);
    s.insert_membership(100, 7);
    assert_eq!(s.insert_membership(100, 7), InsertOutcome::Conflict);
    assert_eq!(s.count_memberships(100), 1);
}

#[test]
fn insert_membership_without_room_is_refused() {
    let mut s = RosterStore::new();
    assert_eq!(s.insert_membership(100, 7), InsertOutcome::NoRoom);
    assert_eq!(s.count_memberships(100), 0);
}

#[test]
fn delete_membership_reports_what_it_removed() {
    let mut s = RosterStore::new();
    s.insert_room(100);
    s.insert_membership(100, 7);
    assert!(s.delete_membership(100, 7));
    assert_eq!(s.count_memberships(100), 0);
    assert!(!s.delete_membership(100, 7));
}

#[test]
fn delete_room_cascades_memberships() {
    let mut s = RosterStore::new();
    s.insert_room(100);
    s.insert_room(200);
    s.insert_membership(100, 7);
    s.insert_membership(200, 8);
    assert!(s.delete_room(100));
    assert!(!s.has_room(100));
    assert_eq!(s.count_memberships(100), 0);
    assert!(s.roster(100).is_empty());
    assert_eq!(s.count_memberships(200), 1);
    assert!(!s.delete_room(100));
}

#[test]
fn find_membership_names_room_and_number() {
    let mut s = RosterStore::new();
    s.insert_room(100);
    s.insert_room(200);
    s.insert_membership(200, 7);
    assert_eq!(s.find_membership(7), Some((200, 2)));
    assert_eq!(s.find_membership(8), None);
}

#[test]
fn config_upserts_keep_the_other_field() {
    let mut s = RosterStore::new();
    s.set_channel(5, 42);
    let c = s.get_config(5).unwrap();
    assert_eq!(c.channel_id, Some(42));
    assert_eq!(c.host_id, None);
    s.set_host(5, 9);
    let c = s.get_config(5).unwrap();
    assert_eq!(c.channel_id, Some(42));
    assert_eq!(c.host_id, Some(9));
    s.set_channel(5, 43);
    let c = s.get_config(5).unwrap();
    assert_eq!(c.channel_id, Some(43));
    assert_eq!(c.host_id, Some(9));
    assert!(s.get_config(6).is_none());
}

#[test]
fn roster_keeps_admission_order_across_removals() {
    let mut s = RosterStore::new();
    s.insert_room(100);
    s.insert_membership(100, 1);
    s.insert_membership(100, 2);
    s.insert_membership(100, 3);
    s.delete_membership(100, 2);
    assert_eq!(s.roster(100), vec![1, 3]);
    assert_eq!(s.insert_membership(100, 4), InsertOutcome::Inserted { seq: 3 });
    assert_eq!(s.roster(100), vec![1, 3, 4]);
}
