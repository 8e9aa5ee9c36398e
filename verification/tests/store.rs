//! Tests of the entity store: round trips, last-write-wins, the denormalized
//! relation, drift reporting, and the cache rebuild.

use nari::database::Database;
use nari::event::{EventBuilder, Priority, Repeatability};
use nari::id::{EventId, UserId};
use nari::idset::IdSet;
use nari::user::User;
use nari::StoreError;

fn ids(members: &[u64]) -> IdSet {
    let mut s = IdSet::new();
    for m in members {
        s.insert(*m);
    }
    s
}

#[test]
fn put_get_user_round_trip() {
    let mut db = Database::new();
    let alice = db.create_user(UserId(42), "Alice");
    assert_eq!(alice.id, UserId(42));
    assert_eq!(alice.name, "Alice");
    let fetched = db.fetch_user(UserId(42)).unwrap();
    assert_eq!(fetched.id, UserId(42));
    assert_eq!(fetched.name, "Alice");
    assert_eq!(fetched.events.to_vec(), Vec::<u64>::new());
}

#[test]
fn put_get_event_round_trip() {
    let mut db = Database::new();
    let event = EventBuilder::new(EventId(14), "Alice's Birthday", 123456789)
        .description("party")
        .users(ids(&[1, 2]))
        .repeats(Repeatability::Yearly)
        .priority(Priority::High)
        .build();
    db.add_user(User::new(UserId(1), "Alice"));
    db.add_user(User::new(UserId(2), "Bob"));
    event.save_to_db(&mut db).unwrap();
    let fetched = db.fetch_event(EventId(14)).unwrap();
    assert_eq!(fetched.id, EventId(14));
    assert_eq!(fetched.name, "Alice's Birthday");
    assert_eq!(fetched.description, "party");
    assert_eq!(fetched.next_occurence, 123456789);
    assert_eq!(fetched.users.to_vec(), vec![1, 2]);
    assert_eq!(fetched.repeats, Repeatability::Yearly);
    assert_eq!(fetched.priority, Priority::High);
}

#[test]
fn same_id_overwrites_last_write_wins() {
    let mut db = Database::new();
    db.add_user(User::new(UserId(7), "First"));
    db.add_user(User::new(UserId(7), "Second"));
    let fetched = db.fetch_user(UserId(7)).unwrap();
    assert_eq!(fetched.name, "Second");
}

#[test]
fn fetch_missing_user_is_not_found() {
    let db = Database::new();
    assert_eq!(db.fetch_user(UserId(9)).unwrap_err(), StoreError::NotFound);
}

#[test]
fn fetch_missing_event_is_not_found() {
    let db = Database::new();
    assert_eq!(db.fetch_event(EventId(9)).unwrap_err(), StoreError::NotFound);
}

#[test]
fn identity_based_equality() {
    let with_name = User::new(UserId(3), "Carol");
    let renamed = User::new(UserId(3), "Caroline");
    let other = User::new(UserId(4), "Carol");
    assert_eq!(with_name, renamed);
    assert_ne!(with_name, other);
    let e1 = EventBuilder::new(EventId(5), "One", 10).build();
    let e2 = EventBuilder::new(EventId(5), "Two", 20).build();
    assert_eq!(e1, e2);
}

#[test]
fn link_event_to_users_writes_both_sides() {
    let mut db = Database::new();
    let alice = db.create_user(UserId(1), "Alice");
    let bob = db.create_user(UserId(2), "Bob");
    let party = EventBuilder::new(EventId(40), "Party", 1000).build();
    db.add_event_to_users(party, vec![alice, bob]);
    let alice2 = db.fetch_user(UserId(1)).unwrap();
    let bob2 = db.fetch_user(UserId(2)).unwrap();
    let party2 = db.fetch_event(EventId(40)).unwrap();
    assert!(alice2.events.contains(40));
    assert!(bob2.events.contains(40));
    assert!(party2.users.contains(1));
    assert!(party2.users.contains(2));
}

#[test]
fn link_user_to_events_writes_both_sides() {
    let mut db = Database::new();
    let bob = db.create_user(UserId(2), "Bob");
    let first = EventBuilder::new(EventId(50), "First", 100).build();
    let second = EventBuilder::new(EventId(51), "Second", 200).build();
    db.add_user_to_events(bob, vec![first, second]);
    let bob2 = db.fetch_user(UserId(2)).unwrap();
    assert!(bob2.events.contains(50));
    assert!(bob2.events.contains(51));
    assert!(db.fetch_event(EventId(50)).unwrap().users.contains(2));
    assert!(db.fetch_event(EventId(51)).unwrap().users.contains(2));
}

#[test]
fn linking_twice_is_idempotent() {
    let mut db = Database::new();
    let alice = db.create_user(UserId(1), "Alice");
    let party = EventBuilder::new(EventId(40), "Party", 1000).build();
    db.add_event_to_users(party.clone(), vec![alice.clone()]);
    let alice_once = db.fetch_user(UserId(1)).unwrap();
    let party_once = db.fetch_event(EventId(40)).unwrap();
    let cache_once = db.cache_text();
    db.add_event_to_users(party, vec![alice]);
    let alice_twice = db.fetch_user(UserId(1)).unwrap();
    let party_twice = db.fetch_event(EventId(40)).unwrap();
    let cache_twice = db.cache_text();
    assert_eq!(alice_once.name, alice_twice.name);
    assert_eq!(alice_once.events.to_vec(), alice_twice.events.to_vec());
    assert_eq!(party_once.users.to_vec(), party_twice.users.to_vec());
    assert_eq!(cache_once, cache_twice);
}

#[test]
fn add_event_links_named_users() {
    let mut db = Database::new();
    db.add_user(User::new(UserId(1), "Alice"));
    let event = EventBuilder::new(EventId(8), "Meeting", 500).users(ids(&[1])).build();
    assert!(db.add_event(event).is_ok());
    assert!(db.fetch_user(UserId(1)).unwrap().events.contains(8));
    assert!(db.fetch_event(EventId(8)).unwrap().users.contains(1));
}

#[test]
fn add_event_with_missing_user_reports_drift() {
    let mut db = Database::new();
    db.add_user(User::new(UserId(1), "Alice"));
    let event = EventBuilder::new(EventId(8), "Meeting", 500).users(ids(&[1, 5])).build();
    assert_eq!(db.add_event(event).unwrap_err(), StoreError::RelationDrift);
    // The event is stored either way, and the stored user is still linked.
    assert!(db.fetch_event(EventId(8)).is_ok());
    assert!(db.fetch_user(UserId(1)).unwrap().events.contains(8));
}

#[test]
fn load_cache_text_replaces_the_mapping() {
    // The synchronizer's full-replace reload: the document's mapping takes
    // the place of whatever the store held, and a corrupt document changes
    // nothing.
    let mut db = Database::new();
    db.add_event(EventBuilder::new(EventId(1), "A", 100).build()).unwrap();
    let mut other = nari::cache::EventCache::new();
    other.insert(700, 7);
    db.load_cache_text(&other.to_text()).unwrap();
    let reloaded = nari::cache::EventCache::from_text(&db.cache_text()).unwrap();
    assert!(reloaded.contains_key(700));
    assert!(!reloaded.contains_key(100));
    assert_eq!(db.load_cache_text("junk").unwrap_err(), StoreError::Corrupt);
    let kept = nari::cache::EventCache::from_text(&db.cache_text()).unwrap();
    assert!(kept.contains_key(700));
}

#[test]
fn rebuild_cache_from_distinct_timestamps() {
    let mut db = Database::new();
    db.add_event(EventBuilder::new(EventId(1), "A", 100).build()).unwrap();
    db.add_event(EventBuilder::new(EventId(2), "B", 200).build()).unwrap();
    db.add_event(EventBuilder::new(EventId(3), "C", 300).build()).unwrap();
    db.rewrite_cache();
    let text = db.cache_text();
    let mut cache = nari::cache::EventCache::from_text(&text).unwrap();
    // The rebuilt mapping holds exactly the three scheduled events (and no
    // sentinel: the rebuild replaces the cache wholesale).
    assert_eq!(cache.len(), 3);
    let all = nari::dispatch::dispatch_tick(&mut cache, u64::MAX).unwrap();
    assert_eq!(all, vec![(100, 1), (200, 2), (300, 3)]);
}

#[test]
fn rebuild_cache_collision_keeps_exactly_one() {
    let mut db = Database::new();
    db.add_event(EventBuilder::new(EventId(3), "A", 100).build()).unwrap();
    db.add_event(EventBuilder::new(EventId(9), "B", 100).build()).unwrap();
    db.rewrite_cache();
    let text = db.cache_text();
    let mut cache = nari::cache::EventCache::from_text(&text).unwrap();
    assert_eq!(cache.len(), 1);
    let all = nari::dispatch::dispatch_tick(&mut cache, u64::MAX).unwrap();
    // Events are scanned in increasing id order, so the larger id wins.
    assert_eq!(all, vec![(100, 9)]);
}
