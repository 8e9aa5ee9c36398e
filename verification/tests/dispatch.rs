//! Tests of the cache document codec, the dispatcher's tick, the sentinel
//! policy, the locked-merge compute step, and the retry backoff.

use nari::cache::{merge_entry_text, EventCache, RESERVED_ID, SENTINEL_TIMESTAMP};
use nari::database::Database;
use nari::dispatch::{dispatch_tick, lock_retry_delay, retire_due_text, LOCK_RETRY_LIMIT};
use nari::event::EventBuilder;
use nari::id::{EventId, UserId};
use nari::StoreError;

#[test]
fn cache_text_round_trip() {
    let mut cache = EventCache::new();
    cache.insert(100, 1);
    cache.insert(200, 2);
    let text = cache.to_text();
    let back = EventCache::from_text(&text).unwrap();
    assert_eq!(back.len(), 2);
    assert!(back.contains_key(100));
    assert!(back.contains_key(200));
    assert!(!back.contains_key(300));
}

#[test]
fn from_text_rejects_garbage_as_corrupt() {
    assert_eq!(EventCache::from_text("not a mapping").unwrap_err(), StoreError::Corrupt);
    assert_eq!(EventCache::from_text("[1, 2, 3]").unwrap_err(), StoreError::Corrupt);
}

#[test]
fn insert_overwrites_same_timestamp() {
    let mut cache = EventCache::new();
    cache.insert(100, 1);
    cache.insert(100, 2);
    assert_eq!(cache.len(), 1);
    let due = dispatch_tick(&mut cache, 100).unwrap();
    assert_eq!(due, vec![(100, 2)]);
}

#[test]
fn tick_delivers_due_in_order_and_keeps_future() {
    // t1 < t2 < now < t3: one tick retires exactly t1 and t2, in that order.
    let mut cache = EventCache::new();
    cache.insert(3000, 33);
    cache.insert(1000, 11);
    cache.insert(2000, 22);
    let now = 2500;
    assert!(cache.has_passed_event(now));
    let due = dispatch_tick(&mut cache, now).unwrap();
    assert_eq!(due, vec![(1000, 11), (2000, 22)]);
    assert!(!cache.contains_key(1000));
    assert!(!cache.contains_key(2000));
    assert!(cache.contains_key(3000));
    assert!(!cache.has_passed_event(now));
}

#[test]
fn tick_boundary_timestamp_is_due() {
    let mut cache = EventCache::new();
    cache.insert(500, 5);
    assert!(cache.has_passed_event(500));
    let due = dispatch_tick(&mut cache, 500).unwrap();
    assert_eq!(due, vec![(500, 5)]);
}

#[test]
fn fresh_store_sentinel_is_never_due() {
    let db = Database::new();
    let text = db.cache_text();
    let mut cache = EventCache::from_text(&text).unwrap();
    assert_eq!(cache.len(), 1);
    assert!(cache.contains_key(SENTINEL_TIMESTAMP));
    // Any realistic clock value is far below the sentinel timestamp.
    assert!(!cache.has_passed_event(1_700_000_000));
    let due = dispatch_tick(&mut cache, 1_700_000_000).unwrap();
    assert_eq!(due, Vec::<(u64, u64)>::new());
    assert!(cache.contains_key(SENTINEL_TIMESTAMP));
}

#[test]
fn collected_sentinel_is_a_fatal_consistency_violation() {
    let mut cache = EventCache::new();
    cache.insert(5, RESERVED_ID);
    cache.insert(7, 1);
    assert_eq!(dispatch_tick(&mut cache, 10).unwrap_err(), StoreError::Corrupt);
}

#[test]
fn merged_inserts_with_distinct_timestamps_both_survive() {
    // Two cooperating writers, each one locked read-modify-write cycle:
    // whichever order the cycles take, no update is lost.
    let base = EventCache::new().to_text();
    let after_first = merge_entry_text(&base, 100, 1).unwrap();
    let after_both = merge_entry_text(&after_first, 200, 2).unwrap();
    let mut cache = EventCache::from_text(&after_both).unwrap();
    let all = dispatch_tick(&mut cache, u64::MAX).unwrap();
    assert_eq!(all, vec![(100, 1), (200, 2)]);
    let other_first = merge_entry_text(&base, 200, 2).unwrap();
    let other_both = merge_entry_text(&other_first, 100, 1).unwrap();
    assert_eq!(after_both, other_both);
}

#[test]
fn retire_due_text_prunes_the_document() {
    // The locked retirement cycle: the document read under the lock comes
    // back with exactly the due entries removed, and those entries in
    // increasing timestamp order for delivery.
    let mut cache = EventCache::new();
    cache.insert(1000, 11);
    cache.insert(2000, 22);
    cache.insert(3000, 33);
    let text = cache.to_text();
    let (pruned, due) = retire_due_text(&text, 2500).unwrap();
    assert_eq!(due, vec![(1000, 11), (2000, 22)]);
    let back = EventCache::from_text(&pruned).unwrap();
    assert!(!back.contains_key(1000));
    assert!(!back.contains_key(2000));
    assert!(back.contains_key(3000));
}

#[test]
fn retire_due_text_keeps_a_merge_made_meanwhile() {
    // A cooperating process's merge lands between the dispatcher's reload
    // and its tick: retirement works on the current document, so the merge
    // survives.
    let mut cache = EventCache::new();
    cache.insert(1000, 11);
    let merged = merge_entry_text(&cache.to_text(), 9000, 99).unwrap();
    let (pruned, due) = retire_due_text(&merged, 2500).unwrap();
    assert_eq!(due, vec![(1000, 11)]);
    assert!(EventCache::from_text(&pruned).unwrap().contains_key(9000));
}

#[test]
fn retire_due_text_rejects_garbage_and_a_due_sentinel() {
    assert_eq!(retire_due_text("broken", 5).unwrap_err(), StoreError::Corrupt);
    let mut cache = EventCache::new();
    cache.insert(5, RESERVED_ID);
    let text = cache.to_text();
    assert_eq!(retire_due_text(&text, 10).unwrap_err(), StoreError::Corrupt);
}

#[test]
fn merge_entry_text_rejects_garbage() {
    assert_eq!(merge_entry_text("broken", 1, 2).unwrap_err(), StoreError::Corrupt);
}

#[test]
fn lock_retry_backoff_doubles_then_gives_up() {
    assert_eq!(lock_retry_delay(0), Some(50));
    assert_eq!(lock_retry_delay(1), Some(100));
    assert_eq!(lock_retry_delay(2), Some(200));
    assert_eq!(lock_retry_delay(3), Some(400));
    assert_eq!(lock_retry_delay(4), Some(800));
    assert_eq!(lock_retry_delay(LOCK_RETRY_LIMIT), None);
    assert_eq!(lock_retry_delay(u64::MAX), None);
}

#[test]
fn end_to_end_scenario() {
    // Initialize a store, create a subject, link a described occurrence two
    // seconds ahead, and poll past it: exactly one delivery, carrying the
    // occurrence, and the cache no longer holds its timestamp.
    let now = 1_700_000_000;
    let mut db = Database::new();
    let alice = db.create_user(UserId(1), "Alice");
    let mut audience = nari::idset::IdSet::new();
    audience.insert(alice.id.0);
    db.build_event(EventId(1), "Birthday", now + 2)
        .description("party")
        .users(audience)
        .build()
        .save_to_db(&mut db)
        .unwrap();
    // The dispatcher polls the shared cache document.
    let text = db.cache_text();
    let mut cache = EventCache::from_text(&text).unwrap();
    let due = dispatch_tick(&mut cache, now + 3).unwrap();
    assert_eq!(due, vec![(now + 2, 1)]);
    let delivered = db.fetch_event(EventId(1)).unwrap();
    assert_eq!(delivered.id, EventId(1));
    assert_eq!(delivered.description, "party");
    assert!(!cache.contains_key(now + 2));
    assert!(cache.contains_key(SENTINEL_TIMESTAMP));
    // Nothing further is due on the next tick.
    let again = dispatch_tick(&mut cache, now + 3).unwrap();
    assert_eq!(again, Vec::<(u64, u64)>::new());
}
