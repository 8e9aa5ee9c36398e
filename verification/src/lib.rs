//! A filesystem-backed persistence and scheduling core for two entity kinds:
//! users (named actors) and events (timestamped occurrences with an audience
//! of users).
//!
//! This crate holds the verified heart of the system: the entity store with
//! its denormalized user/event relation, the timestamp-ordered event cache,
//! and the polling dispatcher's decision logic. The surrounding process
//! (directories, per-record files, advisory file locks, change watching and
//! delivery channels) hands plain values in and out of this core.

pub mod cache;
pub mod database;
pub mod dispatch;
pub mod event;
pub mod id;
pub mod idset;
pub mod kvmap;
pub mod laws;
pub mod user;

use vstd::prelude::*;

verus! {

/// Errors reported by store operations.
///
/// `NotFound` and `Corrupt` concern a single record; `IoFailure` and
/// `LockFailure` are raised by the surrounding process when the filesystem
/// or the advisory lock fails; `RelationDrift` reports that an event named
/// users that are not stored, so the user/event relation is one-sided.
#[derive(Clone, Copy, Debug, PartialEq, Eq, Structural)]
pub enum StoreError {
    NotFound,
    Corrupt,
    IoFailure,
    LockFailure,
    RelationDrift,
}

} // verus!
