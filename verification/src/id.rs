//! Opaque 64-bit identifiers for the two entity kinds. They are assigned by
//! the caller and unique by convention only: storing a record under an id
//! that is already taken overwrites the prior record (last write wins).

use vstd::prelude::*;

verus! {

/// Identifies a user (a named actor).
#[derive(Clone, Copy, Debug, Default, PartialEq, Eq, Hash, Structural)]
pub struct UserId(pub u64);

/// Identifies an event (a timestamped occurrence).
#[derive(Clone, Copy, Debug, Default, PartialEq, Eq, Hash, Structural)]
pub struct EventId(pub u64);

} // verus!
