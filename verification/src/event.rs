//! An event: a timestamped occurrence with an audience of users. Records are
//! assembled through [`EventBuilder`], which fixes an explicit default for
//! every optional field at the construction boundary.

use vstd::prelude::*;

use crate::id::EventId;
use crate::idset::IdSet;

verus! {

/// How an event repeats after it fires.
#[derive(Clone, Copy, Debug, PartialEq, Eq, Structural)]
pub enum Repeatability {
    Yearly,
    Biyearly,
    Quarterly,
    Monthly,
    Bimonthly,
    Weekly,
    Daily,
    Hourly,
    Never,
}

/// How urgent an event is for its audience.
#[derive(Clone, Copy, Debug, PartialEq, Eq, Structural)]
pub enum Priority {
    Urgent,
    VeryHigh,
    High,
    Medium,
    Low,
    Minimal,
}

/// The abstract value of an [`Event`].
pub struct EventView {
    pub id: u64,
    pub name: Seq<char>,
    pub description: Seq<char>,
    pub next_occurence: u64,
    pub users: Set<u64>,
    pub repeats: Repeatability,
    pub priority: Priority,
}

/// A timestamped occurrence. `next_occurence` is a Unix timestamp in
/// seconds. Two events are equal exactly when their ids are equal, whatever
/// the rest of the record holds (identity-based equality).
#[derive(Debug)]
pub struct Event {
    pub id: EventId,
    pub name: String,
    pub description: String,
    pub next_occurence: u64,
    pub users: IdSet,
    pub repeats: Repeatability,
    pub priority: Priority,
}

impl View for Event {
    type V = EventView;

    open spec fn view(&self) -> EventView {
        EventView {
            id: self.id.0,
            name: self.name@,
            description: self.description@,
            next_occurence: self.next_occurence,
            users: self.users@,
            repeats: self.repeats,
            priority: self.priority,
        }
    }
}

impl Event {
    /// The record's internal invariant: its user set is well-formed.
    pub open spec fn wf(&self) -> bool {
        self.users.wf()
    }
}

impl Clone for Event {
    fn clone(&self) -> (r: Self)
        ensures
            r@ == self@,
            r.wf() <==> self.wf(),
    {
        Event {
            id: self.id,
            name: self.name.clone(),
            description: self.description.clone(),
            next_occurence: self.next_occurence,
            users: self.users.clone(),
            repeats: self.repeats,
            priority: self.priority,
        }
    }
}

impl PartialEq for Event {
    /// Identity-based equality: by id only.
    fn eq(&self, other: &Self) -> (r: bool) {
        self.id == other.id
    }
}

impl vstd::std_specs::cmp::PartialEqSpecImpl for Event {
    open spec fn obeys_eq_spec() -> bool {
        true
    }

    open spec fn eq_spec(&self, other: &Self) -> bool {
        self.id == other.id
    }
}

impl Eq for Event {

}

/// Assembles an [`Event`]. The required fields are given up front; the
/// optional ones default to an empty description, an empty audience,
/// [`Repeatability::Never`] and [`Priority::Low`].
pub struct EventBuilder {
    id: EventId,
    name: String,
    description: String,
    next_occurence: u64,
    users: IdSet,
    repeats: Repeatability,
    priority: Priority,
}

impl View for EventBuilder {
    type V = EventView;

    closed spec fn view(&self) -> EventView {
        EventView {
            id: self.id.0,
            name: self.name@,
            description: self.description@,
            next_occurence: self.next_occurence,
            users: self.users@,
            repeats: self.repeats,
            priority: self.priority,
        }
    }
}

impl EventBuilder {
    /// The builder's internal invariant: its user set is well-formed.
    pub closed spec fn wf(&self) -> bool {
        self.users.wf()
    }

    /// Starts a builder from the required fields, with every optional field
    /// at its documented default.
    pub fn new(id: EventId, name: &str, next_occurence: u64) -> (b: Self)
        ensures
            b.wf(),
            b@ == (EventView {
                id: id.0,
                name: name@,
                description: Seq::<char>::empty(),
                next_occurence,
                users: Set::<u64>::empty(),
                repeats: Repeatability::Never,
                priority: Priority::Low,
            }),
    {
        let b = EventBuilder {
            id,
            name: String::from_str(name),
            description: String::new(),
            next_occurence,
            users: IdSet::new(),
            repeats: Repeatability::Never,
            priority: Priority::Low,
        };
        proof {
            assert(b@.description =~= Seq::<char>::empty());
        }
        b
    }

    /// Sets the free-text description.
    pub fn description(self, desc: &str) -> (r: Self)
        ensures
            r.wf() <==> self.wf(),
            r@ == (EventView { description: desc@, ..self@ }),
    {
        EventBuilder { description: String::from_str(desc), ..self }
    }

    /// Sets the initial audience.
    pub fn users(self, users: IdSet) -> (r: Self)
        requires
            users.wf(),
        ensures
            r.wf(),
            r@ == (EventView { users: users@, ..self@ }),
    {
        EventBuilder { users, ..self }
    }

    /// Sets how the event repeats.
    pub fn repeats(self, repeats: Repeatability) -> (r: Self)
        ensures
            r.wf() <==> self.wf(),
            r@ == (EventView { repeats, ..self@ }),
    {
        EventBuilder { repeats, ..self }
    }

    /// Sets the event's priority.
    pub fn priority(self, priority: Priority) -> (r: Self)
        ensures
            r.wf() <==> self.wf(),
            r@ == (EventView { priority, ..self@ }),
    {
        EventBuilder { priority, ..self }
    }

    /// Finishes the record.
    pub fn build(self) -> (e: Event)
        ensures
            e.wf() <==> self.wf(),
            e@ == self@,
    {
        Event {
            id: self.id,
            name: self.name,
            description: self.description,
            next_occurence: self.next_occurence,
            users: self.users,
            repeats: self.repeats,
            priority: self.priority,
        }
    }
}

} // verus!
