//! A user: a named actor that can be linked to events. The record keeps its
//! side of the many-to-many relation as a set of event identifiers.

use vstd::prelude::*;

use crate::id::UserId;
use crate::idset::IdSet;

verus! {

/// The abstract value of a [`User`].
pub struct UserView {
    pub id: u64,
    pub name: Seq<char>,
    pub events: Set<u64>,
}

/// A named actor. Two users are equal exactly when their ids are equal,
/// whatever the rest of the record holds; this identity-based equality is
/// what makes re-storing an id overwrite the prior record.
#[derive(Debug)]
pub struct User {
    pub id: UserId,
    pub name: String,
    pub events: IdSet,
}

impl View for User {
    type V = UserView;

    open spec fn view(&self) -> UserView {
        UserView { id: self.id.0, name: self.name@, events: self.events@ }
    }
}

impl User {
    /// The record's internal invariant: its event set is well-formed.
    pub open spec fn wf(&self) -> bool {
        self.events.wf()
    }

    /// A fresh user with no linked events.
    pub fn new(id: UserId, name: &str) -> (u: User)
        ensures
            u.wf(),
            u@ == (UserView { id: id.0, name: name@, events: Set::<u64>::empty() }),
    {
        User { id, name: String::from_str(name), events: IdSet::new() }
    }
}

impl Clone for User {
    fn clone(&self) -> (r: Self)
        ensures
            r@ == self@,
            r.wf() <==> self.wf(),
    {
        User { id: self.id, name: self.name.clone(), events: self.events.clone() }
    }
}

impl PartialEq for User {
    /// Identity-based equality: by id only.
    fn eq(&self, other: &Self) -> (r: bool) {
        self.id == other.id
    }
}

impl vstd::std_specs::cmp::PartialEqSpecImpl for User {
    open spec fn obeys_eq_spec() -> bool {
        true
    }

    open spec fn eq_spec(&self, other: &Self) -> bool {
        self.id == other.id
    }
}

impl Eq for User {

}

} // verus!
