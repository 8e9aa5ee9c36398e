//! The entity store: users and events under their ids, together with the
//! event cache that schedules every stored event. This is the verified model
//! of the store's state; the surrounding process mirrors each record to one
//! file per entity and the cache to the shared cache document.
//!
//! The user/event relation is stored redundantly on both sides. A linking
//! operation writes each side as its own single-record transaction, so a
//! partially applied link is possible in the filesystem; [`Database::rewrite_cache`]
//! is the repair operation for the cache side, and [`Database::add_event`]
//! reports one-sided links as [`StoreError::RelationDrift`] instead of
//! passing over them in silence.

use vstd::prelude::*;

use crate::cache::{cache_doc, EventCache, RESERVED_ID, SENTINEL_TIMESTAMP};
use crate::event::{Event, EventBuilder, EventView};
use crate::id::{EventId, UserId};
use crate::kvmap::{sorted_strict, Table};
use crate::user::{User, UserView};
use crate::StoreError;

verus! {

/// The abstract state of a database: both entity tables and the mapping the
/// event cache holds.
pub struct DbView {
    pub users: Map<u64, UserView>,
    pub events: Map<u64, EventView>,
    pub cache: Map<u64, u64>,
}

/// A user record with one more linked event.
pub open spec fn spec_user_with_event(u: UserView, eid: u64) -> UserView {
    UserView { events: u.events.insert(eid), ..u }
}

/// A user record with a whole audience of events linked.
pub open spec fn spec_user_with_events(u: UserView, eids: Set<u64>) -> UserView {
    UserView { events: u.events.union(eids), ..u }
}

/// An event record with a whole audience of users linked.
pub open spec fn spec_event_with_users(e: EventView, uids: Set<u64>) -> EventView {
    EventView { users: e.users.union(uids), ..e }
}

/// An event record with one more linked user.
pub open spec fn spec_event_with_user(e: EventView, uid: u64) -> EventView {
    EventView { users: e.users.insert(uid), ..e }
}

/// The views of a sequence of user records.
pub open spec fn user_views(us: Seq<User>) -> Seq<UserView> {
    us.map_values(|u: User| u@)
}

/// The views of a sequence of event records.
pub open spec fn event_views(es: Seq<Event>) -> Seq<EventView> {
    es.map_values(|e: Event| e@)
}

/// The ids named by a sequence of user records.
pub open spec fn user_id_set(us: Seq<UserView>) -> Set<u64> {
    Set::new(|k: u64| exists|j: int| 0 <= j < us.len() && us[j].id == k)
}

/// The ids named by a sequence of event records.
pub open spec fn event_id_set(es: Seq<EventView>) -> Set<u64> {
    Set::new(|k: u64| exists|j: int| 0 <= j < es.len() && es[j].id == k)
}

/// Stores each given user record in turn, with the event linked into it; on
/// a repeated id the later record wins.
pub open spec fn spec_link_users(m: Map<u64, UserView>, us: Seq<UserView>, eid: u64) -> Map<
    u64,
    UserView,
>
    decreases us.len(),
{
    if us.len() == 0 {
        m
    } else {
        spec_link_users(m, us.drop_last(), eid).insert(
            us.last().id,
            spec_user_with_event(us.last(), eid),
        )
    }
}

/// Stores each given event record in turn, with the user linked into it; on
/// a repeated id the later record wins.
pub open spec fn spec_link_events(m: Map<u64, EventView>, es: Seq<EventView>, uid: u64) -> Map<
    u64,
    EventView,
>
    decreases es.len(),
{
    if es.len() == 0 {
        m
    } else {
        spec_link_events(m, es.drop_last(), uid).insert(
            es.last().id,
            spec_event_with_user(es.last(), uid),
        )
    }
}

/// Schedules each given event in turn in the cache mapping.
pub open spec fn spec_schedule_events(c: Map<u64, u64>, es: Seq<EventView>) -> Map<u64, u64>
    decreases es.len(),
{
    if es.len() == 0 {
        c
    } else {
        spec_schedule_events(c, es.drop_last()).insert(es.last().next_occurence, es.last().id)
    }
}

/// Rebuilds a cache mapping from the events enumerated by a key sequence, in
/// order; on a shared timestamp the later event wins.
pub open spec fn spec_rebuild(events: Map<u64, EventView>, ks: Seq<u64>) -> Map<u64, u64>
    decreases ks.len(),
{
    if ks.len() == 0 {
        Map::empty()
    } else {
        spec_rebuild(events, ks.drop_last()).insert(
            events[ks.last()].next_occurence,
            events[ks.last()].id,
        )
    }
}

/// The entity store. All reads and writes go through ids; re-using an id
/// overwrites the prior record (last write wins).
pub struct Database {
    users: Table<User>,
    events: Table<Event>,
    cache: EventCache,
}

impl View for Database {
    type V = DbView;

    closed spec fn view(&self) -> DbView {
        DbView {
            users: self.users@.map_values(|u: User| u@),
            events: self.events@.map_values(|e: Event| e@),
            cache: self.cache.as_map(),
        }
    }
}

impl Database {
    /// The store's internal invariant: the tables and the cache are
    /// well-formed, and every stored record is well-formed and keyed by its
    /// own id.
    pub closed spec fn wf(&self) -> bool {
        &&& self.users.wf()
        &&& self.events.wf()
        &&& self.cache.wf()
        &&& forall|k: u64| #[trigger]
            self.users@.contains_key(k) ==> self.users@[k].wf() && self.users@[k].id.0 == k
        &&& forall|k: u64| #[trigger]
            self.events@.contains_key(k) ==> self.events@[k].wf() && self.events@[k].id.0 == k
    }

    /// A fresh, empty store. The cache starts with the sentinel entry at the
    /// maximum representable timestamp, so "is anything due" never asks an
    /// empty structure.
    pub fn new() -> (db: Database)
        ensures
            db.wf(),
            db@.users == Map::<u64, UserView>::empty(),
            db@.events == Map::<u64, EventView>::empty(),
            db@.cache == Map::<u64, u64>::empty().insert(SENTINEL_TIMESTAMP, RESERVED_ID),
    {
        let users: Table<User> = Table::new();
        let events: Table<Event> = Table::new();
        let mut cache = EventCache::new();
        cache.insert(SENTINEL_TIMESTAMP, RESERVED_ID);
        let db = Database { users, events, cache };
        proof {
            assert(db@.users =~= Map::<u64, UserView>::empty());
            assert(db@.events =~= Map::<u64, EventView>::empty());
        }
        db
    }

    /// Creates a user, stores it, and returns it.
    pub fn create_user(&mut self, id: UserId, name: &str) -> (user: User)
        requires
            old(self).wf(),
        ensures
            final(self).wf(),
            user.wf(),
            user@ == (UserView { id: id.0, name: name@, events: Set::<u64>::empty() }),
            final(self)@.users == old(self)@.users.insert(id.0, user@),
            final(self)@.events == old(self)@.events,
            final(self)@.cache == old(self)@.cache,
    {
        let user = User::new(id, name);
        self.add_user(user.clone());
        user
    }

    /// Stores a user record under its id, overwriting any prior record
    /// there.
    pub fn add_user(&mut self, user: User)
        requires
            old(self).wf(),
            user.wf(),
        ensures
            final(self).wf(),
            final(self)@.users == old(self)@.users.insert(user@.id, user@),
            final(self)@.events == old(self)@.events,
            final(self)@.cache == old(self)@.cache,
    {
        let ghost uv = user@;
        let key = user.id.0;
        self.users.put(key, user);
        proof {
            assert(self@.users =~= old(self)@.users.insert(uv.id, uv));
        }
    }

    /// Fetches the user stored under an id; an id never stored is
    /// `NotFound`.
    pub fn fetch_user(&self, id: UserId) -> (r: Result<User, StoreError>)
        requires
            self.wf(),
        ensures
            match r {
                Ok(u) => self@.users.contains_key(id.0) && u@ == self@.users[id.0] && u.wf(),
                Err(e) => e == StoreError::NotFound && !self@.users.contains_key(id.0),
            },
    {
        match self.users.get(id.0) {
            Some(u) => Ok(u.clone()),
            None => Err(StoreError::NotFound),
        }
    }

    /// Fetches the event stored under an id; an id never stored is
    /// `NotFound`.
    pub fn fetch_event(&self, id: EventId) -> (r: Result<Event, StoreError>)
        requires
            self.wf(),
        ensures
            match r {
                Ok(e) => self@.events.contains_key(id.0) && e@ == self@.events[id.0] && e.wf(),
                Err(err) => err == StoreError::NotFound && !self@.events.contains_key(id.0),
            },
    {
        match self.events.get(id.0) {
            Some(e) => Ok(e.clone()),
            None => Err(StoreError::NotFound),
        }
    }

    /// Starts a builder for an event, from the required fields.
    pub fn build_event(&self, id: EventId, name: &str, next_occurence: u64) -> (b: EventBuilder)
        ensures
            b.wf(),
            b@ == (EventView {
                id: id.0,
                name: name@,
                description: Seq::<char>::empty(),
                next_occurence,
                users: Set::<u64>::empty(),
                repeats: crate::event::Repeatability::Never,
                priority: crate::event::Priority::Low,
            }),
    {
        EventBuilder::new(id, name, next_occurence)
    }

    /// Stores an event record: schedules it in the cache, writes it under
    /// its id, and links it into every user it names. Each named user that
    /// is stored gets the event's id added to its event set; if some named
    /// user is not stored, the relation is left one-sided for it and the
    /// call reports `RelationDrift` (the event itself is stored either way).
    pub fn add_event(&mut self, event: Event) -> (r: Result<(), StoreError>)
        requires
            old(self).wf(),
            event.wf(),
        ensures
            final(self).wf(),
            final(self)@.events == old(self)@.events.insert(event@.id, event@),
            final(self)@.cache == old(self)@.cache.insert(event@.next_occurence, event@.id),
            final(self)@.users.dom() == old(self)@.users.dom(),
            forall|k: u64| #[trigger]
                old(self)@.users.contains_key(k) ==> final(self)@.users[k] == (
                if event@.users.contains(k) {
                    spec_user_with_event(old(self)@.users[k], event@.id)
                } else {
                    old(self)@.users[k]
                }),
            r == (if event@.users.subset_of(old(self)@.users.dom()) {
                Ok::<(), StoreError>(())
            } else {
                Err::<(), StoreError>(StoreError::RelationDrift)
            }),
    {
        let ghost pre = self@;
        self.cache.insert(event.next_occurence, event.id.0);
        let uids = event.users.to_vec();
        let eid = event.id.0;
        let ghost ev = event@;
        self.events.put(eid, event);
        proof {
            assert(self@.events =~= pre.events.insert(ev.id, ev));
            assert(self@.users =~= pre.users);
        }
        let mut drift = false;
        let mut i: usize = 0;
        while i < uids.len()
            invariant
                0 <= i <= uids.len(),
                self.users.wf(),
                self.events.wf(),
                self.cache.wf(),
                forall|k: u64| #[trigger]
                    self.users@.contains_key(k) ==> self.users@[k].wf() && self.users@[k].id.0
                        == k,
                forall|k: u64| #[trigger]
                    self.events@.contains_key(k) ==> self.events@[k].wf() && self.events@[k].id.0
                        == k,
                sorted_strict(uids@),
                forall|y: u64| uids@.contains(y) <==> ev.users.contains(y),
                self@.events == pre.events.insert(ev.id, ev),
                self@.cache == pre.cache.insert(ev.next_occurence, ev.id),
                eid == ev.id,
                self@.users.dom() == pre.users.dom(),
                forall|k: u64| #[trigger]
                    pre.users.contains_key(k) ==> self@.users[k] == (
                    if exists|j: int| 0 <= j < i && uids@[j] == k {
                        spec_user_with_event(pre.users[k], eid)
                    } else {
                        pre.users[k]
                    }),
                drift == exists|j: int| 0 <= j < i && !pre.users.contains_key(uids@[j]),
            decreases uids.len() - i,
        {
            let uid = uids[i];
            let ghost users_before = self@.users;
            proof {
                assert(!(exists|j: int| 0 <= j < i && uids@[j] == uid)) by {
                    if exists|j: int| 0 <= j < i && uids@[j] == uid {
                        let j = choose|j: int| 0 <= j < i && uids@[j] == uid;
                        assert(uids@[j] < uids@[i as int]);
                    }
                }
            }
            let got = self.users.get(uid);
            match got {
                Some(u) => {
                    let mut u2 = u.clone();
                    u2.events.insert(eid);
                    self.users.put(uid, u2);
                    proof {
                        assert(pre.users.contains_key(uid));
                        assert(users_before[uid] == pre.users[uid]);
                        assert(self@.users =~= users_before.insert(
                            uid,
                            spec_user_with_event(pre.users[uid], eid),
                        ));
                        assert(self@.users.dom() =~= pre.users.dom());
                    }
                },
                None => {
                    drift = true;
                    proof {
                        assert(!pre.users.contains_key(uid));
                    }
                },
            }
            i += 1;
            proof {
                assert(uids@[i - 1] == uid);
                assert forall|k: u64| #[trigger]
                    pre.users.contains_key(k) implies self@.users[k] == (
                if exists|j: int| 0 <= j < i && uids@[j] == k {
                    spec_user_with_event(pre.users[k], eid)
                } else {
                    pre.users[k]
                }) by {
                    if exists|j: int| 0 <= j < i && uids@[j] == k {
                        let j = choose|j: int| 0 <= j < i && uids@[j] == k;
                        if j == i - 1 {
                            assert(k == uid);
                        } else {
                            assert(exists|j2: int| 0 <= j2 < i - 1 && uids@[j2] == k);
                        }
                    }
                }
                assert(drift == exists|j: int| 0 <= j < i && !pre.users.contains_key(uids@[j]))
                    by {
                    if drift {
                    } else {
                        if exists|j: int| 0 <= j < i && !pre.users.contains_key(uids@[j]) {
                            let j = choose|j: int|
                                0 <= j < i && !pre.users.contains_key(uids@[j]);
                            if j < i - 1 {
                                assert(exists|j2: int|
                                    0 <= j2 < i - 1 && !pre.users.contains_key(uids@[j2]));
                            }
                        }
                    }
                }
            }
        }
        proof {
            assert(ev.users.subset_of(pre.users.dom()) <==> !drift) by {
                if drift {
                    let j = choose|j: int| 0 <= j < uids@.len() && !pre.users.contains_key(
                        uids@[j],
                    );
                    assert(uids@.contains(uids@[j]));
                    assert(ev.users.contains(uids@[j]));
                }
                if !ev.users.subset_of(pre.users.dom()) {
                    let y = choose|y: u64|
                        ev.users.contains(y) && !pre.users.dom().contains(y);
                    assert(uids@.contains(y));
                    let j = choose|j: int| 0 <= j < uids@.len() && uids@[j] == y;
                }
            }
        }
        if drift {
            Err(StoreError::RelationDrift)
        } else {
            Ok(())
        }
    }

    /// Links an event to each given user: every user record is stored with
    /// the event's id added to its event set, and the event is stored once
    /// at the end with all the given users added to its audience. Both
    /// sides are sets, so applying the same link twice changes nothing more.
    pub fn add_event_to_users(&mut self, event: Event, users: Vec<User>)
        requires
            old(self).wf(),
            event.wf(),
            forall|j: int| 0 <= j < users@.len() ==> (#[trigger] users@[j]).wf(),
        ensures
            final(self).wf(),
            final(self)@.cache == old(self)@.cache.insert(event@.next_occurence, event@.id),
            final(self)@.events == old(self)@.events.insert(
                event@.id,
                spec_event_with_users(event@, user_id_set(user_views(users@))),
            ),
            final(self)@.users == spec_link_users(
                old(self)@.users,
                user_views(users@),
                event@.id,
            ),
    {
        let ghost pre = self@;
        let ghost ev = event@;
        let ghost uvs = user_views(users@);
        self.cache.insert(event.next_occurence, event.id.0);
        let eid = event.id.0;
        let mut event = event;
        let mut i: usize = 0;
        proof {
            assert(user_id_set(uvs.subrange(0, 0)) =~= Set::<u64>::empty());
            assert(ev.users.union(user_id_set(uvs.subrange(0, 0))) =~= ev.users);
        }
        while i < users.len()
            invariant
                0 <= i <= users.len(),
                self.users.wf(),
                self.events.wf(),
                self.cache.wf(),
                forall|k: u64| #[trigger]
                    self.users@.contains_key(k) ==> self.users@[k].wf() && self.users@[k].id.0
                        == k,
                forall|k: u64| #[trigger]
                    self.events@.contains_key(k) ==> self.events@[k].wf() && self.events@[k].id.0
                        == k,
                forall|j: int| 0 <= j < users@.len() ==> (#[trigger] users@[j]).wf(),
                uvs == user_views(users@),
                self@.cache == pre.cache.insert(ev.next_occurence, ev.id),
                self@.events == pre.events,
                self@.users == spec_link_users(pre.users, uvs.subrange(0, i as int), eid),
                event.wf(),
                eid == ev.id,
                event@ == spec_event_with_users(ev, user_id_set(uvs.subrange(0, i as int))),
            decreases users.len() - i,
        {
            let ghost users_before = self@.users;
            let ghost ev_before = event@;
            let u_ref = &users[i];
            let mut u2 = u_ref.clone();
            u2.events.insert(eid);
            let uid = u2.id.0;
            self.users.put(uid, u2);
            event.users.insert(uid);
            i += 1;
            proof {
                let sub = uvs.subrange(0, i as int);
                assert(sub.drop_last() =~= uvs.subrange(0, i - 1));
                assert(sub.last() == uvs[i - 1]);
                assert(uvs[i - 1] == users@[i - 1]@);
                assert(uid == uvs[i - 1].id);
                assert(self@.users =~= users_before.insert(
                    uid,
                    spec_user_with_event(uvs[i - 1], eid),
                ));
                assert(self@.users =~= spec_link_users(pre.users, sub, eid));
                assert(event@.users =~= spec_event_with_users(
                    ev,
                    user_id_set(sub),
                ).users) by {
                    assert forall|y: u64|
                        event@.users.contains(y) <==> (ev.users.contains(y) || user_id_set(
                            sub,
                        ).contains(y)) by {
                        let older = uvs.subrange(0, i - 1);
                        if user_id_set(older).contains(y) {
                            let j = choose|j: int|
                                0 <= j < older.len() && (#[trigger] older[j]).id == y;
                            assert(sub[j].id == y);
                        }
                        if user_id_set(sub).contains(y) && y != uid {
                            let j = choose|j: int|
                                0 <= j < sub.len() && (#[trigger] sub[j]).id == y;
                            assert(j < i - 1);
                            assert(older[j].id == y);
                            assert(user_id_set(older).contains(y));
                        }
                        if y == uid {
                            assert(sub[i - 1].id == y);
                            assert(user_id_set(sub).contains(y));
                        }
                    }
                }
                assert(event@ == spec_event_with_users(ev, user_id_set(sub)));
            }
        }
        proof {
            assert(uvs.subrange(0, users@.len() as int) =~= uvs);
        }
        self.events.put(eid, event);
        proof {
            assert(self@.events =~= pre.events.insert(
                ev.id,
                spec_event_with_users(ev, user_id_set(uvs)),
            ));
        }
    }

    /// Links a user to each given event: every event record is scheduled in
    /// the cache and stored with the user's id added to its audience, and
    /// the user is stored once at the end with all the given events added to
    /// its event set. Both sides are sets, so applying the same link twice
    /// changes nothing more.
    pub fn add_user_to_events(&mut self, user: User, events: Vec<Event>)
        requires
            old(self).wf(),
            user.wf(),
            forall|j: int| 0 <= j < events@.len() ==> (#[trigger] events@[j]).wf(),
        ensures
            final(self).wf(),
            final(self)@.cache == spec_schedule_events(old(self)@.cache, event_views(events@)),
            final(self)@.events == spec_link_events(
                old(self)@.events,
                event_views(events@),
                user@.id,
            ),
            final(self)@.users == old(self)@.users.insert(
                user@.id,
                spec_user_with_events(user@, event_id_set(event_views(events@))),
            ),
    {
        let ghost pre = self@;
        let ghost uv = user@;
        let ghost evs = event_views(events@);
        let uid = user.id.0;
        let mut user = user;
        let mut i: usize = 0;
        proof {
            assert(event_id_set(evs.subrange(0, 0)) =~= Set::<u64>::empty());
            assert(uv.events.union(event_id_set(evs.subrange(0, 0))) =~= uv.events);
        }
        while i < events.len()
            invariant
                0 <= i <= events.len(),
                self.users.wf(),
                self.events.wf(),
                self.cache.wf(),
                forall|k: u64| #[trigger]
                    self.users@.contains_key(k) ==> self.users@[k].wf() && self.users@[k].id.0
                        == k,
                forall|k: u64| #[trigger]
                    self.events@.contains_key(k) ==> self.events@[k].wf() && self.events@[k].id.0
                        == k,
                forall|j: int| 0 <= j < events@.len() ==> (#[trigger] events@[j]).wf(),
                evs == event_views(events@),
                self@.users == pre.users,
                self@.cache == spec_schedule_events(pre.cache, evs.subrange(0, i as int)),
                self@.events == spec_link_events(pre.events, evs.subrange(0, i as int), uid),
                user.wf(),
                uid == uv.id,
                user@ == spec_user_with_events(uv, event_id_set(evs.subrange(0, i as int))),
            decreases events.len() - i,
        {
            let ghost events_before = self@.events;
            let ghost cache_before = self@.cache;
            let e_ref = &events[i];
            let mut e2 = e_ref.clone();
            self.cache.insert(e2.next_occurence, e2.id.0);
            e2.users.insert(uid);
            let eid2 = e2.id.0;
            self.events.put(eid2, e2);
            user.events.insert(eid2);
            i += 1;
            proof {
                let sub = evs.subrange(0, i as int);
                assert(sub.drop_last() =~= evs.subrange(0, i - 1));
                assert(sub.last() == evs[i - 1]);
                assert(evs[i - 1] == events@[i - 1]@);
                assert(eid2 == evs[i - 1].id);
                assert(self@.cache =~= cache_before.insert(
                    evs[i - 1].next_occurence,
                    evs[i - 1].id,
                ));
                assert(self@.cache =~= spec_schedule_events(pre.cache, sub));
                assert(self@.events =~= events_before.insert(
                    eid2,
                    spec_event_with_user(evs[i - 1], uid),
                ));
                assert(self@.events =~= spec_link_events(pre.events, sub, uid));
                assert(user@.events =~= spec_user_with_events(
                    uv,
                    event_id_set(sub),
                ).events) by {
                    assert forall|y: u64|
                        user@.events.contains(y) <==> (uv.events.contains(y) || event_id_set(
                            sub,
                        ).contains(y)) by {
                        let older = evs.subrange(0, i - 1);
                        if event_id_set(older).contains(y) {
                            let j = choose|j: int|
                                0 <= j < older.len() && (#[trigger] older[j]).id == y;
                            assert(sub[j].id == y);
                        }
                        if event_id_set(sub).contains(y) && y != eid2 {
                            let j = choose|j: int|
                                0 <= j < sub.len() && (#[trigger] sub[j]).id == y;
                            assert(j < i - 1);
                            assert(older[j].id == y);
                            assert(event_id_set(older).contains(y));
                        }
                        if y == eid2 {
                            assert(sub[i - 1].id == y);
                            assert(event_id_set(sub).contains(y));
                        }
                    }
                }
                assert(user@ == spec_user_with_events(uv, event_id_set(sub)));
            }
        }
        proof {
            assert(evs.subrange(0, events@.len() as int) =~= evs);
        }
        self.users.put(uid, user);
        proof {
            assert(self@.users =~= pre.users.insert(
                uv.id,
                spec_user_with_events(uv, event_id_set(evs)),
            ));
        }
    }

    /// The cache's current on-disk text, for the surrounding process to
    /// write out: the document of some well-formed entry sequence denoting
    /// exactly the store's cache mapping.
    pub fn cache_text(&self) -> (r: String)
        requires
            self.wf(),
        ensures
            exists|e: Seq<(u64, u64)>| #![trigger cache_doc(e)]
                sorted_strict(crate::kvmap::key_seq(e)) && crate::kvmap::map_of_pairs(e)
                    == self@.cache && r@ == cache_doc(e),
    {
        let r = self.cache.to_text();
        proof {
            assert(sorted_strict(crate::kvmap::key_seq(self.cache@)) && crate::kvmap::map_of_pairs(
                self.cache@,
            ) == self@.cache && r@ == cache_doc(self.cache@));
        }
        r
    }

    /// Replaces the store's cache mapping with the one a cache document
    /// describes: the synchronizer's full-replace reload, used when the
    /// shared document on disk — not this store's memory — is the truth.
    /// Text that does not describe a cache mapping is refused, as corrupt,
    /// and leaves the store unchanged.
    pub fn load_cache_text(&mut self, text: &str) -> (r: Result<(), StoreError>)
        requires
            old(self).wf(),
        ensures
            final(self).wf(),
            final(self)@.users == old(self)@.users,
            final(self)@.events == old(self)@.events,
            (r matches Err(err) ==> err == StoreError::Corrupt && final(self)@.cache == old(
                self,
            )@.cache),
            forall|e: Seq<(u64, u64)>| #![trigger cache_doc(e)]
                (sorted_strict(crate::kvmap::key_seq(e)) && text@ == cache_doc(e)) ==> (r is Ok
                    && final(self)@.cache == crate::kvmap::map_of_pairs(e)),
    {
        match EventCache::from_text(text) {
            Ok(c) => {
                self.cache = c;
                Ok(())
            },
            Err(err) => Err(err),
        }
    }

    /// Rebuilds the cache mapping from every stored event, discarding
    /// whatever the cache held before (drift repair). Events are scanned in
    /// increasing id order, so when two stored events share a timestamp the
    /// one with the larger id is the one the rebuilt cache keeps.
    pub fn rewrite_cache(&mut self)
        requires
            old(self).wf(),
        ensures
            final(self).wf(),
            final(self)@.users == old(self)@.users,
            final(self)@.events == old(self)@.events,
            forall|k: u64| #[trigger]
                old(self)@.events.contains_key(k) ==> final(self)@.cache.contains_key(
                    old(self)@.events[k].next_occurence,
                ) && k <= final(self)@.cache[old(self)@.events[k].next_occurence],
            forall|t: u64| #[trigger]
                final(self)@.cache.contains_key(t) ==> old(self)@.events.contains_key(
                    final(self)@.cache[t],
                ) && old(self)@.events[final(self)@.cache[t]].next_occurence == t,
    {
        let ghost pre = self@;
        let ks = self.events.keys_vec();
        let mut c = EventCache::new();
        let mut i: usize = 0;
        while i < ks.len()
            invariant
                0 <= i <= ks.len(),
                self.wf(),
                self@ == pre,
                ks@ == self.events.keys(),
                sorted_strict(ks@),
                forall|k: u64| #[trigger] self.events@.contains_key(k) <==> ks@.contains(k),
                forall|j: int| 0 <= j < ks@.len() ==> #[trigger] self.events@.contains_key(
                    ks@[j],
                ),
                c.wf(),
                c.as_map() == spec_rebuild(pre.events, ks@.subrange(0, i as int)),
            decreases ks.len() - i,
        {
            proof {
                assert(ks@.contains(ks@[i as int]));
            }
            let got = self.events.get(ks[i]);
            match got {
                Some(e) => {
                    c.insert(e.next_occurence, e.id.0);
                    proof {
                        let sub = ks@.subrange(0, i + 1);
                        assert(sub.drop_last() =~= ks@.subrange(0, i as int));
                        assert(sub.last() == ks@[i as int]);
                        assert(e.id.0 == ks@[i as int]);
                        assert(pre.events[ks@[i as int]] == e@);
                    }
                },
                None => {
                    proof {
                        assert(false);
                    }
                },
            }
            i += 1;
        }
        self.cache = c;
        proof {
            assert(ks@.subrange(0, ks@.len() as int) =~= ks@);
            lemma_rebuild_props(pre.events, ks@);
            assert(self@.users =~= pre.users);
            assert(self@.events =~= pre.events);
        }
    }
}

/// The rebuilt mapping schedules every enumerated event, maps each timestamp
/// to an enumerated event due then, and, the enumeration increasing, keeps
/// the largest id among events sharing a timestamp.
proof fn lemma_rebuild_props(events: Map<u64, EventView>, ks: Seq<u64>)
    requires
        sorted_strict(ks),
        forall|j: int| 0 <= j < ks.len() ==> #[trigger] events.contains_key(ks[j]),
        forall|j: int| 0 <= j < ks.len() ==> events[ks[j]].id == ks[j],
    ensures
        forall|j: int| #![trigger ks[j]]
            0 <= j < ks.len() ==> spec_rebuild(events, ks).contains_key(
                events[ks[j]].next_occurence,
            ) && ks[j] <= spec_rebuild(events, ks)[events[ks[j]].next_occurence],
        forall|t: u64| #[trigger]
            spec_rebuild(events, ks).contains_key(t) ==> (exists|j: int|
                0 <= j < ks.len() && ks[j] == spec_rebuild(events, ks)[t]
                    && events[ks[j]].next_occurence == t),
    decreases ks.len(),
{
    if ks.len() > 0 {
        let kd = ks.drop_last();
        assert(sorted_strict(kd)) by {
            assert(forall|a: int, b: int|
                0 <= a < b < kd.len() ==> kd[a] == ks[a] && kd[b] == ks[b]);
        }
        lemma_rebuild_props(events, kd);
        let m0 = spec_rebuild(events, kd);
        let m = spec_rebuild(events, ks);
        let last = ks.last();
        assert(m == m0.insert(events[last].next_occurence, events[last].id));
        assert(events[last].id == last);
        assert forall|j: int| #![trigger ks[j]] 0 <= j < ks.len() implies m.contains_key(
            events[ks[j]].next_occurence,
        ) && ks[j] <= m[events[ks[j]].next_occurence] by {
            if j == ks.len() - 1 {
            } else {
                assert(kd[j] == ks[j]);
                if events[ks[j]].next_occurence == events[last].next_occurence {
                    assert(ks[j] < last);
                } else {
                    assert(m[events[ks[j]].next_occurence] == m0[events[ks[j]].next_occurence]);
                }
            }
        }
        assert forall|t: u64| #[trigger] m.contains_key(t) implies (exists|j: int|
            0 <= j < ks.len() && ks[j] == m[t] && events[ks[j]].next_occurence == t) by {
            if t == events[last].next_occurence {
                assert(ks[ks.len() - 1] == m[t] && events[ks[ks.len() - 1]].next_occurence == t);
            } else {
                assert(m0.contains_key(t) && m[t] == m0[t]);
                let j = choose|j: int|
                    0 <= j < kd.len() && kd[j] == m0[t] && events[kd[j]].next_occurence == t;
                assert(ks[j] == kd[j]);
            }
        }
    }
}

impl Event {
    /// Stores the record in the given database, as [`Database::add_event`]
    /// does, consuming it.
    pub fn save_to_db(self, db: &mut Database) -> (r: Result<(), StoreError>)
        requires
            old(db).wf(),
            self.wf(),
        ensures
            final(db).wf(),
            final(db)@.events == old(db)@.events.insert(self@.id, self@),
            final(db)@.cache == old(db)@.cache.insert(self@.next_occurence, self@.id),
            final(db)@.users.dom() == old(db)@.users.dom(),
            forall|k: u64| #[trigger]
                old(db)@.users.contains_key(k) ==> final(db)@.users[k] == (
                if self@.users.contains(k) {
                    spec_user_with_event(old(db)@.users[k], self@.id)
                } else {
                    old(db)@.users[k]
                }),
            r == (if self@.users.subset_of(old(db)@.users.dom()) {
                Ok::<(), StoreError>(())
            } else {
                Err::<(), StoreError>(StoreError::RelationDrift)
            }),
    {
        db.add_event(self)
    }
}

} // verus!
