//! The store's laws: properties that hold of its operations for every input,
//! stated over the same views and spec functions the operations' contracts
//! use, and proved here once and for all.

use vstd::prelude::*;

use crate::cache::{due_part, kept_part, RESERVED_ID, SENTINEL_TIMESTAMP};
use crate::database::{
    spec_event_with_users, spec_link_users, spec_user_with_event, user_id_set, DbView,
};
use crate::event::EventView;
use crate::kvmap::{
    key_seq, lemma_map_of_pairs_contains, lemma_map_of_pairs_index, map_of_pairs, sorted_strict,
};
use crate::user::UserView;

verus! {

/// Round trip for users: storing a record and then fetching its id yields
/// the stored record, equal by id and content.
pub proof fn lemma_put_get_user(users: Map<u64, UserView>, u: UserView)
    ensures
        users.insert(u.id, u).contains_key(u.id),
        users.insert(u.id, u)[u.id] == u,
{
}

/// Round trip for events: storing a record and then fetching its id yields
/// the stored record, equal by id and content.
pub proof fn lemma_put_get_event(events: Map<u64, EventView>, e: EventView)
    ensures
        events.insert(e.id, e).contains_key(e.id),
        events.insert(e.id, e)[e.id] == e,
{
}

/// The last record in a sequence of users that carries the given id.
pub open spec fn last_user_with_id(us: Seq<UserView>, k: u64) -> UserView
    decreases us.len(),
{
    if us.len() == 0 {
        vstd::pervasive::arbitrary()
    } else if us.last().id == k {
        us.last()
    } else {
        last_user_with_id(us.drop_last(), k)
    }
}

/// What linking leaves at each key: a linked id holds the last given record
/// with that id plus the event; every other key is untouched.
pub proof fn lemma_link_users_pointwise(m: Map<u64, UserView>, us: Seq<UserView>, eid: u64, k: u64)
    ensures
        user_id_set(us).contains(k) ==> spec_link_users(m, us, eid).contains_key(k)
            && spec_link_users(m, us, eid)[k] == spec_user_with_event(
            last_user_with_id(us, k),
            eid,
        ),
        !user_id_set(us).contains(k) ==> (spec_link_users(m, us, eid).contains_key(k)
            <==> m.contains_key(k)) && (m.contains_key(k) ==> spec_link_users(m, us, eid)[k]
            == m[k]),
    decreases us.len(),
{
    if us.len() == 0 {
        if user_id_set(us).contains(k) {
            let j = choose|j: int| 0 <= j < us.len() && (#[trigger] us[j]).id == k;
        }
    } else {
        let dl = us.drop_last();
        lemma_link_users_pointwise(m, dl, eid, k);
        let u = us.last();
        if k == u.id {
            assert(us[us.len() - 1].id == k);
            assert(user_id_set(us).contains(k));
        } else {
            assert(user_id_set(us).contains(k) <==> user_id_set(dl).contains(k)) by {
                if user_id_set(us).contains(k) {
                    let j = choose|j: int| 0 <= j < us.len() && (#[trigger] us[j]).id == k;
                    assert(j < us.len() - 1);
                    assert(dl[j].id == k);
                    assert(user_id_set(dl).contains(k));
                }
                if user_id_set(dl).contains(k) {
                    let j = choose|j: int| 0 <= j < dl.len() && (#[trigger] dl[j]).id == k;
                    assert(us[j].id == k);
                    assert(user_id_set(us).contains(k));
                }
            }
        }
    }
}

/// Linking an event to users records the relation on both sides: afterwards
/// every given user's record names the event, and the event's record names
/// every given user.
pub proof fn lemma_link_users_bidirectional(m: Map<u64, UserView>, us: Seq<UserView>, e: EventView)
    ensures
        forall|j: int| #![trigger us[j]]
            0 <= j < us.len() ==> spec_link_users(m, us, e.id).contains_key(us[j].id)
                && spec_link_users(m, us, e.id)[us[j].id].events.contains(e.id)
                && spec_event_with_users(e, user_id_set(us)).users.contains(us[j].id),
{
    assert forall|j: int| #![trigger us[j]]
        0 <= j < us.len() implies spec_link_users(m, us, e.id).contains_key(us[j].id)
        && spec_link_users(m, us, e.id)[us[j].id].events.contains(e.id) && spec_event_with_users(
        e,
        user_id_set(us),
    ).users.contains(us[j].id) by {
        assert(user_id_set(us).contains(us[j].id));
        lemma_link_users_pointwise(m, us, e.id, us[j].id);
    }
}

/// The whole store after linking an event to a sequence of users: both
/// relation sides written, and the event scheduled in the cache.
pub open spec fn spec_link_op(db: DbView, e: EventView, us: Seq<UserView>) -> DbView {
    DbView {
        users: spec_link_users(db.users, us, e.id),
        events: db.events.insert(e.id, spec_event_with_users(e, user_id_set(us))),
        cache: db.cache.insert(e.next_occurence, e.id),
    }
}

/// Linking is idempotent: applying the same link twice leaves the same store
/// as applying it once, because both sides of the relation are sets.
pub proof fn lemma_link_op_idempotent(db: DbView, e: EventView, us: Seq<UserView>)
    ensures
        spec_link_op(spec_link_op(db, e, us), e, us) == spec_link_op(db, e, us),
{
    let d1 = spec_link_op(db, e, us);
    let d2 = spec_link_op(d1, e, us);
    assert forall|k: u64|
        #![trigger d2.users.contains_key(k)]
        #![trigger d1.users.contains_key(k)]
        (d2.users.contains_key(k) <==> d1.users.contains_key(k)) && (d1.users.contains_key(k)
            ==> d2.users[k] == d1.users[k]) by {
        lemma_link_users_pointwise(db.users, us, e.id, k);
        lemma_link_users_pointwise(d1.users, us, e.id, k);
    }
    assert(d2.users =~= d1.users);
    assert(d2.events =~= d1.events);
    assert(d2.cache =~= d1.cache);
}

/// After a rebuild over events with pairwise distinct timestamps, the
/// cache's value set is exactly the set of ids of the stored events. The two
/// hypotheses are what [`crate::database::Database::rewrite_cache`] ensures.
pub proof fn lemma_rebuilt_cache_value_set(events: Map<u64, EventView>, cache: Map<u64, u64>)
    requires
        forall|k: u64| #[trigger]
            events.contains_key(k) ==> cache.contains_key(events[k].next_occurence) && k
                <= cache[events[k].next_occurence],
        forall|t: u64| #[trigger]
            cache.contains_key(t) ==> events.contains_key(cache[t])
                && events[cache[t]].next_occurence == t,
        forall|k1: u64, k2: u64|
            #![trigger events[k1].next_occurence, events[k2].next_occurence]
            events.contains_key(k1) && events.contains_key(k2) && k1 != k2
                ==> events[k1].next_occurence != events[k2].next_occurence,
    ensures
        cache.values() == events.dom(),
{
    assert forall|id: u64|
        #![trigger cache.values().contains(id)]
        #![trigger events.dom().contains(id)]
        cache.values().contains(id) <==> events.dom().contains(id) by {
        if cache.values().contains(id) {
            let t = choose|t: u64| #[trigger] cache.dom().contains(t) && cache[t] == id;
            assert(cache.contains_key(t));
        }
        if events.dom().contains(id) {
            let t = events[id].next_occurence;
            assert(cache.contains_key(t));
            assert(events.contains_key(cache[t]) && events[cache[t]].next_occurence == t);
            assert(cache[t] == id);
            assert(cache.dom().contains(t) && cache[t] == id);
            assert(cache.contains_value(id));
        }
    }
    assert(cache.values() =~= events.dom());
}

/// For a timestamp shared by exactly two stored events, a rebuild retains
/// exactly one of the two colliding ids: never both, never neither.
pub proof fn lemma_rebuilt_cache_collision(
    events: Map<u64, EventView>,
    cache: Map<u64, u64>,
    k1: u64,
    k2: u64,
    t: u64,
)
    requires
        forall|k: u64| #[trigger]
            events.contains_key(k) ==> cache.contains_key(events[k].next_occurence) && k
                <= cache[events[k].next_occurence],
        forall|tt: u64| #[trigger]
            cache.contains_key(tt) ==> events.contains_key(cache[tt])
                && events[cache[tt]].next_occurence == tt,
        events.contains_key(k1),
        events.contains_key(k2),
        k1 != k2,
        events[k1].next_occurence == t,
        events[k2].next_occurence == t,
        forall|k: u64| #[trigger]
            events.contains_key(k) && events[k].next_occurence == t ==> k == k1 || k == k2,
    ensures
        cache.values().contains(k1) || cache.values().contains(k2),
        !(cache.values().contains(k1) && cache.values().contains(k2)),
{
    assert(cache.contains_key(t));
    assert(cache[t] == k1 || cache[t] == k2);
    assert(cache.dom().contains(t) && cache[t] == cache[t]);
    assert(cache.contains_value(cache[t]));
    if cache.values().contains(k1) && cache.values().contains(k2) {
        let t1 = choose|x: u64| #[trigger] cache.dom().contains(x) && cache[x] == k1;
        let t2 = choose|x: u64| #[trigger] cache.dom().contains(x) && cache[x] == k2;
        assert(events[cache[t1]].next_occurence == t1);
        assert(events[cache[t2]].next_occurence == t2);
        assert(t1 == t && t2 == t);
        assert(false);
    }
}

/// One dispatcher tick over a cache holding two due timestamps and one
/// future timestamp retires exactly the due two and keeps exactly the
/// future one, values untouched.
pub proof fn lemma_tick_splits_due_and_kept(m: Map<u64, u64>, now: u64, t1: u64, t2: u64, t3: u64)
    requires
        m.dom() == set![t1, t2, t3],
        t1 < t2 <= now,
        now < t3,
    ensures
        due_part(m, now).dom() == set![t1, t2],
        kept_part(m, now).dom() == set![t3],
        due_part(m, now)[t1] == m[t1],
        due_part(m, now)[t2] == m[t2],
        kept_part(m, now)[t3] == m[t3],
{
    assert(m.dom().contains(t1) && m.dom().contains(t2) && m.dom().contains(t3));
    assert(due_part(m, now).dom() =~= set![t1, t2]);
    assert(kept_part(m, now).dom() =~= set![t3]);
}

/// The retired entries come out in increasing timestamp order: with two due
/// timestamps, the earlier one is delivered first.
pub proof fn lemma_due_two_in_order(d: Seq<(u64, u64)>, t1: u64, t2: u64)
    requires
        sorted_strict(key_seq(d)),
        map_of_pairs(d).dom() == set![t1, t2],
        t1 < t2,
    ensures
        d.len() == 2,
        d[0] == (t1, map_of_pairs(d)[t1]),
        d[1] == (t2, map_of_pairs(d)[t2]),
{
    lemma_map_of_pairs_contains(d, t1);
    lemma_map_of_pairs_contains(d, t2);
    assert(map_of_pairs(d).dom().contains(t1) && map_of_pairs(d).dom().contains(t2));
    let i1 = choose|i: int| 0 <= i < key_seq(d).len() && key_seq(d)[i] == t1;
    let i2 = choose|i: int| 0 <= i < key_seq(d).len() && key_seq(d)[i] == t2;
    assert(i1 != i2);
    assert(d.len() >= 2);
    if d.len() > 2 {
        assert forall|j: int| 0 <= j < d.len() implies key_seq(d)[j] == t1 || key_seq(d)[j]
            == t2 by {
            lemma_map_of_pairs_contains(d, key_seq(d)[j]);
            assert(key_seq(d).contains(key_seq(d)[j]));
            assert(map_of_pairs(d).dom().contains(key_seq(d)[j]));
        }
        assert(key_seq(d)[0] < key_seq(d)[1] < key_seq(d)[2]);
        assert(false);
    }
    assert(key_seq(d)[0] < key_seq(d)[1]);
    assert forall|j: int| 0 <= j < d.len() implies key_seq(d)[j] == t1 || key_seq(d)[j]
        == t2 by {
        lemma_map_of_pairs_contains(d, key_seq(d)[j]);
        assert(key_seq(d).contains(key_seq(d)[j]));
        assert(map_of_pairs(d).dom().contains(key_seq(d)[j]));
    }
    assert(d[0].0 == t1 && d[1].0 == t2);
    lemma_map_of_pairs_index(d, 0);
    lemma_map_of_pairs_index(d, 1);
}

/// A freshly seeded cache never reports its sentinel as due: at any
/// realistic time (any timestamp below the sentinel's), nothing is due and
/// the sentinel is kept.
pub proof fn lemma_sentinel_never_due(now: u64)
    requires
        now < SENTINEL_TIMESTAMP,
    ensures
        due_part(Map::<u64, u64>::empty().insert(SENTINEL_TIMESTAMP, RESERVED_ID), now) == Map::<
            u64,
            u64,
        >::empty(),
        kept_part(Map::<u64, u64>::empty().insert(SENTINEL_TIMESTAMP, RESERVED_ID), now) == Map::<
            u64,
            u64,
        >::empty().insert(SENTINEL_TIMESTAMP, RESERVED_ID),
{
    let m = Map::<u64, u64>::empty().insert(SENTINEL_TIMESTAMP, RESERVED_ID);
    assert(due_part(m, now) =~= Map::<u64, u64>::empty());
    assert(kept_part(m, now) =~= m);
}

/// Two scheduled inserts with distinct timestamps both survive, whichever
/// order the two writers' locked read-modify-write cycles take effect in:
/// neither update is lost.
pub proof fn lemma_concurrent_inserts_keep_both(
    m: Map<u64, u64>,
    t1: u64,
    id1: u64,
    t2: u64,
    id2: u64,
)
    requires
        t1 != t2,
    ensures
        m.insert(t1, id1).insert(t2, id2).contains_key(t1),
        m.insert(t1, id1).insert(t2, id2)[t1] == id1,
        m.insert(t1, id1).insert(t2, id2).contains_key(t2),
        m.insert(t1, id1).insert(t2, id2)[t2] == id2,
{
}

} // verus!
