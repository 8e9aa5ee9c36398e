//! The event cache: an ordered mapping from a scheduled Unix timestamp to the
//! identifier of the event due at that time. On disk it is one shared,
//! advisory-locked text document; in memory it is this verified structure.
//! The text codec (an outside serialization library) stands behind trusted
//! wrappers, and everything around it — merging an entry into the document,
//! finding and retiring due entries — is verified.

use vstd::prelude::*;

use crate::kvmap::{key_seq, lemma_map_of_pairs_contains, lemma_map_of_pairs_index,
    lemma_map_of_pairs_insert_at, lemma_map_of_pairs_update, map_of_pairs, sorted_strict};
use crate::StoreError;

verus! {

/// The identifier the sentinel entry maps to; reserved, never an event's id.
pub const RESERVED_ID: u64 = 0;

/// The timestamp of the sentinel entry a fresh store's cache is seeded with:
/// the maximum representable timestamp, which no realistic clock reaches, so
/// "is anything due" never asks an empty structure and the sentinel is never
/// due.
pub const SENTINEL_TIMESTAMP: u64 = u64::MAX;

/// The entries of the cache whose timestamp has arrived.
pub open spec fn due_part(m: Map<u64, u64>, now: u64) -> Map<u64, u64> {
    Map::new(|t: u64| m.contains_key(t) && t <= now, |t: u64| m[t])
}

/// The entries of the cache that are still in the future.
pub open spec fn kept_part(m: Map<u64, u64>, now: u64) -> Map<u64, u64> {
    Map::new(|t: u64| m.contains_key(t) && t > now, |t: u64| m[t])
}

/// The text document that the store's encoder produces for a cache table
/// (the timestamp-to-identifier entries, keys increasing).
pub uninterp spec fn cache_doc(entries: Seq<(u64, u64)>) -> Seq<char>;

/// Relies on ron::ser::to_string for a `BTreeMap<u64, u64>`: the produced
/// text is a function of the entries alone, and for this type the encoder
/// has no failure path (with default options every write goes into a
/// `String`, which cannot fail), so the call always returns text.
#[verifier::external_body]
fn encode_entries(entries: &Vec<(u64, u64)>) -> (r: String)
    requires
        sorted_strict(key_seq(entries@)),
    ensures
        r@ == cache_doc(entries@),
{
    let map: std::collections::BTreeMap<u64, u64> = entries.iter().copied().collect();
    ron::ser::to_string(&map).unwrap()
}

/// Relies on ron::de::from_str for a `BTreeMap<u64, u64>`: it yields the
/// entries of an encoded mapping back (keys increasing, the decoder keeping
/// the last value of a repeated key), and fails on text that does not
/// describe such a mapping.
#[verifier::external_body]
fn parse_entries(s: &str) -> (r: Option<Vec<(u64, u64)>>)
    ensures
        (r matches Some(v) ==> sorted_strict(key_seq(v@))),
        (r matches Some(v) ==> forall|e: Seq<(u64, u64)>| #![trigger cache_doc(e)]
            (sorted_strict(key_seq(e)) && s@ == cache_doc(e)) ==> v@ == e),
        (r is None ==> forall|e: Seq<(u64, u64)>| #![trigger cache_doc(e)]
            sorted_strict(key_seq(e)) ==> s@ != cache_doc(e)),
{
    match ron::de::from_str::<std::collections::BTreeMap<u64, u64>>(s) {
        Ok(m) => Some(m.into_iter().collect()),
        Err(_) => None,
    }
}

/// The in-memory image of the shared cache document: timestamp-to-identifier
/// entries with strictly increasing timestamps.
#[derive(Debug)]
pub struct EventCache {
    entries: Vec<(u64, u64)>,
}

impl View for EventCache {
    type V = Seq<(u64, u64)>;

    closed spec fn view(&self) -> Seq<(u64, u64)> {
        self.entries@
    }
}

impl EventCache {
    /// The timestamps strictly increase; constructors establish this and
    /// every method preserves it.
    pub open spec fn wf(&self) -> bool {
        sorted_strict(key_seq(self@))
    }

    /// The mapping the cache denotes.
    pub open spec fn as_map(&self) -> Map<u64, u64> {
        map_of_pairs(self@)
    }

    pub fn new() -> (c: Self)
        ensures
            c.wf(),
            c@ == Seq::<(u64, u64)>::empty(),
            c.as_map() == Map::<u64, u64>::empty(),
    {
        let c = EventCache { entries: Vec::new() };
        proof {
            assert(c@ =~= Seq::<(u64, u64)>::empty());
        }
        c
    }

    /// How many entries the cache holds.
    pub fn len(&self) -> (n: usize)
        ensures
            n == self@.len(),
    {
        self.entries.len()
    }

    /// Whether an entry is scheduled at the given timestamp.
    pub fn contains_key(&self, t: u64) -> (r: bool)
        requires
            self.wf(),
        ensures
            r == self.as_map().contains_key(t),
    {
        let mut i: usize = 0;
        while i < self.entries.len()
            invariant
                0 <= i <= self.entries.len(),
                forall|j: int| 0 <= j < i ==> self.entries@[j].0 != t,
                self.wf(),
            decreases self.entries.len() - i,
        {
            if self.entries[i].0 == t {
                proof {
                    lemma_map_of_pairs_index(self@, i as int);
                }
                return true;
            }
            i += 1;
        }
        proof {
            assert(!key_seq(self@).contains(t)) by {
                if key_seq(self@).contains(t) {
                    let j = choose|j: int|
                        0 <= j < key_seq(self@).len() && key_seq(self@)[j] == t;
                    assert(self.entries@[j].0 == t);
                }
            }
            lemma_map_of_pairs_contains(self@, t);
        }
        false
    }

    /// Schedules an event: maps the timestamp to the event's identifier,
    /// overwriting whatever the timestamp was mapped to before.
    pub fn insert(&mut self, t: u64, id: u64)
        requires
            old(self).wf(),
        ensures
            final(self).wf(),
            final(self).as_map() == old(self).as_map().insert(t, id),
    {
        let ghost s0 = self.entries@;
        let mut i: usize = 0;
        while i < self.entries.len() && self.entries[i].0 < t
            invariant
                0 <= i <= self.entries.len(),
                forall|j: int| 0 <= j < i ==> self.entries@[j].0 < t,
                self.wf(),
                self.entries@ == s0,
            decreases self.entries.len() - i,
        {
            i += 1;
        }
        if i < self.entries.len() && self.entries[i].0 == t {
            self.entries.set(i, (t, id));
            proof {
                assert(s0[i as int].0 == t);
                assert(self.entries@ =~= s0.update(i as int, (t, id)));
                lemma_map_of_pairs_update(s0, i as int, id);
                assert(key_seq(self.entries@) =~= key_seq(s0));
            }
        } else {
            let ghost ks0 = key_seq(s0);
            proof {
                assert(!ks0.contains(t)) by {
                    if ks0.contains(t) {
                        let j = choose|j: int| 0 <= j < ks0.len() && ks0[j] == t;
                        if j < i {
                            assert(s0[j].0 < t);
                        } else {
                            assert(ks0[i as int] <= ks0[j]);
                        }
                    }
                }
            }
            self.entries.insert(i, (t, id));
            proof {
                assert(self.entries@ =~= s0.insert(i as int, (t, id)));
                lemma_map_of_pairs_insert_at(s0, i as int, t, id);
                assert(sorted_strict(key_seq(self.entries@))) by {
                    let ks = key_seq(self.entries@);
                    assert forall|a: int, b: int| 0 <= a < b < ks.len() implies ks[a] < ks[b] by {
                        assert(ks[a] == if a < i { ks0[a] } else if a == i { t } else {
                            ks0[a - 1]
                        });
                        assert(ks[b] == if b < i { ks0[b] } else if b == i { t } else {
                            ks0[b - 1]
                        });
                    }
                }
            }
        }
    }

    /// Whether some entry's timestamp has arrived: the cache's smallest
    /// timestamp is at most `now`.
    pub fn has_passed_event(&self, now: u64) -> (r: bool)
        requires
            self.wf(),
        ensures
            r == exists|t: u64| #[trigger] self.as_map().contains_key(t) && t <= now,
    {
        if self.entries.len() == 0 {
            proof {
                if exists|t: u64| #[trigger] self.as_map().contains_key(t) && t <= now {
                    let t = choose|t: u64| #[trigger] self.as_map().contains_key(t) && t <= now;
                    lemma_map_of_pairs_contains(self@, t);
                }
            }
            false
        } else if self.entries[0].0 <= now {
            proof {
                lemma_map_of_pairs_index(self@, 0);
                assert(self.as_map().contains_key(self@[0].0) && self@[0].0 <= now);
            }
            true
        } else {
            proof {
                if exists|t: u64| #[trigger] self.as_map().contains_key(t) && t <= now {
                    let t = choose|t: u64| #[trigger] self.as_map().contains_key(t) && t <= now;
                    lemma_map_of_pairs_contains(self@, t);
                    let j = choose|j: int|
                        0 <= j < key_seq(self@).len() && key_seq(self@)[j] == t;
                    assert(key_seq(self@)[0] <= key_seq(self@)[j]);
                }
            }
            false
        }
    }

    /// Removes and returns every entry whose timestamp is at most `now`, in
    /// increasing timestamp order; the cache keeps exactly the entries still
    /// in the future.
    pub fn collect_due(&mut self, now: u64) -> (due: Vec<(u64, u64)>)
        requires
            old(self).wf(),
        ensures
            final(self).wf(),
            sorted_strict(key_seq(due@)),
            old(self)@ == due@ + final(self)@,
            forall|j: int| 0 <= j < due@.len() ==> due@[j].0 <= now,
            forall|j: int| 0 <= j < final(self)@.len() ==> final(self)@[j].0 > now,
            map_of_pairs(due@) == due_part(old(self).as_map(), now),
            final(self).as_map() == kept_part(old(self).as_map(), now),
    {
        let ghost s0 = self.entries@;
        let mut due: Vec<(u64, u64)> = Vec::new();
        let mut i: usize = 0;
        while i < self.entries.len() && self.entries[i].0 <= now
            invariant
                0 <= i <= self.entries.len(),
                due@ =~= self.entries@.subrange(0, i as int),
                forall|j: int| 0 <= j < i ==> self.entries@[j].0 <= now,
                self.wf(),
                self.entries@ == s0,
            decreases self.entries.len() - i,
        {
            due.push(self.entries[i]);
            i += 1;
        }
        let mut rest: Vec<(u64, u64)> = Vec::new();
        let ghost split = i as int;
        let mut j: usize = i;
        while j < self.entries.len()
            invariant
                0 <= split <= j <= self.entries.len(),
                rest@ =~= self.entries@.subrange(split, j as int),
                self.wf(),
                self.entries@ == s0,
            decreases self.entries.len() - j,
        {
            rest.push(self.entries[j]);
            j += 1;
        }
        self.entries = rest;
        proof {
            assert(due@ =~= s0.subrange(0, split));
            assert(self.entries@ =~= s0.subrange(split, s0.len() as int));
            assert(s0 =~= due@ + self.entries@);
            assert forall|m: int| 0 <= m < self.entries@.len() implies self.entries@[m].0
                > now by {
                assert(self.entries@[m] == s0[split + m]);
                if split < s0.len() && split + m > split {
                    assert(key_seq(s0)[split] <= key_seq(s0)[split + m]);
                }
            }
            assert(sorted_strict(key_seq(due@))) by {
                assert forall|a: int, b: int|
                    0 <= a < b < key_seq(due@).len() implies key_seq(due@)[a] < key_seq(
                    due@,
                )[b] by {
                    assert(key_seq(s0)[a] < key_seq(s0)[b]);
                }
            }
            assert(sorted_strict(key_seq(self.entries@))) by {
                assert forall|a: int, b: int|
                    0 <= a < b < key_seq(self.entries@).len() implies key_seq(self.entries@)[a]
                    < key_seq(self.entries@)[b] by {
                    assert(key_seq(s0)[split + a] < key_seq(s0)[split + b]);
                }
            }
            lemma_split_parts(s0, due@, self.entries@, now);
        }
        due
    }

    /// Reads the cache back from its on-disk text; text that does not
    /// describe a cache mapping is reported as corrupt.
    pub fn from_text(s: &str) -> (r: Result<EventCache, StoreError>)
        ensures
            (r matches Ok(c) ==> c.wf()),
            (r matches Err(err) ==> err == StoreError::Corrupt),
            forall|e: Seq<(u64, u64)>| #![trigger cache_doc(e)]
                (sorted_strict(key_seq(e)) && s@ == cache_doc(e)) ==> (r matches Ok(c) && c@
                    == e),
    {
        match parse_entries(s) {
            Some(v) => Ok(EventCache { entries: v }),
            None => Err(StoreError::Corrupt),
        }
    }

    /// Writes the cache out as the text document that the store keeps on
    /// disk.
    pub fn to_text(&self) -> (r: String)
        requires
            self.wf(),
        ensures
            r@ == cache_doc(self@),
    {
        encode_entries(&self.entries)
    }
}

/// Merges one scheduled entry into the cache's on-disk text: the compute
/// step of the locked read-modify-write cycle that every cache mutation
/// follows. On every valid document the merge succeeds, and the result is
/// the text of the old mapping with the entry inserted; only text that does
/// not describe a cache mapping is refused, as corrupt.
pub fn merge_entry_text(text: &str, t: u64, id: u64) -> (r: Result<String, StoreError>)
    ensures
        (r matches Err(err) ==> err == StoreError::Corrupt),
        forall|e: Seq<(u64, u64)>| #![trigger cache_doc(e)]
            (sorted_strict(key_seq(e)) && text@ == cache_doc(e)) ==> r is Ok,
        forall|e: Seq<(u64, u64)>| #![trigger cache_doc(e)]
            (sorted_strict(key_seq(e)) && text@ == cache_doc(e) && r is Ok) ==> (exists|
                e2: Seq<(u64, u64)>,
            | #![trigger cache_doc(e2)]
                sorted_strict(key_seq(e2)) && map_of_pairs(e2) == map_of_pairs(e).insert(t, id)
                    && (r matches Ok(s2) && s2@ == cache_doc(e2))),
{
    let mut c = match EventCache::from_text(text) {
        Ok(c) => c,
        Err(err) => {
            return Err(err);
        },
    };
    let ghost e0 = c@;
    c.insert(t, id);
    let out = c.to_text();
    proof {
        assert forall|e: Seq<(u64, u64)>|
            (sorted_strict(key_seq(e)) && text@ == cache_doc(e)) implies (exists|
            e2: Seq<(u64, u64)>,
        | #![trigger cache_doc(e2)]
            sorted_strict(key_seq(e2)) && map_of_pairs(e2) == map_of_pairs(e).insert(t, id)
                && out@ == cache_doc(e2)) by {
            assert(e0 == e);
            assert(sorted_strict(key_seq(c@)) && map_of_pairs(c@) == map_of_pairs(e).insert(
                t,
                id,
            ) && out@ == cache_doc(c@));
        }
    }
    Ok(out)
}

/// The due and kept halves of a sorted entry sequence split at a timestamp
/// bound denote exactly the due and kept parts of the whole mapping.
proof fn lemma_split_parts(s: Seq<(u64, u64)>, d: Seq<(u64, u64)>, k: Seq<(u64, u64)>, now: u64)
    requires
        sorted_strict(key_seq(s)),
        s == d + k,
        forall|j: int| 0 <= j < d.len() ==> d[j].0 <= now,
        forall|j: int| 0 <= j < k.len() ==> k[j].0 > now,
    ensures
        map_of_pairs(d) == due_part(map_of_pairs(s), now),
        map_of_pairs(k) == kept_part(map_of_pairs(s), now),
{
    assert(sorted_strict(key_seq(d))) by {
        assert forall|a: int, b: int|
            0 <= a < b < key_seq(d).len() implies key_seq(d)[a] < key_seq(d)[b] by {
            assert(s[a] == d[a] && s[b] == d[b]);
            assert(key_seq(s)[a] < key_seq(s)[b]);
        }
    }
    assert(sorted_strict(key_seq(k))) by {
        assert forall|a: int, b: int|
            0 <= a < b < key_seq(k).len() implies key_seq(k)[a] < key_seq(k)[b] by {
            assert(s[d.len() + a] == k[a] && s[d.len() + b] == k[b]);
            assert(key_seq(s)[d.len() + a] < key_seq(s)[d.len() + b]);
        }
    }
    assert forall|t: u64|
        #![trigger map_of_pairs(d).contains_key(t)]
        #![trigger due_part(map_of_pairs(s), now).contains_key(t)]
        map_of_pairs(d).contains_key(t) <==> (map_of_pairs(s).contains_key(t) && t <= now) by {
        lemma_map_of_pairs_contains(d, t);
        lemma_map_of_pairs_contains(s, t);
        if key_seq(d).contains(t) {
            let j = choose|j: int| 0 <= j < key_seq(d).len() && key_seq(d)[j] == t;
            assert(s[j] == d[j]);
            assert(key_seq(s)[j] == t);
            assert(d[j].0 <= now);
        }
        if key_seq(s).contains(t) && t <= now {
            let j = choose|j: int| 0 <= j < key_seq(s).len() && key_seq(s)[j] == t;
            if j >= d.len() {
                assert(s[j] == k[j - d.len()]);
                assert(k[j - d.len()].0 > now);
            } else {
                assert(s[j] == d[j]);
                assert(key_seq(d)[j] == t);
            }
        }
    }
    assert forall|t: u64| #![trigger map_of_pairs(d)[t]]
        map_of_pairs(d).contains_key(t) implies map_of_pairs(d)[t] == map_of_pairs(s)[t] by {
        lemma_map_of_pairs_contains(d, t);
        let j = choose|j: int| 0 <= j < key_seq(d).len() && key_seq(d)[j] == t;
        lemma_map_of_pairs_index(d, j);
        lemma_map_of_pairs_index(s, j);
        assert(s[j] == d[j]);
    }
    assert(map_of_pairs(d) =~= due_part(map_of_pairs(s), now));
    assert forall|t: u64|
        #![trigger map_of_pairs(k).contains_key(t)]
        #![trigger kept_part(map_of_pairs(s), now).contains_key(t)]
        map_of_pairs(k).contains_key(t) <==> (map_of_pairs(s).contains_key(t) && t > now) by {
        lemma_map_of_pairs_contains(k, t);
        lemma_map_of_pairs_contains(s, t);
        if key_seq(k).contains(t) {
            let j = choose|j: int| 0 <= j < key_seq(k).len() && key_seq(k)[j] == t;
            assert(s[d.len() + j] == k[j]);
            assert(key_seq(s)[d.len() + j] == t);
            assert(k[j].0 > now);
        }
        if key_seq(s).contains(t) && t > now {
            let j = choose|j: int| 0 <= j < key_seq(s).len() && key_seq(s)[j] == t;
            if j < d.len() {
                assert(s[j] == d[j]);
                assert(d[j].0 <= now);
            } else {
                assert(s[j] == k[j - d.len()]);
                assert(key_seq(k)[j - d.len()] == t);
            }
        }
    }
    assert forall|t: u64| #![trigger map_of_pairs(k)[t]]
        map_of_pairs(k).contains_key(t) implies map_of_pairs(k)[t] == map_of_pairs(s)[t] by {
        lemma_map_of_pairs_contains(k, t);
        let j = choose|j: int| 0 <= j < key_seq(k).len() && key_seq(k)[j] == t;
        lemma_map_of_pairs_index(k, j);
        lemma_map_of_pairs_index(s, d.len() + j);
        assert(s[d.len() + j] == k[j]);
    }
    assert(map_of_pairs(k) =~= kept_part(map_of_pairs(s), now));
}

} // verus!
