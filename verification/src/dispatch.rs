//! The polling dispatcher's decision logic: what one tick retires and
//! delivers, and how a failed advisory-lock acquisition is retried. The loop
//! itself (the timer, the channel, the filesystem) runs outside the library
//! and hands these functions the current time and the shared mapping.

use vstd::prelude::*;

use crate::cache::{cache_doc, due_part, kept_part, EventCache, RESERVED_ID};
use crate::kvmap::{key_seq, lemma_map_of_pairs_contains, lemma_map_of_pairs_index, map_of_pairs,
    sorted_strict};
use crate::StoreError;

verus! {

/// How many times a failed advisory-lock acquisition is retried before the
/// failure is final.
pub const LOCK_RETRY_LIMIT: u64 = 5;

/// The delay before the first retry, in milliseconds; it doubles with every
/// further attempt.
pub const LOCK_RETRY_BASE_MS: u64 = 50;

/// Two to the given power.
pub open spec fn spec_pow2(n: u64) -> nat
    decreases n,
{
    if n == 0 {
        1
    } else {
        2 * spec_pow2((n - 1) as u64)
    }
}

/// Powers of two do not decrease.
proof fn lemma_pow2_increases(a: u64, b: u64)
    requires
        a <= b,
    ensures
        spec_pow2(a) <= spec_pow2(b),
    decreases b,
{
    if a < b {
        lemma_pow2_increases(a, (b - 1) as u64);
        assert(spec_pow2(b) == 2 * spec_pow2((b - 1) as u64));
    }
}

/// Bounded retry with backoff for advisory-lock contention: the delay in
/// milliseconds before the given retry attempt (counted from zero), doubling
/// each time, or `None` once the attempts are used up and the lock failure
/// is final.
pub fn lock_retry_delay(attempt: u64) -> (r: Option<u64>)
    ensures
        attempt < LOCK_RETRY_LIMIT ==> (r matches Some(d) && d == LOCK_RETRY_BASE_MS * spec_pow2(
            attempt,
        )),
        attempt >= LOCK_RETRY_LIMIT ==> r is None,
{
    if attempt >= LOCK_RETRY_LIMIT {
        return None;
    }
    let mut d: u64 = LOCK_RETRY_BASE_MS;
    let mut k: u64 = 0;
    while k < attempt
        invariant
            0 <= k <= attempt,
            attempt < LOCK_RETRY_LIMIT,
            d == LOCK_RETRY_BASE_MS * spec_pow2(k),
        decreases attempt - k,
    {
        proof {
            lemma_pow2_increases(k, 3);
            assert(spec_pow2(1) == 2 * spec_pow2(0));
            assert(spec_pow2(2) == 2 * spec_pow2(1));
            assert(spec_pow2(3) == 2 * spec_pow2(2));
            assert(spec_pow2(k) <= 8);
            assert(LOCK_RETRY_BASE_MS * spec_pow2(k) <= LOCK_RETRY_BASE_MS * 8)
                by (nonlinear_arith)
                requires
                    spec_pow2(k) <= 8,
            ;
        }
        d = d * 2;
        k = k + 1;
        proof {
            assert(spec_pow2(k) == 2 * spec_pow2((k - 1) as u64));
        }
    }
    Some(d)
}

/// One poll tick of the dispatcher: retires every cache entry whose
/// timestamp has arrived and returns them in increasing timestamp order for
/// delivery; the cache keeps exactly the entries still in the future. A
/// sentinel entry among the due ones indicates a clock or sentinel-value
/// defect: the tick then reports the cache corrupt rather than delivering or
/// silently dropping the sentinel.
pub fn dispatch_tick(cache: &mut EventCache, now: u64) -> (r: Result<Vec<(u64, u64)>, StoreError>)
    requires
        old(cache).wf(),
    ensures
        final(cache).wf(),
        final(cache).as_map() == kept_part(old(cache).as_map(), now),
        match r {
            Ok(due) => {
                &&& sorted_strict(key_seq(due@))
                &&& map_of_pairs(due@) == due_part(old(cache).as_map(), now)
                &&& forall|j: int|
                    0 <= j < due@.len() ==> due@[j].0 <= now && due@[j].1 != RESERVED_ID
            },
            Err(err) => {
                &&& err == StoreError::Corrupt
                &&& exists|t: u64| #[trigger]
                    old(cache).as_map().contains_key(t) && t <= now && old(cache).as_map()[t]
                        == RESERVED_ID
            },
        },
{
    let due = cache.collect_due(now);
    let mut i: usize = 0;
    while i < due.len()
        invariant
            0 <= i <= due@.len(),
            cache.wf(),
            cache.as_map() == kept_part(old(cache).as_map(), now),
            forall|j: int| 0 <= j < i ==> due@[j].1 != RESERVED_ID,
            sorted_strict(key_seq(due@)),
            map_of_pairs(due@) == due_part(old(cache).as_map(), now),
            forall|j: int| 0 <= j < due@.len() ==> due@[j].0 <= now,
        decreases due@.len() - i,
    {
        if due[i].1 == RESERVED_ID {
            proof {
                lemma_map_of_pairs_index(due@, i as int);
                let t = due@[i as int].0;
                assert(due_part(old(cache).as_map(), now).contains_key(t));
                assert(old(cache).as_map().contains_key(t) && t <= now && old(
                    cache,
                ).as_map()[t] == RESERVED_ID);
            }
            return Err(StoreError::Corrupt);
        }
        i += 1;
    }
    Ok(due)
}

/// The retirement cycle's compute step: given the shared cache document's
/// current text and the time, hands back the text with every due entry
/// removed, together with the retired entries in increasing timestamp order.
/// Run inside the advisory lock, between reading and writing the document,
/// this makes retirement one read-modify-write cycle, so a cooperating
/// process's merge is never overwritten by a stale in-memory image. It
/// refuses, as corrupt, text that does not describe a cache mapping — and a
/// mapping whose due entries include the reserved sentinel identifier, the
/// fatal consistency violation.
pub fn retire_due_text(text: &str, now: u64) -> (r: Result<(String, Vec<(u64, u64)>), StoreError>)
    ensures
        (r matches Err(err) ==> err == StoreError::Corrupt),
        forall|e: Seq<(u64, u64)>| #![trigger cache_doc(e)]
            (sorted_strict(key_seq(e)) && text@ == cache_doc(e)) ==> (r is Ok <==> !(exists|
                t: u64,
            | #[trigger]
                map_of_pairs(e).contains_key(t) && t <= now && map_of_pairs(e)[t]
                    == RESERVED_ID)),
        forall|e: Seq<(u64, u64)>| #![trigger cache_doc(e)]
            (sorted_strict(key_seq(e)) && text@ == cache_doc(e) && r is Ok) ==> ({
                let p = r->Ok_0;
                &&& sorted_strict(key_seq(p.1@))
                &&& map_of_pairs(p.1@) == due_part(map_of_pairs(e), now)
                &&& forall|j: int|
                    0 <= j < p.1@.len() ==> p.1@[j].0 <= now && p.1@[j].1 != RESERVED_ID
                &&& exists|e2: Seq<(u64, u64)>| #![trigger cache_doc(e2)]
                    sorted_strict(key_seq(e2)) && map_of_pairs(e2) == kept_part(
                        map_of_pairs(e),
                        now,
                    ) && p.0@ == cache_doc(e2)
            }),
{
    let mut c = match EventCache::from_text(text) {
        Ok(c) => c,
        Err(err) => {
            return Err(err);
        },
    };
    let ghost e0 = c@;
    let due = match dispatch_tick(&mut c, now) {
        Ok(d) => d,
        Err(err) => {
            return Err(err);
        },
    };
    let out = c.to_text();
    proof {
        assert forall|e: Seq<(u64, u64)>|
            (sorted_strict(key_seq(e)) && text@ == cache_doc(e)) implies (!(exists|t: u64| #[trigger]
            map_of_pairs(e).contains_key(t) && t <= now && map_of_pairs(e)[t] == RESERVED_ID)
            && map_of_pairs(due@) == due_part(map_of_pairs(e), now) && (exists|
            e2: Seq<(u64, u64)>,
        | #![trigger cache_doc(e2)]
            sorted_strict(key_seq(e2)) && map_of_pairs(e2) == kept_part(map_of_pairs(e), now)
                && out@ == cache_doc(e2))) by {
            assert(e0 == e);
            assert(sorted_strict(key_seq(c@)) && map_of_pairs(c@) == kept_part(
                map_of_pairs(e),
                now,
            ) && out@ == cache_doc(c@));
            if exists|t: u64| #[trigger]
                map_of_pairs(e).contains_key(t) && t <= now && map_of_pairs(e)[t]
                    == RESERVED_ID {
                let t = choose|t: u64| #[trigger]
                    map_of_pairs(e).contains_key(t) && t <= now && map_of_pairs(e)[t]
                        == RESERVED_ID;
                assert(due_part(map_of_pairs(e), now).contains_key(t));
                assert(map_of_pairs(due@).contains_key(t));
                lemma_map_of_pairs_contains(due@, t);
                let j = choose|j: int|
                    0 <= j < key_seq(due@).len() && key_seq(due@)[j] == t;
                lemma_map_of_pairs_index(due@, j);
                assert(due@[j].1 == RESERVED_ID);
                assert(false);
            }
        }
    }
    Ok((out, due))
}

} // verus!
