//! The store's keyed tables: a mapping from a 64-bit id to a record, kept as
//! a vector of pairs whose keys strictly increase. One spec-level abstraction
//! (`map_of_pairs`) gives every table its mathematical meaning.

use vstd::prelude::*;

verus! {

/// The keys of a key/value pair sequence, in storage order.
pub open spec fn key_seq<T>(s: Seq<(u64, T)>) -> Seq<u64> {
    s.map_values(|p: (u64, T)| p.0)
}

/// Keys strictly increase from left to right (so they are also unique).
pub open spec fn sorted_strict(ks: Seq<u64>) -> bool {
    forall|i: int, j: int| 0 <= i < j < ks.len() ==> ks[i] < ks[j]
}

/// The mapping that a key/value pair sequence denotes; on a repeated key the
/// later pair wins.
pub open spec fn map_of_pairs<T>(s: Seq<(u64, T)>) -> Map<u64, T>
    decreases s.len(),
{
    if s.len() == 0 {
        Map::empty()
    } else {
        map_of_pairs(s.drop_last()).insert(s.last().0, s.last().1)
    }
}

/// A key sequence contains a key exactly when the sequence without its last
/// element does, or the last element is that key.
proof fn lemma_contains_split(q: Seq<u64>, k: u64)
    requires
        q.len() > 0,
    ensures
        q.contains(k) <==> (q.last() == k || q.drop_last().contains(k)),
{
    if q.contains(k) {
        let i = choose|i: int| 0 <= i < q.len() && q[i] == k;
        if i < q.len() - 1 {
            assert(q.drop_last()[i] == k);
            assert(q.drop_last().contains(k));
        }
    }
    if q.drop_last().contains(k) {
        let i = choose|i: int| 0 <= i < q.drop_last().len() && q.drop_last()[i] == k;
        assert(q[i] == k);
    }
}

/// The denoted mapping has exactly the keys of the pair sequence.
pub proof fn lemma_map_of_pairs_contains<T>(s: Seq<(u64, T)>, k: u64)
    ensures
        map_of_pairs(s).contains_key(k) <==> key_seq(s).contains(k),
    decreases s.len(),
{
    if s.len() == 0 {
        if key_seq(s).contains(k) {
            let i = choose|i: int| 0 <= i < key_seq(s).len() && key_seq(s)[i] == k;
        }
    } else {
        lemma_map_of_pairs_contains(s.drop_last(), k);
        assert(key_seq(s.drop_last()) =~= key_seq(s).drop_last());
        lemma_contains_split(key_seq(s), k);
        assert(key_seq(s).last() == s.last().0);
    }
}

/// Every pair of the sequence is present in the denoted mapping when keys are
/// unique; in particular the value at a key is the paired record.
pub proof fn lemma_map_of_pairs_index<T>(s: Seq<(u64, T)>, i: int)
    requires
        sorted_strict(key_seq(s)),
        0 <= i < s.len(),
    ensures
        map_of_pairs(s).contains_key(s[i].0),
        map_of_pairs(s)[s[i].0] == s[i].1,
    decreases s.len(),
{
    if i == s.len() - 1 {
    } else {
        assert(key_seq(s.drop_last()) =~= key_seq(s).drop_last());
        assert(sorted_strict(key_seq(s.drop_last()))) by {
            assert(forall|a: int, b: int|
                0 <= a < b < key_seq(s.drop_last()).len() ==> key_seq(s.drop_last())[a]
                    == key_seq(s)[a] && key_seq(s.drop_last())[b] == key_seq(s)[b]);
        }
        lemma_map_of_pairs_index(s.drop_last(), i);
        assert(key_seq(s)[i] == s[i].0);
        assert(key_seq(s)[s.len() - 1] == s.last().0);
        assert(s[i].0 != s.last().0);
        assert(s.drop_last()[i] == s[i]);
    }
}

/// Replacing the record at one position (keeping its key) denotes the same
/// mapping as a spec-level insert of that key.
pub proof fn lemma_map_of_pairs_update<T>(s: Seq<(u64, T)>, i: int, v: T)
    requires
        sorted_strict(key_seq(s)),
        0 <= i < s.len(),
    ensures
        map_of_pairs(s.update(i, (s[i].0, v))) == map_of_pairs(s).insert(s[i].0, v),
    decreases s.len(),
{
    let s2 = s.update(i, (s[i].0, v));
    if i == s.len() - 1 {
        assert(s2.drop_last() =~= s.drop_last());
        assert(s2.last() == (s[i].0, v));
        assert(map_of_pairs(s2) =~= map_of_pairs(s).insert(s[i].0, v));
    } else {
        assert(key_seq(s.drop_last()) =~= key_seq(s).drop_last());
        assert(sorted_strict(key_seq(s.drop_last()))) by {
            assert(forall|a: int, b: int|
                0 <= a < b < key_seq(s.drop_last()).len() ==> key_seq(s.drop_last())[a]
                    == key_seq(s)[a] && key_seq(s.drop_last())[b] == key_seq(s)[b]);
        }
        lemma_map_of_pairs_update(s.drop_last(), i, v);
        assert(s.drop_last()[i] == s[i]);
        assert(s2.drop_last() =~= s.drop_last().update(i, (s[i].0, v)));
        assert(s2.last() == s.last());
        assert(key_seq(s)[i] == s[i].0);
        assert(key_seq(s)[s.len() - 1] == s.last().0);
        assert(s[i].0 != s.last().0);
        assert(map_of_pairs(s2) =~= map_of_pairs(s).insert(s[i].0, v));
    }
}

/// Splicing a fresh key into the sequence denotes a spec-level insert.
pub proof fn lemma_map_of_pairs_insert_at<T>(s: Seq<(u64, T)>, i: int, k: u64, v: T)
    requires
        !key_seq(s).contains(k),
        0 <= i <= s.len(),
    ensures
        map_of_pairs(s.insert(i, (k, v))) == map_of_pairs(s).insert(k, v),
    decreases s.len(),
{
    let s2 = s.insert(i, (k, v));
    if i == s.len() {
        assert(s2.drop_last() =~= s);
        assert(s2.last() == (k, v));
    } else {
        assert(s2.last() == s.last());
        assert(s2.drop_last() =~= s.drop_last().insert(i, (k, v)));
        assert(!key_seq(s.drop_last()).contains(k)) by {
            if key_seq(s.drop_last()).contains(k) {
                let j = choose|j: int|
                    0 <= j < key_seq(s.drop_last()).len() && key_seq(s.drop_last())[j] == k;
                assert(key_seq(s)[j] == k);
                assert(key_seq(s).contains(k));
            }
        }
        lemma_map_of_pairs_insert_at(s.drop_last(), i, k, v);
        assert(k != s.last().0) by {
            if k == s.last().0 {
                assert(key_seq(s)[s.len() - 1] == k);
                assert(key_seq(s).contains(k));
            }
        }
        assert(map_of_pairs(s2) =~= map_of_pairs(s).insert(k, v));
    }
}

/// A keyed table of records: the executable form of a `Map<u64, _>`, kept as
/// a vector of pairs sorted strictly by key.
pub struct Table<V> {
    rows: Vec<(u64, V)>,
}

impl<V> View for Table<V> {
    type V = Map<u64, V>;

    closed spec fn view(&self) -> Map<u64, V> {
        map_of_pairs(self.rows@)
    }
}

impl<V> Table<V> {
    /// The table's keys, in increasing order.
    pub closed spec fn keys(&self) -> Seq<u64> {
        key_seq(self.rows@)
    }

    /// The keys strictly increase; constructors establish this and every
    /// method preserves it.
    pub closed spec fn wf(&self) -> bool {
        sorted_strict(key_seq(self.rows@))
    }

    pub fn new() -> (t: Self)
        ensures
            t.wf(),
            t@ == Map::<u64, V>::empty(),
            t.keys() == Seq::<u64>::empty(),
    {
        let t = Table { rows: Vec::new() };
        proof {
            assert(t.keys() =~= Seq::<u64>::empty());
        }
        t
    }

    /// Looks a record up by its key.
    pub fn get(&self, key: u64) -> (r: Option<&V>)
        requires
            self.wf(),
        ensures
            match r {
                Some(v) => self@.contains_key(key) && *v == self@[key],
                None => !self@.contains_key(key),
            },
    {
        let mut i: usize = 0;
        while i < self.rows.len()
            invariant
                0 <= i <= self.rows.len(),
                forall|j: int| 0 <= j < i ==> self.rows@[j].0 != key,
                self.wf(),
            decreases self.rows.len() - i,
        {
            if self.rows[i].0 == key {
                proof {
                    lemma_map_of_pairs_index(self.rows@, i as int);
                }
                return Some(&self.rows[i].1);
            }
            i += 1;
        }
        proof {
            assert(!key_seq(self.rows@).contains(key)) by {
                if key_seq(self.rows@).contains(key) {
                    let j = choose|j: int|
                        0 <= j < key_seq(self.rows@).len() && key_seq(self.rows@)[j] == key;
                    assert(self.rows@[j].0 == key);
                }
            }
            lemma_map_of_pairs_contains(self.rows@, key);
        }
        None
    }

    /// Stores a record under a key, overwriting any prior record there
    /// (last write wins).
    pub fn put(&mut self, key: u64, value: V)
        requires
            old(self).wf(),
        ensures
            final(self).wf(),
            final(self)@ == old(self)@.insert(key, value),
    {
        let ghost s0 = self.rows@;
        let mut i: usize = 0;
        while i < self.rows.len() && self.rows[i].0 < key
            invariant
                0 <= i <= self.rows.len(),
                forall|j: int| 0 <= j < i ==> self.rows@[j].0 < key,
                self.wf(),
                self.rows@ == s0,
            decreases self.rows.len() - i,
        {
            i += 1;
        }
        if i < self.rows.len() && self.rows[i].0 == key {
            self.rows.set(i, (key, value));
            proof {
                assert(s0[i as int].0 == key);
                assert(self.rows@ =~= s0.update(i as int, (key, value)));
                lemma_map_of_pairs_update(s0, i as int, value);
                assert(key_seq(self.rows@) =~= key_seq(s0));
            }
        } else {
            let ghost ks0 = key_seq(s0);
            proof {
                assert(!ks0.contains(key)) by {
                    if ks0.contains(key) {
                        let j = choose|j: int| 0 <= j < ks0.len() && ks0[j] == key;
                        if j < i {
                            assert(s0[j].0 < key);
                        } else {
                            assert(ks0[i as int] <= ks0[j]);
                        }
                    }
                }
            }
            self.rows.insert(i, (key, value));
            proof {
                assert(self.rows@ =~= s0.insert(i as int, (key, value)));
                lemma_map_of_pairs_insert_at(s0, i as int, key, value);
                assert(sorted_strict(key_seq(self.rows@))) by {
                    let ks = key_seq(self.rows@);
                    assert forall|a: int, b: int| 0 <= a < b < ks.len() implies ks[a] < ks[b] by {
                        assert(ks[a] == if a < i { ks0[a] } else if a == i { key } else {
                            ks0[a - 1]
                        });
                        assert(ks[b] == if b < i { ks0[b] } else if b == i { key } else {
                            ks0[b - 1]
                        });
                    }
                }
            }
        }
    }

    /// Hands out every key of the table, in increasing order.
    pub fn keys_vec(&self) -> (r: Vec<u64>)
        requires
            self.wf(),
        ensures
            r@ == self.keys(),
            sorted_strict(r@),
            forall|k: u64| #[trigger] self@.contains_key(k) <==> r@.contains(k),
    {
        proof {
            assert forall|k: u64| #[trigger] self@.contains_key(k) <==> self.keys().contains(
                k,
            ) by {
                lemma_map_of_pairs_contains(self.rows@, k);
            }
        }
        let mut r: Vec<u64> = Vec::new();
        let mut i: usize = 0;
        while i < self.rows.len()
            invariant
                0 <= i <= self.rows.len(),
                r@ =~= self.keys().subrange(0, i as int),
            decreases self.rows.len() - i,
        {
            r.push(self.rows[i].0);
            i += 1;
        }
        proof {
            assert(r@ =~= self.keys());
        }
        r
    }
}

} // verus!
