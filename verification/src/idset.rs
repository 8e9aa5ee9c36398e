//! A set of 64-bit identifiers, kept as a strictly increasing vector. It
//! records each side of the user/event relation, and its abstract value is a
//! `Set<u64>`, so linking twice is the same as linking once.

use vstd::prelude::*;

use crate::kvmap::sorted_strict;

verus! {

/// A set of identifiers with a deterministic (increasing) iteration order.
#[derive(Debug)]
pub struct IdSet {
    items: Vec<u64>,
}

impl View for IdSet {
    type V = Set<u64>;

    closed spec fn view(&self) -> Set<u64> {
        Set::new(|y: u64| self.items@.contains(y))
    }
}

impl IdSet {
    /// The members strictly increase; constructors establish this and every
    /// method preserves it.
    pub closed spec fn wf(&self) -> bool {
        sorted_strict(self.items@)
    }

    pub fn new() -> (s: Self)
        ensures
            s.wf(),
            s@ == Set::<u64>::empty(),
    {
        let s = IdSet { items: Vec::new() };
        proof {
            assert(s@ =~= Set::<u64>::empty());
        }
        s
    }

    /// Adds an identifier; adding a member twice changes nothing.
    pub fn insert(&mut self, x: u64)
        requires
            old(self).wf(),
        ensures
            final(self).wf(),
            final(self)@ == old(self)@.insert(x),
    {
        let ghost s0 = self.items@;
        let mut i: usize = 0;
        while i < self.items.len() && self.items[i] < x
            invariant
                0 <= i <= self.items.len(),
                forall|j: int| 0 <= j < i ==> self.items@[j] < x,
                self.wf(),
                self.items@ == s0,
            decreases self.items.len() - i,
        {
            i += 1;
        }
        if i < self.items.len() && self.items[i] == x {
            proof {
                assert(self@.contains(x));
                assert(self@ =~= old(self)@.insert(x));
            }
        } else {
            self.items.insert(i, x);
            proof {
                assert forall|y: u64|
                    self@.contains(y) <==> old(self)@.insert(x).contains(y) by {
                    if self.items@.contains(y) {
                        let j = choose|j: int|
                            0 <= j < self.items@.len() && self.items@[j] == y;
                        if j < i {
                            assert(s0[j] == y);
                            assert(s0.contains(y));
                        } else if j > i {
                            assert(s0[j - 1] == y);
                            assert(s0.contains(y));
                        }
                    }
                    if s0.contains(y) {
                        let j = choose|j: int| 0 <= j < s0.len() && s0[j] == y;
                        if j < i {
                            assert(self.items@[j] == y);
                        } else {
                            assert(self.items@[j + 1] == y);
                        }
                        assert(self.items@.contains(y));
                    }
                    if y == x {
                        assert(self.items@[i as int] == y);
                        assert(self.items@.contains(y));
                    }
                }
                assert(self@ =~= old(self)@.insert(x));
                assert(sorted_strict(self.items@)) by {
                    let ns = self.items@;
                    assert forall|a: int, b: int| 0 <= a < b < ns.len() implies ns[a] < ns[b] by {
                        assert(ns[a] == if a < i { s0[a] } else if a == i { x } else {
                            s0[a - 1]
                        });
                        assert(ns[b] == if b < i { s0[b] } else if b == i { x } else {
                            s0[b - 1]
                        });
                    }
                }
            }
        }
    }

    /// Whether an identifier is a member.
    pub fn contains(&self, x: u64) -> (r: bool)
        ensures
            r == self@.contains(x),
    {
        let mut i: usize = 0;
        while i < self.items.len()
            invariant
                0 <= i <= self.items.len(),
                forall|j: int| 0 <= j < i ==> self.items@[j] != x,
            decreases self.items.len() - i,
        {
            if self.items[i] == x {
                return true;
            }
            i += 1;
        }
        proof {
            if self.items@.contains(x) {
                let j = choose|j: int| 0 <= j < self.items@.len() && self.items@[j] == x;
            }
        }
        false
    }

    /// The members in increasing order.
    pub fn to_vec(&self) -> (r: Vec<u64>)
        requires
            self.wf(),
        ensures
            sorted_strict(r@),
            forall|y: u64| r@.contains(y) <==> self@.contains(y),
    {
        let mut r: Vec<u64> = Vec::new();
        let mut i: usize = 0;
        while i < self.items.len()
            invariant
                0 <= i <= self.items.len(),
                r@ =~= self.items@.subrange(0, i as int),
            decreases self.items.len() - i,
        {
            r.push(self.items[i]);
            i += 1;
        }
        proof {
            assert(r@ =~= self.items@);
        }
        r
    }
}

impl Clone for IdSet {
    fn clone(&self) -> (r: Self)
        ensures
            r@ == self@,
            r.wf() <==> self.wf(),
    {
        let mut items: Vec<u64> = Vec::new();
        let mut i: usize = 0;
        while i < self.items.len()
            invariant
                0 <= i <= self.items.len(),
                items@ =~= self.items@.subrange(0, i as int),
            decreases self.items.len() - i,
        {
            items.push(self.items[i]);
            i += 1;
        }
        proof {
            assert(items@ =~= self.items@);
        }
        let r = IdSet { items };
        proof {
            assert(r@ =~= self@);
        }
        r
    }
}

} // verus!
