//! Sets of numbers that can be listed.

use std::collections::HashSet;
use vstd::prelude::*;

verus! {

broadcast use vstd::std_specs::hash::group_hash_axioms;

/// A set of numbers. `items` lists them once each; `index` finds them.
pub struct NumberSet {
    index: HashSet<u32>,
    items: Vec<u32>,
}

impl View for NumberSet {
    type V = Set<u32>;

    closed spec fn view(&self) -> Set<u32> {
        self.items@.to_set()
    }
}

impl NumberSet {
    /// Both parts hold the same numbers.
    pub closed spec fn wf(self) -> bool {
        &&& self.items@.no_duplicates()
        &&& forall|n: u32| self.index@.contains(n) == #[trigger] self.items@.contains(n)
    }

    /// The set is finite.
    pub proof fn lemma_finite(self)
        requires
            self.wf(),
        ensures
            self@.finite(),
    {
        self.items@.unique_seq_to_set();
    }

    /// No numbers.
    pub fn new() -> (r: Self)
        ensures
            r.wf(),
            r@ == Set::<u32>::empty(),
    {
        let r = NumberSet { index: HashSet::new(), items: Vec::new() };
        assert(r@ =~= Set::<u32>::empty());
        r
    }

    /// Whether a number is in the set.
    pub fn contains(&self, n: u32) -> (r: bool)
        requires
            self.wf(),
        ensures
            r == self@.contains(n),
    {
        assert(self@.contains(n) == self.items@.contains(n));
        self.index.contains(&n)
    }

    /// The number of numbers.
    pub fn len(&self) -> (r: usize)
        requires
            self.wf(),
        ensures
            r == self@.len(),
            self@.finite(),
    {
        proof {
            self.items@.unique_seq_to_set();
        }
        self.items.len()
    }

    /// Adds a number.
    pub fn insert(&mut self, n: u32)
        requires
            old(self).wf(),
        ensures
            final(self).wf(),
            final(self)@ == old(self)@.insert(n),
    {
        let ghost before = *self;
        if !self.contains(n) {
            self.index.insert(n);
            self.items.push(n);
            proof {
                let items = self.items@;
                assert(items == before.items@.push(n));
                assert(items[before.items@.len() as int] == n);
                assert forall|m: u32| #[trigger] items.contains(m) == (before.items@.contains(m)
                    || m == n) by {
                    if before.items@.contains(m) {
                        let i = choose|i: int|
                            0 <= i < before.items@.len() && before.items@[i] == m;
                        assert(items[i] == m);
                    }
                    if items.contains(m) {
                        let i = choose|i: int| 0 <= i < items.len() && items[i] == m;
                        if i < before.items@.len() {
                            assert(before.items@[i] == m);
                        }
                    }
                }
                assert(!before.items@.contains(n));
                assert(items.no_duplicates());
            }
        }
        assert(self@ =~= before@.insert(n));
    }

    /// Takes a number out.
    pub fn remove(&mut self, n: u32)
        requires
            old(self).wf(),
        ensures
            final(self).wf(),
            final(self)@ == old(self)@.remove(n),
    {
        let ghost before = *self;
        if !self.contains(n) {
            assert(self@ =~= before@.remove(n));
            return;
        }
        let mut i: usize = 0;
        let count: usize = self.items.len();
        while self.items[i] != n
            invariant
                count == self.items@.len(),
                *self == before,
                before.items@.contains(n),
                i < self.items@.len(),
                forall|k: int| 0 <= k < i ==> #[trigger] self.items@[k] != n,
            decreases self.items@.len() - i,
        {
            i += 1;
            proof {
                let k = choose|k: int| 0 <= k < before.items@.len() && before.items@[k] == n;
                assert(k >= i);
            }
        }
        let _ = self.items.remove(i);
        self.index.remove(&n);
        proof {
            let items = self.items@;
            let all = before.items@;
            assert(items == all.remove(i as int));
            assert forall|k: int| 0 <= k < items.len() implies #[trigger] items[k] == (if k < i {
                all[k]
            } else {
                all[k + 1]
            }) by {}
            assert forall|m: u32| #[trigger] items.contains(m) == (all.contains(m) && m != n) by {
                if items.contains(m) {
                    let k = choose|k: int| 0 <= k < items.len() && items[k] == m;
                    let source = if k < i {
                        k
                    } else {
                        k + 1
                    };
                    assert(all[source] == m);
                    assert(all[i as int] == n);
                }
                if all.contains(m) && m != n {
                    let k = choose|k: int| 0 <= k < all.len() && all[k] == m;
                    let place = if k < i {
                        k
                    } else {
                        k - 1
                    };
                    assert(items[place] == m);
                }
            }
            assert(items.no_duplicates()) by {
                assert forall|a: int, b: int| 0 <= a < b < items.len() implies items[a]
                    != items[b] by {
                    let x = if a < i {
                        a
                    } else {
                        a + 1
                    };
                    let y = if b < i {
                        b
                    } else {
                        b + 1
                    };
                    assert(items[a] == all[x] && items[b] == all[y]);
                }
            }
            assert(self@ =~= before@.remove(n));
        }
    }

    /// All numbers, once each, in no particular order.
    pub fn to_vec(&self) -> (r: Vec<u32>)
        requires
            self.wf(),
        ensures
            r@.no_duplicates(),
            r@.to_set() == self@,
            r@.len() == self@.len(),
    {
        proof {
            self.items@.unique_seq_to_set();
        }
        crate::registry::copy_units(&self.items)
    }

    /// Adds the numbers of another set.
    pub fn extend(&mut self, other: &NumberSet)
        requires
            old(self).wf(),
            other.wf(),
        ensures
            final(self).wf(),
            final(self)@ == old(self)@.union(other@),
    {
        let ghost before = self@;
        let mut i: usize = 0;
        assert(before.union(other.items@.take(0).to_set()) =~= before);
        while i < other.items.len()
            invariant
                self.wf(),
                i <= other.items@.len(),
                self@ == before.union(other.items@.take(i as int).to_set()),
            decreases other.items@.len() - i,
        {
            let n: u32 = other.items[i];
            self.insert(n);
            proof {
                let shorter = other.items@.take(i as int);
                let longer = other.items@.take(i + 1);
                assert(longer =~= shorter.push(n));
                assert(longer.to_set() =~= shorter.to_set().insert(n)) by {
                    assert forall|m: u32| longer.contains(m) == (shorter.contains(m) || m == n) by {
                        if longer.contains(m) {
                            let k = choose|k: int| 0 <= k < longer.len() && longer[k] == m;
                            if k < shorter.len() {
                                assert(shorter[k] == m);
                            }
                        }
                        if shorter.contains(m) {
                            let k = choose|k: int| 0 <= k < shorter.len() && shorter[k] == m;
                            assert(longer[k] == m);
                        }
                        assert(longer[shorter.len() as int] == n);
                    }
                }
                assert(self@ =~= before.union(longer.to_set()));
            }
            i += 1;
        }
        assert(other.items@.take(i as int) =~= other.items@);
    }

    /// A copy of the set.
    pub fn duplicate(&self) -> (r: Self)
        requires
            self.wf(),
        ensures
            r.wf(),
            r@ == self@,
    {
        let mut r = NumberSet::new();
        r.extend(self);
        assert(r@ =~= self@);
        r
    }
}

} // verus!
