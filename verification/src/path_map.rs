//! Maps from byte paths, in lexicographic order.

use vstd::prelude::*;
use crate::byte_order::{bytes_gt, lex_less, lex_order_is_total, lex_order_is_transitive};

verus! {

/// A map from byte paths. The entries are sorted by path.
pub struct PathMap<T> {
    pub entries: Vec<(Vec<u8>, T)>,
}

/// An entry has the given path.
pub open spec fn has_path<T>(entries: Seq<(Vec<u8>, T)>, path: Seq<u8>) -> bool {
    exists|i: int| 0 <= i < entries.len() && (#[trigger] entries[i]).0@ == path
}

/// The entry with the given path.
pub open spec fn path_slot<T>(entries: Seq<(Vec<u8>, T)>, path: Seq<u8>) -> int {
    choose|i: int| 0 <= i < entries.len() && (#[trigger] entries[i]).0@ == path
}

impl<T> View for PathMap<T> {
    type V = Map<Seq<u8>, T>;

    open spec fn view(&self) -> Map<Seq<u8>, T> {
        Map::new(
            |path: Seq<u8>| has_path(self.entries@, path),
            |path: Seq<u8>| self.entries@[path_slot(self.entries@, path)].1,
        )
    }
}

impl<T: Copy> PathMap<T> {
    /// Paths strictly increase.
    pub open spec fn wf(self) -> bool {
        forall|i: int, j: int|
            0 <= i < j < self.entries@.len() ==> lex_less(
                (#[trigger] self.entries@[i]).0@,
                (#[trigger] self.entries@[j]).0@,
            )
    }

    /// No entries.
    pub fn new() -> (r: Self)
        ensures
            r.wf(),
            r@ == Map::<Seq<u8>, T>::empty(),
    {
        let r = PathMap { entries: Vec::new() };
        assert(r@ =~= Map::<Seq<u8>, T>::empty());
        r
    }

    /// Whether there is no entry.
    pub fn is_empty(&self) -> (r: bool)
        ensures
            r == (self@.dom() == Set::<Seq<u8>>::empty()),
    {
        proof {
            if self.entries@.len() == 0 {
                assert(self@.dom() =~= Set::<Seq<u8>>::empty());
            } else {
                assert(has_path(self.entries@, self.entries@[0].0@));
                assert(self@.dom().contains(self.entries@[0].0@));
            }
        }
        self.entries.len() == 0
    }

    /// Removes every entry.
    pub fn clear(&mut self)
        ensures
            final(self).wf(),
            final(self)@ == Map::<Seq<u8>, T>::empty(),
    {
        self.entries.clear();
        assert(self@ =~= Map::<Seq<u8>, T>::empty());
    }

    /// The first entry that does not come before a path.
    fn lower_bound(&self, path: &[u8]) -> (r: usize)
        requires
            self.wf(),
        ensures
            r <= self.entries@.len(),
            forall|i: int| 0 <= i < r ==> lex_less((#[trigger] self.entries@[i]).0@, path@),
            forall|i: int|
                r <= i < self.entries@.len() ==> !lex_less(
                    (#[trigger] self.entries@[i]).0@,
                    path@,
                ),
    {
        let mut low: usize = 0;
        let mut high: usize = self.entries.len();
        while low < high
            invariant
                self.wf(),
                low <= high <= self.entries@.len(),
                forall|i: int| 0 <= i < low ==> lex_less((#[trigger] self.entries@[i]).0@, path@),
                forall|i: int|
                    high <= i < self.entries@.len() ==> !lex_less(
                        (#[trigger] self.entries@[i]).0@,
                        path@,
                    ),
            decreases high - low,
        {
            let middle: usize = low + (high - low) / 2;
            let probe = &self.entries[middle].0;
            if bytes_gt(path, probe.as_slice()) {
                proof {
                    assert forall|i: int| 0 <= i < middle + 1 implies lex_less(
                        (#[trigger] self.entries@[i]).0@,
                        path@,
                    ) by {
                        if i < middle {
                            lex_order_is_transitive(self.entries@[i].0@, probe@, path@);
                        }
                    }
                }
                low = middle + 1;
            } else {
                proof {
                    assert forall|i: int| middle <= i < self.entries@.len() implies !lex_less(
                        (#[trigger] self.entries@[i]).0@,
                        path@,
                    ) by {
                        if i > middle && lex_less(self.entries@[i].0@, path@) {
                            lex_order_is_transitive(probe@, self.entries@[i].0@, path@);
                        }
                    }
                }
                high = middle;
            }
        }
        low
    }

    /// The slot of a path, or where it belongs.
    fn find(&self, path: &[u8]) -> (r: (usize, bool))
        requires
            self.wf(),
        ensures
            r.0 <= self.entries@.len(),
            r.1 == self@.dom().contains(path@),
            r.1 ==> r.0 < self.entries@.len() && self.entries@[r.0 as int].0@ == path@
                && self@[path@] == self.entries@[r.0 as int].1,
            forall|i: int| 0 <= i < r.0 ==> lex_less((#[trigger] self.entries@[i]).0@, path@),
            forall|i: int|
                r.0 <= i < self.entries@.len() ==> (#[trigger] self.entries@[i]).0@ == path@
                    || lex_less(path@, self.entries@[i].0@),
            !r.1 ==> forall|i: int|
                r.0 <= i < self.entries@.len() ==> lex_less(
                    path@,
                    (#[trigger] self.entries@[i]).0@,
                ),
    {
        let slot: usize = self.lower_bound(path);
        proof {
            assert forall|i: int| slot <= i < self.entries@.len() implies (
            #[trigger] self.entries@[i]).0@ == path@ || lex_less(path@, self.entries@[i].0@) by {
                lex_order_is_total(self.entries@[i].0@, path@);
            }
        }
        if slot < self.entries.len() {
            let probe = &self.entries[slot].0;
            if !bytes_gt(probe.as_slice(), path) {
                proof {
                    lemma_path_slot(*self, slot as int);
                }
                return (slot, true);
            }
        }
        proof {
            assert forall|i: int| slot <= i < self.entries@.len() implies lex_less(
                path@,
                (#[trigger] self.entries@[i]).0@,
            ) by {
                if self.entries@[i].0@ == path@ {
                    let probe = self.entries@[slot as int].0@;
                    if i > slot {
                        assert(lex_less(probe, path@));
                    }
                }
            }
            if has_path(self.entries@, path@) {
                let i = path_slot(self.entries@, path@);
                lex_order_is_total(path@, path@);
                assert(self.entries@[i].0@ == path@);
            }
        }
        (slot, false)
    }

    /// The value of a path.
    pub fn get(&self, path: &[u8]) -> (r: Option<T>)
        requires
            self.wf(),
        ensures
            r == (if self@.dom().contains(path@) {
                Some(self@[path@])
            } else {
                None
            }),
    {
        let (slot, found) = self.find(path);
        if found {
            Some(self.entries[slot].1)
        } else {
            None
        }
    }

    /// Whether a path has a value.
    pub fn contains(&self, path: &[u8]) -> (r: bool)
        requires
            self.wf(),
        ensures
            r == self@.dom().contains(path@),
    {
        let (_, found) = self.find(path);
        found
    }

    /// Gives a path a value.
    pub fn insert(&mut self, path: &[u8], value: T)
        requires
            old(self).wf(),
        ensures
            final(self).wf(),
            final(self)@ == old(self)@.insert(path@, value),
    {
        let ghost before = *self;
        let (slot, found) = self.find(path);
        let key: Vec<u8> = vstd::slice::slice_to_vec(path);
        if found {
            self.entries.set(slot, (key, value));
            proof {
                let after = self.entries@;
                assert forall|i: int| 0 <= i < after.len() implies (#[trigger] after[i]).0@
                    == before.entries@[i].0@ by {}
                assert forall|i: int, j: int| 0 <= i < j < after.len() implies lex_less(
                    (#[trigger] after[i]).0@,
                    (#[trigger] after[j]).0@,
                ) by {
                    assert(lex_less(before.entries@[i].0@, before.entries@[j].0@));
                }
                assert forall|p: Seq<u8>| #[trigger] self@.dom().contains(p) == (
                before@.dom().contains(p) || p == path@) by {
                    lemma_same_paths(before.entries@, after, p);
                }
            }
        } else {
            self.entries.insert(slot, (key, value));
            proof {
                let after = self.entries@;
                let old_entries = before.entries@;
                assert forall|i: int| 0 <= i < after.len() implies (#[trigger] after[i]).0@ == (if i
                    < slot {
                    old_entries[i].0@
                } else if i == slot {
                    path@
                } else {
                    old_entries[i - 1].0@
                }) by {}
                assert forall|i: int, j: int| 0 <= i < j < after.len() implies lex_less(
                    (#[trigger] after[i]).0@,
                    (#[trigger] after[j]).0@,
                ) by {
                    let x = if i < slot {
                        i
                    } else {
                        i - 1
                    };
                    let y = if j < slot {
                        j
                    } else {
                        j - 1
                    };
                    if i != slot && j != slot {
                        assert(lex_less(old_entries[x].0@, old_entries[y].0@));
                    } else if i == slot {
                        assert(lex_less(path@, old_entries[j - 1].0@));
                    } else {
                        assert(lex_less(old_entries[i].0@, path@));
                    }
                }
                assert forall|p: Seq<u8>| #[trigger] self@.dom().contains(p) == (
                before@.dom().contains(p) || p == path@) by {
                    if has_path(old_entries, p) {
                        let i = path_slot(old_entries, p);
                        let k = if i < slot {
                            i
                        } else {
                            i + 1
                        };
                        assert(after[k].0@ == old_entries[i].0@);
                    }
                    if has_path(after, p) {
                        let k = path_slot(after, p);
                        if k != slot {
                            let i = if k < slot {
                                k
                            } else {
                                k - 1
                            };
                            assert(old_entries[i].0@ == p);
                        }
                    }
                    assert(after[slot as int].0@ == path@);
                }
            }
        }
        proof {
            lemma_path_slot(*self, slot as int);
            assert forall|p: Seq<u8>| #[trigger] before@.dom().contains(p) && p != path@ implies self@[p]
                == before@[p] by {
                let i = path_slot(before.entries@, p);
                assert(before.entries@[i].0@ == p);
                let k = if found || i < slot {
                    i
                } else {
                    i + 1
                };
                assert(self.entries@[k] == before.entries@[i]);
                lemma_path_slot(*self, k);
            }
            assert(self@ =~= before@.insert(path@, value));
        }
    }

    /// Takes a path out.
    pub fn remove(&mut self, path: &[u8])
        requires
            old(self).wf(),
        ensures
            final(self).wf(),
            final(self)@ == old(self)@.remove(path@),
    {
        let ghost before = *self;
        let (slot, found) = self.find(path);
        if !found {
            assert(self@ =~= before@.remove(path@));
            return;
        }
        let _ = self.entries.remove(slot);
        proof {
            let after = self.entries@;
            let all = before.entries@;
            assert forall|k: int| 0 <= k < after.len() implies #[trigger] after[k] == (if k < slot {
                all[k]
            } else {
                all[k + 1]
            }) by {}
            assert forall|i: int, j: int| 0 <= i < j < after.len() implies lex_less(
                (#[trigger] after[i]).0@,
                (#[trigger] after[j]).0@,
            ) by {
                let x = if i < slot {
                    i
                } else {
                    i + 1
                };
                let y = if j < slot {
                    j
                } else {
                    j + 1
                };
                assert(lex_less(all[x].0@, all[y].0@));
            }
            assert forall|p: Seq<u8>| #[trigger] self@.dom().contains(p) == (
            before@.dom().contains(p) && p != path@) by {
                if has_path(after, p) {
                    let k = path_slot(after, p);
                    let i = if k < slot {
                        k
                    } else {
                        k + 1
                    };
                    assert(all[i].0@ == p);
                    if p == path@ {
                        lex_order_is_total(p, p);
                        if i < slot {
                            assert(lex_less(all[i].0@, all[slot as int].0@));
                        } else {
                            assert(lex_less(all[slot as int].0@, all[i].0@));
                        }
                    }
                }
                if has_path(all, p) && p != path@ {
                    let i = path_slot(all, p);
                    let k = if i < slot {
                        i
                    } else {
                        i - 1
                    };
                    assert(after[k].0@ == p);
                }
            }
            assert forall|p: Seq<u8>| #[trigger] self@.dom().contains(p) implies self@[p]
                == before@[p] by {
                let k = path_slot(after, p);
                assert(after[k].0@ == p);
                let i = if k < slot {
                    k
                } else {
                    k + 1
                };
                assert(all[i] == after[k]);
                lemma_path_slot(before, i);
                lemma_path_slot(*self, k);
            }
            assert(self@ =~= before@.remove(path@));
        }
    }
}

/// A path has one entry.
proof fn lemma_path_slot<T: Copy>(map: PathMap<T>, slot: int)
    requires
        map.wf(),
        0 <= slot < map.entries@.len(),
    ensures
        map@.dom().contains(map.entries@[slot].0@),
        map@[map.entries@[slot].0@] == map.entries@[slot].1,
{
    let path = map.entries@[slot].0@;
    let found = path_slot(map.entries@, path);
    assert(map.entries@[slot].0@ == path);
    assert(0 <= found < map.entries@.len() && map.entries@[found].0@ == path);
    lex_order_is_total(path, path);
    if found < slot {
        assert(lex_less(map.entries@[found].0@, map.entries@[slot].0@));
    } else if slot < found {
        assert(lex_less(map.entries@[slot].0@, map.entries@[found].0@));
    }
}

/// Entries with the same paths.
proof fn lemma_same_paths<T>(a: Seq<(Vec<u8>, T)>, b: Seq<(Vec<u8>, T)>, path: Seq<u8>)
    requires
        a.len() == b.len(),
        forall|i: int| 0 <= i < b.len() ==> (#[trigger] b[i]).0@ == a[i].0@,
    ensures
        has_path(a, path) == has_path(b, path),
{
    if has_path(a, path) {
        let i = path_slot(a, path);
        assert(b[i].0@ == a[i].0@);
    }
    if has_path(b, path) {
        let i = path_slot(b, path);
        assert(a[i].0@ == path);
    }
}

} // verus!
