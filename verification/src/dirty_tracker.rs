//! What has changed since the last checkpoint: arenas, and slots within them.

use std::collections::HashMap;
use vstd::prelude::*;
use crate::number_set::NumberSet;

verus! {

broadcast use vstd::std_specs::hash::group_hash_axioms;

/// The arenas that have changed, and, if asked for, the slots within them. Marks,
/// checkpoints and epochs are counted modulo 2^64.
pub struct DirtyTracker {
    dirty_arenas: NumberSet,
    dirty_slots: HashMap<u32, NumberSet>,
    /// The arenas that `dirty_slots` has slots of.
    slot_arenas: NumberSet,
    epoch: u64,
    track_slots: bool,
    total_marks: u64,
    checkpoint_count: u64,
}

/// A count modulo 2^64.
pub open spec fn counted(count: int) -> u64 {
    (count % 0x1_0000_0000_0000_0000) as u64
}

/// The number of slots of some arenas.
pub open spec fn slot_sum(slots: Map<u32, Set<u32>>, arenas: Seq<u32>) -> nat
    decreases arenas.len(),
{
    if arenas.len() == 0 {
        0
    } else {
        slot_sum(slots, arenas.drop_last()) + slots[arenas.last()].len()
    }
}

impl DirtyTracker {
    /// The arenas that have changed.
    pub closed spec fn arenas(self) -> Set<u32> {
        self.dirty_arenas@
    }

    /// The slots that have changed, for each arena that has any.
    pub closed spec fn slots(self) -> Map<u32, Set<u32>> {
        self.dirty_slots@.map_values(|set: NumberSet| set@)
    }

    /// Whether slots are tracked.
    pub closed spec fn tracks_slots(self) -> bool {
        self.track_slots
    }

    /// The number of marks so far, modulo 2^64.
    pub closed spec fn marks(self) -> u64 {
        self.total_marks
    }

    /// The number of checkpoints so far, modulo 2^64.
    pub closed spec fn checkpoints(self) -> u64 {
        self.checkpoint_count
    }

    /// The number of the present epoch.
    pub closed spec fn current_epoch(self) -> u64 {
        self.epoch
    }

    /// The parts fit together: slots belong to changed arenas, an arena is listed only
    /// with slots, and there are none if they are not tracked. An epoch ends with each
    /// checkpoint.
    pub closed spec fn wf(self) -> bool {
        &&& self.dirty_arenas.wf()
        &&& self.slot_arenas.wf()
        &&& self.dirty_slots@.dom() == self.slot_arenas@
        &&& forall|arena: u32| #[trigger]
            self.dirty_slots@.dom().contains(arena) ==> self.dirty_slots@[arena].wf()
                && self.dirty_slots@[arena]@ != Set::<u32>::empty()
        &&& self.slot_arenas@.subset_of(self.dirty_arenas@)
        &&& !self.track_slots ==> self.slot_arenas@ == Set::<u32>::empty()
        &&& self.epoch == self.checkpoint_count
    }

    /// A tracker that has seen no change. With `track_slots` it tells slots apart.
    pub fn new(track_slots: bool) -> (r: Self)
        ensures
            r.wf(),
            r.arenas() == Set::<u32>::empty(),
            r.slots() == Map::<u32, Set<u32>>::empty(),
            r.tracks_slots() == track_slots,
            r.marks() == 0,
            r.checkpoints() == 0,
            r.current_epoch() == 0,
    {
        let r = DirtyTracker {
            dirty_arenas: NumberSet::new(),
            dirty_slots: HashMap::new(),
            slot_arenas: NumberSet::new(),
            epoch: 0,
            track_slots,
            total_marks: 0,
            checkpoint_count: 0,
        };
        proof {
            assert(r.slots() =~= Map::<u32, Set<u32>>::empty());
            assert(r.dirty_slots@.dom() =~= Set::<u32>::empty());
        }
        r
    }

    /// A tracker that does not tell slots apart.
    pub fn arena_level() -> (r: Self)
        ensures
            r.wf(),
            r.arenas() == Set::<u32>::empty(),
            r.slots() == Map::<u32, Set<u32>>::empty(),
            !r.tracks_slots(),
            r.marks() == 0,
            r.checkpoints() == 0,
            r.current_epoch() == 0,
    {
        Self::new(false)
    }

    /// A tracker that tells slots apart.
    pub fn slot_level() -> (r: Self)
        ensures
            r.wf(),
            r.arenas() == Set::<u32>::empty(),
            r.slots() == Map::<u32, Set<u32>>::empty(),
            r.tracks_slots(),
            r.marks() == 0,
            r.checkpoints() == 0,
            r.current_epoch() == 0,
    {
        Self::new(true)
    }

    /// The settings and counters other than marks are as they were.
    pub open spec fn same_counters(self, before: Self) -> bool {
        &&& self.tracks_slots() == before.tracks_slots()
        &&& self.checkpoints() == before.checkpoints()
        &&& self.current_epoch() == before.current_epoch()
    }

    /// Takes note that an arena has changed.
    pub fn mark_arena_dirty(&mut self, arena_id: u32)
        requires
            old(self).wf(),
        ensures
            final(self).wf(),
            final(self).arenas() == old(self).arenas().insert(arena_id),
            final(self).slots() == old(self).slots(),
            final(self).marks() == counted(old(self).marks() + 1),
            final(self).same_counters(*old(self)),
    {
        self.dirty_arenas.insert(arena_id);
        self.total_marks = self.total_marks.wrapping_add(1);
    }

    /// The slots of an arena, with one more.
    pub open spec fn with_slot(slots: Map<u32, Set<u32>>, arena_id: u32, slot_id: u32) -> Map<
        u32,
        Set<u32>,
    > {
        slots.insert(
            arena_id,
            if slots.dom().contains(arena_id) {
                slots[arena_id].insert(slot_id)
            } else {
                Set::empty().insert(slot_id)
            },
        )
    }

    /// Adds slots to an arena.
    fn add_slots(&mut self, arena_id: u32, more: &NumberSet)
        requires
            old(self).wf(),
            old(self).track_slots,
            old(self).dirty_arenas@.contains(arena_id),
            more.wf(),
            more@ != Set::<u32>::empty(),
        ensures
            final(self).wf(),
            final(self).dirty_arenas == old(self).dirty_arenas,
            final(self).slots() == old(self).slots().insert(
                arena_id,
                if old(self).slots().dom().contains(arena_id) {
                    old(self).slots()[arena_id].union(more@)
                } else {
                    more@
                },
            ),
            final(self).marks() == old(self).marks(),
            final(self).same_counters(*old(self)),
            final(self).track_slots,
    {
        let ghost before = *self;
        let mut set: NumberSet = match self.dirty_slots.remove(&arena_id) {
            Some(set) => set,
            None => NumberSet::new(),
        };
        set.extend(more);
        let ghost added = set@;
        self.dirty_slots.insert(arena_id, set);
        self.slot_arenas.insert(arena_id);
        proof {
            assert(self.dirty_slots@.dom() =~= self.slot_arenas@);
            assert(added != Set::<u32>::empty()) by {
                if forall|slot: u32| !more@.contains(slot) {
                    assert(more@ =~= Set::empty());
                }
                let slot = choose|slot: u32| more@.contains(slot);
                assert(added.contains(slot));
            }
            assert(added =~= (if before.slots().dom().contains(arena_id) {
                before.slots()[arena_id].union(more@)
            } else {
                more@
            }));
            assert(self.slots() =~= before.slots().insert(arena_id, added));
        }
    }

    /// Takes note that a slot, and so its arena, has changed.
    pub fn mark_slot_dirty(&mut self, arena_id: u32, slot_id: u32)
        requires
            old(self).wf(),
        ensures
            final(self).wf(),
            final(self).arenas() == old(self).arenas().insert(arena_id),
            final(self).slots() == (if old(self).tracks_slots() {
                Self::with_slot(old(self).slots(), arena_id, slot_id)
            } else {
                old(self).slots()
            }),
            final(self).marks() == counted(old(self).marks() + 1),
            final(self).same_counters(*old(self)),
    {
        let ghost before = *self;
        self.dirty_arenas.insert(arena_id);
        if self.track_slots {
            let mut one = NumberSet::new();
            one.insert(slot_id);
            assert(one@.contains(slot_id));
            self.add_slots(arena_id, &one);
            proof {
                let slots = before.slots();
                if slots.dom().contains(arena_id) {
                    assert(slots[arena_id].union(one@) =~= slots[arena_id].insert(slot_id));
                }
                assert(one@ =~= Set::empty().insert(slot_id));
            }
        }
        self.total_marks = self.total_marks.wrapping_add(1);
    }

    /// Whether an arena has changed.
    pub fn is_arena_dirty(&self, arena_id: u32) -> (r: bool)
        requires
            self.wf(),
        ensures
            r == self.arenas().contains(arena_id),
    {
        self.dirty_arenas.contains(arena_id)
    }

    /// A slot counts as changed.
    pub open spec fn slot_changed(self, arena_id: u32, slot_id: u32) -> bool {
        &&& self.arenas().contains(arena_id)
        &&& self.tracks_slots() ==> self.slots().dom().contains(arena_id)
            && self.slots()[arena_id].contains(slot_id)
    }

    /// Whether a slot counts as changed. Where slots are not told apart, every slot of
    /// a changed arena does.
    pub fn is_slot_dirty(&self, arena_id: u32, slot_id: u32) -> (r: bool)
        requires
            self.wf(),
        ensures
            r == self.slot_changed(arena_id, slot_id),
    {
        if !self.dirty_arenas.contains(arena_id) {
            return false;
        }
        if !self.track_slots {
            return true;
        }
        match self.dirty_slots.get(&arena_id) {
            Some(slots) => slots.contains(slot_id),
            None => false,
        }
    }

    /// The arenas that have changed, once each, in no particular order.
    pub fn dirty_arena_ids(&self) -> (r: Vec<u32>)
        requires
            self.wf(),
        ensures
            r@.no_duplicates(),
            r@.to_set() == self.arenas(),
    {
        self.dirty_arenas.to_vec()
    }

    /// The slots of an arena that have changed, once each, in no particular order.
    pub fn dirty_slot_ids(&self, arena_id: u32) -> (r: Option<Vec<u32>>)
        requires
            self.wf(),
        ensures
            match r {
                Some(slots) => {
                    &&& self.tracks_slots()
                    &&& self.slots().dom().contains(arena_id)
                    &&& slots@.no_duplicates()
                    &&& slots@.to_set() == self.slots()[arena_id]
                    &&& slots@.len() > 0
                },
                None => !self.tracks_slots() || !self.slots().dom().contains(arena_id),
            },
    {
        if !self.track_slots {
            return None;
        }
        match self.dirty_slots.get(&arena_id) {
            Some(slots) => {
                let r = slots.to_vec();
                proof {
                    if r@.len() == 0 {
                        assert(r@.to_set() =~= Set::empty());
                    }
                }
                Some(r)
            },
            None => None,
        }
    }

    /// The number of arenas that have changed.
    pub fn dirty_arena_count(&self) -> (r: usize)
        requires
            self.wf(),
        ensures
            r == self.arenas().len(),
            self.arenas().finite(),
    {
        self.dirty_arenas.len()
    }

    /// A number counts the slots of all arenas, each arena once.
    pub open spec fn is_slot_count(self, count: nat) -> bool {
        exists|arenas: Seq<u32>|
            arenas.no_duplicates() && arenas.to_set() == self.slots().dom() && count
                == #[trigger] slot_sum(self.slots(), arenas)
    }

    /// The number of slots that have changed, modulo the machine word. Zero if slots
    /// are not told apart.
    pub fn dirty_slot_count(&self) -> (r: usize)
        requires
            self.wf(),
        ensures
            exists|count: nat| #[trigger]
                self.is_slot_count(count) && r == count % (usize::MAX + 1) as nat,
            !self.tracks_slots() ==> r == 0,
    {
        let arenas = self.slot_arenas.to_vec();
        let ghost slots = self.slots();
        let ghost list = arenas@;
        let mut count: usize = 0;
        let mut i: usize = 0;
        proof {
            assert(slots.dom() =~= self.slot_arenas@);
            vstd::arithmetic::div_mod::lemma_small_mod(0, (usize::MAX + 1) as nat);
        }
        while i < arenas.len()
            invariant
                self.wf(),
                slots == self.slots(),
                slots.dom() == self.slot_arenas@,
                list == arenas@,
                list.to_set() == self.slot_arenas@,
                i <= list.len(),
                count == slot_sum(slots, list.take(i as int)) % (usize::MAX + 1) as nat,
            decreases list.len() - i,
        {
            let arena: u32 = arenas[i];
            proof {
                assert(list.contains(list[i as int]));
                assert(list.to_set().contains(arena));
                let shorter = list.take(i as int);
                let longer = list.take(i + 1);
                assert(longer.drop_last() =~= shorter);
                assert(longer.last() == arena);
                vstd::arithmetic::div_mod::lemma_add_mod_noop(
                    slot_sum(slots, shorter) as int,
                    slots[arena].len() as int,
                    usize::MAX + 1,
                );
            }
            match self.dirty_slots.get(&arena) {
                Some(set) => {
                    let length: usize = set.len();
                    proof {
                        assert(slots[arena] == set@);
                        vstd::arithmetic::div_mod::lemma_small_mod(
                            length as nat,
                            (usize::MAX + 1) as nat,
                        );
                    }
                    count = count.wrapping_add(length);
                },
                None => {},
            }
            i += 1;
        }
        proof {
            assert(list.take(i as int) =~= list);
            assert(self.is_slot_count(slot_sum(slots, list)));
            if !self.track_slots {
                assert(list.len() == 0) by {
                    if list.len() > 0 {
                        assert(list.contains(list[0]));
                        assert(list.to_set().contains(list[0]));
                    }
                }
            }
        }
        count
    }

    /// Takes note of a checkpoint: nothing has changed since, and a new epoch begins.
    pub fn checkpoint_complete(&mut self)
        requires
            old(self).wf(),
        ensures
            final(self).wf(),
            final(self).arenas() == Set::<u32>::empty(),
            final(self).slots() == Map::<u32, Set<u32>>::empty(),
            final(self).current_epoch() == counted(old(self).current_epoch() + 1),
            final(self).checkpoints() == counted(old(self).checkpoints() + 1),
            final(self).marks() == old(self).marks(),
            final(self).tracks_slots() == old(self).tracks_slots(),
    {
        self.dirty_arenas = NumberSet::new();
        self.slot_arenas = NumberSet::new();
        self.dirty_slots.clear();
        self.epoch = self.epoch.wrapping_add(1);
        self.checkpoint_count = self.checkpoint_count.wrapping_add(1);
        proof {
            assert(self.dirty_slots@.dom() =~= Set::<u32>::empty());
            assert(self.slots() =~= Map::<u32, Set<u32>>::empty());
        }
    }

    /// Takes note that some arenas were written.
    pub fn clear_arenas(&mut self, arena_ids: &[u32])
        requires
            old(self).wf(),
        ensures
            final(self).wf(),
            forall|arena: u32| #[trigger]
                final(self).arenas().contains(arena) == (old(self).arenas().contains(arena)
                    && !arena_ids@.contains(arena)),
            final(self).slots() == old(self).slots().remove_keys(arena_ids@.to_set()),
            final(self).marks() == old(self).marks(),
            final(self).same_counters(*old(self)),
    {
        let ghost before = *self;
        let mut i: usize = 0;
        proof {
            assert(self.slots() =~= before.slots().remove_keys(arena_ids@.take(0).to_set()));
        }
        while i < arena_ids.len()
            invariant
                self.wf(),
                i <= arena_ids@.len(),
                forall|arena: u32| #[trigger]
                    self.arenas().contains(arena) == (before.arenas().contains(arena)
                        && !arena_ids@.take(i as int).contains(arena)),
                self.slots() == before.slots().remove_keys(arena_ids@.take(i as int).to_set()),
                self.marks() == before.marks(),
                self.same_counters(before),
            decreases arena_ids@.len() - i,
        {
            let arena_id: u32 = arena_ids[i];
            let ghost here = *self;
            self.dirty_arenas.remove(arena_id);
            self.slot_arenas.remove(arena_id);
            let _ = self.dirty_slots.remove(&arena_id);
            proof {
                let shorter = arena_ids@.take(i as int);
                let longer = arena_ids@.take(i + 1);
                assert(longer =~= shorter.push(arena_id));
                assert forall|arena: u32| #[trigger] longer.contains(arena) == (shorter.contains(
                    arena,
                ) || arena == arena_id) by {
                    if longer.contains(arena) {
                        let k = choose|k: int| 0 <= k < longer.len() && longer[k] == arena;
                        if k < shorter.len() {
                            assert(shorter[k] == arena);
                        }
                    }
                    if shorter.contains(arena) {
                        let k = choose|k: int| 0 <= k < shorter.len() && shorter[k] == arena;
                        assert(longer[k] == arena);
                    }
                    assert(longer[shorter.len() as int] == arena_id);
                }
                assert forall|arena: u32| #[trigger] self.arenas().contains(arena) == (
                before.arenas().contains(arena) && !longer.contains(arena)) by {
                    assert(here.arenas().contains(arena) == (before.arenas().contains(arena)
                        && !shorter.contains(arena)));
                }
                assert(self.dirty_slots@.dom() =~= self.slot_arenas@);
                assert(self.slot_arenas@.subset_of(self.dirty_arenas@));
                if !self.track_slots {
                    assert(self.slot_arenas@ =~= Set::<u32>::empty());
                }
                assert(self.slots() =~= here.slots().remove(arena_id));
                assert(self.slots() =~= before.slots().remove_keys(longer.to_set()));
            }
            i += 1;
        }
        assert(arena_ids@.take(i as int) =~= arena_ids@);
    }

    /// The number of the present epoch.
    pub fn epoch(&self) -> (r: u64)
        ensures
            r == self.current_epoch(),
    {
        self.epoch
    }

    /// The state in numbers.
    pub fn stats(&self) -> (r: DirtyTrackerStats)
        requires
            self.wf(),
        ensures
            r.dirty_arenas == self.arenas().len(),
            exists|count: nat| #[trigger]
                self.is_slot_count(count) && r.dirty_slots == count % (usize::MAX + 1) as nat,
            !self.tracks_slots() ==> r.dirty_slots == 0,
            r.total_marks == self.marks(),
            r.checkpoint_count == self.checkpoints(),
            r.epoch == self.current_epoch(),
            r.track_slots == self.tracks_slots(),
    {
        DirtyTrackerStats {
            dirty_arenas: self.dirty_arenas.len(),
            dirty_slots: self.dirty_slot_count(),
            total_marks: self.total_marks,
            checkpoint_count: self.checkpoint_count,
            epoch: self.epoch(),
            track_slots: self.track_slots,
        }
    }

    /// The slots of two trackers together.
    pub open spec fn merged_slots(a: Map<u32, Set<u32>>, b: Map<u32, Set<u32>>) -> Map<
        u32,
        Set<u32>,
    > {
        Map::new(
            |arena: u32| a.dom().contains(arena) || b.dom().contains(arena),
            |arena: u32|
                if a.dom().contains(arena) && b.dom().contains(arena) {
                    a[arena].union(b[arena])
                } else if a.dom().contains(arena) {
                    a[arena]
                } else {
                    b[arena]
                },
        )
    }

    /// Adds what another tracker has seen. Slots are added if both tell them apart.
    pub fn merge(&mut self, other: &DirtyTracker)
        requires
            old(self).wf(),
            other.wf(),
        ensures
            final(self).wf(),
            final(self).arenas() == old(self).arenas().union(other.arenas()),
            final(self).slots() == (if old(self).tracks_slots() && other.tracks_slots() {
                Self::merged_slots(old(self).slots(), other.slots())
            } else {
                old(self).slots()
            }),
            final(self).marks() == counted(old(self).marks() + other.marks()),
            final(self).same_counters(*old(self)),
    {
        let ghost before = *self;
        self.dirty_arenas.extend(&other.dirty_arenas);
        if self.track_slots && other.track_slots {
            let arenas = other.slot_arenas.to_vec();
            let ghost list = arenas@;
            let mut i: usize = 0;
            proof {
                assert(self.slots() =~= before.slots());
                assert(before.slots() =~= Self::merged_slots(
                    before.slots(),
                    other.slots().restrict(list.take(0).to_set()),
                ));
            }
            while i < arenas.len()
                invariant
                    self.wf(),
                    other.wf(),
                    self.track_slots,
                    other.track_slots,
                    list == arenas@,
                    list.no_duplicates(),
                    list.to_set() == other.slot_arenas@,
                    i <= list.len(),
                    self.dirty_arenas@ == before.dirty_arenas@.union(other.dirty_arenas@),
                    self.marks() == before.marks(),
                    self.same_counters(before),
                    self.slots() == Self::merged_slots(
                        before.slots(),
                        other.slots().restrict(list.take(i as int).to_set()),
                    ),
                decreases list.len() - i,
            {
                let arena: u32 = arenas[i];
                proof {
                    assert(list.contains(list[i as int]));
                    assert(list.to_set().contains(arena));
                }
                match other.dirty_slots.get(&arena) {
                    Some(set) => {
                        self.add_slots(arena, set);
                        proof {
                            let shorter = list.take(i as int);
                            let longer = list.take(i + 1);
                            assert(longer =~= shorter.push(arena));
                            assert forall|a: u32| #[trigger] longer.contains(a) == (
                            shorter.contains(a) || a == arena) by {
                                if longer.contains(a) {
                                    let k = choose|k: int| 0 <= k < longer.len() && longer[k] == a;
                                    if k < shorter.len() {
                                        assert(shorter[k] == a);
                                    }
                                }
                                if shorter.contains(a) {
                                    let k = choose|k: int|
                                        0 <= k < shorter.len() && shorter[k] == a;
                                    assert(longer[k] == a);
                                }
                                assert(longer[shorter.len() as int] == arena);
                            }
                            assert(!shorter.contains(arena));
                            assert(other.slots()[arena] == set@);
                            let part = other.slots().restrict(shorter.to_set());
                            let more = other.slots().restrict(longer.to_set());
                            assert(self.slots() =~= Self::merged_slots(before.slots(), more)) by {
                                assert forall|a: u32| #[trigger] self.slots().dom().contains(a) == (
                                before.slots().dom().contains(a) || more.dom().contains(a)) by {}
                                assert forall|a: u32| self.slots().dom().contains(a) implies #[trigger] self.slots()[a]
                                    == Self::merged_slots(before.slots(), more)[a] by {}
                            }
                        }
                    },
                    None => {},
                }
                i += 1;
            }
            proof {
                assert(list.take(i as int) =~= list);
                assert(other.slots().restrict(list.to_set()) =~= other.slots());
            }
        }
        self.total_marks = self.total_marks.wrapping_add(other.total_marks);
    }
}

impl Default for DirtyTracker {
    /// A tracker that does not tell slots apart.
    fn default() -> (r: Self)
        ensures
            r.wf(),
            r.arenas() == Set::<u32>::empty(),
            r.slots() == Map::<u32, Set<u32>>::empty(),
            !r.tracks_slots(),
            r.marks() == 0,
            r.checkpoints() == 0,
            r.current_epoch() == 0,
    {
        Self::arena_level()
    }
}

/// The state of a tracker in numbers.
#[derive(Clone, Copy, Debug, PartialEq, Eq, Structural)]
pub struct DirtyTrackerStats {
    pub dirty_arenas: usize,
    pub dirty_slots: usize,
    pub total_marks: u64,
    pub checkpoint_count: u64,
    pub epoch: u64,
    pub track_slots: bool,
}

impl DirtyTrackerStats {
    /// The bytes that a full checkpoint and an incremental one write.
    pub fn checkpoint_bytes(&self, total_arenas: usize, arena_size: usize) -> (r: (usize, usize))
        requires
            total_arenas * arena_size <= usize::MAX,
            self.dirty_arenas * arena_size <= usize::MAX,
        ensures
            r.0 == total_arenas * arena_size,
            r.1 == self.dirty_arenas * arena_size,
    {
        (total_arenas * arena_size, self.dirty_arenas * arena_size)
    }
}

/// A tracker that collects changes for another.
pub struct BatchDirtyTracker {
    local: DirtyTracker,
    batch_threshold: usize,
}

impl BatchDirtyTracker {
    /// The changes collected so far.
    pub closed spec fn collected(self) -> DirtyTracker {
        self.local
    }

    /// The number of changed arenas that are worth handing on.
    pub closed spec fn threshold(self) -> usize {
        self.batch_threshold
    }

    /// No changes.
    pub fn new(track_slots: bool, batch_threshold: usize) -> (r: Self)
        ensures
            r.collected().wf(),
            r.collected().arenas() == Set::<u32>::empty(),
            r.collected().slots() == Map::<u32, Set<u32>>::empty(),
            r.collected().tracks_slots() == track_slots,
            r.collected().marks() == 0,
            r.collected().checkpoints() == 0,
            r.collected().current_epoch() == 0,
            r.threshold() == batch_threshold,
    {
        BatchDirtyTracker { local: DirtyTracker::new(track_slots), batch_threshold }
    }

    /// Takes note that an arena has changed.
    pub fn mark_arena_dirty(&mut self, arena_id: u32)
        requires
            old(self).collected().wf(),
        ensures
            final(self).collected().wf(),
            final(self).collected().arenas() == old(self).collected().arenas().insert(arena_id),
            final(self).collected().slots() == old(self).collected().slots(),
            final(self).collected().marks() == counted(old(self).collected().marks() + 1),
            final(self).collected().same_counters(old(self).collected()),
            final(self).threshold() == old(self).threshold(),
    {
        self.local.mark_arena_dirty(arena_id);
    }

    /// Takes note that a slot has changed.
    pub fn mark_slot_dirty(&mut self, arena_id: u32, slot_id: u32)
        requires
            old(self).collected().wf(),
        ensures
            final(self).collected().wf(),
            final(self).collected().arenas() == old(self).collected().arenas().insert(arena_id),
            final(self).collected().slots() == (if old(self).collected().tracks_slots() {
                DirtyTracker::with_slot(old(self).collected().slots(), arena_id, slot_id)
            } else {
                old(self).collected().slots()
            }),
            final(self).collected().marks() == counted(old(self).collected().marks() + 1),
            final(self).collected().same_counters(old(self).collected()),
            final(self).threshold() == old(self).threshold(),
    {
        self.local.mark_slot_dirty(arena_id, slot_id);
    }

    /// Whether enough arenas have changed to hand them on.
    pub fn should_merge(&self) -> (r: bool)
        requires
            self.collected().wf(),
        ensures
            r == (self.collected().arenas().len() >= self.threshold()),
    {
        self.local.dirty_arena_count() >= self.batch_threshold
    }

    /// Hands the changes on and starts anew.
    pub fn take(&mut self) -> (r: DirtyTracker)
        ensures
            r == old(self).collected(),
            final(self).collected().wf(),
            final(self).collected().arenas() == Set::<u32>::empty(),
            final(self).collected().slots() == Map::<u32, Set<u32>>::empty(),
            final(self).collected().tracks_slots() == old(self).collected().tracks_slots(),
            final(self).collected().marks() == 0,
            final(self).collected().checkpoints() == 0,
            final(self).collected().current_epoch() == 0,
            final(self).threshold() == old(self).threshold(),
    {
        let mut fresh = DirtyTracker::new(self.local.track_slots);
        std::mem::swap(&mut self.local, &mut fresh);
        fresh
    }

    /// The number of arenas that have changed.
    pub fn dirty_count(&self) -> (r: usize)
        requires
            self.collected().wf(),
        ensures
            r == self.collected().arenas().len(),
    {
        self.local.dirty_arena_count()
    }
}

/// Marking a slot makes it, and its arena, count as changed.
pub proof fn marked_slot_is_dirty(
    before: DirtyTracker,
    after: DirtyTracker,
    arena_id: u32,
    slot_id: u32,
)
    requires
        after.arenas() == before.arenas().insert(arena_id),
        after.slots() == (if before.tracks_slots() {
            DirtyTracker::with_slot(before.slots(), arena_id, slot_id)
        } else {
            before.slots()
        }),
        after.tracks_slots() == before.tracks_slots(),
    ensures
        after.arenas().contains(arena_id),
        after.slot_changed(arena_id, slot_id),
{
}

/// An arena with changed slots counts as changed, and has at least one such slot.
pub proof fn listed_arenas_have_slots(tracker: DirtyTracker, arena_id: u32)
    requires
        tracker.wf(),
        tracker.slots().dom().contains(arena_id),
    ensures
        exists|slot_id: u32| tracker.slot_changed(arena_id, slot_id),
{
    let slots = tracker.slots()[arena_id];
    if forall|slot_id: u32| !slots.contains(slot_id) {
        assert(slots =~= Set::empty());
    }
    let slot_id = choose|slot_id: u32| slots.contains(slot_id);
    assert(tracker.slot_changed(arena_id, slot_id));
}

/// What has changed is finite: the arenas, and the slots of each of them.
pub proof fn changes_are_finite(tracker: DirtyTracker)
    requires
        tracker.wf(),
    ensures
        tracker.arenas().finite(),
        tracker.slots().dom().finite(),
        forall|arena_id: u32| #[trigger]
            tracker.slots().dom().contains(arena_id) ==> tracker.slots()[arena_id].finite(),
{
    tracker.dirty_arenas.lemma_finite();
    tracker.slot_arenas.lemma_finite();
    assert(tracker.slots().dom() =~= tracker.slot_arenas@);
    assert forall|arena_id: u32| #[trigger]
        tracker.slots().dom().contains(arena_id) implies tracker.slots()[arena_id].finite() by {
        assert(tracker.dirty_slots@.dom().contains(arena_id));
        tracker.dirty_slots@[arena_id].lemma_finite();
    }
}

/// The number of the present epoch is the number of checkpoints so far.
pub proof fn epochs_count_checkpoints(tracker: DirtyTracker)
    requires
        tracker.wf(),
    ensures
        tracker.current_epoch() == tracker.checkpoints(),
{
}

/// A change that is taken note of.
pub enum Mark {
    Arena(u32),
    Slot(u32, u32),
}

/// The arenas that have changed after some marks.
pub open spec fn marked_arenas(arenas: Set<u32>, marks: Seq<Mark>) -> Set<u32>
    decreases marks.len(),
{
    if marks.len() == 0 {
        arenas
    } else {
        marked_arenas(arenas, marks.drop_last()).insert(
            match marks.last() {
                Mark::Arena(arena) => arena,
                Mark::Slot(arena, _) => arena,
            },
        )
    }
}

/// The slots that have changed after some marks.
pub open spec fn marked_slots(
    slots: Map<u32, Set<u32>>,
    tracks_slots: bool,
    marks: Seq<Mark>,
) -> Map<u32, Set<u32>>
    decreases marks.len(),
{
    if marks.len() == 0 {
        slots
    } else {
        let before = marked_slots(slots, tracks_slots, marks.drop_last());
        match marks.last() {
            Mark::Slot(arena, slot) if tracks_slots => DirtyTracker::with_slot(before, arena, slot),
            _ => before,
        }
    }
}

/// Handing on a batch does what marking directly does: a tracker that a batch of
/// marks is merged into holds what it would hold had the marks been its own, if the
/// batch tells slots apart wherever the tracker does.
pub proof fn a_batch_counts_as_its_marks(target: DirtyTracker, batch_tracks: bool, marks: Seq<Mark>)
    requires
        target.tracks_slots() ==> batch_tracks,
    ensures
        target.arenas().union(marked_arenas(Set::empty(), marks)) == marked_arenas(
            target.arenas(),
            marks,
        ),
        (if target.tracks_slots() && batch_tracks {
            DirtyTracker::merged_slots(
                target.slots(),
                marked_slots(Map::empty(), batch_tracks, marks),
            )
        } else {
            target.slots()
        }) == marked_slots(target.slots(), target.tracks_slots(), marks),
        counted(target.marks() + counted(marks.len() as int)) == counted(
            target.marks() + marks.len(),
        ),
    decreases marks.len(),
{
    assert(counted(target.marks() + counted(marks.len() as int)) == counted(
        target.marks() + marks.len(),
    )) by {
        vstd::arithmetic::div_mod::lemma_add_mod_noop_right(
            target.marks() as int,
            marks.len() as int,
            0x1_0000_0000_0000_0000,
        );
    }
    if marks.len() == 0 {
        assert(target.arenas().union(Set::empty()) =~= target.arenas());
        assert(DirtyTracker::merged_slots(target.slots(), Map::empty()) =~= target.slots());
    } else {
        let fewer = marks.drop_last();
        a_batch_counts_as_its_marks(target, batch_tracks, fewer);
        assert(target.arenas().union(marked_arenas(Set::empty(), marks)) =~= marked_arenas(
            target.arenas(),
            marks,
        ));
        if target.tracks_slots() {
            if let Mark::Slot(arena, slot) = marks.last() {
                lemma_merge_with_slot(
                    target.slots(),
                    marked_slots(Map::empty(), true, fewer),
                    arena,
                    slot,
                );
            }
        }
    }
}

/// A slot may be added before merging or after it.
proof fn lemma_merge_with_slot(
    a: Map<u32, Set<u32>>,
    b: Map<u32, Set<u32>>,
    arena: u32,
    slot: u32,
)
    ensures
        DirtyTracker::merged_slots(a, DirtyTracker::with_slot(b, arena, slot))
            == DirtyTracker::with_slot(DirtyTracker::merged_slots(a, b), arena, slot),
{
    let merged = DirtyTracker::merged_slots(a, DirtyTracker::with_slot(b, arena, slot));
    let wanted = DirtyTracker::with_slot(DirtyTracker::merged_slots(a, b), arena, slot);
    assert(merged.dom() =~= wanted.dom());
    assert forall|x: u32| #[trigger] merged.dom().contains(x) implies merged[x] == wanted[x] by {
        assert(merged[x] =~= wanted[x]);
    }
    assert(merged =~= wanted);
}

/// A slot counts as changed in merged trackers that tell slots apart exactly if it
/// does in one of them.
pub proof fn merged_slots_are_those_of_either(
    a: DirtyTracker,
    b: DirtyTracker,
    merged: DirtyTracker,
    arena_id: u32,
    slot_id: u32,
)
    requires
        a.tracks_slots(),
        b.tracks_slots(),
        merged.tracks_slots(),
        merged.arenas() == a.arenas().union(b.arenas()),
        merged.slots() == DirtyTracker::merged_slots(a.slots(), b.slots()),
        a.wf(),
        b.wf(),
    ensures
        merged.slot_changed(arena_id, slot_id) == (a.slot_changed(arena_id, slot_id)
            || b.slot_changed(arena_id, slot_id)),
{
    a.lemma_slots_in_arenas(arena_id);
    b.lemma_slots_in_arenas(arena_id);
}

impl DirtyTracker {
    /// Slots belong to changed arenas.
    pub proof fn lemma_slots_in_arenas(self, arena_id: u32)
        requires
            self.wf(),
        ensures
            self.slots().dom().contains(arena_id) ==> self.arenas().contains(arena_id),
    {
    }
}

} // verus!
