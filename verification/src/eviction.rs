//! What eviction selects from: a topology of registered paths, and batches of
//! candidates on it.

use vstd::prelude::*;
use crate::swizzled_ptr::SwizzledPtr;

verus! {

/// A registered path, or the root. Zero is the root; `n` is entry `n - 1`.
#[derive(Clone, Copy, Debug, PartialEq, Eq, Structural)]
pub struct RegistryPathId {
    pub ordinal: usize,
}

impl RegistryPathId {
    /// The root of every topology.
    pub fn root() -> (r: Self)
        ensures
            r.ordinal == 0,
    {
        RegistryPathId { ordinal: 0 }
    }

    /// The topology entry, unless this is the root.
    pub fn index(&self) -> (r: Option<usize>)
        ensures
            match r {
                Some(i) => self.ordinal == i + 1,
                None => self.ordinal == 0,
            },
    {
        if self.ordinal == 0 {
            None
        } else {
            Some(self.ordinal - 1)
        }
    }
}

/// One registered path: the units it adds to the path of its parent.
pub struct TopologyEntry<U> {
    pub parent: RegistryPathId,
    pub segment: Vec<U>,
}

/// A forest of registered paths. Parents precede their children.
pub struct RegistryTopology<U> {
    pub entries: Vec<TopologyEntry<U>>,
}

/// The units from the root to a registered path.
pub open spec fn topology_path<U>(entries: Seq<TopologyEntry<U>>, ordinal: int) -> Seq<U>
    decreases ordinal,
{
    if ordinal <= 0 || ordinal > entries.len() || entries[ordinal - 1].parent.ordinal >= ordinal {
        Seq::empty()
    } else {
        topology_path(entries, entries[ordinal - 1].parent.ordinal as int)
            + entries[ordinal - 1].segment@
    }
}

impl<U: Copy> RegistryTopology<U> {
    /// Parents precede their children.
    pub open spec fn wf(self) -> bool {
        forall|i: int|
            0 <= i < self.entries@.len() ==> (#[trigger] self.entries@[i]).parent.ordinal <= i
    }

    /// The units from the root to a registered path.
    pub open spec fn path(self, id: RegistryPathId) -> Seq<U> {
        topology_path(self.entries@, id.ordinal as int)
    }

    /// A topology without entries.
    pub fn new() -> (r: Self)
        ensures
            r.wf(),
            r.entries@.len() == 0,
    {
        RegistryTopology { entries: Vec::new() }
    }

    /// Number of registered paths.
    pub fn len(&self) -> (r: usize)
        ensures
            r == self.entries@.len(),
    {
        self.entries.len()
    }

    /// The parent of a registered path.
    pub fn parent(&self, id: RegistryPathId) -> (r: Option<RegistryPathId>)
        ensures
            match r {
                Some(parent) => 0 < id.ordinal <= self.entries@.len() && parent
                    == self.entries@[id.ordinal - 1].parent,
                None => id.ordinal == 0 || id.ordinal > self.entries@.len(),
            },
    {
        if id.ordinal == 0 || id.ordinal > self.entries.len() {
            None
        } else {
            Some(self.entries[id.ordinal - 1].parent)
        }
    }

    /// The units that a registered path adds to its parent.
    pub fn segment(&self, id: RegistryPathId) -> (r: Option<&Vec<U>>)
        ensures
            match r {
                Some(segment) => 0 < id.ordinal <= self.entries@.len() && *segment
                    == self.entries@[id.ordinal - 1].segment,
                None => id.ordinal == 0 || id.ordinal > self.entries@.len(),
            },
    {
        if id.ordinal == 0 || id.ordinal > self.entries.len() {
            None
        } else {
            Some(&self.entries[id.ordinal - 1].segment)
        }
    }

    /// Registers the path that adds `segment` to `parent`. `None` when there is no
    /// such parent.
    pub fn reserve(&mut self, parent: RegistryPathId, segment: Vec<U>) -> (r: Option<RegistryPathId>)
        requires
            old(self).wf(),
            old(self).entries@.len() < usize::MAX,
        ensures
            final(self).wf(),
            match r {
                Some(id) => {
                    &&& parent.ordinal <= old(self).entries@.len()
                    &&& id.ordinal == final(self).entries@.len()
                    &&& final(self).entries@ == old(self).entries@.push(
                        TopologyEntry { parent, segment },
                    )
                    &&& final(self).path(id) == old(self).path(parent) + segment@
                    &&& forall|other: RegistryPathId|
                        other.ordinal <= old(self).entries@.len() ==> #[trigger] final(self).path(
                            other,
                        ) == old(self).path(other)
                },
                None => {
                    &&& parent.ordinal > old(self).entries@.len()
                    &&& *final(self) == *old(self)
                },
            },
    {
        if parent.ordinal > self.entries.len() {
            return None;
        }
        let ghost before = self.entries@;
        self.entries.push(TopologyEntry { parent, segment });
        let id = RegistryPathId { ordinal: self.entries.len() };
        proof {
            assert forall|other: RegistryPathId| other.ordinal <= before.len() implies #[trigger] self.path(
                other,
            ) == topology_path(before, other.ordinal as int) by {
                lemma_topology_path_stable(before, self.entries@, other.ordinal as int);
            }
            lemma_topology_path_stable(before, self.entries@, parent.ordinal as int);
        }
        Some(id)
    }

    /// The units from the root to a registered path, as a vector.
    pub fn materialize(&self, id: RegistryPathId) -> (r: Option<Vec<U>>)
        requires
            self.wf(),
        ensures
            match r {
                Some(path) => id.ordinal <= self.entries@.len() && path@ == self.path(id),
                None => id.ordinal > self.entries@.len(),
            },
    {
        if id.ordinal > self.entries.len() {
            return None;
        }
        let mut chain: Vec<usize> = Vec::new();
        let mut ordinal: usize = id.ordinal;
        while ordinal > 0
            invariant
                self.wf(),
                ordinal <= self.entries@.len(),
                self.path(id) == topology_path(self.entries@, ordinal as int) + chain_units(
                    self.entries@,
                    chain@,
                ),
                forall|k: int|
                    0 <= k < chain@.len() ==> 0 < #[trigger] chain@[k] <= self.entries@.len(),
            decreases ordinal,
        {
            let ghost before = chain@;
            chain.push(ordinal);
            let parent: usize = self.entries[ordinal - 1].parent.ordinal;
            proof {
                assert(chain@.drop_last() =~= before);
                assert(self.entries@[ordinal - 1].parent.ordinal <= ordinal - 1);
                assert(topology_path(self.entries@, parent as int) + chain_units(
                    self.entries@,
                    chain@,
                ) =~= topology_path(self.entries@, ordinal as int) + chain_units(
                    self.entries@,
                    before,
                ));
            }
            ordinal = parent;
        }
        let mut path: Vec<U> = Vec::new();
        while chain.len() > 0
            invariant
                self.path(id) =~= path@ + chain_units(self.entries@, chain@),
                forall|k: int|
                    0 <= k < chain@.len() ==> 0 < #[trigger] chain@[k] <= self.entries@.len(),
            decreases chain@.len(),
        {
            let ghost before = chain@;
            match chain.pop() {
                Some(top) => {
                    assert(before[before.len() - 1] == top);
                    assert(chain@ =~= before.drop_last());
                    let segment = &self.entries[top - 1].segment;
                    let ghost start = path@;
                    let mut i: usize = 0;
                    while i < segment.len()
                        invariant
                            i <= segment@.len(),
                            path@ == start + segment@.take(i as int),
                        decreases segment@.len() - i,
                    {
                        path.push(segment[i]);
                        i += 1;
                        assert(segment@.take(i as int) =~= segment@.take(i - 1).push(
                            segment@[i - 1],
                        ));
                    }
                    assert(segment@.take(i as int) =~= segment@);
                },
                None => {},
            }
        }
        Some(path)
    }
}

/// The units that a chain of entries, listed from the deepest up, adds.
pub open spec fn chain_units<U>(entries: Seq<TopologyEntry<U>>, chain: Seq<usize>) -> Seq<U>
    decreases chain.len(),
{
    if chain.len() == 0 {
        Seq::empty()
    } else {
        entries[chain.last() - 1].segment@ + chain_units(entries, chain.drop_last())
    }
}

/// Registering more paths changes no registered path.
pub proof fn lemma_topology_path_stable<U>(
    before: Seq<TopologyEntry<U>>,
    after: Seq<TopologyEntry<U>>,
    ordinal: int,
)
    requires
        before.len() <= after.len(),
        ordinal <= before.len(),
        forall|i: int| 0 <= i < before.len() ==> #[trigger] before[i] == after[i],
    ensures
        topology_path(before, ordinal) == topology_path(after, ordinal),
    decreases ordinal,
{
    if 0 < ordinal {
        assert(before[ordinal - 1] == after[ordinal - 1]);
        if before[ordinal - 1].parent.ordinal < ordinal {
            lemma_topology_path_stable(before, after, before[ordinal - 1].parent.ordinal as int);
        }
    }
}

/// Which of two nested candidates goes first.
#[derive(Clone, Copy, Debug, PartialEq, Eq, Structural)]
pub enum CompactEvictionPolicy {
    /// A candidate is evicted unless something below it was.
    DescendantFirst,
    /// A candidate is evicted with everything below it.
    ResidentBudgetAncestorClosure,
}

/// A registered path whose node may be replaced by its durable record.
#[derive(Clone, Copy, Debug, PartialEq, Eq, Structural)]
pub struct CompactEvictionCandidate {
    pub path_id: RegistryPathId,
    pub depth: usize,
    pub disk_ptr: SwizzledPtr,
}

/// Candidates for one eviction, with the topology that their paths lie on.
pub struct CompactEvictionBatch<U> {
    pub candidates: Vec<CompactEvictionCandidate>,
    pub topology: RegistryTopology<U>,
    pub policy: CompactEvictionPolicy,
}

impl<U: Copy> CompactEvictionBatch<U> {
    /// The topology is well formed, and a candidate on it knows its depth.
    pub open spec fn wf(self) -> bool {
        &&& self.topology.wf()
        &&& forall|c: int|
            0 <= c < self.candidates@.len() && self.valid(c) ==> (
            #[trigger] self.candidates@[c]).depth == self.path(c).len()
    }

    /// The candidate names a registered path.
    pub open spec fn valid(self, c: int) -> bool {
        0 < self.candidates@[c].path_id.ordinal <= self.topology.entries@.len()
    }

    /// The path of a candidate.
    pub open spec fn path(self, c: int) -> Seq<U> {
        self.topology.path(self.candidates@[c].path_id)
    }
}

} // verus!
