//! Which registered records are resident under a published root.

use std::sync::Arc;
use vstd::prelude::*;
use crate::shared::{same_handle, share, told_same};

verus! {

/// The identity of one published eviction registry: an allocation of its own, which
/// no other registry has as long as a binding to it is held.
#[derive(Clone, Debug)]
pub struct EvictionBinding {
    token: Arc<()>,
}

impl EvictionBinding {
    /// An answer to whether two bindings name one published registry.
    pub closed spec fn told(self, other: Self, same: bool) -> bool {
        told_same(self.token, other.token, same)
    }

    /// A new identity.
    pub fn new() -> (r: Self) {
        EvictionBinding { token: Arc::new(()) }
    }

    /// The same identity.
    pub fn alias(&self) -> (r: Self)
        ensures
            r == *self,
    {
        EvictionBinding { token: share(&self.token) }
    }

    /// Whether two bindings name one published registry.
    pub fn same_publication(&self, other: &Self) -> (r: bool)
        ensures
            self.told(*other, r),
    {
        same_handle(&self.token, &other.token)
    }
}

/// What a published registry keeps for the root: its binding, and the LRU hash of
/// each registered path.
pub struct PublishedRegistryCatalog {
    pub binding: EvictionBinding,
    pub path_hashes: Vec<u64>,
}

impl PublishedRegistryCatalog {
    /// The catalog of a registry without paths.
    pub fn empty_for_binding(binding: EvictionBinding) -> (r: Self)
        ensures
            r.binding == binding,
            r.path_hashes@.len() == 0,
    {
        PublishedRegistryCatalog { binding, path_hashes: Vec::new() }
    }
}

/// The residency change from one root to the next.
pub enum PackedResidencyDelta {
    /// Nothing changed.
    Unchanged,
    /// The record of one path became resident.
    Loaded(usize),
    /// The records of these paths left memory.
    Cleared(Vec<usize>),
}

/// Whether a residency change has been carried out.
#[derive(Clone, Copy, Debug, PartialEq, Eq, Structural)]
pub enum ResidencyHelpOutcome {
    Complete,
    Stale,
}

/// The residency state that a published root carries.
pub struct RootEvictionRevision {
    pub catalog: Arc<PublishedRegistryCatalog>,
    pub predecessor_ordinal: u32,
    pub ordinal: u32,
    pub resident_nodes: usize,
    pub resident_serialized_bytes: usize,
    pub delta: PackedResidencyDelta,
}

/// A residency change that was prepared against one state of one catalog.
pub struct PreparedPackedResidency {
    pub catalog: Arc<PublishedRegistryCatalog>,
    pub predecessor_ordinal: u32,
    pub target_ordinal: u32,
    pub resident_nodes: usize,
    pub resident_serialized_bytes: usize,
    pub delta: PackedResidencyDelta,
}

impl RootEvictionRevision {
    /// The state that a change leads to.
    pub open spec fn after(change: PreparedPackedResidency) -> Self {
        RootEvictionRevision {
            catalog: change.catalog,
            predecessor_ordinal: change.predecessor_ordinal,
            ordinal: change.target_ordinal,
            resident_nodes: change.resident_nodes,
            resident_serialized_bytes: change.resident_serialized_bytes,
            delta: change.delta,
        }
    }

    /// The state of a root that changes nothing about residency.
    pub open spec fn settled(self) -> Self {
        RootEvictionRevision {
            predecessor_ordinal: self.ordinal,
            delta: PackedResidencyDelta::Unchanged,
            ..self
        }
    }

    /// The state right after a checkpoint.
    pub fn initial(
        catalog: Arc<PublishedRegistryCatalog>,
        resident_nodes: usize,
        resident_serialized_bytes: usize,
    ) -> (r: Self)
        ensures
            r == (RootEvictionRevision {
                catalog,
                predecessor_ordinal: 0,
                ordinal: 0,
                resident_nodes,
                resident_serialized_bytes,
                delta: PackedResidencyDelta::Unchanged,
            }),
    {
        RootEvictionRevision {
            catalog,
            predecessor_ordinal: 0,
            ordinal: 0,
            resident_nodes,
            resident_serialized_bytes,
            delta: PackedResidencyDelta::Unchanged,
        }
    }

    /// The state of a root that changed nothing about residency.
    pub fn settled_successor(&self) -> (r: Self)
        ensures
            r == self.settled(),
    {
        RootEvictionRevision {
            catalog: share(&self.catalog),
            predecessor_ordinal: self.ordinal,
            ordinal: self.ordinal,
            resident_nodes: self.resident_nodes,
            resident_serialized_bytes: self.resident_serialized_bytes,
            delta: PackedResidencyDelta::Unchanged,
        }
    }

    /// The state after a prepared change, unless the change was prepared against
    /// another catalog or another state of this one.
    pub fn try_exact_successor(&self, prepared: PreparedPackedResidency) -> (r: Option<Self>)
        ensures
            match r {
                Some(next) => {
                    &&& prepared.catalog.binding.told(self.catalog.binding, true)
                    &&& prepared.predecessor_ordinal == self.ordinal
                    &&& next == Self::after(prepared)
                },
                None => prepared.catalog.binding.told(self.catalog.binding, false)
                    || prepared.predecessor_ordinal != self.ordinal,
            },
    {
        if !prepared.catalog.binding.same_publication(&self.catalog.binding)
            || prepared.predecessor_ordinal != self.ordinal {
            return None;
        }
        Some(
            RootEvictionRevision {
                catalog: prepared.catalog,
                predecessor_ordinal: prepared.predecessor_ordinal,
                ordinal: prepared.target_ordinal,
                resident_nodes: prepared.resident_nodes,
                resident_serialized_bytes: prepared.resident_serialized_bytes,
                delta: prepared.delta,
            },
        )
    }

    /// The registry that this state belongs to.
    pub fn binding(&self) -> (r: EvictionBinding)
        ensures
            r == self.catalog.binding,
    {
        self.catalog.binding.alias()
    }

    /// Resident nodes and their serialized size.
    pub fn resident_totals(&self) -> (r: (usize, usize))
        ensures
            r == (self.resident_nodes, self.resident_serialized_bytes),
    {
        (self.resident_nodes, self.resident_serialized_bytes)
    }
}

/// The hashes of the listed paths, as far as the catalog has them.
pub open spec fn known_hashes(hashes: Seq<u64>, paths: Seq<usize>) -> Seq<u64>
    decreases paths.len(),
{
    if paths.len() == 0 {
        Seq::empty()
    } else {
        let rest = known_hashes(hashes, paths.drop_last());
        if paths.last() < hashes.len() {
            rest.push(hashes[paths.last() as int])
        } else {
            rest
        }
    }
}

/// The paths that a change cleared.
pub open spec fn cleared_paths(delta: PackedResidencyDelta) -> Seq<usize> {
    match delta {
        PackedResidencyDelta::Cleared(paths) => paths@,
        _ => Seq::empty(),
    }
}

/// The LRU hashes of the paths that a change cleared, and whether the catalog knew
/// all of them.
pub fn cleared_path_hashes(revision: &RootEvictionRevision) -> (r: (Vec<u64>, bool))
    ensures
        r.0@ == known_hashes(revision.catalog.path_hashes@, cleared_paths(revision.delta)),
        r.1 == (forall|i: int|
            0 <= i < cleared_paths(revision.delta).len() ==> (#[trigger] cleared_paths(
                revision.delta,
            )[i]) < revision.catalog.path_hashes@.len()),
{
    let mut hashes: Vec<u64> = Vec::new();
    let mut valid: bool = true;
    match &revision.delta {
        PackedResidencyDelta::Cleared(paths) => {
            let mut i: usize = 0;
            while i < paths.len()
                invariant
                    i <= paths@.len(),
                    hashes@ == known_hashes(revision.catalog.path_hashes@, paths@.take(i as int)),
                    valid == (forall|k: int|
                        0 <= k < i ==> (#[trigger] paths@[k]) < revision.catalog.path_hashes@.len()),
                decreases paths@.len() - i,
            {
                proof {
                    assert(paths@.take(i + 1).drop_last() =~= paths@.take(i as int));
                    assert(paths@.take(i + 1).last() == paths@[i as int]);
                }
                if paths[i] < revision.catalog.path_hashes.len() {
                    hashes.push(revision.catalog.path_hashes[paths[i]]);
                } else {
                    valid = false;
                }
                i += 1;
            }
            assert(paths@.take(i as int) =~= paths@);
        },
        _ => {},
    }
    (hashes, valid)
}

} // verus!
