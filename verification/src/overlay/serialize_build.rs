//! The state of one serialization: what is known about sharing, which durable
//! records were imported, and the registry under construction.

use std::collections::HashMap;
use std::sync::Arc;
use vstd::prelude::*;
use crate::error::{no_room, reserve_entries, reserve_outcome, PersistentARTrieError, TrieResult};
use crate::key_encoding::KeyEncoding;
use crate::registry::{DiskLocationRegistry, LocalRegistryGraftStats, RegistryBuilderSubtree};
use crate::shared::share;
use crate::swizzled_ptr::{DiskLocation, SwizzledPtr};
use crate::value::DictionaryValue;
use super::atomic_ptr::{DeferredDurableStamp, RootRevision};
use super::serialize_trace::{met_imported, Occurrence};
use super::graph_policy::{ArborescentProduction, DagAware, GraphPolicy};
use super::node::OverlayNode;

verus! {

broadcast use vstd::std_specs::hash::group_hash_axioms;

/// The registry of the checkpoint before, from which unchanged parts may be taken.
pub struct RegistryStructuralSource<U> {
    pub registry: DiskLocationRegistry<U>,
}

/// A finished import of a durable record and everything below it.
#[derive(Clone, Copy, Debug, PartialEq, Eq, Structural)]
pub struct CompletedOnDiskImport {
    pub canonical_ptr: SwizzledPtr,
    pub registry_span: RegistryBuilderSubtree,
}

/// How often durable children were met, imported and copied.
#[derive(Clone, Copy, Debug, PartialEq, Eq, Structural)]
pub struct OnDiskImportStats {
    pub lookups: usize,
    pub source_imports: usize,
    pub local_grafts: usize,
    pub local_graft_topology_entries: usize,
    pub local_graft_durable_records: usize,
    pub local_graft_serialized_bytes: usize,
    pub overflowed: bool,
}

/// What a serialization builds besides records.
#[derive(Clone, Copy, Debug, PartialEq, Eq, Structural)]
pub enum RegistryBuildMode {
    /// Nothing.
    Disabled,
    /// A registry, to be looked at.
    Analysis,
    /// A registry and durable stamps, to be published.
    Enabled,
}

/// The outcome of a serialization that is to be published with a root.
pub struct PreparedRegistryPublication<K: KeyEncoding, V> {
    pub captured_root: RootRevision<K, V>,
    pub registry: DiskLocationRegistry<K::Unit>,
    pub deferred_stamps: Vec<DeferredDurableStamp<K, V>>,
}

/// The state of one serialization.
pub struct OverlaySerializationBuild<K: KeyEncoding, V, P> {
    pub graph: P,
    pub on_disk_imports: HashMap<u64, CompletedOnDiskImport>,
    pub on_disk_import_stats: OnDiskImportStats,
    pub mode: RegistryBuildMode,
    pub registry: DiskLocationRegistry<K::Unit>,
    pub structural_source: Option<RegistryStructuralSource<K::Unit>>,
    pub deferred_stamps: Vec<DeferredDurableStamp<K, V>>,
    /// The children that kept their records, in the order in which they were met.
    pub met: Ghost<Seq<Occurrence<K::Unit>>>,
}

/// A sum that stops at the largest machine word.
pub open spec fn clamped(sum: int) -> usize {
    if sum > usize::MAX {
        usize::MAX
    } else {
        sum as usize
    }
}

/// The address of a record, whatever layout a pointer to it claims.
pub open spec fn spec_record_address(location: DiskLocation) -> int {
    location.block_id * 0x1_0000_0000 + location.offset
}

/// The address of a record, whatever layout a pointer to it claims.
pub fn record_address(location: DiskLocation) -> (r: u64)
    ensures
        r == spec_record_address(location),
{
    (location.block_id as u64) * 0x1_0000_0000 + (location.offset as u64)
}

impl OnDiskImportStats {
    /// No observation.
    pub open spec fn none() -> Self {
        OnDiskImportStats {
            lookups: 0,
            source_imports: 0,
            local_grafts: 0,
            local_graft_topology_entries: 0,
            local_graft_durable_records: 0,
            local_graft_serialized_bytes: 0,
            overflowed: false,
        }
    }

    /// One more lookup.
    pub open spec fn with_lookup(self) -> Self {
        OnDiskImportStats {
            lookups: clamped(self.lookups + 1),
            overflowed: self.overflowed || self.lookups == usize::MAX,
            ..self
        }
    }

    /// One more import.
    pub open spec fn with_source_import(self) -> Self {
        OnDiskImportStats {
            source_imports: clamped(self.source_imports + 1),
            overflowed: self.overflowed || self.source_imports == usize::MAX,
            ..self
        }
    }

    /// One more copy of an import.
    pub open spec fn with_local_graft(self, graft: LocalRegistryGraftStats) -> Self {
        OnDiskImportStats {
            local_grafts: clamped(self.local_grafts + 1),
            local_graft_topology_entries: clamped(
                self.local_graft_topology_entries + graft.appended_topology_entries,
            ),
            local_graft_durable_records: clamped(
                self.local_graft_durable_records + graft.durable_records,
            ),
            local_graft_serialized_bytes: clamped(
                self.local_graft_serialized_bytes + graft.serialized_bytes,
            ),
            overflowed: self.overflowed || graft.overflowed || self.local_grafts == usize::MAX
                || self.local_graft_topology_entries + graft.appended_topology_entries > usize::MAX
                || self.local_graft_durable_records + graft.durable_records > usize::MAX
                || self.local_graft_serialized_bytes + graft.serialized_bytes > usize::MAX,
            ..self
        }
    }
}

impl Default for OnDiskImportStats {
    /// No observation.
    fn default() -> (r: Self)
        ensures
            r == OnDiskImportStats::none(),
    {
        OnDiskImportStats {
            lookups: 0,
            source_imports: 0,
            local_grafts: 0,
            local_graft_topology_entries: 0,
            local_graft_durable_records: 0,
            local_graft_serialized_bytes: 0,
            overflowed: false,
        }
    }
}

/// Adds, stopping at the largest machine word, and says whether it stopped.
fn add_clamped(current: usize, increment: usize) -> (r: (usize, bool))
    ensures
        r.0 == clamped(current + increment),
        r.1 == (current + increment > usize::MAX),
{
    match current.checked_add(increment) {
        Some(sum) => (sum, false),
        None => (usize::MAX, true),
    }
}

/// A registry without anything registered or begun.
pub open spec fn unregistered<U: Copy>(registry: DiskLocationRegistry<U>) -> bool {
    &&& registry.wf()
    &&& registry.topology.entries@.len() == 0
    &&& registry.records@.len() == 0
    &&& registry.open@.len() == 0
}

impl<K: KeyEncoding, V: DictionaryValue, P> OverlaySerializationBuild<K, V, P> {
    /// Nothing has been built.
    pub open spec fn is_fresh(self) -> bool {
        &&& self.on_disk_imports@ == Map::<u64, CompletedOnDiskImport>::empty()
        &&& self.on_disk_import_stats == OnDiskImportStats::none()
        &&& self.deferred_stamps@.len() == 0
        &&& self.met@.len() == 0
    }

    /// The registry is well formed, and every durable child that was taken over is
    /// imported.
    pub open spec fn wf(self) -> bool {
        &&& self.registry.wf()
        &&& met_imported(self.met@, self.on_disk_imports@)
    }

    /// A build without anything built.
    fn fresh(
        graph: P,
        mode: RegistryBuildMode,
        registry: DiskLocationRegistry<K::Unit>,
        structural_source: Option<RegistryStructuralSource<K::Unit>>,
    ) -> (r: Self)
        ensures
            r.is_fresh(),
            r.graph == graph,
            r.mode == mode,
            r.registry == registry,
            r.structural_source == structural_source,
    {
        let r = OverlaySerializationBuild {
            graph,
            on_disk_imports: HashMap::new(),
            on_disk_import_stats: OnDiskImportStats::default(),
            mode,
            registry,
            structural_source,
            deferred_stamps: Vec::new(),
            met: Ghost(Seq::empty()),
        };
        assert(r.on_disk_imports@ =~= Map::<u64, CompletedOnDiskImport>::empty());
        r
    }
}

impl<K: KeyEncoding, V: DictionaryValue> OverlaySerializationBuild<K, V, ArborescentProduction> {
    /// A build for a root in which every node has one parent, without a registry.
    pub fn production_disabled() -> (r: Self)
        ensures
            r.wf(),
            r.is_fresh(),
            r.mode == RegistryBuildMode::Disabled,
            r.structural_source is None,
            unregistered(r.registry),
    {
        Self::fresh(
            ArborescentProduction,
            RegistryBuildMode::Disabled,
            DiskLocationRegistry::new(),
            None,
        )
    }

    /// A build for a root in which every node has one parent, with a registry and
    /// durable stamps.
    pub fn production_with_eviction(
        structural_source: Option<RegistryStructuralSource<K::Unit>>,
    ) -> (r: Self)
        ensures
            r.wf(),
            r.is_fresh(),
            r.mode == RegistryBuildMode::Enabled,
            r.structural_source == structural_source,
            unregistered(r.registry),
    {
        Self::fresh(
            ArborescentProduction,
            RegistryBuildMode::Enabled,
            DiskLocationRegistry::new(),
            structural_source,
        )
    }
}

impl<K: KeyEncoding, V: DictionaryValue> OverlaySerializationBuild<K, V, DagAware<K, V>> {
    /// A build for any graph, without a registry.
    pub fn dag_disabled() -> (r: Self)
        ensures
            r.wf(),
            r.is_fresh(),
            r.mode == RegistryBuildMode::Disabled,
            r.graph.fresh(),
            r.graph.index@ == Map::<u64, usize>::empty(),
            r.structural_source is None,
            unregistered(r.registry),
    {
        Self::fresh(
            DagAware::new(),
            RegistryBuildMode::Disabled,
            DiskLocationRegistry::new(),
            None,
        )
    }

    /// A build for any graph that only fills a registry. It takes no durable stamp
    /// for granted and makes none.
    pub fn analysis(registry: DiskLocationRegistry<K::Unit>) -> (r: Self)
        ensures
            r.is_fresh(),
            r.mode == RegistryBuildMode::Analysis,
            r.registry == registry,
            r.graph.fresh(),
            r.graph.index@ == Map::<u64, usize>::empty(),
            r.structural_source is None,
            registry.wf() ==> r.wf(),
    {
        Self::fresh(DagAware::new(), RegistryBuildMode::Analysis, registry, None)
    }
}

impl<K: KeyEncoding, V: DictionaryValue, P> OverlaySerializationBuild<K, V, P> {
    /// Whether durable stamps are taken for granted and made.
    pub fn is_enabled(&self) -> (r: bool)
        ensures
            r == (self.mode == RegistryBuildMode::Enabled),
    {
        self.mode == RegistryBuildMode::Enabled
    }

    /// Whether a registry is built.
    pub fn has_registry(&self) -> (r: bool)
        ensures
            r == (self.mode != RegistryBuildMode::Disabled),
    {
        self.mode != RegistryBuildMode::Disabled
    }

    /// The registry, if one is built.
    pub fn registry_mut(&mut self) -> (r: Option<&mut DiskLocationRegistry<K::Unit>>)
        ensures
            old(self).mode == RegistryBuildMode::Disabled ==> r is None && *final(self) == *old(
                self,
            ),
            old(self).mode != RegistryBuildMode::Disabled ==> (r matches Some(registry) && {
                &&& *registry == old(self).registry
                &&& *final(self) == (OverlaySerializationBuild {
                    registry: *final(registry),
                    ..*old(self)
                })
            }),
    {
        if self.mode == RegistryBuildMode::Disabled {
            None
        } else {
            Some(&mut self.registry)
        }
    }

    /// The import of the record at an address.
    pub fn on_disk_import(&self, address: u64) -> (r: Option<CompletedOnDiskImport>)
        ensures
            r == (if self.on_disk_imports@.dom().contains(address) {
                Some(self.on_disk_imports@[address])
            } else {
                None
            }),
    {
        match self.on_disk_imports.get(&address) {
            Some(import) => Some(*import),
            None => None,
        }
    }

    /// Makes room for the import of the record at an address.
    pub fn try_reserve_on_disk_import(&mut self, address: u64) -> (r: TrieResult<()>)
        ensures
            *final(self) == (OverlaySerializationBuild {
                on_disk_imports: final(self).on_disk_imports,
                ..*old(self)
            }),
            final(self).on_disk_imports@ == old(self).on_disk_imports@,
            match r {
                Ok(()) => !old(self).on_disk_imports@.dom().contains(address),
                Err(e) => if old(self).on_disk_imports@.dom().contains(address) {
                    e is InternalError
                } else {
                    no_room(e)
                },
            },
    {
        if self.on_disk_imports.contains_key(&address) {
            return Err(
                PersistentARTrieError::internal("durable serializer memo entry was reserved twice"),
            );
        }
        let requested: usize = match self.on_disk_imports.len().checked_add(1) {
            Some(requested) => requested,
            None => usize::MAX,
        };
        reserve_outcome(
            reserve_imports(&mut self.on_disk_imports),
            "durable serializer memo",
            requested,
        )
    }

    /// Takes note of a finished import.
    pub fn memoize_on_disk_import(&mut self, address: u64, completed: CompletedOnDiskImport) -> (r:
        TrieResult<()>)
        ensures
            *final(self) == (OverlaySerializationBuild {
                on_disk_imports: final(self).on_disk_imports,
                ..*old(self)
            }),
            match r {
                Ok(()) => {
                    &&& !old(self).on_disk_imports@.dom().contains(address)
                    &&& final(self).on_disk_imports@ == old(self).on_disk_imports@.insert(
                        address,
                        completed,
                    )
                },
                Err(e) => {
                    &&& old(self).on_disk_imports@.dom().contains(address)
                    &&& e is InternalError
                    &&& final(self).on_disk_imports@ == old(self).on_disk_imports@
                },
            },
    {
        if self.on_disk_imports.contains_key(&address) {
            return Err(
                PersistentARTrieError::internal(
                    "durable serializer memo completed one address twice",
                ),
            );
        }
        self.on_disk_imports.insert(address, completed);
        Ok(())
    }

    /// Counts a durable child.
    pub fn record_on_disk_lookup(&mut self)
        ensures
            *final(self) == (OverlaySerializationBuild {
                on_disk_import_stats: old(self).on_disk_import_stats.with_lookup(),
                ..*old(self)
            }),
    {
        let (next, overflowed) = add_clamped(self.on_disk_import_stats.lookups, 1);
        self.on_disk_import_stats.lookups = next;
        self.on_disk_import_stats.overflowed = self.on_disk_import_stats.overflowed || overflowed;
    }

    /// Counts an import.
    pub fn record_source_import(&mut self)
        ensures
            *final(self) == (OverlaySerializationBuild {
                on_disk_import_stats: old(self).on_disk_import_stats.with_source_import(),
                ..*old(self)
            }),
    {
        let (next, overflowed) = add_clamped(self.on_disk_import_stats.source_imports, 1);
        self.on_disk_import_stats.source_imports = next;
        self.on_disk_import_stats.overflowed = self.on_disk_import_stats.overflowed || overflowed;
    }

    /// Counts a copy of an import.
    pub fn record_local_graft(&mut self, graft: LocalRegistryGraftStats)
        ensures
            *final(self) == (OverlaySerializationBuild {
                on_disk_import_stats: old(self).on_disk_import_stats.with_local_graft(graft),
                ..*old(self)
            }),
    {
        let before = self.on_disk_import_stats;
        let (local_grafts, a) = add_clamped(before.local_grafts, 1);
        let (topology_entries, b) = add_clamped(
            before.local_graft_topology_entries,
            graft.appended_topology_entries,
        );
        let (durable_records, c) = add_clamped(
            before.local_graft_durable_records,
            graft.durable_records,
        );
        let (serialized_bytes, d) = add_clamped(
            before.local_graft_serialized_bytes,
            graft.serialized_bytes,
        );
        self.on_disk_import_stats = OnDiskImportStats {
            lookups: before.lookups,
            source_imports: before.source_imports,
            local_grafts,
            local_graft_topology_entries: topology_entries,
            local_graft_durable_records: durable_records,
            local_graft_serialized_bytes: serialized_bytes,
            overflowed: before.overflowed || graft.overflowed || a || b || c || d,
        };
    }

    /// Takes note that a node was written, if stamps are made.
    pub fn defer_stamp(&mut self, node: &Arc<OverlayNode<K, V>>, raw: u64) -> (r: TrieResult<()>)
        ensures
            *final(self) == (OverlaySerializationBuild {
                deferred_stamps: final(self).deferred_stamps,
                ..*old(self)
            }),
            match r {
                Ok(()) => final(self).deferred_stamps@ == (if old(self).mode
                    == RegistryBuildMode::Enabled {
                    old(self).deferred_stamps@.push(DeferredDurableStamp { node: *node, raw })
                } else {
                    old(self).deferred_stamps@
                }),
                Err(e) => {
                    &&& old(self).mode == RegistryBuildMode::Enabled
                    &&& no_room(e)
                    &&& final(self).deferred_stamps@ == old(self).deferred_stamps@
                },
            },
    {
        if self.mode != RegistryBuildMode::Enabled {
            return Ok(());
        }
        let requested: usize = match self.deferred_stamps.len().checked_add(1) {
            Some(requested) => requested,
            None => usize::MAX,
        };
        match reserve_entries(
            &mut self.deferred_stamps,
            1,
            "overlay deferred durable-stamp plan",
            requested,
        ) {
            Ok(()) => {},
            Err(e) => {
                return Err(e);
            },
        }
        self.deferred_stamps.push(DeferredDurableStamp::new(share(node), raw));
        Ok(())
    }

    /// Closes the build. Only an enabled build has something to publish; a build
    /// for analysis cannot be published.
    pub fn finish(self, captured_root: &RootRevision<K, V>) -> (r: TrieResult<
        Option<PreparedRegistryPublication<K, V>>,
    >)
        ensures
            match r {
                Ok(None) => self.mode == RegistryBuildMode::Disabled,
                Ok(Some(publication)) => {
                    &&& self.mode == RegistryBuildMode::Enabled
                    &&& self.registry.open@.len() == 0
                    &&& publication.captured_root == *captured_root
                    &&& publication.registry == self.registry
                    &&& publication.deferred_stamps == self.deferred_stamps
                },
                Err(e) => {
                    &&& e is InternalError
                    &&& self.mode == RegistryBuildMode::Analysis || (self.mode
                        == RegistryBuildMode::Enabled && self.registry.open@.len() > 0)
                },
            },
    {
        match self.mode {
            RegistryBuildMode::Disabled => Ok(None),
            RegistryBuildMode::Analysis => Err(
                PersistentARTrieError::internal(
                    "a registry-analysis build cannot become a checkpoint publication",
                ),
            ),
            RegistryBuildMode::Enabled => match self.registry.try_finalize_for_publication() {
                Ok(()) => Ok(
                    Some(
                        PreparedRegistryPublication {
                            captured_root: captured_root.alias(),
                            registry: self.registry,
                            deferred_stamps: self.deferred_stamps,
                        },
                    ),
                ),
                Err(e) => Err(e),
            },
        }
    }

    /// The registry of a build for analysis.
    pub fn into_analysis_registry(self) -> (r: TrieResult<DiskLocationRegistry<K::Unit>>)
        ensures
            match r {
                Ok(registry) => {
                    &&& self.mode == RegistryBuildMode::Analysis
                    &&& self.registry.open@.len() == 0
                    &&& registry == self.registry
                },
                Err(e) => {
                    &&& e is InternalError
                    &&& self.mode != RegistryBuildMode::Analysis || self.registry.open@.len() > 0
                },
            },
    {
        match self.mode {
            RegistryBuildMode::Analysis => match self.registry.try_finalize_for_publication() {
                Ok(()) => Ok(self.registry),
                Err(e) => Err(e),
            },
            _ => Err(
                PersistentARTrieError::internal(
                    "only a registry-analysis build yields an analysis registry",
                ),
            ),
        }
    }
}

/// `HashMap::try_reserve`: makes room for one more entry, or says why there is
/// none. The entries stay.
#[verifier::external_body]
fn reserve_imports(imports: &mut HashMap<u64, CompletedOnDiskImport>) -> (r: Result<
    (),
    std::collections::TryReserveError,
>)
    ensures
        final(imports)@ == old(imports)@,
{
    imports.try_reserve(1)
}

/// What an analysis starts from: a build for any graph without anything built, looked
/// at, registered or begun, and without a source to look records up in.
pub open spec fn starts_analysis<K: KeyEncoding, V: DictionaryValue>(
    build: OverlaySerializationBuild<K, V, DagAware<K, V>>,
) -> bool {
    &&& build.wf()
    &&& build.is_fresh()
    &&& build.mode == RegistryBuildMode::Analysis
    &&& build.graph.fresh()
    &&& build.graph.index@ == Map::<u64, usize>::empty()
    &&& build.structural_source is None
    &&& unregistered(build.registry)
}

/// Runs an analysis on a fresh registry. The target is replaced by it only if the
/// operation succeeds and leaves no subtree unfinished.
pub fn try_analysis_registry_transaction<K, V, T, F>(
    target: &mut DiskLocationRegistry<K::Unit>,
    operation: F,
) -> (r: TrieResult<T>) where
    K: KeyEncoding,
    V: DictionaryValue,
    F: FnOnce(OverlaySerializationBuild<K, V, DagAware<K, V>>) -> (
        OverlaySerializationBuild<K, V, DagAware<K, V>>,
        TrieResult<T>,
    ),

    requires
        forall|build: OverlaySerializationBuild<K, V, DagAware<K, V>>|
            #![trigger call_requires(operation, (build,))]
            starts_analysis(build) ==> call_requires(operation, (build,)),
    ensures
        exists|
            start: OverlaySerializationBuild<K, V, DagAware<K, V>>,
            end: (OverlaySerializationBuild<K, V, DagAware<K, V>>, TrieResult<T>),
        |
            {
                &&& starts_analysis(start)
                &&& #[trigger] call_ensures(operation, (start,), end)
                &&& match end.1 {
                    Ok(value) => if end.0.mode == RegistryBuildMode::Analysis
                        && end.0.registry.open@.len() == 0 {
                        r == Ok::<T, PersistentARTrieError>(value) && *final(target)
                            == end.0.registry
                    } else {
                        (r matches Err(e) && e is InternalError) && *final(target) == *old(target)
                    },
                    Err(e) => r == Err::<T, PersistentARTrieError>(e) && *final(target) == *old(
                        target,
                    ),
                }
            },
{
    let build = OverlaySerializationBuild::analysis(DiskLocationRegistry::new());
    let ghost start = build;
    let end = operation(build);
    let ghost outcome = end;
    assert(call_ensures(operation, (start,), outcome));
    let (build, result) = end;
    match result {
        Ok(value) => match build.into_analysis_registry() {
            Ok(replacement) => {
                *target = replacement;
                Ok(value)
            },
            Err(e) => Err(e),
        },
        Err(e) => Err(e),
    }
}

} // verus!
