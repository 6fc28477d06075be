//! The registry of durable records: where on which path a record lies.

use vstd::prelude::*;
use crate::error::{PersistentARTrieError, TrieResult};
use crate::eviction::{
    lemma_topology_path_stable, topology_path, CompactEvictionBatch, CompactEvictionCandidate,
    CompactEvictionPolicy, RegistryPathId, RegistryTopology, TopologyEntry,
};
use crate::swizzled_ptr::{NodeType, SwizzledPtr};

verus! {

/// One registered record.
#[derive(Clone, Copy, Debug, PartialEq, Eq, Structural)]
pub struct RegistryRecord {
    pub path_id: RegistryPathId,
    pub disk_ptr: SwizzledPtr,
    pub size_bytes: usize,
    pub depth: usize,
    pub node_type: NodeType,
    pub resident: bool,
}

/// The begin of a subtree of registered paths: its root, and how many records had
/// been registered before it.
#[derive(Clone, Copy, Debug, PartialEq, Eq, Structural)]
pub struct RegistryBuilderSubtreeStart {
    pub root: usize,
    pub first_record: usize,
}

/// A finished subtree: the paths `root..=last_path` and the records
/// `first_record..end_record`.
#[derive(Clone, Copy, Debug, PartialEq, Eq, Structural)]
pub struct RegistryBuilderSubtree {
    pub root: usize,
    pub last_path: usize,
    pub first_record: usize,
    pub end_record: usize,
}

/// What copying a subtree added.
#[derive(Clone, Copy, Debug, PartialEq, Eq, Structural)]
pub struct LocalRegistryGraftStats {
    pub appended_topology_entries: usize,
    pub durable_records: usize,
    pub serialized_bytes: usize,
    pub overflowed: bool,
}

/// A registry under construction.
pub struct DiskLocationRegistry<U> {
    pub topology: RegistryTopology<U>,
    pub records: Vec<RegistryRecord>,
    pub open: Vec<RegistryBuilderSubtreeStart>,
}

/// `after` has the paths of `before` and perhaps more.
pub open spec fn paths_extend<U>(before: Seq<TopologyEntry<U>>, after: Seq<TopologyEntry<U>>) -> bool {
    &&& before.len() <= after.len()
    &&& forall|i: int| 0 <= i < before.len() ==> #[trigger] after[i] == before[i]
}

/// `after` has the records of `before` and perhaps more.
pub open spec fn records_extend(before: Seq<RegistryRecord>, after: Seq<RegistryRecord>) -> bool {
    &&& before.len() <= after.len()
    &&& forall|i: int| 0 <= i < before.len() ==> #[trigger] after[i] == before[i]
}

/// A copy of a finished subtree: the subtree, the path and the first record of the
/// copy, and what copying added.
pub struct Graft {
    pub span: RegistryBuilderSubtree,
    pub destination: usize,
    pub first_record: int,
    pub stats: LocalRegistryGraftStats,
}

/// A record of a subtree, copied to another place.
pub open spec fn moved(record: RegistryRecord, graft: Graft, root_resident: bool) -> RegistryRecord {
    RegistryRecord {
        path_id: RegistryPathId {
            ordinal: (record.path_id.ordinal - graft.span.root + graft.destination) as usize,
        },
        resident: if record.path_id.ordinal == graft.span.root {
            root_resident
        } else {
            record.resident
        },
        ..record
    }
}

/// A registry holds a copy of a subtree at a path: its paths and all its records, with
/// a record of `ptr` at the path itself that is resident exactly if `root_resident`.
#[verifier::opaque]
pub open spec fn holds_graft<U>(
    registry: DiskLocationRegistry<U>,
    graft: Graft,
    path: Seq<U>,
    ptr: SwizzledPtr,
    root_resident: bool,
) -> bool {
    let entries = registry.topology.entries@;
    let records = registry.records@;
    let span = graft.span;
    let paths = span.last_path - span.root;
    let count = span.end_record - span.first_record;
    &&& 0 < span.root <= span.last_path <= graft.destination
    &&& graft.destination + paths <= entries.len()
    &&& topology_path(entries, graft.destination as int) == path
    &&& span.first_record < span.end_record <= graft.first_record
    &&& graft.first_record + count <= records.len()
    &&& forall|k: int|
        0 <= k < paths ==> {
            &&& (#[trigger] entries[graft.destination + k]).segment@ == entries[span.root
                + k].segment@
            &&& entries[graft.destination + k].parent.ordinal == entries[span.root
                + k].parent.ordinal - span.root + graft.destination
        }
    &&& forall|k: int|
        0 <= k < count ==> #[trigger] records[graft.first_record + k] == moved(
            records[span.first_record + k],
            graft,
            root_resident,
        )
    &&& exists|k: int|
        0 <= k < count && (#[trigger] records[graft.first_record + k]).path_id.ordinal
            == graft.destination && records[graft.first_record + k].disk_ptr == ptr
            && records[graft.first_record + k].resident == root_resident
    &&& graft.stats.appended_topology_entries == paths
    &&& graft.stats.durable_records == count
    &&& graft.stats.serialized_bytes == size_sum(
        records.subrange(span.first_record as int, span.end_record as int),
    )
}

/// A registry that grows keeps its copies.
pub proof fn grafts_are_stable<U>(
    before: DiskLocationRegistry<U>,
    after: DiskLocationRegistry<U>,
    graft: Graft,
    path: Seq<U>,
    ptr: SwizzledPtr,
    root_resident: bool,
)
    requires
        holds_graft(before, graft, path, ptr, root_resident),
        paths_extend(before.topology.entries@, after.topology.entries@),
        records_extend(before.records@, after.records@),
    ensures
        holds_graft(after, graft, path, ptr, root_resident),
{
    reveal(holds_graft);
    let span = graft.span;
    let paths = span.last_path - span.root;
    let count = span.end_record - span.first_record;
    let old_entries = before.topology.entries@;
    let entries = after.topology.entries@;
    let old_records = before.records@;
    let records = after.records@;
    paths_are_stable(old_entries, entries, graft.destination as int);
    assert forall|k: int| 0 <= k < paths implies {
        &&& (#[trigger] entries[graft.destination + k]).segment@ == entries[span.root + k].segment@
        &&& entries[graft.destination + k].parent.ordinal == entries[span.root + k].parent.ordinal
            - span.root + graft.destination
    } by {
        assert(entries[graft.destination + k] == old_entries[graft.destination + k]);
        assert(entries[span.root + k] == old_entries[span.root + k]);
    }
    assert forall|k: int| 0 <= k < count implies #[trigger] records[graft.first_record + k]
        == moved(records[span.first_record + k], graft, root_resident) by {
        assert(records[graft.first_record + k] == old_records[graft.first_record + k]);
        assert(records[span.first_record + k] == old_records[span.first_record + k]);
    }
    let k = choose|k: int|
        0 <= k < count && (#[trigger] old_records[graft.first_record + k]).path_id.ordinal
            == graft.destination && old_records[graft.first_record + k].disk_ptr == ptr
            && old_records[graft.first_record + k].resident == root_resident;
    assert(records[graft.first_record + k] == old_records[graft.first_record + k]);
    assert(records.subrange(span.first_record as int, span.end_record as int)
        =~= old_records.subrange(span.first_record as int, span.end_record as int));
}

/// The sum of the sizes of records, which stops at the largest machine word.
pub open spec fn size_sum(records: Seq<RegistryRecord>) -> int
    decreases records.len(),
{
    if records.len() == 0 {
        0
    } else {
        let sum = size_sum(records.drop_last()) + records.last().size_bytes;
        if sum > usize::MAX {
            usize::MAX as int
        } else {
            sum
        }
    }
}

/// The sum of the sizes of records.
pub open spec fn exact_size(records: Seq<RegistryRecord>) -> nat
    decreases records.len(),
{
    if records.len() == 0 {
        0
    } else {
        exact_size(records.drop_last()) + records.last().size_bytes as nat
    }
}

/// The number of resident records.
pub open spec fn resident_count(records: Seq<RegistryRecord>) -> nat
    decreases records.len(),
{
    if records.len() == 0 {
        0
    } else {
        resident_count(records.drop_last()) + if records.last().resident {
            1nat
        } else {
            0
        }
    }
}

/// Extending a registry keeps its paths.
pub proof fn paths_are_stable<U>(
    before: Seq<TopologyEntry<U>>,
    after: Seq<TopologyEntry<U>>,
    ordinal: int,
)
    requires
        paths_extend(before, after),
        ordinal <= before.len(),
    ensures
        topology_path(after, ordinal) == topology_path(before, ordinal),
{
    lemma_topology_path_stable(before, after, ordinal);
}

impl<U: Copy> DiskLocationRegistry<U> {
    /// The topology is well formed, and records lie on its paths.
    pub open spec fn wf(self) -> bool {
        &&& self.topology.wf()
        &&& forall|i: int|
            0 <= i < self.records@.len() ==> 0 < (
            #[trigger] self.records@[i]).path_id.ordinal <= self.topology.entries@.len()
    }

    /// An empty registry.
    pub fn new() -> (r: Self)
        ensures
            r.wf(),
            r.topology.entries@.len() == 0,
            r.records@.len() == 0,
            r.open@.len() == 0,
    {
        DiskLocationRegistry {
            topology: RegistryTopology::new(),
            records: Vec::new(),
            open: Vec::new(),
        }
    }

    /// The number of records.
    pub fn len(&self) -> (r: usize)
        ensures
            r == self.records@.len(),
    {
        self.records.len()
    }

    /// Whether there is no record.
    pub fn is_empty(&self) -> (r: bool)
        ensures
            r == (self.records@.len() == 0),
    {
        self.records.len() == 0
    }

    /// The total size of the records.
    pub fn total_size_bytes(&self) -> (r: usize)
        ensures
            r == size_sum(self.records@),
    {
        let mut total: usize = 0;
        let mut i: usize = 0;
        while i < self.records.len()
            invariant
                i <= self.records@.len(),
                total == size_sum(self.records@.take(i as int)),
            decreases self.records@.len() - i,
        {
            assert(self.records@.take(i + 1).drop_last() =~= self.records@.take(i as int));
            total = total.saturating_add(self.records[i].size_bytes);
            i += 1;
        }
        assert(self.records@.take(i as int) =~= self.records@);
        total
    }

    /// The number of resident records.
    pub fn resident_len(&self) -> (r: usize)
        ensures
            r == resident_count(self.records@),
    {
        let mut count: usize = 0;
        let mut i: usize = 0;
        while i < self.records.len()
            invariant
                i <= self.records@.len(),
                count <= i,
                count == resident_count(self.records@.take(i as int)),
            decreases self.records@.len() - i,
        {
            assert(self.records@.take(i + 1).drop_last() =~= self.records@.take(i as int));
            if self.records[i].resident {
                count += 1;
            }
            i += 1;
        }
        assert(self.records@.take(i as int) =~= self.records@);
        count
    }

    /// Registers the path that adds `segment` to `parent`.
    pub fn reserve_path(&mut self, parent: RegistryPathId, segment: &[U]) -> (r: TrieResult<
        RegistryPathId,
    >)
        requires
            old(self).wf(),
        ensures
            final(self).wf(),
            final(self).records@ == old(self).records@,
            final(self).open@ == old(self).open@,
            match r {
                Ok(id) => {
                    &&& parent.ordinal <= old(self).topology.entries@.len()
                    &&& id.ordinal == final(self).topology.entries@.len()
                    &&& final(self).topology.entries@.len() == old(self).topology.entries@.len() + 1
                    &&& paths_extend(old(self).topology.entries@, final(self).topology.entries@)
                    &&& final(self).topology.entries@.last().parent == parent
                    &&& final(self).topology.entries@.last().segment@ == segment@
                    &&& final(self).topology.path(id) == old(self).topology.path(parent)
                        + segment@
                },
                Err(e) => {
                    &&& e is InternalError
                    &&& parent.ordinal > old(self).topology.entries@.len()
                        || old(self).topology.entries@.len() == usize::MAX
                    &&& final(self).topology.entries@ == old(self).topology.entries@
                },
            },
    {
        if self.topology.len() == usize::MAX {
            return Err(PersistentARTrieError::internal("registry topology is full"));
        }
        let units: Vec<U> = vstd::slice::slice_to_vec(segment);
        match self.topology.reserve(parent, units) {
            Some(id) => Ok(id),
            None => Err(PersistentARTrieError::internal("registry path has no such parent")),
        }
    }

    /// Registers a record at a registered path.
    pub fn register_path(
        &mut self,
        path_id: RegistryPathId,
        disk_ptr: SwizzledPtr,
        size_bytes: usize,
        depth: usize,
        node_type: NodeType,
        resident: bool,
    ) -> (r: TrieResult<()>)
        requires
            old(self).wf(),
        ensures
            final(self).wf(),
            final(self).topology == old(self).topology,
            final(self).open@ == old(self).open@,
            match r {
                Ok(()) => {
                    &&& 0 < path_id.ordinal <= old(self).topology.entries@.len()
                    &&& final(self).records@ == old(self).records@.push(
                        RegistryRecord {
                            path_id,
                            disk_ptr,
                            size_bytes,
                            depth,
                            node_type,
                            resident,
                        },
                    )
                },
                Err(e) => {
                    &&& e is InternalError
                    &&& path_id.ordinal == 0 || path_id.ordinal
                        > old(self).topology.entries@.len()
                    &&& final(self).records@ == old(self).records@
                },
            },
    {
        if path_id.ordinal == 0 || path_id.ordinal > self.topology.len() {
            return Err(PersistentARTrieError::internal("registry record has no such path"));
        }
        let ghost before = self.records@;
        self.records.push(
            RegistryRecord { path_id, disk_ptr, size_bytes, depth, node_type, resident },
        );
        proof {
            assert forall|i: int| 0 <= i < self.records@.len() implies 0 < (
            #[trigger] self.records@[i]).path_id.ordinal <= self.topology.entries@.len() by {
                if i < before.len() {
                    assert(self.records@[i] == before[i]);
                }
            }
        }
        Ok(())
    }

    /// Registers a resident record at a path from the root.
    pub fn register(
        &mut self,
        path: &[U],
        disk_ptr: SwizzledPtr,
        size_bytes: usize,
        depth: usize,
        node_type: NodeType,
    ) -> (r: TrieResult<()>)
        requires
            old(self).wf(),
        ensures
            final(self).wf(),
            final(self).open@ == old(self).open@,
            match r {
                Ok(()) => {
                    let id = RegistryPathId {
                        ordinal: final(self).topology.entries@.len() as usize,
                    };
                    &&& final(self).topology.entries@.len() == old(self).topology.entries@.len() + 1
                    &&& paths_extend(old(self).topology.entries@, final(self).topology.entries@)
                    &&& final(self).topology.path(id) == path@
                    &&& final(self).records@ == old(self).records@.push(
                        RegistryRecord {
                            path_id: id,
                            disk_ptr,
                            size_bytes,
                            depth,
                            node_type,
                            resident: true,
                        },
                    )
                },
                Err(e) => {
                    &&& e is InternalError
                    &&& old(self).topology.entries@.len() == usize::MAX
                    &&& final(self).topology.entries@ == old(self).topology.entries@
                    &&& final(self).records@ == old(self).records@
                },
            },
    {
        let root = RegistryPathId::root();
        match self.reserve_path(root, path) {
            Ok(id) => {
                proof {
                    assert(old(self).topology.path(root) =~= Seq::empty());
                    assert(Seq::<U>::empty() + path@ =~= path@);
                }
                self.register_path(id, disk_ptr, size_bytes, depth, node_type, true)
            },
            Err(e) => Err(e),
        }
    }

    /// Begins a subtree at the path that was registered last.
    pub fn begin_subtree(&mut self, root: RegistryPathId) -> (r: TrieResult<
        RegistryBuilderSubtreeStart,
    >)
        requires
            old(self).wf(),
        ensures
            final(self).wf(),
            final(self).topology == old(self).topology,
            final(self).records@ == old(self).records@,
            match r {
                Ok(start) => {
                    &&& 0 < root.ordinal == old(self).topology.entries@.len()
                    &&& start.root == root.ordinal
                    &&& start.first_record == old(self).records@.len()
                    &&& final(self).open@ == old(self).open@.push(start)
                },
                Err(e) => {
                    &&& e is InternalError
                    &&& root.ordinal == 0 || root.ordinal != old(self).topology.entries@.len()
                    &&& final(self).open@ == old(self).open@
                },
            },
    {
        if root.ordinal == 0 || root.ordinal != self.topology.len() {
            return Err(
                PersistentARTrieError::internal("registry subtree does not begin at the last path"),
            );
        }
        let start = RegistryBuilderSubtreeStart {
            root: root.ordinal,
            first_record: self.records.len(),
        };
        self.open.push(start);
        Ok(start)
    }

    /// Takes back a subtree to which nothing was added.
    pub fn cancel_subtree(&mut self, start: RegistryBuilderSubtreeStart) -> (r: TrieResult<()>)
        requires
            old(self).wf(),
        ensures
            final(self).wf(),
            final(self).topology == old(self).topology,
            final(self).records@ == old(self).records@,
            match r {
                Ok(()) => {
                    &&& old(self).open@.len() > 0
                    &&& old(self).open@.last() == start
                    &&& start.root == old(self).topology.entries@.len()
                    &&& start.first_record == old(self).records@.len()
                    &&& final(self).open@ == old(self).open@.drop_last()
                },
                Err(e) => {
                    &&& e is InternalError
                    &&& old(self).open@.len() == 0 || old(self).open@.last() != start || start.root
                        != old(self).topology.entries@.len() || start.first_record
                        != old(self).records@.len()
                    &&& final(self).open@ == old(self).open@
                },
            },
    {
        let depth: usize = self.open.len();
        if depth == 0 || self.open[depth - 1] != start || start.root != self.topology.len()
            || start.first_record != self.records.len() {
            return Err(
                PersistentARTrieError::internal("registry subtree cannot be taken back"),
            );
        }
        let ghost before = self.open@;
        let _ = self.open.pop();
        assert(self.open@ =~= before.drop_last());
        Ok(())
    }

    /// Finishes the subtree that was begun last.
    pub fn finish_subtree(&mut self, start: RegistryBuilderSubtreeStart) -> (r: TrieResult<
        RegistryBuilderSubtree,
    >)
        requires
            old(self).wf(),
        ensures
            final(self).wf(),
            final(self).topology == old(self).topology,
            final(self).records@ == old(self).records@,
            match r {
                Ok(span) => {
                    &&& old(self).open@.len() > 0
                    &&& old(self).open@.last() == start
                    &&& span.root == start.root
                    &&& span.last_path == old(self).topology.entries@.len()
                    &&& span.first_record == start.first_record
                    &&& span.end_record == old(self).records@.len()
                    &&& final(self).open@ == old(self).open@.drop_last()
                },
                Err(e) => {
                    &&& e is InternalError
                    &&& old(self).open@.len() == 0 || old(self).open@.last() != start
                    &&& final(self).open@ == old(self).open@
                },
            },
    {
        let depth: usize = self.open.len();
        if depth == 0 || self.open[depth - 1] != start {
            return Err(
                PersistentARTrieError::internal("registry subtree was not begun last"),
            );
        }
        let ghost before = self.open@;
        let _ = self.open.pop();
        assert(self.open@ =~= before.drop_last());
        Ok(
            RegistryBuilderSubtree {
                root: start.root,
                last_path: self.topology.len(),
                first_record: start.first_record,
                end_record: self.records.len(),
            },
        )
    }

    /// Whether a finished subtree can be copied to a destination: it lies in the
    /// registry, its paths hang together, its records are its own, and its root
    /// record is the expected one.
    pub open spec fn graftable(
        self,
        span: RegistryBuilderSubtree,
        destination: RegistryPathId,
        expected_root: SwizzledPtr,
    ) -> bool {
        let entries = self.topology.entries@;
        &&& 0 < span.root <= span.last_path <= entries.len()
        &&& span.first_record < span.end_record <= self.records@.len()
        &&& destination.ordinal == entries.len()
        &&& destination.ordinal + (span.last_path - span.root) <= usize::MAX
        &&& forall|o: int|
            span.root < o <= span.last_path ==> span.root <= (
            #[trigger] entries[o - 1]).parent.ordinal
        &&& forall|i: int|
            span.first_record <= i < span.end_record ==> span.root <= (
            #[trigger] self.records@[i]).path_id.ordinal <= span.last_path
        &&& exists|i: int|
            span.first_record <= i < span.end_record && (
            #[trigger] self.records@[i]).path_id.ordinal == span.root && self.records@[i].disk_ptr
                == expected_root
    }

    /// Tests whether a finished subtree can be copied.
    fn check_graftable(
        &self,
        span: RegistryBuilderSubtree,
        destination: RegistryPathId,
        expected_root: SwizzledPtr,
    ) -> (r: bool)
        ensures
            r == self.graftable(span, destination, expected_root),
    {
        if span.root == 0 || span.root > span.last_path || span.last_path > self.topology.len()
            || span.first_record >= span.end_record || span.end_record > self.records.len()
            || destination.ordinal != self.topology.len() || usize::MAX - destination.ordinal
            < span.last_path - span.root {
            return false;
        }
        let ghost entries = self.topology.entries@;
        let mut o: usize = span.root;
        while o < span.last_path
            invariant
                entries == self.topology.entries@,
                0 < span.root <= o <= span.last_path <= entries.len(),
                forall|k: int|
                    span.root < k <= o ==> span.root <= (#[trigger] entries[k - 1]).parent.ordinal,
            decreases span.last_path - o,
        {
            if self.topology.entries[o].parent.ordinal < span.root {
                assert(entries[(o + 1) - 1].parent.ordinal < span.root);
                return false;
            }
            o += 1;
        }
        let mut found: bool = false;
        let mut i: usize = span.first_record;
        while i < span.end_record
            invariant
                span.first_record <= i <= span.end_record <= self.records@.len(),
                forall|k: int|
                    span.first_record <= k < i ==> span.root <= (
                    #[trigger] self.records@[k]).path_id.ordinal <= span.last_path,
                found == (exists|k: int|
                    span.first_record <= k < i && (
                    #[trigger] self.records@[k]).path_id.ordinal == span.root
                        && self.records@[k].disk_ptr == expected_root),
            decreases span.end_record - i,
        {
            let record = self.records[i];
            if record.path_id.ordinal < span.root || record.path_id.ordinal > span.last_path {
                assert(self.records@[i as int].path_id.ordinal < span.root
                    || self.records@[i as int].path_id.ordinal > span.last_path);
                return false;
            }
            if record.path_id.ordinal == span.root && record.disk_ptr == expected_root {
                found = true;
            }
            i += 1;
        }
        found
    }

    /// Copies a finished subtree to the path that was registered last. The copy of
    /// the root record is resident exactly if `root_resident`.
    pub fn graft_subtree(
        &mut self,
        span: RegistryBuilderSubtree,
        destination: RegistryPathId,
        expected_root: SwizzledPtr,
        root_resident: bool,
    ) -> (r: TrieResult<LocalRegistryGraftStats>)
        requires
            old(self).wf(),
        ensures
            final(self).wf(),
            final(self).open@ == old(self).open@,
            paths_extend(old(self).topology.entries@, final(self).topology.entries@),
            match r {
                Ok(stats) => {
                    let before = *old(self);
                    let after = *final(self);
                    let paths = span.last_path - span.root;
                    let records = span.end_record - span.first_record;
                    &&& before.graftable(span, destination, expected_root)
                    &&& holds_graft(
                        after,
                        (Graft {
                            span,
                            destination: destination.ordinal,
                            first_record: before.records@.len() as int,
                            stats,
                        }),
                        before.topology.path(destination),
                        expected_root,
                        root_resident,
                    )
                    &&& records_extend(before.records@, after.records@)
                    &&& stats.appended_topology_entries == paths
                    &&& stats.durable_records == records
                    &&& stats.serialized_bytes == size_sum(
                        before.records@.subrange(
                            span.first_record as int,
                            span.end_record as int,
                        ),
                    )
                    &&& stats.overflowed == (exact_size(
                        before.records@.subrange(
                            span.first_record as int,
                            span.end_record as int,
                        ),
                    ) > usize::MAX)
                    &&& after.topology.entries@.len() == before.topology.entries@.len() + paths
                    &&& forall|k: int|
                        0 <= k < paths ==> {
                            let copy = #[trigger] after.topology.entries@[before.topology.entries@.len()
                                + k];
                            let source = before.topology.entries@[span.root + k];
                            &&& copy.segment@ == source.segment@
                            &&& copy.parent.ordinal == source.parent.ordinal - span.root
                                + destination.ordinal
                        }
                    &&& after.records@.len() == before.records@.len() + records
                    &&& forall|i: int|
                        0 <= i < before.records@.len() ==> #[trigger] after.records@[i]
                            == before.records@[i]
                    &&& forall|k: int|
                        0 <= k < records ==> {
                            let copy = #[trigger] after.records@[before.records@.len() + k];
                            let source = before.records@[span.first_record + k];
                            copy == (RegistryRecord {
                                path_id: RegistryPathId {
                                    ordinal: (source.path_id.ordinal - span.root
                                        + destination.ordinal) as usize,
                                },
                                resident: if source.path_id.ordinal == span.root {
                                    root_resident
                                } else {
                                    source.resident
                                },
                                ..source
                            })
                        }
                },
                Err(e) => {
                    &&& e is InternalError
                    &&& !old(self).graftable(span, destination, expected_root)
                    &&& final(self).topology.entries@ == old(self).topology.entries@
                    &&& final(self).records@ == old(self).records@
                },
            },
    {
        if !self.check_graftable(span, destination, expected_root) {
            return Err(PersistentARTrieError::internal("registry subtree cannot be copied"));
        }
        let ghost before = *self;
        let ghost start = self.topology.entries@.len() as int;
        let ghost shift = destination.ordinal - span.root;
        let mut k: usize = span.root;
        while k < span.last_path
            invariant
                before.graftable(span, destination, expected_root),
                before.wf(),
                self.wf(),
                start == before.topology.entries@.len() == destination.ordinal,
                shift == destination.ordinal - span.root,
                span.root <= k <= span.last_path,
                self.records@ == before.records@,
                self.open@ == before.open@,
                self.topology.entries@.len() == start + (k - span.root),
                paths_extend(before.topology.entries@, self.topology.entries@),
                forall|j: int|
                    0 <= j < k - span.root ==> {
                        let copy = #[trigger] self.topology.entries@[start + j];
                        let source = before.topology.entries@[span.root + j];
                        &&& copy.segment@ == source.segment@
                        &&& copy.parent.ordinal == source.parent.ordinal + shift
                    },
            decreases span.last_path - k,
        {
            let ghost here = self.topology.entries@;
            let parent: usize = self.topology.entries[k].parent.ordinal;
            proof {
                assert(before.topology.entries@[(k + 1) - 1].parent.ordinal >= span.root);
                assert(here[k as int] == before.topology.entries@[k as int]);
                assert(here[k as int].parent.ordinal <= k);
            }
            let units: Vec<U> = copy_units(&self.topology.entries[k].segment);
            let id = RegistryPathId { ordinal: parent - span.root + destination.ordinal };
            let _ = self.topology.reserve(id, units);
            proof {
                let after = self.topology.entries@;
                assert forall|j: int| 0 <= j < k + 1 - span.root implies {
                    let copy = #[trigger] after[start + j];
                    let source = before.topology.entries@[span.root + j];
                    &&& copy.segment@ == source.segment@
                    &&& copy.parent.ordinal == source.parent.ordinal + shift
                } by {
                    if j < k - span.root {
                        assert(after[start + j] == here[start + j]);
                    }
                }
            }
            k += 1;
        }
        let mut bytes: usize = 0;
        let mut overflowed: bool = false;
        let mut i: usize = span.first_record;
        let ghost count = before.records@.len() as int;
        while i < span.end_record
            invariant
                before.graftable(span, destination, expected_root),
                before.wf(),
                self.wf(),
                count == before.records@.len(),
                start == before.topology.entries@.len() == destination.ordinal,
                shift == destination.ordinal - span.root,
                self.open@ == before.open@,
                self.topology.entries@.len() == start + (span.last_path - span.root),
                paths_extend(before.topology.entries@, self.topology.entries@),
                forall|j: int|
                    0 <= j < span.last_path - span.root ==> {
                        let copy = #[trigger] self.topology.entries@[start + j];
                        let source = before.topology.entries@[span.root + j];
                        &&& copy.segment@ == source.segment@
                        &&& copy.parent.ordinal == source.parent.ordinal + shift
                    },
                span.first_record <= i <= span.end_record <= count,
                bytes == size_sum(before.records@.subrange(span.first_record as int, i as int)),
                overflowed == (exact_size(
                    before.records@.subrange(span.first_record as int, i as int),
                ) > usize::MAX),
                overflowed ==> bytes == usize::MAX,
                !overflowed ==> bytes == exact_size(
                    before.records@.subrange(span.first_record as int, i as int),
                ),
                self.records@.len() == count + (i - span.first_record),
                forall|j: int| 0 <= j < count ==> #[trigger] self.records@[j] == before.records@[j],
                forall|j: int|
                    0 <= j < i - span.first_record ==> {
                        let copy = #[trigger] self.records@[count + j];
                        let source = before.records@[span.first_record + j];
                        copy == (RegistryRecord {
                            path_id: RegistryPathId {
                                ordinal: (source.path_id.ordinal + shift) as usize,
                            },
                            resident: if source.path_id.ordinal == span.root {
                                root_resident
                            } else {
                                source.resident
                            },
                            ..source
                        })
                    },
            decreases span.end_record - i,
        {
            let ghost here = self.records@;
            let source = self.records[i];
            proof {
                assert(source == before.records@[i as int]);
            }
            let is_root: bool = source.path_id.ordinal == span.root;
            let copy = RegistryRecord {
                path_id: RegistryPathId {
                    ordinal: source.path_id.ordinal - span.root + destination.ordinal,
                },
                disk_ptr: source.disk_ptr,
                size_bytes: source.size_bytes,
                depth: source.depth,
                node_type: source.node_type,
                resident: if is_root {
                    root_resident
                } else {
                    source.resident
                },
            };
            self.records.push(copy);
            match bytes.checked_add(source.size_bytes) {
                Some(sum) => {
                    bytes = sum;
                },
                None => {
                    bytes = usize::MAX;
                    overflowed = true;
                },
            }
            proof {
                let done = before.records@.subrange(span.first_record as int, i + 1);
                assert(done.drop_last() =~= before.records@.subrange(
                    span.first_record as int,
                    i as int,
                ));
                assert(done.last() == source);
                let after = self.records@;
                assert forall|j: int| 0 <= j < count implies #[trigger] after[j]
                    == before.records@[j] by {
                    assert(after[j] == here[j]);
                }
                assert forall|j: int| 0 <= j < i + 1 - span.first_record implies {
                    let copy = #[trigger] after[count + j];
                    let source = before.records@[span.first_record + j];
                    copy == (RegistryRecord {
                        path_id: RegistryPathId {
                            ordinal: (source.path_id.ordinal + shift) as usize,
                        },
                        resident: if source.path_id.ordinal == span.root {
                            root_resident
                        } else {
                            source.resident
                        },
                        ..source
                    })
                } by {
                    if j < i - span.first_record {
                        assert(after[count + j] == here[count + j]);
                    }
                }
                assert forall|j: int| 0 <= j < after.len() implies 0 < (
                #[trigger] after[j]).path_id.ordinal <= self.topology.entries@.len() by {
                    if j < here.len() {
                        assert(after[j] == here[j]);
                    }
                }
            }
            i += 1;
        }
        let stats = LocalRegistryGraftStats {
            appended_topology_entries: span.last_path - span.root,
            durable_records: span.end_record - span.first_record,
            serialized_bytes: bytes,
            overflowed,
        };
        proof {
            let graft = Graft {
                span,
                destination: destination.ordinal,
                first_record: count,
                stats,
            };
            let entries = self.topology.entries@;
            let records = self.records@;
            paths_are_stable(before.topology.entries@, entries, destination.ordinal as int);
            assert forall|k: int| 0 <= k < span.last_path - span.root implies {
                &&& (#[trigger] entries[graft.destination + k]).segment@ == entries[span.root
                    + k].segment@
                &&& entries[graft.destination + k].parent.ordinal == entries[span.root
                    + k].parent.ordinal - span.root + graft.destination
            } by {
                assert(entries[start + k] == entries[graft.destination + k]);
                assert(entries[span.root + k] == before.topology.entries@[span.root + k]);
            }
            assert forall|k: int| 0 <= k < span.end_record - span.first_record implies
                #[trigger] records[graft.first_record + k] == moved(
                records[span.first_record + k],
                graft,
                root_resident,
            ) by {
                assert(records[count + k] == records[graft.first_record + k]);
                assert(records[span.first_record + k] == before.records@[span.first_record + k]);
            }
            let i = choose|i: int|
                span.first_record <= i < span.end_record && (
                #[trigger] before.records@[i]).path_id.ordinal == span.root
                    && before.records@[i].disk_ptr == expected_root;
            let k = i - span.first_record;
            assert(records[graft.first_record + k] == moved(
                before.records@[i],
                graft,
                root_resident,
            ));
            assert(records.subrange(span.first_record as int, span.end_record as int)
                =~= before.records@.subrange(span.first_record as int, span.end_record as int));
            assert(holds_graft(
                *self,
                graft,
                before.topology.path(destination),
                expected_root,
                root_resident,
            )) by {
                reveal(holds_graft);
            }
        }
        Ok(stats)
    }

    /// Closes the construction. Fails while a subtree is unfinished.
    pub fn try_finalize_for_publication(&self) -> (r: TrieResult<()>)
        ensures
            match r {
                Ok(()) => self.open@.len() == 0,
                Err(e) => self.open@.len() > 0 && e is InternalError,
            },
    {
        if self.open.len() > 0 {
            Err(PersistentARTrieError::internal("registry holds an unfinished subtree"))
        } else {
            Ok(())
        }
    }

    /// Turns every record into a candidate for eviction.
    pub fn into_batch(self, policy: CompactEvictionPolicy) -> (r: CompactEvictionBatch<U>)
        ensures
            r.topology == self.topology,
            r.policy == policy,
            r.candidates@.len() == self.records@.len(),
            forall|i: int|
                0 <= i < self.records@.len() ==> #[trigger] r.candidates@[i] == (
                CompactEvictionCandidate {
                    path_id: self.records@[i].path_id,
                    depth: self.records@[i].depth,
                    disk_ptr: self.records@[i].disk_ptr,
                }),
    {
        let mut candidates: Vec<CompactEvictionCandidate> = Vec::new();
        let mut i: usize = 0;
        while i < self.records.len()
            invariant
                i <= self.records@.len(),
                candidates@.len() == i,
                forall|k: int|
                    0 <= k < i ==> #[trigger] candidates@[k] == (CompactEvictionCandidate {
                        path_id: self.records@[k].path_id,
                        depth: self.records@[k].depth,
                        disk_ptr: self.records@[k].disk_ptr,
                    }),
            decreases self.records@.len() - i,
        {
            let record = self.records[i];
            candidates.push(
                CompactEvictionCandidate {
                    path_id: record.path_id,
                    depth: record.depth,
                    disk_ptr: record.disk_ptr,
                },
            );
            i += 1;
        }
        CompactEvictionBatch { candidates, topology: self.topology, policy }
    }
}

/// A copy of a vector of units.
pub fn copy_units<U: Copy>(units: &Vec<U>) -> (r: Vec<U>)
    ensures
        r@ == units@,
{
    let mut r: Vec<U> = Vec::with_capacity(units.len());
    let mut i: usize = 0;
    while i < units.len()
        invariant
            i <= units@.len(),
            r@ == units@.take(i as int),
        decreases units@.len() - i,
    {
        r.push(units[i]);
        i += 1;
        assert(units@.take(i as int) =~= units@.take(i - 1).push(units@[i - 1]));
    }
    assert(units@.take(i as int) =~= units@);
    r
}

} // verus!
