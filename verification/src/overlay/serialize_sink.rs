//! Where records go: the seam between the serializer and a record format, and an
//! arena in memory.

use vstd::prelude::*;
use crate::error::{PersistentARTrieError, TrieResult};
use crate::eviction::RegistryPathId;
use crate::key_encoding::KeyEncoding;
use crate::registry::{paths_extend, records_extend, DiskLocationRegistry, RegistryRecord};
use crate::swizzled_ptr::{DiskLocation, NodeType, SwizzledPtr};
use crate::value::DictionaryValue;
use super::node::OverlayNode;
use super::serialize_build::RegistryStructuralSource;
use super::serialize_registrations::Asked;
use super::serialize_trace::Log;
use super::serialize_model::{chunk_record, RecordView, Store};

verus! {

/// What one record is to hold.
pub struct ProjectedNode<U, V> {
    pub prefix: Vec<U>,
    pub is_final: bool,
    pub value: Option<V>,
    pub children: Vec<(U, SwizzledPtr)>,
}

impl<U, V> View for ProjectedNode<U, V> {
    type V = RecordView<U, V>;

    open spec fn view(&self) -> RecordView<U, V> {
        RecordView {
            prefix: self.prefix@,
            is_final: self.is_final,
            value: self.value,
            kids: self.children@,
        }
    }
}

/// The record of a node without a prefix: its finality and value, and where its
/// children are.
pub fn project_node<K: KeyEncoding, V: DictionaryValue>(
    node: &OverlayNode<K, V>,
    child_disk_ptrs: Vec<(K::Unit, SwizzledPtr)>,
) -> (r: ProjectedNode<K::Unit, V>)
    ensures
        r@ == (RecordView {
            prefix: Seq::empty(),
            is_final: node@.is_final,
            value: node@.value,
            kids: child_disk_ptrs@,
        }),
{
    let r = ProjectedNode {
        prefix: Vec::new(),
        is_final: node.is_final(),
        value: node.get_value(),
        children: child_disk_ptrs,
    };
    assert(r@.prefix =~= Seq::empty());
    r
}

/// The record of a part of a chain: the edges but the last are its prefix, and the
/// last leads to `child`.
pub fn project_chunk<U: Copy, V>(units: &Vec<U>, start: usize, end: usize, child: SwizzledPtr) -> (r:
    ProjectedNode<U, V>)
    requires
        start < end <= units@.len(),
    ensures
        r@ == chunk_record::<U, V>(units@.subrange(start as int, end as int), child),
        r@.prefix.len() == end - start - 1,
{
    let mut prefix: Vec<U> = Vec::new();
    let mut i: usize = start;
    while i + 1 < end
        invariant
            start <= i < end <= units@.len(),
            prefix@ == units@.subrange(start as int, i as int),
        decreases end - i,
    {
        prefix.push(units[i]);
        assert(units@.subrange(start as int, i + 1) =~= units@.subrange(
            start as int,
            i as int,
        ).push(units@[i as int]));
        i += 1;
    }
    let mut children: Vec<(U, SwizzledPtr)> = Vec::new();
    children.push((units[i], child));
    let r = ProjectedNode { prefix, is_final: false, value: None, children };
    proof {
        let chunk = units@.subrange(start as int, end as int);
        assert(chunk.drop_last() =~= units@.subrange(start as int, i as int));
        assert(chunk.last() == units@[i as int]);
        assert(r@.kids =~= seq![(chunk.last(), child)]);
    }
    r
}

/// What a record format does for the serializer.
pub trait OverlayCompressedSerialize<K: KeyEncoding, V: DictionaryValue>: Sized {
    /// The records. A format that does not say holds some records.
    open spec fn store(&self) -> Store<K::Unit, V> {
        arbitrary()
    }

    /// The records that were written, in order, with their pointers and paths.
    open spec fn log(&self) -> Log<K::Unit, V> {
        arbitrary()
    }

    /// The records that were asked to be registered, in order, with their paths.
    open spec fn asked(&self) -> Asked<K::Unit> {
        arbitrary()
    }

    /// The errors that the format may give.
    open spec fn reports(e: PersistentARTrieError) -> bool {
        true
    }

    /// The format may place a record there, after what was written before it.
    open spec fn places(
        log: Log<K::Unit, V>,
        record: RecordView<K::Unit, V>,
        path: Seq<K::Unit>,
        ptr: SwizzledPtr,
    ) -> bool {
        true
    }

    /// The format may take the records from a pointer on over, at a path and with a
    /// source to look them up in.
    open spec fn takes(
        ptr: SwizzledPtr,
        path: Seq<K::Unit>,
        root_resident: bool,
        source: Option<RegistryStructuralSource<K::Unit>>,
    ) -> bool {
        true
    }

    /// The format may say that a record cannot be taken over.
    open spec fn declines(ptr: SwizzledPtr, root_resident: bool) -> bool {
        true
    }

    /// Writes one record.
    fn serialize_projected_node(
        &mut self,
        projected: ProjectedNode<K::Unit, V>,
        path: &[K::Unit],
    ) -> (r: TrieResult<SwizzledPtr>)
        requires
            projected@.prefix.len() <= K::max_prefix_len(),
        ensures
            match r {
                Ok(ptr) => {
                    &&& ptr.location() is Some
                    &&& !old(self).store().dom().contains(ptr)
                    &&& final(self).store() == old(self).store().insert(ptr, projected@)
                    &&& final(self).log() == old(self).log().push((ptr, projected@, path@))
                    &&& Self::places(old(self).log(), projected@, path@, ptr)
                },
                Err(e) => {
                    &&& final(self).store() == old(self).store()
                    &&& final(self).log() == old(self).log()
                    &&& Self::reports(e)
                },
            },
            final(self).asked() == old(self).asked(),
    ;

    /// Registers a record that was just written at its path, or does nothing.
    fn register_projected_node(
        &mut self,
        ptr: SwizzledPtr,
        path: &[K::Unit],
        registry_path: RegistryPathId,
        registry: &mut DiskLocationRegistry<K::Unit>,
    ) -> (r: TrieResult<()>)
        requires
            old(registry).wf(),
            0 < registry_path.ordinal <= old(registry).topology.entries@.len(),
            old(registry).topology.path(registry_path) == path@,
        ensures
            final(self).store() == old(self).store(),
            final(self).log() == old(self).log(),
            final(registry).wf(),
            final(registry).topology == old(registry).topology,
            final(registry).open@ == old(registry).open@,
            final(registry).records@ == old(registry).records@ || (final(registry).records@.len()
                == old(registry).records@.len() + 1 && final(registry).records@.drop_last()
                == old(registry).records@ && final(registry).records@.last().path_id
                == registry_path && final(registry).records@.last().disk_ptr == ptr),
            r is Ok ==> final(self).asked() == old(self).asked().push((ptr, path@)),
            r matches Err(e) ==> Self::reports(e),
    ;

    /// Registers the records from `ptr` on at a path without writing anything, or
    /// says that this cannot be done.
    fn try_reuse_durable_subtree(
        &mut self,
        ptr: &SwizzledPtr,
        path: &[K::Unit],
        registry_path: RegistryPathId,
        registry: &mut DiskLocationRegistry<K::Unit>,
        structural_source: Option<&RegistryStructuralSource<K::Unit>>,
        root_resident: bool,
    ) -> (r: TrieResult<bool>)
        requires
            old(registry).wf(),
            0 < registry_path.ordinal <= old(registry).topology.entries@.len(),
            old(registry).topology.path(registry_path) == path@,
        ensures
            final(self).store() == old(self).store(),
            final(self).log() == old(self).log(),
            final(self).asked() == old(self).asked(),
            final(registry).wf(),
            paths_extend(old(registry).topology.entries@, final(registry).topology.entries@),
            final(registry).open@ == old(registry).open@,
            r == Ok::<bool, PersistentARTrieError>(false) ==> *final(registry) == *old(registry)
                && Self::declines(*ptr, root_resident),
            r == Ok::<bool, PersistentARTrieError>(true) ==> Self::takes(
                *ptr,
                path@,
                root_resident,
                match structural_source {
                    Some(source) => Some(*source),
                    None => None,
                },
            ) && exists|i: int|
                0 <= i < final(registry).records@.len() && (
                #[trigger] final(registry).records@[i]).path_id == registry_path
                    && final(registry).records@[i].disk_ptr == *ptr
                    && final(registry).records@[i].resident == root_resident,
            records_extend(old(registry).records@, final(registry).records@),
            r matches Err(e) ==> Self::reports(e),
    ;
}

/// Records in memory. The first record lies at offset 1 of block 1, the others
/// follow.
pub struct RecordArena<K: KeyEncoding, V> {
    pub records: Vec<ProjectedNode<K::Unit, V>>,
    /// The size under which records are registered when they are written; without
    /// one they are not registered.
    pub written_size: Option<usize>,
    /// The size under which durable records are imported.
    pub import_size: usize,
    /// Whether stamped resident nodes are taken over without being written again.
    pub reuse_resident: bool,
    /// How many durable records were imported, at most the largest machine word.
    pub durable_import_reads: usize,
    /// The records that were asked to be registered, in order, with their paths.
    pub asked: Ghost<Asked<K::Unit>>,
    /// The paths that records were written for, by their index.
    pub paths: Ghost<Map<int, Seq<K::Unit>>>,
}

/// Where the record with index `i` lies.
pub open spec fn arena_ptr(i: int) -> SwizzledPtr {
    SwizzledPtr {
        raw: SwizzledPtr::encoded(
            DiskLocation { block_id: 1, offset: (i + 1) as u32, node_type: NodeType::Node4 },
        ) as u64,
    }
}

impl<K: KeyEncoding, V: DictionaryValue> RecordArena<K, V> {
    /// A record with the given pointer exists.
    pub open spec fn holds(self, ptr: SwizzledPtr) -> bool {
        exists|i: int| 0 <= i < self.records@.len() && i < u32::MAX && #[trigger] arena_ptr(i) == ptr
    }

    /// The index of a record.
    pub open spec fn index_of(self, ptr: SwizzledPtr) -> int {
        choose|i: int| 0 <= i < self.records@.len() && i < u32::MAX && #[trigger] arena_ptr(i) == ptr
    }

    /// An arena without records.
    pub fn new(written_size: Option<usize>, import_size: usize, reuse_resident: bool) -> (r: Self)
        ensures
            r.records@.len() == 0,
            r.written_size == written_size,
            r.import_size == import_size,
            r.reuse_resident == reuse_resident,
            r.durable_import_reads == 0,
            r.asked@ == Seq::<(SwizzledPtr, Seq<K::Unit>)>::empty(),
    {
        RecordArena {
            records: Vec::new(),
            written_size,
            import_size,
            reuse_resident,
            durable_import_reads: 0,
            asked: Ghost(Seq::empty()),
            paths: Ghost(Map::empty()),
        }
    }
}

/// Offsets tell records apart.
proof fn lemma_arena_ptr(i: int, j: int)
    requires
        0 <= i < u32::MAX,
        0 <= j < u32::MAX,
        arena_ptr(i) == arena_ptr(j),
    ensures
        i == j,
{
}

impl<K: KeyEncoding, V: DictionaryValue> OverlayCompressedSerialize<K, V> for RecordArena<K, V> {
    open spec fn store(&self) -> Store<K::Unit, V> {
        Map::new(|ptr: SwizzledPtr| self.holds(ptr), |ptr: SwizzledPtr| self.records@[self.index_of(ptr)]@)
    }

    open spec fn log(&self) -> Log<K::Unit, V> {
        Seq::new(self.records@.len(), |i: int| (arena_ptr(i), self.records@[i]@, self.paths@[i]))
    }

    open spec fn asked(&self) -> Asked<K::Unit> {
        self.asked@
    }

    open spec fn reports(e: PersistentARTrieError) -> bool {
        e is IoFailed || e is CorruptedFile
    }

    open spec fn places(
        log: Log<K::Unit, V>,
        record: RecordView<K::Unit, V>,
        path: Seq<K::Unit>,
        ptr: SwizzledPtr,
    ) -> bool {
        ptr == arena_ptr(log.len() as int)
    }

    open spec fn takes(
        ptr: SwizzledPtr,
        path: Seq<K::Unit>,
        root_resident: bool,
        source: Option<RegistryStructuralSource<K::Unit>>,
    ) -> bool {
        ptr.location() is Some
    }

    open spec fn declines(ptr: SwizzledPtr, root_resident: bool) -> bool {
        root_resident
    }

    fn serialize_projected_node(
        &mut self,
        projected: ProjectedNode<K::Unit, V>,
        path: &[K::Unit],
    ) -> (r: TrieResult<SwizzledPtr>)
        ensures
            match r {
                Ok(ptr) => {
                    &&& old(self).records@.len() < u32::MAX
                    &&& ptr == arena_ptr(old(self).records@.len() as int)
                    &&& final(self).records@ == old(self).records@.push(projected)
                },
                Err(e) => {
                    &&& old(self).records@.len() >= u32::MAX
                    &&& e is IoFailed
                    &&& final(self).records@ == old(self).records@
                },
            },
            final(self).durable_import_reads == old(self).durable_import_reads,
    {
        if self.records.len() >= u32::MAX as usize {
            return Err(PersistentARTrieError::IoFailed { message: "arena is full".to_owned() });
        }
        let ghost before = *self;
        let ghost view = projected@;
        let offset: u32 = self.records.len() as u32 + 1;
        let ptr = SwizzledPtr::on_disk(1, offset, NodeType::Node4);
        self.records.push(projected);
        self.paths = Ghost(before.paths@.insert(before.records@.len() as int, path@));
        proof {
            let n = before.records@.len() as int;
            assert(ptr == arena_ptr(n));
            assert(self.log() =~= before.log().push((ptr, view, path@)));
            assert forall|p: SwizzledPtr| before.holds(p) implies p != ptr && self.holds(p)
                && self.records@[self.index_of(p)] == before.records@[before.index_of(p)] by {
                let i = before.index_of(p);
                lemma_arena_ptr(i, i);
                assert(arena_ptr(i) == p);
                if p == ptr {
                    lemma_arena_ptr(i, n);
                }
                let j = self.index_of(p);
                assert(arena_ptr(j) == p);
                lemma_arena_ptr(i, j);
            }
            assert(self.holds(ptr));
            let j = self.index_of(ptr);
            assert(arena_ptr(j) == ptr);
            lemma_arena_ptr(j, n);
            assert(self.store() =~= before.store().insert(ptr, view)) by {
                assert forall|p: SwizzledPtr| self.holds(p) implies before.holds(p) || p == ptr by {
                    let i = self.index_of(p);
                    assert(arena_ptr(i) == p);
                    if i < n {
                        assert(before.holds(p));
                    }
                }
            }
        }
        Ok(ptr)
    }

    fn register_projected_node(
        &mut self,
        ptr: SwizzledPtr,
        path: &[K::Unit],
        registry_path: RegistryPathId,
        registry: &mut DiskLocationRegistry<K::Unit>,
    ) -> (r: TrieResult<()>)
        ensures
            r is Ok,
            *final(self) == (RecordArena {
                asked: Ghost(old(self).asked@.push((ptr, path@))),
                ..*old(self)
            }),
            final(registry).records@ == match old(self).written_size {
                Some(size_bytes) => old(registry).records@.push(
                    RegistryRecord {
                        path_id: registry_path,
                        disk_ptr: ptr,
                        size_bytes,
                        depth: path@.len() as usize,
                        node_type: NodeType::Node4,
                        resident: true,
                    },
                ),
                None => old(registry).records@,
            },
    {
        let ghost start = *self;
        self.asked = Ghost(start.asked@.push((ptr, path@)));
        proof {
            assert(forall|p: SwizzledPtr| self.holds(p) == start.holds(p));
            assert(forall|p: SwizzledPtr| self.index_of(p) == start.index_of(p));
            assert(self.store() =~= start.store());
            assert(self.log() =~= start.log());
        }
        match self.written_size {
            Some(size_bytes) => {
                let ghost before = registry.records@;
                let r = registry.register_path(
                    registry_path,
                    ptr,
                    size_bytes,
                    path.len(),
                    NodeType::Node4,
                    true,
                );
                assert(registry.records@.drop_last() =~= before);
                r
            },
            None => Ok(()),
        }
    }

    fn try_reuse_durable_subtree(
        &mut self,
        ptr: &SwizzledPtr,
        path: &[K::Unit],
        registry_path: RegistryPathId,
        registry: &mut DiskLocationRegistry<K::Unit>,
        structural_source: Option<&RegistryStructuralSource<K::Unit>>,
        root_resident: bool,
    ) -> (r: TrieResult<bool>)
        ensures
            final(self).records@ == old(self).records@,
            final(self).durable_import_reads == (if (root_resident && !old(self).reuse_resident)
                || old(self).durable_import_reads == usize::MAX {
                old(self).durable_import_reads as int
            } else {
                old(self).durable_import_reads + 1
            }),
            match r {
                Ok(true) => {
                    &&& !root_resident || old(self).reuse_resident
                    &&& ptr.location() matches Some(location)
                        && final(registry).records@ == old(registry).records@.push(
                        RegistryRecord {
                            path_id: registry_path,
                            disk_ptr: *ptr,
                            size_bytes: old(self).import_size,
                            depth: path@.len() as usize,
                            node_type: location.node_type,
                            resident: root_resident,
                        },
                    )
                },
                Ok(false) => root_resident && !old(self).reuse_resident,
                Err(e) => {
                    &&& e is CorruptedFile
                    &&& !root_resident || old(self).reuse_resident
                    &&& ptr.location() is None
                },
            },
    {
        if root_resident && !self.reuse_resident {
            return Ok(false);
        }
        let ghost before = *self;
        if self.durable_import_reads < usize::MAX {
            self.durable_import_reads = self.durable_import_reads + 1;
        }
        proof {
            assert(forall|p: SwizzledPtr| self.holds(p) == before.holds(p));
            assert(forall|p: SwizzledPtr| self.index_of(p) == before.index_of(p));
            assert(self.store() =~= before.store());
        }
        let location = match ptr.disk_location() {
            Some(location) => location,
            None => {
                return Err(
                    PersistentARTrieError::corrupted(
                        "record arena received a malformed durable pointer",
                    ),
                );
            },
        };
        match registry.register_path(
            registry_path,
            *ptr,
            self.import_size,
            path.len(),
            location.node_type,
            root_resident,
        ) {
            Ok(()) => {
                assert(registry.records@[registry.records@.len() - 1].path_id == registry_path);
                Ok(true)
            },
            Err(e) => Err(e),
        }
    }
}

} // verus!
