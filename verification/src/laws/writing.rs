//! The parts of writing a trie: chunks of chains, records, imports and counts.

use std::sync::Arc;
use vstd::prelude::*;
use crate::error::TrieResult;
use crate::eviction::RegistryPathId;
use crate::key_encoding::KeyEncoding;
use crate::overlay::atomic_ptr::RootRevision;
use crate::overlay::graph_policy::{ArborescentProduction, DagAware};
use crate::overlay::node::OverlayNode;
use crate::overlay::serialize_build::{
    record_address, CompletedOnDiskImport, OnDiskImportStats, OverlaySerializationBuild,
    PreparedRegistryPublication, RegistryStructuralSource,
};
use crate::overlay::serialize_chain::{
    chain_chunk_bounds, chain_chunk_count, chain_chunk_width, chunk_total, lemma_chunk_index,
};
use crate::overlay::serialize_sink::{
    project_chunk, project_node, OverlayCompressedSerialize, ProjectedNode, RecordArena,
};
use crate::registry::{DiskLocationRegistry, LocalRegistryGraftStats};
use crate::swizzled_ptr::{DiskLocation, SwizzledPtr};
use crate::value::DictionaryValue;

verus! {

/// A chunk has bounds exactly if its index is below the number of chunks. The first chunk
/// begins where the chain does, each other one where the one before it ends, and the last
/// ends where the chain does. None is empty or wider than the width.
pub proof fn chunks_cover_a_chain(
    units: usize,
    width: usize,
    count: usize,
    i: usize,
    bounds: TrieResult<(usize, usize)>,
    next: TrieResult<(usize, usize)>,
)
    requires
        i < usize::MAX,
        call_ensures(chain_chunk_count, (units, width), Ok(count)),
        call_ensures(chain_chunk_bounds, (units, width, i), bounds),
        call_ensures(chain_chunk_bounds, (units, width, (i + 1) as usize), next),
    ensures
        bounds is Ok <==> i < count,
        next is Ok <==> i + 1 < count,
        bounds matches Ok((start, end)) ==> {
            &&& start < end <= units
            &&& end - start <= width
            &&& i == 0 ==> start == 0
            &&& i + 1 == count ==> end == units
            &&& i + 1 < count ==> end - start == width
            &&& next matches Ok((s, _)) ==> s == end
        },
        count == 0 <==> units == 0,
{
    let (n, w) = (units as int, width as int);
    let total = chunk_total(n, w);
    crate::overlay::serialize_frame::lemma_chunk_total(n, w);
    assert((i + 1) * w == i * w + w) by (nonlinear_arith);
    if i <= total {
        lemma_chunk_index(n, w, i as int);
    } else {
        lemma_chunk_index(n, w, total);
        assert(i * w >= total * w) by (nonlinear_arith)
            requires
                i >= total,
                w > 0,
        ;
    }
    if i + 1 <= total {
        lemma_chunk_index(n, w, i + 1);
    } else {
        lemma_chunk_index(n, w, total);
        assert((i + 1) * w >= total * w) by (nonlinear_arith)
            requires
                i + 1 >= total,
                w > 0,
        ;
    }
    if i == 0 {
        assert(0 * w == 0);
    }
    if units == 0 {
        assert(0int / w == 0 && 0int % w == 0) by (nonlinear_arith)
            requires
                w > 0,
        ;
    }
}

/// Chunks cannot be counted exactly if they have no width, and a record carries one unit
/// more than its prefix.
pub proof fn chunks_have_a_width<K: KeyEncoding>(
    units: usize,
    width: usize,
    count: TrieResult<usize>,
    of_record: TrieResult<usize>,
    limit: usize,
)
    requires
        call_ensures(chain_chunk_count, (units, width), count),
        call_ensures(chain_chunk_width::<K>, (), of_record),
        call_ensures(K::prefix_limit, (), limit),
    ensures
        count is Ok <==> width > 0,
        of_record is Ok <==> limit < usize::MAX,
        of_record matches Ok(w) ==> w == limit + 1,
{
}

/// The address of a record tells its block and offset, and does not tell its layout.
pub proof fn an_address_tells_block_and_offset(a: DiskLocation, b: DiskLocation, x: u64, y: u64)
    requires
        call_ensures(record_address, (a,), x),
        call_ensures(record_address, (b,), y),
    ensures
        x == y <==> a.block_id == b.block_id && a.offset == b.offset,
        a.block_id == b.block_id && a.offset <= b.offset ==> y - x == b.offset - a.offset,
        a.block_id < b.block_id ==> x < y,
{
}

/// An import that was memoized for an address is found under it and can be memoized there
/// only once; every other address has what it had, and making room changes nothing.
pub proof fn an_import_is_memoized_once<K: KeyEncoding, V: DictionaryValue, P>(
    build: &mut OverlaySerializationBuild<K, V, P>,
    roomy: &mut OverlaySerializationBuild<K, V, P>,
    before: OverlaySerializationBuild<K, V, P>,
    after: OverlaySerializationBuild<K, V, P>,
    roomy_after: OverlaySerializationBuild<K, V, P>,
    address: u64,
    import: CompletedOnDiskImport,
    result: TrieResult<()>,
    room: TrieResult<()>,
    was: Option<CompletedOnDiskImport>,
    probe: u64,
    found: Option<CompletedOnDiskImport>,
    now_found: Option<CompletedOnDiskImport>,
    roomy_found: Option<CompletedOnDiskImport>,
)
    requires
        *build == before,
        *roomy == before,
        *final(build) == after,
        *final(roomy) == roomy_after,
        call_ensures(
            OverlaySerializationBuild::<K, V, P>::memoize_on_disk_import,
            (build, address, import),
            result,
        ),
        call_ensures(
            OverlaySerializationBuild::<K, V, P>::try_reserve_on_disk_import,
            (roomy, address),
            room,
        ),
        call_ensures(
            OverlaySerializationBuild::<K, V, P>::on_disk_import,
            (&before, address),
            was,
        ),
        call_ensures(
            OverlaySerializationBuild::<K, V, P>::on_disk_import,
            (&before, probe),
            found,
        ),
        call_ensures(
            OverlaySerializationBuild::<K, V, P>::on_disk_import,
            (&after, probe),
            now_found,
        ),
        call_ensures(
            OverlaySerializationBuild::<K, V, P>::on_disk_import,
            (&roomy_after, probe),
            roomy_found,
        ),
    ensures
        result is Ok <==> was is None,
        was is Some ==> room is Err,
        now_found == if probe == address && was is None {
            Some(import)
        } else {
            found
        },
        roomy_found == found,
        after.on_disk_import_stats == before.on_disk_import_stats,
        after.deferred_stamps == before.deferred_stamps,
        after.registry == before.registry,
{
}

/// One more, up to the largest machine word.
pub open spec fn counted_up(now: usize, before: usize, by: usize) -> bool {
    if before + by <= usize::MAX {
        now == before + by
    } else {
        now == usize::MAX
    }
}

/// A lookup counts as one lookup, an import as one import, and a copy as one copy with all
/// that it added; nothing else changes. An overflow is taken note of exactly if a count
/// had to stop, and never forgotten.
pub proof fn observations_are_counted<K: KeyEncoding, V: DictionaryValue, P>(
    looked: &mut OverlaySerializationBuild<K, V, P>,
    imported: &mut OverlaySerializationBuild<K, V, P>,
    copied: &mut OverlaySerializationBuild<K, V, P>,
    before: OverlaySerializationBuild<K, V, P>,
    looked_after: OverlaySerializationBuild<K, V, P>,
    imported_after: OverlaySerializationBuild<K, V, P>,
    copied_after: OverlaySerializationBuild<K, V, P>,
    graft: LocalRegistryGraftStats,
)
    requires
        *looked == before,
        *imported == before,
        *copied == before,
        *final(looked) == looked_after,
        *final(imported) == imported_after,
        *final(copied) == copied_after,
        call_ensures(
            OverlaySerializationBuild::<K, V, P>::record_on_disk_lookup,
            (looked,),
            (),
        ),
        call_ensures(
            OverlaySerializationBuild::<K, V, P>::record_source_import,
            (imported,),
            (),
        ),
        call_ensures(
            OverlaySerializationBuild::<K, V, P>::record_local_graft,
            (copied, graft),
            (),
        ),
    ensures
        ({
            let x = before.on_disk_import_stats;
            let l = looked_after.on_disk_import_stats;
            let s = imported_after.on_disk_import_stats;
            let g = copied_after.on_disk_import_stats;
            &&& counted_up(l.lookups, x.lookups, 1)
            &&& l.overflowed <==> x.overflowed || x.lookups == usize::MAX
            &&& l == (OnDiskImportStats { lookups: l.lookups, overflowed: l.overflowed, ..x })
            &&& counted_up(s.source_imports, x.source_imports, 1)
            &&& s.overflowed <==> x.overflowed || x.source_imports == usize::MAX
            &&& s == (OnDiskImportStats {
                source_imports: s.source_imports,
                overflowed: s.overflowed,
                ..x
            })
            &&& counted_up(g.local_grafts, x.local_grafts, 1)
            &&& counted_up(
                g.local_graft_topology_entries,
                x.local_graft_topology_entries,
                graft.appended_topology_entries,
            )
            &&& counted_up(
                g.local_graft_durable_records,
                x.local_graft_durable_records,
                graft.durable_records,
            )
            &&& counted_up(
                g.local_graft_serialized_bytes,
                x.local_graft_serialized_bytes,
                graft.serialized_bytes,
            )
            &&& g.lookups == x.lookups && g.source_imports == x.source_imports
            &&& g.overflowed <==> {
                ||| x.overflowed
                ||| graft.overflowed
                ||| x.local_grafts == usize::MAX
                ||| x.local_graft_topology_entries + graft.appended_topology_entries > usize::MAX
                ||| x.local_graft_durable_records + graft.durable_records > usize::MAX
                ||| x.local_graft_serialized_bytes + graft.serialized_bytes > usize::MAX
            }
        }),
        looked_after.on_disk_imports == before.on_disk_imports,
        imported_after.on_disk_imports == before.on_disk_imports,
        copied_after.on_disk_imports == before.on_disk_imports,
        looked_after.registry == before.registry,
        imported_after.registry == before.registry,
        copied_after.registry == before.registry,
{
}

/// A stamp is put off exactly by a build that makes stamps, behind those before it.
pub proof fn stamps_are_put_off_in_order<K: KeyEncoding, V: DictionaryValue, P>(
    build: &mut OverlaySerializationBuild<K, V, P>,
    before: OverlaySerializationBuild<K, V, P>,
    after: OverlaySerializationBuild<K, V, P>,
    node: &Arc<OverlayNode<K, V>>,
    raw: u64,
    result: TrieResult<()>,
    enabled: bool,
)
    requires
        *build == before,
        *final(build) == after,
        call_ensures(OverlaySerializationBuild::<K, V, P>::defer_stamp, (build, node, raw), result),
        call_ensures(OverlaySerializationBuild::<K, V, P>::is_enabled, (&before,), enabled),
    ensures
        result is Ok && enabled ==> after.deferred_stamps@.len() == before.deferred_stamps@.len()
            + 1 && after.deferred_stamps@.drop_last() == before.deferred_stamps@
            && after.deferred_stamps@.last().node == *node && after.deferred_stamps@.last().raw
            == raw,
        !enabled ==> result is Ok,
        result is Err || !enabled ==> after.deferred_stamps@ == before.deferred_stamps@,
{
    if result is Ok && enabled {
        assert(after.deferred_stamps@.drop_last() =~= before.deferred_stamps@);
    }
}

/// A build for production has a registry and makes stamps, or neither; one for analysis
/// has a registry and makes none. Each begins with nothing found, counted or put off.
pub proof fn builds_are_made_as_named<K: KeyEncoding, V: DictionaryValue>(
    source: Option<RegistryStructuralSource<K::Unit>>,
    registry: DiskLocationRegistry<K::Unit>,
    plain: OverlaySerializationBuild<K, V, ArborescentProduction>,
    evicting: OverlaySerializationBuild<K, V, ArborescentProduction>,
    dag: OverlaySerializationBuild<K, V, DagAware<K, V>>,
    analysis: OverlaySerializationBuild<K, V, DagAware<K, V>>,
)
    requires
        call_ensures(
            OverlaySerializationBuild::<K, V, ArborescentProduction>::production_disabled,
            (),
            plain,
        ),
        call_ensures(
            OverlaySerializationBuild::<K, V, ArborescentProduction>::production_with_eviction,
            (source,),
            evicting,
        ),
        call_ensures(
            OverlaySerializationBuild::<K, V, DagAware<K, V>>::dag_disabled,
            (),
            dag,
        ),
        call_ensures(
            OverlaySerializationBuild::<K, V, DagAware<K, V>>::analysis,
            (registry,),
            analysis,
        ),
    ensures
        made_as(plain, false, false),
        made_as(evicting, true, true),
        made_as(dag, false, false),
        made_as(analysis, false, true),
        analysis.registry == registry,
        evicting.structural_source == source,
{
}

/// A build makes stamps or not, has a registry or not, and has not begun.
pub open spec fn made_as<K: KeyEncoding, V: DictionaryValue, P>(
    build: OverlaySerializationBuild<K, V, P>,
    stamps: bool,
    registry: bool,
) -> bool {
    &&& forall|r: bool|
        call_ensures(OverlaySerializationBuild::<K, V, P>::is_enabled, (&build,), r) ==> r == stamps
    &&& forall|r: bool|
        call_ensures(OverlaySerializationBuild::<K, V, P>::has_registry, (&build,), r) ==> r
            == registry
    &&& forall|address: u64, r: Option<CompletedOnDiskImport>| #[trigger]
        call_ensures(
            OverlaySerializationBuild::<K, V, P>::on_disk_import,
            (&build, address),
            r,
        ) ==> r is None
    &&& build.deferred_stamps@.len() == 0
    &&& build.on_disk_import_stats.lookups == 0
    &&& build.on_disk_import_stats.source_imports == 0
    &&& build.on_disk_import_stats.local_grafts == 0
    &&& build.on_disk_import_stats.local_graft_topology_entries == 0
    &&& build.on_disk_import_stats.local_graft_durable_records == 0
    &&& build.on_disk_import_stats.local_graft_serialized_bytes == 0
    &&& !build.on_disk_import_stats.overflowed
}

/// A build that makes stamps becomes a publication of the captured root, with its registry
/// and its stamps, exactly if its registry is complete; one without a registry becomes
/// none; one for analysis cannot, and is the only one whose registry can be had.
pub proof fn a_build_becomes_what_it_was_for<K: KeyEncoding, V: DictionaryValue, P>(
    build: OverlaySerializationBuild<K, V, P>,
    root: RootRevision<K, V>,
    finished: TrieResult<Option<PreparedRegistryPublication<K, V>>>,
    registry: TrieResult<DiskLocationRegistry<K::Unit>>,
    stamps: bool,
    registers: bool,
    complete: TrieResult<()>,
)
    requires
        call_ensures(
            OverlaySerializationBuild::<K, V, P>::finish,
            (build, &root),
            finished,
        ),
        call_ensures(
            OverlaySerializationBuild::<K, V, P>::into_analysis_registry,
            (build,),
            registry,
        ),
        call_ensures(OverlaySerializationBuild::<K, V, P>::is_enabled, (&build,), stamps),
        call_ensures(OverlaySerializationBuild::<K, V, P>::has_registry, (&build,), registers),
        call_ensures(
            DiskLocationRegistry::<K::Unit>::try_finalize_for_publication,
            (&build.registry,),
            complete,
        ),
    ensures
        stamps ==> registers,
        finished is Ok <==> !registers || (stamps && complete is Ok),
        !registers ==> finished is Ok && finished->Ok_0 is None,
        stamps && finished is Ok ==> finished->Ok_0 is Some,
        finished matches Ok(Some(p)) ==> p.captured_root == root && p.registry == build.registry
            && p.deferred_stamps == build.deferred_stamps,
        registry is Ok <==> registers && !stamps && complete is Ok,
        registry matches Ok(r) ==> r == build.registry,
{
}

/// The record of a node has its finality and value, no prefix, and the children that were
/// given. The record of a part of a chain has the units of that part, all but the last as
/// its prefix and the last as the edge to its one child, and is no term.
pub proof fn a_record_holds_what_it_is_of<K: KeyEncoding, V: DictionaryValue>(
    node: OverlayNode<K, V>,
    children: Vec<(K::Unit, SwizzledPtr)>,
    whole: ProjectedNode<K::Unit, V>,
    is_final: bool,
    value: Option<V>,
    units: &Vec<K::Unit>,
    start: usize,
    end: usize,
    child: SwizzledPtr,
    part: ProjectedNode<K::Unit, V>,
)
    requires
        call_ensures(project_node::<K, V>, (&node, children), whole),
        call_ensures(OverlayNode::<K, V>::is_final, (&node,), is_final),
        call_ensures(OverlayNode::<K, V>::get_value, (&node,), value),
        start < end <= units@.len(),
        call_ensures(project_chunk::<K::Unit, V>, (units, start, end, child), part),
    ensures
        whole.prefix@.len() == 0,
        whole.is_final == is_final,
        whole.value == value,
        whole.children@ == children@,
        !part.is_final,
        part.value is None,
        part.children@.len() == 1,
        part.children@[0].1 == child,
        part.prefix@.push(part.children@[0].0) == units@.subrange(start as int, end as int),
{
    assert(whole@.prefix =~= whole.prefix@);
    assert(part@.kids =~= part.children@);
    assert(part@.prefix =~= part.prefix@);
    let chunk = units@.subrange(start as int, end as int);
    assert(part.prefix@.push(part.children@[0].0) =~= chunk);
}

/// A record that is written to memory gets a pointer of its own, behind those before it,
/// and is kept as it is; a full memory refuses it and stays as it was.
pub proof fn a_record_is_written_once<K: KeyEncoding, V: DictionaryValue>(
    arena: &mut RecordArena<K, V>,
    before: RecordArena<K, V>,
    after: RecordArena<K, V>,
    record: ProjectedNode<K::Unit, V>,
    path: &[K::Unit],
    result: TrieResult<SwizzledPtr>,
    place: Option<DiskLocation>,
)
    requires
        *arena == before,
        *final(arena) == after,
        record@.prefix.len() <= K::max_prefix_len(),
        call_ensures(
            RecordArena::<K, V>::serialize_projected_node,
            (arena, record, path),
            result,
        ),
        result matches Ok(ptr) ==> call_ensures(SwizzledPtr::disk_location, (&ptr,), place),
    ensures
        result is Ok <==> before.records@.len() < u32::MAX,
        result is Ok ==> after.records@ == before.records@.push(record) && place is Some
            && place->0.offset == before.records@.len() + 1,
        result is Err ==> after.records@ == before.records@,
        after.durable_import_reads == before.durable_import_reads,
{
}

/// A record in memory is registered with the size for written records, if there is one, at
/// its path and depth, as resident; records that are taken over are registered with the
/// size for imports, and resident ones are declined where they are not to be reused. Every
/// record that is not declined counts as one that was read.
pub proof fn records_are_registered_as_they_came<K: KeyEncoding, V: DictionaryValue>(
    written: &mut RecordArena<K, V>,
    written_registry: &mut DiskLocationRegistry<K::Unit>,
    taken: &mut RecordArena<K, V>,
    taken_registry: &mut DiskLocationRegistry<K::Unit>,
    arena: RecordArena<K, V>,
    registry: DiskLocationRegistry<K::Unit>,
    written_after: DiskLocationRegistry<K::Unit>,
    taken_after: DiskLocationRegistry<K::Unit>,
    read: RecordArena<K, V>,
    ptr: SwizzledPtr,
    path: &[K::Unit],
    id: RegistryPathId,
    source: Option<&RegistryStructuralSource<K::Unit>>,
    resident: bool,
    register: TrieResult<()>,
    take: TrieResult<bool>,
    place: Option<DiskLocation>,
)
    requires
        *written == arena,
        *taken == arena,
        *final(taken) == read,
        *written_registry == registry,
        *taken_registry == registry,
        *final(written_registry) == written_after,
        *final(taken_registry) == taken_after,
        registry.wf(),
        0 < id.ordinal <= registry.topology.entries@.len(),
        registry.topology.path(id) == path@,
        call_ensures(
            RecordArena::<K, V>::register_projected_node,
            (written, ptr, path, id, written_registry),
            register,
        ),
        call_ensures(
            RecordArena::<K, V>::try_reuse_durable_subtree,
            (taken, &ptr, path, id, taken_registry, source, resident),
            take,
        ),
        call_ensures(SwizzledPtr::disk_location, (&ptr,), place),
    ensures
        register is Ok,
        arena.written_size is None ==> written_after.records@ == registry.records@,
        arena.written_size matches Some(size) ==> {
            &&& written_after.records@.len() == registry.records@.len() + 1
            &&& written_after.records@.last().path_id == id
            &&& written_after.records@.last().disk_ptr == ptr
            &&& written_after.records@.last().size_bytes == size
            &&& written_after.records@.last().depth == path@.len()
            &&& written_after.records@.last().resident
        },
        take == Ok::<bool, crate::error::PersistentARTrieError>(false) <==> resident
            && !arena.reuse_resident,
        take is Err <==> !(resident && !arena.reuse_resident) && place is None,
        take == Ok::<bool, crate::error::PersistentARTrieError>(true) ==> {
            &&& taken_after.records@.len() == registry.records@.len() + 1
            &&& taken_after.records@.last().path_id == id
            &&& taken_after.records@.last().disk_ptr == ptr
            &&& taken_after.records@.last().size_bytes == arena.import_size
            &&& taken_after.records@.last().depth == path@.len()
            &&& taken_after.records@.last().node_type == place->0.node_type
            &&& taken_after.records@.last().resident == resident
        },
        take == Ok::<bool, crate::error::PersistentARTrieError>(false) ==> taken_after.records@
            == registry.records@ && read.durable_import_reads == arena.durable_import_reads,
        take != Ok::<bool, crate::error::PersistentARTrieError>(false)
            && arena.durable_import_reads < usize::MAX ==> read.durable_import_reads
            == arena.durable_import_reads + 1,
{
    assert(path.len() == path@.len());
}

} // verus!
