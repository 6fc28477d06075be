//! Registries of durable records: what was registered is counted, and stands where it
//! was put.

use vstd::prelude::*;
use crate::error::{reserve_outcome, CollectionAllocationError, PersistentARTrieError, TrieResult};
use crate::eviction::{
    topology_path, CompactEvictionBatch, CompactEvictionPolicy, RegistryPathId, RegistryTopology,
};
use crate::registry::{
    copy_units, exact_size, paths_are_stable, paths_extend, resident_count, size_sum,
    DiskLocationRegistry, LocalRegistryGraftStats, RegistryBuilderSubtree,
    RegistryBuilderSubtreeStart, RegistryRecord,
};
use crate::swizzled_ptr::{NodeType, SwizzledPtr};

verus! {

/// What the observers of a registry count.
pub struct Counts {
    pub records: usize,
    pub empty: bool,
    pub bytes: usize,
    pub resident: usize,
}

/// The observers of a registry count this.
pub open spec fn counts<U: Copy>(registry: DiskLocationRegistry<U>, counts: Counts) -> bool {
    &&& call_ensures(DiskLocationRegistry::<U>::len, (&registry,), counts.records)
    &&& call_ensures(DiskLocationRegistry::<U>::is_empty, (&registry,), counts.empty)
    &&& call_ensures(DiskLocationRegistry::<U>::total_size_bytes, (&registry,), counts.bytes)
    &&& call_ensures(DiskLocationRegistry::<U>::resident_len, (&registry,), counts.resident)
}

/// A sum that stops at the largest machine word.
pub open spec fn up_to_max(sum: int) -> int {
    if sum > usize::MAX {
        usize::MAX as int
    } else {
        sum
    }
}

/// A registry that was just made counts nothing.
pub proof fn a_new_registry_counts_nothing<U: Copy>(registry: DiskLocationRegistry<U>, now: Counts)
    requires
        call_ensures(DiskLocationRegistry::<U>::new, (), registry),
        counts(registry, now),
    ensures
        now.records == 0,
        now.empty,
        now.bytes == 0,
        now.resident == 0,
{
}

/// As many records are counted as there are, and as many resident ones as there are among
/// them.
pub proof fn resident_records_are_counted<U: Copy>(registry: DiskLocationRegistry<U>, now: Counts)
    requires
        counts(registry, now),
    ensures
        now.records == registry.records@.len(),
        now.resident == registry.records@.filter(|r: RegistryRecord| r.resident).len(),
        now.empty <==> now.records == 0,
{
    lemma_resident(registry.records@);
}

/// The two ways of counting resident records agree.
proof fn lemma_resident(records: Seq<RegistryRecord>)
    ensures
        resident_count(records) == records.filter(|r: RegistryRecord| r.resident).len(),
    decreases records.len(),
{
    reveal(Seq::filter);
    if records.len() > 0 {
        lemma_resident(records.drop_last());
    }
}

/// A record that is registered at a path counts once, with its size, and among the
/// resident ones exactly if it is resident. It is refused exactly if there is no such
/// path, and then nothing changes.
pub proof fn a_registered_record_counts_once<U: Copy>(
    registry: &mut DiskLocationRegistry<U>,
    before: DiskLocationRegistry<U>,
    after: DiskLocationRegistry<U>,
    id: RegistryPathId,
    ptr: SwizzledPtr,
    size: usize,
    depth: usize,
    layout: NodeType,
    resident: bool,
    result: TrieResult<()>,
    was: Counts,
    now: Counts,
    paths: usize,
)
    requires
        before.wf(),
        *registry == before,
        *final(registry) == after,
        call_ensures(
            DiskLocationRegistry::<U>::register_path,
            (registry, id, ptr, size, depth, layout, resident),
            result,
        ),
        counts(before, was),
        counts(after, now),
        call_ensures(RegistryTopology::<U>::len, (&before.topology,), paths),
    ensures
        result is Ok <==> 0 < id.ordinal <= paths,
        result is Err ==> now == was,
        result is Ok ==> {
            &&& now.records == was.records + 1
            &&& !now.empty
            &&& now.bytes == up_to_max(was.bytes + size)
            &&& now.resident == was.resident + if resident {
                1int
            } else {
                0
            }
            &&& after.records@.last().path_id == id
            &&& after.records@.last().disk_ptr == ptr
            &&& after.records@.last().size_bytes == size
            &&& after.records@.last().depth == depth
            &&& after.records@.last().node_type == layout
        },
        after.topology == before.topology,
{
    if result is Ok {
        assert(after.records@.drop_last() =~= before.records@);
    }
}

/// A record that is registered at units from the root counts once, as a resident one, and
/// the units lead to it.
pub proof fn a_record_is_registered_at_its_units<U: Copy>(
    registry: &mut DiskLocationRegistry<U>,
    before: DiskLocationRegistry<U>,
    after: DiskLocationRegistry<U>,
    units: &[U],
    ptr: SwizzledPtr,
    size: usize,
    depth: usize,
    layout: NodeType,
    result: TrieResult<()>,
    was: Counts,
    now: Counts,
    found: Option<Vec<U>>,
)
    requires
        before.wf(),
        *registry == before,
        *final(registry) == after,
        before.topology.entries@.len() < usize::MAX,
        call_ensures(
            DiskLocationRegistry::<U>::register,
            (registry, units, ptr, size, depth, layout),
            result,
        ),
        counts(before, was),
        counts(after, now),
        call_ensures(
            RegistryTopology::<U>::materialize,
            (&after.topology, after.records@.last().path_id),
            found,
        ),
    ensures
        result is Ok,
        now.records == was.records + 1,
        !now.empty,
        now.bytes == up_to_max(was.bytes + size),
        now.resident == was.resident + 1,
        found is Some && found->0@ == units@,
        after.records@.last().disk_ptr == ptr,
        after.records@.last().depth == depth,
        after.records@.last().node_type == layout,
{
    assert(after.records@.drop_last() =~= before.records@);
}

/// A path that is registered below another leads where the other does and on by its
/// units; every path that was there leads where it did. A path is refused exactly if the
/// other is not there, and then nothing changes.
pub proof fn a_path_leads_on_from_its_parent<U: Copy>(
    topology: &mut RegistryTopology<U>,
    before: RegistryTopology<U>,
    after: RegistryTopology<U>,
    parent: RegistryPathId,
    segment: Vec<U>,
    id: Option<RegistryPathId>,
    way: Option<Vec<U>>,
    whole: Option<Vec<U>>,
    other: RegistryPathId,
    other_was: Option<Vec<U>>,
    other_is: Option<Vec<U>>,
)
    requires
        before.wf(),
        before.entries@.len() < usize::MAX,
        *topology == before,
        *final(topology) == after,
        call_ensures(RegistryTopology::<U>::reserve, (topology, parent, segment), id),
        call_ensures(RegistryTopology::<U>::materialize, (&before, parent), way),
        id matches Some(i) ==> call_ensures(RegistryTopology::<U>::materialize, (&after, i), whole),
        call_ensures(RegistryTopology::<U>::materialize, (&before, other), other_was),
        call_ensures(RegistryTopology::<U>::materialize, (&after, other), other_is),
    ensures
        id is Some <==> way is Some,
        id is Some ==> whole is Some && whole->0@ == way->0@ + segment@,
        id is None ==> after == before,
        other_was is Some ==> other_is is Some && other_is->0@ == other_was->0@,
        forall|n: usize, m: usize|
            #[trigger] call_ensures(RegistryTopology::<U>::len, (&before,), n)
                && #[trigger] call_ensures(RegistryTopology::<U>::len, (&after,), m) ==> m == n
                + if id is Some {
                1int
            } else {
                0
            },
        id matches Some(i) ==> forall|p: Option<RegistryPathId>, s: Option<&Vec<U>>|
            #[trigger] call_ensures(RegistryTopology::<U>::parent, (&after, i), p)
                && #[trigger] call_ensures(RegistryTopology::<U>::segment, (&after, i), s) ==> p
                == Some(parent) && s is Some && s->0@ == segment@,
{
}

/// The root leads nowhere and has neither parent nor units; any other path leads where
/// its parent does and on by its units.
pub proof fn a_path_is_its_parents_and_its_units<U: Copy>(
    topology: RegistryTopology<U>,
    id: RegistryPathId,
    parent: Option<RegistryPathId>,
    segment: Option<&Vec<U>>,
    whole: Option<Vec<U>>,
    way: Option<Vec<U>>,
    root: RegistryPathId,
    index: Option<usize>,
    nowhere: Option<Vec<U>>,
    paths: usize,
)
    requires
        topology.wf(),
        call_ensures(RegistryTopology::<U>::parent, (&topology, id), parent),
        call_ensures(RegistryTopology::<U>::segment, (&topology, id), segment),
        call_ensures(RegistryTopology::<U>::materialize, (&topology, id), whole),
        parent matches Some(p) ==> call_ensures(
            RegistryTopology::<U>::materialize,
            (&topology, p),
            way,
        ),
        call_ensures(RegistryPathId::root, (), root),
        call_ensures(RegistryPathId::index, (&id,), index),
        call_ensures(RegistryTopology::<U>::materialize, (&topology, root), nowhere),
        call_ensures(RegistryTopology::<U>::len, (&topology,), paths),
    ensures
        nowhere is Some && nowhere->0@.len() == 0,
        id == root <==> index is None,
        parent is Some <==> index is Some && index->0 < paths,
        segment is Some <==> parent is Some,
        whole is Some <==> id == root || parent is Some,
        parent is Some ==> way is Some && whole->0@ == way->0@ + segment->0@,
        parent matches Some(p) ==> p.ordinal < id.ordinal,
{
    if parent is Some {
        assert(topology.entries@[id.ordinal - 1].parent.ordinal <= id.ordinal - 1);
    }
}

/// A subtree begins only at the path that was registered last, ends only if it was begun
/// last, and then holds the paths and records that were registered meanwhile. One to
/// which nothing was added can be taken back. Nothing of this changes paths or records,
/// and a registry is complete exactly if every subtree that was begun has ended.
pub proof fn subtrees_begin_and_end<U: Copy>(
    begun: &mut DiskLocationRegistry<U>,
    ended: &mut DiskLocationRegistry<U>,
    back: &mut DiskLocationRegistry<U>,
    before: DiskLocationRegistry<U>,
    begun_after: DiskLocationRegistry<U>,
    ended_after: DiskLocationRegistry<U>,
    back_after: DiskLocationRegistry<U>,
    root: RegistryPathId,
    start: RegistryBuilderSubtreeStart,
    begin: TrieResult<RegistryBuilderSubtreeStart>,
    end: TrieResult<RegistryBuilderSubtree>,
    cancel: TrieResult<()>,
    complete: TrieResult<()>,
    records: usize,
    paths: usize,
)
    requires
        before.wf(),
        *begun == before,
        *ended == before,
        *back == before,
        *final(begun) == begun_after,
        *final(ended) == ended_after,
        *final(back) == back_after,
        call_ensures(DiskLocationRegistry::<U>::begin_subtree, (begun, root), begin),
        call_ensures(DiskLocationRegistry::<U>::finish_subtree, (ended, start), end),
        call_ensures(DiskLocationRegistry::<U>::cancel_subtree, (back, start), cancel),
        call_ensures(
            DiskLocationRegistry::<U>::try_finalize_for_publication,
            (&before,),
            complete,
        ),
        call_ensures(DiskLocationRegistry::<U>::len, (&before,), records),
        call_ensures(RegistryTopology::<U>::len, (&before.topology,), paths),
    ensures
        begin is Ok <==> root.ordinal == paths && paths > 0,
        begin matches Ok(s) ==> s.root == root.ordinal && s.first_record == records
            && begun_after.open@ == before.open@.push(s),
        end is Ok <==> before.open@.len() > 0 && before.open@.last() == start,
        end matches Ok(span) ==> span.root == start.root && span.first_record
            == start.first_record && span.last_path == paths && span.end_record == records
            && ended_after.open@ == before.open@.drop_last(),
        cancel is Ok <==> end is Ok && start.root == paths && start.first_record == records,
        cancel is Ok ==> back_after.open@ == before.open@.drop_last(),
        begin is Err ==> begun_after.open@ == before.open@,
        end is Err ==> ended_after.open@ == before.open@,
        cancel is Err ==> back_after.open@ == before.open@,
        begun_after.topology == before.topology && begun_after.records@ == before.records@,
        ended_after.topology == before.topology && ended_after.records@ == before.records@,
        back_after.topology == before.topology && back_after.records@ == before.records@,
        complete is Ok <==> before.open@.len() == 0,
{
}

/// A copied subtree counts as many records as it holds, with their sizes, and each of its
/// paths leads to the place of the copy and on as it led on from the root of the subtree.
pub proof fn a_copied_subtree_hangs_below_its_place<U: Copy>(
    registry: &mut DiskLocationRegistry<U>,
    before: DiskLocationRegistry<U>,
    after: DiskLocationRegistry<U>,
    span: RegistryBuilderSubtree,
    place: RegistryPathId,
    expected: SwizzledPtr,
    resident: bool,
    stats: LocalRegistryGraftStats,
    was: Counts,
    now: Counts,
    k: int,
)
    requires
        before.wf(),
        *registry == before,
        *final(registry) == after,
        call_ensures(
            DiskLocationRegistry::<U>::graft_subtree,
            (registry, span, place, expected, resident),
            Ok(stats),
        ),
        counts(before, was),
        counts(after, now),
    ensures
        now.records == was.records + stats.durable_records,
        stats.durable_records == span.end_record - span.first_record,
        stats.appended_topology_entries == span.last_path - span.root,
        now.bytes == up_to_max(was.bytes + stats.serialized_bytes),
        stats.overflowed ==> now.bytes == usize::MAX,
        span.root <= k <= span.last_path ==> ({
            let at_root = topology_path(before.topology.entries@, span.root as int);
            let source = topology_path(before.topology.entries@, k);
            let copy = topology_path(after.topology.entries@, k - span.root + place.ordinal);
            &&& at_root.is_prefix_of(source)
            &&& copy == topology_path(before.topology.entries@, place.ordinal as int)
                + source.skip(at_root.len() as int)
        }),
        0 <= k < stats.durable_records ==> ({
            let source = before.records@[span.first_record + k];
            let copy = after.records@[before.records@.len() + k];
            &&& copy.path_id.ordinal - place.ordinal == source.path_id.ordinal - span.root
            &&& copy.disk_ptr == source.disk_ptr
            &&& copy.size_bytes == source.size_bytes
            &&& copy.depth == source.depth
            &&& copy.node_type == source.node_type
            &&& copy.resident == if source.path_id.ordinal == span.root {
                resident
            } else {
                source.resident
            }
        }),
{
    reveal(crate::registry::holds_graft);
    let part = before.records@.subrange(span.first_record as int, span.end_record as int);
    let copies = after.records@.skip(before.records@.len() as int);
    let n = before.records@.len() as int;
    assert forall|i: int| 0 <= i < copies.len() implies (#[trigger] copies[i]).size_bytes
        == part[i].size_bytes by {
        assert(after.records@[n + i].size_bytes == after.records@[span.first_record + i].size_bytes);
        assert(after.records@[span.first_record + i] == before.records@[span.first_record + i]);
    }
    assert(before.records@ + copies =~= after.records@);
    lemma_exact_concat(before.records@, copies);
    lemma_exact_same(part, copies);
    lemma_sum_is_exact(before.records@);
    lemma_sum_is_exact(part);
    lemma_sum_is_exact(after.records@);
    if span.root <= k <= span.last_path {
        lemma_copied_paths(before, after, span, place, k);
    }
    if 0 <= k < stats.durable_records {
        let source = before.records@[span.first_record + k];
        assert(after.records@[span.first_record + k] == source);
        assert(span.root <= source.path_id.ordinal);
        assert(after.records@[n + k].disk_ptr == source.disk_ptr);
    }
}

/// The sum that stops is the sum, up to the largest machine word.
proof fn lemma_sum_is_exact(records: Seq<RegistryRecord>)
    ensures
        size_sum(records) == up_to_max(exact_size(records) as int),
    decreases records.len(),
{
    if records.len() > 0 {
        lemma_sum_is_exact(records.drop_last());
    }
}

/// The sum of two lists.
proof fn lemma_exact_concat(a: Seq<RegistryRecord>, b: Seq<RegistryRecord>)
    ensures
        exact_size(a + b) == exact_size(a) + exact_size(b),
    decreases b.len(),
{
    if b.len() > 0 {
        lemma_exact_concat(a, b.drop_last());
        assert((a + b).drop_last() =~= a + b.drop_last());
    } else {
        assert(a + b =~= a);
    }
}

/// Lists with the same sizes have the same sum.
proof fn lemma_exact_same(a: Seq<RegistryRecord>, b: Seq<RegistryRecord>)
    requires
        a.len() == b.len(),
        forall|i: int| 0 <= i < b.len() ==> (#[trigger] b[i]).size_bytes == a[i].size_bytes,
    ensures
        exact_size(a) == exact_size(b),
    decreases a.len(),
{
    if a.len() > 0 {
        assert forall|i: int| 0 <= i < b.drop_last().len() implies (
        #[trigger] b.drop_last()[i]).size_bytes == a.drop_last()[i].size_bytes by {
            assert(b[i].size_bytes == a[i].size_bytes);
        }
        lemma_exact_same(a.drop_last(), b.drop_last());
        assert(b[b.len() - 1].size_bytes == a[b.len() - 1].size_bytes);
    }
}

/// Where a copied path leads.
proof fn lemma_copied_paths<U: Copy>(
    before: DiskLocationRegistry<U>,
    after: DiskLocationRegistry<U>,
    span: RegistryBuilderSubtree,
    place: RegistryPathId,
    k: int,
)
    requires
        before.wf(),
        0 < span.root <= k <= span.last_path <= before.topology.entries@.len(),
        place.ordinal == before.topology.entries@.len(),
        paths_extend(before.topology.entries@, after.topology.entries@),
        after.topology.entries@.len() >= place.ordinal + (span.last_path - span.root),
        forall|o: int|
            span.root < o <= span.last_path ==> span.root <= (
            #[trigger] before.topology.entries@[o - 1]).parent.ordinal,
        forall|j: int|
            0 <= j < span.last_path - span.root ==> {
                &&& (#[trigger] after.topology.entries@[place.ordinal + j]).segment@
                    == after.topology.entries@[span.root + j].segment@
                &&& after.topology.entries@[place.ordinal + j].parent.ordinal
                    == after.topology.entries@[span.root + j].parent.ordinal - span.root
                    + place.ordinal
            },
    ensures
        ({
            let at_root = topology_path(before.topology.entries@, span.root as int);
            let source = topology_path(before.topology.entries@, k);
            let copy = topology_path(after.topology.entries@, k - span.root + place.ordinal);
            &&& at_root.is_prefix_of(source)
            &&& copy == topology_path(before.topology.entries@, place.ordinal as int)
                + source.skip(at_root.len() as int)
        }),
    decreases k,
{
    let old = before.topology.entries@;
    let new = after.topology.entries@;
    let at_root = topology_path(old, span.root as int);
    let source = topology_path(old, k);
    let there = topology_path(old, place.ordinal as int);
    paths_are_stable(old, new, place.ordinal as int);
    if k == span.root {
        assert(source.skip(at_root.len() as int) =~= Seq::empty());
        assert(there + Seq::<U>::empty() =~= there);
        assert(source.subrange(0, at_root.len() as int) =~= at_root);
    } else {
        let j = k - 1 - span.root;
        assert(old[k - 1].parent.ordinal <= k - 1);
        assert(span.root <= old[k - 1].parent.ordinal);
        assert(new[place.ordinal + j].segment@ == new[span.root + j].segment@);
        assert(new[k - 1] == old[k - 1]);
        let p = old[k - 1].parent.ordinal as int;
        lemma_copied_paths(before, after, span, place, p);
        let above = topology_path(old, p);
        let segment = old[k - 1].segment@;
        assert(source == above + segment);
        assert(source.subrange(0, at_root.len() as int) =~= at_root) by {
            assert(above.subrange(0, at_root.len() as int) =~= at_root);
            assert forall|i: int| 0 <= i < at_root.len() implies source[i] == at_root[i] by {
                assert(above.subrange(0, at_root.len() as int)[i] == above[i]);
            }
        }
        let copy = topology_path(new, k - span.root + place.ordinal);
        assert(copy == topology_path(new, p - span.root + place.ordinal) + segment);
        assert(copy =~= there + source.skip(at_root.len() as int));
    }
}

/// Copying a subtree succeeds only to the path that was registered last, and only if the
/// subtree has a record of the expected place at its root; otherwise nothing changes.
pub proof fn a_subtree_is_copied_from_its_root<U: Copy>(
    registry: &mut DiskLocationRegistry<U>,
    before: DiskLocationRegistry<U>,
    after: DiskLocationRegistry<U>,
    span: RegistryBuilderSubtree,
    place: RegistryPathId,
    expected: SwizzledPtr,
    resident: bool,
    result: TrieResult<LocalRegistryGraftStats>,
    paths: usize,
)
    requires
        before.wf(),
        *registry == before,
        *final(registry) == after,
        call_ensures(
            DiskLocationRegistry::<U>::graft_subtree,
            (registry, span, place, expected, resident),
            result,
        ),
        call_ensures(RegistryTopology::<U>::len, (&before.topology,), paths),
    ensures
        result is Ok ==> place.ordinal == paths && exists|i: int|
            span.first_record <= i < span.end_record && i < before.records@.len() && (
            #[trigger] before.records@[i]).path_id.ordinal == span.root && before.records@[i].disk_ptr
                == expected,
        result is Err ==> after.topology.entries@ == before.topology.entries@ && after.records@
            == before.records@,
        after.open@ == before.open@,
{
}

/// Every record becomes a candidate, in the order of the records, at its path, with its
/// depth and its place.
pub proof fn every_record_becomes_a_candidate<U: Copy>(
    registry: DiskLocationRegistry<U>,
    policy: CompactEvictionPolicy,
    batch: CompactEvictionBatch<U>,
    records: usize,
    i: int,
)
    requires
        call_ensures(DiskLocationRegistry::<U>::into_batch, (registry, policy), batch),
        call_ensures(DiskLocationRegistry::<U>::len, (&registry,), records),
    ensures
        batch.candidates@.len() == records,
        batch.policy == policy,
        batch.topology == registry.topology,
        0 <= i < records ==> batch.candidates@[i].path_id == registry.records@[i].path_id
            && batch.candidates@[i].depth == registry.records@[i].depth
            && batch.candidates@[i].disk_ptr == registry.records@[i].disk_ptr,
{
}

/// A copy of units has the same units, and a request for room fails exactly if the
/// collection refused it, with its reason.
pub proof fn copies_and_requests_are_kept<U: Copy>(
    units: &Vec<U>,
    copy: Vec<U>,
    outcome: Result<(), std::collections::TryReserveError>,
    operation: &'static str,
    requested: usize,
    result: TrieResult<()>,
)
    requires
        call_ensures(copy_units::<U>, (units,), copy),
        call_ensures(reserve_outcome, (outcome, operation, requested), result),
    ensures
        copy@ == units@,
        result is Ok <==> outcome is Ok,
        result matches Err(PersistentARTrieError::AllocationFailed {
            operation: o,
            requested_entries: n,
            source: CollectionAllocationError::TryReserve(e),
        }) ==> o == operation && n == requested && outcome == Err::<
            (),
            std::collections::TryReserveError,
        >(e),
        result is Err ==> result->Err_0 is AllocationFailed
            && result->Err_0->source is TryReserve,
{
}

/// A path is registered below another exactly if the other is there and there is room for
/// one more; it leads where the other does and on by its units. Records stay as they are.
pub proof fn a_path_is_reserved_below_its_parent<U: Copy>(
    registry: &mut DiskLocationRegistry<U>,
    before: DiskLocationRegistry<U>,
    after: DiskLocationRegistry<U>,
    parent: RegistryPathId,
    segment: &[U],
    result: TrieResult<RegistryPathId>,
    paths: usize,
    way: Option<Vec<U>>,
    whole: Option<Vec<U>>,
    other: RegistryPathId,
    other_was: Option<Vec<U>>,
    other_is: Option<Vec<U>>,
)
    requires
        before.wf(),
        *registry == before,
        *final(registry) == after,
        call_ensures(
            DiskLocationRegistry::<U>::reserve_path,
            (registry, parent, segment),
            result,
        ),
        call_ensures(RegistryTopology::<U>::len, (&before.topology,), paths),
        call_ensures(RegistryTopology::<U>::materialize, (&before.topology, parent), way),
        result matches Ok(id) ==> call_ensures(
            RegistryTopology::<U>::materialize,
            (&after.topology, id),
            whole,
        ),
        call_ensures(RegistryTopology::<U>::materialize, (&before.topology, other), other_was),
        call_ensures(RegistryTopology::<U>::materialize, (&after.topology, other), other_is),
    ensures
        result is Ok <==> way is Some && paths < usize::MAX,
        result is Ok ==> whole is Some && whole->0@ == way->0@ + segment@,
        other_was is Some ==> other_is is Some && other_is->0@ == other_was->0@,
        after.records@ == before.records@,
        after.open@ == before.open@,
{
    if other_was is Some {
        paths_are_stable(
            before.topology.entries@,
            after.topology.entries@,
            other.ordinal as int,
        );
    }
}

/// An error carries what it was made with.
pub proof fn errors_carry_what_they_were_made_with(
    message: &str,
    internal: PersistentARTrieError,
    corrupted: PersistentARTrieError,
    operation: &'static str,
    requested: usize,
    source: CollectionAllocationError,
    failed: PersistentARTrieError,
)
    requires
        call_ensures(PersistentARTrieError::internal, (message,), internal),
        call_ensures(PersistentARTrieError::corrupted, (message,), corrupted),
        call_ensures(
            PersistentARTrieError::allocation_failed,
            (operation, requested, source),
            failed,
        ),
    ensures
        internal is InternalError && internal->InternalError_message@ == message@,
        corrupted is CorruptedFile && corrupted->reason@ == message@,
        failed is AllocationFailed && failed->operation == operation && failed->requested_entries
            == requested && failed->source == source,
{
}

} // verus!
