//! Writing a whole trie: what is written is what is stored, and what was met is counted.

use std::sync::Arc;
use vstd::prelude::*;
use crate::error::TrieResult;
use crate::eviction::{RegistryPathId, RegistryTopology};
use crate::key_encoding::KeyEncoding;
use crate::overlay::compressed_serialize::serialize_compressed_loop;
use crate::overlay::graph_policy::{
    activated, completed, CompletedSubtree, DagAware, ExpectedBuildState, GraphPolicy,
    NodeBuildState,
};
use crate::overlay::indices::InlineIndices;
use crate::overlay::model::{at, kid};
use crate::overlay::node::{lemma_slot, Branch, OverlayNode};
use crate::overlay::serialize_build::{
    starts_analysis, try_analysis_registry_transaction, OnDiskImportStats,
    OverlaySerializationBuild, RegistryBuildMode,
};
use crate::overlay::serialize_chain::{
    chain_chunk_count, chain_link, chain_node, chain_ok, peel_chain_generic,
};
use crate::overlay::serialize_frame::reserve_chain_entries;
use crate::overlay::serialize_model::{
    backed, closed, grows, record_term, stored, tree_term,
};
use crate::overlay::serialize_sink::OverlayCompressedSerialize;
use crate::overlay::serialize_stamps::stamps_match;
use crate::overlay::serialize_trace::{counted_from, Occurrence};
use crate::registry::DiskLocationRegistry;
use crate::swizzled_ptr::SwizzledPtr;
use crate::value::DictionaryValue;

verus! {

/// A trie that was written is read back from the record of its root: under every key the
/// records store what the trie stores. Whatever was stored before is stored as it was.
pub proof fn a_written_trie_is_read_back<
    K: KeyEncoding,
    V: DictionaryValue,
    S: OverlayCompressedSerialize<K, V>,
    P: GraphPolicy<K, V>,
>(
    sink: &mut S,
    build: &mut OverlaySerializationBuild<K, V, P>,
    sink_before: S,
    sink_after: S,
    build_before: OverlaySerializationBuild<K, V, P>,
    build_after: OverlaySerializationBuild<K, V, P>,
    root: Arc<OverlayNode<K, V>>,
    ptr: SwizzledPtr,
    key: Seq<K::Unit>,
    other: SwizzledPtr,
)
    requires
        *sink == sink_before,
        *final(sink) == sink_after,
        *build == build_before,
        *final(build) == build_after,
        root.wf(),
        build_before.wf(),
        closed(sink_before.store()),
        backed(sink_before.store(), root@),
        build_before.deferred_stamps@.len() == 0,
        call_ensures(serialize_compressed_loop::<K, V, S, P>, (sink, &root, build), Ok(ptr)),
    ensures
        sink_after.store().dom().contains(ptr),
        record_term(sink_after.store(), ptr, key) == tree_term(sink_after.store(), root@, key),
        sink_before.store().dom().contains(other) ==> sink_after.store().dom().contains(other)
            && sink_after.store()[other] == sink_before.store()[other],
{
    reveal(stored);
    reveal(grows);
}

/// Where stamps count, every record that was written has exactly one new stamp, which
/// stores the node that it is for; where they do not, there is no new one.
pub proof fn every_written_record_has_one_stamp<
    K: KeyEncoding,
    V: DictionaryValue,
    S: OverlayCompressedSerialize<K, V>,
    P: GraphPolicy<K, V>,
>(
    sink: &mut S,
    build: &mut OverlaySerializationBuild<K, V, P>,
    sink_before: S,
    sink_after: S,
    build_before: OverlaySerializationBuild<K, V, P>,
    build_after: OverlaySerializationBuild<K, V, P>,
    root: Arc<OverlayNode<K, V>>,
    ptr: SwizzledPtr,
    enabled: bool,
    record: SwizzledPtr,
    i: int,
    j: int,
)
    requires
        *sink == sink_before,
        *final(sink) == sink_after,
        *build == build_before,
        *final(build) == build_after,
        root.wf(),
        build_before.wf(),
        build_before.deferred_stamps@.len() == 0,
        call_ensures(serialize_compressed_loop::<K, V, S, P>, (sink, &root, build), Ok(ptr)),
        call_ensures(
            OverlaySerializationBuild::<K, V, P>::is_enabled,
            (&build_before,),
            enabled,
        ),
    ensures
        !enabled ==> build_after.deferred_stamps@.len() == 0,
        enabled ==> {
            let stamps = build_after.deferred_stamps@;
            let new = sink_after.store().dom().contains(record)
                && !sink_before.store().dom().contains(record);
            &&& new <==> exists|k: int| 0 <= k < stamps.len() && (#[trigger] stamps[k]).raw
                == record.raw
            &&& 0 <= i < j < stamps.len() ==> stamps[i].raw != stamps[j].raw
        },
        enabled && closed(sink_before.store()) && backed(sink_before.store(), root@) && 0 <= i
            < build_after.deferred_stamps@.len() ==> forall|key: Seq<K::Unit>|
            record_term(
                sink_after.store(),
                (SwizzledPtr { raw: build_after.deferred_stamps@[i].raw }),
                key,
            ) == #[trigger] tree_term(
                sink_after.store(),
                build_after.deferred_stamps@[i].node@,
                key,
            ),
{
    reveal(stamps_match);
    reveal(stored);
    if enabled {
        let stamps = build_after.deferred_stamps@;
        if exists|k: int| 0 <= k < stamps.len() && (#[trigger] stamps[k]).raw == record.raw {
            let k = choose|k: int| 0 <= k < stamps.len() && (#[trigger] stamps[k]).raw
                == record.raw;
            assert(record == (SwizzledPtr { raw: stamps[k].raw }));
        }
        if 0 <= i < stamps.len() && closed(sink_before.store()) && backed(
            sink_before.store(),
            root@,
        ) {
            assert(stored(
                sink_after.store(),
                SwizzledPtr { raw: stamps[i].raw },
                stamps[i].node@,
            ));
            assert forall|key: Seq<K::Unit>|
                record_term(
                    sink_after.store(),
                    (SwizzledPtr { raw: stamps[i].raw }),
                    key,
                ) == #[trigger] tree_term(sink_after.store(), stamps[i].node@, key) by {
                assert(record_term(
                    sink_after.store(),
                    SwizzledPtr { raw: stamps[i].raw },
                    key,
                ) == tree_term(sink_after.store(), stamps[i].node@, key));
            }
        }
    }
}

/// Where a registry is built, every record that was written is asked to be registered, in
/// order and once, at a path of the root whose node the record stores; where none is,
/// nothing is asked.
pub proof fn every_written_record_is_registered_at_its_path<
    K: KeyEncoding,
    V: DictionaryValue,
    S: OverlayCompressedSerialize<K, V>,
    P: GraphPolicy<K, V>,
>(
    sink: &mut S,
    build: &mut OverlaySerializationBuild<K, V, P>,
    sink_before: S,
    sink_after: S,
    build_before: OverlaySerializationBuild<K, V, P>,
    root: Arc<OverlayNode<K, V>>,
    ptr: SwizzledPtr,
    registers: bool,
    i: int,
    key: Seq<K::Unit>,
)
    requires
        *sink == sink_before,
        *final(sink) == sink_after,
        *build == build_before,
        root.wf(),
        build_before.wf(),
        closed(sink_before.store()),
        backed(sink_before.store(), root@),
        build_before.deferred_stamps@.len() == 0,
        sink_before.asked().len() == 0,
        sink_before.log().len() == 0,
        call_ensures(serialize_compressed_loop::<K, V, S, P>, (sink, &root, build), Ok(ptr)),
        call_ensures(
            OverlaySerializationBuild::<K, V, P>::has_registry,
            (&build_before,),
            registers,
        ),
    ensures
        !registers ==> sink_after.asked().len() == 0,
        registers ==> sink_after.asked().len() == sink_after.log().len(),
        registers && 0 <= i < sink_after.asked().len() ==> {
            let (record, path) = sink_after.asked()[i];
            &&& record == sink_after.log()[i].0
            &&& at(root@, path) is Some
            &&& record_term(sink_after.store(), record, key) == tree_term(
                sink_after.store(),
                at(root@, path)->0,
                key,
            )
        },
{
    reveal(stored);
    reveal(crate::overlay::serialize_registrations::registrations);
    if registers && 0 <= i < sink_after.asked().len() {
        let (record, path) = sink_after.asked()[i];
        assert(sink_after.asked()[i].0 == sink_after.log()[i - 0 + 0].0);
        assert(stored(sink_after.store(), record, at(root@, path)->0));
        assert(record_term(sink_after.store(), record, key) == tree_term(
            sink_after.store(),
            at(root@, path)->0,
            key,
        ));
    }
}

/// A durable child that was met.
pub open spec fn durable<U>() -> spec_fn(Occurrence<U>) -> bool {
    |o: Occurrence<U>| !o.resident
}

/// A durable child that was met and taken over.
pub open spec fn taken<U>() -> spec_fn(Occurrence<U>) -> bool {
    |o: Occurrence<U>| !o.resident && o.how is Taken
}

/// A durable child that was met and copied.
pub open spec fn copied<U>() -> spec_fn(Occurrence<U>) -> bool {
    |o: Occurrence<U>| !o.resident && o.how is Grafted
}

/// A count that stops at the largest machine word.
pub open spec fn stops(count: int) -> int {
    if count > usize::MAX {
        usize::MAX as int
    } else {
        count
    }
}

/// Writing a trie counts one lookup for each durable child that it met, one import for
/// each that was taken over, and one copy for each that was copied.
pub proof fn durable_children_are_counted<
    K: KeyEncoding,
    V: DictionaryValue,
    S: OverlayCompressedSerialize<K, V>,
    P: GraphPolicy<K, V>,
>(
    sink: &mut S,
    build: &mut OverlaySerializationBuild<K, V, P>,
    build_before: OverlaySerializationBuild<K, V, P>,
    build_after: OverlaySerializationBuild<K, V, P>,
    root: Arc<OverlayNode<K, V>>,
    ptr: SwizzledPtr,
)
    requires
        *build == build_before,
        *final(build) == build_after,
        root.wf(),
        build_before.wf(),
        build_before.met@.len() == 0,
        call_ensures(serialize_compressed_loop::<K, V, S, P>, (sink, &root, build), Ok(ptr)),
    ensures
        ({
            let x = build_before.on_disk_import_stats;
            let y = build_after.on_disk_import_stats;
            let met = build_after.met@;
            &&& y.lookups == stops(x.lookups + met.filter(durable()).len())
            &&& y.source_imports == stops(x.source_imports + met.filter(taken()).len())
            &&& y.local_grafts == stops(x.local_grafts + met.filter(copied()).len())
        }),
{
    lemma_counted(build_before.on_disk_import_stats, build_after.met@);
}

/// What some children add to the counts.
proof fn lemma_counted<U>(stats: OnDiskImportStats, met: Seq<Occurrence<U>>)
    ensures
        ({
            let y = counted_from(stats, met, 0);
            &&& y.lookups == stops(stats.lookups + met.filter(durable()).len())
            &&& y.source_imports == stops(stats.source_imports + met.filter(taken()).len())
            &&& y.local_grafts == stops(stats.local_grafts + met.filter(copied()).len())
        }),
    decreases met.len(),
{
    reveal(Seq::filter);
    if met.len() > 0 {
        lemma_counted(stats, met.drop_last());
    }
}

/// A node is activated exactly once, from nothing, and completed exactly from the state
/// that was expected, with the record that was given.
pub proof fn a_node_is_built_once(
    state: NodeBuildState,
    expected: ExpectedBuildState,
    subtree: CompletedSubtree,
    active: TrieResult<NodeBuildState>,
    done: TrieResult<NodeBuildState>,
    again: TrieResult<NodeBuildState>,
    done_again: TrieResult<NodeBuildState>,
)
    requires
        call_ensures(activated, (state,), active),
        call_ensures(completed, (state, expected, subtree), done),
        active matches Ok(next) ==> call_ensures(activated, (next,), again),
        done matches Ok(next) ==> call_ensures(completed, (next, expected, subtree), done_again),
    ensures
        active is Ok <==> state is Unseen,
        active is Ok ==> active->Ok_0 is Active && again is Err,
        done is Ok <==> (state is Unseen && expected is Unseen) || (state is Active
            && expected is Active),
        done is Ok ==> done->Ok_0 == NodeBuildState::Complete(subtree) && done_again is Err,
{
}

/// A remembered node is activated exactly if it is unseen, and completed exactly from the
/// state that was expected; it then has that state, and every other node has the one that
/// it had. A node that is not remembered is passed over, but must not have a span.
pub proof fn remembered_nodes_change_one_at_a_time<K: KeyEncoding, V: DictionaryValue>(
    active: &mut DagAware<K, V>,
    done: &mut DagAware<K, V>,
    before: DagAware<K, V>,
    active_after: DagAware<K, V>,
    done_after: DagAware<K, V>,
    position: Option<usize>,
    expected: ExpectedBuildState,
    subtree: CompletedSubtree,
    activate: TrieResult<()>,
    complete: TrieResult<()>,
    was: NodeBuildState,
    probe: usize,
    found: NodeBuildState,
    active_found: NodeBuildState,
    done_found: NodeBuildState,
)
    requires
        *active == before,
        *done == before,
        *final(active) == active_after,
        *final(done) == done_after,
        position matches Some(i) ==> i < before.entries@.len(),
        probe < before.entries@.len(),
        probe < active_after.entries@.len(),
        probe < done_after.entries@.len(),
        call_ensures(DagAware::<K, V>::activate_at, (active, position), activate),
        call_ensures(DagAware::<K, V>::complete_at, (done, position, expected, subtree), complete),
        call_ensures(DagAware::<K, V>::state_at, (&before, position), was),
        call_ensures(DagAware::<K, V>::state_at, (&before, Some(probe)), found),
        call_ensures(DagAware::<K, V>::state_at, (&active_after, Some(probe)), active_found),
        call_ensures(DagAware::<K, V>::state_at, (&done_after, Some(probe)), done_found),
    ensures
        activate is Ok <==> was is Unseen,
        position is Some ==> (complete is Ok <==> (was is Unseen && expected is Unseen) || (
        was is Active && expected is Active)),
        position is None ==> was is Unseen && (complete is Ok <==> subtree.registry_span is None),
        active_found == if activate is Ok && position == Some(probe) {
            NodeBuildState::Active
        } else {
            found
        },
        done_found == if complete is Ok && position == Some(probe) {
            NodeBuildState::Complete(subtree)
        } else {
            found
        },
{
}

/// The paths of a chain are registered one above each chunk and one at its end: the first
/// leads to the beginning of the chain, each other one as many units on as a record
/// carries, and the last to the end.
pub proof fn chain_paths_are_registered_by_chunks<K: KeyEncoding>(
    registry: &mut DiskLocationRegistry<K::Unit>,
    before: DiskLocationRegistry<K::Unit>,
    after: DiskLocationRegistry<K::Unit>,
    path: Vec<K::Unit>,
    base_depth: usize,
    chain_len: usize,
    width: usize,
    parent: RegistryPathId,
    top: Option<RegistryPathId>,
    ids: InlineIndices,
    count: usize,
    len: usize,
    c: int,
    whole: Option<Vec<K::Unit>>,
)
    requires
        *registry == before,
        *final(registry) == after,
        before.wf(),
        width == K::max_prefix_len() + 1,
        path@.len() == base_depth + 1 + chain_len,
        parent.ordinal <= before.topology.entries@.len(),
        before.topology.path(parent) == path@.take(base_depth as int),
        top matches Some(t) ==> 0 < t.ordinal == before.topology.entries@.len()
            && before.topology.path(t) == path@.take(base_depth + 1),
        call_ensures(
            reserve_chain_entries::<K>,
            (registry, &path, base_depth, chain_len, width, parent, top),
            Ok(ids),
        ),
        call_ensures(chain_chunk_count, (chain_len, width), Ok(count)),
        call_ensures(InlineIndices::len, (&ids,), len),
        0 <= c < ids@.len() ==> call_ensures(
            RegistryTopology::<K::Unit>::materialize,
            (&after.topology, (RegistryPathId { ordinal: ids@[c] })),
            whole,
        ),
    ensures
        len == count + 1,
        0 <= c < count ==> whole is Some && whole->0@ == path@.take(base_depth + 1 + c * width),
        c == count ==> whole is Some && whole->0@ == path@,
        after.records@ == before.records@,
{
    reveal(crate::overlay::serialize_frame::entries_registered);
    if 0 <= c < count {
        assert(0 < ids@[c] <= after.topology.entries@.len());
    }
    if c == count {
        assert(ids@[c] == ids@.last());
    }
}

/// An analysis replaces the registry only if it succeeds and the registry that it filled
/// is complete; otherwise the registry stays as it was.
pub proof fn an_analysis_replaces_the_registry_or_leaves_it<
    K: KeyEncoding,
    V: DictionaryValue,
    T,
    F: FnOnce(OverlaySerializationBuild<K, V, DagAware<K, V>>) -> (
        OverlaySerializationBuild<K, V, DagAware<K, V>>,
        TrieResult<T>,
    ),
>(
    target: &mut DiskLocationRegistry<K::Unit>,
    before: DiskLocationRegistry<K::Unit>,
    after: DiskLocationRegistry<K::Unit>,
    operation: F,
    result: TrieResult<T>,
)
    requires
        *target == before,
        *final(target) == after,
        forall|build: OverlaySerializationBuild<K, V, DagAware<K, V>>|
            #![trigger call_requires(operation, (build,))]
            starts_analysis(build) ==> call_requires(operation, (build,)),
        call_ensures(
            try_analysis_registry_transaction::<K, V, T, F>,
            (target, operation),
            result,
        ),
    ensures
        result is Err ==> after == before,
        result is Ok ==> exists|
            start: OverlaySerializationBuild<K, V, DagAware<K, V>>,
            end: OverlaySerializationBuild<K, V, DagAware<K, V>>,
        | #[trigger]
            call_ensures(operation, (start,), (end, result)) && after == end.registry
                && end.registry.open@.len() == 0,
{
    let (start, end) = choose|
        start: OverlaySerializationBuild<K, V, DagAware<K, V>>,
        end: (OverlaySerializationBuild<K, V, DagAware<K, V>>, TrieResult<T>),
    |
        {
            &&& starts_analysis(start)
            &&& #[trigger] call_ensures(operation, (start,), end)
            &&& match end.1 {
                Ok(value) => if end.0.mode == RegistryBuildMode::Analysis
                    && end.0.registry.open@.len() == 0 {
                    result == Ok::<T, crate::error::PersistentARTrieError>(value) && after
                        == end.0.registry
                } else {
                    (result matches Err(e) && e is InternalError) && after == before
                },
                Err(e) => result == Err::<T, crate::error::PersistentARTrieError>(e) && after
                    == before,
            }
        };
    if result is Ok {
        assert(end == (end.0, result));
        assert(call_ensures(operation, (start,), (end.0, result)));
    }
}

/// A chain that is peeled leads by its units from its start to its end, and the nodes on
/// the way are no terms, have no values and no other children.
pub proof fn a_chain_leads_to_its_end<
    K: KeyEncoding,
    V: DictionaryValue,
    P: GraphPolicy<K, V>,
>(
    start: Arc<OverlayNode<K, V>>,
    stop: bool,
    build: OverlaySerializationBuild<K, V, P>,
    units: Vec<K::Unit>,
    live: Vec<Arc<OverlayNode<K, V>>>,
    end: Arc<OverlayNode<K, V>>,
    k: int,
)
    requires
        start.wf(),
        call_ensures(
            peel_chain_generic::<K, V, P>,
            (start, stop, &build),
            Ok((units, live, end)),
        ),
    ensures
        at(start@, units@) == Some(end@),
        live@.len() == units@.len(),
        0 <= k < live@.len() ==> {
            &&& at(start@, units@.take(k)) == Some(live@[k]@)
            &&& !live@[k]@.is_final
            &&& live@[k]@.value is None
            &&& live@[k].children@.len() == 1
            &&& live@[k].children@[0].0 == units@[k]
        },
{
    reveal(chain_ok);
    lemma_chain_at(live@, units@, end, units@.len() as int);
    assert(units@.take(units@.len() as int) =~= units@);
    if 0 <= k < live@.len() {
        assert(chain_link(live@, units@, end, k));
        lemma_chain_at(live@, units@, end, k);
    }
}

/// Where the first units of a chain lead.
proof fn lemma_chain_at<K: KeyEncoding, V>(
    live: Seq<Arc<OverlayNode<K, V>>>,
    units: Seq<K::Unit>,
    end: Arc<OverlayNode<K, V>>,
    k: int,
)
    requires
        chain_ok(live, units, end),
        0 <= k <= units.len(),
    ensures
        at(chain_node(live, end, 0)@, units.take(k)) == Some(chain_node(live, end, k)@),
    decreases k,
{
    reveal(chain_ok);
    if k == 0 {
        assert(units.take(0) =~= Seq::empty());
    } else {
        lemma_chain_at(live, units, end, k - 1);
        assert(chain_link(live, units, end, k - 1));
        let node = chain_node(live, end, k - 1);
        let content = *node;
        lemma_slot(content, 0);
        let unit = units[k - 1];
        let child = chain_node(live, end, k)@;
        assert(kid(node@, unit) == Some(Branch::InMem(child)));
        crate::overlay::model::lemma_at_concat(
            chain_node(live, end, 0)@,
            units.take(k - 1),
            seq![unit],
        );
        assert(units.take(k) =~= units.take(k - 1) + seq![unit]);
        assert(seq![unit].drop_first() =~= Seq::<K::Unit>::empty());
        assert(at(child, Seq::<K::Unit>::empty()) == Some(child));
        assert(at(node@, seq![unit]) == Some(child));
    }
}

} // verus!
