//! The serializer: writes a trie as path-compressed records, children before
//! parents, without recursion.

use std::sync::Arc;
use vstd::prelude::*;
use crate::error::{
    no_room, reserve_entries, CollectionAllocationError, PersistentARTrieError, TrieResult,
};
use crate::eviction::{topology_path, RegistryPathId, TopologyEntry};
use crate::key_encoding::KeyEncoding;
use crate::registry::{
    paths_extend, records_extend, DiskLocationRegistry, Graft,
    RegistryBuilderSubtree, RegistryBuilderSubtreeStart,
};
use crate::shared::share;
use crate::swizzled_ptr::{locations_are_distinct, SwizzledPtr};
use crate::value::DictionaryValue;
use super::atomic_ptr::DeferredDurableStamp;
use super::graph_policy::{
    reachable, CompletedSubtree, ExpectedBuildState, GraphPolicy, NodeBuildState,
};
use super::indices::InlineIndices;
use super::model::{at, kid};
use super::node::{Branch, Child, OverlayNode, Tree};
use super::serialize_build::{
    record_address, spec_record_address, CompletedOnDiskImport, OverlaySerializationBuild,
    RegistryBuildMode, RegistryStructuralSource,
};
use super::serialize_chain::{
    chain_chunk_bounds, chain_chunk_count, chain_chunk_width, chain_node, chain_ok, chunk_total,
    lemma_chain_part, lemma_chunk_index, peel_chain_generic,
};
use super::serialize_emission::{
    emits, keeps, lemma_chunk_emits, lemma_dealt_push, lemma_emits_more, lemma_end_emits,
    lemma_kids_emit_more, lemma_kids_emit_start, lemma_node_emits, lemma_node_emits_more, met_done,
    met_durable, needs_record, node_emits, node_record, slot_emits, told_by, told_more, Told,
};
use super::serialize_frame::{
    entries_registered, lemma_chunk_total, lemma_entries_extend, make_frame, reserve_chain_entries,
    slots_steps, state_sound, Frame,
};
use super::serialize_ledger::{
    ledger, lemma_chunk_stored, lemma_ledger_add, lemma_ledger_backed, lemma_ledger_empty,
    lemma_ledger_fact, lemma_ledger_insert, lemma_memo_active, lemma_memo_complete,
    lemma_node_stored, lemma_reachable_at, lemma_slot_kid, lemma_slots_match, lemma_sound_more,
    lemma_stamps_push, memo_sound, slot_resolved, stamps_sound, Facts,
};
use super::serialize_model::{
    backed, closed, grows, lemma_backed_here, lemma_chain_at, lemma_grows_trans, stored, RecordView,
    Store,
};
use super::serialize_registrations::{
    asked_known, asked_more, asked_of, lemma_asked_grow, lemma_asked_push, lemma_placed,
    lemma_placed_chain, lemma_registrations_push, lemma_registrations_start, lemma_slot_at,
    registrations, Asked,
};
use super::serialize_sink::{project_chunk, project_node, OverlayCompressedSerialize, ProjectedNode};
use super::serialize_stack::{
    active, acts, frame_linked, frames_dealt, frames_left, frames_ok, frames_registered,
    frames_sized, frames_sound, lemma_active_complete, lemma_active_push, lemma_dealt_more,
    lemma_dealt_pop, lemma_dealt_top, lemma_frames_left, lemma_frames_pop, lemma_frames_push,
    lemma_frames_registered, lemma_none_active, lemma_peeled_more, lemma_registered_pop,
    lemma_registered_push, lemma_replaced, lemma_resolved_push, lemma_sized_pop, lemma_sized_top,
    lemma_slot_fewer, lemma_slot_reachable, lemma_sound_pop, lemma_sound_push, open_tail,
    slot_reachable,
};
use super::serialize_stamps::{lemma_stamps_start, lemma_stamps_written, stamps_kept};
use super::serialize_trace::{
    counted_from, counted_met, has_record, held, lemma_entered_grows, met_imported, record_at,
    taken, taken_before, How, Log, Occurrence, Trace,
};

verus! {

/// One record more is growth.
proof fn lemma_grows_insert<U, V>(
    store: Store<U, V>,
    ptr: SwizzledPtr,
    record: RecordView<U, V>,
)
    requires
        !store.dom().contains(ptr),
    ensures
        grows(store, store.insert(ptr, record)),
{
    reveal(grows);
}

/// No record more is growth too.
proof fn lemma_grows_same<U, V>(store: Store<U, V>)
    ensures
        grows(store, store),
{
    reveal(grows);
}

/// Writes a record and registers it, if there is a registry.
fn emit_record<
    K: KeyEncoding,
    V: DictionaryValue,
    S: OverlayCompressedSerialize<K, V>,
    P: GraphPolicy<K, V>,
>(
    sink: &mut S,
    build: &mut OverlaySerializationBuild<K, V, P>,
    projected: ProjectedNode<K::Unit, V>,
    path: &[K::Unit],
    registry_path: RegistryPathId,
) -> (r: TrieResult<SwizzledPtr>)
    requires
        projected@.prefix.len() <= K::max_prefix_len(),
        old(build).wf(),
        old(build).mode != RegistryBuildMode::Disabled ==> 0 < registry_path.ordinal <= old(
            build,
        ).registry.topology.entries@.len() && topology_path(
            old(build).registry.topology.entries@,
            registry_path.ordinal as int,
        ) == path@,
    ensures
        *final(build) == (OverlaySerializationBuild {
            registry: final(build).registry,
            ..*old(build)
        }),
        final(build).wf(),
        final(build).registry.topology == old(build).registry.topology,
        final(build).registry.open@ == old(build).registry.open@,
        records_extend(old(build).registry.records@, final(build).registry.records@),
        grows(old(sink).store(), final(sink).store()),
        r matches Ok(ptr) ==> {
            &&& ptr.location() is Some
            &&& !old(sink).store().dom().contains(ptr)
            &&& final(sink).store() == old(sink).store().insert(ptr, projected@)
            &&& final(sink).log() == old(sink).log().push((ptr, projected@, path@))
            &&& S::places(old(sink).log(), projected@, path@, ptr)
            &&& final(sink).asked() == asked_more(
                old(build).mode != RegistryBuildMode::Disabled,
                old(sink).asked(),
                ptr,
                path@,
            )
        },
        r matches Err(e) ==> S::reports(e),
{
    let ghost before = sink.store();
    let ghost record = projected@;
    proof {
        lemma_grows_same(before);
    }
    match sink.serialize_projected_node(projected, path) {
        Ok(ptr) => {
            proof {
                lemma_grows_insert(before, ptr, record);
            }
            if build.has_registry() {
                match sink.register_projected_node(ptr, path, registry_path, &mut build.registry) {
                    Ok(()) => Ok(ptr),
                    Err(e) => Err(e),
                }
            } else {
                Ok(ptr)
            }
        },
        Err(e) => Err(e),
    }
}

/// What was done so far.
pub open spec fn trace_of<
    K: KeyEncoding,
    V: DictionaryValue,
    S: OverlayCompressedSerialize<K, V>,
    P,
>(sink: S, build: OverlaySerializationBuild<K, V, P>) -> Trace<K::Unit, V> {
    Trace { log: sink.log(), met: build.met@ }
}

/// A build that went on tells more.
proof fn lemma_told_more<
    K: KeyEncoding,
    V: DictionaryValue,
    S: OverlayCompressedSerialize<K, V>,
    P: GraphPolicy<K, V>,
>(before: OverlaySerializationBuild<K, V, P>, after: OverlaySerializationBuild<K, V, P>)
    requires
        after.mode == before.mode,
        after.structural_source == before.structural_source,
        paths_extend(before.registry.topology.entries@, after.registry.topology.entries@),
        records_extend(before.registry.records@, after.registry.records@),
        imports_grow::<K, V, S>(
            before.on_disk_imports@,
            after.on_disk_imports@,
            before.structural_source,
        ),
        forall|root: Arc<OverlayNode<K, V>>| #[trigger]
            before.graph.prepared_for(root) ==> after.graph.prepared_for(root),
        forall|n: Arc<OverlayNode<K, V>>, b: bool|
            #[trigger] after.graph.boundary(n, b) == before.graph.boundary(n, b),
        forall|n: Arc<OverlayNode<K, V>>, p: SwizzledPtr| #[trigger]
            before.graph.done(n, p) ==> after.graph.done(n, p),
        forall|n: Arc<OverlayNode<K, V>>, p: SwizzledPtr| #[trigger]
            before.graph.noted(n, p) ==> after.graph.noted(n, p),
    ensures
        told_more(told_by::<K, V, S, P>(before), told_by::<K, V, S, P>(after)),
{
    let less = told_by::<K, V, S, P>(before);
    let more = told_by::<K, V, S, P>(after);
    assert forall|n: Arc<OverlayNode<K, V>>| (less.prepared)(n) implies #[trigger] (more.prepared)(
        n,
    ) by {
        assert(before.graph.prepared_for(n));
    }
    assert forall|n: Arc<OverlayNode<K, V>>, p: SwizzledPtr| (less.done)(n, p) implies
        #[trigger] (more.done)(n, p) by {
        assert(before.graph.done(n, p));
    }
    assert forall|n: Arc<OverlayNode<K, V>>, p: SwizzledPtr| (less.noted)(n, p) implies
        #[trigger] (more.noted)(n, p) by {
        assert(before.graph.noted(n, p));
    }
    assert forall|o: Occurrence<K::Unit>| (less.entered)(o) implies #[trigger] (more.entered)(o) by {
        lemma_entered_grows(before.registry, after.registry, o);
    }
}

/// The resolved children of a frame, with their edges.
fn child_pointers<K: KeyEncoding, V: DictionaryValue>(frame: &Frame<K, V>) -> (r: TrieResult<
    Vec<(K::Unit, SwizzledPtr)>,
>)
    requires
        frame.resolved@.len() == frame.slots@.len(),
    ensures
        match r {
            Ok(kids) => {
                &&& kids@.len() == frame.slots@.len()
                &&& forall|i: int|
                    0 <= i < kids@.len() ==> #[trigger] kids@[i] == (
                        frame.slots@[i].0,
                        frame.resolved@[i],
                    )
            },
            Err(e) => no_room(e),
        },
{
    let count: usize = frame.slots.len();
    let mut kids: Vec<(K::Unit, SwizzledPtr)> = Vec::new();
    match reserve_entries(
        &mut kids,
        count,
        "compressed serializer resolved child pointers",
        count,
    ) {
        Ok(()) => {},
        Err(e) => {
            return Err(e);
        },
    }
    let mut i: usize = 0;
    while i < count
        invariant
            count == frame.slots@.len() == frame.resolved@.len(),
            i <= count,
            kids@.len() == i,
            forall|k: int|
                0 <= k < i ==> #[trigger] kids@[k] == (frame.slots@[k].0, frame.resolved@[k]),
        decreases count - i,
    {
        kids.push((frame.slots[i].0, frame.resolved[i]));
        i += 1;
    }
    Ok(kids)
}

/// A node of a chain is reachable if its head is.
proof fn lemma_chain_reachable<K: KeyEncoding, V>(
    root: Tree<K::Unit, V>,
    live: Seq<Arc<OverlayNode<K, V>>>,
    units: Seq<K::Unit>,
    terminus: Arc<OverlayNode<K, V>>,
    position: int,
)
    requires
        chain_ok(live, units, terminus),
        reachable(root, chain_node(live, terminus, 0)@),
        0 <= position <= units.len(),
    ensures
        reachable(root, chain_node(live, terminus, position)@),
{
    lemma_chain_part(live, units, terminus, 0, position);
    let part = units.subrange(0, position);
    lemma_chain_at(
        chain_node(live, terminus, 0)@,
        part,
        chain_node(live, terminus, position)@,
    );
    lemma_reachable_at(
        root,
        chain_node(live, terminus, 0)@,
        part,
        chain_node(live, terminus, position)@,
    );
}

/// Writes the node of a frame whose children are done.
fn emit_terminus<
    K: KeyEncoding,
    V: DictionaryValue,
    S: OverlayCompressedSerialize<K, V>,
    P: GraphPolicy<K, V>,
>(
    sink: &mut S,
    build: &mut OverlaySerializationBuild<K, V, P>,
    path: &Vec<K::Unit>,
    frame: &Frame<K, V>,
    Ghost(root): Ghost<Tree<K::Unit, V>>,
    Ghost(facts): Ghost<Facts<K::Unit, V>>,
    Ghost(base): Ghost<Store<K::Unit, V>>,
    Ghost(first): Ghost<Seq<DeferredDurableStamp<K, V>>>,
    Ghost(origin): Ghost<(Log<K::Unit, V>, Asked<K::Unit>)>,
    Ghost(working): Ghost<Seq<(Arc<OverlayNode<K, V>>, bool)>>,
) -> (r: TrieResult<SwizzledPtr>)
    requires
        frame.ok(),
        frame.resolved@.len() == frame.slots@.len(),
        path@ == frame.full@,
        old(build).wf(),
        old(build).mode != RegistryBuildMode::Disabled ==> frame.registered(
            old(build).registry.topology.entries@,
        ),
    ensures
        final(build).wf(),
        final(build).mode == old(build).mode,
        final(build).registry.topology == old(build).registry.topology,
        final(build).graph.memo().len() == old(build).graph.memo().len(),
        final(build).on_disk_imports == old(build).on_disk_imports,
        final(build).structural_source == old(build).structural_source,
        final(build).on_disk_import_stats == old(build).on_disk_import_stats,
        final(build).met == old(build).met,
        final(build).graph.doubted() == old(build).graph.doubted(),
        records_extend(old(build).registry.records@, final(build).registry.records@),
        grows(old(sink).store(), final(sink).store()),
        r matches Err(e) ==> S::reports(e) || no_room(e) || (e is InternalError && (
        final(build).graph.doubted() || !(working.len() > 0 && working.last() == (
            frame.node,
            frame.registry_start is Some,
        ) && active(
            working,
            old(build).graph,
            old(build).mode != RegistryBuildMode::Disabled,
        )) || (frame.registry_start matches Some(start) && (old(build).mode
            == RegistryBuildMode::Disabled || old(build).registry.open@.len() == 0 || old(
            build,
        ).registry.open@.last() != start)))),
        r matches Ok(ptr) ==> {
            let more = facts.insert((ptr, frame.node@));
            let reuse = old(build).mode == RegistryBuildMode::Enabled;
            let registers = old(build).mode != RegistryBuildMode::Disabled;
            &&& frame.placed(root) && registrations(
                registers,
                root,
                origin,
                old(sink).log(),
                old(sink).asked(),
            ) ==> registrations(registers, root, origin, final(sink).log(), final(sink).asked())
            &&& frame.placed(root) && asked_of(
                origin.1.len(),
                old(sink).asked(),
                root,
                facts,
            ) ==> asked_of(origin.1.len(), final(sink).asked(), root, more)
            &&& stamps_kept(
                reuse,
                base,
                first,
                old(sink).store(),
                old(build).deferred_stamps@,
            ) && grows(base, old(sink).store()) ==> stamps_kept(
                reuse,
                base,
                first,
                final(sink).store(),
                final(build).deferred_stamps@,
            )
            &&& told_more(
                told_by::<K, V, S, P>(*old(build)),
                told_by::<K, V, S, P>(*final(build)),
            )
            &&& frame.dealt(
                told_by::<K, V, S, P>(*old(build)),
                trace_of(*old(sink), *old(build)),
            ) ==> frame.node_done(
                told_by::<K, V, S, P>(*final(build)),
                trace_of(*final(sink), *final(build)),
                ptr,
            )
            &&& working.len() > 1 && working.last() == (
                frame.node,
                frame.registry_start is Some,
            ) && active(working, old(build).graph, registers) ==> active(
                working.drop_last(),
                final(build).graph,
                registers,
            )
            &&& match frame.registry_start {
                Some(_) => old(build).registry.open@.len() > 0 && final(build).registry.open@
                    == old(build).registry.open@.drop_last(),
                None => final(build).registry.open@ == old(build).registry.open@,
            }
            &&& state_sound(old(sink).store(), root, facts, *old(build)) && frame.sound(root, facts)
                ==> state_sound(final(sink).store(), root, more, *final(build))
        },
{
    let ghost store = sink.store();
    let ghost log = sink.log();
    let ghost asked = sink.asked();
    let ghost begun = *build;
    let ghost trace = trace_of(*sink, *build);
    let ghost told = told_by::<K, V, S, P>(*build);
    let ghost registers = build.mode != RegistryBuildMode::Disabled;
    let ghost working_so = working.len() > 0 && working.last() == (
        frame.node,
        frame.registry_start is Some,
    ) && active(working, build.graph, registers);
    let ghost snd = state_sound(store, root, facts, *build) && frame.sound(root, facts);
    proof {
        lemma_grows_same(store);
    }
    let kids = match child_pointers(frame) {
        Ok(kids) => kids,
        Err(e) => {
            return Err(e);
        },
    };
    let ghost children = kids@;
    let registry_path: RegistryPathId = match frame.registry_entries.len().checked_sub(1) {
        Some(last) => match frame.registry_entries.get(last) {
            Some(ordinal) => RegistryPathId { ordinal },
            None => RegistryPathId::root(),
        },
        None => RegistryPathId::root(),
    };
    proof {
        if build.mode != RegistryBuildMode::Disabled {
            reveal(entries_registered);
            lemma_chunk_total(
                frame.chain_prefix@.len() as int,
                (K::max_prefix_len() + 1) as int,
            );
        }
    }
    let projected = project_node(&*frame.node, kids);
    let ghost record = projected@;
    let ptr = match emit_record(sink, build, projected, path.as_slice(), registry_path) {
        Ok(ptr) => ptr,
        Err(e) => {
            return Err(e);
        },
    };
    let ghost more = facts.insert((ptr, frame.node@));
    proof {
        if frame.placed(root) && registrations(registers, root, origin, log, asked) {
            lemma_registrations_push(registers, root, origin, log, asked, ptr, record, path@);
        }
        if frame.placed(root) && asked_of(origin.1.len(), asked, root, facts) {
            lemma_asked_push(
                registers,
                origin.1.len(),
                asked,
                root,
                facts,
                ptr,
                path@,
                frame.node@,
            );
        }
        if snd {
            let node = *frame.node;
            lemma_slots_match(store, root, facts, node, frame.slots@, children);
            lemma_ledger_insert(store, root, facts, ptr, record);
            let after = sink.store();
            lemma_slots_match(after, root, facts, node, frame.slots@, children);
            lemma_node_stored(after, ptr, node@, children);
            lemma_ledger_add(after, root, facts, ptr, node@);
            lemma_sound_more(build.graph.memo(), build.deferred_stamps@, facts, more);
        }
    }
    let ghost stamps = build.deferred_stamps@;
    match build.defer_stamp(&frame.node, ptr.to_raw()) {
        Ok(()) => {},
        Err(e) => {
            return Err(e);
        },
    }
    proof {
        if build.mode == RegistryBuildMode::Enabled && stamps_kept(true, base, first, store, stamps)
            && grows(base, store) {
            lemma_stamps_written(
                base,
                first,
                store,
                stamps,
                sink.store(),
                ptr,
                DeferredDurableStamp { node: frame.node, raw: ptr.raw },
            );
        }
        if snd && build.mode == RegistryBuildMode::Enabled {
            lemma_stamps_push(
                stamps,
                more,
                DeferredDurableStamp { node: frame.node, raw: ptr.raw },
            );
        }
    }
    let registry_span = match frame.registry_start {
        Some(start) => {
            if !build.has_registry() {
                return Err(
                    PersistentARTrieError::internal(
                        "compressed serializer frame start has no registry",
                    ),
                );
            }
            match build.registry.finish_subtree(start) {
                Ok(span) => Some(span),
                Err(e) => {
                    return Err(e);
                },
            }
        },
        None => None,
    };
    let ghost memo = build.graph.memo();
    proof {
        if working_so && !build.graph.doubted() {
            reveal(active);
            assert(working[working.len() - 1] == working.last());
        }
    }
    match build.graph.mark_complete(&frame.node, ExpectedBuildState::Active, &ptr, registry_span) {
        Ok(()) => {},
        Err(e) => {
            return Err(e);
        },
    }
    proof {
        lemma_told_more::<K, V, S, P>(begun, *build);
        if working_so && working.len() > 1 {
            lemma_active_complete(
                working,
                working.drop_last(),
                begun.graph,
                build.graph,
                registers,
                frame.node,
                CompletedSubtree { disk_ptr: ptr, registry_span },
            );
        }
        if snd {
            lemma_memo_complete(memo, build.graph.memo(), more, frame.node, ptr);
        }
        if frame.dealt(told, trace) {
            let node = *frame.node;
            let now = told_by::<K, V, S, P>(*build);
            assert(children =~= frame.kids());
            assert(record == node_record(node, children));
            assert((now.places)(trace.log, record, frame.full@, ptr));
            lemma_kids_emit_more(
                told,
                now,
                frame.full@,
                node.steps(),
                frame.slots@,
                frame.slots@.len(),
                frame.start@,
                trace,
                children,
            );
            lemma_node_emits(
                now,
                frame.full@,
                frame.node,
                frame.slots@,
                frame.start@,
                trace,
                children,
                ptr,
            );
        }
    }
    Ok(ptr)
}

/// Where a chunk begins, or the end of the chain.
spec fn chunk_stop(chunk: int, width: int, length: int) -> int {
    if chunk * width <= length {
        chunk * width
    } else {
        length
    }
}

/// Writes the chain above the node of a frame, from the bottom up.
fn emit_chain<
    K: KeyEncoding,
    V: DictionaryValue,
    S: OverlayCompressedSerialize<K, V>,
    P: GraphPolicy<K, V>,
>(
    sink: &mut S,
    build: &mut OverlaySerializationBuild<K, V, P>,
    path: &Vec<K::Unit>,
    frame: &Frame<K, V>,
    terminus_ptr: SwizzledPtr,
    Ghost(root): Ghost<Tree<K::Unit, V>>,
    Ghost(facts): Ghost<Facts<K::Unit, V>>,
    Ghost(base): Ghost<Store<K::Unit, V>>,
    Ghost(first): Ghost<Seq<DeferredDurableStamp<K, V>>>,
    Ghost(origin): Ghost<(Log<K::Unit, V>, Asked<K::Unit>)>,
) -> (r: TrieResult<(SwizzledPtr, Ghost<Facts<K::Unit, V>>)>)
    requires
        frame.ok(),
        path@ == frame.full@,
        old(build).wf(),
        old(build).mode != RegistryBuildMode::Disabled ==> frame.registered(
            old(build).registry.topology.entries@,
        ),
    ensures
        final(build).wf(),
        final(build).mode == old(build).mode,
        final(build).registry.topology == old(build).registry.topology,
        final(build).registry.open@ == old(build).registry.open@,
        final(build).graph == old(build).graph,
        final(build).on_disk_imports == old(build).on_disk_imports,
        final(build).structural_source == old(build).structural_source,
        final(build).on_disk_import_stats == old(build).on_disk_import_stats,
        final(build).met == old(build).met,
        records_extend(old(build).registry.records@, final(build).registry.records@),
        told_more(told_by::<K, V, S, P>(*old(build)), told_by::<K, V, S, P>(*final(build))),
        grows(old(sink).store(), final(sink).store()),
        r matches Err(e) ==> S::reports(e) || no_room(e) || (e is InternalError
            && K::max_prefix_len() == usize::MAX),
        r matches Ok((ptr, more)) ==> {
            let reuse = old(build).mode == RegistryBuildMode::Enabled;
            let registers = old(build).mode != RegistryBuildMode::Disabled;
            &&& frame.placed(root) && registrations(
                registers,
                root,
                origin,
                old(sink).log(),
                old(sink).asked(),
            ) ==> registrations(registers, root, origin, final(sink).log(), final(sink).asked())
            &&& frame.placed(root) && asked_of(
                origin.1.len(),
                old(sink).asked(),
                root,
                facts,
            ) ==> asked_of(origin.1.len(), final(sink).asked(), root, more@)
            &&& stamps_kept(
                reuse,
                base,
                first,
                old(sink).store(),
                old(build).deferred_stamps@,
            ) && grows(base, old(sink).store()) ==> stamps_kept(
                reuse,
                base,
                first,
                final(sink).store(),
                final(build).deferred_stamps@,
            )
            &&& frame.chain_prefix@.len() == 0 ==> ptr == terminus_ptr && final(sink).log()
                == old(sink).log()
            &&& frame.peeled(told_by::<K, V, S, P>(*old(build))) && frame.end_done(
                told_by::<K, V, S, P>(*old(build)),
                trace_of(*old(sink), *old(build)),
                terminus_ptr,
            ) ==> frame.head_done(
                told_by::<K, V, S, P>(*final(build)),
                trace_of(*final(sink), *final(build)),
                ptr,
            )
            &&& facts.subset_of(more@)
            &&& state_sound(old(sink).store(), root, facts, *old(build)) && reachable(
                root,
                frame.head()@,
            ) && facts.contains((terminus_ptr, frame.node@)) ==> state_sound(
                final(sink).store(),
                root,
                more@,
                *final(build),
            ) && more@.contains((ptr, frame.head()@))
        },
{
    let ghost store = sink.store();
    let ghost snd = state_sound(store, root, facts, *build) && reachable(root, frame.head()@)
        && facts.contains((terminus_ptr, frame.node@));
    let ghost reuse = build.mode == RegistryBuildMode::Enabled;
    let ghost kept_so = stamps_kept(reuse, base, first, store, build.deferred_stamps@) && grows(
        base,
        store,
    );
    let ghost begun = *build;
    let ghost told = told_by::<K, V, S, P>(*build);
    let ghost neat = frame.peeled(told) && frame.end_done(
        told,
        trace_of(*sink, *build),
        terminus_ptr,
    );
    let ghost path_up = frame.full@.take(frame.full@.len() - frame.chain_prefix@.len());
    let ghost registers = build.mode != RegistryBuildMode::Disabled;
    let ghost listed = frame.placed(root) && registrations(
        registers,
        root,
        origin,
        sink.log(),
        sink.asked(),
    );
    let ghost known_so = frame.placed(root) && asked_of(
        origin.1.len(),
        sink.asked(),
        root,
        facts,
    );
    proof {
        lemma_grows_same(store);
        reveal(chain_ok);
        lemma_told_more::<K, V, S, P>(begun, *build);
        assert(frame.chain_prefix@.len() == 0 ==> path_up =~= frame.full@);
    }
    if frame.chain_prefix.len() == 0 {
        return Ok((terminus_ptr, Ghost(facts)));
    }
    let width: usize = match chain_chunk_width::<K>() {
        Ok(width) => width,
        Err(e) => {
            return Err(e);
        },
    };
    let length: usize = frame.chain_prefix.len();
    let count: usize = match chain_chunk_count(length, width) {
        Ok(count) => count,
        Err(e) => {
            return Err(e);
        },
    };
    let depth: usize = path.len();
    let ghost live = frame.live_spine@;
    let ghost units = frame.chain_prefix@;
    let ghost node = frame.node;
    let ghost mut known = facts;
    let mut child_ptr: SwizzledPtr = terminus_ptr;
    let mut remaining: usize = count;
    proof {
        lemma_chunk_index(length as int, width as int, count as int);
        assert(units.take(length as int) =~= units);
        assert(path_up + units =~= frame.full@) by {
            assert(frame.full@.skip(frame.full@.len() - units.len()) == units);
        }
    }
    while remaining > 0
        invariant
            frame.ok(),
            path@ == frame.full@,
            depth == path@.len(),
            depth == frame.base_depth + 1 + length,
            width == K::max_prefix_len() + 1,
            length == frame.chain_prefix@.len(),
            length > 0,
            count == chunk_total(length as int, width as int),
            remaining <= count,
            live == frame.live_spine@,
            units == frame.chain_prefix@,
            node == frame.node,
            live.len() == units.len(),
            build.wf(),
            build.mode == old(build).mode,
            build.registry.topology == old(build).registry.topology,
            build.registry.open@ == old(build).registry.open@,
            build.graph == old(build).graph,
            build.on_disk_imports == old(build).on_disk_imports,
            build.structural_source == old(build).structural_source,
            build.on_disk_import_stats == old(build).on_disk_import_stats,
            build.met == old(build).met,
            begun == *old(build),
            records_extend(begun.registry.records@, build.registry.records@),
            told_more(told_by::<K, V, S, P>(begun), told_by::<K, V, S, P>(*build)),
            path_up == frame.full@.take(frame.full@.len() - frame.chain_prefix@.len()),
            reuse == (build.mode == RegistryBuildMode::Enabled),
            neat ==> frame.peeled(told_by::<K, V, S, P>(*build)),
            registers == (build.mode != RegistryBuildMode::Disabled),
            listed || known_so ==> frame.placed(root),
            listed ==> registrations(registers, root, origin, sink.log(), sink.asked()),
            known_so ==> asked_of(origin.1.len(), sink.asked(), root, known),
            kept_so ==> grows(base, store),
            kept_so ==> stamps_kept(reuse, base, first, sink.store(), build.deferred_stamps@),
            neat ==> emits(
                told_by::<K, V, S, P>(*build),
                path_up + units.take(chunk_stop(remaining as int, width as int, length as int)),
                chain_node(live, node, remaining * width),
                frame.start@,
                trace_of(*sink, *build),
                child_ptr,
            ),
            build.mode != RegistryBuildMode::Disabled ==> frame.registered(
                build.registry.topology.entries@,
            ),
            store == old(sink).store(),
            grows(store, sink.store()),
            facts.subset_of(known),
            snd ==> reachable(root, chain_node(live, node, 0)@),
            snd ==> state_sound(sink.store(), root, known, *build),
            snd ==> known.contains((child_ptr, chain_node(live, node, remaining * width)@)),
        decreases remaining,
    {
        let chunk_index: usize = remaining - 1;
        proof {
            lemma_chunk_index(length as int, width as int, chunk_index as int);
            assert(remaining * width == chunk_index * width + width) by (nonlinear_arith)
                requires
                    remaining == chunk_index + 1,
            ;
        }
        let (chunk_start, chunk_end) = match chain_chunk_bounds(length, width, chunk_index) {
            Ok(bounds) => bounds,
            Err(e) => {
                return Err(e);
            },
        };
        let chunk_path_end: usize = frame.base_depth + 1 + chunk_start;
        let chunk_path = vstd::slice::slice_subrange(path.as_slice(), 0, chunk_path_end);
        let registry_path: RegistryPathId = if !build.has_registry() {
            RegistryPathId::root()
        } else {
            proof {
                reveal(entries_registered);
            }
            match frame.registry_entries.get(chunk_index) {
                Some(ordinal) => RegistryPathId { ordinal },
                None => {
                    return Err(
                        PersistentARTrieError::internal(
                            "compressed serializer chunk registry path is unavailable",
                        ),
                    );
                },
            }
        };
        proof {
            if build.mode != RegistryBuildMode::Disabled {
                reveal(entries_registered);
                let ids = frame.registry_entries@;
                assert(topology_path(
                    build.registry.topology.entries@,
                    ids[chunk_index as int] as int,
                ) == path@.take(frame.base_depth + 1 + chunk_index * width));
                assert(path@.take(chunk_path_end as int) =~= path@.subrange(
                    0,
                    chunk_path_end as int,
                ));
            }
        }
        let projected = project_chunk(&frame.chain_prefix, chunk_start, chunk_end, child_ptr);
        let ghost record = projected@;
        let ghost here = sink.store();
        let ghost log = sink.log();
        let ghost asked = sink.asked();
        let ghost trace = trace_of(*sink, *build);
        let ghost previous = *build;
        let next_ptr = match emit_record(sink, build, projected, chunk_path, registry_path) {
            Ok(ptr) => ptr,
            Err(e) => {
                proof {
                    lemma_grows_trans(store, here, sink.store());
                    lemma_told_more::<K, V, S, P>(begun, *build);
                }
                return Err(e);
            },
        };
        let ghost top = chain_node(live, node, chunk_start as int);
        let ghost more = known.insert((next_ptr, top@));
        proof {
            if listed || known_so {
                lemma_placed_chain(root, *frame, chunk_start as int);
                assert(chunk_path@ =~= frame.full@.take(frame.base_depth + 1 + chunk_start));
            }
            if listed {
                lemma_registrations_push(
                    registers,
                    root,
                    origin,
                    log,
                    asked,
                    next_ptr,
                    record,
                    chunk_path@,
                );
            }
            if known_so {
                lemma_asked_push(
                    registers,
                    origin.1.len(),
                    asked,
                    root,
                    known,
                    next_ptr,
                    chunk_path@,
                    top@,
                );
            }
            lemma_grows_trans(store, here, sink.store());
            lemma_told_more::<K, V, S, P>(begun, *build);
            lemma_told_more::<K, V, S, P>(previous, *build);
            if neat {
                let end = chain_node(live, node, chunk_end as int);
                assert(chain_node(live, node, remaining * width) == end);
                let was = told_by::<K, V, S, P>(previous);
                let now = told_by::<K, V, S, P>(*build);
                lemma_peeled_more(*frame, was, now);
                lemma_emits_more(
                    was,
                    now,
                    path_up + units.take(chunk_end as int),
                    end,
                    frame.start@,
                    trace,
                    child_ptr,
                );
                lemma_chain_part(live, units, node, chunk_start as int, chunk_end as int);
                assert(chunk_path@ =~= path_up + units.take(chunk_start as int)) by {
                    assert(path_up + units =~= frame.full@) by {
                        assert(frame.full@.skip(frame.full@.len() - units.len()) == units);
                    }
                    assert(path_up.len() == frame.base_depth + 1);
                }
                assert((now.places)(log, record, chunk_path@, next_ptr));
                lemma_chunk_emits(
                    now,
                    path_up,
                    live,
                    units,
                    node,
                    chunk_start as int,
                    chunk_end as int,
                    frame.start@,
                    trace,
                    next_ptr,
                    child_ptr,
                );
                assert(chunk_stop(chunk_index as int, width as int, length as int) == chunk_start);
            }
            if snd {
                let end = chain_node(live, node, chunk_end as int);
                assert(chain_node(live, node, remaining * width) == end);
                lemma_ledger_fact(here, root, known, child_ptr, end@);
                lemma_ledger_insert(here, root, known, next_ptr, record);
                let after = sink.store();
                lemma_ledger_fact(after, root, known, child_ptr, end@);
                lemma_chain_part(live, units, node, chunk_start as int, chunk_end as int);
                lemma_chunk_stored(
                    after,
                    next_ptr,
                    top@,
                    units.subrange(chunk_start as int, chunk_end as int),
                    end@,
                    child_ptr,
                );
                lemma_chain_reachable(root, live, units, node, chunk_start as int);
                lemma_ledger_add(after, root, known, next_ptr, top@);
                lemma_sound_more(build.graph.memo(), build.deferred_stamps@, known, more);
            }
        }
        let ghost stamps = build.deferred_stamps@;
        match build.defer_stamp(&frame.live_spine[chunk_start], next_ptr.to_raw()) {
            Ok(()) => {},
            Err(e) => {
                return Err(e);
            },
        }
        proof {
            if reuse && kept_so {
                lemma_grows_trans(base, store, here);
                lemma_stamps_written(
                    base,
                    first,
                    here,
                    stamps,
                    sink.store(),
                    next_ptr,
                    DeferredDurableStamp { node: top, raw: next_ptr.raw },
                );
            }
            if snd && build.mode == RegistryBuildMode::Enabled {
                lemma_stamps_push(
                    stamps,
                    more,
                    DeferredDurableStamp { node: top, raw: next_ptr.raw },
                );
            }
            known = more;
        }
        child_ptr = next_ptr;
        remaining = chunk_index;
    }
    proof {
        assert(remaining * width == 0) by (nonlinear_arith)
            requires
                remaining == 0,
        ;
        assert(path_up + units.take(0) =~= path_up);
    }
    Ok((child_ptr, Ghost(known)))
}

/// What became of a child slot.
enum Step<K: KeyEncoding, V> {
    /// Its record is known.
    Resolved(SwizzledPtr),
    /// Its node has to be written first.
    Descend(Frame<K, V>),
}

/// The record of a durable child was imported before.
pub open spec fn imported(
    imports: Map<u64, CompletedOnDiskImport>,
    pointer: SwizzledPtr,
) -> bool {
    pointer.location() matches Some(location) && imports.dom().contains(
        spec_record_address(location) as u64,
    )
}

/// The record of a durable child was imported before under another layout.
pub open spec fn clashes(imports: Map<u64, CompletedOnDiskImport>, pointer: SwizzledPtr) -> bool {
    imported(imports, pointer) && !held(imports, pointer)
}

/// Imports stay, and each new one is of a record that the sink took over.
pub open spec fn imports_grow<
    K: KeyEncoding,
    V: DictionaryValue,
    S: OverlayCompressedSerialize<K, V>,
>(
    before: Map<u64, CompletedOnDiskImport>,
    after: Map<u64, CompletedOnDiskImport>,
    source: Option<RegistryStructuralSource<K::Unit>>,
) -> bool {
    &&& forall|address: u64| #[trigger]
        before.dom().contains(address) ==> after.dom().contains(address) && after[address]
            == before[address]
    &&& forall|address: u64| #[trigger]
        after.dom().contains(address) ==> before.dom().contains(address) || exists|
            path: Seq<K::Unit>,
        | #[trigger]
            S::takes(after[address].canonical_ptr, path, false, source)
}

/// What is registered of a finished subtree cannot be copied to the path that was
/// registered last.
pub open spec fn ungraftable<U: Copy>(
    registry: DiskLocationRegistry<U>,
    span: RegistryBuilderSubtree,
    ptr: SwizzledPtr,
) -> bool {
    !registry.graftable(
        span,
        RegistryPathId { ordinal: registry.topology.entries@.len() as usize },
        ptr,
    )
}

/// Why a durable child cannot be dealt with though there is room for it: it names no
/// record; or, where paths are registered, its record has another layout elsewhere,
/// the sink cannot take it over, or what was imported of it before cannot be copied.
pub open spec fn import_refused<
    K: KeyEncoding,
    V: DictionaryValue,
    S: OverlayCompressedSerialize<K, V>,
>(
    e: PersistentARTrieError,
    pointer: SwizzledPtr,
    registers: bool,
    imports: Map<u64, CompletedOnDiskImport>,
    registry: DiskLocationRegistry<K::Unit>,
) -> bool {
    ||| e is CorruptedFile && (pointer.location() is None || (registers && clashes(
        imports,
        pointer,
    )))
    ||| e is InternalError && registers && {
        ||| S::declines(pointer, false)
        ||| clashes(imports, pointer)
        ||| held(imports, pointer) && ungraftable(
            registry,
            imports[spec_record_address(pointer.location()->0) as u64].registry_span,
            pointer,
        )
    }
}

/// Why a durable child cannot be dealt with. `full` says that a size limit is reached.
pub open spec fn import_error<
    K: KeyEncoding,
    V: DictionaryValue,
    S: OverlayCompressedSerialize<K, V>,
>(
    e: PersistentARTrieError,
    pointer: SwizzledPtr,
    registers: bool,
    imports: Map<u64, CompletedOnDiskImport>,
    registry: DiskLocationRegistry<K::Unit>,
    full: bool,
) -> bool {
    ||| import_refused::<K, V, S>(e, pointer, registers, imports, registry)
    ||| registers && (S::reports(e) || no_room(e) || (e is InternalError && full))
}

/// A record at a registered path.
proof fn lemma_taken_record<U>(
    before: Seq<TopologyEntry<U>>,
    registry: DiskLocationRegistry<U>,
    id: RegistryPathId,
    path: Seq<U>,
    ptr: SwizzledPtr,
    resident: bool,
)
    requires
        paths_extend(before, registry.topology.entries@),
        0 < id.ordinal <= before.len(),
        topology_path(before, id.ordinal as int) == path,
        exists|i: int|
            0 <= i < registry.records@.len() && (#[trigger] registry.records@[i]).path_id == id
                && registry.records@[i].disk_ptr == ptr && registry.records@[i].resident
                == resident,
    ensures
        has_record(registry, path, ptr, resident),
{
    let i = choose|i: int|
        0 <= i < registry.records@.len() && (#[trigger] registry.records@[i]).path_id == id
            && registry.records@[i].disk_ptr == ptr && registry.records@[i].resident == resident;
    crate::registry::paths_are_stable(before, registry.topology.entries@, id.ordinal as int);
    assert(record_at(registry, registry.records@[i], path, ptr, resident));
}

/// One more child that keeps its record.
proof fn lemma_met_push<U>(
    met: Seq<Occurrence<U>>,
    occurrence: Occurrence<U>,
    before: Map<u64, CompletedOnDiskImport>,
    after: Map<u64, CompletedOnDiskImport>,
)
    requires
        met_imported(met, before),
        forall|address: u64| #[trigger]
            before.dom().contains(address) ==> after.dom().contains(address) && after[address]
                == before[address],
        taken(occurrence, occurrence.ptr) ==> held(after, occurrence.ptr),
    ensures
        met_imported(met.push(occurrence), after),
{
    let longer = met.push(occurrence);
    assert forall|j: int| 0 <= j < longer.len() && taken(longer[j], longer[j].ptr) implies held(
        after,
        (#[trigger] longer[j]).ptr,
    ) by {
        if j < met.len() {
            assert(longer[j] == met[j]);
            assert(held(before, met[j].ptr));
        }
    }
}

/// Registers a durable child and everything below it, and gives back its pointer.
/// A record that was met before is copied within the registry. Two children that
/// claim different layouts for one record are an error.
fn resolve_on_disk<
    K: KeyEncoding,
    V: DictionaryValue,
    S: OverlayCompressedSerialize<K, V>,
    P: GraphPolicy<K, V>,
>(
    sink: &mut S,
    build: &mut OverlaySerializationBuild<K, V, P>,
    path: &mut Vec<K::Unit>,
    edge: K::Unit,
    pointer: SwizzledPtr,
    parent_path: RegistryPathId,
) -> (r: TrieResult<SwizzledPtr>)
    requires
        old(build).wf(),
        old(build).mode != RegistryBuildMode::Disabled ==> parent_path.ordinal <= old(
            build,
        ).registry.topology.entries@.len() && topology_path(
            old(build).registry.topology.entries@,
            parent_path.ordinal as int,
        ) == old(path)@,
    ensures
        final(sink).store() == old(sink).store(),
        final(sink).log() == old(sink).log(),
        final(sink).asked() == old(sink).asked(),
        final(build).wf(),
        final(build).mode == old(build).mode,
        final(build).graph == old(build).graph,
        final(build).deferred_stamps == old(build).deferred_stamps,
        paths_extend(
            old(build).registry.topology.entries@,
            final(build).registry.topology.entries@,
        ),
        pointer.location() is None ==> (r matches Err(e) && e is CorruptedFile),
        pointer.location() is Some && old(build).mode == RegistryBuildMode::Disabled ==> r is Ok,
        r matches Err(e) ==> import_error::<K, V, S>(
            e,
            pointer,
            old(build).mode != RegistryBuildMode::Disabled,
            final(build).on_disk_imports@,
            final(build).registry,
            old(path)@.len() == usize::MAX || final(build).registry.topology.entries@.len()
                == usize::MAX,
        ),
        imports_grow::<K, V, S>(
            old(build).on_disk_imports@,
            final(build).on_disk_imports@,
            old(build).structural_source,
        ),
        final(build).structural_source == old(build).structural_source,
        records_extend(old(build).registry.records@, final(build).registry.records@),
        r matches Ok(ptr) ==> {
            &&& ptr == pointer
            &&& told_more(
                told_by::<K, V, S, P>(*old(build)),
                told_by::<K, V, S, P>(*final(build)),
            )
            &&& final(build).met@.len() == old(build).met@.len() + 1
            &&& final(build).met@.drop_last() == old(build).met@
            &&& met_durable(
                told_by::<K, V, S, P>(*final(build)),
                old(path)@.push(edge),
                pointer,
                old(build).met@,
                final(build).met@.last(),
            )
            &&& final(build).on_disk_import_stats == counted_met(
                old(build).on_disk_import_stats,
                final(build).met@.last(),
            )
            &&& final(path)@ == old(path)@
            &&& final(build).registry.open@ == old(build).registry.open@
        },
{
    let location = match pointer.disk_location() {
        Some(location) => location,
        None => {
            return Err(
                PersistentARTrieError::corrupted("durable child pointer names no record"),
            );
        },
    };
    let canonical = SwizzledPtr::on_disk(location.block_id, location.offset, location.node_type);
    proof {
        locations_are_distinct(canonical, pointer);
    }
    let ghost begun = *build;
    let ghost place = path@.push(edge);
    build.record_on_disk_lookup();
    if !build.has_registry() {
        let ghost occurrence = Occurrence {
            path: place,
            ptr: pointer,
            resident: false,
            how: How::Passed,
        };
        build.met = Ghost(build.met@.push(occurrence));
        proof {
            assert(build.met@.drop_last() =~= begun.met@);
            lemma_met_push(begun.met@, occurrence, begun.on_disk_imports@, build.on_disk_imports@);
            lemma_told_more::<K, V, S, P>(begun, *build);
        }
        return Ok(canonical);
    }
    let address: u64 = record_address(location);
    match build.on_disk_import(address) {
        Some(import) => {
            let completed = match import.canonical_ptr.disk_location() {
                Some(completed) => completed,
                None => {
                    return Err(
                        PersistentARTrieError::internal(
                            "durable serializer memo contains a non-durable pointer",
                        ),
                    );
                },
            };
            if completed.node_type != location.node_type {
                return Err(
                    PersistentARTrieError::corrupted(
                        "two durable child occurrences claim different node types for one arena record",
                    ),
                );
            }
            if completed.block_id != location.block_id || completed.offset != location.offset {
                return Err(
                    PersistentARTrieError::internal(
                        "durable serializer memo address does not match its key",
                    ),
                );
            }
            proof {
                locations_are_distinct(import.canonical_ptr, pointer);
            }
            let mut segment: Vec<K::Unit> = Vec::new();
            segment.push(edge);
            let destination = match build.registry.reserve_path(parent_path, segment.as_slice()) {
                Ok(destination) => destination,
                Err(e) => {
                    return Err(e);
                },
            };
            let graft = match build.registry.graft_subtree(
                import.registry_span,
                destination,
                import.canonical_ptr,
                false,
            ) {
                Ok(graft) => graft,
                Err(e) => {
                    return Err(e);
                },
            };
            build.record_local_graft(graft);
            let ghost occurrence = Occurrence {
                path: place,
                ptr: pointer,
                resident: false,
                how: How::Grafted(
                    Graft {
                        span: import.registry_span,
                        destination: destination.ordinal,
                        first_record: begun.registry.records@.len() as int,
                        stats: graft,
                    },
                ),
            };
            build.met = Ghost(build.met@.push(occurrence));
            proof {
                assert(build.met@.drop_last() =~= begun.met@);
                lemma_met_push(
                    begun.met@,
                    occurrence,
                    begun.on_disk_imports@,
                    build.on_disk_imports@,
                );
                lemma_told_more::<K, V, S, P>(begun, *build);
                assert(begun.registry.topology.path(parent_path) + segment@ =~= place);
            }
            Ok(import.canonical_ptr)
        },
        None => {
            match build.try_reserve_on_disk_import(address) {
                Ok(()) => {},
                Err(e) => {
                    return Err(e);
                },
            }
            let requested: usize = match path.len().checked_add(1) {
                Some(requested) => requested,
                None => {
                    return Err(
                        PersistentARTrieError::internal(
                            "compressed serializer durable-child path length overflow",
                        ),
                    );
                },
            };
            match reserve_entries(path, 1, "compressed serializer durable-child path", requested) {
                Ok(()) => {},
                Err(e) => {
                    return Err(e);
                },
            }
            let ghost above = path@;
            path.push(edge);
            let mut segment: Vec<K::Unit> = Vec::new();
            segment.push(edge);
            let registry_path = match build.registry.reserve_path(parent_path, segment.as_slice()) {
                Ok(registry_path) => registry_path,
                Err(e) => {
                    return Err(e);
                },
            };
            assert(above + segment@ =~= path@);
            let start = match build.registry.begin_subtree(registry_path) {
                Ok(start) => start,
                Err(e) => {
                    return Err(e);
                },
            };
            let ghost reserved = build.registry.topology.entries@;
            let imported = match sink.try_reuse_durable_subtree(
                &canonical,
                path.as_slice(),
                registry_path,
                &mut build.registry,
                build.structural_source.as_ref(),
                false,
            ) {
                Ok(imported) => imported,
                Err(e) => {
                    return Err(e);
                },
            };
            let ghost registered = build.registry;
            proof {
                if imported {
                    lemma_taken_record(reserved, registered, registry_path, path@, canonical, false);
                }
            }
            let _ = path.pop();
            assert(path@ =~= above);
            if !imported {
                match build.registry.cancel_subtree(start) {
                    Ok(()) => {},
                    Err(e) => {
                        return Err(e);
                    },
                }
                return Err(
                    PersistentARTrieError::internal(
                        "an on-disk subtree could not be imported into the registry",
                    ),
                );
            }
            let registry_span = match build.registry.finish_subtree(start) {
                Ok(span) => span,
                Err(e) => {
                    return Err(e);
                },
            };
            assert(build.registry.open@ =~= old(build).registry.open@);
            match build.memoize_on_disk_import(
                address,
                CompletedOnDiskImport { canonical_ptr: canonical, registry_span },
            ) {
                Ok(()) => {},
                Err(e) => {
                    return Err(e);
                },
            }
            build.record_source_import();
            let ghost occurrence = Occurrence {
                path: place,
                ptr: pointer,
                resident: false,
                how: How::Taken,
            };
            build.met = Ghost(build.met@.push(occurrence));
            proof {
                assert(build.met@.drop_last() =~= begun.met@);
                lemma_met_push(
                    begun.met@,
                    occurrence,
                    begun.on_disk_imports@,
                    build.on_disk_imports@,
                );
                lemma_told_more::<K, V, S, P>(begun, *build);
                if taken_before(begun.met@, pointer) {
                    let j = choose|j: int|
                        0 <= j < begun.met@.len() && #[trigger] taken(begun.met@[j], pointer);
                    assert(held(begun.on_disk_imports@, begun.met@[j].ptr));
                }
            }
            Ok(canonical)
        },
    }
}

/// Takes over a stamped resident child without writing it, if the sink agrees. If
/// not, the path that was registered for it is handed on.
fn reuse_resident<
    K: KeyEncoding,
    V: DictionaryValue,
    S: OverlayCompressedSerialize<K, V>,
    P: GraphPolicy<K, V>,
>(
    sink: &mut S,
    build: &mut OverlaySerializationBuild<K, V, P>,
    path: &mut Vec<K::Unit>,
    edge: K::Unit,
    child: &Arc<OverlayNode<K, V>>,
    parent_path: RegistryPathId,
    Ghost(working): Ghost<Seq<(Arc<OverlayNode<K, V>>, bool)>>,
) -> (r: TrieResult<(bool, Option<RegistryPathId>)>)
    requires
        old(build).wf(),
        old(build).mode == RegistryBuildMode::Enabled,
        parent_path.ordinal <= old(build).registry.topology.entries@.len(),
        topology_path(old(build).registry.topology.entries@, parent_path.ordinal as int) == old(
            path,
        )@,
    ensures
        final(sink).store() == old(sink).store(),
        final(sink).log() == old(sink).log(),
        final(sink).asked() == old(sink).asked(),
        final(build).on_disk_import_stats == old(build).on_disk_import_stats,
        final(build).graph.doubted() == old(build).graph.doubted(),
        records_extend(old(build).registry.records@, final(build).registry.records@),
        final(build).wf(),
        final(build).mode == old(build).mode,
        final(build).on_disk_imports == old(build).on_disk_imports,
        final(build).structural_source == old(build).structural_source,
        final(build).deferred_stamps == old(build).deferred_stamps,
        paths_extend(
            old(build).registry.topology.entries@,
            final(build).registry.topology.entries@,
        ),
        final(build).graph.memo().len() == old(build).graph.memo().len(),
        r matches Err(e) ==> S::reports(e) || no_room(e) || (e is InternalError && (old(
            build,
        ).graph.doubted() || !old(build).graph.unseen(*child) || old(path)@.len() == usize::MAX
            || final(build).registry.topology.entries@.len() == usize::MAX)),
        r matches Ok((reused, top)) ==> {
            &&& final(path)@ == old(path)@
            &&& final(build).registry.open@ == old(build).registry.open@
            &&& reused == (top is None)
            &&& told_more(
                told_by::<K, V, S, P>(*old(build)),
                told_by::<K, V, S, P>(*final(build)),
            )
            &&& if reused {
                &&& final(build).met@.len() == old(build).met@.len() + 1
                &&& final(build).met@.drop_last() == old(build).met@
                &&& final(build).met@.last().ptr == (SwizzledPtr { raw: child.stamp })
                &&& child.stamp != 0 ==> keeps(
                    told_by::<K, V, S, P>(*final(build)),
                    old(path)@.push(edge),
                    *child,
                    final(build).met@.last(),
                )
                &&& works_above(working, *old(build), *child) ==> active(
                    working,
                    final(build).graph,
                    true,
                )
            } else {
                &&& S::declines(SwizzledPtr { raw: child.stamp }, true)
                &&& final(build).met == old(build).met
                &&& top->0.ordinal == final(build).registry.topology.entries@.len()
            }
            &&& reused ==> forall|i: int|
                0 <= i < old(build).graph.memo().len() ==> (
                #[trigger] final(build).graph.memo()[i]).0 == old(build).graph.memo()[i].0 && (
                final(build).graph.memo()[i].1 == old(build).graph.memo()[i].1
                    || match final(build).graph.memo()[i].1 {
                    NodeBuildState::Complete(subtree) => final(build).graph.memo()[i].0 == *child
                        && subtree.disk_ptr == (SwizzledPtr { raw: child.stamp }),
                    _ => true,
                })
            &&& !reused ==> final(build).graph == old(build).graph
            &&& top matches Some(id) ==> 0 < id.ordinal
                <= final(build).registry.topology.entries@.len() && topology_path(
                final(build).registry.topology.entries@,
                id.ordinal as int,
            ) == old(path)@.push(edge)
        },
{
    let pointer = SwizzledPtr::from_raw(child.durable_stamp());
    let ghost begun = *build;
    let capture: bool = build.graph.is_compression_boundary(child);
    let requested: usize = match path.len().checked_add(1) {
        Some(requested) => requested,
        None => {
            return Err(
                PersistentARTrieError::internal(
                    "compressed serializer resident-child path length overflow",
                ),
            );
        },
    };
    match reserve_entries(path, 1, "compressed serializer resident-child path", requested) {
        Ok(()) => {},
        Err(e) => {
            return Err(e);
        },
    }
    let ghost above = path@;
    path.push(edge);
    let mut segment: Vec<K::Unit> = Vec::new();
    segment.push(edge);
    let registry_path = match build.registry.reserve_path(parent_path, segment.as_slice()) {
        Ok(registry_path) => registry_path,
        Err(e) => {
            return Err(e);
        },
    };
    assert(above + segment@ =~= path@);
    let start: Option<RegistryBuilderSubtreeStart> = if capture {
        match build.registry.begin_subtree(registry_path) {
            Ok(start) => Some(start),
            Err(e) => {
                return Err(e);
            },
        }
    } else {
        None
    };
    let ghost reserved = build.registry.topology.entries@;
    let reused = match sink.try_reuse_durable_subtree(
        &pointer,
        path.as_slice(),
        registry_path,
        &mut build.registry,
        build.structural_source.as_ref(),
        true,
    ) {
        Ok(reused) => reused,
        Err(e) => {
            return Err(e);
        },
    };
    proof {
        if reused {
            lemma_taken_record(reserved, build.registry, registry_path, path@, pointer, true);
        }
    }
    let _ = path.pop();
    assert(path@ =~= above);
    if reused {
        let span = match start {
            Some(start) => match build.registry.finish_subtree(start) {
                Ok(span) => Some(span),
                Err(e) => {
                    return Err(e);
                },
            },
            None => None,
        };
        assert(build.registry.open@ =~= old(build).registry.open@);
        match build.graph.mark_complete(child, ExpectedBuildState::Unseen, &pointer, span) {
            Ok(()) => {},
            Err(e) => {
                return Err(e);
            },
        }
        let ghost occurrence = Occurrence {
            path: above.push(edge),
            ptr: pointer,
            resident: true,
            how: How::Taken,
        };
        build.met = Ghost(build.met@.push(occurrence));
        proof {
            assert(build.met@.drop_last() =~= begun.met@);
            lemma_met_push(begun.met@, occurrence, begun.on_disk_imports@, build.on_disk_imports@);
            lemma_told_more::<K, V, S, P>(begun, *build);
            if works_above(working, begun, *child) {
                lemma_active_complete(
                    working,
                    working,
                    begun.graph,
                    build.graph,
                    true,
                    *child,
                    CompletedSubtree { disk_ptr: pointer, registry_span: span },
                );
            }
        }
        Ok((true, None))
    } else {
        match start {
            Some(start) => match build.registry.cancel_subtree(start) {
                Ok(()) => {},
                Err(e) => {
                    return Err(e);
                },
            },
            None => {},
        }
        assert(build.registry.open@ =~= old(build).registry.open@);
        proof {
            lemma_told_more::<K, V, S, P>(begun, *build);
        }
        Ok((false, Some(registry_path)))
    }
}

/// What is registered of a node that is complete cannot be copied.
pub open spec fn graft_refused<K: KeyEncoding, V: DictionaryValue, P: GraphPolicy<K, V>>(
    build: OverlaySerializationBuild<K, V, P>,
) -> bool {
    exists|i: int|
        0 <= i < build.graph.memo().len() && entry_refused(
            build.registry,
            #[trigger] build.graph.memo()[i],
        )
}

/// The same of one remembered node.
pub open spec fn entry_refused<K: KeyEncoding, V>(
    registry: DiskLocationRegistry<K::Unit>,
    entry: (Arc<OverlayNode<K, V>>, NodeBuildState),
) -> bool {
    entry.1 matches NodeBuildState::Complete(subtree) && (
    subtree.registry_span matches Some(span) && ungraftable(registry, span, subtree.disk_ptr))
}

/// Why a resident child cannot be dealt with though there is room: the policy was told
/// two things of one node, or does not agree with the frames, or the path would be too
/// long to count; and where paths are registered, the registry is full, or what is
/// registered of a complete node cannot be copied.
spec fn descend_refused<K: KeyEncoding, V: DictionaryValue, P: GraphPolicy<K, V>>(
    before: OverlaySerializationBuild<K, V, P>,
    after: OverlaySerializationBuild<K, V, P>,
    path: Seq<K::Unit>,
    child: Arc<OverlayNode<K, V>>,
    working: Seq<(Arc<OverlayNode<K, V>>, bool)>,
) -> bool {
    ||| after.graph.doubted()
    ||| !works_above(working, before, child)
    ||| path.len() + child.steps() > usize::MAX
    ||| K::max_prefix_len() == usize::MAX
    ||| before.mode != RegistryBuildMode::Disabled && (after.registry.topology.entries@.len()
        == usize::MAX || graft_refused(after))
}

/// The policy agrees with the frames, which lie above a child.
spec fn works_above<K: KeyEncoding, V: DictionaryValue, P: GraphPolicy<K, V>>(
    working: Seq<(Arc<OverlayNode<K, V>>, bool)>,
    build: OverlaySerializationBuild<K, V, P>,
    child: Arc<OverlayNode<K, V>>,
) -> bool {
    &&& working.len() > 0
    &&& child.steps() < working.last().0.steps()
    &&& active(working, build.graph, build.mode != RegistryBuildMode::Disabled)
}

/// Starts on a child that has to be written: peels its chain, extends the path and
/// registers the paths of the chunks. If the node at the end of the chain is complete
/// already, it is met there, and what is registered of it is copied.
fn descend<
    K: KeyEncoding,
    V: DictionaryValue,
    S: OverlayCompressedSerialize<K, V>,
    P: GraphPolicy<K, V>,
>(
    build: &mut OverlaySerializationBuild<K, V, P>,
    path: &mut Vec<K::Unit>,
    edge: K::Unit,
    child: Arc<OverlayNode<K, V>>,
    parent_path: RegistryPathId,
    pre_reserved_top: Option<RegistryPathId>,
    Ghost(trace): Ghost<Trace<K::Unit, V>>,
    Ghost(working): Ghost<Seq<(Arc<OverlayNode<K, V>>, bool)>>,
) -> (r: TrieResult<(Frame<K, V>, Option<CompletedSubtree>)>)
    requires
        old(build).wf(),
        child.wf(),
        old(build).mode != RegistryBuildMode::Disabled ==> parent_path.ordinal <= old(
            build,
        ).registry.topology.entries@.len() && topology_path(
            old(build).registry.topology.entries@,
            parent_path.ordinal as int,
        ) == old(path)@,
        pre_reserved_top matches Some(id) ==> 0 < id.ordinal == old(
            build,
        ).registry.topology.entries@.len() && topology_path(
            old(build).registry.topology.entries@,
            id.ordinal as int,
        ) == old(path)@.push(edge),
        old(build).graph.unseen(child),
    ensures
        final(build).wf(),
        final(build).mode == old(build).mode,
        final(build).on_disk_imports == old(build).on_disk_imports,
        final(build).structural_source == old(build).structural_source,
        final(build).on_disk_import_stats == old(build).on_disk_import_stats,
        final(build).graph.doubted() == old(build).graph.doubted(),
        final(build).deferred_stamps == old(build).deferred_stamps,
        paths_extend(
            old(build).registry.topology.entries@,
            final(build).registry.topology.entries@,
        ),
        records_extend(old(build).registry.records@, final(build).registry.records@),
        final(build).graph.memo().len() == old(build).graph.memo().len(),
        forall|i: int|
            0 <= i < old(build).graph.memo().len() ==> (#[trigger] final(build).graph.memo()[i]).0
                == old(build).graph.memo()[i].0 && (final(build).graph.memo()[i].1 == old(
                build,
            ).graph.memo()[i].1 || final(build).graph.memo()[i].1 == NodeBuildState::Active),
        r matches Err(e) ==> {
            ||| no_room(e)
            ||| e is InternalError && descend_refused(
                *old(build),
                *final(build),
                old(path)@,
                child,
                working,
            )
        },
        r matches Ok((frame, met)) ==> {
            &&& frame.ok()
            &&& frame.head() == child
            &&& frame.next_child == 0
            &&& frame.resolved@.len() == 0
            &&& frame.left() < child.steps()
            &&& frame.base_depth == old(path)@.len()
            &&& frame.full@ == final(path)@
            &&& frame.full@.take(frame.base_depth as int) == old(path)@
            &&& frame.full@ == old(path)@.push(edge) + frame.chain_prefix@
            &&& frame.start@ == trace
            &&& told_more(
                told_by::<K, V, S, P>(*old(build)),
                told_by::<K, V, S, P>(*final(build)),
            )
            &&& frame.peeled(told_by::<K, V, S, P>(*final(build)))
            &&& frame.full@.len() + frame.node.steps() <= old(path)@.len() + 1 + child.steps()
            &&& frame.registry_start is Some ==> old(build).graph.memo().len() > 0
                && old(build).mode != RegistryBuildMode::Disabled
            &&& old(build).mode != RegistryBuildMode::Disabled ==> frame.registered(
                final(build).registry.topology.entries@,
            )
            &&& match frame.registry_start {
                Some(start) => final(build).registry.open@ == old(build).registry.open@.push(start),
                None => final(build).registry.open@ == old(build).registry.open@,
            }
            &&& match met {
                None => {
                    &&& final(build).met == old(build).met
                    &&& works_above(working, *old(build), child) ==> active(
                        working.push((frame.node, frame.registry_start is Some)),
                        final(build).graph,
                        old(build).mode != RegistryBuildMode::Disabled,
                    )
                },
                Some(subtree) => {
                    &&& final(build).graph == old(build).graph
                    &&& frame.chain_prefix@.len() > 0
                    &&& frame.registry_start is None
                    &&& final(build).met@.len() == old(build).met@.len() + 1
                    &&& final(build).met@.drop_last() == old(build).met@
                    &&& final(build).met@.last().ptr == subtree.disk_ptr
                    &&& met_done(
                        told_by::<K, V, S, P>(*final(build)),
                        frame.full@,
                        frame.node,
                        final(build).met@.last(),
                    )
                    &&& exists|i: int|
                        0 <= i < old(build).graph.memo().len() && #[trigger] old(
                            build,
                        ).graph.memo()[i] == (frame.node, NodeBuildState::Complete(subtree))
                },
            }
        },
{
    let ghost begun = *build;
    let ghost registers = build.mode != RegistryBuildMode::Disabled;
    let stop: bool = build.is_enabled();
    let (chain_prefix, live_spine, terminus) = match peel_chain_generic(share(&child), stop, build) {
        Ok(chain) => chain,
        Err(e) => {
            return Err(e);
        },
    };
    let mut met: Option<CompletedSubtree> = None;
    if chain_prefix.len() > 0 {
        match build.graph.node_build_state(&terminus) {
            NodeBuildState::Unseen => {},
            NodeBuildState::Complete(subtree) => {
                met = Some(subtree);
            },
            NodeBuildState::Active => {
                proof {
                    if works_above(working, begun, child) && !begun.graph.doubted() {
                        let i = choose|i: int|
                            0 <= i < begun.graph.memo().len() && #[trigger] begun.graph.memo()[i]
                                == (terminus, NodeBuildState::Active);
                        lemma_none_active(working, begun.graph, registers, terminus, i);
                    }
                }
                return Err(
                    PersistentARTrieError::internal(
                        "compressed serializer reached an active in-memory DAG node",
                    ),
                );
            },
        }
    }
    proof {
        reveal(chain_ok);
    }
    if met.is_none() {
        match build.graph.mark_active(&terminus) {
            Ok(()) => {},
            Err(e) => {
                return Err(e);
            },
        }
    }
    let ghost above = path@;
    let base_depth: usize = path.len();
    let length: usize = chain_prefix.len();
    let pushed: usize = match length.checked_add(1) {
        Some(pushed) => pushed,
        None => {
            return Err(
                PersistentARTrieError::internal(
                    "compressed serializer descended path length overflow",
                ),
            );
        },
    };
    let requested: usize = match base_depth.checked_add(pushed) {
        Some(requested) => requested,
        None => {
            return Err(
                PersistentARTrieError::internal(
                    "compressed serializer descended path capacity overflow",
                ),
            );
        },
    };
    match reserve_entries(path, pushed, "compressed serializer descended path", requested) {
        Ok(()) => {},
        Err(e) => {
            return Err(e);
        },
    }
    path.push(edge);
    extend_units(path, &chain_prefix);
    let ghost full = path@;
    proof {
        assert(full.take(base_depth as int) =~= above);
        assert(full.take(base_depth + 1) =~= above.push(edge));
    }
    let mut entries = InlineIndices::new();
    let mut registry_start: Option<RegistryBuilderSubtreeStart> = None;
    let capture: bool = build.graph.is_compression_boundary(&terminus);
    let ghost mut how: How = How::Passed;
    if build.has_registry() {
        let width: usize = match chain_chunk_width::<K>() {
            Ok(width) => width,
            Err(e) => {
                return Err(e);
            },
        };
        entries =
        match reserve_chain_entries::<K>(
            &mut build.registry,
            &*path,
            base_depth,
            length,
            width,
            parent_path,
            pre_reserved_top,
        ) {
            Ok(entries) => entries,
            Err(e) => {
                return Err(e);
            },
        };
        proof {
            reveal(entries_registered);
            lemma_chunk_total(length as int, width as int);
        }
        let last: usize = match entries.get(entries.len() - 1) {
            Some(last) => last,
            None => 0,
        };
        match met {
            Some(subtree) => {
                let span = match subtree.registry_span {
                    Some(span) => span,
                    None => {
                        proof {
                            if works_above(working, begun, child) && !begun.graph.doubted() {
                                let i = choose|i: int|
                                    0 <= i < begun.graph.memo().len()
                                        && #[trigger] begun.graph.memo()[i] == (
                                        terminus,
                                        NodeBuildState::Complete(subtree),
                                    );
                                lemma_none_active(working, begun.graph, registers, terminus, i);
                            }
                        }
                        return Err(
                            PersistentARTrieError::internal(
                                "completed DAG node has no local registry span",
                            ),
                        );
                    },
                };
                let destination = RegistryPathId { ordinal: last };
                let ghost before = build.registry;
                match build.registry.graft_subtree(span, destination, subtree.disk_ptr, true) {
                    Ok(stats) => {
                        proof {
                            how =
                            How::Grafted(
                                Graft {
                                    span,
                                    destination: last,
                                    first_record: before.records@.len() as int,
                                    stats,
                                },
                            );
                            lemma_entries_extend::<K>(
                                before.topology.entries@,
                                build.registry.topology.entries@,
                                entries@,
                                path@,
                                base_depth as int,
                                length as int,
                            );
                        }
                    },
                    Err(e) => {
                        proof {
                            let i = choose|i: int|
                                0 <= i < begun.graph.memo().len()
                                    && #[trigger] begun.graph.memo()[i] == (
                                    terminus,
                                    NodeBuildState::Complete(subtree),
                                );
                            assert(entry_refused(build.registry, build.graph.memo()[i]));
                        }
                        return Err(e);
                    },
                }
            },
            None => {
                if capture {
                    match build.registry.begin_subtree(RegistryPathId { ordinal: last }) {
                        Ok(start) => {
                            registry_start = Some(start);
                        },
                        Err(e) => {
                            return Err(e);
                        },
                    }
                }
            },
        }
    }
    proof {
        reveal(chain_ok);
        assert(full.skip(full.len() - length) =~= chain_prefix@);
    }
    let frame = match make_frame(
        terminus,
        chain_prefix,
        live_spine,
        base_depth,
        entries,
        registry_start,
        Ghost(full),
        Ghost(trace),
    ) {
        Ok(frame) => frame,
        Err(e) => {
            return Err(e);
        },
    };
    match met {
        Some(subtree) => {
            let ghost occurrence = Occurrence {
                path: full,
                ptr: subtree.disk_ptr,
                resident: true,
                how,
            };
            build.met = Ghost(build.met@.push(occurrence));
            proof {
                assert(build.met@.drop_last() =~= begun.met@);
                lemma_met_push(
                    begun.met@,
                    occurrence,
                    begun.on_disk_imports@,
                    build.on_disk_imports@,
                );
            }
        },
        None => {
            proof {
                if works_above(working, begun, child) {
                    lemma_active_push(
                        working,
                        begun.graph,
                        build.graph,
                        registers,
                        frame.node,
                        frame.registry_start is Some,
                    );
                }
            }
        },
    }
    proof {
        lemma_told_more::<K, V, S, P>(begun, *build);
    }
    Ok((frame, met))
}

/// Appends units.
fn extend_units<U: Copy>(path: &mut Vec<U>, units: &Vec<U>)
    ensures
        final(path)@ == old(path)@ + units@,
{
    let ghost before = path@;
    let mut i: usize = 0;
    while i < units.len()
        invariant
            i <= units@.len(),
            path@ == before + units@.take(i as int),
        decreases units@.len() - i,
    {
        path.push(units[i]);
        assert(units@.take(i + 1) =~= units@.take(i as int).push(units@[i as int]));
        assert(before + units@.take(i + 1) =~= (before + units@.take(i as int)).push(
            units@[i as int],
        ));
        i += 1;
    }
    assert(units@.take(i as int) =~= units@);
}

/// The steps below which a child slot stays.
spec fn slot_bound<K: KeyEncoding, V>(child: Child<K, V>) -> nat {
    match child {
        Child::InMem(node) => node.steps() + 1,
        Child::OnDisk(_) => 0,
    }
}

/// Deals with one child slot.
fn resolve_slot<
    K: KeyEncoding,
    V: DictionaryValue,
    S: OverlayCompressedSerialize<K, V>,
    P: GraphPolicy<K, V>,
>(
    sink: &mut S,
    build: &mut OverlaySerializationBuild<K, V, P>,
    path: &mut Vec<K::Unit>,
    edge: K::Unit,
    child: &Child<K, V>,
    parent_path: RegistryPathId,
    Ghost(root): Ghost<Tree<K::Unit, V>>,
    Ghost(facts): Ghost<Facts<K::Unit, V>>,
    Ghost(base): Ghost<Store<K::Unit, V>>,
    Ghost(first): Ghost<Seq<DeferredDurableStamp<K, V>>>,
    Ghost(origin): Ghost<(Log<K::Unit, V>, Asked<K::Unit>)>,
    Ghost(working): Ghost<Seq<(Arc<OverlayNode<K, V>>, bool)>>,
) -> (r: TrieResult<(Step<K, V>, Ghost<Facts<K::Unit, V>>)>)
    requires
        old(build).wf(),
        child matches Child::InMem(node) ==> node.wf() && at(root, old(path)@.push(edge)) == Some(
            node@,
        ),
        old(build).mode != RegistryBuildMode::Disabled ==> parent_path.ordinal <= old(
            build,
        ).registry.topology.entries@.len() && topology_path(
            old(build).registry.topology.entries@,
            parent_path.ordinal as int,
        ) == old(path)@,
    ensures
        grows(old(sink).store(), final(sink).store()),
        final(build).wf(),
        final(build).mode == old(build).mode,
        final(build).graph.doubted() == old(build).graph.doubted(),
        paths_extend(
            old(build).registry.topology.entries@,
            final(build).registry.topology.entries@,
        ),
        final(build).graph.memo().len() == old(build).graph.memo().len(),
        imports_grow::<K, V, S>(
            old(build).on_disk_imports@,
            final(build).on_disk_imports@,
            old(build).structural_source,
        ),
        final(build).structural_source == old(build).structural_source,
        match *child {
            Child::OnDisk(pointer) => {
                &&& pointer.location() is None ==> (r matches Err(e) && e is CorruptedFile)
                &&& pointer.location() is Some && old(build).mode == RegistryBuildMode::Disabled
                    ==> r is Ok
                &&& r matches Err(e) ==> import_error::<K, V, S>(
                    e,
                    pointer,
                    old(build).mode != RegistryBuildMode::Disabled,
                    final(build).on_disk_imports@,
                    final(build).registry,
                    old(path)@.len() == usize::MAX || final(build).registry.topology.entries@.len()
                        == usize::MAX,
                )
            },
            Child::InMem(node) => r matches Err(e) ==> {
                ||| S::reports(e)
                ||| no_room(e)
                ||| e is InternalError && descend_refused(
                    *old(build),
                    *final(build),
                    old(path)@,
                    node,
                    working,
                )
            },
        },
        r matches Ok((step, more)) ==> {
            let reuse = old(build).mode == RegistryBuildMode::Enabled;
            let registers = old(build).mode != RegistryBuildMode::Disabled;
            let snd = state_sound(old(sink).store(), root, facts, *old(build)) && slot_reachable(
                root,
                *child,
            );
            &&& told_more(
                told_by::<K, V, S, P>(*old(build)),
                told_by::<K, V, S, P>(*final(build)),
            )
            &&& registrations(
                registers,
                root,
                origin,
                old(sink).log(),
                old(sink).asked(),
            ) ==> registrations(registers, root, origin, final(sink).log(), final(sink).asked())
            &&& asked_of(origin.1.len(), old(sink).asked(), root, facts) ==> asked_of(
                origin.1.len(),
                final(sink).asked(),
                root,
                more@,
            )
            &&& stamps_kept(
                reuse,
                base,
                first,
                old(sink).store(),
                old(build).deferred_stamps@,
            ) && grows(base, old(sink).store()) ==> stamps_kept(
                reuse,
                base,
                first,
                final(sink).store(),
                final(build).deferred_stamps@,
            )
            &&& facts.subset_of(more@)
            &&& snd ==> state_sound(final(sink).store(), root, more@, *final(build))
            &&& match step {
                Step::Resolved(ptr) => {
                    &&& final(path)@ == old(path)@
                    &&& final(build).registry.open@ == old(build).registry.open@
                    &&& snd ==> slot_resolved(more@, *child, ptr)
                    &&& final(build).met@.len() == old(build).met@.len() + 1
                    &&& final(build).met@.drop_last() == old(build).met@
                    &&& final(build).on_disk_import_stats == counted_met(
                        old(build).on_disk_import_stats,
                        final(build).met@.last(),
                    )
                    &&& slot_emits(
                        told_by::<K, V, S, P>(*final(build)),
                        old(path)@.push(edge),
                        slot_bound(*child),
                        *child,
                        trace_of(*old(sink), *old(build)),
                        trace_of(*final(sink), *final(build)),
                        ptr,
                    )
                    &&& (*child matches Child::InMem(node) ==> works_above(
                        working,
                        *old(build),
                        node,
                    )) && active(working, old(build).graph, registers) ==> active(
                        working,
                        final(build).graph,
                        registers,
                    )
                },
                Step::Descend(frame) => {
                    &&& *child is InMem
                    &&& final(sink).store() == old(sink).store()
                    &&& final(sink).log() == old(sink).log()
                    &&& final(build).met == old(build).met
                    &&& final(build).on_disk_import_stats == old(build).on_disk_import_stats
                    &&& frame.ok()
                    &&& frame.head() == (*child)->InMem_0
                    &&& frame.next_child == 0
                    &&& frame.resolved@.len() == 0
                    &&& frame.left() < frame.head().steps()
                    &&& frame.base_depth == old(path)@.len()
                    &&& frame.full@ == final(path)@
                    &&& frame.full@.take(frame.base_depth as int) == old(path)@
                    &&& frame.full@ == old(path)@.push(edge) + frame.chain_prefix@
                    &&& frame.placed(root)
                    &&& old(build).mode != RegistryBuildMode::Disabled ==> frame.registered(
                        final(build).registry.topology.entries@,
                    )
                    &&& match frame.registry_start {
                        Some(start) => final(build).registry.open@ == old(
                            build,
                        ).registry.open@.push(start),
                        None => final(build).registry.open@ == old(build).registry.open@,
                    }
                    &&& snd ==> frame.sound(root, more@)
                    &&& slot_reachable(root, *child) ==> reachable(root, frame.node@)
                    &&& frame.start@ == trace_of(*old(sink), *old(build))
                    &&& old(build).graph.unseen(frame.head())
                    &&& needs_record(told_by::<K, V, S, P>(*final(build)), frame.head())
                    &&& frame.peeled(told_by::<K, V, S, P>(*final(build)))
                    &&& frame.full@.len() > old(path)@.len()
                    &&& frame.full@.len() + frame.node.steps() <= old(path)@.len() + 1
                        + frame.head().steps()
                    &&& frame.registry_start is Some ==> old(build).graph.memo().len() > 0 && old(
                        build,
                    ).mode != RegistryBuildMode::Disabled
                    &&& works_above(working, *old(build), frame.head()) ==> active(
                        working.push((frame.node, frame.registry_start is Some)),
                        final(build).graph,
                        registers,
                    )
                },
            }
        },
{
    let ghost store = sink.store();
    let ghost begun = *build;
    let ghost place = path@.push(edge);
    let ghost trace = trace_of(*sink, *build);
    let ghost registers = build.mode != RegistryBuildMode::Disabled;
    let ghost snd = state_sound(store, root, facts, *build) && slot_reachable(root, *child);
    proof {
        lemma_grows_same(store);
    }
    match child {
        Child::OnDisk(pointer) => match resolve_on_disk(
            sink,
            build,
            path,
            edge,
            *pointer,
            parent_path,
        ) {
            Ok(ptr) => {
                assert(trace_of(*sink, *build).before_met() == trace);
                Ok((Step::Resolved(ptr), Ghost(facts)))
            },
            Err(e) => Err(e),
        },
        Child::InMem(node) => match build.graph.node_build_state(node) {
            NodeBuildState::Complete(subtree) => {
                let ghost i = choose|i: int|
                    0 <= i < begun.graph.memo().len() && #[trigger] begun.graph.memo()[i] == (
                        *node,
                        NodeBuildState::Complete(subtree),
                    );
                proof {
                    if snd {
                        reveal(memo_sound);
                    }
                }
                let ghost mut how: How = How::Passed;
                if build.has_registry() {
                    let span = match subtree.registry_span {
                        Some(span) => span,
                        None => {
                            proof {
                                if works_above(working, begun, *node) && !begun.graph.doubted() {
                                    lemma_none_active(working, begun.graph, registers, *node, i);
                                }
                            }
                            return Err(
                                PersistentARTrieError::internal(
                                    "completed DAG node has no local registry span",
                                ),
                            );
                        },
                    };
                    let mut segment: Vec<K::Unit> = Vec::new();
                    segment.push(edge);
                    let destination = match build.registry.reserve_path(
                        parent_path,
                        segment.as_slice(),
                    ) {
                        Ok(destination) => destination,
                        Err(e) => {
                            return Err(e);
                        },
                    };
                    let ghost before = build.registry;
                    match build.registry.graft_subtree(span, destination, subtree.disk_ptr, true) {
                        Ok(stats) => {
                            proof {
                                how =
                                How::Grafted(
                                    Graft {
                                        span,
                                        destination: destination.ordinal,
                                        first_record: before.records@.len() as int,
                                        stats,
                                    },
                                );
                                assert(begun.registry.topology.path(parent_path) + segment@
                                    =~= place);
                            }
                        },
                        Err(e) => {
                            assert(entry_refused(build.registry, build.graph.memo()[i]));
                            return Err(e);
                        },
                    }
                }
                let ghost occurrence = Occurrence {
                    path: place,
                    ptr: subtree.disk_ptr,
                    resident: true,
                    how,
                };
                build.met = Ghost(build.met@.push(occurrence));
                proof {
                    assert(build.met@.drop_last() =~= begun.met@);
                    lemma_met_push(
                        begun.met@,
                        occurrence,
                        begun.on_disk_imports@,
                        build.on_disk_imports@,
                    );
                    lemma_told_more::<K, V, S, P>(begun, *build);
                    assert(trace_of(*sink, *build).before_met() == trace);
                }
                Ok((Step::Resolved(subtree.disk_ptr), Ghost(facts)))
            },
            NodeBuildState::Active => {
                proof {
                    if works_above(working, begun, *node) && !begun.graph.doubted() {
                        let i = choose|i: int|
                            0 <= i < begun.graph.memo().len() && #[trigger] begun.graph.memo()[i]
                                == (*node, NodeBuildState::Active);
                        lemma_none_active(working, begun.graph, registers, *node, i);
                    }
                }
                Err(
                    PersistentARTrieError::internal(
                        "compressed serializer reached an active in-memory DAG node",
                    ),
                )
            },
            NodeBuildState::Unseen => {
                let mut top: Option<RegistryPathId> = None;
                if build.is_enabled() && node.durable_stamp() != 0 {
                    let ghost memo = build.graph.memo();
                    match reuse_resident(
                        sink,
                        build,
                        path,
                        edge,
                        node,
                        parent_path,
                        Ghost(working),
                    ) {
                        Ok((reused, reserved)) => {
                            if reused {
                                let ptr = SwizzledPtr::from_raw(node.durable_stamp());
                                let ghost more = facts.insert((ptr, node@));
                                proof {
                                    assert(trace_of(*sink, *build).before_met() == trace);
                                    lemma_asked_more_facts(
                                        origin.1.len(),
                                        sink.asked(),
                                        root,
                                        facts,
                                        more,
                                    );
                                    if snd {
                                        lemma_ledger_backed(store, root, facts, node@);
                                        lemma_backed_here(store, node@);
                                        lemma_ledger_add(store, root, facts, ptr, node@);
                                        lemma_sound_more(memo, build.deferred_stamps@, facts, more);
                                        lemma_memo_complete(
                                            memo,
                                            build.graph.memo(),
                                            more,
                                            *node,
                                            ptr,
                                        );
                                    }
                                }
                                return Ok((Step::Resolved(ptr), Ghost(more)));
                            }
                            top = reserved;
                        },
                        Err(e) => {
                            return Err(e);
                        },
                    }
                }
                let ghost memo = build.graph.memo();
                let ghost entries = build.registry.topology.entries@;
                let ghost middle = *build;
                proof {
                    assert(build.mode != RegistryBuildMode::Disabled ==> topology_path(
                        entries,
                        parent_path.ordinal as int,
                    ) == old(path)@) by {
                        if build.mode != RegistryBuildMode::Disabled {
                            crate::registry::paths_are_stable(
                                old(build).registry.topology.entries@,
                                entries,
                                parent_path.ordinal as int,
                            );
                        }
                    }
                }
                match descend::<K, V, S, P>(
                    build,
                    path,
                    edge,
                    share(node),
                    parent_path,
                    top,
                    Ghost(trace),
                    Ghost(working),
                ) {
                    Ok((frame, None)) => {
                        proof {
                            lemma_told_trans::<K, V, S, P>(begun, middle, *build);
                            lemma_placed(root, place, frame);
                            if snd {
                                lemma_memo_active(memo, build.graph.memo(), facts);
                            }
                            if slot_reachable(root, *child) {
                                lemma_chain_reachable(
                                    root,
                                    frame.live_spine@,
                                    frame.chain_prefix@,
                                    frame.node,
                                    frame.chain_prefix@.len() as int,
                                );
                                reveal(chain_ok);
                            }
                        }
                        Ok((Step::Descend(frame), Ghost(facts)))
                    },
                    Ok((frame, Some(subtree))) => {
                        let ghost descended = *build;
                        let ghost told = told_by::<K, V, S, P>(*build);
                        let ghost reached = trace_of(*sink, *build);
                        proof {
                            lemma_told_trans::<K, V, S, P>(begun, middle, *build);
                            lemma_placed(root, place, frame);
                            assert(reached.before_met() == trace);
                            lemma_end_emits(
                                told,
                                frame.full@,
                                frame.node,
                                trace,
                                reached,
                                subtree.disk_ptr,
                            );
                            if snd {
                                reveal(memo_sound);
                                lemma_chain_reachable(
                                    root,
                                    frame.live_spine@,
                                    frame.chain_prefix@,
                                    frame.node,
                                    0,
                                );
                            }
                        }
                        let (ptr, Ghost(more)) = match emit_chain(
                            sink,
                            build,
                            &*path,
                            &frame,
                            subtree.disk_ptr,
                            Ghost(root),
                            Ghost(facts),
                            Ghost(base),
                            Ghost(first),
                            Ghost(origin),
                        ) {
                            Ok(pair) => pair,
                            Err(e) => {
                                return Err(e);
                            },
                        };
                        proof {
                            lemma_told_trans::<K, V, S, P>(begun, descended, *build);
                            assert(frame.full@.take(
                                frame.full@.len() - frame.chain_prefix@.len(),
                            ) =~= place);
                        }
                        path.truncate(frame.base_depth);
                        assert(path@ =~= old(path)@);
                        Ok((Step::Resolved(ptr), Ghost(more)))
                    },
                    Err(e) => Err(e),
                }
            },
        },
    }
}

/// Telling more twice is telling more.
proof fn lemma_told_trans<
    K: KeyEncoding,
    V: DictionaryValue,
    S: OverlayCompressedSerialize<K, V>,
    P: GraphPolicy<K, V>,
>(
    a: OverlaySerializationBuild<K, V, P>,
    b: OverlaySerializationBuild<K, V, P>,
    c: OverlaySerializationBuild<K, V, P>,
)
    requires
        told_more(told_by::<K, V, S, P>(a), told_by::<K, V, S, P>(b)),
        told_more(told_by::<K, V, S, P>(b), told_by::<K, V, S, P>(c)),
    ensures
        told_more(told_by::<K, V, S, P>(a), told_by::<K, V, S, P>(c)),
{
    let x = told_by::<K, V, S, P>(a);
    let y = told_by::<K, V, S, P>(b);
    let z = told_by::<K, V, S, P>(c);
    assert forall|n: Arc<OverlayNode<K, V>>| (x.prepared)(n) implies #[trigger] (z.prepared)(n) by {
        assert((y.prepared)(n));
    }
    assert forall|n: Arc<OverlayNode<K, V>>, b: bool|
        #[trigger] (z.boundary)(n, b) == (x.boundary)(n, b) by {
        assert((y.boundary)(n, b) == (x.boundary)(n, b));
    }
    assert forall|n: Arc<OverlayNode<K, V>>, p: SwizzledPtr| (x.done)(n, p) implies
        #[trigger] (z.done)(n, p) by {
        assert((y.done)(n, p));
    }
    assert forall|n: Arc<OverlayNode<K, V>>, p: SwizzledPtr| (x.noted)(n, p) implies
        #[trigger] (z.noted)(n, p) by {
        assert((y.noted)(n, p));
    }
    assert forall|p: SwizzledPtr| (x.imported)(p) implies #[trigger] (z.imported)(p) by {
        assert((y.imported)(p));
    }
    assert forall|o: Occurrence<K::Unit>| (x.entered)(o) implies #[trigger] (z.entered)(o) by {
        assert((y.entered)(o));
    }
}

/// More is known of what was asked.
proof fn lemma_asked_more_facts<U, V>(
    from: nat,
    asked: Asked<U>,
    root: Tree<U, V>,
    facts: Facts<U, V>,
    more: Facts<U, V>,
)
    requires
        facts.subset_of(more),
    ensures
        asked_of(from, asked, root, facts) ==> asked_of(from, asked, root, more),
{
    if asked_of(from, asked, root, facts) {
        lemma_asked_grow(from, asked, root, facts, more);
    }
}

/// A durable child of a node below a root, or of the root itself.
pub open spec fn durable_below<U, V>(root: Tree<U, V>, pointer: SwizzledPtr) -> bool {
    exists|node: Tree<U, V>, unit: U|
        reachable(root, node) && #[trigger] kid(node, unit) == Some(
            Branch::<U, V>::OnDisk(pointer),
        )
}

/// Why a trie cannot be serialized: the sink says so, there is no room, a durable child
/// cannot be dealt with, the policy was used before or was told two things of one
/// node, a size limit is reached, or what is registered of a complete node cannot be
/// copied.
pub open spec fn serialize_error<
    K: KeyEncoding,
    V: DictionaryValue,
    S: OverlayCompressedSerialize<K, V>,
    P: GraphPolicy<K, V>,
>(
    e: PersistentARTrieError,
    root: Arc<OverlayNode<K, V>>,
    before: OverlaySerializationBuild<K, V, P>,
    after: OverlaySerializationBuild<K, V, P>,
) -> bool {
    let registers = before.mode != RegistryBuildMode::Disabled;
    ||| S::reports(e)
    ||| no_room(e)
    ||| exists|pointer: SwizzledPtr| #[trigger]
        durable_below(root@, pointer) && import_refused::<K, V, S>(
            e,
            pointer,
            registers,
            after.on_disk_imports@,
            after.registry,
        )
    ||| e is InternalError && {
        ||| !before.graph.fresh()
        ||| after.graph.doubted()
        ||| root.steps() + 2 > usize::MAX
        ||| K::max_prefix_len() == usize::MAX
        ||| registers && (after.registry.topology.entries@.len() == usize::MAX || graft_refused(
            after,
        ))
    }
}

/// A root was written, or kept its record: what was done from one state of a sink and
/// a build to another, and the record of the root.
pub open spec fn written<
    K: KeyEncoding,
    V: DictionaryValue,
    S: OverlayCompressedSerialize<K, V>,
    P: GraphPolicy<K, V>,
>(
    root: Arc<OverlayNode<K, V>>,
    sink: S,
    build: OverlaySerializationBuild<K, V, P>,
    sink_after: S,
    build_after: OverlaySerializationBuild<K, V, P>,
    ptr: SwizzledPtr,
) -> bool {
    let told = told_by::<K, V, S, P>(build_after);
    let before = trace_of(sink, build);
    let after = trace_of(sink_after, build_after);
    ||| build.graph.fresh() && needs_record(told, root) && (told.prepared)(root) && node_emits(
        told,
        Seq::empty(),
        root,
        before,
        after,
        ptr,
    )
    ||| after.met.len() > 0 && after.before_met() == before && keeps(
        told,
        Seq::empty(),
        root,
        after.met.last(),
    ) && ptr == after.met.last().ptr
}

/// Writes a trie as records, children before parents, and gives back the record of
/// the root.
///
/// The root is written as it is; below it every chain of single children becomes
/// chunks that hold as many units as a record can. A durable child keeps its
/// record. If stamps count, a stamped node is not written again where the sink
/// agrees to take its record over, and every node that is written is stamped.
///
/// If the durable children and the stamps of the trie are backed by records, the
/// records from the result on store exactly the terms of the trie, and each new
/// stamp names a record that stores its node.
/// Which records are written, and in which order, is what `node_emits` says: the
/// children of a node before it and the root last. A node that the policy remembers
/// has one record, which all its parents name. A child that keeps its record is met
/// once at each of its paths, and where paths are registered the registry has its
/// records there: those that the sink took over, or a copy. Where stamps count, each record that
/// was written has one stamp. Where paths are registered, the sink is asked to register
/// each record that was written, once, at the path of the node that it stores.
#[verifier::rlimit(80)]
pub fn serialize_compressed_loop<
    K: KeyEncoding,
    V: DictionaryValue,
    S: OverlayCompressedSerialize<K, V>,
    P: GraphPolicy<K, V>,
>(
    sink: &mut S,
    root: &Arc<OverlayNode<K, V>>,
    build: &mut OverlaySerializationBuild<K, V, P>,
) -> (r: TrieResult<SwizzledPtr>)
    requires
        root.wf(),
        old(build).wf(),
    ensures
        final(build).wf(),
        final(build).mode == old(build).mode,
        imports_grow::<K, V, S>(
            old(build).on_disk_imports@,
            final(build).on_disk_imports@,
            old(build).structural_source,
        ),
        final(build).structural_source == old(build).structural_source,
        grows(old(sink).store(), final(sink).store()),
        r matches Err(e) ==> serialize_error::<K, V, S, P>(e, *root, *old(build), *final(build)),
        r matches Ok(ptr) ==> {
            let reuse = old(build).mode == RegistryBuildMode::Enabled;
            &&& final(build).registry.open@ == old(build).registry.open@
            &&& registrations(
                old(build).mode != RegistryBuildMode::Disabled,
                root@,
                (old(sink).log(), old(sink).asked()),
                final(sink).log(),
                final(sink).asked(),
            )
            &&& stamps_kept(
                reuse,
                old(sink).store(),
                old(build).deferred_stamps@,
                final(sink).store(),
                final(build).deferred_stamps@,
            )
            &&& final(build).on_disk_import_stats == counted_from(
                old(build).on_disk_import_stats,
                final(build).met@,
                old(build).met@.len(),
            )
            &&& written(*root, *old(sink), *old(build), *final(sink), *final(build), ptr)
            &&& closed(old(sink).store()) && backed(old(sink).store(), root@) && old(
                build,
            ).deferred_stamps@.len() == 0 ==> {
                &&& closed(final(sink).store())
                &&& final(sink).store().dom().contains(ptr)
                &&& stored(final(sink).store(), ptr, root@)
                &&& forall|i: int|
                    0 <= i < final(build).deferred_stamps@.len() ==> stored(
                        final(sink).store(),
                        SwizzledPtr { raw: (#[trigger] final(build).deferred_stamps@[i]).raw },
                        final(build).deferred_stamps@[i].node@,
                    )
                &&& forall|i: int|
                    old(sink).asked().len() <= i < final(sink).asked().len() ==> stored(
                        final(sink).store(),
                        (#[trigger] final(sink).asked()[i]).0,
                        at(root@, final(sink).asked()[i].1)->0,
                    )
            }
        },
{
    let ghost store = sink.store();
    let ghost tree = root@;
    let ghost snd = closed(store) && backed(store, tree) && build.deferred_stamps@.len() == 0;
    let ghost mut facts: Facts<K::Unit, V> = Set::empty();
    let ghost open = build.registry.open@;
    let ghost reuse = build.mode == RegistryBuildMode::Enabled;
    let ghost start = trace_of(*sink, *build);
    let ghost origin = (sink.log(), sink.asked());
    let ghost registers = build.mode != RegistryBuildMode::Disabled;
    let mut path: Vec<K::Unit> = Vec::new();
    let mut entries = InlineIndices::new();
    let ghost first = build.deferred_stamps@;
    proof {
        lemma_grows_same(store);
        lemma_stamps_start(reuse, store, first);
        lemma_registrations_start(registers, tree, sink.log(), sink.asked(), facts);
        if snd {
            lemma_ledger_empty(store, tree);
            reveal(stamps_sound);
        }
        assert(at(tree, Seq::<K::Unit>::empty()) == Some(tree));
    }
    if build.has_registry() {
        match entries.try_reserve_exact(1) {
            Ok(()) => {},
            Err(source) => {
                return Err(
                    PersistentARTrieError::allocation_failed(
                        "compressed serializer root registry entry",
                        1,
                        CollectionAllocationError::Inline(source),
                    ),
                );
            },
        }
        match build.registry.reserve_path(RegistryPathId::root(), path.as_slice()) {
            Ok(id) => {
                proof {
                    assert(Seq::<K::Unit>::empty() + path@ =~= path@);
                    reveal(entries_registered);
                    let width = (K::max_prefix_len() + 1) as int;
                    vstd::arithmetic::div_mod::lemma_small_mod(0, width as nat);
                    vstd::arithmetic::div_mod::lemma_basic_div(0, width);
                }
                entries.push(id.ordinal);
                if build.is_enabled() && root.durable_stamp() != 0 {
                    let pointer = SwizzledPtr::from_raw(root.durable_stamp());
                    let ghost before = build.registry.topology.entries@;
                    match sink.try_reuse_durable_subtree(
                        &pointer,
                        path.as_slice(),
                        id,
                        &mut build.registry,
                        build.structural_source.as_ref(),
                        true,
                    ) {
                        Ok(reused) => {
                            if reused {
                                let ghost occurrence = Occurrence {
                                    path: Seq::empty(),
                                    ptr: pointer,
                                    resident: true,
                                    how: How::Taken,
                                };
                                build.met = Ghost(build.met@.push(occurrence));
                                proof {
                                    assert(build.met@.drop_last() =~= start.met);
                                    lemma_met_push(
                                        start.met,
                                        occurrence,
                                        build.on_disk_imports@,
                                        build.on_disk_imports@,
                                    );
                                    assert(path@ =~= Seq::<K::Unit>::empty());
                                    lemma_taken_record(
                                        before,
                                        build.registry,
                                        id,
                                        path@,
                                        pointer,
                                        true,
                                    );
                                    assert(counted_from(
                                        build.on_disk_import_stats,
                                        start.met,
                                        start.met.len(),
                                    ) == build.on_disk_import_stats);
                                    if snd {
                                        lemma_backed_here(store, tree);
                                    }
                                }
                                return Ok(pointer);
                            }
                            proof {
                                lemma_entries_extend::<K>(
                                    before,
                                    build.registry.topology.entries@,
                                    entries@,
                                    path@,
                                    0,
                                    0,
                                );
                            }
                        },
                        Err(e) => {
                            return Err(e);
                        },
                    }
                }
            },
            Err(e) => {
                return Err(e);
            },
        }
    }
    match build.graph.prepare_graph(root) {
        Ok(()) => {},
        Err(e) => {
            return Err(e);
        },
    }
    proof {
        if snd {
            reveal(memo_sound);
        }
    }
    let ghost memo = build.graph.memo();
    let ghost prepared = build.graph;
    match build.graph.mark_active(root) {
        Ok(()) => {},
        Err(e) => {
            return Err(e);
        },
    }
    proof {
        let none = Seq::<(Arc<OverlayNode<K, V>>, bool)>::empty();
        assert(active(none, prepared, registers)) by {
            reveal(active);
        }
        lemma_active_push(none, prepared, build.graph, registers, *root, false);
        assert(path@.skip(path@.len() as int) =~= Seq::<K::Unit>::empty());
        if snd {
            lemma_memo_active(memo, build.graph.memo(), facts);
        }
        reveal(chain_ok);
    }
    let frame = match make_frame(
        share(root),
        Vec::new(),
        Vec::new(),
        0,
        entries,
        None,
        Ghost(path@),
        Ghost(start),
    ) {
        Ok(frame) => frame,
        Err(e) => {
            return Err(e);
        },
    };
    let mut stack: Vec<Frame<K, V>> = Vec::new();
    match reserve_entries(&mut stack, 1, "compressed serializer frame stack", 1) {
        Ok(()) => {},
        Err(e) => {
            return Err(e);
        },
    }
    proof {
        assert(frames_ok(stack@, *root)) by {
            reveal(frames_ok);
        }
        assert(frames_registered(stack@, *build)) by {
            reveal(frames_registered);
        }
        assert(frames_sound(stack@, tree, facts)) by {
            reveal(frames_sound);
        }
        lemma_frames_push(stack@, frame, *root);
        lemma_registered_push(stack@, frame, *build);
        if snd {
            lemma_sound_push(stack@, frame, tree, facts);
        }
        lemma_frames_left(stack@.push(frame), *root);
        let told = told_by::<K, V, S, P>(*build);
        assert(frames_dealt(stack@, told, start, start)) by {
            reveal(frames_dealt);
        }
        let node = *frame.node;
        lemma_kids_emit_start(told, frame.full@, node.steps(), frame.slots@, start, frame.kids());
        lemma_dealt_top(stack@, frame, told, start, start);
        assert(acts(stack@.push(frame)) =~= Seq::<(Arc<OverlayNode<K, V>>, bool)>::empty().push(
            (*root, false),
        ));
        assert(counted_from(build.on_disk_import_stats, start.met, start.met.len())
            == build.on_disk_import_stats);
        assert(frames_sized(stack@, *root, build.graph.memo().len(), registers)) by {
            reveal(frames_sized);
        }
        lemma_sized_top(stack@, frame, *root, build.graph.memo().len(), registers);
        assert(open + Seq::<RegistryBuilderSubtreeStart>::empty() =~= open);
    }
    let ghost remembered = build.graph.memo().len();
    stack.push(frame);
    loop
        invariant
            reuse == (old(build).mode == RegistryBuildMode::Enabled),
            remembered == build.graph.memo().len(),
            build.graph.prepared_for(*root),
            frames_dealt(
                stack@,
                told_by::<K, V, S, P>(*build),
                start,
                trace_of(*sink, *build),
            ),
            active(acts(stack@), build.graph, registers),
            old(build).graph.fresh(),
            build.met@.len() >= start.met.len(),
            build.on_disk_import_stats == counted_from(
                old(build).on_disk_import_stats,
                build.met@,
                start.met.len(),
            ),
            frames_sized(stack@, *root, remembered, registers),
            start == trace_of(*old(sink), *old(build)),
            imports_grow::<K, V, S>(
                old(build).on_disk_imports@,
                build.on_disk_imports@,
                old(build).structural_source,
            ),
            build.structural_source == old(build).structural_source,
            origin == (start.log, old(sink).asked()),
            registers == (old(build).mode != RegistryBuildMode::Disabled),
            registrations(registers, tree, origin, sink.log(), sink.asked()),
            asked_of(origin.1.len(), sink.asked(), tree, facts),
            reuse && root.stamp != 0 ==> S::declines(SwizzledPtr { raw: root.stamp }, true),
            first == old(build).deferred_stamps@,
            stamps_kept(reuse, store, first, sink.store(), build.deferred_stamps@),
            store == old(sink).store(),
            tree == root@,
            root.wf(),
            snd == (closed(store) && backed(store, tree) && old(build).deferred_stamps@.len()
                == 0),
            open == old(build).registry.open@,
            stack@.len() > 0,
            frames_ok(stack@, *root),
            frames_left(stack@) >= 0,
            path@ == stack@.last().full@,
            stack@.last().resolved@.len() == stack@.last().next_child,
            build.wf(),
            build.mode == old(build).mode,
            build.registry.open@ == open + open_tail(stack@),
            frames_registered(stack@, *build),
            grows(store, sink.store()),
            snd ==> state_sound(sink.store(), tree, facts, *build),
            snd ==> frames_sound(stack@, tree, facts),
        decreases frames_left(stack@),
    {
        let ghost walk = stack@;
        let ghost here = sink.store();
        let ghost trace = trace_of(*sink, *build);
        let ghost working = acts(stack@);
        let ghost begun = *build;
        let mut frame: Frame<K, V> = match stack.pop() {
            Some(frame) => frame,
            None => {
                return Err(
                    PersistentARTrieError::internal(
                        "compressed serializer work stack became empty before completion",
                    ),
                );
            },
        };
        let ghost top = frame;
        proof {
            assert(walk.last() == frame);
            assert(stack@ =~= walk.drop_last());
            lemma_frames_pop(walk, *root);
            lemma_registered_pop(walk, *build);
            lemma_frames_left(stack@, *root);
            lemma_grows_same(here);
            lemma_dealt_pop(walk, told_by::<K, V, S, P>(*build), start, trace);
            assert(working.last() == (frame.node, frame.registry_start is Some));
            assert(working.drop_last() =~= acts(stack@));
            lemma_sized_pop(walk, *root, remembered, registers);
            if snd {
                lemma_sound_pop(walk, tree, facts, facts);
            }
        }
        if frame.next_child < frame.slots.len() {
            let slot: usize = frame.next_child;
            let edge: K::Unit = frame.slots[slot].0;
            let parent_path: RegistryPathId = match frame.registry_entries.len().checked_sub(1) {
                Some(last) => match frame.registry_entries.get(last) {
                    Some(ordinal) => RegistryPathId { ordinal },
                    None => RegistryPathId::root(),
                },
                None => RegistryPathId::root(),
            };
            proof {
                let node = *frame.node;
                lemma_slot_kid(node, frame.slots@, slot as int);
                if build.mode != RegistryBuildMode::Disabled {
                    reveal(entries_registered);
                    lemma_chunk_total(
                        frame.chain_prefix@.len() as int,
                        (K::max_prefix_len() + 1) as int,
                    );
                }
                lemma_slot_reachable(tree, frame, slot as int);
                lemma_slot_fewer(frame, slot as int);
                lemma_slot_at(tree, frame, slot as int);
            }
            let ghost child = frame.slots@[slot as int].1;
            let outcome = resolve_slot(
                sink,
                build,
                &mut path,
                edge,
                &frame.slots[slot].1,
                parent_path,
                Ghost(tree),
                Ghost(facts),
                Ghost(store),
                Ghost(first),
                Ghost(origin),
                Ghost(working),
            );
            proof {
                lemma_grows_trans(store, here, sink.store());
            }
            let (step, Ghost(more)) = match outcome {
                Ok(pair) => pair,
                Err(e) => {
                    proof {
                        if let Child::OnDisk(pointer) = child {
                            assert(durable_below(tree, pointer)) by {
                                assert(kid(frame.node@, edge) == Some(
                                    Branch::<K::Unit, V>::OnDisk(pointer),
                                ));
                            }
                        }
                    }
                    return Err(e);
                },
            };
            let ghost told = told_by::<K, V, S, P>(*build);
            proof {
                assert((told.prepared)(*root));
                lemma_frames_registered(walk, begun, *build);
                lemma_registered_pop(walk, *build);
                lemma_dealt_more(walk, told_by::<K, V, S, P>(begun), told, start, trace);
                lemma_dealt_pop(walk, told, start, trace);
                if snd {
                    lemma_sound_pop(walk, tree, facts, more);
                }
                facts = more;
                assert(slots_steps(frame.slots@, (slot + 1) as nat) == slots_steps(
                    frame.slots@,
                    slot as nat,
                ) + super::serialize_frame::slot_steps(child));
            }
            frame.next_child = slot + 1;
            match step {
                Step::Resolved(ptr) => {
                    frame.resolved.push(ptr);
                    proof {
                        if snd {
                            lemma_resolved_push(top, frame, ptr, tree, facts);
                            lemma_sound_push(stack@, frame, tree, facts);
                        }
                        let after = trace_of(*sink, *build);
                        lemma_dealt_push(top, frame, told, trace, after, ptr);
                        lemma_dealt_top(stack@, frame, told, start, after);
                        assert(acts(stack@.push(frame)) =~= working);
                        lemma_sized_top(stack@, frame, *root, remembered, registers);
                        lemma_replaced(walk, frame, *root);
                        lemma_registered_push(stack@, frame, *build);
                        lemma_frames_left(stack@.push(frame), *root);
                    }
                    stack.push(frame);
                },
                Step::Descend(below) => {
                    let requested: usize = match stack.len().checked_add(2) {
                        Some(requested) => requested,
                        None => {
                            return Err(
                                PersistentARTrieError::internal(
                                    "compressed serializer frame count overflow",
                                ),
                            );
                        },
                    };
                    match reserve_entries(
                        &mut stack,
                        2,
                        "compressed serializer frame stack",
                        requested,
                    ) {
                        Ok(()) => {},
                        Err(e) => {
                            return Err(e);
                        },
                    }
                    proof {
                        if snd {
                            assert(frame.sound(tree, facts));
                            lemma_sound_push(stack@, frame, tree, facts);
                            lemma_sound_push(stack@.push(frame), below, tree, facts);
                        }
                        assert(frame.kids() =~= top.kids());
                        lemma_dealt_top(stack@, frame, told, start, trace);
                        let node = *below.node;
                        lemma_kids_emit_start(
                            told,
                            below.full@,
                            node.steps(),
                            below.slots@,
                            trace,
                            below.kids(),
                        );
                        lemma_dealt_top(stack@.push(frame), below, told, start, trace);
                        assert(acts(stack@.push(frame).push(below)) =~= working.push(
                            (below.node, below.registry_start is Some),
                        ));
                        lemma_sized_top(stack@, frame, *root, remembered, registers);
                        lemma_sized_top(stack@.push(frame), below, *root, remembered, registers);
                        lemma_replaced(walk, frame, *root);
                        lemma_registered_push(stack@, frame, *build);
                        let longer = stack@.push(frame);
                        let deeper = longer.push(below);
                        assert(deeper[longer.len() - 1] == frame);
                        assert(deeper[longer.len() as int] == below);
                        assert(frame_linked(deeper, longer.len() - 1));
                        lemma_frames_push(longer, below, *root);
                        lemma_registered_push(longer, below, *build);
                        lemma_frames_left(deeper, *root);
                        assert(build.registry.open@ =~= open + open_tail(deeper));
                    }
                    stack.push(frame);
                    stack.push(below);
                },
            }
        } else {
            let terminus_ptr = match emit_terminus(
                sink,
                build,
                &path,
                &frame,
                Ghost(tree),
                Ghost(facts),
                Ghost(store),
                Ghost(first),
                Ghost(origin),
                Ghost(working),
            ) {
                Ok(ptr) => ptr,
                Err(e) => {
                    proof {
                        lemma_grows_trans(store, here, sink.store());
                    }
                    return Err(e);
                },
            };
            let ghost known = facts.insert((terminus_ptr, frame.node@));
            let ghost middle = sink.store();
            let ghost told = told_by::<K, V, S, P>(*build);
            proof {
                lemma_grows_trans(store, here, middle);
                assert((told.prepared)(*root));
                lemma_dealt_more(walk, told_by::<K, V, S, P>(begun), told, start, trace);
                lemma_dealt_pop(walk, told, start, trace);
                assert(frame.node_done(told, trace_of(*sink, *build), terminus_ptr));
                if walk.len() > 1 {
                    lemma_end_emits(
                        told,
                        frame.full@,
                        frame.node,
                        frame.start@,
                        trace_of(*sink, *build),
                        terminus_ptr,
                    );
                }
            }
            let ghost written = trace_of(*sink, *build);
            let outcome = emit_chain(
                sink,
                build,
                &path,
                &frame,
                terminus_ptr,
                Ghost(tree),
                Ghost(known),
                Ghost(store),
                Ghost(first),
                Ghost(origin),
            );
            proof {
                lemma_grows_trans(store, middle, sink.store());
                lemma_grows_trans(here, middle, sink.store());
            }
            let (top_ptr, Ghost(more)) = match outcome {
                Ok(pair) => pair,
                Err(e) => {
                    return Err(e);
                },
            };
            let ghost now = told_by::<K, V, S, P>(*build);
            proof {
                assert((now.prepared)(*root));
                lemma_dealt_more(stack@, told, now, start, frame.start@);
                assert(facts.subset_of(more));
                assert(build.registry.open@ =~= open + open_tail(stack@));
                lemma_frames_registered(walk, begun, *build);
                lemma_registered_pop(walk, *build);
                if snd {
                    lemma_sound_pop(walk, tree, facts, more);
                }
                facts = more;
            }
            path.truncate(frame.base_depth);
            match stack.pop() {
                None => {
                    proof {
                        assert(open_tail(walk.drop_last()) =~= Seq::empty());
                        reveal(chain_ok);
                        assert(frame.node == *root);
                        assert(trace_of(*sink, *build) == written);
                        lemma_node_emits_more(
                            told,
                            now,
                            frame.full@,
                            frame.node,
                            start,
                            written,
                            top_ptr,
                        );
                        assert(frame.full@ =~= Seq::<K::Unit>::empty());
                        assert(open + Seq::<RegistryBuilderSubtreeStart>::empty() =~= open);
                        if snd {
                            lemma_ledger_fact(sink.store(), tree, facts, top_ptr, tree);
                            assert(closed(sink.store())) by {
                                reveal(ledger);
                            }
                            assert forall|i: int| 0 <= i < build.deferred_stamps@.len() implies stored(
                                sink.store(),
                                SwizzledPtr { raw: (#[trigger] build.deferred_stamps@[i]).raw },
                                build.deferred_stamps@[i].node@,
                            ) by {
                                reveal(stamps_sound);
                                lemma_ledger_fact(
                                    sink.store(),
                                    tree,
                                    facts,
                                    SwizzledPtr { raw: build.deferred_stamps@[i].raw },
                                    build.deferred_stamps@[i].node@,
                                );
                            }
                            assert forall|i: int|
                                origin.1.len() <= i < sink.asked().len() implies stored(
                                sink.store(),
                                (#[trigger] sink.asked()[i]).0,
                                at(tree, sink.asked()[i].1)->0,
                            ) by {
                                reveal(asked_of);
                                assert(asked_known(tree, facts, sink.asked()[i]));
                                lemma_ledger_fact(
                                    sink.store(),
                                    tree,
                                    facts,
                                    sink.asked()[i].0,
                                    at(tree, sink.asked()[i].1)->0,
                                );
                            }
                        }
                    }
                    return Ok(top_ptr);
                },
                Some(parent) => {
                    let ghost rest = walk.drop_last();
                    let ghost waiting = parent;
                    let mut parent = parent;
                    proof {
                        assert(frame_linked(walk, walk.len() - 2));
                        assert(walk[walk.len() - 2] == parent);
                        assert(walk[walk.len() - 1] == frame);
                        assert(rest.last() == parent);
                        assert(stack@ =~= rest.drop_last());
                        lemma_frames_pop(rest, *root);
                        lemma_registered_pop(rest, *build);
                        if snd {
                            lemma_sound_pop(rest, tree, facts, facts);
                        }
                    }
                    parent.resolved.push(top_ptr);
                    proof {
                        if snd {
                            lemma_resolved_push(waiting, parent, top_ptr, tree, facts);
                            lemma_sound_push(stack@, parent, tree, facts);
                        }
                        let after = trace_of(*sink, *build);
                        lemma_dealt_pop(rest, now, start, frame.start@);
                        lemma_slot_fewer(waiting, waiting.next_child - 1);
                        assert(frame.head_done(now, after, top_ptr));
                        assert(frame.full@.take(frame.full@.len() - frame.chain_prefix@.len())
                            =~= waiting.full@.push(waiting.slots@[waiting.next_child - 1].0));
                        lemma_needs_more(told, now, frame.head());
                        lemma_dealt_push(waiting, parent, now, frame.start@, after, top_ptr);
                        lemma_dealt_top(stack@, parent, now, start, after);
                        assert(acts(stack@.push(parent)) =~= working.drop_last());
                        lemma_sized_pop(rest, *root, remembered, registers);
                        lemma_sized_top(stack@, parent, *root, remembered, registers);
                        lemma_replaced(rest, parent, *root);
                        lemma_registered_push(stack@, parent, *build);
                        lemma_frames_left(stack@.push(parent), *root);
                    }
                    stack.push(parent);
                },
            }
        }
    }
}

/// What has to be written does not depend on what is complete.
proof fn lemma_needs_more<K: KeyEncoding, V>(
    less: Told<K, V>,
    more: Told<K, V>,
    node: Arc<OverlayNode<K, V>>,
)
    requires
        told_more(less, more),
        needs_record(less, node),
    ensures
        needs_record(more, node),
{
    assert((more.declined)(SwizzledPtr { raw: node.stamp }) == (less.declined)(
        SwizzledPtr { raw: node.stamp },
    ));
}

} // verus!
