//! Which records the serializer writes, and in which order.
//!
//! The children of a node are written before it, in the order of their edges, and the
//! chunks of a chain after the node at its end, from the bottom up. A node that is
//! remembered has one record, which all its parents name.

use std::sync::Arc;
use vstd::prelude::*;
use crate::key_encoding::KeyEncoding;
use crate::swizzled_ptr::SwizzledPtr;
use crate::value::DictionaryValue;
use super::graph_policy::GraphPolicy;
use super::node::{Child, OverlayNode};
use super::serialize_build::{OverlaySerializationBuild, RegistryBuildMode};
use super::serialize_chain::{chain_node, chain_ok, continues, link};
use super::serialize_frame::Frame;
use super::serialize_ledger::slots_of;
use super::serialize_model::{chunk_record, RecordView};
use super::serialize_sink::OverlayCompressedSerialize;
use super::serialize_stamps::kept;
use super::serialize_trace::{entered, held, taken_before, How, Log, Occurrence, Trace};

verus! {

/// What a serializer was told while it wrote: whether stamped nodes may keep their
/// records, whether paths are registered, below which roots shared nodes were looked
/// for, which nodes are boundaries, which were complete already, which were noted when
/// they were written, where the sink places records, which ones it took over or did
/// not, which durable children are imported, and what the registry has of children
/// that keep their records.
#[verifier::reject_recursive_types(K)]
#[verifier::reject_recursive_types(V)]
pub struct Told<K: KeyEncoding, V> {
    pub reuse: bool,
    pub registers: bool,
    pub prepared: spec_fn(Arc<OverlayNode<K, V>>) -> bool,
    pub boundary: spec_fn(Arc<OverlayNode<K, V>>, bool) -> bool,
    pub done: spec_fn(Arc<OverlayNode<K, V>>, SwizzledPtr) -> bool,
    pub noted: spec_fn(Arc<OverlayNode<K, V>>, SwizzledPtr) -> bool,
    pub places: spec_fn(
        Log<K::Unit, V>,
        RecordView<K::Unit, V>,
        Seq<K::Unit>,
        SwizzledPtr,
    ) -> bool,
    pub taken: spec_fn(SwizzledPtr, Seq<K::Unit>, bool) -> bool,
    pub declined: spec_fn(SwizzledPtr) -> bool,
    pub imported: spec_fn(SwizzledPtr) -> bool,
    pub entered: spec_fn(Occurrence<K::Unit>) -> bool,
}

/// What a build and a sink tell.
pub open spec fn told_by<
    K: KeyEncoding,
    V: DictionaryValue,
    S: OverlayCompressedSerialize<K, V>,
    P: GraphPolicy<K, V>,
>(build: OverlaySerializationBuild<K, V, P>) -> Told<K, V> {
    Told {
        reuse: build.mode == RegistryBuildMode::Enabled,
        registers: build.mode != RegistryBuildMode::Disabled,
        prepared: |root: Arc<OverlayNode<K, V>>| build.graph.prepared_for(root),
        boundary: |node: Arc<OverlayNode<K, V>>, r: bool| build.graph.boundary(node, r),
        done: |node: Arc<OverlayNode<K, V>>, ptr: SwizzledPtr| build.graph.done(node, ptr),
        noted: |node: Arc<OverlayNode<K, V>>, ptr: SwizzledPtr| build.graph.noted(node, ptr),
        places: |
            log: Log<K::Unit, V>,
            record: RecordView<K::Unit, V>,
            path: Seq<K::Unit>,
            ptr: SwizzledPtr,
        | S::places(log, record, path, ptr),
        taken: |ptr: SwizzledPtr, path: Seq<K::Unit>, resident: bool|
            S::takes(ptr, path, resident, build.structural_source),
        declined: |ptr: SwizzledPtr| S::declines(ptr, true),
        imported: |ptr: SwizzledPtr| held(build.on_disk_imports@, ptr),
        entered: |occurrence: Occurrence<K::Unit>| entered(build.registry, occurrence),
    }
}

/// A chain ends at a node: it cannot go on, or the node was told to be a boundary.
pub open spec fn ends<K: KeyEncoding, V>(told: Told<K, V>, node: Arc<OverlayNode<K, V>>) -> bool {
    !continues(*node, told.reuse) || (told.boundary)(node, true)
}

/// A chain goes on at a node.
pub open spec fn passes<K: KeyEncoding, V>(told: Told<K, V>, node: Arc<OverlayNode<K, V>>) -> bool {
    continues(*node, told.reuse) && (told.boundary)(node, false)
}

/// A part of a chain that makes one chunk: it is as long as a record allows, or the
/// chain ends behind it.
pub open spec fn chunk_of<K: KeyEncoding, V>(
    told: Told<K, V>,
    node: Arc<OverlayNode<K, V>>,
    live: Seq<Arc<OverlayNode<K, V>>>,
    units: Seq<K::Unit>,
    end: Arc<OverlayNode<K, V>>,
) -> bool {
    &&& units.len() > 0
    &&& live.len() == units.len()
    &&& live[0] == node
    &&& forall|j: int|
        0 <= j < live.len() ==> passes(told, #[trigger] live[j]) && link(
            *live[j],
            units[j],
            chain_node(live, end, j + 1),
        )
    &&& units.len() == K::max_prefix_len() + 1 || (units.len() < K::max_prefix_len() + 1 && ends(
        told,
        end,
    ))
}

/// How a child that keeps its record came to the registry.
pub open spec fn meets<K: KeyEncoding, V>(
    told: Told<K, V>,
    occurrence: Occurrence<K::Unit>,
) -> bool {
    match occurrence.how {
        How::Passed => !told.registers,
        How::Taken => told.registers && (told.entered)(occurrence) && (told.taken)(
            occurrence.ptr,
            occurrence.path,
            occurrence.resident,
        ),
        How::Grafted(_) => told.registers && (told.entered)(occurrence),
    }
}

/// A node that is complete already, met at a path. What is registered of it is copied
/// there.
pub open spec fn met_done<K: KeyEncoding, V>(
    told: Told<K, V>,
    path: Seq<K::Unit>,
    node: Arc<OverlayNode<K, V>>,
    occurrence: Occurrence<K::Unit>,
) -> bool {
    &&& occurrence.path == path
    &&& occurrence.resident
    &&& !(occurrence.how is Taken)
    &&& meets(told, occurrence)
    &&& (told.done)(node, occurrence.ptr)
}

/// A stamped node that keeps its record, which the sink took over at a path.
pub open spec fn keeps<K: KeyEncoding, V>(
    told: Told<K, V>,
    path: Seq<K::Unit>,
    node: Arc<OverlayNode<K, V>>,
    occurrence: Occurrence<K::Unit>,
) -> bool {
    &&& occurrence.path == path
    &&& occurrence.resident
    &&& occurrence.how is Taken
    &&& meets(told, occurrence)
    &&& kept(*node, occurrence.ptr, told.reuse)
}

/// A durable child, met at a path. Where paths are registered, its records are taken
/// over the first time, and what is registered of them is copied from then on.
pub open spec fn met_durable<K: KeyEncoding, V>(
    told: Told<K, V>,
    path: Seq<K::Unit>,
    durable: SwizzledPtr,
    earlier: Seq<Occurrence<K::Unit>>,
    occurrence: Occurrence<K::Unit>,
) -> bool {
    &&& occurrence.path == path
    &&& occurrence.ptr == durable
    &&& !occurrence.resident
    &&& meets(told, occurrence)
    &&& told.registers ==> (told.imported)(durable)
    &&& occurrence.how is Taken ==> !taken_before(earlier, durable)
}

/// A child slot that was met without being written.
pub open spec fn slot_met<K: KeyEncoding, V>(
    told: Told<K, V>,
    path: Seq<K::Unit>,
    child: Child<K, V>,
    earlier: Seq<Occurrence<K::Unit>>,
    occurrence: Occurrence<K::Unit>,
) -> bool {
    match child {
        Child::OnDisk(durable) => met_durable(told, path, durable, earlier, occurrence),
        Child::InMem(node) => keeps(told, path, node, occurrence) || met_done(
            told,
            path,
            node,
            occurrence,
        ),
    }
}

/// A node that has to be written: if stamps count and it has one, the sink did not
/// take its record over.
pub open spec fn needs_record<K: KeyEncoding, V>(
    told: Told<K, V>,
    node: Arc<OverlayNode<K, V>>,
) -> bool {
    told.reuse && node.stamp != 0 ==> (told.declined)(SwizzledPtr { raw: node.stamp })
}

/// Always so. It names a trace and a record, for quantifiers to be matched by.
pub open spec fn point<U, V>(trace: Trace<U, V>, ptr: SwizzledPtr) -> bool {
    true
}

/// Always so. It names child slots, their records and the trace behind them, for
/// quantifiers to be matched by.
pub open spec fn listing<K: KeyEncoding, V>(
    slots: Seq<(K::Unit, Child<K, V>)>,
    trace: Trace<K::Unit, V>,
    kids: Seq<(K::Unit, SwizzledPtr)>,
) -> bool {
    true
}

/// A resident node below the root, at a path, was dealt with: from the trace `before`
/// on, up to `after`, and its record is `ptr`. A node at the end of a chain that is
/// complete already is met, and not written again.
#[verifier::opaque]
pub open spec fn emits<K: KeyEncoding, V>(
    told: Told<K, V>,
    path: Seq<K::Unit>,
    node: Arc<OverlayNode<K, V>>,
    before: Trace<K::Unit, V>,
    after: Trace<K::Unit, V>,
    ptr: SwizzledPtr,
) -> bool
    decreases node.steps(), 2nat, 0nat,
{
    ||| ends(told, node) && node_emits(told, path, node, before, after, ptr)
    ||| ends(told, node) && after.met.len() > 0 && after.before_met() == before && met_done(
        told,
        path,
        node,
        after.met.last(),
    ) && ptr == after.met.last().ptr
    ||| exists|
        live: Seq<Arc<OverlayNode<K, V>>>,
        units: Seq<K::Unit>,
        end: Arc<OverlayNode<K, V>>,
        middle: Trace<K::Unit, V>,
        below: SwizzledPtr,
    | {
        &&& #[trigger] chunk_of(told, node, live, units, end)
        &&& end.steps() < node.steps()
        &&& #[trigger] point(middle, below)
        &&& emits(told, path + units, end, before, middle, below)
        &&& (told.places)(middle.log, chunk_record(units, below), path, ptr)
        &&& after == middle.with_record(ptr, chunk_record::<K::Unit, V>(units, below), path)
    }
}

/// A node at a path was written without a prefix: its children first, then its record,
/// which was noted.
#[verifier::opaque]
pub open spec fn node_emits<K: KeyEncoding, V>(
    told: Told<K, V>,
    path: Seq<K::Unit>,
    node: Arc<OverlayNode<K, V>>,
    before: Trace<K::Unit, V>,
    after: Trace<K::Unit, V>,
    ptr: SwizzledPtr,
) -> bool
    decreases node.steps(), 1nat, 0nat,
{
    exists|
        slots: Seq<(K::Unit, Child<K, V>)>,
        middle: Trace<K::Unit, V>,
        kids: Seq<(K::Unit, SwizzledPtr)>,
    | {
        &&& slots_of(node.children@, slots)
        &&& #[trigger] listing(slots, middle, kids)
        &&& kids_emit(told, path, node.steps(), slots, slots.len(), before, middle, kids)
        &&& (told.places)(middle.log, node_record(*node, kids), path, ptr)
        &&& after == middle.with_record(ptr, node_record(*node, kids), path)
        &&& (told.noted)(node, ptr)
    }
}

/// The record of a node without a prefix.
pub open spec fn node_record<K: KeyEncoding, V>(
    node: OverlayNode<K, V>,
    kids: Seq<(K::Unit, SwizzledPtr)>,
) -> RecordView<K::Unit, V> {
    RecordView { prefix: Seq::empty(), is_final: node.final_flag, value: node.value, kids }
}

/// The first `n` child slots of a node at a path were dealt with in order: each keeps
/// its record, or was written. `bound` bounds the steps of the children.
#[verifier::opaque]
pub open spec fn kids_emit<K: KeyEncoding, V>(
    told: Told<K, V>,
    path: Seq<K::Unit>,
    bound: nat,
    slots: Seq<(K::Unit, Child<K, V>)>,
    n: nat,
    before: Trace<K::Unit, V>,
    after: Trace<K::Unit, V>,
    kids: Seq<(K::Unit, SwizzledPtr)>,
) -> bool
    decreases bound, 0nat, n,
{
    if n == 0 || n > slots.len() {
        after == before && kids.len() == 0
    } else {
        let (unit, child) = slots[n - 1];
        let (m, rest) = ((n - 1) as nat, kids.drop_last());
        &&& kids.len() > 0
        &&& kids.last().0 == unit
        &&& {
            ||| after.met.len() > 0 && slot_met(
                told,
                path.push(unit),
                child,
                after.met.drop_last(),
                after.met.last(),
            ) && kids.last().1 == after.met.last().ptr && kids_emit(
                told,
                path,
                bound,
                slots,
                m,
                before,
                after.before_met(),
                rest,
            )
            ||| child matches Child::InMem(node) && exists|middle: Trace<K::Unit, V>|
                #[trigger] point(middle, kids.last().1) && node.steps() < bound && needs_record(
                    told,
                    node,
                ) && emits(told, path.push(unit), node, middle, after, kids.last().1) && kids_emit(
                    told,
                    path,
                    bound,
                    slots,
                    m,
                    before,
                    middle,
                    rest,
                )
        }
    }
}

/// More was told: the same boundaries, and all that was complete, noted, imported or
/// copied still is.
pub open spec fn told_more<K: KeyEncoding, V>(less: Told<K, V>, more: Told<K, V>) -> bool {
    &&& less.reuse == more.reuse
    &&& less.registers == more.registers
    &&& forall|n: Arc<OverlayNode<K, V>>| (less.prepared)(n) ==> #[trigger] (more.prepared)(n)
    &&& forall|n: Arc<OverlayNode<K, V>>, b: bool|
        #[trigger] (more.boundary)(n, b) == (less.boundary)(n, b)
    &&& forall|n: Arc<OverlayNode<K, V>>, p: SwizzledPtr|
        (less.done)(n, p) ==> #[trigger] (more.done)(n, p)
    &&& forall|n: Arc<OverlayNode<K, V>>, p: SwizzledPtr|
        (less.noted)(n, p) ==> #[trigger] (more.noted)(n, p)
    &&& forall|p: SwizzledPtr| (less.imported)(p) ==> #[trigger] (more.imported)(p)
    &&& forall|p: SwizzledPtr, path: Seq<K::Unit>, resident: bool|
        #[trigger] (more.taken)(p, path, resident) == (less.taken)(p, path, resident)
    &&& forall|p: SwizzledPtr| #[trigger] (more.declined)(p) == (less.declined)(p)
    &&& forall|
        log: Log<K::Unit, V>,
        record: RecordView<K::Unit, V>,
        path: Seq<K::Unit>,
        p: SwizzledPtr,
    | #[trigger] (more.places)(log, record, path, p) == (less.places)(log, record, path, p)
    &&& forall|o: Occurrence<K::Unit>| (less.entered)(o) ==> #[trigger] (more.entered)(o)
}

/// What was met stays so when more is told.
pub proof fn lemma_meets_more<K: KeyEncoding, V>(
    less: Told<K, V>,
    more: Told<K, V>,
    occurrence: Occurrence<K::Unit>,
)
    requires
        told_more(less, more),
        meets(less, occurrence),
    ensures
        meets(more, occurrence),
{
    assert((less.entered)(occurrence) ==> (more.entered)(occurrence));
    assert((more.taken)(occurrence.ptr, occurrence.path, occurrence.resident) == (less.taken)(
        occurrence.ptr,
        occurrence.path,
        occurrence.resident,
    ));
}

/// What was met stays so when more is told.
proof fn lemma_met_more<K: KeyEncoding, V>(
    less: Told<K, V>,
    more: Told<K, V>,
    path: Seq<K::Unit>,
    child: Child<K, V>,
    earlier: Seq<Occurrence<K::Unit>>,
    occurrence: Occurrence<K::Unit>,
)
    requires
        told_more(less, more),
        slot_met(less, path, child, earlier, occurrence),
    ensures
        slot_met(more, path, child, earlier, occurrence),
{
    lemma_meets_more(less, more, occurrence);
    match child {
        Child::OnDisk(durable) => {
            assert((less.imported)(durable) ==> (more.imported)(durable));
        },
        Child::InMem(node) => {
            assert((less.done)(node, occurrence.ptr) ==> (more.done)(node, occurrence.ptr));
        },
    }
}

/// What was written stays so when more is told.
pub proof fn lemma_emits_more<K: KeyEncoding, V>(
    less: Told<K, V>,
    more: Told<K, V>,
    path: Seq<K::Unit>,
    node: Arc<OverlayNode<K, V>>,
    before: Trace<K::Unit, V>,
    after: Trace<K::Unit, V>,
    ptr: SwizzledPtr,
)
    requires
        told_more(less, more),
        emits(less, path, node, before, after, ptr),
    ensures
        emits(more, path, node, before, after, ptr),
    decreases node.steps(), 2nat, 0nat,
{
    reveal_with_fuel(emits, 1);
    reveal_with_fuel(node_emits, 1);
    reveal_with_fuel(kids_emit, 1);
    assert(ends(less, node) == ends(more, node));
    if ends(less, node) && node_emits(less, path, node, before, after, ptr) {
        lemma_node_emits_more(less, more, path, node, before, after, ptr);
    } else if ends(less, node) && after.met.len() > 0 && after.before_met() == before && met_done(
        less,
        path,
        node,
        after.met.last(),
    ) && ptr == after.met.last().ptr {
        lemma_meets_more(less, more, after.met.last());
        assert((more.done)(node, ptr));
    } else {
        let (live, units, end, middle, below) = choose|
            live: Seq<Arc<OverlayNode<K, V>>>,
            units: Seq<K::Unit>,
            end: Arc<OverlayNode<K, V>>,
            middle: Trace<K::Unit, V>,
            below: SwizzledPtr,
        | {
            &&& #[trigger] chunk_of(less, node, live, units, end)
            &&& end.steps() < node.steps()
            &&& #[trigger] point(middle, below)
            &&& emits(less, path + units, end, before, middle, below)
            &&& (less.places)(middle.log, chunk_record(units, below), path, ptr)
            &&& after == middle.with_record(ptr, chunk_record::<K::Unit, V>(units, below), path)
        };
        lemma_emits_more(less, more, path + units, end, before, middle, below);
        assert(point(middle, below));
        assert((more.places)(middle.log, chunk_record(units, below), path, ptr));
        assert(chunk_of(more, node, live, units, end)) by {
            assert forall|j: int| 0 <= j < live.len() implies passes(more, #[trigger] live[j])
                && link(*live[j], units[j], chain_node(live, end, j + 1)) by {
                assert(passes(less, live[j]));
            }
        }
    }
}

/// What was written stays so when more is told.
pub proof fn lemma_node_emits_more<K: KeyEncoding, V>(
    less: Told<K, V>,
    more: Told<K, V>,
    path: Seq<K::Unit>,
    node: Arc<OverlayNode<K, V>>,
    before: Trace<K::Unit, V>,
    after: Trace<K::Unit, V>,
    ptr: SwizzledPtr,
)
    requires
        told_more(less, more),
        node_emits(less, path, node, before, after, ptr),
    ensures
        node_emits(more, path, node, before, after, ptr),
    decreases node.steps(), 1nat, 0nat,
{
    reveal_with_fuel(emits, 1);
    reveal_with_fuel(node_emits, 1);
    reveal_with_fuel(kids_emit, 1);
    let (slots, middle, kids) = choose|
        slots: Seq<(K::Unit, Child<K, V>)>,
        middle: Trace<K::Unit, V>,
        kids: Seq<(K::Unit, SwizzledPtr)>,
    | {
        &&& slots_of(node.children@, slots)
        &&& #[trigger] listing(slots, middle, kids)
        &&& kids_emit(less, path, node.steps(), slots, slots.len(), before, middle, kids)
        &&& (less.places)(middle.log, node_record(*node, kids), path, ptr)
        &&& after == middle.with_record(ptr, node_record(*node, kids), path)
        &&& (less.noted)(node, ptr)
    };
    let content = *node;
    lemma_kids_emit_more(
        less,
        more,
        path,
        content.steps(),
        slots,
        slots.len(),
        before,
        middle,
        kids,
    );
    assert((more.noted)(node, ptr));
    assert((more.places)(middle.log, node_record(content, kids), path, ptr));
    assert(listing(slots, middle, kids));
}

/// What was written stays so when more is told.
pub proof fn lemma_kids_emit_more<K: KeyEncoding, V>(
    less: Told<K, V>,
    more: Told<K, V>,
    path: Seq<K::Unit>,
    bound: nat,
    slots: Seq<(K::Unit, Child<K, V>)>,
    n: nat,
    before: Trace<K::Unit, V>,
    after: Trace<K::Unit, V>,
    kids: Seq<(K::Unit, SwizzledPtr)>,
)
    requires
        told_more(less, more),
        kids_emit(less, path, bound, slots, n, before, after, kids),
    ensures
        kids_emit(more, path, bound, slots, n, before, after, kids),
    decreases bound, 0nat, n,
{
    reveal_with_fuel(emits, 1);
    reveal_with_fuel(node_emits, 1);
    reveal_with_fuel(kids_emit, 1);
    if n > 0 && n <= slots.len() {
        let (unit, child) = slots[n - 1];
        let m = (n - 1) as nat;
        let rest = kids.drop_last();
        let ptr = kids.last().1;
        if after.met.len() > 0 && slot_met(
            less,
            path.push(unit),
            child,
            after.met.drop_last(),
            after.met.last(),
        ) && ptr == after.met.last().ptr && kids_emit(
            less,
            path,
            bound,
            slots,
            m,
            before,
            after.before_met(),
            rest,
        ) {
            lemma_met_more(
                less,
                more,
                path.push(unit),
                child,
                after.met.drop_last(),
                after.met.last(),
            );
            lemma_kids_emit_more(
                less,
                more,
                path,
                bound,
                slots,
                m,
                before,
                after.before_met(),
                rest,
            );
        } else {
            let node = child->InMem_0;
            let middle = choose|middle: Trace<K::Unit, V>|
                #[trigger] point(middle, ptr) && node.steps() < bound && needs_record(less, node)
                    && emits(less, path.push(unit), node, middle, after, ptr) && kids_emit(
                    less,
                    path,
                    bound,
                    slots,
                    m,
                    before,
                    middle,
                    rest,
                );
            assert(point(middle, ptr));
            lemma_emits_more(less, more, path.push(unit), node, middle, after, ptr);
            lemma_kids_emit_more(less, more, path, bound, slots, m, before, middle, rest);
        }
    }
}

/// Nothing was dealt with yet.
pub proof fn lemma_kids_emit_start<K: KeyEncoding, V>(
    told: Told<K, V>,
    path: Seq<K::Unit>,
    bound: nat,
    slots: Seq<(K::Unit, Child<K, V>)>,
    trace: Trace<K::Unit, V>,
    kids: Seq<(K::Unit, SwizzledPtr)>,
)
    requires
        kids.len() == 0,
    ensures
        kids_emit(told, path, bound, slots, 0, trace, trace, kids),
{
    reveal_with_fuel(emits, 1);
    reveal_with_fuel(node_emits, 1);
    reveal_with_fuel(kids_emit, 1);
}

/// How one child slot was dealt with.
pub open spec fn slot_emits<K: KeyEncoding, V>(
    told: Told<K, V>,
    path: Seq<K::Unit>,
    bound: nat,
    child: Child<K, V>,
    before: Trace<K::Unit, V>,
    after: Trace<K::Unit, V>,
    ptr: SwizzledPtr,
) -> bool {
    ||| after.met.len() > 0 && before == after.before_met() && slot_met(
        told,
        path,
        child,
        after.met.drop_last(),
        after.met.last(),
    ) && ptr == after.met.last().ptr
    ||| child matches Child::InMem(node) && node.steps() < bound && needs_record(told, node)
        && emits(told, path, node, before, after, ptr)
}

/// One more child slot was dealt with.
pub proof fn lemma_kids_emit_push<K: KeyEncoding, V>(
    told: Told<K, V>,
    path: Seq<K::Unit>,
    bound: nat,
    slots: Seq<(K::Unit, Child<K, V>)>,
    n: nat,
    before: Trace<K::Unit, V>,
    middle: Trace<K::Unit, V>,
    after: Trace<K::Unit, V>,
    kids: Seq<(K::Unit, SwizzledPtr)>,
    ptr: SwizzledPtr,
)
    requires
        n < slots.len(),
        kids_emit(told, path, bound, slots, n, before, middle, kids),
        slot_emits(
            told,
            path.push(slots[n as int].0),
            bound,
            slots[n as int].1,
            middle,
            after,
            ptr,
        ),
    ensures
        kids_emit(
            told,
            path,
            bound,
            slots,
            n + 1,
            before,
            after,
            kids.push((slots[n as int].0, ptr)),
        ),
{
    let longer = kids.push((slots[n as int].0, ptr));
    assert(longer.drop_last() =~= kids);
    assert(((n + 1) - 1) as nat == n);
    assert(point(middle, longer.last().1));
    reveal_with_fuel(emits, 1);
    reveal_with_fuel(node_emits, 1);
    reveal_with_fuel(kids_emit, 1);
}

/// The record of a node whose children were dealt with.
pub proof fn lemma_node_emits<K: KeyEncoding, V>(
    told: Told<K, V>,
    path: Seq<K::Unit>,
    node: Arc<OverlayNode<K, V>>,
    slots: Seq<(K::Unit, Child<K, V>)>,
    before: Trace<K::Unit, V>,
    middle: Trace<K::Unit, V>,
    kids: Seq<(K::Unit, SwizzledPtr)>,
    ptr: SwizzledPtr,
)
    requires
        slots_of(node.children@, slots),
        kids_emit(told, path, node.steps(), slots, slots.len(), before, middle, kids),
        (told.noted)(node, ptr),
        (told.places)(middle.log, node_record(*node, kids), path, ptr),
    ensures
        node_emits(
            told,
            path,
            node,
            before,
            middle.with_record(ptr, node_record(*node, kids), path),
            ptr,
        ),
{
    assert(listing(slots, middle, kids));
    reveal_with_fuel(emits, 1);
    reveal_with_fuel(node_emits, 1);
    reveal_with_fuel(kids_emit, 1);
}

/// A node at which a chain ends.
pub proof fn lemma_end_emits<K: KeyEncoding, V>(
    told: Told<K, V>,
    path: Seq<K::Unit>,
    node: Arc<OverlayNode<K, V>>,
    before: Trace<K::Unit, V>,
    after: Trace<K::Unit, V>,
    ptr: SwizzledPtr,
)
    requires
        ends(told, node),
        node_emits(told, path, node, before, after, ptr) || (after.met.len() > 0
            && after.before_met() == before && met_done(told, path, node, after.met.last()) && ptr
            == after.met.last().ptr),
    ensures
        emits(told, path, node, before, after, ptr),
{
    reveal_with_fuel(emits, 1);
    reveal_with_fuel(node_emits, 1);
    reveal_with_fuel(kids_emit, 1);
}

impl<K: KeyEncoding, V> Frame<K, V> {
    /// The children that are done, with their records.
    pub open spec fn kids(self) -> Seq<(K::Unit, SwizzledPtr)> {
        Seq::new(self.resolved@.len(), |i: int| (self.slots@[i].0, self.resolved@[i]))
    }

    /// The chain of a frame ends at its node and nowhere above it.
    pub open spec fn peeled(self, told: Told<K, V>) -> bool {
        &&& ends(told, self.node)
        &&& forall|j: int|
            0 <= j < self.live_spine@.len() ==> passes(told, #[trigger] self.live_spine@[j])
    }

    /// What was done since the frame was started on are its children that are done.
    pub open spec fn dealt(self, told: Told<K, V>, trace: Trace<K::Unit, V>) -> bool {
        kids_emit(
            told,
            self.full@,
            self.node.steps(),
            self.slots@,
            self.resolved@.len(),
            self.start@,
            trace,
            self.kids(),
        )
    }

    /// The node of a frame was written.
    pub open spec fn node_done(
        self,
        told: Told<K, V>,
        trace: Trace<K::Unit, V>,
        ptr: SwizzledPtr,
    ) -> bool {
        node_emits(told, self.full@, self.node, self.start@, trace, ptr)
    }

    /// The node of a frame was dealt with.
    pub open spec fn end_done(
        self,
        told: Told<K, V>,
        trace: Trace<K::Unit, V>,
        ptr: SwizzledPtr,
    ) -> bool {
        emits(told, self.full@, self.node, self.start@, trace, ptr)
    }

    /// The node of a frame and the chain above it were dealt with.
    pub open spec fn head_done(
        self,
        told: Told<K, V>,
        trace: Trace<K::Unit, V>,
        ptr: SwizzledPtr,
    ) -> bool {
        emits(
            told,
            self.full@.take(self.full@.len() - self.chain_prefix@.len()),
            self.head(),
            self.start@,
            trace,
            ptr,
        )
    }
}

/// A frame whose next child was dealt with.
pub proof fn lemma_dealt_push<K: KeyEncoding, V>(
    before: Frame<K, V>,
    after: Frame<K, V>,
    told: Told<K, V>,
    trace: Trace<K::Unit, V>,
    more: Trace<K::Unit, V>,
    ptr: SwizzledPtr,
)
    requires
        before.dealt(told, trace),
        after.node == before.node,
        after.slots == before.slots,
        after.start == before.start,
        after.full == before.full,
        after.resolved@ == before.resolved@.push(ptr),
        before.resolved@.len() < before.slots@.len(),
        slot_emits(
            told,
            before.full@.push(before.slots@[before.resolved@.len() as int].0),
            before.node.steps(),
            before.slots@[before.resolved@.len() as int].1,
            trace,
            more,
            ptr,
        ),
    ensures
        after.dealt(told, more),
{
    let n = before.resolved@.len();
    let content = *before.node;
    lemma_kids_emit_push(
        told,
        before.full@,
        content.steps(),
        before.slots@,
        n,
        before.start@,
        trace,
        more,
        before.kids(),
        ptr,
    );
    assert(after.kids() =~= before.kids().push((before.slots@[n as int].0, ptr)));
}

/// A chunk above what was dealt with. `path` leads to the head of the chain.
pub proof fn lemma_chunk_emits<K: KeyEncoding, V>(
    told: Told<K, V>,
    path: Seq<K::Unit>,
    live: Seq<Arc<OverlayNode<K, V>>>,
    units: Seq<K::Unit>,
    terminus: Arc<OverlayNode<K, V>>,
    start: int,
    end: int,
    before: Trace<K::Unit, V>,
    middle: Trace<K::Unit, V>,
    ptr: SwizzledPtr,
    below: SwizzledPtr,
)
    requires
        chain_ok(live, units, terminus),
        0 <= start < end <= units.len(),
        end - start == K::max_prefix_len() + 1 || (end == units.len() && end - start
            < K::max_prefix_len() + 1),
        ends(told, terminus),
        forall|j: int| 0 <= j < live.len() ==> passes(told, #[trigger] live[j]),
        emits(
            told,
            path + units.take(end),
            chain_node(live, terminus, end),
            before,
            middle,
            below,
        ),
        chain_node(live, terminus, end).steps() < chain_node(live, terminus, start).steps(),
        (told.places)(
            middle.log,
            chunk_record(units.subrange(start, end), below),
            path + units.take(start),
            ptr,
        ),
    ensures
        emits(
            told,
            path + units.take(start),
            chain_node(live, terminus, start),
            before,
            middle.with_record(
                ptr,
                chunk_record::<K::Unit, V>(units.subrange(start, end), below),
                path + units.take(start),
            ),
            ptr,
        ),
{
    assert(live.len() == units.len()) by {
        reveal(chain_ok);
    }
    let node = chain_node(live, terminus, start);
    let last = chain_node(live, terminus, end);
    let part = live.subrange(start, end);
    let edges = units.subrange(start, end);
    assert((path + units.take(start)) + edges =~= path + units.take(end));
    assert(chunk_of(told, node, part, edges, last)) by {
        assert(part[0] == node);
        assert forall|j: int| 0 <= j < part.len() implies passes(told, #[trigger] part[j]) && link(
            *part[j],
            edges[j],
            chain_node(part, last, j + 1),
        ) by {
            reveal(chain_ok);
            assert(part[j] == live[start + j]);
            assert(super::serialize_chain::chain_link(live, units, terminus, start + j));
            assert(edges[j] == units[start + j]);
            if j + 1 < part.len() {
                assert(part[j + 1] == live[start + j + 1]);
            }
        }
    }
    assert(point(middle, below));
    reveal_with_fuel(emits, 1);
    reveal_with_fuel(node_emits, 1);
    reveal_with_fuel(kids_emit, 1);
}

} // verus!
