//! Children that keep their records are registered where they are met.

use std::sync::Arc;
use vstd::prelude::*;
use crate::key_encoding::KeyEncoding;
use crate::swizzled_ptr::SwizzledPtr;
use crate::value::DictionaryValue;
use super::graph_policy::GraphPolicy;
use super::node::{Child, OverlayNode};
use super::serialize_build::{OverlaySerializationBuild, RegistryBuildMode};
use super::serialize_emission::{
    chunk_of, emits, ends, kids_emit, listing, meets, met_done, needs_record, node_emits,
    node_record, point, slot_met, told_by, Told,
};
use super::serialize_ledger::slots_of;
use super::serialize_model::chunk_record;
use super::serialize_sink::OverlayCompressedSerialize;
use super::serialize_trace::{entered, How, Occurrence, Trace};

verus! {

/// Children were met below a path, one after the other, and each came to the registry.
pub open spec fn met_below<K: KeyEncoding, V>(
    told: Told<K, V>,
    path: Seq<K::Unit>,
    before: Seq<Occurrence<K::Unit>>,
    after: Seq<Occurrence<K::Unit>>,
) -> bool {
    &&& before.len() <= after.len()
    &&& forall|j: int| 0 <= j < before.len() ==> #[trigger] after[j] == before[j]
    &&& forall|j: int|
        before.len() <= j < after.len() ==> meets(told, #[trigger] after[j]) && path.is_prefix_of(
            after[j].path,
        )
}

/// Meeting children one after the other.
proof fn lemma_met_trans<K: KeyEncoding, V>(
    told: Told<K, V>,
    path: Seq<K::Unit>,
    longer: Seq<K::Unit>,
    before: Seq<Occurrence<K::Unit>>,
    middle: Seq<Occurrence<K::Unit>>,
    after: Seq<Occurrence<K::Unit>>,
)
    requires
        met_below(told, path, before, middle),
        met_below(told, longer, middle, after),
        path.is_prefix_of(longer),
    ensures
        met_below(told, path, before, after),
{
    assert forall|j: int| 0 <= j < before.len() implies #[trigger] after[j] == before[j] by {
        assert(middle[j] == before[j]);
    }
    assert forall|j: int| before.len() <= j < after.len() implies meets(told, #[trigger] after[j])
        && path.is_prefix_of(after[j].path) by {
        if j < middle.len() {
            assert(after[j] == middle[j]);
        } else {
            lemma_prefix(path, longer, after[j].path);
        }
    }
}

/// Being a prefix is transitive.
proof fn lemma_prefix<U>(a: Seq<U>, b: Seq<U>, c: Seq<U>)
    requires
        a.is_prefix_of(b),
        b.is_prefix_of(c),
    ensures
        a.is_prefix_of(c),
{
    assert(a =~= c.take(a.len() as int)) by {
        assert forall|i: int| 0 <= i < a.len() implies a[i] == c[i] by {
            assert(a[i] == b.take(a.len() as int)[i]);
            assert(b[i] == c.take(b.len() as int)[i]);
        }
    }
}

/// What a child below a path met.
proof fn lemma_emits_met<K: KeyEncoding, V>(
    told: Told<K, V>,
    path: Seq<K::Unit>,
    node: Arc<OverlayNode<K, V>>,
    before: Trace<K::Unit, V>,
    after: Trace<K::Unit, V>,
    ptr: SwizzledPtr,
)
    requires
        emits(told, path, node, before, after, ptr),
    ensures
        met_below(told, path, before.met, after.met),
    decreases node.steps(), 2nat, 0nat,
{
    reveal_with_fuel(emits, 1);
    reveal_with_fuel(node_emits, 1);
    reveal_with_fuel(kids_emit, 1);
    if ends(told, node) && node_emits(told, path, node, before, after, ptr) {
        lemma_node_met(told, path, node, before, after, ptr);
    } else if ends(told, node) && after.met.len() > 0 && after.before_met() == before && met_done(
        told,
        path,
        node,
        after.met.last(),
    ) && ptr == after.met.last().ptr {
        assert(path =~= path.take(path.len() as int));
        assert forall|j: int| 0 <= j < before.met.len() implies #[trigger] after.met[j]
            == before.met[j] by {
            assert(after.met.drop_last()[j] == after.met[j]);
        }
        assert(after.met[after.met.len() - 1] == after.met.last());
    } else {
        let (live, units, end, middle, below) = choose|
            live: Seq<Arc<OverlayNode<K, V>>>,
            units: Seq<K::Unit>,
            end: Arc<OverlayNode<K, V>>,
            middle: Trace<K::Unit, V>,
            below: SwizzledPtr,
        | {
            &&& #[trigger] chunk_of(told, node, live, units, end)
            &&& end.steps() < node.steps()
            &&& #[trigger] point(middle, below)
            &&& emits(told, path + units, end, before, middle, below)
            &&& (told.places)(middle.log, chunk_record(units, below), path, ptr)
            &&& after == middle.with_record(ptr, chunk_record::<K::Unit, V>(units, below), path)
        };
        lemma_emits_met(told, path + units, end, before, middle, below);
        assert(path =~= (path + units).take(path.len() as int));
        assert forall|j: int| before.met.len() <= j < after.met.len() implies meets(
            told,
            #[trigger] after.met[j],
        ) && path.is_prefix_of(after.met[j].path) by {
            lemma_prefix(path, path + units, after.met[j].path);
        }
    }
}

/// What a node met below its path.
proof fn lemma_node_met<K: KeyEncoding, V>(
    told: Told<K, V>,
    path: Seq<K::Unit>,
    node: Arc<OverlayNode<K, V>>,
    before: Trace<K::Unit, V>,
    after: Trace<K::Unit, V>,
    ptr: SwizzledPtr,
)
    requires
        node_emits(told, path, node, before, after, ptr),
    ensures
        met_below(told, path, before.met, after.met),
    decreases node.steps(), 1nat, 0nat,
{
    reveal_with_fuel(emits, 1);
    reveal_with_fuel(node_emits, 1);
    reveal_with_fuel(kids_emit, 1);
    let (slots, middle, kids) = choose|
        slots: Seq<(K::Unit, Child<K, V>)>,
        middle: Trace<K::Unit, V>,
        kids: Seq<(K::Unit, SwizzledPtr)>,
    | {
        &&& slots_of(node.children@, slots)
        &&& #[trigger] listing(slots, middle, kids)
        &&& kids_emit(told, path, node.steps(), slots, slots.len(), before, middle, kids)
        &&& (told.places)(middle.log, node_record(*node, kids), path, ptr)
        &&& after == middle.with_record(ptr, node_record(*node, kids), path)
        &&& (told.noted)(node, ptr)
    };
    let content = *node;
    lemma_kids_met(told, path, content.steps(), slots, slots.len(), before, middle, kids);
}

/// What the children of a node met.
proof fn lemma_kids_met<K: KeyEncoding, V>(
    told: Told<K, V>,
    path: Seq<K::Unit>,
    bound: nat,
    slots: Seq<(K::Unit, Child<K, V>)>,
    n: nat,
    before: Trace<K::Unit, V>,
    after: Trace<K::Unit, V>,
    kids: Seq<(K::Unit, SwizzledPtr)>,
)
    requires
        kids_emit(told, path, bound, slots, n, before, after, kids),
    ensures
        met_below(told, path, before.met, after.met),
    decreases bound, 0nat, n,
{
    reveal_with_fuel(emits, 1);
    reveal_with_fuel(node_emits, 1);
    reveal_with_fuel(kids_emit, 1);
    if n > 0 && n <= slots.len() {
        let (unit, child) = slots[n - 1];
        let m = (n - 1) as nat;
        let rest = kids.drop_last();
        let ptr = kids.last().1;
        let longer = path.push(unit);
        assert(path =~= longer.take(path.len() as int));
        if after.met.len() > 0 && slot_met(
            told,
            longer,
            child,
            after.met.drop_last(),
            after.met.last(),
        ) && ptr == after.met.last().ptr && kids_emit(
            told,
            path,
            bound,
            slots,
            m,
            before,
            after.before_met(),
            rest,
        ) {
            lemma_kids_met(told, path, bound, slots, m, before, after.before_met(), rest);
            assert(longer =~= longer.take(longer.len() as int));
            assert(after.met[after.met.len() - 1] == after.met.last());
            lemma_met_trans(
                told,
                path,
                longer,
                before.met,
                after.met.drop_last(),
                after.met,
            );
        } else {
            let node = child->InMem_0;
            let middle = choose|middle: Trace<K::Unit, V>|
                #[trigger] point(middle, ptr) && node.steps() < bound && needs_record(told, node)
                    && emits(told, longer, node, middle, after, ptr) && kids_emit(
                    told,
                    path,
                    bound,
                    slots,
                    m,
                    before,
                    middle,
                    rest,
                );
            lemma_emits_met(told, longer, node, middle, after, ptr);
            lemma_kids_met(told, path, bound, slots, m, before, middle, rest);
            lemma_met_trans(told, path, longer, before.met, middle.met, after.met);
        }
    }
}

/// Where paths are registered, the registry has each child that kept its record at the
/// path where it was met: the records that the sink took over, or a copy of what is
/// registered of it elsewhere. A child is resident there exactly if it is in memory.
pub proof fn children_that_keep_their_records_are_registered<
    K: KeyEncoding,
    V: DictionaryValue,
    S: OverlayCompressedSerialize<K, V>,
    P: GraphPolicy<K, V>,
>(
    build: OverlaySerializationBuild<K, V, P>,
    path: Seq<K::Unit>,
    node: Arc<OverlayNode<K, V>>,
    before: Trace<K::Unit, V>,
    after: Trace<K::Unit, V>,
    ptr: SwizzledPtr,
    j: int,
)
    requires
        build.mode != RegistryBuildMode::Disabled,
        node_emits(told_by::<K, V, S, P>(build), path, node, before, after, ptr),
        before.met.len() <= j < after.met.len(),
    ensures
        path.is_prefix_of(after.met[j].path),
        !(after.met[j].how is Passed),
        entered(build.registry, after.met[j]),
{
    let told = told_by::<K, V, S, P>(build);
    lemma_node_met(told, path, node, before, after, ptr);
    assert(meets(told, after.met[j]));
    match after.met[j].how {
        How::Passed => {},
        How::Taken => {
            assert((told.entered)(after.met[j]));
        },
        How::Grafted(_) => {
            assert((told.entered)(after.met[j]));
        },
    }
}

} // verus!
