//! What follows from the order in which records are written.

use std::sync::Arc;
use vstd::prelude::*;
use crate::key_encoding::KeyEncoding;
use crate::shared::{told_address, told_same};
use crate::swizzled_ptr::SwizzledPtr;
use crate::value::DictionaryValue;
use super::graph_policy::{
    edges_to, has_address, indexed_entry, shared, shared_nodes, ArborescentProduction, DagAware,
    GraphEdge, GraphPolicy,
};
use super::node::{Child, OverlayNode};
use super::serialize_build::OverlaySerializationBuild;
use super::serialize_chain::{chain_node, continues, link};
use super::serialize_emission::{
    chunk_of, emits, ends, kids_emit, listing, met_done, needs_record, node_emits, node_record,
    passes, point, slot_met, told_by, Told,
};
use super::serialize_ledger::slots_of;
use super::serialize_model::{chunk_record, RecordView};
use super::serialize_sink::{OverlayCompressedSerialize, RecordArena};
use super::serialize_trace::{Log, Trace};

verus! {

/// Nothing was told to be shared: no node is a boundary or complete already.
pub open spec fn shares_nothing<K: KeyEncoding, V>(told: Told<K, V>) -> bool {
    &&& forall|n: Arc<OverlayNode<K, V>>| !#[trigger] (told.boundary)(n, true)
    &&& forall|n: Arc<OverlayNode<K, V>>, p: SwizzledPtr| !#[trigger] (told.done)(n, p)
}

/// Two sinks were told alike of stamped nodes, and took the same records over.
pub open spec fn told_alike<K: KeyEncoding, V>(one: Told<K, V>, other: Told<K, V>) -> bool {
    &&& one.reuse == other.reuse
    &&& forall|p: SwizzledPtr, path: Seq<K::Unit>|
        one.reuse && #[trigger] (one.taken)(p, path, true) ==> !(other.declined)(p)
    &&& forall|p: SwizzledPtr, path: Seq<K::Unit>|
        one.reuse && #[trigger] (other.taken)(p, path, true) ==> !(one.declined)(p)
}

/// Two sinks place records alike: what was written before decides where the next
/// record lies.
pub open spec fn place_alike<K: KeyEncoding, V>(one: Told<K, V>, other: Told<K, V>) -> bool {
    forall|
        log: Log<K::Unit, V>,
        record: RecordView<K::Unit, V>,
        path: Seq<K::Unit>,
        p: SwizzledPtr,
        q: SwizzledPtr,
    | #[trigger] (one.places)(log, record, path, p) && #[trigger] (other.places)(
        log,
        record,
        path,
        q,
    ) ==> p == q
}

/// A log that another one goes on from.
pub open spec fn begins<U, V>(less: Log<U, V>, more: Log<U, V>) -> bool {
    less.len() <= more.len() && more.take(less.len() as int) == less
}

/// Going on is transitive.
proof fn lemma_begins_trans<U, V>(a: Log<U, V>, b: Log<U, V>, c: Log<U, V>)
    requires
        begins(a, b),
        begins(b, c),
    ensures
        begins(a, c),
{
    assert(c.take(a.len() as int) =~= a) by {
        assert forall|j: int| 0 <= j < a.len() implies c.take(a.len() as int)[j] == a[j] by {
            assert(a[j] == b.take(a.len() as int)[j]);
            assert(b[j] == c.take(b.len() as int)[j]);
        }
    }
}

/// Dealing with a node adds to what was written.
pub proof fn lemma_emits_begins<K: KeyEncoding, V>(
    told: Told<K, V>,
    path: Seq<K::Unit>,
    node: Arc<OverlayNode<K, V>>,
    before: Trace<K::Unit, V>,
    after: Trace<K::Unit, V>,
    ptr: SwizzledPtr,
)
    requires
        emits(told, path, node, before, after, ptr),
    ensures
        begins(before.log, after.log),
    decreases node.steps(), 2nat, 0nat,
{
    reveal_with_fuel(emits, 1);
    reveal_with_fuel(node_emits, 1);
    reveal_with_fuel(kids_emit, 1);
    if ends(told, node) && node_emits(told, path, node, before, after, ptr) {
        lemma_node_begins(told, path, node, before, after, ptr);
    } else if ends(told, node) && after.met.len() > 0 && after.before_met() == before && met_done(
        told,
        path,
        node,
        after.met.last(),
    ) && ptr == after.met.last().ptr {
        assert(after.log.take(before.log.len() as int) =~= before.log);
    } else {
        let (live, units, end, middle, below) = choose|
            live: Seq<Arc<OverlayNode<K, V>>>,
            units: Seq<K::Unit>,
            end: Arc<OverlayNode<K, V>>,
            middle: Trace<K::Unit, V>,
            below: SwizzledPtr,
        | {
            &&& #[trigger] chunk_of(told, node, live, units, end)
            &&& end.steps() < node.steps()
            &&& #[trigger] point(middle, below)
            &&& emits(told, path + units, end, before, middle, below)
            &&& (told.places)(middle.log, chunk_record(units, below), path, ptr)
            &&& after == middle.with_record(ptr, chunk_record::<K::Unit, V>(units, below), path)
        };
        lemma_emits_begins(told, path + units, end, before, middle, below);
        assert(after.log.take(middle.log.len() as int) =~= middle.log);
        lemma_begins_trans(before.log, middle.log, after.log);
    }
}

/// Writing a node adds to what was written, and its own record is the last.
proof fn lemma_node_begins<K: KeyEncoding, V>(
    told: Told<K, V>,
    path: Seq<K::Unit>,
    node: Arc<OverlayNode<K, V>>,
    before: Trace<K::Unit, V>,
    after: Trace<K::Unit, V>,
    ptr: SwizzledPtr,
)
    requires
        node_emits(told, path, node, before, after, ptr),
    ensures
        begins(before.log, after.log),
        after.log.len() > before.log.len(),
        after.log.last().0 == ptr,
    decreases node.steps(), 1nat, 0nat,
{
    reveal_with_fuel(emits, 1);
    reveal_with_fuel(node_emits, 1);
    reveal_with_fuel(kids_emit, 1);
    let (slots, middle, kids) = choose|
        slots: Seq<(K::Unit, Child<K, V>)>,
        middle: Trace<K::Unit, V>,
        kids: Seq<(K::Unit, SwizzledPtr)>,
    | {
        &&& slots_of(node.children@, slots)
        &&& #[trigger] listing(slots, middle, kids)
        &&& kids_emit(told, path, node.steps(), slots, slots.len(), before, middle, kids)
        &&& (told.places)(middle.log, node_record(*node, kids), path, ptr)
        &&& after == middle.with_record(ptr, node_record(*node, kids), path)
        &&& (told.noted)(node, ptr)
    };
    let content = *node;
    lemma_kids_begins(told, path, content.steps(), slots, slots.len(), before, middle, kids);
    assert(after.log.take(middle.log.len() as int) =~= middle.log);
    lemma_begins_trans(before.log, middle.log, after.log);
}

/// Dealing with children adds to what was written.
pub proof fn lemma_kids_begins<K: KeyEncoding, V>(
    told: Told<K, V>,
    path: Seq<K::Unit>,
    bound: nat,
    slots: Seq<(K::Unit, Child<K, V>)>,
    n: nat,
    before: Trace<K::Unit, V>,
    after: Trace<K::Unit, V>,
    kids: Seq<(K::Unit, SwizzledPtr)>,
)
    requires
        kids_emit(told, path, bound, slots, n, before, after, kids),
    ensures
        begins(before.log, after.log),
    decreases bound, 0nat, n,
{
    reveal_with_fuel(emits, 1);
    reveal_with_fuel(node_emits, 1);
    reveal_with_fuel(kids_emit, 1);
    if n > 0 && n <= slots.len() {
        let (unit, child) = slots[n - 1];
        let m = (n - 1) as nat;
        let rest = kids.drop_last();
        let ptr = kids.last().1;
        if after.met.len() > 0 && slot_met(
            told,
            path.push(unit),
            child,
            after.met.drop_last(),
            after.met.last(),
        ) && ptr == after.met.last().ptr && kids_emit(
            told,
            path,
            bound,
            slots,
            m,
            before,
            after.before_met(),
            rest,
        ) {
            lemma_kids_begins(told, path, bound, slots, m, before, after.before_met(), rest);
        } else {
            let node = child->InMem_0;
            let middle = choose|middle: Trace<K::Unit, V>|
                #[trigger] point(middle, ptr) && node.steps() < bound && needs_record(told, node)
                    && emits(told, path.push(unit), node, middle, after, ptr) && kids_emit(
                    told,
                    path,
                    bound,
                    slots,
                    m,
                    before,
                    middle,
                    rest,
                );
            lemma_emits_begins(told, path.push(unit), node, middle, after, ptr);
            lemma_kids_begins(told, path, bound, slots, m, before, middle, rest);
            lemma_begins_trans(before.log, middle.log, after.log);
        }
    } else {
        assert(after.log.take(before.log.len() as int) =~= before.log);
    }
}

/// Two chunks from one node hold the same units and end at the same node.
proof fn lemma_same_chunk<K: KeyEncoding, V>(
    one: Told<K, V>,
    other: Told<K, V>,
    node: Arc<OverlayNode<K, V>>,
    live: Seq<Arc<OverlayNode<K, V>>>,
    units: Seq<K::Unit>,
    end: Arc<OverlayNode<K, V>>,
    live2: Seq<Arc<OverlayNode<K, V>>>,
    units2: Seq<K::Unit>,
    end2: Arc<OverlayNode<K, V>>,
)
    requires
        shares_nothing(one),
        shares_nothing(other),
        one.reuse == other.reuse,
        chunk_of(one, node, live, units, end),
        chunk_of(other, node, live2, units2, end2),
        units.len() <= units2.len(),
    ensures
        units == units2,
        end == end2,
{
    lemma_same_links(one, other, node, live, units, end, live2, units2, end2, units.len());
    assert(chain_node(live, end, units.len() as int) == end);
    if units.len() < units2.len() {
        assert(passes(other, live2[units.len() as int]));
        assert(ends(one, end));
        assert(false);
    }
    assert(units =~= units2);
}

/// Two chunks from one node go on alike.
proof fn lemma_same_links<K: KeyEncoding, V>(
    one: Told<K, V>,
    other: Told<K, V>,
    node: Arc<OverlayNode<K, V>>,
    live: Seq<Arc<OverlayNode<K, V>>>,
    units: Seq<K::Unit>,
    end: Arc<OverlayNode<K, V>>,
    live2: Seq<Arc<OverlayNode<K, V>>>,
    units2: Seq<K::Unit>,
    end2: Arc<OverlayNode<K, V>>,
    n: nat,
)
    requires
        chunk_of(one, node, live, units, end),
        chunk_of(other, node, live2, units2, end2),
        n <= units.len() <= units2.len(),
    ensures
        forall|j: int| 0 <= j < n ==> #[trigger] units[j] == units2[j],
        chain_node(live, end, n as int) == chain_node(live2, end2, n as int),
    decreases n,
{
    if n > 0 {
        let m = (n - 1) as nat;
        lemma_same_links(one, other, node, live, units, end, live2, units2, end2, m);
        assert(live[m as int] == live2[m as int]);
        assert(link(*live[m as int], units[m as int], chain_node(live, end, n as int)));
        assert(link(*live2[m as int], units2[m as int], chain_node(live2, end2, n as int)));
    }
}

/// Two sequences of slots in order that hold the same slots are the same.
proof fn lemma_same_order<K: KeyEncoding, V>(
    one: Seq<(K::Unit, Child<K, V>)>,
    other: Seq<(K::Unit, Child<K, V>)>,
)
    requires
        forall|i: int| 0 <= i < one.len() ==> other.contains(#[trigger] one[i]),
        forall|i: int| 0 <= i < other.len() ==> one.contains(#[trigger] other[i]),
        forall|i: int, j: int|
            0 <= i < j < one.len() ==> K::rank((#[trigger] one[i]).0) < K::rank(
                (#[trigger] one[j]).0,
            ),
        forall|i: int, j: int|
            0 <= i < j < other.len() ==> K::rank((#[trigger] other[i]).0) < K::rank(
                (#[trigger] other[j]).0,
            ),
    ensures
        one == other,
    decreases one.len(),
{
    if one.len() == 0 {
        if other.len() > 0 {
            assert(one.contains(other[0]));
        }
        assert(one =~= other);
    } else {
        let a = one.len() - 1;
        assert(other.contains(one[a]));
        let j = choose|j: int| 0 <= j < other.len() && other[j] == one[a];
        let b = other.len() - 1;
        assert(one.contains(other[b]));
        let i = choose|i: int| 0 <= i < one.len() && one[i] == other[b];
        assert(j == b && i == a);
        let first = one.drop_last();
        let second = other.drop_last();
        assert forall|k: int| 0 <= k < first.len() implies second.contains(#[trigger] first[k]) by {
            assert(other.contains(one[k]));
            let l = choose|l: int| 0 <= l < other.len() && other[l] == one[k];
            assert(l != b);
            assert(second[l] == first[k]);
        }
        assert forall|k: int| 0 <= k < second.len() implies first.contains(
            #[trigger] second[k],
        ) by {
            assert(one.contains(other[k]));
            let l = choose|l: int| 0 <= l < one.len() && one[l] == other[k];
            assert(l != a);
            assert(first[l] == second[k]);
        }
        lemma_same_order(first, second);
        assert(one =~= first.push(one[a]));
        assert(other =~= second.push(other[b]));
    }
}

/// A node has one sequence of child slots.
proof fn lemma_same_slots<K: KeyEncoding, V>(
    children: Seq<(K::Unit, Child<K, V>)>,
    one: Seq<(K::Unit, Child<K, V>)>,
    other: Seq<(K::Unit, Child<K, V>)>,
)
    requires
        slots_of(children, one),
        slots_of(children, other),
    ensures
        one == other,
{
    assert forall|i: int| 0 <= i < one.len() implies other.contains(#[trigger] one[i]) by {
        let j = choose|j: int| 0 <= j < children.len() && children[j] == one[i];
        assert(other.contains(children[j]));
    }
    assert forall|i: int| 0 <= i < other.len() implies one.contains(#[trigger] other[i]) by {
        let j = choose|j: int| 0 <= j < children.len() && children[j] == other[i];
        assert(one.contains(children[j]));
    }
    lemma_same_order(one, other);
}

/// Two sinks that place records alike get the same records of a child.
proof fn lemma_same_emission<K: KeyEncoding, V>(
    one: Told<K, V>,
    other: Told<K, V>,
    path: Seq<K::Unit>,
    node: Arc<OverlayNode<K, V>>,
    before: Trace<K::Unit, V>,
    before2: Trace<K::Unit, V>,
    first: Trace<K::Unit, V>,
    second: Trace<K::Unit, V>,
    p: SwizzledPtr,
    q: SwizzledPtr,
)
    requires
        shares_nothing(one),
        shares_nothing(other),
        told_alike(one, other),
        place_alike(one, other),
        before.log == before2.log,
        emits(one, path, node, before, first, p),
        emits(other, path, node, before2, second, q),
    ensures
        first.log == second.log,
        p == q,
    decreases node.steps(), 2nat, 0nat,
{
    reveal_with_fuel(emits, 1);
    reveal_with_fuel(node_emits, 1);
    reveal_with_fuel(kids_emit, 1);
    assert(!(one.done)(node, p) && !(other.done)(node, q));
    let content = *node;
    if !continues(content, one.reuse) {
        assert forall|
            told: Told<K, V>,
            live: Seq<Arc<OverlayNode<K, V>>>,
            units: Seq<K::Unit>,
            end: Arc<OverlayNode<K, V>>,
        | told.reuse == one.reuse implies !#[trigger] chunk_of(told, node, live, units, end) by {
            if chunk_of(told, node, live, units, end) {
                assert(passes(told, live[0]));
            }
        }
        policies_write_the_same_records(
            one,
            other,
            path,
            node,
            before,
            before2,
            first,
            second,
            p,
            q,
        );
    } else {
        assert(!ends(one, node) && !ends(other, node));
        let (live, units, end, middle, below) = choose|
            live: Seq<Arc<OverlayNode<K, V>>>,
            units: Seq<K::Unit>,
            end: Arc<OverlayNode<K, V>>,
            middle: Trace<K::Unit, V>,
            below: SwizzledPtr,
        | {
            &&& #[trigger] chunk_of(one, node, live, units, end)
            &&& end.steps() < node.steps()
            &&& #[trigger] point(middle, below)
            &&& emits(one, path + units, end, before, middle, below)
            &&& (one.places)(middle.log, chunk_record(units, below), path, p)
            &&& first == middle.with_record(p, chunk_record::<K::Unit, V>(units, below), path)
        };
        let (live2, units2, end2, middle2, below2) = choose|
            live: Seq<Arc<OverlayNode<K, V>>>,
            units: Seq<K::Unit>,
            end: Arc<OverlayNode<K, V>>,
            middle: Trace<K::Unit, V>,
            below: SwizzledPtr,
        | {
            &&& #[trigger] chunk_of(other, node, live, units, end)
            &&& end.steps() < node.steps()
            &&& #[trigger] point(middle, below)
            &&& emits(other, path + units, end, before2, middle, below)
            &&& (other.places)(middle.log, chunk_record(units, below), path, q)
            &&& second == middle.with_record(q, chunk_record::<K::Unit, V>(units, below), path)
        };
        if units.len() <= units2.len() {
            lemma_same_chunk(one, other, node, live, units, end, live2, units2, end2);
        } else {
            lemma_same_chunk(other, one, node, live2, units2, end2, live, units, end);
        }
        assert(first.log.take(middle.log.len() as int) =~= middle.log);
        assert(second.log.take(middle2.log.len() as int) =~= middle2.log);
        lemma_same_emission(
            one,
            other,
            path + units,
            end,
            before,
            before2,
            middle,
            middle2,
            below,
            below2,
        );
        lemma_emits_begins(one, path + units, end, before, middle, below);
    }
}

/// Two sinks that place records alike get the same records of children.
proof fn lemma_same_kids<K: KeyEncoding, V>(
    one: Told<K, V>,
    other: Told<K, V>,
    path: Seq<K::Unit>,
    bound: nat,
    slots: Seq<(K::Unit, Child<K, V>)>,
    n: nat,
    before: Trace<K::Unit, V>,
    before2: Trace<K::Unit, V>,
    first: Trace<K::Unit, V>,
    second: Trace<K::Unit, V>,
    kids: Seq<(K::Unit, SwizzledPtr)>,
    kids2: Seq<(K::Unit, SwizzledPtr)>,
)
    requires
        shares_nothing(one),
        shares_nothing(other),
        told_alike(one, other),
        place_alike(one, other),
        before.log == before2.log,
        kids_emit(one, path, bound, slots, n, before, first, kids),
        kids_emit(other, path, bound, slots, n, before2, second, kids2),
    ensures
        first.log == second.log,
        kids == kids2,
    decreases bound, 0nat, n,
{
    reveal_with_fuel(emits, 1);
    reveal_with_fuel(node_emits, 1);
    reveal_with_fuel(kids_emit, 1);
    if n > 0 && n <= slots.len() {
        let (unit, child) = slots[n - 1];
        let m = (n - 1) as nat;
        let rest = kids.drop_last();
        let rest2 = kids2.drop_last();
        let p = kids.last().1;
        let q = kids2.last().1;
        let a = first.met.len() > 0 && slot_met(
            one,
            path.push(unit),
            child,
            first.met.drop_last(),
            first.met.last(),
        ) && p == first.met.last().ptr && kids_emit(
            one,
            path,
            bound,
            slots,
            m,
            before,
            first.before_met(),
            rest,
        );
        let b = second.met.len() > 0 && slot_met(
            other,
            path.push(unit),
            child,
            second.met.drop_last(),
            second.met.last(),
        ) && q == second.met.last().ptr && kids_emit(
            other,
            path,
            bound,
            slots,
            m,
            before2,
            second.before_met(),
            rest2,
        );
        if a || b {
            if let Child::InMem(node) = child {
                let stamp = SwizzledPtr { raw: node.stamp };
                assert(!(one.done)(node, p) && !(other.done)(node, q));
                assert(a ==> p == stamp && (one.taken)(stamp, path.push(unit), true));
                assert(b ==> q == stamp && (other.taken)(stamp, path.push(unit), true));
                assert(!a ==> needs_record(one, node) && (one.declined)(stamp));
                assert(!b ==> needs_record(other, node) && (other.declined)(stamp));
            }
            assert(a && b);
            lemma_same_kids(
                one,
                other,
                path,
                bound,
                slots,
                m,
                before,
                before2,
                first.before_met(),
                second.before_met(),
                rest,
                rest2,
            );
        } else {
            let node = child->InMem_0;
            let middle = choose|middle: Trace<K::Unit, V>|
                #[trigger] point(middle, p) && node.steps() < bound && needs_record(one, node)
                    && emits(one, path.push(unit), node, middle, first, p) && kids_emit(
                    one,
                    path,
                    bound,
                    slots,
                    m,
                    before,
                    middle,
                    rest,
                );
            let middle2 = choose|middle: Trace<K::Unit, V>|
                #[trigger] point(middle, q) && node.steps() < bound && needs_record(other, node)
                    && emits(other, path.push(unit), node, middle, second, q) && kids_emit(
                    other,
                    path,
                    bound,
                    slots,
                    m,
                    before2,
                    middle,
                    rest2,
                );
            lemma_emits_begins(one, path.push(unit), node, middle, first, p);
            lemma_emits_begins(other, path.push(unit), node, middle2, second, q);
            lemma_same_kids(
                one,
                other,
                path,
                bound,
                slots,
                m,
                before,
                before2,
                middle,
                middle2,
                rest,
                rest2,
            );
            lemma_kids_begins(one, path, bound, slots, m, before, middle, rest);
            lemma_same_emission(
                one,
                other,
                path.push(unit),
                node,
                middle,
                middle2,
                first,
                second,
                p,
                q,
            );
        }
        assert(kids =~= rest.push(kids.last()));
        assert(kids2 =~= rest2.push(kids2.last()));
    } else {
        assert(kids =~= kids2);
    }
}

/// Where no node is shared, every policy writes the same records: two serializations
/// of a root that start from the same records, into sinks that take the same records
/// over and place new ones alike, write the same records in the same order, and the
/// record of the root is the last.
pub proof fn policies_write_the_same_records<K: KeyEncoding, V>(
    one: Told<K, V>,
    other: Told<K, V>,
    path: Seq<K::Unit>,
    root: Arc<OverlayNode<K, V>>,
    before: Trace<K::Unit, V>,
    before2: Trace<K::Unit, V>,
    first: Trace<K::Unit, V>,
    second: Trace<K::Unit, V>,
    p: SwizzledPtr,
    q: SwizzledPtr,
)
    requires
        shares_nothing(one),
        shares_nothing(other),
        told_alike(one, other),
        place_alike(one, other),
        before.log == before2.log,
        node_emits(one, path, root, before, first, p),
        node_emits(other, path, root, before2, second, q),
    ensures
        first.log == second.log,
        p == q,
        first.log.last().0 == p,
    decreases root.steps(), 1nat, 0nat,
{
    lemma_node_begins(one, path, root, before, first, p);
    reveal_with_fuel(emits, 1);
    reveal_with_fuel(node_emits, 1);
    reveal_with_fuel(kids_emit, 1);
    let (slots, middle, kids) = choose|
        slots: Seq<(K::Unit, Child<K, V>)>,
        middle: Trace<K::Unit, V>,
        kids: Seq<(K::Unit, SwizzledPtr)>,
    | {
        &&& slots_of(root.children@, slots)
        &&& #[trigger] listing(slots, middle, kids)
        &&& kids_emit(one, path, root.steps(), slots, slots.len(), before, middle, kids)
        &&& (one.places)(middle.log, node_record(*root, kids), path, p)
        &&& first == middle.with_record(p, node_record(*root, kids), path)
        &&& (one.noted)(root, p)
    };
    let (slots2, middle2, kids2) = choose|
        slots: Seq<(K::Unit, Child<K, V>)>,
        middle: Trace<K::Unit, V>,
        kids: Seq<(K::Unit, SwizzledPtr)>,
    | {
        &&& slots_of(root.children@, slots)
        &&& #[trigger] listing(slots, middle, kids)
        &&& kids_emit(other, path, root.steps(), slots, slots.len(), before2, middle, kids)
        &&& (other.places)(middle.log, node_record(*root, kids), path, q)
        &&& second == middle.with_record(q, node_record(*root, kids), path)
        &&& (other.noted)(root, q)
    };
    let content = *root;
    lemma_same_slots(content.children@, slots, slots2);
    assert(first.log.take(middle.log.len() as int) =~= middle.log);
    assert(second.log.take(middle2.log.len() as int) =~= middle2.log);
    lemma_same_kids(
        one,
        other,
        path,
        content.steps(),
        slots,
        slots.len(),
        before,
        before2,
        middle,
        middle2,
        kids,
        kids2,
    );
    lemma_kids_begins(one, path, content.steps(), slots, slots.len(), before, middle, kids);
}

/// A sink in memory places each record by the number of those before it.
pub proof fn record_arenas_place_alike<
    K: KeyEncoding,
    V: DictionaryValue,
    P: GraphPolicy<K, V>,
    Q: GraphPolicy<K, V>,
>(one: OverlaySerializationBuild<K, V, P>, other: OverlaySerializationBuild<K, V, Q>)
    ensures
        place_alike(
            told_by::<K, V, RecordArena<K, V>, P>(one),
            told_by::<K, V, RecordArena<K, V>, Q>(other),
        ),
{
}

/// The policy for trees takes no node to be shared.
pub proof fn trees_share_nothing<
    K: KeyEncoding,
    V: DictionaryValue,
    S: OverlayCompressedSerialize<K, V>,
>(build: OverlaySerializationBuild<K, V, ArborescentProduction>)
    ensures
        shares_nothing(told_by::<K, V, S, ArborescentProduction>(build)),
{
}

/// The policy for shared nodes takes none to be shared when it remembers none.
pub proof fn nothing_remembered_is_nothing_shared<
    K: KeyEncoding,
    V: DictionaryValue,
    S: OverlayCompressedSerialize<K, V>,
>(build: OverlaySerializationBuild<K, V, DagAware<K, V>>)
    requires
        build.graph.entries@.len() == 0,
    ensures
        shares_nothing(told_by::<K, V, S, DagAware<K, V>>(build)),
{
}

/// The policy for shared nodes remembers none where every node of the graph that it
/// was told of has at most one edge to it.
pub proof fn unshared_nodes_are_not_remembered<K: KeyEncoding, V: DictionaryValue>(
    graph: DagAware<K, V>,
    nodes: Seq<Arc<OverlayNode<K, V>>>,
    edges: Seq<GraphEdge>,
)
    requires
        graph.nodes() == shared_nodes(nodes, edges),
        forall|i: int| 0 <= i < nodes.len() ==> #[trigger] edges_to(edges, i) <= 1,
    ensures
        graph.entries@.len() == 0,
{
    lemma_none_shared(nodes, edges, nodes.len());
    assert(graph.nodes().len() == graph.entries@.len());
}

/// None of the first nodes is shared.
proof fn lemma_none_shared<K: KeyEncoding, V>(
    nodes: Seq<Arc<OverlayNode<K, V>>>,
    edges: Seq<GraphEdge>,
    n: nat,
)
    requires
        n <= nodes.len(),
        forall|i: int| 0 <= i < nodes.len() ==> #[trigger] edges_to(edges, i) <= 1,
    ensures
        shared(nodes, edges, n).len() == 0,
    decreases n,
{
    if n > 0 {
        lemma_none_shared(nodes, edges, (n - 1) as nat);
        assert(edges_to(edges, n - 1) <= 1);
    }
}

/// A node that is told to be a boundary is one of those that two edges or more lead to
/// in the graph that the policy was told of.
pub proof fn boundaries_have_two_edges<K: KeyEncoding, V: DictionaryValue>(
    graph: DagAware<K, V>,
    nodes: Seq<Arc<OverlayNode<K, V>>>,
    edges: Seq<GraphEdge>,
    node: Arc<OverlayNode<K, V>>,
)
    requires
        graph.nodes() == shared_nodes(nodes, edges),
        graph.boundary(node, true),
    ensures
        exists|k: int|
            0 <= k < nodes.len() && #[trigger] nodes[k] == node && edges_to(edges, k) > 1,
{
    let position = choose|position: Option<usize>| #[trigger]
        graph.finds(node, position) && true == (position is Some);
    let i = position->0 as int;
    assert(graph.nodes()[i] == node);
    let k = lemma_shared_from(nodes, edges, nodes.len(), i);
    assert(nodes[k] == node);
}

/// What was told of a node is of it alone: it has one address, which no other node
/// has, and a handle to it was never told to be another than the node.
pub open spec fn told_apart<K: KeyEncoding, V>(node: Arc<OverlayNode<K, V>>) -> bool {
    &&& forall|other: Arc<OverlayNode<K, V>>, a: u64| #[trigger]
        told_address(other, a) && told_address(node, a) ==> other == node
    &&& forall|a: u64, b: u64| #[trigger]
        told_address(node, a) && #[trigger] told_address(node, b) ==> a == b
    &&& !told_same(node, node, false)
}

/// Whether a node is a boundary is whether two edges or more lead to it in the graph
/// that the policy was told of, if what was told of the node is of it alone.
pub proof fn boundaries_are_where_two_edges_lead<K: KeyEncoding, V: DictionaryValue>(
    graph: DagAware<K, V>,
    nodes: Seq<Arc<OverlayNode<K, V>>>,
    edges: Seq<GraphEdge>,
    node: Arc<OverlayNode<K, V>>,
    r: bool,
)
    requires
        graph.index_told(),
        graph.nodes() == shared_nodes(nodes, edges),
        told_apart(node),
        graph.boundary(node, r),
    ensures
        r == exists|k: int|
            0 <= k < nodes.len() && #[trigger] nodes[k] == node && edges_to(edges, k) > 1,
{
    if r {
        boundaries_have_two_edges(graph, nodes, edges, node);
    } else if exists|k: int|
        0 <= k < nodes.len() && #[trigger] nodes[k] == node && edges_to(edges, k) > 1 {
        let k = choose|k: int|
            0 <= k < nodes.len() && #[trigger] nodes[k] == node && edges_to(edges, k) > 1;
        let i = lemma_shared_has(nodes, edges, nodes.len(), k);
        assert(graph.nodes()[i] == node);
        assert(has_address(graph.nodes()[i], graph.index@));
        let known = choose|a: u64| #[trigger]
            told_address(node, a) && graph.index@.dom().contains(a);
        let position = choose|position: Option<usize>| #[trigger]
            graph.finds(node, position) && false == (position is Some);
        let address = choose|address: u64| #[trigger]
            told_address(node, address) && indexed_entry(
                graph.nodes(),
                graph.index@,
                address,
                node,
                position,
            );
        assert(address == known);
        let j = graph.index@[address] as int;
        assert(told_address(graph.nodes()[j], address));
        assert(graph.nodes()[j] == node);
    }
}

/// Where a shared node goes.
proof fn lemma_shared_has<K: KeyEncoding, V>(
    nodes: Seq<Arc<OverlayNode<K, V>>>,
    edges: Seq<GraphEdge>,
    n: nat,
    k: int,
) -> (i: int)
    requires
        0 <= k < n <= nodes.len(),
        edges_to(edges, k) > 1,
    ensures
        0 <= i < shared(nodes, edges, n).len(),
        shared(nodes, edges, n)[i].0 == nodes[k],
    decreases n,
{
    let before = shared(nodes, edges, (n - 1) as nat);
    if k == n - 1 {
        before.len() as int
    } else {
        lemma_shared_has(nodes, edges, (n - 1) as nat, k)
    }
}

/// Where a shared node comes from.
proof fn lemma_shared_from<K: KeyEncoding, V>(
    nodes: Seq<Arc<OverlayNode<K, V>>>,
    edges: Seq<GraphEdge>,
    n: nat,
    i: int,
) -> (k: int)
    requires
        n <= nodes.len(),
        0 <= i < shared(nodes, edges, n).len(),
    ensures
        0 <= k < n,
        shared(nodes, edges, n)[i].0 == nodes[k],
        edges_to(edges, k) > 1,
    decreases n,
{
    let before = shared(nodes, edges, (n - 1) as nat);
    if i < before.len() {
        lemma_shared_from(nodes, edges, (n - 1) as nat, i)
    } else {
        n - 1
    }
}

/// A shared node has one record: two writes of nodes that are remembered at one
/// position are of the same record, and a parent that meets such a node again names
/// that record, unless nodes that look the same were told to be in two places.
pub proof fn shared_nodes_have_one_record<
    K: KeyEncoding,
    V: DictionaryValue,
    S: OverlayCompressedSerialize<K, V>,
>(
    build: OverlaySerializationBuild<K, V, DagAware<K, V>>,
    i: usize,
    path: Seq<K::Unit>,
    node: Arc<OverlayNode<K, V>>,
    before: Trace<K::Unit, V>,
    after: Trace<K::Unit, V>,
    ptr: SwizzledPtr,
    other_path: Seq<K::Unit>,
    again: Arc<OverlayNode<K, V>>,
    named: SwizzledPtr,
)
    requires
        !build.graph.doubted(),
        build.graph.finds(node, Some(i)),
        build.graph.finds(again, Some(i)),
        node_emits(told_by::<K, V, S, DagAware<K, V>>(build), path, node, before, after, ptr),
        build.graph.done(again, named) || exists|
            start: Trace<K::Unit, V>,
            end: Trace<K::Unit, V>,
        |
            node_emits(
                told_by::<K, V, S, DagAware<K, V>>(build),
                other_path,
                again,
                start,
                end,
                named,
            ),
    ensures
        named == ptr,
        after.log.last().0 == ptr,
{
    let told = told_by::<K, V, S, DagAware<K, V>>(build);
    lemma_node_begins(told, path, node, before, after, ptr);
    lemma_noted(told, path, node, before, after, ptr);
    lemma_noted_at(build.graph, node, i, ptr);
    if build.graph.done(again, named) {
        let j = choose|j: usize| #[trigger]
            build.graph.finds(again, Some(j)) && build.graph.completed_at(j as int, named);
        assert(build.graph.finds(again, Some(i)) && build.graph.finds(again, Some(j)));
    } else {
        let (start, end) = choose|start: Trace<K::Unit, V>, end: Trace<K::Unit, V>|
            node_emits(told, other_path, again, start, end, named);
        lemma_noted(told, other_path, again, start, end, named);
        lemma_noted_at(build.graph, again, i, named);
    }
}

/// A node that was noted is complete where it was found.
proof fn lemma_noted_at<K: KeyEncoding, V: DictionaryValue>(
    graph: DagAware<K, V>,
    node: Arc<OverlayNode<K, V>>,
    i: usize,
    ptr: SwizzledPtr,
)
    requires
        !graph.doubted(),
        graph.finds(node, Some(i)),
        graph.noted(node, ptr),
    ensures
        graph.completed_at(i as int, ptr),
{
    let position = choose|position: Option<usize>| #[trigger]
        graph.finds(node, position) && (position matches Some(j) ==> graph.completed_at(
            j as int,
            ptr,
        ));
    assert(graph.finds(node, Some(i)) && graph.finds(node, position));
}

/// A node that was written was noted.
proof fn lemma_noted<K: KeyEncoding, V>(
    told: Told<K, V>,
    path: Seq<K::Unit>,
    node: Arc<OverlayNode<K, V>>,
    before: Trace<K::Unit, V>,
    after: Trace<K::Unit, V>,
    ptr: SwizzledPtr,
)
    requires
        node_emits(told, path, node, before, after, ptr),
    ensures
        (told.noted)(node, ptr),
{
    reveal_with_fuel(node_emits, 1);
}

} // verus!
