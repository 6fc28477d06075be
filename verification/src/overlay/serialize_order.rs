//! Children are written before their parents.

use std::sync::Arc;
use vstd::prelude::*;
use crate::key_encoding::KeyEncoding;
use crate::swizzled_ptr::SwizzledPtr;
use super::compressed_serialize::durable_below;
use super::graph_policy::{lemma_reachable_child, reachable};
use super::model::kid;
use super::node::{lemma_slot, Branch, Child, OverlayNode, Tree};
use super::serialize_chain::{chain_node, link};
use super::serialize_emission::{
    chunk_of, emits, ends, kids_emit, listing, met_done, needs_record, node_emits, node_record,
    passes, point, slot_met, Told,
};
use super::serialize_laws::{begins, lemma_emits_begins, lemma_kids_begins};
use super::serialize_ledger::{lemma_slot_kid, slots_of};
use super::serialize_model::{chunk_record, RecordView};
use super::serialize_trace::{Log, Trace};

verus! {

/// A record that is not of this serialization: that of a durable child, one that the
/// sink took over, or one of a node that was complete.
pub open spec fn known<K: KeyEncoding, V>(
    told: Told<K, V>,
    tree: Tree<K::Unit, V>,
    ptr: SwizzledPtr,
) -> bool {
    ||| durable_below(tree, ptr)
    ||| exists|path: Seq<K::Unit>| #[trigger] (told.taken)(ptr, path, true)
    ||| exists|node: Arc<OverlayNode<K, V>>| #[trigger] (told.done)(node, ptr)
}

/// A record was written before the record at an index, or is known otherwise.
pub open spec fn there_at<K: KeyEncoding, V>(
    told: Told<K, V>,
    tree: Tree<K::Unit, V>,
    log: Log<K::Unit, V>,
    r: int,
    ptr: SwizzledPtr,
) -> bool {
    ||| exists|q: int| 0 <= q < r && (#[trigger] log[q]).0 == ptr
    ||| known(told, tree, ptr)
}

/// From an index on, the records that a record names were there before it.
pub open spec fn children_first<K: KeyEncoding, V>(
    told: Told<K, V>,
    tree: Tree<K::Unit, V>,
    from: nat,
    log: Log<K::Unit, V>,
) -> bool {
    forall|r: int, k: int|
        from <= r < log.len() && 0 <= k < log[r].1.kids.len() ==> there_at(
            told,
            tree,
            log,
            r,
            (#[trigger] log[r].1.kids[k]).1,
        )
}

/// What was there stays there.
proof fn lemma_there<K: KeyEncoding, V>(
    told: Told<K, V>,
    tree: Tree<K::Unit, V>,
    less: Log<K::Unit, V>,
    more: Log<K::Unit, V>,
    r: int,
    s: int,
    ptr: SwizzledPtr,
)
    requires
        begins(less, more),
        there_at(told, tree, less, r, ptr),
        r <= s,
        r <= less.len(),
    ensures
        there_at(told, tree, more, s, ptr),
{
    if !known(told, tree, ptr) {
        let q = choose|q: int| 0 <= q < r && (#[trigger] less[q]).0 == ptr;
        assert(less[q] == more.take(less.len() as int)[q]);
        assert(more[q].0 == ptr);
    }
}

/// Two parts of a log together.
proof fn lemma_first_extend<K: KeyEncoding, V>(
    told: Told<K, V>,
    tree: Tree<K::Unit, V>,
    from: nat,
    middle: Log<K::Unit, V>,
    after: Log<K::Unit, V>,
)
    requires
        begins(middle, after),
        children_first(told, tree, from, middle),
        children_first(told, tree, middle.len(), after),
    ensures
        children_first(told, tree, from, after),
{
    assert forall|r: int, k: int|
        from <= r < after.len() && 0 <= k < after[r].1.kids.len() implies there_at(
        told,
        tree,
        after,
        r,
        (#[trigger] after[r].1.kids[k]).1,
    ) by {
        if r < middle.len() {
            assert(middle[r] == after.take(middle.len() as int)[r]);
            assert(there_at(told, tree, middle, r, middle[r].1.kids[k].1));
            lemma_there(told, tree, middle, after, r, r, after[r].1.kids[k].1);
        }
    }
}

/// One more record.
proof fn lemma_first_push<K: KeyEncoding, V>(
    told: Told<K, V>,
    tree: Tree<K::Unit, V>,
    from: nat,
    log: Log<K::Unit, V>,
    entry: (SwizzledPtr, RecordView<K::Unit, V>, Seq<K::Unit>),
)
    requires
        children_first(told, tree, from, log),
        forall|k: int|
            0 <= k < entry.1.kids.len() ==> there_at(
                told,
                tree,
                log,
                log.len() as int,
                (#[trigger] entry.1.kids[k]).1,
            ),
    ensures
        children_first(told, tree, from, log.push(entry)),
{
    let longer = log.push(entry);
    assert(longer.take(log.len() as int) =~= log);
    assert forall|r: int, k: int|
        from <= r < longer.len() && 0 <= k < longer[r].1.kids.len() implies there_at(
        told,
        tree,
        longer,
        r,
        (#[trigger] longer[r].1.kids[k]).1,
    ) by {
        if r < log.len() {
            assert(longer[r] == log[r]);
            assert(there_at(told, tree, log, r, log[r].1.kids[k].1));
            lemma_there(told, tree, log, longer, r, r, log[r].1.kids[k].1);
        } else {
            assert(longer[r] == entry);
            assert(there_at(told, tree, log, r, entry.1.kids[k].1));
            lemma_there(told, tree, log, longer, r, r, entry.1.kids[k].1);
        }
    }
}

/// The nodes of a chunk belong to the root.
proof fn lemma_chunk_reachable<K: KeyEncoding, V>(
    told: Told<K, V>,
    tree: Tree<K::Unit, V>,
    node: Arc<OverlayNode<K, V>>,
    live: Seq<Arc<OverlayNode<K, V>>>,
    units: Seq<K::Unit>,
    end: Arc<OverlayNode<K, V>>,
    n: nat,
)
    requires
        chunk_of(told, node, live, units, end),
        node.wf(),
        reachable(tree, node@),
        n <= live.len(),
    ensures
        chain_node(live, end, n as int).wf(),
        reachable(tree, chain_node(live, end, n as int)@),
    decreases n,
{
    if n > 0 {
        let m = n - 1;
        lemma_chunk_reachable(told, tree, node, live, units, end, m as nat);
        let here = *live[m];
        let next = chain_node(live, end, n as int);
        assert(passes(told, live[m]) && link(here, units[m], next));
        lemma_slot(here, 0);
        assert(here.children@[0].1 == Child::<K, V>::InMem(next));
        assert(kid(here@, units[m]) == Some(Branch::<K::Unit, V>::InMem(next@)));
        lemma_reachable_child(tree, here@, units[m], next@);
    }
}

/// What is written of a child comes in order, and its record is there behind it.
proof fn lemma_emits_first<K: KeyEncoding, V>(
    told: Told<K, V>,
    tree: Tree<K::Unit, V>,
    path: Seq<K::Unit>,
    node: Arc<OverlayNode<K, V>>,
    before: Trace<K::Unit, V>,
    after: Trace<K::Unit, V>,
    ptr: SwizzledPtr,
)
    requires
        node.wf(),
        reachable(tree, node@),
        emits(told, path, node, before, after, ptr),
    ensures
        children_first(told, tree, before.log.len(), after.log),
        there_at(told, tree, after.log, after.log.len() as int, ptr),
    decreases node.steps(), 2nat, 0nat,
{
    reveal_with_fuel(emits, 1);
    reveal_with_fuel(node_emits, 1);
    reveal_with_fuel(kids_emit, 1);
    if ends(told, node) && node_emits(told, path, node, before, after, ptr) {
        children_come_before_parents(told, tree, path, node, before, after, ptr);
        assert(after.log[after.log.len() - 1].0 == ptr);
    } else if ends(told, node) && after.met.len() > 0 && after.before_met() == before && met_done(
        told,
        path,
        node,
        after.met.last(),
    ) && ptr == after.met.last().ptr {
        assert((told.done)(node, ptr));
    } else {
        let (live, units, end, middle, below) = choose|
            live: Seq<Arc<OverlayNode<K, V>>>,
            units: Seq<K::Unit>,
            end: Arc<OverlayNode<K, V>>,
            middle: Trace<K::Unit, V>,
            below: SwizzledPtr,
        | {
            &&& #[trigger] chunk_of(told, node, live, units, end)
            &&& end.steps() < node.steps()
            &&& #[trigger] point(middle, below)
            &&& emits(told, path + units, end, before, middle, below)
            &&& (told.places)(middle.log, chunk_record(units, below), path, ptr)
            &&& after == middle.with_record(ptr, chunk_record::<K::Unit, V>(units, below), path)
        };
        lemma_chunk_reachable(told, tree, node, live, units, end, live.len());
        lemma_emits_first(told, tree, path + units, end, before, middle, below);
        let entry = (ptr, chunk_record::<K::Unit, V>(units, below), path);
        assert forall|k: int| 0 <= k < entry.1.kids.len() implies there_at(
            told,
            tree,
            middle.log,
            middle.log.len() as int,
            (#[trigger] entry.1.kids[k]).1,
        ) by {
            assert(entry.1.kids[k].1 == below);
        }
        lemma_first_push(told, tree, before.log.len(), middle.log, entry);
        assert(after.log[after.log.len() - 1].0 == ptr);
    }
}

/// The records that a record names were there before it: each was written before, or
/// is the record of a durable child, one that the sink took over, or that of a node
/// that was complete. The record of the node itself is the last.
pub proof fn children_come_before_parents<K: KeyEncoding, V>(
    told: Told<K, V>,
    tree: Tree<K::Unit, V>,
    path: Seq<K::Unit>,
    node: Arc<OverlayNode<K, V>>,
    before: Trace<K::Unit, V>,
    after: Trace<K::Unit, V>,
    ptr: SwizzledPtr,
)
    requires
        node.wf(),
        reachable(tree, node@),
        node_emits(told, path, node, before, after, ptr),
    ensures
        children_first(told, tree, before.log.len(), after.log),
        after.log.len() > before.log.len(),
        after.log.last().0 == ptr,
    decreases node.steps(), 1nat, 0nat,
{
    reveal_with_fuel(emits, 1);
    reveal_with_fuel(node_emits, 1);
    reveal_with_fuel(kids_emit, 1);
    let (slots, middle, kids) = choose|
        slots: Seq<(K::Unit, Child<K, V>)>,
        middle: Trace<K::Unit, V>,
        kids: Seq<(K::Unit, SwizzledPtr)>,
    | {
        &&& slots_of(node.children@, slots)
        &&& #[trigger] listing(slots, middle, kids)
        &&& kids_emit(told, path, node.steps(), slots, slots.len(), before, middle, kids)
        &&& (told.places)(middle.log, node_record(*node, kids), path, ptr)
        &&& after == middle.with_record(ptr, node_record(*node, kids), path)
        &&& (told.noted)(node, ptr)
    };
    let content = *node;
    lemma_kids_first(told, tree, path, content, slots, slots.len(), before, middle, kids);
    lemma_kids_begins(told, path, content.steps(), slots, slots.len(), before, middle, kids);
    lemma_first_push(told, tree, before.log.len(), middle.log, after.log.last());
    assert(after.log =~= middle.log.push(after.log.last()));
}

/// What is written of children comes in order, and all of them are there behind it.
proof fn lemma_kids_first<K: KeyEncoding, V>(
    told: Told<K, V>,
    tree: Tree<K::Unit, V>,
    path: Seq<K::Unit>,
    node: OverlayNode<K, V>,
    slots: Seq<(K::Unit, Child<K, V>)>,
    n: nat,
    before: Trace<K::Unit, V>,
    after: Trace<K::Unit, V>,
    kids: Seq<(K::Unit, SwizzledPtr)>,
)
    requires
        node.wf(),
        reachable(tree, node@),
        slots_of(node.children@, slots),
        kids_emit(told, path, node.steps(), slots, n, before, after, kids),
    ensures
        children_first(told, tree, before.log.len(), after.log),
        forall|k: int|
            0 <= k < kids.len() ==> there_at(
                told,
                tree,
                after.log,
                after.log.len() as int,
                (#[trigger] kids[k]).1,
            ),
    decreases node.steps(), 0nat, n,
{
    reveal_with_fuel(emits, 1);
    reveal_with_fuel(node_emits, 1);
    reveal_with_fuel(kids_emit, 1);
    if n > 0 && n <= slots.len() {
        let (unit, child) = slots[n - 1];
        let m = (n - 1) as nat;
        let bound = node.steps();
        let rest = kids.drop_last();
        let ptr = kids.last().1;
        lemma_slot_kid(node, slots, n - 1);
        assert(after.log.take(after.log.len() as int) =~= after.log);
        let middle = if after.met.len() > 0 && slot_met(
            told,
            path.push(unit),
            child,
            after.met.drop_last(),
            after.met.last(),
        ) && ptr == after.met.last().ptr && kids_emit(
            told,
            path,
            bound,
            slots,
            m,
            before,
            after.before_met(),
            rest,
        ) {
            match child {
                Child::OnDisk(durable) => {
                    assert(durable_below(tree, durable)) by {
                        assert(kid(node@, unit) == Some(Branch::<K::Unit, V>::OnDisk(durable)));
                    }
                },
                Child::InMem(below) => {
                    assert((told.taken)(ptr, path.push(unit), true) || (told.done)(below, ptr));
                },
            }
            assert(known(told, tree, ptr));
            after.before_met()
        } else {
            let below = child->InMem_0;
            let middle = choose|middle: Trace<K::Unit, V>|
                #[trigger] point(middle, ptr) && below.steps() < bound && needs_record(told, below)
                    && emits(told, path.push(unit), below, middle, after, ptr) && kids_emit(
                    told,
                    path,
                    bound,
                    slots,
                    m,
                    before,
                    middle,
                    rest,
                );
            lemma_reachable_child(tree, node@, unit, below@);
            lemma_emits_first(told, tree, path.push(unit), below, middle, after, ptr);
            lemma_emits_begins(told, path.push(unit), below, middle, after, ptr);
            middle
        };
        lemma_kids_first(told, tree, path, node, slots, m, before, middle, rest);
        lemma_first_extend(told, tree, before.log.len(), middle.log, after.log);
        assert forall|k: int| 0 <= k < kids.len() implies there_at(
            told,
            tree,
            after.log,
            after.log.len() as int,
            (#[trigger] kids[k]).1,
        ) by {
            if k < rest.len() {
                assert(rest[k] == kids[k]);
                lemma_there(
                    told,
                    tree,
                    middle.log,
                    after.log,
                    middle.log.len() as int,
                    after.log.len() as int,
                    rest[k].1,
                );
            }
        }
    }
}

} // verus!
