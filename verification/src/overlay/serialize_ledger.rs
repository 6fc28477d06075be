//! What a serialization has shown so far: pairs of a record and a resident node
//! such that the record stores the node.

use std::sync::Arc;
use vstd::prelude::*;
use crate::key_encoding::KeyEncoding;
use crate::swizzled_ptr::SwizzledPtr;
use super::atomic_ptr::DeferredDurableStamp;
use super::graph_policy::{reachable, NodeBuildState};
use super::model::{at, kid, lemma_at_concat};
use super::node::{lemma_slot, Branch, Child, OverlayNode, Tree};
use super::serialize_model::{
    backed, chunk_record, closed, kid_ptr, lemma_backed_at, lemma_backed_grows, lemma_backed_here,
    lemma_chain_terms, lemma_chunk_terms, lemma_insert_record, lemma_stored_grows, record_term,
    stored, tree_term, unary_chain, RecordView, Store,
};

verus! {

/// Pairs of a record and a node.
pub type Facts<U, V> = Set<(SwizzledPtr, Tree<U, V>)>;

/// The store holds, and what it holds of `root` is what the facts say.
#[verifier::opaque]
pub open spec fn ledger<U, V>(
    store: Store<U, V>,
    root: Tree<U, V>,
    facts: Facts<U, V>,
) -> bool {
    &&& closed(store)
    &&& backed(store, root)
    &&& forall|ptr: SwizzledPtr, tree: Tree<U, V>| #[trigger]
        facts.contains((ptr, tree)) ==> store.dom().contains(ptr) && stored(store, ptr, tree)
            && reachable(root, tree)
}

/// An empty ledger.
pub proof fn lemma_ledger_empty<U, V>(store: Store<U, V>, root: Tree<U, V>)
    requires
        closed(store),
        backed(store, root),
    ensures
        ledger(store, root, Set::empty()),
{
    reveal(ledger);
}

/// What a fact says.
pub proof fn lemma_ledger_fact<U, V>(
    store: Store<U, V>,
    root: Tree<U, V>,
    facts: Facts<U, V>,
    ptr: SwizzledPtr,
    tree: Tree<U, V>,
)
    requires
        ledger(store, root, facts),
        facts.contains((ptr, tree)),
    ensures
        store.dom().contains(ptr),
        stored(store, ptr, tree),
        reachable(root, tree),
{
    reveal(ledger);
}

/// A reachable node is backed.
pub proof fn lemma_ledger_backed<U, V>(
    store: Store<U, V>,
    root: Tree<U, V>,
    facts: Facts<U, V>,
    tree: Tree<U, V>,
)
    requires
        ledger(store, root, facts),
        reachable(root, tree),
    ensures
        backed(store, tree),
        closed(store),
{
    reveal(ledger);
    let path = choose|path: Seq<U>| #[trigger] at(root, path) == Some(tree);
    lemma_backed_at(store, root, path, tree);
}

/// A new fact.
pub proof fn lemma_ledger_add<U, V>(
    store: Store<U, V>,
    root: Tree<U, V>,
    facts: Facts<U, V>,
    ptr: SwizzledPtr,
    tree: Tree<U, V>,
)
    requires
        ledger(store, root, facts),
        store.dom().contains(ptr),
        stored(store, ptr, tree),
        reachable(root, tree),
    ensures
        ledger(store, root, facts.insert((ptr, tree))),
{
    reveal(ledger);
}

/// A new record that points into the store.
pub proof fn lemma_ledger_insert<U, V>(
    store: Store<U, V>,
    root: Tree<U, V>,
    facts: Facts<U, V>,
    ptr: SwizzledPtr,
    record: RecordView<U, V>,
)
    requires
        ledger(store, root, facts),
        !store.dom().contains(ptr),
        forall|i: int|
            0 <= i < record.kids.len() ==> store.dom().contains((#[trigger] record.kids[i]).1),
    ensures
        ledger(store.insert(ptr, record), root, facts),
{
    let after = store.insert(ptr, record);
    assert(closed(store) && backed(store, root)) by {
        reveal(ledger);
    }
    lemma_insert_record(store, ptr, record);
    lemma_backed_grows(store, after, root);
    assert forall|p: SwizzledPtr, tree: Tree<U, V>| #[trigger]
        facts.contains((p, tree)) implies after.dom().contains(p) && stored(after, p, tree)
        && reachable(root, tree) by {
        lemma_ledger_fact(store, root, facts, p, tree);
        lemma_ledger_backed(store, root, facts, tree);
        lemma_stored_grows(store, after, p, tree);
    }
    reveal(ledger);
}

/// A node below a reachable one is reachable.
pub proof fn lemma_reachable_at<U, V>(
    root: Tree<U, V>,
    node: Tree<U, V>,
    path: Seq<U>,
    target: Tree<U, V>,
)
    requires
        reachable(root, node),
        at(node, path) == Some(target),
    ensures
        reachable(root, target),
{
    let above = choose|above: Seq<U>| #[trigger] at(root, above) == Some(node);
    lemma_at_concat(root, above, path);
    assert(at(root, above + path) == Some(target));
}

/// Every finished node is a fact.
#[verifier::opaque]
pub open spec fn memo_sound<K: KeyEncoding, V>(
    memo: Seq<(Arc<OverlayNode<K, V>>, NodeBuildState)>,
    facts: Facts<K::Unit, V>,
) -> bool {
    forall|i: int|
        0 <= i < memo.len() ==> match (#[trigger] memo[i]).1 {
            NodeBuildState::Complete(subtree) => facts.contains((subtree.disk_ptr, memo[i].0@)),
            _ => true,
        }
}

/// Every stamp is a fact.
#[verifier::opaque]
pub open spec fn stamps_sound<K: KeyEncoding, V>(
    stamps: Seq<DeferredDurableStamp<K, V>>,
    facts: Facts<K::Unit, V>,
) -> bool {
    forall|i: int|
        0 <= i < stamps.len() ==> facts.contains(
            (SwizzledPtr { raw: (#[trigger] stamps[i]).raw }, stamps[i].node@),
        )
}

/// One more fact.
pub proof fn lemma_sound_more<K: KeyEncoding, V>(
    memo: Seq<(Arc<OverlayNode<K, V>>, NodeBuildState)>,
    stamps: Seq<DeferredDurableStamp<K, V>>,
    facts: Facts<K::Unit, V>,
    more: Facts<K::Unit, V>,
)
    requires
        facts.subset_of(more),
        memo_sound(memo, facts),
        stamps_sound(stamps, facts),
    ensures
        memo_sound(memo, more),
        stamps_sound(stamps, more),
{
    reveal(memo_sound);
    reveal(stamps_sound);
    assert forall|i: int| 0 <= i < memo.len() implies match (#[trigger] memo[i]).1 {
        NodeBuildState::Complete(subtree) => more.contains((subtree.disk_ptr, memo[i].0@)),
        _ => true,
    } by {
        match memo[i].1 {
            NodeBuildState::Complete(subtree) => {
                assert(facts.contains((subtree.disk_ptr, memo[i].0@)));
            },
            _ => {},
        }
    }
    assert forall|i: int| 0 <= i < stamps.len() implies more.contains(
        (SwizzledPtr { raw: (#[trigger] stamps[i]).raw }, stamps[i].node@),
    ) by {
        assert(facts.contains((SwizzledPtr { raw: stamps[i].raw }, stamps[i].node@)));
    }
}

/// A finished node joins the memo.
pub proof fn lemma_memo_complete<K: KeyEncoding, V>(
    before: Seq<(Arc<OverlayNode<K, V>>, NodeBuildState)>,
    after: Seq<(Arc<OverlayNode<K, V>>, NodeBuildState)>,
    facts: Facts<K::Unit, V>,
    node: Arc<OverlayNode<K, V>>,
    ptr: SwizzledPtr,
)
    requires
        memo_sound(before, facts),
        facts.contains((ptr, node@)),
        after.len() == before.len(),
        forall|i: int|
            0 <= i < before.len() ==> (#[trigger] after[i]).0 == before[i].0 && (after[i].1
                == before[i].1 || match after[i].1 {
                NodeBuildState::Complete(subtree) => after[i].0 == node && subtree.disk_ptr == ptr,
                _ => true,
            }),
    ensures
        memo_sound(after, facts),
{
    reveal(memo_sound);
    assert forall|i: int| 0 <= i < after.len() implies match (#[trigger] after[i]).1 {
        NodeBuildState::Complete(subtree) => facts.contains((subtree.disk_ptr, after[i].0@)),
        _ => true,
    } by {
        assert(after[i].0 == before[i].0);
    }
}

/// An activated node leaves the memo sound.
pub proof fn lemma_memo_active<K: KeyEncoding, V>(
    before: Seq<(Arc<OverlayNode<K, V>>, NodeBuildState)>,
    after: Seq<(Arc<OverlayNode<K, V>>, NodeBuildState)>,
    facts: Facts<K::Unit, V>,
)
    requires
        memo_sound(before, facts),
        after.len() == before.len(),
        forall|i: int|
            0 <= i < before.len() ==> (#[trigger] after[i]).0 == before[i].0 && (after[i].1
                == before[i].1 || after[i].1 == NodeBuildState::Active),
    ensures
        memo_sound(after, facts),
{
    reveal(memo_sound);
    assert forall|i: int| 0 <= i < after.len() implies match (#[trigger] after[i]).1 {
        NodeBuildState::Complete(subtree) => facts.contains((subtree.disk_ptr, after[i].0@)),
        _ => true,
    } by {
        assert(after[i].0 == before[i].0);
    }
}

/// One more stamp.
pub proof fn lemma_stamps_push<K: KeyEncoding, V>(
    stamps: Seq<DeferredDurableStamp<K, V>>,
    facts: Facts<K::Unit, V>,
    stamp: DeferredDurableStamp<K, V>,
)
    requires
        stamps_sound(stamps, facts),
        facts.contains((SwizzledPtr { raw: stamp.raw }, stamp.node@)),
    ensures
        stamps_sound(stamps.push(stamp), facts),
{
    reveal(stamps_sound);
    let longer = stamps.push(stamp);
    assert forall|i: int| 0 <= i < longer.len() implies facts.contains(
        (SwizzledPtr { raw: (#[trigger] longer[i]).raw }, longer[i].node@),
    ) by {
        if i < stamps.len() {
            assert(longer[i] == stamps[i]);
        }
    }
}

/// Records of the children of a node, against the node.
pub open spec fn kids_match<U, V>(
    store: Store<U, V>,
    tree: Tree<U, V>,
    kids: Seq<(U, SwizzledPtr)>,
) -> bool {
    forall|unit: U|
        match #[trigger] kid(tree, unit) {
            Some(Branch::InMem(child)) => (kid_ptr(kids, unit) matches Some(ptr) && stored(
                store,
                ptr,
                child,
            )),
            Some(Branch::OnDisk(ptr)) => kid_ptr(kids, unit) == (if ptr.raw != 0 {
                Some(ptr)
            } else {
                None
            }),
            None => kid_ptr(kids, unit) is None,
        }
}

/// The record of a node whose children are stored stores the node.
pub proof fn lemma_node_stored<U, V>(
    store: Store<U, V>,
    ptr: SwizzledPtr,
    tree: Tree<U, V>,
    kids: Seq<(U, SwizzledPtr)>,
)
    requires
        store.dom().contains(ptr),
        store[ptr] == (RecordView {
            prefix: Seq::empty(),
            is_final: tree.is_final,
            value: tree.value,
            kids,
        }),
        kids_match(store, tree, kids),
    ensures
        stored(store, ptr, tree),
{
    reveal(stored);
    assert forall|key: Seq<U>| #[trigger] record_term(store, ptr, key) == tree_term(
        store,
        tree,
        key,
    ) by {
        assert(Seq::<U>::empty() =~= key.take(0));
        assert(key.skip(0) =~= key);
        if key.len() > 0 {
            match kid(tree, key[0]) {
                Some(Branch::InMem(child)) => {
                    let p = kid_ptr(kids, key[0])->0;
                    assert(record_term(store, p, key.drop_first()) == tree_term(
                        store,
                        child,
                        key.drop_first(),
                    ));
                },
                _ => {},
            }
        }
    }
}

/// The record of a chunk whose end is stored stores its start.
pub proof fn lemma_chunk_stored<U, V>(
    store: Store<U, V>,
    ptr: SwizzledPtr,
    start: Tree<U, V>,
    units: Seq<U>,
    end: Tree<U, V>,
    child: SwizzledPtr,
)
    requires
        units.len() > 0,
        store.dom().contains(ptr),
        store[ptr] == chunk_record::<U, V>(units, child),
        unary_chain(start, units, end),
        stored(store, child, end),
    ensures
        stored(store, ptr, start),
{
    reveal(stored);
    assert forall|key: Seq<U>| #[trigger] record_term(store, ptr, key) == tree_term(
        store,
        start,
        key,
    ) by {
        lemma_chunk_terms(store, ptr, units, child, key);
        lemma_chain_terms(store, start, units, end, key);
        let rest = key.skip(units.len() as int);
        assert(record_term(store, child, rest) == tree_term(store, end, rest));
    }
}

/// A child that leads nowhere.
pub open spec fn null_child<K: KeyEncoding, V>(child: Child<K, V>) -> bool {
    child matches Child::OnDisk(ptr) && ptr.raw == 0
}

/// The child slots that lead somewhere, in edge order.
pub open spec fn slots_of<K: KeyEncoding, V>(
    children: Seq<(K::Unit, Child<K, V>)>,
    slots: Seq<(K::Unit, Child<K, V>)>,
) -> bool {
    &&& forall|i: int|
        0 <= i < slots.len() ==> children.contains(#[trigger] slots[i]) && !null_child(slots[i].1)
    &&& forall|j: int|
        0 <= j < children.len() && !null_child((#[trigger] children[j]).1) ==> slots.contains(
            children[j],
        )
    &&& forall|i: int, j: int|
        0 <= i < j < slots.len() ==> K::rank((#[trigger] slots[i]).0) < K::rank(
            (#[trigger] slots[j]).0,
        )
}

/// The record of one child slot.
pub open spec fn slot_resolved<K: KeyEncoding, V>(
    facts: Facts<K::Unit, V>,
    child: Child<K, V>,
    ptr: SwizzledPtr,
) -> bool {
    match child {
        Child::InMem(node) => facts.contains((ptr, node@)),
        Child::OnDisk(durable) => ptr == durable,
    }
}

/// A slot is a child of its node, in the model.
pub proof fn lemma_slot_kid<K: KeyEncoding, V>(
    node: OverlayNode<K, V>,
    slots: Seq<(K::Unit, Child<K, V>)>,
    i: int,
)
    requires
        node.wf(),
        slots_of(node.children@, slots),
        0 <= i < slots.len(),
    ensures
        kid(node@, slots[i].0) == Some(slots[i].1.branch()),
        slots[i].1 matches Child::InMem(child) ==> child.wf(),
{
    let j = choose|j: int| 0 <= j < node.children@.len() && node.children@[j] == slots[i];
    assert(node.children@.contains(slots[i]));
    lemma_slot(node, j);
    assert(node.children@[j].1 == slots[i].1);
}

/// The records of all child slots are those of the children.
pub proof fn lemma_slots_match<K: KeyEncoding, V>(
    store: Store<K::Unit, V>,
    root: Tree<K::Unit, V>,
    facts: Facts<K::Unit, V>,
    node: OverlayNode<K, V>,
    slots: Seq<(K::Unit, Child<K, V>)>,
    kids: Seq<(K::Unit, SwizzledPtr)>,
)
    requires
        ledger(store, root, facts),
        node.wf(),
        reachable(root, node@),
        slots_of(node.children@, slots),
        kids.len() == slots.len(),
        forall|i: int|
            0 <= i < slots.len() ==> (#[trigger] kids[i]).0 == slots[i].0 && slot_resolved(
                facts,
                slots[i].1,
                kids[i].1,
            ),
    ensures
        kids_match(store, node@, kids),
        forall|i: int| 0 <= i < kids.len() ==> store.dom().contains((#[trigger] kids[i]).1),
{
    lemma_ledger_backed(store, root, facts, node@);
    lemma_backed_here(store, node@);
    assert forall|i: int| 0 <= i < kids.len() implies store.dom().contains(
        (#[trigger] kids[i]).1,
    ) by {
        lemma_slot_kid(node, slots, i);
        match slots[i].1 {
            Child::InMem(child) => {
                lemma_ledger_fact(store, root, facts, kids[i].1, child@);
            },
            Child::OnDisk(ptr) => {
                assert(!null_child(slots[i].1));
            },
        }
    }
    assert forall|unit: K::Unit|
        match #[trigger] kid(node@, unit) {
            Some(Branch::InMem(child)) => (kid_ptr(kids, unit) matches Some(ptr) && stored(
                store,
                ptr,
                child,
            )),
            Some(Branch::OnDisk(ptr)) => kid_ptr(kids, unit) == (if ptr.raw != 0 {
                Some(ptr)
            } else {
                None
            }),
            None => kid_ptr(kids, unit) is None,
        } by {
        if exists|i: int| 0 <= i < kids.len() && (#[trigger] kids[i]).0 == unit {
            let i = choose|i: int| 0 <= i < kids.len() && (#[trigger] kids[i]).0 == unit;
            lemma_slot_kid(node, slots, i);
            assert(slots[i].0 == unit);
            match slots[i].1 {
                Child::InMem(child) => {
                    lemma_ledger_fact(store, root, facts, kids[i].1, child@);
                },
                Child::OnDisk(ptr) => {
                    assert(!null_child(slots[i].1));
                },
            }
        } else if kid(node@, unit) is Some {
            let j = choose|j: int|
                0 <= j < node.children@.len() && #[trigger] node.children@[j].0 == unit;
            lemma_slot(node, j);
            if !null_child(node.children@[j].1) {
                assert(slots.contains(node.children@[j]));
                let i = choose|i: int| 0 <= i < slots.len() && slots[i] == node.children@[j];
                assert(kids[i].0 == slots[i].0);
                assert(false);
            }
        }
    }
}

} // verus!
