//! Tries: a write changes what is found under its key and nothing else, a copied path
//! holds what it was copied around, and a visit meets every node.

use std::sync::Arc;
use vstd::prelude::*;
use crate::error::TrieResult;
use crate::key_encoding::KeyEncoding;
use crate::overlay::cas_walk::{
    build_value_spine, build_value_spine_on, create_spine, find_in_lockfree_trie, find_leaf_iterative, loader_ok,
    path_resident, spine_ancestors, unwind_spine, value_spine_keeps_other_terms,
    value_spine_reads_back, FaultMode,
};
use crate::overlay::model::{
    at, kid, lemma_at_concat, lemma_fresh_spine_leaf, lemma_fresh_spine_others, term, unwound,
};
use crate::overlay::node::{lemma_slot, unit_slot, Branch, Child, OverlayNode, Tree};
use crate::overlay::paths::{
    finals_of, insert_path, inserted_path_is_a_term, inserted_path_keeps_other_terms, preorder,
    preorder_from, visit_paths, PathCensus, PathVisitor,
};
use crate::overlay::OverlayPathSpine;
use crate::swizzled_ptr::SwizzledPtr;
use crate::value::DictionaryValue;

verus! {

/// What a reader finds under a key: nothing, or a term with or without a value.
pub open spec fn finds<K: KeyEncoding, V: DictionaryValue>(
    root: Arc<OverlayNode<K, V>>,
    key: &[K::Unit],
    found: Option<Option<V>>,
) -> bool {
    exists|leaf: Option<Arc<OverlayNode<K, V>>>|
        #[trigger] call_ensures(find_leaf_iterative::<K, V>, (&root, key, 0), leaf)
            && match leaf {
            Some(node) => found is Some && call_ensures(
                OverlayNode::<K, V>::get_value,
                (&*node,),
                found->0,
            ),
            None => found is None,
        }
}

/// A term that is added is found, with the value that the node had; whatever was found
/// under any other key is found there still, and nothing more.
pub proof fn an_added_term_is_found<K: KeyEncoding, V: DictionaryValue>(
    root: Arc<OverlayNode<K, V>>,
    units: &[K::Unit],
    copy: Arc<OverlayNode<K, V>>,
    probe: &[K::Unit],
    before: Option<Option<V>>,
    after: Option<Option<V>>,
    there: bool,
)
    requires
        root.wf(),
        call_ensures(insert_path::<K, V>, (root, units), copy),
        finds(root, probe, before),
        finds(copy, probe, after),
        call_ensures(find_in_lockfree_trie::<K, V>, (&copy, probe, 0), there),
    ensures
        probe@ != units@ ==> after == before,
        probe@ == units@ ==> after is Some,
        probe@ == units@ && before is Some ==> after == before,
        there <==> after is Some,
{
    assert(probe@.skip(0) =~= probe@);
    lemma_rest(probe@);
    inserted_path_is_a_term(root@, units@);
    if probe@ != units@ {
        inserted_path_keeps_other_terms(root@, units@, probe@);
    }
}

/// The rest of a key from its beginning is the key.
proof fn lemma_rest<U>(key: Seq<U>)
    ensures
        crate::overlay::cas_walk::remaining_key(key, 0) == key,
{
    assert(crate::overlay::cas_walk::remaining_key(key, 0) =~= key);
}

/// A value that is written under a key is found there; whatever was found under any other
/// key is found there still, and nothing more if no durable child was on the way.
pub proof fn a_written_value_is_found<
    K: KeyEncoding,
    V: DictionaryValue,
    F: Fn(&SwizzledPtr) -> TrieResult<Arc<OverlayNode<K, V>>>,
>(
    root: Arc<OverlayNode<K, V>>,
    key: &[K::Unit],
    value: V,
    fault: FaultMode,
    fault_in: F,
    copy: Arc<OverlayNode<K, V>>,
    probe: &[K::Unit],
    before: Option<Option<V>>,
    after: Option<Option<V>>,
)
    requires
        root.wf(),
        loader_ok(fault_in),
        call_ensures(
            build_value_spine::<K, V, F>,
            (&root, key, 0, value, fault, fault_in),
            Ok(copy),
        ),
        finds(root, probe, before),
        finds(copy, probe, after),
    ensures
        probe@ == key@ ==> after == Some(Some(value)),
        probe@ != key@ && before is Some ==> after == before,
        probe@ != key@ && path_resident(root@, key@) ==> after == before,
{
    assert(key@.skip(0) =~= key@);
    lemma_rest(probe@);
    value_spine_reads_back::<K, V, F>(fault_in, fault, root@, key@, value, copy@);
    if probe@ != key@ {
        value_spine_keeps_other_terms::<K, V, F>(
            fault_in,
            fault,
            root@,
            key@,
            value,
            copy@,
            probe@,
        );
    }
}

/// A write from a depth beyond the end of its key fails, and one on a path without
/// durable children fails only for want of room.
pub proof fn a_write_fails_for_a_reason<
    K: KeyEncoding,
    V: DictionaryValue,
    F: Fn(&SwizzledPtr) -> TrieResult<Arc<OverlayNode<K, V>>>,
>(
    root: Arc<OverlayNode<K, V>>,
    key: &[K::Unit],
    depth: usize,
    value: V,
    fault: FaultMode,
    fault_in: F,
    result: TrieResult<Arc<OverlayNode<K, V>>>,
)
    requires
        root.wf(),
        loader_ok(fault_in),
        call_ensures(
            build_value_spine::<K, V, F>,
            (&root, key, depth, value, fault, fault_in),
            result,
        ),
    ensures
        depth > key@.len() ==> result is Err && result->Err_0 is InternalError,
        depth <= key@.len() && path_resident(root@, key@.skip(depth as int)) && result is Err
            ==> crate::error::no_room(result->Err_0),
{
    if depth <= key@.len() && path_resident(root@, key@.skip(depth as int)) && result is Err {
        lemma_resident_no_error::<K, V, F>(
            fault_in,
            fault,
            root@,
            key@.skip(depth as int),
            result->Err_0,
        );
    }
}

/// A path without durable children has no walk that fails.
proof fn lemma_resident_no_error<
    K: KeyEncoding,
    V,
    F: Fn(&SwizzledPtr) -> TrieResult<Arc<OverlayNode<K, V>>>,
>(
    fault_in: F,
    fault: FaultMode,
    tree: Tree<K::Unit, V>,
    key: Seq<K::Unit>,
    error: crate::error::PersistentARTrieError,
)
    requires
        path_resident(tree, key),
    ensures
        !crate::overlay::cas_walk::value_spine_error::<K, V, F>(fault_in, fault, tree, key, error),
    decreases key.len(),
{
    if key.len() > 0 {
        match kid(tree, key[0]) {
            Some(Branch::InMem(child)) => {
                lemma_resident_no_error::<K, V, F>(
                    fault_in,
                    fault,
                    child,
                    key.drop_first(),
                    error,
                );
            },
            _ => {},
        }
    }
}

/// Looking for a key from a depth is looking for the rest of it.
pub proof fn a_depth_skips_the_key<K: KeyEncoding, V: DictionaryValue>(
    root: Arc<OverlayNode<K, V>>,
    key: &[K::Unit],
    depth: usize,
    rest: &[K::Unit],
    deep: bool,
    plain: bool,
    leaf: Option<Arc<OverlayNode<K, V>>>,
)
    requires
        root.wf(),
        depth <= key@.len(),
        rest@ == key@.skip(depth as int),
        call_ensures(find_in_lockfree_trie::<K, V>, (&root, key, depth), deep),
        call_ensures(find_in_lockfree_trie::<K, V>, (&root, rest, 0), plain),
        call_ensures(find_leaf_iterative::<K, V>, (&root, key, depth), leaf),
    ensures
        deep == plain,
        leaf is Some <==> deep,
        leaf matches Some(node) ==> node@.is_final && at(root@, rest@) == Some(node@),
{
    lemma_rest(rest@);
    assert(crate::overlay::cas_walk::remaining_key(key@, depth as int) =~= rest@);
}

/// A new path leads to its leaf, and to no other node with a term or a branch.
pub proof fn a_new_path_leads_to_its_leaf<
    K: KeyEncoding,
    V: DictionaryValue,
    F: FnOnce() -> Arc<OverlayNode<K, V>>,
>(
    suffix: &[K::Unit],
    make_leaf: F,
    made: (Arc<OverlayNode<K, V>>, Arc<OverlayNode<K, V>>),
    probe: &[K::Unit],
    found: Option<Option<V>>,
)
    requires
        call_requires(make_leaf, ()),
        forall|n: Arc<OverlayNode<K, V>>| #[trigger] call_ensures(make_leaf, (), n) ==> n.wf(),
        call_ensures(create_spine::<K, V, F>, (suffix, make_leaf), made),
        finds(made.0, probe, found),
    ensures
        call_ensures(make_leaf, (), made.1),
        at(made.0@, suffix@) == Some(made.1@),
        probe@ == suffix@ ==> found == if made.1@.is_final {
            Some(made.1@.value)
        } else {
            None
        },
        made.1@.kids == Map::<K::Unit, Branch<K::Unit, V>>::empty() && probe@ != suffix@
            ==> found is None,
{
    lemma_rest(probe@);
    lemma_fresh_spine_leaf(suffix@, made.1@);
    if made.1@.kids == Map::<K::Unit, Branch<K::Unit, V>>::empty() && probe@ != suffix@ {
        lemma_fresh_spine_others(suffix@, made.1@, probe@);
    }
}

/// The units of a spine, from the root on.
pub open spec fn units_of<U, V>(ancestors: Seq<(Tree<U, V>, U)>) -> Seq<U> {
    Seq::new(ancestors.len(), |i: int| ancestors[i].1)
}

/// Copying the ancestors of a path around a child gives a root from which the units of
/// the path lead to the child; on the way stand the ancestors, with their finality, their
/// value and every other child as it was.
pub proof fn a_copied_path_holds_its_end<'root, K: KeyEncoding, V: DictionaryValue>(
    spine: OverlayPathSpine<'root, K, V>,
    child: Arc<OverlayNode<K, V>>,
    root: Arc<OverlayNode<K, V>>,
    i: int,
    unit: K::Unit,
)
    requires
        spine.wf(),
        child.wf(),
        call_ensures(unwind_spine::<K, V>, (spine, child), root),
    ensures
        at(root@, units_of(spine_ancestors(spine.frames@))) == Some(child@),
        0 <= i < spine.frames@.len() ==> ({
            let old = spine_ancestors(spine.frames@)[i];
            let new = at(root@, units_of(spine_ancestors(spine.frames@)).take(i));
            &&& new is Some
            &&& new->0.is_final == old.0.is_final
            &&& new->0.value == old.0.value
            &&& unit != old.1 ==> kid(new->0, unit) == kid(old.0, unit)
        }),
{
    lemma_unwound(spine_ancestors(spine.frames@), child@, i, unit);
}

/// What a copied path holds.
proof fn lemma_unwound<U, V>(ancestors: Seq<(Tree<U, V>, U)>, child: Tree<U, V>, i: int, unit: U)
    ensures
        at(unwound(ancestors, child), units_of(ancestors)) == Some(child),
        0 <= i < ancestors.len() ==> ({
            let old = ancestors[i];
            let new = at(unwound(ancestors, child), units_of(ancestors).take(i));
            &&& new is Some
            &&& new->0.is_final == old.0.is_final
            &&& new->0.value == old.0.value
            &&& unit != old.1 ==> kid(new->0, unit) == kid(old.0, unit)
        }),
    decreases ancestors.len(),
{
    let n = ancestors.len() as int;
    if n > 0 {
        let (parent, last) = ancestors.last();
        let up = parent.put(last, Branch::InMem(child));
        let above = ancestors.drop_last();
        lemma_unwound(above, up, i, unit);
        let root = unwound(ancestors, child);
        assert(units_of(ancestors).take(n - 1) =~= units_of(above));
        assert(units_of(ancestors) =~= units_of(above) + seq![last]);
        lemma_at_concat(root, units_of(above), seq![last]);
        assert(kid(up, last) == Some(Branch::InMem(child)));
        assert(seq![last].drop_first() =~= Seq::<U>::empty());
        assert(at(child, Seq::<U>::empty()) == Some(child));
        assert(at(up, seq![last]) == Some(child));
        if 0 <= i < n - 1 {
            assert(above[i] == ancestors[i]);
            assert(units_of(ancestors).take(i) =~= units_of(above).take(i));
        }
    } else {
        assert(units_of(ancestors) =~= Seq::empty());
    }
}

/// The units of a copied path lead to what it was copied around.
pub proof fn copied_path_end<U, V>(ancestors: Seq<(Tree<U, V>, U)>, child: Tree<U, V>)
    ensures
        at(unwound(ancestors, child), units_of(ancestors)) == Some(child),
{
    let i = 0int;
    if ancestors.len() > 0 {
        lemma_unwound(ancestors, child, i, ancestors[0].1);
    } else {
        assert(units_of(ancestors) =~= Seq::empty());
    }
}

/// The node behind a handle.
spec fn content<K: KeyEncoding, V>(node: Arc<OverlayNode<K, V>>) -> OverlayNode<K, V> {
    *node
}

/// The nodes that a visit has met, with their paths.
pub open spec fn met<K: KeyEncoding, V, W: PathVisitor<K, V>>(before: W, after: W) -> Seq<
    (Seq<K::Unit>, Tree<K::Unit, V>),
> {
    after.seen().skip(before.seen().len() as int)
}

/// A visit meets every node that a path in memory leads to, with that path, meets each
/// once, and meets nothing else. What was met before and the path are as they were.
pub proof fn a_visit_meets_every_node_once<
    K: KeyEncoding,
    V: DictionaryValue,
    W: PathVisitor<K, V>,
>(
    root: Arc<OverlayNode<K, V>>,
    path: &mut Vec<K::Unit>,
    visitor: &mut W,
    start: Vec<K::Unit>,
    stop: Vec<K::Unit>,
    before: W,
    after: W,
    way: Seq<K::Unit>,
    i: int,
    j: int,
)
    requires
        root.wf(),
        *path == start,
        *final(path) == stop,
        *visitor == before,
        *final(visitor) == after,
        before.valid(),
        call_ensures(visit_paths::<K, V, W>, (&root, path, visitor), ()),
    ensures
        stop@ == start@,
        before.seen().is_prefix_of(after.seen()),
        at(root@, way) matches Some(node) ==> met::<K, V, W>(before, after).contains(
            (start@ + way, node),
        ),
        0 <= i < met::<K, V, W>(before, after).len() ==> ({
            let (full, node) = met::<K, V, W>(before, after)[i];
            &&& start@.is_prefix_of(full)
            &&& at(root@, full.skip(start@.len() as int)) == Some(node)
        }),
        0 <= i < j < met::<K, V, W>(before, after).len() ==> met::<K, V, W>(before, after)[i].0
            != met::<K, V, W>(before, after)[j].0,
{
    let list = preorder(content(root), start@);
    assert(met::<K, V, W>(before, after) =~= list);
    assert(before.seen().is_prefix_of(after.seen())) by {
        assert(after.seen().subrange(0, before.seen().len() as int) =~= before.seen());
    }
    if at(root@, way) is Some {
        lemma_preorder_has(content(root), start@, way);
    }
    if 0 <= i < list.len() {
        lemma_preorder_only(content(root), start@, i);
    }
    if 0 <= i < j < list.len() {
        lemma_preorder_once(content(root), start@, i, j);
    }
}

/// A node that is met stands at its path.
proof fn lemma_preorder_only<K: KeyEncoding, V>(node: OverlayNode<K, V>, path: Seq<K::Unit>, i: int)
    requires
        node.wf(),
        0 <= i < preorder(node, path).len(),
    ensures
        ({
            let (full, tree) = preorder(node, path)[i];
            &&& path.is_prefix_of(full)
            &&& full.len() >= path.len()
            &&& at(node@, full.skip(path.len() as int)) == Some(tree)
        }),
    decreases node, node.children@.len() + 1,
{
    let (full, tree) = preorder(node, path)[i];
    if i == 0 {
        assert(full.skip(path.len() as int) =~= Seq::empty());
        assert(path.subrange(0, path.len() as int) =~= path);
    } else {
        assert(preorder(node, path)[i] == preorder_from(node, 0, path)[i - 1]);
        lemma_preorder_from_only(node, 0, path, i - 1);
    }
}

/// A node that is met below some slots stands below one of them.
proof fn lemma_preorder_from_only<K: KeyEncoding, V>(
    node: OverlayNode<K, V>,
    slot: nat,
    path: Seq<K::Unit>,
    i: int,
)
    requires
        node.wf(),
        0 <= i < preorder_from(node, slot, path).len(),
    ensures
        ({
            let (full, tree) = preorder_from(node, slot, path)[i];
            &&& full.len() > path.len()
            &&& path.is_prefix_of(full)
            &&& exists|s: int|
                slot <= s < node.children@.len() && full[path.len() as int]
                    == (#[trigger] node.children@[s]).0
            &&& at(node@, full.skip(path.len() as int)) == Some(tree)
        }),
    decreases node, node.children@.len() - slot,
{
    let (full, tree) = preorder_from(node, slot, path)[i];
    let unit = node.children@[slot as int].0;
    let first = match node.children@[slot as int].1 {
        Child::InMem(child) => preorder(content(child), path.push(unit)),
        Child::OnDisk(_) => Seq::empty(),
    };
    if i < first.len() {
        if let Child::InMem(child) = node.children@[slot as int].1 {
            assert(match node.children@[slot as int].1 {
                Child::InMem(inner) => inner.wf(),
                Child::OnDisk(_) => true,
            });
            lemma_preorder_only(content(child), path.push(unit), i);
            lemma_slot(node, slot as int);
            let n = path.len() as int;
            let longer = path.push(unit);
            assert(full.subrange(0, n + 1) =~= longer);
            assert(full[n] == longer[n]) by {
                assert(full.subrange(0, n + 1)[n] == full[n]);
            }
            assert(path =~= full.subrange(0, n)) by {
                assert forall|k: int| 0 <= k < n implies path[k] == full[k] by {
                    assert(full.subrange(0, n + 1)[k] == longer[k]);
                }
            }
            assert(full.skip(n)[0] == unit);
            assert(full.skip(n).drop_first() =~= full.skip(n + 1));
            assert(kid(node@, unit) == Some(Branch::InMem(child@)));
        }
    } else {
        assert(preorder_from(node, slot, path)[i] == preorder_from(node, slot + 1, path)[i
            - first.len()]);
        lemma_preorder_from_only(node, slot + 1, path, i - first.len());
    }
}

/// A node at a path is met with it.
proof fn lemma_preorder_has<K: KeyEncoding, V>(
    node: OverlayNode<K, V>,
    path: Seq<K::Unit>,
    way: Seq<K::Unit>,
)
    requires
        node.wf(),
        at(node@, way) is Some,
    ensures
        preorder(node, path).contains((path + way, at(node@, way)->0)),
    decreases node, node.children@.len() + 1,
{
    let list = preorder(node, path);
    if way.len() == 0 {
        assert(path + way =~= path);
        assert(list[0] == (path, node@));
    } else {
        let slot = unit_slot(node.children@, way[0]);
        assert(crate::overlay::node::has_unit(node.children@, way[0]));
        lemma_preorder_from_has(node, 0, path, way, slot);
        let below = preorder_from(node, 0, path);
        let k = choose|k: int| 0 <= k < below.len() && below[k] == (path + way, at(node@, way)->0);
        assert(list[k + 1] == below[k]);
    }
}

/// A node below a slot is met with its path.
proof fn lemma_preorder_from_has<K: KeyEncoding, V>(
    node: OverlayNode<K, V>,
    slot: nat,
    path: Seq<K::Unit>,
    way: Seq<K::Unit>,
    target: int,
)
    requires
        node.wf(),
        way.len() > 0,
        at(node@, way) is Some,
        slot <= target < node.children@.len(),
        node.children@[target].0 == way[0],
    ensures
        preorder_from(node, slot, path).contains((path + way, at(node@, way)->0)),
    decreases node, node.children@.len() - slot,
{
    let list = preorder_from(node, slot, path);
    let unit = node.children@[slot as int].0;
    let first = match node.children@[slot as int].1 {
        Child::InMem(child) => preorder(content(child), path.push(unit)),
        Child::OnDisk(_) => Seq::empty(),
    };
    if slot == target {
        lemma_slot(node, target);
        if let Child::InMem(child) = node.children@[slot as int].1 {
            assert(match node.children@[slot as int].1 {
                Child::InMem(inner) => inner.wf(),
                Child::OnDisk(_) => true,
            });
            assert(kid(node@, unit) == Some(Branch::InMem(child@)));
            lemma_preorder_has(content(child), path.push(unit), way.drop_first());
            assert(path.push(unit) + way.drop_first() =~= path + way);
            let k = choose|k: int|
                0 <= k < first.len() && first[k] == (path + way, at(node@, way)->0);
            assert(list[k] == first[k]);
        }
    } else {
        lemma_preorder_from_has(node, slot + 1, path, way, target);
        let rest = preorder_from(node, slot + 1, path);
        let k = choose|k: int| 0 <= k < rest.len() && rest[k] == (path + way, at(node@, way)->0);
        assert(list[first.len() + k] == rest[k]);
    }
}

/// No path is met twice.
proof fn lemma_preorder_once<K: KeyEncoding, V>(
    node: OverlayNode<K, V>,
    path: Seq<K::Unit>,
    i: int,
    j: int,
)
    requires
        node.wf(),
        0 <= i < j < preorder(node, path).len(),
    ensures
        preorder(node, path)[i].0 != preorder(node, path)[j].0,
    decreases node, node.children@.len() + 1,
{
    let list = preorder(node, path);
    let below = preorder_from(node, 0, path);
    assert(list[j] == below[j - 1]);
    if i == 0 {
        lemma_preorder_from_only(node, 0, path, j - 1);
    } else {
        assert(list[i] == below[i - 1]);
        lemma_preorder_from_once(node, 0, path, i - 1, j - 1);
    }
}

/// No path is met twice below some slots.
proof fn lemma_preorder_from_once<K: KeyEncoding, V>(
    node: OverlayNode<K, V>,
    slot: nat,
    path: Seq<K::Unit>,
    i: int,
    j: int,
)
    requires
        node.wf(),
        0 <= i < j < preorder_from(node, slot, path).len(),
    ensures
        preorder_from(node, slot, path)[i].0 != preorder_from(node, slot, path)[j].0,
    decreases node, node.children@.len() - slot,
{
    let list = preorder_from(node, slot, path);
    let unit = node.children@[slot as int].0;
    let first = match node.children@[slot as int].1 {
        Child::InMem(child) => preorder(content(child), path.push(unit)),
        Child::OnDisk(_) => Seq::empty(),
    };
    let rest = preorder_from(node, slot + 1, path);
    if i < first.len() {
        assert(list[i] == first[i]);
        if let Child::InMem(child) = node.children@[slot as int].1 {
            assert(match node.children@[slot as int].1 {
                Child::InMem(inner) => inner.wf(),
                Child::OnDisk(_) => true,
            });
            if j < first.len() {
                assert(list[j] == first[j]);
                lemma_preorder_once(content(child), path.push(unit), i, j);
            } else {
                assert(list[j] == rest[j - first.len()]);
                lemma_preorder_only(content(child), path.push(unit), i);
                lemma_preorder_from_only(node, slot + 1, path, j - first.len());
                let n = path.len() as int;
                let x = list[i].0;
                let y = list[j].0;
                assert(x.subrange(0, n + 1)[n] == path.push(unit)[n]);
                let s = choose|s: int|
                    slot + 1 <= s < node.children@.len() && y[n] == (#[trigger] node.children@[s]).0;
                assert(K::rank(node.children@[slot as int].0) < K::rank(node.children@[s].0));
            }
        }
    } else {
        assert(list[i] == rest[i - first.len()]);
        assert(list[j] == rest[j - first.len()]);
        lemma_preorder_from_once(node, slot + 1, path, i - first.len(), j - first.len());
    }
}

/// A census counts the terms among the nodes that it has met, up to the largest machine
/// word, and knows the length of the longest path.
pub proof fn a_census_counts_what_it_meets<K: KeyEncoding, V: DictionaryValue>(
    census: &mut PathCensus<K, V>,
    before: PathCensus<K, V>,
    after: PathCensus<K, V>,
    path: &[K::Unit],
    node: &Arc<OverlayNode<K, V>>,
    fresh: PathCensus<K, V>,
)
    requires
        *census == before,
        *final(census) == after,
        before.wf(),
        call_ensures(PathCensus::<K, V>::visit, (census, path, node), ()),
        call_ensures(PathCensus::<K, V>::new, (), fresh),
    ensures
        fresh.deepest == 0,
        fresh.finals == 0,
        after.deepest >= before.deepest,
        after.deepest >= path@.len(),
        after.deepest == before.deepest || after.deepest == path@.len(),
        after.finals == if node@.is_final && before.finals < usize::MAX {
            before.finals + 1
        } else {
            before.finals as int
        },
{
    assert(after.seen@.drop_last() =~= before.seen@);
    assert(finals_of(after.seen@) == finals_of(before.seen@) + if node@.is_final {
        1nat
    } else {
        0
    });
}

/// On a spine that must not outgrow its inline frames a value is written as on any other,
/// or not at all for want of room.
pub proof fn a_value_is_written_on_any_spine<
    'root,
    K: KeyEncoding,
    V: DictionaryValue,
    F: Fn(&SwizzledPtr) -> TrieResult<Arc<OverlayNode<K, V>>>,
>(
    spine: OverlayPathSpine<'root, K, V>,
    root: &'root Arc<OverlayNode<K, V>>,
    key: &[K::Unit],
    value: V,
    fault: FaultMode,
    fault_in: F,
    result: TrieResult<Arc<OverlayNode<K, V>>>,
    probe: &[K::Unit],
    before: Option<Option<V>>,
    after: Option<Option<V>>,
)
    requires
        spine.wf(),
        spine.frames@.len() == 0,
        root.wf(),
        loader_ok(fault_in),
        call_ensures(
            build_value_spine_on::<K, V, F>,
            (spine, root, key, 0, value, fault, fault_in),
            result,
        ),
        finds(*root, probe, before),
        result matches Ok(copy) ==> finds(copy, probe, after),
    ensures
        result is Ok && probe@ == key@ ==> after == Some(Some(value)),
        result is Ok && probe@ != key@ && before is Some ==> after == before,
        result is Ok && probe@ != key@ && path_resident(root@, key@) ==> after == before,
        result is Err && path_resident(root@, key@) ==> result->Err_0 is AllocationFailed,
        key@.len() <= spine.room && path_resident(root@, key@) ==> result is Ok,
{
    assert(key@.skip(0) =~= key@);
    lemma_rest(probe@);
    match result {
        Ok(copy) => {
            value_spine_reads_back::<K, V, F>(fault_in, fault, root@, key@, value, copy@);
            if probe@ != key@ {
                value_spine_keeps_other_terms::<K, V, F>(
                    fault_in,
                    fault,
                    root@,
                    key@,
                    value,
                    copy@,
                    probe@,
                );
            }
        },
        Err(e) => {
            if path_resident(root@, key@) {
                lemma_resident_no_error::<K, V, F>(fault_in, fault, root@, key@, e);
            }
        },
    }
}

} // verus!
