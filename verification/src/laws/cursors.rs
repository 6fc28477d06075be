//! Handles and cursors: a label leads to one child, a key leads back to its cursor, and
//! pages of edges join.

use std::sync::Arc;
use vstd::prelude::*;
use crate::key_encoding::KeyEncoding;
use crate::overlay::cursor_arena::{
    arena_ok, cursor_key_leads_to_its_node, cursor_keys_are_distinct, edge_ok, node_ok, range_ok,
    records_of, resolve_overlay_child,
};
use crate::overlay::dict_node::{OverlayDictionaryNode, SnapshotTraversalCursor};
use crate::overlay::faulter::OverlayFaulter;
use crate::overlay::node::{Child, OverlayNode};
use crate::value::DictionaryValue;

verus! {

/// A cursor stands for its index, and there is one for every index but the largest.
pub proof fn a_cursor_is_its_index(
    index: usize,
    cursor: Option<SnapshotTraversalCursor>,
    found: usize,
)
    requires
        call_ensures(SnapshotTraversalCursor::from_index, (index,), cursor),
        cursor matches Some(c) ==> call_ensures(SnapshotTraversalCursor::index, (&c,), found),
    ensures
        cursor is Some <==> index < usize::MAX,
        cursor is Some ==> found == index,
{
}

/// The cursor of a handle has the empty key, and belongs to its projection, which is made
/// once and kept. A handle without a node has none.
pub proof fn the_first_cursor_has_the_empty_key<
    K: KeyEncoding,
    V: DictionaryValue,
    F: OverlayFaulter<K, V>,
>(
    handle: &mut OverlayDictionaryNode<K, V, F>,
    before: OverlayDictionaryNode<K, V, F>,
    after: OverlayDictionaryNode<K, V, F>,
    cursor: Option<SnapshotTraversalCursor>,
    key: Option<Vec<K::Token>>,
    held: bool,
    to_make: bool,
    made: bool,
)
    requires
        before.wf(),
        *handle == before,
        *final(handle) == after,
        call_ensures(OverlayDictionaryNode::<K, V, F>::snapshot_root_cursor, (handle,), cursor),
        cursor matches Some(c) ==> call_ensures(
            OverlayDictionaryNode::<K, V, F>::snapshot_cursor_key_units,
            (&after, c),
            key,
        ) && call_ensures(
            OverlayDictionaryNode::<K, V, F>::contains_snapshot_cursor,
            (&after, c),
            held,
        ),
        call_ensures(
            OverlayDictionaryNode::<K, V, F>::snapshot_cursor_requires_full_projection,
            (&before,),
            to_make,
        ),
        call_ensures(
            OverlayDictionaryNode::<K, V, F>::snapshot_cursor_requires_full_projection,
            (&after,),
            made,
        ),
    ensures
        cursor is Some <==> before.overlay is Some,
        cursor is Some ==> held && key is Some && key->0@.len() == 0 && !made,
        !to_make ==> after == before,
        after.overlay == before.overlay,
{
    if cursor is Some {
        reveal(arena_ok);
        assert(node_ok(
            after.arena().nodes@,
            records_of::<K, V, F>(after.overlay_faulter),
            0,
        ));
    }
}

/// A label leads from a cursor to one whose key is longer by that label; two cursors with
/// one key are one. What a cursor says of its node is what the handle on it says.
pub proof fn a_label_makes_the_key_longer<
    K: KeyEncoding,
    V: DictionaryValue,
    F: OverlayFaulter<K, V>,
>(
    handle: OverlayDictionaryNode<K, V, F>,
    cursor: SnapshotTraversalCursor,
    label: K::Token,
    step: Option<Option<SnapshotTraversalCursor>>,
    other: SnapshotTraversalCursor,
    key: Option<Vec<K::Token>>,
    other_key: Option<Vec<K::Token>>,
    held: bool,
    is_final: Option<bool>,
    value: Option<Option<V>>,
    node: Option<OverlayDictionaryNode<K, V, F>>,
    node_final: bool,
    node_value: Option<V>,
)
    requires
        handle.wf(),
        call_ensures(
            OverlayDictionaryNode::<K, V, F>::snapshot_cursor_transition,
            (&handle, cursor, label),
            step,
        ),
        call_ensures(
            OverlayDictionaryNode::<K, V, F>::snapshot_cursor_key_units,
            (&handle, cursor),
            key,
        ),
        call_ensures(
            OverlayDictionaryNode::<K, V, F>::snapshot_cursor_key_units,
            (&handle, other),
            other_key,
        ),
        call_ensures(
            OverlayDictionaryNode::<K, V, F>::contains_snapshot_cursor,
            (&handle, cursor),
            held,
        ),
        call_ensures(
            OverlayDictionaryNode::<K, V, F>::snapshot_cursor_is_final,
            (&handle, cursor),
            is_final,
        ),
        call_ensures(
            OverlayDictionaryNode::<K, V, F>::snapshot_cursor_value,
            (&handle, cursor),
            value,
        ),
        call_ensures(
            OverlayDictionaryNode::<K, V, F>::snapshot_cursor_node,
            (&handle, cursor),
            node,
        ),
        node matches Some(n) ==> call_ensures(
            OverlayDictionaryNode::<K, V, F>::is_final,
            (&n,),
            node_final,
        ) && call_ensures(OverlayDictionaryNode::<K, V, F>::value, (&n,), node_value),
    ensures
        held <==> step is Some,
        held <==> key is Some,
        held <==> is_final is Some,
        held <==> value is Some,
        held <==> node is Some,
        held ==> is_final == Some(node_final) && value == Some(node_value),
        step == Some(Some(other)) ==> other_key is Some && other_key->0@ == key->0@.push(label),
        key is Some && other_key is Some && key->0@ == other_key->0@ ==> cursor.index
            == other.index,
        held && other_key is Some && other_key->0@ == key->0@.push(label) ==> step == Some(
            Some(other),
        ),
{
    if held {
        let arena = handle.arena();
        let records = records_of::<K, V, F>(handle.overlay_faulter);
        let root = handle.overlay->0;
        let i = cursor.index as int;
        cursor_key_leads_to_its_node(arena, root, records, i);
        reveal(arena_ok);
        assert(range_ok(arena.nodes@, arena.edges@, i));
        if step is Some && step->0 is Some {
            lemma_step(handle, i, label);
        }
        if other_key is Some {
            if key->0@ == other_key->0@ {
                cursor_keys_are_distinct(arena, root, records, i, other.index as int);
            }
            if other_key->0@ == key->0@.push(label) {
                lemma_back(handle, i, other.index as int, label);
            }
        }
    }
}

/// Where a label leads.
proof fn lemma_step<K: KeyEncoding, V: DictionaryValue, F: OverlayFaulter<K, V>>(
    handle: OverlayDictionaryNode<K, V, F>,
    i: int,
    label: K::Token,
)
    requires
        handle.wf(),
        handle.snapshot_cursor_arena is Some,
        0 <= i < handle.arena().nodes@.len(),
        handle.arena().target(i, label) is Some,
    ensures
        ({
            let j = handle.arena().target(i, label)->0;
            &&& i < j < handle.arena().nodes@.len()
            &&& handle.arena().nodes@[j].parent == Some((i as usize, label))
            &&& handle.arena().key(j) == handle.arena().key(i).push(label)
        }),
{
    reveal(arena_ok);
    let arena = handle.arena();
    assert(range_ok(arena.nodes@, arena.edges@, i));
    let start = arena.nodes@[i].edge_start as int;
    let end = start + arena.nodes@[i].edge_len;
    let e = choose|e: int| start <= e < end && (#[trigger] arena.edges@[e]).0 == label;
    assert(edge_ok(arena.nodes@, arena.edges@, i, e));
}

/// A longer key is one label away.
proof fn lemma_back<K: KeyEncoding, V: DictionaryValue, F: OverlayFaulter<K, V>>(
    handle: OverlayDictionaryNode<K, V, F>,
    i: int,
    j: int,
    label: K::Token,
)
    requires
        handle.wf(),
        handle.snapshot_cursor_arena is Some,
        0 <= i < handle.arena().nodes@.len(),
        0 <= j < handle.arena().nodes@.len(),
        handle.arena().key(j) == handle.arena().key(i).push(label),
    ensures
        handle.arena().target(i, label) == Some(j),
{
    let arena = handle.arena();
    let records = records_of::<K, V, F>(handle.overlay_faulter);
    let root = handle.overlay->0;
    crate::overlay::cursor_arena::cursor_follows_its_key(arena, root, records, j);
    crate::overlay::cursor_arena::cursor_follows_its_key(arena, root, records, i);
    assert(arena.key(i).push(label).drop_last() =~= arena.key(i));
    assert(arena.key(i).push(label).last() == label);
}

/// A page of edges.
pub open spec fn page_of<K: KeyEncoding, V: DictionaryValue, F: OverlayFaulter<K, V>>(
    handle: OverlayDictionaryNode<K, V, F>,
    cursor: SnapshotTraversalCursor,
    start: usize,
    capacity: usize,
    page: Vec<(K::Token, SnapshotTraversalCursor)>,
    is_final: bool,
    total: usize,
) -> bool {
    call_ensures(
        OverlayDictionaryNode::<K, V, F>::visit_snapshot_cursor_edge_page,
        (&handle, cursor, start, capacity),
        Some((page, is_final, total)),
    )
}

/// A page holds as many edges as were asked for or as are left. Each leads where its label
/// does; they are listed by the rank of their labels; and two pages that follow each other
/// are one longer page.
pub proof fn pages_join<K: KeyEncoding, V: DictionaryValue, F: OverlayFaulter<K, V>>(
    handle: OverlayDictionaryNode<K, V, F>,
    cursor: SnapshotTraversalCursor,
    start: usize,
    a: usize,
    b: usize,
    first: Vec<(K::Token, SnapshotTraversalCursor)>,
    second: Vec<(K::Token, SnapshotTraversalCursor)>,
    both: Vec<(K::Token, SnapshotTraversalCursor)>,
    first_final: bool,
    second_final: bool,
    both_final: bool,
    first_total: usize,
    second_total: usize,
    both_total: usize,
    is_final: Option<bool>,
    i: int,
    j: int,
    step: Option<Option<SnapshotTraversalCursor>>,
)
    requires
        handle.wf(),
        start + a + b <= usize::MAX,
        page_of(handle, cursor, start, a, first, first_final, first_total),
        page_of(handle, cursor, (start + a) as usize, b, second, second_final, second_total),
        page_of(handle, cursor, start, (a + b) as usize, both, both_final, both_total),
        call_ensures(
            OverlayDictionaryNode::<K, V, F>::snapshot_cursor_is_final,
            (&handle, cursor),
            is_final,
        ),
        0 <= i < both@.len() ==> call_ensures(
            OverlayDictionaryNode::<K, V, F>::snapshot_cursor_transition,
            (&handle, cursor, both@[i].0),
            step,
        ),
    ensures
        is_final == Some(both_final),
        first_final == both_final,
        second_final == both_final,
        first_total == both_total,
        second_total == both_total,
        both@.len() <= a + b,
        start + both@.len() <= both_total || both@.len() == 0,
        both@.len() < a + b ==> start + both@.len() >= both_total,
        both@.len() == first@.len() + second@.len(),
        0 <= i < first@.len() ==> both@[i].0 == first@[i].0 && both@[i].1.index == first@[i].1.index,
        0 <= i < second@.len() ==> both@[first@.len() + i].0 == second@[i].0 && both@[first@.len()
            + i].1.index == second@[i].1.index,
        0 <= i < both@.len() ==> step is Some && step->0 is Some && step->0->0.index
            == both@[i].1.index,
        0 <= i < j < both@.len() ==> K::rank(K::token_unit(both@[i].0)) < K::rank(
            K::token_unit(both@[j].0),
        ),
{
    let arena = handle.arena();
    let c = cursor.index as int;
    let edges = arena.edge_list(c);
    reveal(arena_ok);
    assert(range_ok(arena.nodes@, arena.edges@, c));
    let from = arena.nodes@[c].edge_start as int;
    assert(edges.len() == arena.nodes@[c].edge_len);
    if 0 <= i < both@.len() {
        assert(both@[i].0 == edges[start + i].0);
        assert(both@[i].1.index == edges[start + i].1);
        assert(edges[start + i] == arena.edges@[from + start + i]);
        assert(edge_ok(arena.nodes@, arena.edges@, c, from + start + i));
        let e = choose|e: int|
            from <= e < from + arena.nodes@[c].edge_len && (#[trigger] arena.edges@[e]).0
                == both@[i].0;
        assert(arena.edges@[from + start + i].0 == both@[i].0);
        assert(e == from + start + i) by {
            if e < from + start + i {
                assert(K::rank(K::token_unit(arena.edges@[e].0)) < K::rank(
                    K::token_unit(arena.edges@[from + start + i].0),
                ));
            } else if e > from + start + i {
                assert(K::rank(K::token_unit(arena.edges@[from + start + i].0)) < K::rank(
                    K::token_unit(arena.edges@[e].0),
                ));
            }
        }
    }
    if 0 <= i < j < both@.len() {
        assert(both@[j].0 == edges[start + j].0);
        assert(edges[start + j] == arena.edges@[from + start + j]);
        assert(K::rank(K::token_unit(arena.edges@[from + start + i].0)) < K::rank(
            K::token_unit(arena.edges@[from + start + j].0),
        ));
    }
    if 0 <= i < first@.len() {
        assert(first@[i].0 == edges[start + i].0);
        assert(both@[i].0 == edges[start + i].0);
    }
    if 0 <= i < second@.len() {
        assert(second@[i].0 == edges[start + a + i].0);
        assert(both@[first@.len() + i].0 == edges[start + first@.len() + i].0);
    }
}

/// A label that leads to a cursor is on a page that holds all edges.
pub proof fn a_full_page_holds_every_label<
    K: KeyEncoding,
    V: DictionaryValue,
    F: OverlayFaulter<K, V>,
>(
    handle: OverlayDictionaryNode<K, V, F>,
    cursor: SnapshotTraversalCursor,
    capacity: usize,
    page: Vec<(K::Token, SnapshotTraversalCursor)>,
    is_final: bool,
    total: usize,
    label: K::Token,
    child: SnapshotTraversalCursor,
)
    requires
        handle.wf(),
        page_of(handle, cursor, 0, capacity, page, is_final, total),
        capacity >= total,
        call_ensures(
            OverlayDictionaryNode::<K, V, F>::snapshot_cursor_transition,
            (&handle, cursor, label),
            Some(Some(child)),
        ),
    ensures
        page@.len() == total,
        exists|i: int|
            0 <= i < page@.len() && (#[trigger] page@[i]).0 == label && page@[i].1.index
                == child.index,
{
    let arena = handle.arena();
    let c = cursor.index as int;
    reveal(arena_ok);
    assert(range_ok(arena.nodes@, arena.edges@, c));
    let from = arena.nodes@[c].edge_start as int;
    let edges = arena.edge_list(c);
    let e = choose|e: int|
        from <= e < from + arena.nodes@[c].edge_len && (#[trigger] arena.edges@[e]).0 == label;
    assert(edges[e - from] == arena.edges@[e]);
    assert(page@[e - from].0 == edges[0 + (e - from)].0);
}

/// The edges of a cursor whose labels are accepted are those of a page that holds all,
/// without the ones that are not accepted, in the same order and with what was made of
/// their labels.
pub proof fn accepted_edges_are_those_of_the_page<
    K: KeyEncoding,
    V: DictionaryValue,
    F: OverlayFaulter<K, V>,
    T,
    P: Fn(K::Token) -> Option<T>,
>(
    handle: OverlayDictionaryNode<K, V, F>,
    cursor: SnapshotTraversalCursor,
    project: P,
    found: Vec<(K::Token, SnapshotTraversalCursor, T)>,
    is_final: bool,
    capacity: usize,
    page: Vec<(K::Token, SnapshotTraversalCursor)>,
    page_final: bool,
    total: usize,
    k: int,
    j: int,
)
    requires
        handle.wf(),
        forall|label: K::Token| call_requires(project, (label,)),
        call_ensures(
            OverlayDictionaryNode::<K, V, F>::filter_map_snapshot_cursor_edges_and_finality::<T, P>,
            (&handle, cursor, project),
            Some((found, is_final)),
        ),
        page_of(handle, cursor, 0, capacity, page, page_final, total),
        capacity >= total,
    ensures
        is_final == page_final,
        0 <= k < found@.len() ==> call_ensures(project, (found@[k].0,), Some(found@[k].2))
            && exists|i: int|
            0 <= i < page@.len() && (#[trigger] page@[i]).0 == found@[k].0 && page@[i].1.index
                == found@[k].1.index,
        0 <= k < page@.len() ==> call_ensures(project, (page@[k].0,), None) || exists|i: int|
            0 <= i < found@.len() && (#[trigger] found@[i]).0 == page@[k].0 && found@[i].1.index
                == page@[k].1.index,
        found@.len() <= page@.len(),
        0 <= j < k < found@.len() ==> K::rank(K::token_unit(found@[j].0)) < K::rank(
            K::token_unit(found@[k].0),
        ),
{
    let edges = handle.arena().edge_list(cursor.index as int);
    reveal(arena_ok);
    assert(range_ok(handle.arena().nodes@, handle.arena().edges@, cursor.index as int));
    assert(page@.len() == edges.len());
    assert forall|i: int| 0 <= i < page@.len() implies (#[trigger] page@[i]).0 == edges[i].0
        && page@[i].1.index == edges[i].1 by {
        assert(page@[i].0 == edges[0 + i].0);
    }
    lemma_filtered(project, edges, found@, k);
    let from = handle.arena().nodes@[cursor.index as int].edge_start as int;
    assert forall|e: int, f: int| 0 <= e < f < edges.len() implies K::rank(
        K::token_unit((#[trigger] edges[e]).0),
    ) < K::rank(K::token_unit((#[trigger] edges[f]).0)) by {
        assert(edges[e] == handle.arena().edges@[from + e]);
        assert(edges[f] == handle.arena().edges@[from + f]);
    }
    if 0 <= j < k < found@.len() {
        lemma_filtered_order::<K, T, P>(project, edges, found@, j, k);
    }
    if 0 <= k < found@.len() {
        let i = choose|i: int|
            0 <= i < edges.len() && (#[trigger] edges[i]).0 == found@[k].0 && edges[i].1
                == found@[k].1.index;
        assert(page@[i].0 == edges[i].0);
    }
    if 0 <= k < page@.len() {
        assert(page@[k].0 == edges[k].0);
    }
}

/// What accepted edges are.
proof fn lemma_filtered<L, T, P: Fn(L) -> Option<T>>(
    project: P,
    edges: Seq<(L, usize)>,
    found: Seq<(L, SnapshotTraversalCursor, T)>,
    k: int,
)
    requires
        crate::overlay::dict_node::filtered(project, edges, found),
    ensures
        found.len() <= edges.len(),
        0 <= k < found.len() ==> call_ensures(project, (found[k].0,), Some(found[k].2)) && exists|
            i: int,
        |
            0 <= i < edges.len() && (#[trigger] edges[i]).0 == found[k].0 && edges[i].1
                == found[k].1.index,
        0 <= k < edges.len() ==> call_ensures(project, (edges[k].0,), None) || exists|i: int|
            0 <= i < found.len() && (#[trigger] found[i]).0 == edges[k].0 && found[i].1.index
                == edges[k].1,
    decreases edges.len(),
{
    if edges.len() > 0 {
        let fewer = edges.drop_last();
        let m = edges.len() - 1;
        assert(edges[m] == edges.last());
        if call_ensures(project, (edges.last().0,), None) && crate::overlay::dict_node::filtered(
            project,
            fewer,
            found,
        ) {
            lemma_filtered(project, fewer, found, k);
            if 0 <= k < found.len() {
                let i = choose|i: int|
                    0 <= i < fewer.len() && (#[trigger] fewer[i]).0 == found[k].0 && fewer[i].1
                        == found[k].1.index;
                assert(edges[i] == fewer[i]);
            }
            if 0 <= k < m {
                assert(edges[k] == fewer[k]);
            }
        } else {
            let rest = found.drop_last();
            let n = found.len() - 1;
            assert(found[n] == found.last());
            lemma_filtered(project, fewer, rest, k);
            if 0 <= k < n {
                assert(found[k] == rest[k]);
                let i = choose|i: int|
                    0 <= i < fewer.len() && (#[trigger] fewer[i]).0 == rest[k].0 && fewer[i].1
                        == rest[k].1.index;
                assert(edges[i] == fewer[i]);
            }
            if 0 <= k < m {
                assert(edges[k] == fewer[k]);
                if !call_ensures(project, (edges[k].0,), None) {
                    let i = choose|i: int|
                        0 <= i < rest.len() && (#[trigger] rest[i]).0 == fewer[k].0
                            && rest[i].1.index == fewer[k].1;
                    assert(found[i] == rest[i]);
                }
            }
        }
    }
}

/// Accepted edges keep their order.
proof fn lemma_filtered_order<K: KeyEncoding, T, P: Fn(K::Token) -> Option<T>>(
    project: P,
    edges: Seq<(K::Token, usize)>,
    found: Seq<(K::Token, SnapshotTraversalCursor, T)>,
    j: int,
    k: int,
)
    requires
        crate::overlay::dict_node::filtered(project, edges, found),
        forall|e: int, f: int|
            0 <= e < f < edges.len() ==> K::rank(K::token_unit((#[trigger] edges[e]).0)) < K::rank(
                K::token_unit((#[trigger] edges[f]).0),
            ),
        0 <= j < k < found.len(),
    ensures
        K::rank(K::token_unit(found[j].0)) < K::rank(K::token_unit(found[k].0)),
    decreases edges.len(),
{
    let fewer = edges.drop_last();
    let m = edges.len() - 1;
    assert(edges[m] == edges.last());
    assert forall|e: int, f: int| 0 <= e < f < fewer.len() implies K::rank(
        K::token_unit((#[trigger] fewer[e]).0),
    ) < K::rank(K::token_unit((#[trigger] fewer[f]).0)) by {
        assert(edges[e] == fewer[e] && edges[f] == fewer[f]);
    }
    if call_ensures(project, (edges.last().0,), None) && crate::overlay::dict_node::filtered(
        project,
        fewer,
        found,
    ) {
        lemma_filtered_order::<K, T, P>(project, fewer, found, j, k);
    } else {
        let rest = found.drop_last();
        assert(found[j] == rest[j]);
        if k < rest.len() {
            assert(found[k] == rest[k]);
            lemma_filtered_order::<K, T, P>(project, fewer, rest, j, k);
        } else {
            lemma_filtered(project, fewer, rest, j);
            let e = choose|e: int|
                0 <= e < fewer.len() && (#[trigger] fewer[e]).0 == rest[j].0 && fewer[e].1
                    == rest[j].1.index;
            assert(edges[e] == fewer[e]);
            assert(found[k] == found.last());
        }
    }
}

/// The children of a handle are listed by the rank of their labels; each is the one that
/// its label leads to, with the loader of the handle. A child in memory that can be
/// spelled is listed, and a label leads to nothing exactly if its child is not there or
/// could not be loaded.
pub proof fn a_label_leads_to_the_listed_child<
    K: KeyEncoding,
    V: DictionaryValue,
    F: OverlayFaulter<K, V>,
>(
    handle: OverlayDictionaryNode<K, V, F>,
    edges: Vec<(K::Token, OverlayDictionaryNode<K, V, F>)>,
    i: int,
    j: int,
    child: Option<OverlayDictionaryNode<K, V, F>>,
    count: Option<usize>,
    label: K::Token,
    other: Option<OverlayDictionaryNode<K, V, F>>,
    node: Arc<OverlayNode<K, V>>,
)
    requires
        handle.wf(),
        call_ensures(OverlayDictionaryNode::<K, V, F>::edges, (&handle,), edges),
        0 <= i < edges@.len() ==> call_ensures(
            OverlayDictionaryNode::<K, V, F>::transition,
            (&handle, edges@[i].0),
            child,
        ),
        call_ensures(OverlayDictionaryNode::<K, V, F>::edge_count, (&handle,), count),
        call_ensures(OverlayDictionaryNode::<K, V, F>::transition, (&handle, label), other),
        handle.overlay is Some ==> handle.overlay == Some(node),
    ensures
        count is Some <==> handle.overlay is Some,
        count matches Some(n) ==> forall|c: usize| #[trigger]
            call_ensures(OverlayNode::<K, V>::num_children, (&*node,), c) ==> c == n,
        handle.overlay is None ==> edges@.len() == 0 && other is None,
        0 <= i < j < edges@.len() ==> K::rank(K::token_unit(edges@[i].0)) < K::rank(
            K::token_unit(edges@[j].0),
        ),
        0 <= i < edges@.len() ==> edges@[i].1.overlay is Some && edges@[i].1.overlay_faulter
            == handle.overlay_faulter,
        0 <= i < edges@.len() && child is Some ==> child->0.overlay is Some
            && child->0.overlay->0@ == edges@[i].1.overlay->0@,
        other is Some ==> other->0.overlay is Some && other->0.overlay_faulter
            == handle.overlay_faulter,
        handle.overlay is Some && (crate::overlay::model::kid(
            node@,
            K::token_unit(label),
        ) matches Some(crate::overlay::node::Branch::InMem(tree))) ==> other is Some
            && other->0.overlay->0@ == crate::overlay::model::kid(
            node@,
            K::token_unit(label),
        )->0->InMem_0 && exists|k: int|
            0 <= k < edges@.len() && K::token_unit((#[trigger] edges@[k]).0) == K::token_unit(
                label,
            ),
{
    if handle.overlay is Some {
        let unit = K::token_unit(label);
        assert(crate::overlay::cursor_arena::spelled::<K>(unit));
        if crate::overlay::model::kid(node@, unit) matches Some(
            crate::overlay::node::Branch::InMem(tree),
        ) {
            assert(crate::overlay::cursor_arena::owed(
                records_of::<K, V, F>(handle.overlay_faulter),
                crate::overlay::model::kid(node@, unit)->0,
            ));
        }
    }
}

/// The children whose labels are accepted are listed by the rank of their labels, each
/// with what was made of its label, and each the child that its label leads to.
pub proof fn accepted_children_are_listed<
    K: KeyEncoding,
    V: DictionaryValue,
    F: OverlayFaulter<K, V>,
    T,
    P: Fn(K::Token) -> Option<T>,
>(
    handle: OverlayDictionaryNode<K, V, F>,
    project: P,
    found: Vec<(K::Token, OverlayDictionaryNode<K, V, F>, T)>,
    i: int,
    j: int,
    child: Option<OverlayDictionaryNode<K, V, F>>,
)
    requires
        handle.wf(),
        forall|label: K::Token| call_requires(project, (label,)),
        call_ensures(
            OverlayDictionaryNode::<K, V, F>::filter_map_edges::<T, P>,
            (&handle, project),
            found,
        ),
        0 <= i < found@.len() ==> call_ensures(
            OverlayDictionaryNode::<K, V, F>::transition,
            (&handle, found@[i].0),
            child,
        ),
    ensures
        0 <= i < found@.len() ==> call_ensures(project, (found@[i].0,), Some(found@[i].2)),
        0 <= i < found@.len() && child is Some ==> child->0.overlay->0@
            == found@[i].1.overlay->0@,
        0 <= i < j < found@.len() ==> K::rank(K::token_unit(found@[i].0)) < K::rank(
            K::token_unit(found@[j].0),
        ),
{
}

/// A handle on a node tells of it what the node tells of itself, and another handle is
/// the same.
pub proof fn a_handle_tells_of_its_node<
    K: KeyEncoding,
    V: DictionaryValue,
    F: OverlayFaulter<K, V>,
>(
    node: Arc<OverlayNode<K, V>>,
    faulter: Option<Arc<F>>,
    root: OverlayDictionaryNode<K, V, F>,
    inner: OverlayDictionaryNode<K, V, F>,
    alias: OverlayDictionaryNode<K, V, F>,
    is_final: bool,
    value: Option<V>,
    node_final: bool,
    node_value: Option<V>,
)
    requires
        node.wf(),
        call_ensures(OverlayDictionaryNode::<K, V, F>::from_overlay_root, (node, faulter), root),
        call_ensures(OverlayDictionaryNode::<K, V, F>::from_overlay_node, (node, faulter), inner),
        call_ensures(OverlayDictionaryNode::<K, V, F>::alias, (&root,), alias),
        call_ensures(OverlayDictionaryNode::<K, V, F>::is_final, (&root,), is_final),
        call_ensures(OverlayDictionaryNode::<K, V, F>::value, (&root,), value),
        call_ensures(OverlayNode::<K, V>::is_final, (&*node,), node_final),
        call_ensures(OverlayNode::<K, V>::get_value, (&*node,), node_value),
    ensures
        is_final == node_final,
        value == node_value,
        alias == root,
        inner.overlay == root.overlay && inner.overlay_faulter == root.overlay_faulter,
        root.overlay_faulter == faulter,
{
}

/// A child in memory is handed out as it is; a durable one as what its record holds, and
/// never without a loader.
pub proof fn a_child_is_handed_out_or_loaded<
    K: KeyEncoding,
    V: DictionaryValue,
    F: OverlayFaulter<K, V>,
>(
    child: &Child<K, V>,
    faulter: &Option<Arc<F>>,
    node: Option<Arc<OverlayNode<K, V>>>,
    handle: Option<OverlayDictionaryNode<K, V, F>>,
)
    requires
        *child matches Child::InMem(inner) ==> inner.wf(),
        call_ensures(resolve_overlay_child::<K, V, F>, (child, faulter), node),
        call_ensures(
            OverlayDictionaryNode::<K, V, F>::overlay_child_node,
            (child, faulter),
            handle,
        ),
    ensures
        *child matches Child::InMem(inner) ==> node == Some(inner) && handle is Some
            && handle->0.overlay == Some(inner),
        *child matches Child::OnDisk(ptr) ==> {
            &&& *faulter is None ==> node is None && handle is None
            &&& ptr.raw == 0 ==> node is None && handle is None
            &&& node is Some ==> node->0@ == ((*faulter)->0.records())(ptr)
            &&& handle is Some ==> handle->0.overlay is Some && handle->0.overlay->0@ == ((
            *faulter)->0.records())(ptr)
        },
        handle is Some ==> handle->0.overlay_faulter == *faulter,
{
}

} // verus!
