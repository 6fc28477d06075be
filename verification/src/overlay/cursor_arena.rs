//! A dense projection of one overlay root, for cursors that are plain indices.

use std::sync::Arc;
use vstd::prelude::*;
use crate::key_encoding::KeyEncoding;
use crate::shared::share;
use crate::swizzled_ptr::SwizzledPtr;
use crate::value::DictionaryValue;
use super::faulter::OverlayFaulter;
use super::model::{kid, Records};
use super::node::{lemma_slot, Branch, Child, OverlayNode, Tree};

verus! {

/// A node of the projection: the overlay node, its edges as a range of the edge
/// list, and the edge that leads to it.
pub struct OverlaySnapshotCursorNode<K: KeyEncoding, V> {
    pub overlay: Arc<OverlayNode<K, V>>,
    pub edge_start: usize,
    pub edge_len: usize,
    pub parent: Option<(usize, K::Token)>,
    pub is_final: bool,
    pub value: Option<V>,
}

/// Every node that can be reached from one root, once for each path, in
/// breadth-first order.
pub struct OverlaySnapshotCursorArena<K: KeyEncoding, V> {
    pub nodes: Vec<OverlaySnapshotCursorNode<K, V>>,
    pub edges: Vec<(K::Token, usize)>,
}

/// Where durable children come from: what their records hold, if there are records,
/// and which of them were missed when they were asked for.
#[verifier::reject_recursive_types(U)]
#[verifier::reject_recursive_types(V)]
pub struct Lookup<U, V> {
    pub records: Option<Records<U, V>>,
    pub missed: spec_fn(SwizzledPtr) -> bool,
}

/// A child that can be had: a resident one, or a durable one that was not missed.
pub open spec fn owed<U, V>(records: Lookup<U, V>, branch: Branch<U, V>) -> bool {
    match branch {
        Branch::InMem(_) => true,
        Branch::OnDisk(ptr) => !(records.missed)(ptr),
    }
}

/// The child that an edge leads to: a resident one, or, if there are records, a
/// durable one.
pub open spec fn reach_kid<U, V>(
    records: Lookup<U, V>,
    tree: Tree<U, V>,
    unit: U,
) -> Option<Tree<U, V>> {
    match kid(tree, unit) {
        Some(Branch::InMem(child)) => Some(child),
        Some(Branch::OnDisk(ptr)) => match records.records {
            Some(records) => if ptr.raw != 0 {
                Some(records(ptr))
            } else {
                None
            },
            None => None,
        },
        None => None,
    }
}

/// The node at the end of a path.
pub open spec fn reach_at<U, V>(
    records: Lookup<U, V>,
    tree: Tree<U, V>,
    path: Seq<U>,
) -> Option<Tree<U, V>>
    decreases path.len(),
{
    if path.len() == 0 {
        Some(tree)
    } else {
        match reach_at(records, tree, path.drop_last()) {
            Some(node) => reach_kid(records, node, path.last()),
            None => None,
        }
    }
}

/// The records behind a faulter, if there is one. A durable child is missed if it is
/// the null pointer, if there is no faulter, or if the faulter did not load it.
pub open spec fn records_of<K: KeyEncoding, V, F: OverlayFaulter<K, V>>(
    faulter: Option<Arc<F>>,
) -> Lookup<K::Unit, V> {
    Lookup {
        records: match faulter {
            Some(faulter) => Some(faulter.records()),
            None => None,
        },
        missed: |ptr: SwizzledPtr|
            ptr.raw == 0 || match faulter {
                Some(faulter) => call_ensures(F::fault_overlay_slot, (&*faulter, &ptr), None),
                None => true,
            },
    }
}

/// A label that callers can spell.
pub open spec fn spelled<K: KeyEncoding>(unit: K::Unit) -> bool {
    exists|token: K::Token| #[trigger] K::token_unit(token) == unit
}

/// A child, resident or durable, if it can be had.
pub fn resolve_overlay_child<K: KeyEncoding, V: DictionaryValue, F: OverlayFaulter<K, V>>(
    child: &Child<K, V>,
    faulter: &Option<Arc<F>>,
) -> (r: Option<Arc<OverlayNode<K, V>>>)
    requires
        child matches Child::InMem(node) ==> node.wf(),
    ensures
        r matches Some(node) ==> node.wf(),
        match *child {
            Child::InMem(node) => r == Some(node),
            Child::OnDisk(ptr) => {
                &&& ptr.raw == 0 || *faulter is None ==> r is None
                &&& r matches Some(node) ==> node@ == (records_of::<K, V, F>(
                    *faulter,
                ).records->0)(ptr)
                &&& r is None ==> (records_of::<K, V, F>(*faulter).missed)(ptr)
            },
        },
{
    match child {
        Child::InMem(node) => Some(share(node)),
        Child::OnDisk(ptr) => {
            if ptr.is_null() {
                return None;
            }
            match faulter {
                Some(faulter) => {
                    let r = faulter.fault_overlay_slot(ptr);
                    assert(call_ensures(F::fault_overlay_slot, (&**faulter, ptr), r));
                    r
                },
                None => None,
            }
        },
    }
}

/// A node of the projection and the edge that leads to it.
pub open spec fn node_ok<K: KeyEncoding, V>(
    nodes: Seq<OverlaySnapshotCursorNode<K, V>>,
    records: Lookup<K::Unit, V>,
    i: int,
) -> bool {
    &&& nodes[i].overlay.wf()
    &&& nodes[i].is_final == nodes[i].overlay@.is_final
    &&& nodes[i].value == nodes[i].overlay@.value
    &&& (i == 0) == (nodes[i].parent is None)
    &&& nodes[i].parent matches Some((p, label)) ==> p < i && reach_kid(
        records,
        nodes[p as int].overlay@,
        K::token_unit(label),
    ) == Some(nodes[i].overlay@)
}

/// An edge of the projection.
pub open spec fn edge_ok<K: KeyEncoding, V>(
    nodes: Seq<OverlaySnapshotCursorNode<K, V>>,
    edges: Seq<(K::Token, usize)>,
    i: int,
    e: int,
) -> bool {
    let (label, child) = edges[e];
    i < child < nodes.len() && nodes[child as int].parent == Some((i as usize, label))
}

/// The edges of a node, in the order of their labels.
pub open spec fn range_ok<K: KeyEncoding, V>(
    nodes: Seq<OverlaySnapshotCursorNode<K, V>>,
    edges: Seq<(K::Token, usize)>,
    i: int,
) -> bool {
    let start = nodes[i].edge_start as int;
    let end = start + nodes[i].edge_len;
    &&& end <= edges.len()
    &&& forall|e: int| start <= e < end ==> #[trigger] edge_ok(nodes, edges, i, e)
    &&& forall|e: int, f: int|
        start <= e < f < end ==> K::rank(K::token_unit((#[trigger] edges[e]).0)) < K::rank(
            K::token_unit((#[trigger] edges[f]).0),
        )
}

/// An edge of a node has the given label.
pub open spec fn range_has<K: KeyEncoding, V>(
    nodes: Seq<OverlaySnapshotCursorNode<K, V>>,
    edges: Seq<(K::Token, usize)>,
    i: int,
    unit: K::Unit,
) -> bool {
    exists|e: int|
        nodes[i].edge_start <= e < nodes[i].edge_start + nodes[i].edge_len && K::token_unit(
            (#[trigger] edges[e]).0,
        ) == unit
}

/// The first `s` children of a node that can be had are there.
pub open spec fn range_complete<K: KeyEncoding, V>(
    nodes: Seq<OverlaySnapshotCursorNode<K, V>>,
    edges: Seq<(K::Token, usize)>,
    records: Lookup<K::Unit, V>,
    i: int,
    s: int,
) -> bool {
    forall|t: int|
        0 <= t < s && owed(records, (#[trigger] nodes[i].overlay.children@[t]).1.branch())
            && spelled::<K>(nodes[i].overlay.children@[t].0) ==> range_has(nodes, edges, i, nodes[i].overlay.children@[t].0)
}

/// The edge that leads to a node is among those of its parent.
pub open spec fn listed<K: KeyEncoding, V>(
    nodes: Seq<OverlaySnapshotCursorNode<K, V>>,
    edges: Seq<(K::Token, usize)>,
    j: int,
) -> bool {
    nodes[j].parent matches Some((p, label)) ==> exists|e: int|
        nodes[p as int].edge_start <= e < nodes[p as int].edge_start + nodes[p as int].edge_len
            && #[trigger] edges[e] == (label, j as usize)
}

/// A projection whose first `done` nodes have all their edges.
#[verifier::opaque]
pub open spec fn arena_ok<K: KeyEncoding, V>(
    nodes: Seq<OverlaySnapshotCursorNode<K, V>>,
    edges: Seq<(K::Token, usize)>,
    records: Lookup<K::Unit, V>,
    done: int,
) -> bool {
    &&& 0 < nodes.len() <= usize::MAX
    &&& forall|i: int| 0 <= i < nodes.len() ==> #[trigger] node_ok(nodes, records, i)
    &&& forall|i: int| 0 <= i < nodes.len() ==> #[trigger] range_ok(nodes, edges, i)
    &&& forall|j: int| 0 <= j < nodes.len() ==> #[trigger] listed(nodes, edges, j)
    &&& forall|i: int|
        0 <= i < done && i < nodes.len() ==> #[trigger] range_complete(
            nodes,
            edges,
            records,
            i,
            nodes[i].overlay.children@.len() as int,
        )
    &&& forall|i: int|
        done <= i < nodes.len() ==> (#[trigger] nodes[i]).edge_len == 0
}

/// A projection whose first `k` nodes have all their edges, and the next those of
/// its first `s` children.
#[verifier::opaque]
pub open spec fn partial_ok<K: KeyEncoding, V>(
    nodes: Seq<OverlaySnapshotCursorNode<K, V>>,
    edges: Seq<(K::Token, usize)>,
    records: Lookup<K::Unit, V>,
    k: int,
    s: int,
) -> bool {
    &&& 0 <= k < nodes.len() <= usize::MAX
    &&& forall|i: int| 0 <= i < nodes.len() ==> #[trigger] node_ok(nodes, records, i)
    &&& forall|i: int| 0 <= i < nodes.len() ==> #[trigger] range_ok(nodes, edges, i)
    &&& forall|j: int| 0 <= j < nodes.len() ==> #[trigger] listed(nodes, edges, j)
    &&& forall|i: int|
        0 <= i < k ==> #[trigger] range_complete(
            nodes,
            edges,
            records,
            i,
            nodes[i].overlay.children@.len() as int,
        )
    &&& forall|i: int| k < i < nodes.len() ==> (#[trigger] nodes[i]).edge_len == 0
    &&& nodes[k].edge_start + nodes[k].edge_len == edges.len()
    &&& range_complete(nodes, edges, records, k, s)
    &&& forall|e: int, t: int|
        nodes[k].edge_start <= e < edges.len() && s <= t < nodes[k].overlay.children@.len()
            ==> K::rank(K::token_unit((#[trigger] edges[e]).0)) < K::rank(
            (#[trigger] nodes[k].overlay.children@[t]).0,
        )
}

/// What a node of the projection is.
proof fn lemma_partial_node<K: KeyEncoding, V>(
    nodes: Seq<OverlaySnapshotCursorNode<K, V>>,
    edges: Seq<(K::Token, usize)>,
    records: Lookup<K::Unit, V>,
    k: int,
    s: int,
)
    requires
        partial_ok(nodes, edges, records, k, s),
    ensures
        nodes[k].overlay.wf(),
        nodes[k].edge_start + nodes[k].edge_len == edges.len(),
{
    reveal(partial_ok);
    assert(node_ok(nodes, records, k));
}

/// Starting on the edges of a node.
proof fn lemma_begin_node<K: KeyEncoding, V>(
    before: Seq<OverlaySnapshotCursorNode<K, V>>,
    after: Seq<OverlaySnapshotCursorNode<K, V>>,
    edges: Seq<(K::Token, usize)>,
    records: Lookup<K::Unit, V>,
    k: int,
)
    requires
        arena_ok(before, edges, records, k),
        0 <= k < before.len(),
        edges.len() <= usize::MAX,
        after == before.update(
            k,
            OverlaySnapshotCursorNode { edge_start: edges.len() as usize, ..before[k] },
        ),
    ensures
        partial_ok(after, edges, records, k, 0),
{
    reveal(arena_ok);
    reveal(partial_ok);
    assert(before[k].edge_len == 0);
    assert forall|i: int| 0 <= i < after.len() implies #[trigger] node_ok(after, records, i) by {
        assert(node_ok(before, records, i));
    }
    assert forall|i: int| 0 <= i < after.len() implies #[trigger] range_ok(after, edges, i) by {
        assert(range_ok(before, edges, i));
        assert forall|e: int|
            after[i].edge_start <= e < after[i].edge_start + after[i].edge_len implies #[trigger] edge_ok(
            after,
            edges,
            i,
            e,
        ) by {
            assert(edge_ok(before, edges, i, e));
        }
    }
    assert forall|j: int| 0 <= j < after.len() implies #[trigger] listed(after, edges, j) by {
        assert(listed(before, edges, j));
        assert(node_ok(before, records, j));
        match after[j].parent {
            Some((p, label)) => {
                let e = choose|e: int|
                    before[p as int].edge_start <= e < before[p as int].edge_start
                        + before[p as int].edge_len && #[trigger] edges[e] == (label, j as usize);
                assert(p != k);
                assert(edges[e] == (label, j as usize));
            },
            None => {},
        }
    }
    assert forall|i: int| 0 <= i < k && i < after.len() implies #[trigger] range_complete(
        after,
        edges,
            records,
        i,
        after[i].overlay.children@.len() as int,
    ) by {
        lemma_complete_kept(before, after, edges, edges, records, i);
    }
}

/// Completeness is kept while edges are added elsewhere.
proof fn lemma_complete_kept<K: KeyEncoding, V>(
    before: Seq<OverlaySnapshotCursorNode<K, V>>,
    after: Seq<OverlaySnapshotCursorNode<K, V>>,
    edges: Seq<(K::Token, usize)>,
    more: Seq<(K::Token, usize)>,
    records: Lookup<K::Unit, V>,
    i: int,
)
    requires
        range_complete(before, edges, records, i, before[i].overlay.children@.len() as int),
        range_ok(before, edges, i),
        edges.len() <= more.len(),
        forall|e: int| 0 <= e < edges.len() ==> #[trigger] more[e] == edges[e],
        after[i].overlay == before[i].overlay,
        after[i].edge_start == before[i].edge_start,
        after[i].edge_len == before[i].edge_len,
    ensures
        range_complete(after, more, records, i, after[i].overlay.children@.len() as int),
{
    assert forall|t: int|
        0 <= t < after[i].overlay.children@.len() && owed(
            records,
            (#[trigger] after[i].overlay.children@[t]).1.branch(),
        ) && spelled::<K>(after[i].overlay.children@[t].0) implies range_has(after, more, i, after[i].overlay.children@[t].0) by {
        let unit = before[i].overlay.children@[t].0;
        assert(range_has(before, edges, i, unit));
        let e = choose|e: int|
            before[i].edge_start <= e < before[i].edge_start + before[i].edge_len
                && K::token_unit((#[trigger] edges[e]).0) == unit;
        assert(K::token_unit(more[e].0) == unit);
    }
}

/// One child more.
proof fn lemma_add_child<K: KeyEncoding, V>(
    before: Seq<OverlaySnapshotCursorNode<K, V>>,
    edges: Seq<(K::Token, usize)>,
    after: Seq<OverlaySnapshotCursorNode<K, V>>,
    more: Seq<(K::Token, usize)>,
    records: Lookup<K::Unit, V>,
    k: int,
    s: int,
    child: OverlaySnapshotCursorNode<K, V>,
    label: K::Token,
)
    requires
        partial_ok(before, edges, records, k, s),
        before.len() < usize::MAX,
        edges.len() < usize::MAX,
        0 <= s < before[k].overlay.children@.len(),
        K::token_unit(label) == before[k].overlay.children@[s].0,
        child.overlay.wf(),
        child.is_final == child.overlay@.is_final,
        child.value == child.overlay@.value,
        child.edge_start == 0,
        child.edge_len == 0,
        child.parent == Some((k as usize, label)),
        reach_kid(records, before[k].overlay@, K::token_unit(label)) == Some(child.overlay@),
        after == before.push(child).update(
            k,
            OverlaySnapshotCursorNode { edge_len: (before[k].edge_len + 1) as usize, ..before[k] },
        ),
        more == edges.push((label, before.len() as usize)),
    ensures
        partial_ok(after, more, records, k, s + 1),
{
    reveal(partial_ok);
    let n = before.len() as int;
    assert(range_ok(before, edges, k));
    assert(node_ok(before, records, k));
    assert forall|i: int| 0 <= i < n implies (#[trigger] after[i]).overlay == before[i].overlay
        && after[i].parent == before[i].parent && after[i].edge_start == before[i].edge_start by {}
    assert forall|i: int| 0 <= i < n && i != k implies (#[trigger] after[i]).edge_len
        == before[i].edge_len by {}
    assert forall|e: int| 0 <= e < edges.len() implies #[trigger] more[e] == edges[e] by {}
    assert(more[edges.len() as int] == (label, n as usize));
    assert(after[n] == child);
    assert forall|i: int| 0 <= i < after.len() implies #[trigger] node_ok(after, records, i) by {
        if i < n {
            assert(node_ok(before, records, i));
        }
    }
    assert forall|i: int| 0 <= i < after.len() implies #[trigger] range_ok(after, more, i) by {
        if i < n {
            assert(range_ok(before, edges, i));
            let start = after[i].edge_start as int;
            let end = start + after[i].edge_len;
            assert forall|e: int| start <= e < end implies #[trigger] edge_ok(
                after,
                more,
                i,
                e,
            ) by {
                if e < edges.len() {
                    assert(edge_ok(before, edges, i, e));
                }
            }
        }
    }
    assert forall|i: int| 0 <= i < after.len() implies #[trigger] listed(after, more, i) by {
        if i < n {
            assert(node_ok(before, records, i));
            assert(listed(before, edges, i));
            match after[i].parent {
                Some((p, above)) => {
                    let e = choose|e: int|
                        before[p as int].edge_start <= e < before[p as int].edge_start
                            + before[p as int].edge_len && #[trigger] edges[e] == (
                            above,
                            i as usize,
                        );
                    assert(range_ok(before, edges, p as int));
                    assert(more[e] == (above, i as usize));
                },
                None => {},
            }
        }
    }
    assert forall|i: int| 0 <= i < k implies #[trigger] range_complete(
        after,
        more,
            records,
        i,
        after[i].overlay.children@.len() as int,
    ) by {
        assert(range_complete(before, edges, records, i, before[i].overlay.children@.len() as int));
        assert(range_ok(before, edges, i));
        lemma_complete_kept(before, after, edges, more, records, i);
    }
    assert forall|t: int|
        0 <= t < s + 1 && owed(
            records,
            (#[trigger] after[k].overlay.children@[t]).1.branch(),
        ) && spelled::<K>(after[k].overlay.children@[t].0) implies range_has(after, more, k, after[k].overlay.children@[t].0) by {
        if t < s {
            let unit = before[k].overlay.children@[t].0;
            assert(range_has(before, edges, k, unit));
            let e = choose|e: int|
                before[k].edge_start <= e < before[k].edge_start + before[k].edge_len
                    && K::token_unit((#[trigger] edges[e]).0) == unit;
            assert(K::token_unit(more[e].0) == unit);
        } else {
            assert(K::token_unit(more[edges.len() as int].0) == K::token_unit(label));
        }
    }
}

/// A child that cannot be spelled or had.
proof fn lemma_skip_child<K: KeyEncoding, V>(
    nodes: Seq<OverlaySnapshotCursorNode<K, V>>,
    edges: Seq<(K::Token, usize)>,
    records: Lookup<K::Unit, V>,
    k: int,
    s: int,
)
    requires
        partial_ok(nodes, edges, records, k, s),
        0 <= s < nodes[k].overlay.children@.len(),
        !spelled::<K>(nodes[k].overlay.children@[s].0)
            || !owed(records, nodes[k].overlay.children@[s].1.branch()),
    ensures
        partial_ok(nodes, edges, records, k, s + 1),
{
    reveal(partial_ok);
}

/// A node that has all its edges.
proof fn lemma_end_node<K: KeyEncoding, V>(
    nodes: Seq<OverlaySnapshotCursorNode<K, V>>,
    edges: Seq<(K::Token, usize)>,
    records: Lookup<K::Unit, V>,
    k: int,
)
    requires
        partial_ok(nodes, edges, records, k, nodes[k].overlay.children@.len() as int),
    ensures
        arena_ok(nodes, edges, records, k + 1),
{
    reveal(partial_ok);
    reveal(arena_ok);
}

impl<K: KeyEncoding, V: DictionaryValue> OverlaySnapshotCursorArena<K, V> {
    /// The projection is that of a root.
    pub open spec fn projects(
        self,
        root: Arc<OverlayNode<K, V>>,
        records: Lookup<K::Unit, V>,
    ) -> bool {
        &&& arena_ok(self.nodes@, self.edges@, records, self.nodes@.len() as int)
        &&& self.nodes@[0].overlay == root
    }

    /// The index that a label leads to.
    pub open spec fn target(self, i: int, label: K::Token) -> Option<int> {
        let start = self.nodes@[i].edge_start as int;
        let end = start + self.nodes@[i].edge_len;
        if exists|e: int| start <= e < end && (#[trigger] self.edges@[e]).0 == label {
            let e = choose|e: int| start <= e < end && (#[trigger] self.edges@[e]).0 == label;
            Some(self.edges@[e].1 as int)
        } else {
            None
        }
    }

    /// The index that a key leads to, from the root.
    pub open spec fn follow(self, key: Seq<K::Token>) -> Option<int>
        decreases key.len(),
    {
        if key.len() == 0 {
            Some(0)
        } else {
            match self.follow(key.drop_last()) {
                Some(i) => self.target(i, key.last()),
                None => None,
            }
        }
    }

    /// The labels from the root to an index.
    pub open spec fn key(self, i: int) -> Seq<K::Token>
        decreases i,
    {
        match self.nodes@[i].parent {
            Some((p, label)) => if 0 <= p < i {
                self.key(p as int).push(label)
            } else {
                Seq::empty()
            },
            None => Seq::empty(),
        }
    }

    /// The edges of an index.
    pub open spec fn edge_list(self, i: int) -> Seq<(K::Token, usize)> {
        self.edges@.subrange(
            self.nodes@[i].edge_start as int,
            self.nodes@[i].edge_start + self.nodes@[i].edge_len,
        )
    }

    /// The index that a label leads to.
    pub fn find_edge(&self, index: usize, wanted: K::Token) -> (r: Option<usize>)
        requires
            index < self.nodes@.len(),
            range_ok(self.nodes@, self.edges@, index as int),
        ensures
            match r {
                Some(child) => self.target(index as int, wanted) == Some(child as int),
                None => self.target(index as int, wanted) is None,
            },
    {
        let start: usize = self.nodes[index].edge_start;
        let total: usize = self.edges.len();
        assert(start + self.nodes@[index as int].edge_len <= total);
        let end: usize = start + self.nodes[index].edge_len;
        let target: u64 = K::unit_rank(K::token_to_unit(wanted));
        let mut low: usize = start;
        let mut high: usize = end;
        while low < high
            invariant
                start <= low <= high <= end <= self.edges@.len(),
                target == K::rank(K::token_unit(wanted)),
                forall|e: int, f: int|
                    start <= e < f < end ==> K::rank(K::token_unit((#[trigger] self.edges@[e]).0))
                        < K::rank(K::token_unit((#[trigger] self.edges@[f]).0)),
                forall|e: int|
                    start <= e < low ==> K::rank(K::token_unit((#[trigger] self.edges@[e]).0))
                        < target,
                forall|e: int|
                    high <= e < end ==> K::rank(K::token_unit((#[trigger] self.edges@[e]).0))
                        >= target,
            decreases high - low,
        {
            let middle: usize = low + (high - low) / 2;
            let probe: u64 = K::unit_rank(K::token_to_unit(self.edges[middle].0));
            if probe < target {
                low = middle + 1;
            } else {
                high = middle;
            }
        }
        if low < end && K::unit_rank(K::token_to_unit(self.edges[low].0)) == target {
            proof {
                let label = self.edges@[low as int].0;
                K::rank_injective(K::token_unit(label), K::token_unit(wanted));
                K::token_injective(label, wanted);
                lemma_target(*self, index as int, low as int);
            }
            Some(self.edges[low].1)
        } else {
            None
        }
    }

    /// The labels from the root to an index.
    pub fn key_units(&self, index: usize) -> (r: Vec<K::Token>)
        requires
            index < self.nodes@.len(),
            forall|i: int|
                0 <= i < self.nodes@.len() ==> ((#[trigger] self.nodes@[i]).parent matches Some((
                    p,
                    _,
                )) ==> p < i),
        ensures
            r@ == self.key(index as int),
    {
        let mut reverse: Vec<K::Token> = Vec::new();
        let mut at: usize = index;
        assert(self.key(index as int) =~= self.key(at as int) + reverse@.reverse());
        while self.nodes[at].parent.is_some()
            invariant
                at <= index < self.nodes@.len(),
                forall|i: int|
                    0 <= i < self.nodes@.len() ==> ((#[trigger] self.nodes@[i]).parent matches Some(
                        (p, _),
                    ) ==> p < i),
                self.key(index as int) == self.key(at as int) + reverse@.reverse(),
            decreases at,
        {
            match self.nodes[at].parent {
                Some((parent, label)) => {
                    let ghost before = reverse@;
                    reverse.push(label);
                    proof {
                        assert(self.key(at as int) == self.key(parent as int).push(label));
                        assert(self.key(parent as int).push(label) + before.reverse() =~= self.key(
                            parent as int,
                        ) + reverse@.reverse());
                    }
                    at = parent;
                },
                None => {},
            }
        }
        assert(self.key(at as int) =~= Seq::empty());
        let mut key: Vec<K::Token> = Vec::with_capacity(reverse.len());
        let mut left: usize = reverse.len();
        while left > 0
            invariant
                left <= reverse@.len(),
                key@ == reverse@.reverse().take(reverse@.len() - left),
            decreases left,
        {
            left -= 1;
            key.push(reverse[left]);
            assert(reverse@.reverse().take(reverse@.len() - left) =~= reverse@.reverse().take(
                reverse@.len() - left - 1,
            ).push(reverse@[left as int]));
        }
        assert(key@ =~= reverse@.reverse());
        assert(Seq::empty() + reverse@.reverse() =~= reverse@.reverse());
        key
    }

    /// Projects a root. Children that cannot be spelled are left out, and so are
    /// durable children that cannot be loaded.
    pub fn build<F: OverlayFaulter<K, V>>(
        root: Arc<OverlayNode<K, V>>,
        faulter: &Option<Arc<F>>,
    ) -> (r: Self)
        requires
            root.wf(),
        ensures
            r.projects(root, records_of::<K, V, F>(*faulter)),
    {
        let ghost records = records_of::<K, V, F>(*faulter);
        let mut nodes: Vec<OverlaySnapshotCursorNode<K, V>> = Vec::new();
        let mut edges: Vec<(K::Token, usize)> = Vec::new();
        nodes.push(
            OverlaySnapshotCursorNode {
                is_final: root.is_final(),
                value: root.get_value(),
                overlay: share(&root),
                edge_start: 0,
                edge_len: 0,
                parent: None,
            },
        );
        let mut index: usize = 0;
        proof {
            reveal(arena_ok);
            assert(node_ok(nodes@, records, 0));
        }
        while index < nodes.len()
            invariant
                records == records_of::<K, V, F>(*faulter),
                index <= nodes@.len(),
                arena_ok(nodes@, edges@, records, index as int),
                nodes@[0].overlay == root,
            decreases usize::MAX - index,
        {
            let ghost before = nodes@;
            let start: usize = edges.len();
            nodes[index].edge_start = start;
            proof {
                lemma_begin_node(before, nodes@, edges@, records, index as int);
                lemma_partial_node(nodes@, edges@, records, index as int, 0);
            }
            let overlay = share(&nodes[index].overlay);
            let mut s: usize = 0;
            while s < overlay.children.len()
                invariant
                    records == records_of::<K, V, F>(*faulter),
                    index < nodes@.len(),
                    nodes@[index as int].overlay == overlay,
                    nodes@[0].overlay == root,
                    overlay.wf(),
                    s <= overlay.children@.len(),
                    partial_ok(nodes@, edges@, records, index as int, s as int),
                decreases overlay.children@.len() - s,
            {
                let unit: K::Unit = overlay.children[s].0;
                let ghost here = nodes@;
                let ghost listed_edges = edges@;
                match K::unit_to_token(unit) {
                    Some(label) => match resolve_overlay_child(&overlay.children[s].1, faulter) {
                        Some(child) => {
                            let position: usize = nodes.len();
                            nodes.push(
                                OverlaySnapshotCursorNode {
                                    is_final: child.is_final(),
                                    value: child.get_value(),
                                    overlay: child,
                                    edge_start: 0,
                                    edge_len: 0,
                                    parent: Some((index, label)),
                                },
                            );
                            let ghost added = nodes@.last();
                            edges.push((label, position));
                            proof {
                                lemma_partial_node(
                                    here,
                                    listed_edges,
                                    records,
                                    index as int,
                                    s as int,
                                );
                                let count: usize = edges.len();
                                assert(count == listed_edges.len() + 1);
                                let total: usize = nodes.len();
                                assert(total == here.len() + 1);
                                assert(nodes@[index as int] == here[index as int]);
                            }
                            let length: usize = nodes[index].edge_len;
                            nodes[index].edge_len = length + 1;
                            proof {
                                let node = *overlay;
                                lemma_slot(node, s as int);
                                lemma_add_child(
                                    here,
                                    listed_edges,
                                    nodes@,
                                    edges@,
                                    records,
                                    index as int,
                                    s as int,
                                    added,
                                    label,
                                );
                            }
                        },
                        None => {
                            proof {
                                lemma_skip_child(
                                    here,
                                    listed_edges,
                                    records,
                                    index as int,
                                    s as int,
                                );
                            }
                        },
                    },
                    None => {
                        proof {
                            lemma_skip_child(here, listed_edges, records, index as int, s as int);
                        }
                    },
                }
                s += 1;
            }
            proof {
                lemma_end_node(nodes@, edges@, records, index as int);
            }
            index += 1;
        }
        OverlaySnapshotCursorArena { nodes, edges }
    }
}

/// A label leads along its edge.
proof fn lemma_target<K: KeyEncoding, V: DictionaryValue>(
    arena: OverlaySnapshotCursorArena<K, V>,
    i: int,
    e: int,
)
    requires
        range_ok(arena.nodes@, arena.edges@, i),
        arena.nodes@[i].edge_start <= e < arena.nodes@[i].edge_start + arena.nodes@[i].edge_len,
    ensures
        arena.target(i, arena.edges@[e].0) == Some(arena.edges@[e].1 as int),
{
    let start = arena.nodes@[i].edge_start as int;
    let end = start + arena.nodes@[i].edge_len;
    let label = arena.edges@[e].0;
    let f = choose|f: int| start <= f < end && (#[trigger] arena.edges@[f]).0 == label;
    assert(start <= f < end && arena.edges@[f].0 == label);
    if f < e {
        assert(K::rank(K::token_unit(arena.edges@[f].0)) < K::rank(
            K::token_unit(arena.edges@[e].0),
        ));
    } else if e < f {
        assert(K::rank(K::token_unit(arena.edges@[e].0)) < K::rank(
            K::token_unit(arena.edges@[f].0),
        ));
    }
}

/// The units that a key is spelled with.
pub open spec fn key_path<K: KeyEncoding>(key: Seq<K::Token>) -> Seq<K::Unit> {
    Seq::new(key.len(), |i: int| K::token_unit(key[i]))
}

/// Following the key of a cursor leads back to the cursor.
pub proof fn cursor_follows_its_key<K: KeyEncoding, V: DictionaryValue>(
    arena: OverlaySnapshotCursorArena<K, V>,
    root: Arc<OverlayNode<K, V>>,
    records: Lookup<K::Unit, V>,
    i: int,
)
    requires
        arena.projects(root, records),
        0 <= i < arena.nodes@.len(),
    ensures
        arena.follow(arena.key(i)) == Some(i),
    decreases i,
{
    reveal(arena_ok);
    assert(node_ok(arena.nodes@, records, i));
    match arena.nodes@[i].parent {
        Some((p, label)) => {
            cursor_follows_its_key(arena, root, records, p as int);
            assert(arena.key(i).drop_last() =~= arena.key(p as int));
            assert(listed(arena.nodes@, arena.edges@, i));
            assert(range_ok(arena.nodes@, arena.edges@, p as int));
            let e = choose|e: int|
                arena.nodes@[p as int].edge_start <= e < arena.nodes@[p as int].edge_start
                    + arena.nodes@[p as int].edge_len && #[trigger] arena.edges@[e] == (
                    label,
                    i as usize,
                );
            lemma_target(arena, p as int, e);
        },
        None => {},
    }
}

/// Two cursors with one key are one cursor.
pub proof fn cursor_keys_are_distinct<K: KeyEncoding, V: DictionaryValue>(
    arena: OverlaySnapshotCursorArena<K, V>,
    root: Arc<OverlayNode<K, V>>,
    records: Lookup<K::Unit, V>,
    i: int,
    j: int,
)
    requires
        arena.projects(root, records),
        0 <= i < arena.nodes@.len(),
        0 <= j < arena.nodes@.len(),
        arena.key(i) == arena.key(j),
    ensures
        i == j,
{
    cursor_follows_its_key(arena, root, records, i);
    cursor_follows_its_key(arena, root, records, j);
}

/// The key of a cursor leads from the root to the node of the cursor, with its
/// finality and value.
pub proof fn cursor_key_leads_to_its_node<K: KeyEncoding, V: DictionaryValue>(
    arena: OverlaySnapshotCursorArena<K, V>,
    root: Arc<OverlayNode<K, V>>,
    records: Lookup<K::Unit, V>,
    i: int,
)
    requires
        arena.projects(root, records),
        0 <= i < arena.nodes@.len(),
    ensures
        reach_at(records, root@, key_path::<K>(arena.key(i))) == Some(arena.nodes@[i].overlay@),
        arena.nodes@[i].is_final == arena.nodes@[i].overlay@.is_final,
        arena.nodes@[i].value == arena.nodes@[i].overlay@.value,
    decreases i,
{
    reveal(arena_ok);
    assert(node_ok(arena.nodes@, records, i));
    match arena.nodes@[i].parent {
        Some((p, label)) => {
            cursor_key_leads_to_its_node(arena, root, records, p as int);
            let key = arena.key(i);
            assert(key_path::<K>(key).drop_last() =~= key_path::<K>(arena.key(p as int)));
            assert(key_path::<K>(key).last() == K::token_unit(label));
        },
        None => {
            assert(key_path::<K>(arena.key(i)) =~= Seq::empty());
        },
    }
}

/// The node at the end of a path whose children can all be had.
pub open spec fn had_at<U, V>(records: Lookup<U, V>, tree: Tree<U, V>, path: Seq<U>) -> Option<
    Tree<U, V>,
>
    decreases path.len(),
{
    if path.len() == 0 {
        Some(tree)
    } else {
        match had_at(records, tree, path.drop_last()) {
            Some(node) => if kid(node, path.last()) matches Some(branch) && owed(records, branch) {
                reach_kid(records, node, path.last())
            } else {
                None
            },
            None => None,
        }
    }
}

/// Every node that can be had has a cursor: following the key of a path over resident
/// children and durable ones that could be loaded finds the node at its end.
pub proof fn nodes_that_can_be_had_have_cursors<K: KeyEncoding, V: DictionaryValue>(
    arena: OverlaySnapshotCursorArena<K, V>,
    root: Arc<OverlayNode<K, V>>,
    records: Lookup<K::Unit, V>,
    key: Seq<K::Token>,
)
    requires
        arena.projects(root, records),
        had_at(records, root@, key_path::<K>(key)) is Some,
    ensures
        arena.follow(key) matches Some(i) && 0 <= i < arena.nodes@.len()
            && arena.nodes@[i].overlay@ == had_at(records, root@, key_path::<K>(key))->0,
    decreases key.len(),
{
    reveal(arena_ok);
    if key.len() > 0 {
        let path = key_path::<K>(key);
        let above = key.drop_last();
        let unit = K::token_unit(key.last());
        assert(path.drop_last() =~= key_path::<K>(above));
        assert(path.last() == unit);
        nodes_that_can_be_had_have_cursors(arena, root, records, above);
        let p = arena.follow(above)->0;
        let node = *arena.nodes@[p].overlay;
        assert(node_ok(arena.nodes@, records, p));
        assert(range_ok(arena.nodes@, arena.edges@, p));
        assert(kid(node@, unit) is Some && owed(records, kid(node@, unit)->0));
        let t = choose|t: int| 0 <= t < node.children@.len() && #[trigger] node.children@[t].0 == unit;
        lemma_slot(node, t);
        assert(spelled::<K>(unit));
        assert(range_complete(arena.nodes@, arena.edges@, records, p, node.children@.len() as int));
        assert(owed(records, arena.nodes@[p].overlay.children@[t].1.branch()));
        assert(range_has(arena.nodes@, arena.edges@, p, unit));
        let e = choose|e: int|
            arena.nodes@[p].edge_start <= e < arena.nodes@[p].edge_start + arena.nodes@[p].edge_len
                && K::token_unit((#[trigger] arena.edges@[e]).0) == unit;
        K::token_injective(arena.edges@[e].0, key.last());
        lemma_target(arena, p, e);
        assert(edge_ok(arena.nodes@, arena.edges@, p, e));
        let i = arena.edges@[e].1 as int;
        assert(node_ok(arena.nodes@, records, i));
    } else {
        assert(key_path::<K>(key) =~= Seq::empty());
    }
}

} // verus!
