//! A handle on one overlay node, through which a dictionary is traversed.

use std::sync::Arc;
use vstd::prelude::*;
use crate::key_encoding::KeyEncoding;
use crate::shared::share;
use crate::value::{duplicate_option, DictionaryValue};
use super::cursor_arena::{
    arena_ok, node_ok, owed, range_ok, reach_kid, records_of, resolve_overlay_child, spelled,
    OverlaySnapshotCursorArena,
};
use super::faulter::{MemoryRecords, OverlayFaulter};
use super::model::kid;
use super::node::{lemma_slot, Branch, Child, OverlayNode};

verus! {

/// A cursor into the projection of one root.
#[derive(Clone, Copy, Debug, PartialEq, Eq, Structural)]
pub struct SnapshotTraversalCursor {
    pub index: usize,
}

impl SnapshotTraversalCursor {
    /// The cursor with an index. The largest index is not a cursor.
    pub fn from_index(index: usize) -> (r: Option<Self>)
        ensures
            r == (if index < usize::MAX {
                Some(SnapshotTraversalCursor { index })
            } else {
                None
            }),
    {
        if index < usize::MAX {
            Some(SnapshotTraversalCursor { index })
        } else {
            None
        }
    }

    /// The index of a cursor.
    pub fn index(&self) -> (r: usize)
        ensures
            r == self.index,
    {
        self.index
    }
}

/// A handle on one overlay node. Durable children are loaded through the faulter;
/// without one only resident children are visible. The projection is made when a
/// cursor is first asked for.
pub struct OverlayDictionaryNode<
    K: KeyEncoding,
    V: DictionaryValue = (),
    F: OverlayFaulter<K, V> = MemoryRecords<K, V>,
> {
    pub overlay: Option<Arc<OverlayNode<K, V>>>,
    pub overlay_faulter: Option<Arc<F>>,
    pub snapshot_cursor_arena: Option<Arc<OverlaySnapshotCursorArena<K, V>>>,
}

/// Another handle to a faulter.
fn alias_faulter<F>(faulter: &Option<Arc<F>>) -> (r: Option<Arc<F>>)
    ensures
        r == *faulter,
{
    match faulter {
        Some(faulter) => Some(share(faulter)),
        None => None,
    }
}

impl<K: KeyEncoding, V: DictionaryValue, F: OverlayFaulter<K, V>> OverlayDictionaryNode<K, V, F> {
    /// The node is well formed, and the projection, if there is one, is that of the
    /// node.
    pub open spec fn wf(self) -> bool {
        match self.overlay {
            Some(node) => node.wf() && (self.snapshot_cursor_arena matches Some(arena)
                ==> arena.projects(node, records_of::<K, V, F>(self.overlay_faulter))),
            None => self.snapshot_cursor_arena is None,
        }
    }

    /// The cursor belongs to the projection of this handle.
    pub open spec fn holds(self, cursor: SnapshotTraversalCursor) -> bool {
        self.snapshot_cursor_arena matches Some(arena) && cursor.index < arena.nodes@.len()
    }

    /// The projection of this handle.
    pub open spec fn arena(self) -> OverlaySnapshotCursorArena<K, V> {
        *self.snapshot_cursor_arena->0
    }

    /// The child of this node at an edge, if it can be had.
    pub open spec fn child_at(self, unit: K::Unit) -> Option<super::node::Tree<K::Unit, V>> {
        match self.overlay {
            Some(node) => reach_kid(
                records_of::<K, V, F>(self.overlay_faulter),
                node@,
                unit,
            ),
            None => None,
        }
    }

    /// A handle on a root.
    pub fn from_overlay_root(node: Arc<OverlayNode<K, V>>, overlay_faulter: Option<Arc<F>>) -> (r:
        Self)
        requires
            node.wf(),
        ensures
            r.wf(),
            r.overlay == Some(node),
            r.overlay_faulter == overlay_faulter,
            r.snapshot_cursor_arena is None,
    {
        OverlayDictionaryNode { overlay: Some(node), overlay_faulter, snapshot_cursor_arena: None }
    }

    /// A handle on an inner node. Its projection starts anew, so its keys do not
    /// hold the labels above it.
    pub fn from_overlay_node(node: Arc<OverlayNode<K, V>>, overlay_faulter: Option<Arc<F>>) -> (r:
        Self)
        requires
            node.wf(),
        ensures
            r.wf(),
            r.overlay == Some(node),
            r.overlay_faulter == overlay_faulter,
            r.snapshot_cursor_arena is None,
    {
        OverlayDictionaryNode { overlay: Some(node), overlay_faulter, snapshot_cursor_arena: None }
    }

    /// Another handle on the node, which shares the projection.
    pub fn alias(&self) -> (r: Self)
        ensures
            r == *self,
    {
        OverlayDictionaryNode {
            overlay: match &self.overlay {
                Some(node) => Some(share(node)),
                None => None,
            },
            overlay_faulter: alias_faulter(&self.overlay_faulter),
            snapshot_cursor_arena: match &self.snapshot_cursor_arena {
                Some(arena) => Some(share(arena)),
                None => None,
            },
        }
    }

    /// A handle on a child, if it can be had.
    pub fn overlay_child_node(child: &Child<K, V>, overlay_faulter: &Option<Arc<F>>) -> (r: Option<
        Self,
    >)
        requires
            child matches Child::InMem(node) ==> node.wf(),
        ensures
            r matches Some(handle) ==> {
                &&& handle.wf()
                &&& handle.overlay is Some
                &&& handle.overlay_faulter == *overlay_faulter
                &&& handle.snapshot_cursor_arena is None
            },
            match *child {
                Child::InMem(node) => (r matches Some(handle) && handle.overlay == Some(node)),
                Child::OnDisk(ptr) => {
                    &&& ptr.raw == 0 || *overlay_faulter is None ==> r is None
                    &&& r matches Some(handle) ==> handle.overlay->0@ == (records_of::<K, V, F>(
                        *overlay_faulter,
                    ).records->0)(ptr)
                    &&& r is None ==> (records_of::<K, V, F>(*overlay_faulter).missed)(ptr)
                },
            },
    {
        match resolve_overlay_child(child, overlay_faulter) {
            Some(node) => Some(Self::from_overlay_node(node, alias_faulter(overlay_faulter))),
            None => None,
        }
    }

    /// The cursor of this node. Makes the projection if there is none.
    pub fn snapshot_root_cursor(&mut self) -> (r: Option<SnapshotTraversalCursor>)
        requires
            old(self).wf(),
        ensures
            final(self).wf(),
            final(self).overlay == old(self).overlay,
            final(self).overlay_faulter == old(self).overlay_faulter,
            old(self).snapshot_cursor_arena is Some ==> *final(self) == *old(self),
            match r {
                Some(cursor) => {
                    &&& old(self).overlay is Some
                    &&& cursor.index == 0
                    &&& final(self).holds(cursor)
                },
                None => old(self).overlay is None,
            },
    {
        let node: Arc<OverlayNode<K, V>> = match &self.overlay {
            Some(node) => share(node),
            None => {
                return None;
            },
        };
        if self.snapshot_cursor_arena.is_none() {
            let arena = OverlaySnapshotCursorArena::build(share(&node), &self.overlay_faulter);
            self.snapshot_cursor_arena = Some(Arc::new(arena));
        }
        proof {
            reveal(arena_ok);
        }
        SnapshotTraversalCursor::from_index(0)
    }

    /// Whether a cursor would have to make the projection first.
    pub fn snapshot_cursor_requires_full_projection(&self) -> (r: bool)
        ensures
            r == (self.snapshot_cursor_arena is None),
    {
        self.snapshot_cursor_arena.is_none()
    }

    /// Whether a cursor belongs to the projection.
    pub fn contains_snapshot_cursor(&self, cursor: SnapshotTraversalCursor) -> (r: bool)
        ensures
            r == self.holds(cursor),
    {
        match &self.snapshot_cursor_arena {
            Some(arena) => cursor.index < arena.nodes.len(),
            None => false,
        }
    }

    /// Cursors can be turned into handles.
    pub fn supports_snapshot_cursor_nodes(&self) -> (r: bool)
        ensures
            r,
    {
        true
    }

    /// Cursors know their keys.
    pub fn supports_snapshot_cursor_key_units(&self) -> (r: bool)
        ensures
            r,
    {
        true
    }

    /// Cursors know their values.
    pub fn supports_snapshot_cursor_values(&self) -> (r: bool)
        ensures
            r,
    {
        true
    }

    /// The edges of a cursor can be read in pages.
    pub fn supports_efficient_snapshot_cursor_edge_paging(&self) -> (r: bool)
        ensures
            r,
    {
        true
    }

    /// The labels from the root to a cursor.
    pub fn snapshot_cursor_key_units(&self, cursor: SnapshotTraversalCursor) -> (r: Option<
        Vec<K::Token>,
    >)
        requires
            self.wf(),
        ensures
            match r {
                Some(key) => self.holds(cursor) && key@ == self.arena().key(cursor.index as int),
                None => !self.holds(cursor),
            },
    {
        match &self.snapshot_cursor_arena {
            Some(arena) => {
                if cursor.index >= arena.nodes.len() {
                    return None;
                }
                proof {
                    reveal(arena_ok);
                    let records = records_of::<K, V, F>(self.overlay_faulter);
                    assert forall|i: int| 0 <= i < arena.nodes@.len() implies ((
                    #[trigger] arena.nodes@[i]).parent matches Some((p, _)) ==> p < i) by {
                        assert(node_ok(arena.nodes@, records, i));
                    }
                }
                Some(arena.key_units(cursor.index))
            },
            None => None,
        }
    }

    /// A handle on the node of a cursor.
    pub fn snapshot_cursor_node(&self, cursor: SnapshotTraversalCursor) -> (r: Option<Self>)
        requires
            self.wf(),
        ensures
            match r {
                Some(handle) => {
                    &&& self.holds(cursor)
                    &&& handle.wf()
                    &&& handle.overlay == Some(
                        self.arena().nodes@[cursor.index as int].overlay,
                    )
                    &&& handle.overlay_faulter == self.overlay_faulter
                    &&& handle.snapshot_cursor_arena is None
                },
                None => !self.holds(cursor),
            },
    {
        match &self.snapshot_cursor_arena {
            Some(arena) => {
                if cursor.index >= arena.nodes.len() {
                    return None;
                }
                proof {
                    reveal(arena_ok);
                    assert(node_ok(
                        arena.nodes@,
                        records_of::<K, V, F>(self.overlay_faulter),
                        cursor.index as int,
                    ));
                }
                Some(
                    Self::from_overlay_node(
                        share(&arena.nodes[cursor.index].overlay),
                        alias_faulter(&self.overlay_faulter),
                    ),
                )
            },
            None => None,
        }
    }

    /// Whether the key of a cursor is a term.
    pub fn snapshot_cursor_is_final(&self, cursor: SnapshotTraversalCursor) -> (r: Option<bool>)
        ensures
            r == (if self.holds(cursor) {
                Some(self.arena().nodes@[cursor.index as int].is_final)
            } else {
                None
            }),
    {
        match &self.snapshot_cursor_arena {
            Some(arena) => if cursor.index < arena.nodes.len() {
                Some(arena.nodes[cursor.index].is_final)
            } else {
                None
            },
            None => None,
        }
    }

    /// The value of the key of a cursor.
    pub fn snapshot_cursor_value(&self, cursor: SnapshotTraversalCursor) -> (r: Option<Option<V>>)
        ensures
            r == (if self.holds(cursor) {
                Some(self.arena().nodes@[cursor.index as int].value)
            } else {
                None
            }),
    {
        match &self.snapshot_cursor_arena {
            Some(arena) => if cursor.index < arena.nodes.len() {
                Some(duplicate_option(&arena.nodes[cursor.index].value))
            } else {
                None
            },
            None => None,
        }
    }

    /// The cursor that a label leads to.
    pub fn snapshot_cursor_transition(&self, cursor: SnapshotTraversalCursor, wanted: K::Token) -> (r:
        Option<Option<SnapshotTraversalCursor>>)
        requires
            self.wf(),
        ensures
            match r {
                Some(Some(child)) => self.holds(cursor) && self.holds(child)
                    && self.arena().target(cursor.index as int, wanted) == Some(child.index as int),
                Some(None) => self.holds(cursor) && self.arena().target(
                    cursor.index as int,
                    wanted,
                ) is None,
                None => !self.holds(cursor),
            },
    {
        match &self.snapshot_cursor_arena {
            Some(arena) => {
                if cursor.index >= arena.nodes.len() {
                    return None;
                }
                proof {
                    reveal(arena_ok);
                    assert(range_ok(arena.nodes@, arena.edges@, cursor.index as int));
                }
                match arena.find_edge(cursor.index, wanted) {
                    Some(child) => {
                        proof {
                            lemma_target_in_range(self.arena(), cursor.index as int, wanted);
                            let count: usize = arena.nodes.len();
                            assert(child < count);
                        }
                        Some(SnapshotTraversalCursor::from_index(child))
                    },
                    None => Some(None),
                }
            },
            None => None,
        }
    }

    /// A part of the edges of a cursor, with its finality and the number of all its
    /// edges. The part starts at `start` and holds at most `capacity` edges.
    pub fn visit_snapshot_cursor_edge_page(
        &self,
        cursor: SnapshotTraversalCursor,
        start: usize,
        capacity: usize,
    ) -> (r: Option<(Vec<(K::Token, SnapshotTraversalCursor)>, bool, usize)>)
        requires
            self.wf(),
        ensures
            match r {
                Some((page, is_final, total)) => {
                    let edges = self.arena().edge_list(cursor.index as int);
                    let end = if start + capacity < edges.len() {
                        start + capacity
                    } else {
                        edges.len() as int
                    };
                    &&& self.holds(cursor)
                    &&& is_final == self.arena().nodes@[cursor.index as int].is_final
                    &&& total == edges.len()
                    &&& page@.len() == (if start < end {
                        end - start
                    } else {
                        0
                    })
                    &&& forall|i: int|
                        0 <= i < page@.len() ==> (#[trigger] page@[i]).0 == edges[start + i].0
                            && page@[i].1.index == edges[start + i].1
                },
                None => !self.holds(cursor),
            },
    {
        match &self.snapshot_cursor_arena {
            Some(arena) => {
                if cursor.index >= arena.nodes.len() {
                    return None;
                }
                proof {
                    reveal(arena_ok);
                    assert(range_ok(arena.nodes@, arena.edges@, cursor.index as int));
                }
                let node = &arena.nodes[cursor.index];
                let total: usize = node.edge_len;
                let first: usize = node.edge_start;
                let count: usize = arena.edges.len();
                assert(first + total <= count);
                let wanted: usize = start.saturating_add(capacity);
                let end: usize = if wanted < total {
                    wanted
                } else {
                    total
                };
                let mut page: Vec<(K::Token, SnapshotTraversalCursor)> = Vec::new();
                let ghost edges = self.arena().edge_list(cursor.index as int);
                let mut i: usize = start;
                while i < end
                    invariant
                        first + total <= count,
                        count == arena.edges@.len(),
                        end <= total,
                        start < end ==> start <= i <= end,
                        start >= end ==> i == start,
                        edges == arena.edges@.subrange(first as int, first + total),
                        page@.len() == i - start,
                        forall|k: int|
                            0 <= k < page@.len() ==> (#[trigger] page@[k]).0 == edges[start + k].0
                                && page@[k].1.index == edges[start + k].1,
                    decreases end - i,
                {
                    let (label, child) = arena.edges[first + i];
                    page.push((label, SnapshotTraversalCursor { index: child }));
                    i += 1;
                }
                Some((page, node.is_final, total))
            },
            None => None,
        }
    }

    /// The edges of a cursor that a projection accepts, in the order of their
    /// labels, and the finality of the cursor.
    pub fn filter_map_snapshot_cursor_edges_and_finality<T, P: Fn(K::Token) -> Option<T>>(
        &self,
        cursor: SnapshotTraversalCursor,
        project: P,
    ) -> (r: Option<(Vec<(K::Token, SnapshotTraversalCursor, T)>, bool)>)
        requires
            self.wf(),
            forall|label: K::Token| call_requires(project, (label,)),
        ensures
            match r {
                Some((found, is_final)) => {
                    let edges = self.arena().edge_list(cursor.index as int);
                    &&& self.holds(cursor)
                    &&& is_final == self.arena().nodes@[cursor.index as int].is_final
                    &&& filtered(project, edges, found@)
                },
                None => !self.holds(cursor),
            },
    {
        match &self.snapshot_cursor_arena {
            Some(arena) => {
                if cursor.index >= arena.nodes.len() {
                    return None;
                }
                proof {
                    reveal(arena_ok);
                    assert(range_ok(arena.nodes@, arena.edges@, cursor.index as int));
                }
                let node = &arena.nodes[cursor.index];
                let total: usize = node.edge_len;
                let first: usize = node.edge_start;
                let count: usize = arena.edges.len();
                assert(first + total <= count);
                let ghost edges = self.arena().edge_list(cursor.index as int);
                let mut found: Vec<(K::Token, SnapshotTraversalCursor, T)> = Vec::new();
                let mut i: usize = 0;
                assert(edges.take(0) =~= Seq::empty());
                while i < total
                    invariant
                        forall|label: K::Token| call_requires(project, (label,)),
                        first + total <= count,
                        count == arena.edges@.len(),
                        i <= total,
                        edges == arena.edges@.subrange(first as int, first + total),
                        filtered(project, edges.take(i as int), found@),
                    decreases total - i,
                {
                    let (label, child) = arena.edges[first + i];
                    let ghost shorter = edges.take(i as int);
                    let ghost longer = edges.take(i + 1);
                    let ghost before = found@;
                    proof {
                        assert(longer.drop_last() =~= shorter);
                        assert(longer.last() == (label, child));
                    }
                    match project(label) {
                        Some(projected) => {
                            found.push((label, SnapshotTraversalCursor { index: child }, projected));
                            assert(found@.drop_last() =~= before);
                        },
                        None => {},
                    }
                    i += 1;
                }
                assert(edges.take(total as int) =~= edges);
                Some((found, node.is_final))
            },
            None => None,
        }
    }

    /// Whether the path to this node is a term.
    pub fn is_final(&self) -> (r: bool)
        ensures
            r == (self.overlay matches Some(node) && node@.is_final),
    {
        match &self.overlay {
            Some(node) => node.is_final(),
            None => false,
        }
    }

    /// The value of this node.
    pub fn value(&self) -> (r: Option<V>)
        ensures
            r == match self.overlay {
                Some(node) => node@.value,
                None => None,
            },
    {
        match &self.overlay {
            Some(node) => node.get_value(),
            None => None,
        }
    }

    /// The number of child slots.
    pub fn edge_count(&self) -> (r: Option<usize>)
        requires
            self.wf(),
        ensures
            match r {
                Some(count) => self.overlay matches Some(node) && count == node@.kids.len(),
                None => self.overlay is None,
            },
    {
        match &self.overlay {
            Some(node) => Some(node.num_children()),
            None => None,
        }
    }

    /// The child that a label leads to. A durable child is loaded; `None` also
    /// stands for one that could not be.
    pub fn transition(&self, label: K::Token) -> (r: Option<Self>)
        requires
            self.wf(),
        ensures
            match r {
                Some(child) => {
                    &&& child.wf()
                    &&& child.overlay_faulter == self.overlay_faulter
                    &&& child.snapshot_cursor_arena is None
                    &&& child.overlay matches Some(node) && self.child_at(K::token_unit(label))
                        == Some(node@)
                },
                None => match self.overlay {
                    Some(node) => kid(node@, K::token_unit(label)) matches Some(branch) ==> !owed(
                        records_of::<K, V, F>(self.overlay_faulter),
                        branch,
                    ),
                    None => true,
                },
            },
    {
        match &self.overlay {
            Some(node) => match node.find_child(K::token_to_unit(label)) {
                Some(child) => Self::overlay_child_node(child, &self.overlay_faulter),
                None => None,
            },
            None => None,
        }
    }

    /// The children, in the order of their labels. Children that cannot be spelled
    /// and durable children that cannot be loaded are left out.
    pub fn edges(&self) -> (r: Vec<(K::Token, Self)>)
        requires
            self.wf(),
        ensures
            self.overlay is None ==> r@.len() == 0,
            forall|i: int|
                0 <= i < r@.len() ==> {
                    let (label, child) = #[trigger] r@[i];
                    &&& child.wf()
                    &&& child.overlay is Some
                    &&& child.overlay_faulter == self.overlay_faulter
                    &&& self.child_at(K::token_unit(label)) == Some(child.overlay->0@)
                },
            forall|i: int, j: int|
                0 <= i < j < r@.len() ==> K::rank(K::token_unit((#[trigger] r@[i]).0)) < K::rank(
                    K::token_unit((#[trigger] r@[j]).0),
                ),
            self.overlay matches Some(node) ==> forall|unit: K::Unit|
                (#[trigger] kid(node@, unit) matches Some(branch) && owed(
                    records_of::<K, V, F>(self.overlay_faulter),
                    branch,
                )) && spelled::<K>(unit)
                    ==> exists|i: int|
                    0 <= i < r@.len() && K::token_unit((#[trigger] r@[i]).0) == unit,
    {
        let mut r: Vec<(K::Token, Self)> = Vec::new();
        match &self.overlay {
            Some(node) => {
                let mut s: usize = 0;
                while s < node.children.len()
                    invariant
                        self.wf(),
                        self.overlay == Some(*node),
                        node.wf(),
                        s <= node.children@.len(),
                        forall|i: int|
                            0 <= i < r@.len() ==> {
                                let (label, child) = #[trigger] r@[i];
                                &&& child.wf()
                                &&& child.overlay is Some
                                &&& child.overlay_faulter == self.overlay_faulter
                                &&& self.child_at(K::token_unit(label)) == Some(child.overlay->0@)
                            },
                        forall|i: int, j: int|
                            0 <= i < j < r@.len() ==> K::rank(
                                K::token_unit((#[trigger] r@[i]).0),
                            ) < K::rank(K::token_unit((#[trigger] r@[j]).0)),
                        forall|i: int, t: int|
                            0 <= i < r@.len() && s <= t < node.children@.len() ==> K::rank(
                                K::token_unit((#[trigger] r@[i]).0),
                            ) < K::rank((#[trigger] node.children@[t]).0),
                        forall|t: int|
                            0 <= t < s && owed(
                                records_of::<K, V, F>(self.overlay_faulter),
                                (#[trigger] node.children@[t]).1.branch(),
                            ) && spelled::<K>(
                                node.children@[t].0,
                            ) ==> exists|i: int|
                                0 <= i < r@.len() && K::token_unit((#[trigger] r@[i]).0)
                                    == node.children@[t].0,
                    decreases node.children@.len() - s,
                {
                    let ghost before = r@;
                    let unit: K::Unit = node.children[s].0;
                    proof {
                        let content = **node;
                        lemma_slot(content, s as int);
                    }
                    match K::unit_to_token(unit) {
                        Some(label) => match Self::overlay_child_node(
                            &node.children[s].1,
                            &self.overlay_faulter,
                        ) {
                            Some(child) => {
                                r.push((label, child));
                                proof {
                                    assert(r@[before.len() as int].0 == label);
                                    assert forall|i: int| 0 <= i < before.len() implies #[trigger] r@[i]
                                        == before[i] by {}
                                    assert forall|t: int|
                                        0 <= t < s + 1 && owed(
                                records_of::<K, V, F>(self.overlay_faulter),
                                (#[trigger] node.children@[t]).1.branch(),
                            )
                                            && spelled::<K>(node.children@[t].0) implies exists|i: int|
                                        0 <= i < r@.len() && K::token_unit((#[trigger] r@[i]).0)
                                            == node.children@[t].0 by {
                                        if t < s {
                                            let i = choose|i: int|
                                                0 <= i < before.len() && K::token_unit(
                                                    (#[trigger] before[i]).0,
                                                ) == node.children@[t].0;
                                            assert(r@[i] == before[i]);
                                        }
                                    }
                                }
                            },
                            None => {},
                        },
                        None => {},
                    }
                    s += 1;
                }
                proof {
                    assert forall|unit: K::Unit|
                        (#[trigger] kid(node@, unit) matches Some(branch) && owed(
                    records_of::<K, V, F>(self.overlay_faulter),
                    branch,
                )) && spelled::<
                            K,
                        >(unit) implies exists|i: int|
                        0 <= i < r@.len() && K::token_unit((#[trigger] r@[i]).0) == unit by {
                        let content = **node;
                        let t = choose|t: int|
                            0 <= t < content.children@.len() && #[trigger] content.children@[t].0
                                == unit;
                        lemma_slot(content, t);
                    }
                }
            },
            None => {},
        }
        r
    }
}

impl<K: KeyEncoding, V: DictionaryValue, F: OverlayFaulter<K, V>> OverlayDictionaryNode<K, V, F> {
    /// The children whose labels a projection accepts, in the order of their labels.
    /// A durable child is loaded only then.
    pub fn filter_map_edges<T, P: Fn(K::Token) -> Option<T>>(&self, project: P) -> (r: Vec<
        (K::Token, Self, T),
    >)
        requires
            self.wf(),
            forall|label: K::Token| call_requires(project, (label,)),
        ensures
            self.overlay is None ==> r@.len() == 0,
            forall|i: int|
                0 <= i < r@.len() ==> {
                    let (label, child, projected) = #[trigger] r@[i];
                    &&& call_ensures(project, (label,), Some(projected))
                    &&& child.wf()
                    &&& child.overlay is Some
                    &&& child.overlay_faulter == self.overlay_faulter
                    &&& self.child_at(K::token_unit(label)) == Some(child.overlay->0@)
                },
            forall|i: int, j: int|
                0 <= i < j < r@.len() ==> K::rank(K::token_unit((#[trigger] r@[i]).0)) < K::rank(
                    K::token_unit((#[trigger] r@[j]).0),
                ),
            self.overlay matches Some(node) ==> forall|token: K::Token|
                (#[trigger] kid(node@, K::token_unit(token)) matches Some(branch) && owed(
                    records_of::<K, V, F>(self.overlay_faulter),
                    branch,
                ))
                    ==> call_ensures(project, (token,), None) || exists|i: int|
                    0 <= i < r@.len() && (#[trigger] r@[i]).0 == token,
    {
        let mut r: Vec<(K::Token, Self, T)> = Vec::new();
        match &self.overlay {
            Some(node) => {
                let mut s: usize = 0;
                while s < node.children.len()
                    invariant
                        self.wf(),
                        self.overlay == Some(*node),
                        node.wf(),
                        forall|label: K::Token| call_requires(project, (label,)),
                        s <= node.children@.len(),
                        forall|i: int|
                            0 <= i < r@.len() ==> {
                                let (label, child, projected) = #[trigger] r@[i];
                                &&& call_ensures(project, (label,), Some(projected))
                                &&& child.wf()
                                &&& child.overlay is Some
                                &&& child.overlay_faulter == self.overlay_faulter
                                &&& self.child_at(K::token_unit(label)) == Some(child.overlay->0@)
                            },
                        forall|i: int, j: int|
                            0 <= i < j < r@.len() ==> K::rank(
                                K::token_unit((#[trigger] r@[i]).0),
                            ) < K::rank(K::token_unit((#[trigger] r@[j]).0)),
                        forall|i: int, t: int|
                            0 <= i < r@.len() && s <= t < node.children@.len() ==> K::rank(
                                K::token_unit((#[trigger] r@[i]).0),
                            ) < K::rank((#[trigger] node.children@[t]).0),
                        forall|t: int, label: K::Token|
                            0 <= t < s && owed(
                                records_of::<K, V, F>(self.overlay_faulter),
                                (#[trigger] node.children@[t]).1.branch(),
                            )
                                && node.children@[t].0 == #[trigger] K::token_unit(label)
                                ==> call_ensures(project, (label,), None) || exists|i: int|
                                0 <= i < r@.len() && (#[trigger] r@[i]).0 == label,
                    decreases node.children@.len() - s,
                {
                    let ghost before = r@;
                    let unit: K::Unit = node.children[s].0;
                    proof {
                        let content = **node;
                        lemma_slot(content, s as int);
                    }
                    match K::unit_to_token(unit) {
                        Some(token) => {
                            match project(token) {
                                Some(projected) => match Self::overlay_child_node(
                                    &node.children[s].1,
                                    &self.overlay_faulter,
                                ) {
                                    Some(child) => {
                                        r.push((token, child, projected));
                                    },
                                    None => {},
                                },
                                None => {},
                            }
                            proof {
                                assert forall|t: int, label: K::Token|
                                    0 <= t < s + 1 && owed(
                                records_of::<K, V, F>(self.overlay_faulter),
                                (#[trigger] node.children@[t]).1.branch(),
                            )
                                        && node.children@[t].0 == #[trigger] K::token_unit(
                                        label,
                                    ) implies call_ensures(project, (label,), None) || exists|i:
                                    int|
                                    0 <= i < r@.len() && (#[trigger] r@[i]).0 == label by {
                                    if t < s {
                                        if !call_ensures(project, (label,), None) {
                                            let i = choose|i: int|
                                                0 <= i < before.len() && (#[trigger] before[i]).0
                                                    == label;
                                            assert(r@[i] == before[i]);
                                        }
                                    } else {
                                        K::token_injective(label, token);
                                        if r@.len() > before.len() {
                                            assert(r@[before.len() as int].0 == label);
                                        }
                                    }
                                }
                            }
                        },
                        None => {},
                    }
                    s += 1;
                }
                proof {
                    assert forall|label: K::Token|
                        (#[trigger] kid(node@, K::token_unit(label)) matches Some(Branch::InMem(
                            _,
                        ))) implies call_ensures(project, (label,), None) || exists|i: int|
                        0 <= i < r@.len() && (#[trigger] r@[i]).0 == label by {
                        let content = **node;
                        let t = choose|t: int|
                            0 <= t < content.children@.len() && #[trigger] content.children@[t].0
                                == K::token_unit(label);
                        lemma_slot(content, t);
                    }
                }
            },
            None => {},
        }
        r
    }
}

/// The edges that a projection accepts, with what it made of their labels.
pub open spec fn filtered<L, T, P: Fn(L) -> Option<T>>(
    project: P,
    edges: Seq<(L, usize)>,
    found: Seq<(L, SnapshotTraversalCursor, T)>,
) -> bool
    decreases edges.len(),
{
    if edges.len() == 0 {
        found.len() == 0
    } else {
        let (label, child) = edges.last();
        ||| {
            &&& call_ensures(project, (label,), None)
            &&& filtered(project, edges.drop_last(), found)
        }
        ||| {
            &&& found.len() > 0
            &&& found.last().0 == label
            &&& found.last().1.index == child
            &&& call_ensures(project, (label,), Some(found.last().2))
            &&& filtered(project, edges.drop_last(), found.drop_last())
        }
    }
}

/// A label leads to a node of the projection.
proof fn lemma_target_in_range<K: KeyEncoding, V: DictionaryValue>(
    arena: OverlaySnapshotCursorArena<K, V>,
    i: int,
    label: K::Token,
)
    requires
        range_ok(arena.nodes@, arena.edges@, i),
        arena.target(i, label) is Some,
    ensures
        0 <= arena.target(i, label)->0 < arena.nodes@.len(),
{
    let start = arena.nodes@[i].edge_start as int;
    let end = start + arena.nodes@[i].edge_len;
    let e = choose|e: int| start <= e < end && (#[trigger] arena.edges@[e]).0 == label;
    assert(super::cursor_arena::edge_ok(arena.nodes@, arena.edges@, i, e));
}

} // verus!
