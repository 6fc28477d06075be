//! How a serializer treats resident nodes that several parents share.

use std::collections::HashMap;
use std::sync::Arc;
use vstd::prelude::*;
use crate::error::{no_room, reserve_entries, PersistentARTrieError, TrieResult};
use crate::key_encoding::KeyEncoding;
use crate::registry::RegistryBuilderSubtree;
use crate::shared::{handle_address, same_handle, share, told_address, told_same};
use crate::swizzled_ptr::SwizzledPtr;
use crate::value::DictionaryValue;
use super::model::{at, kid, lemma_at_concat};
use super::node::{
    lemma_child_steps, lemma_kids_steps_monotone, lemma_slot, Branch, Child, OverlayNode, Tree,
};

verus! {

broadcast use vstd::std_specs::hash::group_hash_axioms;

/// A finished node: its record, and the span of its registered paths.
#[derive(Clone, Copy, Debug, PartialEq, Eq, Structural)]
pub struct CompletedSubtree {
    pub disk_ptr: SwizzledPtr,
    pub registry_span: Option<RegistryBuilderSubtree>,
}

/// How far a shared node has come.
#[derive(Clone, Copy, Debug, PartialEq, Eq, Structural)]
pub enum NodeBuildState {
    Unseen,
    Active,
    Complete(CompletedSubtree),
}

/// The state that a node is finished from.
#[derive(Clone, Copy, Debug, PartialEq, Eq, Structural)]
pub enum ExpectedBuildState {
    Unseen,
    Active,
}

/// The state after activation. Only an unseen node can be activated.
pub fn activated(state: NodeBuildState) -> (r: TrieResult<NodeBuildState>)
    ensures
        match r {
            Ok(next) => state == NodeBuildState::Unseen && next == NodeBuildState::Active,
            Err(e) => state != NodeBuildState::Unseen && e is InternalError,
        },
{
    match state {
        NodeBuildState::Unseen => Ok(NodeBuildState::Active),
        NodeBuildState::Active => Err(
            PersistentARTrieError::internal(
                "compressed serializer activated an already-active DAG node",
            ),
        ),
        NodeBuildState::Complete(_) => Err(
            PersistentARTrieError::internal(
                "compressed serializer activated an already-completed DAG node",
            ),
        ),
    }
}

/// The state after completion, from the state that the caller expects.
pub fn completed(
    state: NodeBuildState,
    expected: ExpectedBuildState,
    subtree: CompletedSubtree,
) -> (r: TrieResult<NodeBuildState>)
    ensures
        ({
            let legal = (state == NodeBuildState::Unseen && expected == ExpectedBuildState::Unseen)
                || (state == NodeBuildState::Active && expected == ExpectedBuildState::Active);
            match r {
                Ok(next) => legal && next == NodeBuildState::Complete(subtree),
                Err(e) => !legal && e is InternalError,
            }
        }),
{
    match (state, expected) {
        (NodeBuildState::Unseen, ExpectedBuildState::Unseen) => Ok(
            NodeBuildState::Complete(subtree),
        ),
        (NodeBuildState::Active, ExpectedBuildState::Active) => Ok(
            NodeBuildState::Complete(subtree),
        ),
        _ => Err(
            PersistentARTrieError::internal(
                "compressed serializer completed a DAG node from an invalid build state",
            ),
        ),
    }
}

/// Marks the policies of this crate.
pub trait Sealed {

}

/// What a serializer asks about sharing. A policy remembers some nodes and how far
/// each has come.
pub trait GraphPolicy<K: KeyEncoding, V: DictionaryValue>: Sealed + Sized {
    /// The remembered nodes.
    spec fn memo(&self) -> Seq<(Arc<OverlayNode<K, V>>, NodeBuildState)>;

    /// No graph was looked at yet.
    spec fn fresh(&self) -> bool;

    /// The graph below a root was looked at.
    spec fn prepared_for(&self, root: Arc<OverlayNode<K, V>>) -> bool;

    /// An answer to whether a node is a boundary.
    spec fn boundary(&self, node: Arc<OverlayNode<K, V>>, r: bool) -> bool;

    /// A node that was found among the remembered ones is complete with this record.
    spec fn done(&self, node: Arc<OverlayNode<K, V>>, ptr: SwizzledPtr) -> bool;

    /// A node that was serialized as this record: where it was found among the
    /// remembered ones, it is complete with it.
    spec fn noted(&self, node: Arc<OverlayNode<K, V>>, ptr: SwizzledPtr) -> bool;

    /// A node that was told to be unseen, or not to be remembered.
    spec fn unseen(&self, node: Arc<OverlayNode<K, V>>) -> bool;

    /// A node that was told not to be remembered, or is active where it was found.
    spec fn activated(&self, node: Arc<OverlayNode<K, V>>) -> bool;

    /// Active nodes are found where they are remembered.
    spec fn steady(&self) -> bool;

    /// Nodes that look the same were told to be in two places.
    spec fn doubted(&self) -> bool;

    /// Looks at the whole graph before serialization.
    fn prepare_graph(&mut self, root: &Arc<OverlayNode<K, V>>) -> (r: TrieResult<()>)
        requires
            root.wf(),
        ensures
            r matches Err(e) ==> no_room(e) || (e is InternalError && (!old(self).fresh()
                || root.steps() >= usize::MAX)),
            r is Ok ==> old(self).fresh() && final(self).prepared_for(*root)
                && final(self).steady(),
            r is Ok ==> forall|i: int|
                0 <= i < final(self).memo().len() ==> (#[trigger] final(self).memo()[i]).1
                    == NodeBuildState::Unseen && reachable(root@, final(self).memo()[i].0@),
    ;

    /// Whether a chain of single children must stop before this node.
    fn is_compression_boundary(&self, node: &Arc<OverlayNode<K, V>>) -> (r: bool)
        ensures
            self.boundary(*node, r),
            r ==> exists|i: int| 0 <= i < self.memo().len() && (#[trigger] self.memo()[i]).0 == *node,
    ;

    /// How far a node has come.
    fn node_build_state(&self, node: &Arc<OverlayNode<K, V>>) -> (r: NodeBuildState)
        ensures
            r == NodeBuildState::Unseen || exists|i: int|
                0 <= i < self.memo().len() && #[trigger] self.memo()[i] == (*node, r),
            r matches NodeBuildState::Complete(subtree) ==> self.done(*node, subtree.disk_ptr),
            r == NodeBuildState::Unseen ==> self.unseen(*node),
    ;

    /// Takes note that a node is being serialized.
    fn mark_active(&mut self, node: &Arc<OverlayNode<K, V>>) -> (r: TrieResult<()>)
        ensures
            final(self).memo().len() == old(self).memo().len(),
            forall|i: int|
                0 <= i < old(self).memo().len() ==> (#[trigger] final(self).memo()[i]).0
                    == old(self).memo()[i].0 && (final(self).memo()[i].1 == old(self).memo()[i].1
                    || final(self).memo()[i] == (*node, NodeBuildState::Active)),
            forall|root: Arc<OverlayNode<K, V>>| #[trigger]
                old(self).prepared_for(root) ==> final(self).prepared_for(root),
            forall|n: Arc<OverlayNode<K, V>>| #[trigger]
                old(self).activated(n) ==> final(self).activated(n),
            final(self).doubted() == old(self).doubted(),
            old(self).steady() ==> final(self).steady(),
            forall|n: Arc<OverlayNode<K, V>>, b: bool|
                #[trigger] final(self).boundary(n, b) == old(self).boundary(n, b),
            forall|n: Arc<OverlayNode<K, V>>, p: SwizzledPtr| #[trigger]
                old(self).done(n, p) ==> final(self).done(n, p),
            forall|n: Arc<OverlayNode<K, V>>, p: SwizzledPtr| #[trigger]
                old(self).noted(n, p) ==> final(self).noted(n, p),
            r is Ok ==> final(self).activated(*node),
            r matches Err(e) ==> {
                &&& e is InternalError
                &&& old(self).doubted() || !old(self).unseen(*node)
                &&& exists|i: int|
                    0 <= i < old(self).memo().len() && (#[trigger] old(self).memo()[i]).1
                        != NodeBuildState::Unseen
            },
    ;

    /// Takes note that a node has been serialized.
    fn mark_complete(
        &mut self,
        node: &Arc<OverlayNode<K, V>>,
        expected: ExpectedBuildState,
        disk_ptr: &SwizzledPtr,
        registry_span: Option<RegistryBuilderSubtree>,
    ) -> (r: TrieResult<()>)
        ensures
            final(self).memo().len() == old(self).memo().len(),
            forall|i: int|
                0 <= i < old(self).memo().len() ==> (#[trigger] final(self).memo()[i]).0
                    == old(self).memo()[i].0 && (final(self).memo()[i].1 == old(self).memo()[i].1
                    || final(self).memo()[i] == (
                    *node,
                    NodeBuildState::Complete(
                        CompletedSubtree { disk_ptr: *disk_ptr, registry_span },
                    ),
                )),
            forall|root: Arc<OverlayNode<K, V>>| #[trigger]
                old(self).prepared_for(root) ==> final(self).prepared_for(root),
            forall|n: Arc<OverlayNode<K, V>>| #[trigger]
                old(self).activated(n) && n != *node ==> final(self).activated(n),
            final(self).doubted() == old(self).doubted(),
            old(self).steady() ==> final(self).steady(),
            forall|n: Arc<OverlayNode<K, V>>, b: bool|
                #[trigger] final(self).boundary(n, b) == old(self).boundary(n, b),
            forall|n: Arc<OverlayNode<K, V>>, p: SwizzledPtr| #[trigger]
                old(self).done(n, p) ==> final(self).done(n, p),
            forall|n: Arc<OverlayNode<K, V>>, p: SwizzledPtr| #[trigger]
                old(self).noted(n, p) ==> final(self).noted(n, p),
            r is Ok ==> final(self).noted(*node, *disk_ptr),
            // No other entry stays active for the node.
            r is Ok && old(self).steady() ==> old(self).doubted() || forall|i: int|
                0 <= i < final(self).memo().len() && (#[trigger] final(self).memo()[i]).1
                    == NodeBuildState::Active ==> final(self).memo()[i].0 != *node,
            // Without a span nothing is remembered.
            r is Ok && registry_span is None && old(self).boundary(*node, false) ==> old(
                self,
            ).doubted() || forall|i: int|
                0 <= i < final(self).memo().len() ==> #[trigger] final(self).memo()[i]
                    == old(self).memo()[i],
            r matches Err(e) ==> {
                &&& e is InternalError
                &&& {
                    ||| old(self).doubted()
                    ||| registry_span is Some && !old(self).boundary(*node, true)
                    ||| expected == ExpectedBuildState::Active && !old(self).activated(*node)
                    ||| expected == ExpectedBuildState::Unseen && !old(self).unseen(*node)
                }
            },
    ;
}

/// A node that can be reached from the root over resident children.
pub open spec fn reachable<U, V>(root: Tree<U, V>, node: Tree<U, V>) -> bool {
    exists|path: Seq<U>| #[trigger] at(root, path) == Some(node)
}

/// A child of a reachable node is reachable.
pub proof fn lemma_reachable_child<U, V>(root: Tree<U, V>, node: Tree<U, V>, unit: U, child: Tree<U, V>)
    requires
        reachable(root, node),
        kid(node, unit) == Some(Branch::InMem(child)),
    ensures
        reachable(root, child),
{
    let path = choose|path: Seq<U>| #[trigger] at(root, path) == Some(node);
    lemma_at_concat(root, path, seq![unit]);
    assert(seq![unit].drop_first() =~= Seq::<U>::empty());
    assert(at(node, seq![unit]) == Some(child)) by {
        assert(at(child, seq![unit].drop_first()) == Some(child));
    }
    assert(at(root, path + seq![unit]) == Some(child));
}

/// The policy for roots in which every node has one parent: it remembers nothing.
pub struct ArborescentProduction;

impl Sealed for ArborescentProduction {

}

impl<K: KeyEncoding, V: DictionaryValue> GraphPolicy<K, V> for ArborescentProduction {
    open spec fn memo(&self) -> Seq<(Arc<OverlayNode<K, V>>, NodeBuildState)> {
        Seq::empty()
    }

    open spec fn fresh(&self) -> bool {
        true
    }

    open spec fn prepared_for(&self, root: Arc<OverlayNode<K, V>>) -> bool {
        true
    }

    open spec fn boundary(&self, node: Arc<OverlayNode<K, V>>, r: bool) -> bool {
        !r
    }

    open spec fn done(&self, node: Arc<OverlayNode<K, V>>, ptr: SwizzledPtr) -> bool {
        false
    }

    open spec fn noted(&self, node: Arc<OverlayNode<K, V>>, ptr: SwizzledPtr) -> bool {
        true
    }

    open spec fn unseen(&self, node: Arc<OverlayNode<K, V>>) -> bool {
        true
    }

    open spec fn activated(&self, node: Arc<OverlayNode<K, V>>) -> bool {
        true
    }

    open spec fn steady(&self) -> bool {
        true
    }

    open spec fn doubted(&self) -> bool {
        false
    }

    fn prepare_graph(&mut self, root: &Arc<OverlayNode<K, V>>) -> (r: TrieResult<()>)
        ensures
            r is Ok,
    {
        Ok(())
    }

    fn is_compression_boundary(&self, node: &Arc<OverlayNode<K, V>>) -> (r: bool)
        ensures
            !r,
    {
        false
    }

    fn node_build_state(&self, node: &Arc<OverlayNode<K, V>>) -> (r: NodeBuildState)
        ensures
            r == NodeBuildState::Unseen,
    {
        NodeBuildState::Unseen
    }

    fn mark_active(&mut self, node: &Arc<OverlayNode<K, V>>) -> (r: TrieResult<()>)
        ensures
            r is Ok,
    {
        Ok(())
    }

    fn mark_complete(
        &mut self,
        node: &Arc<OverlayNode<K, V>>,
        expected: ExpectedBuildState,
        disk_ptr: &SwizzledPtr,
        registry_span: Option<RegistryBuilderSubtree>,
    ) -> (r: TrieResult<()>)
        ensures
            r is Ok,
    {
        Ok(())
    }
}

/// The policy for arbitrary graphs of resident nodes: it remembers the nodes that
/// several edges lead to. Two handles to one allocation are one node. Which handles
/// share an allocation depends on the machine, so the contracts only speak of some
/// graph of nodes that equal those of the root.
pub struct DagAware<K: KeyEncoding, V> {
    pub entries: Vec<(Arc<OverlayNode<K, V>>, NodeBuildState)>,
    pub index: HashMap<u64, usize>,
    pub graph_prepared: bool,
}

/// A node of the census: how many edges lead to it, and whether it is under way.
struct CensusEntry<K: KeyEncoding, V> {
    node: Arc<OverlayNode<K, V>>,
    incoming_edges: usize,
    active: bool,
    /// The address that was told of the node.
    address: u64,
}

/// A node of the census walk.
struct CensusFrame<K: KeyEncoding, V> {
    node: Arc<OverlayNode<K, V>>,
    next_child: usize,
    position: usize,
}

impl<K: KeyEncoding, V> Sealed for DagAware<K, V> {

}

impl<K: KeyEncoding, V> DagAware<K, V> {
    /// A policy that has seen no graph.
    pub fn new() -> (r: Self)
        ensures
            r.entries@.len() == 0,
            r.index@ == Map::<u64, usize>::empty(),
            !r.graph_prepared,
    {
        DagAware { entries: Vec::new(), index: HashMap::new(), graph_prepared: false }
    }

    /// The position of a remembered node: the one that is indexed under its address,
    /// if the entry there is the same allocation. Other nodes have none.
    fn position(&self, node: &Arc<OverlayNode<K, V>>) -> (r: Option<usize>)
        ensures
            self.finds(*node, r),
    {
        let address: u64 = handle_address(node);
        match indexed(&self.index, address, self.entries.len()) {
            Some(i) => {
                let same: bool = same_handle(&self.entries[i].0, node);
                assert(told_same(self.nodes()[i as int], *node, same));
                if same {
                    Some(i)
                } else {
                    None
                }
            },
            None => None,
        }
    }

    /// The remembered nodes.
    pub open spec fn nodes(self) -> Seq<Arc<OverlayNode<K, V>>> {
        Seq::new(self.entries@.len(), |i: int| self.entries@[i].0)
    }

    /// The node at a position is complete with a record.
    pub open spec fn completed_at(self, i: int, ptr: SwizzledPtr) -> bool {
        0 <= i < self.entries@.len() && (
        self.entries@[i].1 matches NodeBuildState::Complete(subtree) && subtree.disk_ptr == ptr)
    }

    /// The index holds the addresses that were told of the remembered nodes.
    pub open spec fn index_told(self) -> bool {
        index_told(self.nodes(), self.index@)
    }

    /// Where a node is remembered: at the position that is indexed under its address,
    /// if the entry there was told to be the same allocation, or nowhere.
    pub open spec fn finds(self, node: Arc<OverlayNode<K, V>>, position: Option<usize>) -> bool {
        exists|address: u64| #[trigger]
            told_address(node, address) && indexed_entry(
                self.nodes(),
                self.index@,
                address,
                node,
                position,
            )
    }

    /// The policy with another state at a position.
    pub open spec fn same_but_state(self, before: Self, i: int, state: NodeBuildState) -> bool {
        &&& self.entries@ == before.entries@.update(i, (before.entries@[i].0, state))
        &&& self.index == before.index
        &&& self.graph_prepared == before.graph_prepared
    }

    /// What activating the node at a position does: a node that is not remembered
    /// needs nothing, an unseen one becomes active, and any other is an error.
    pub open spec fn activates(
        before: Self,
        position: Option<usize>,
        r: TrieResult<()>,
        after: Self,
    ) -> bool {
        match position {
            None => r is Ok && after == before,
            Some(i) => if before.entries@[i as int].1 == NodeBuildState::Unseen {
                r is Ok && after.same_but_state(before, i as int, NodeBuildState::Active)
            } else {
                (r matches Err(e) && e is InternalError) && after == before
            },
        }
    }

    /// What completing the node at a position does: a node that is not remembered
    /// must bring no registry span; a remembered one must be in the expected state,
    /// and becomes complete.
    pub open spec fn completes(
        before: Self,
        position: Option<usize>,
        expected: ExpectedBuildState,
        subtree: CompletedSubtree,
        r: TrieResult<()>,
        after: Self,
    ) -> bool {
        match position {
            None => after == before && match r {
                Ok(()) => subtree.registry_span is None,
                Err(e) => subtree.registry_span is Some && e is InternalError,
            },
            Some(i) => {
                let state = before.entries@[i as int].1;
                let legal = (state == NodeBuildState::Unseen && expected
                    == ExpectedBuildState::Unseen) || (state == NodeBuildState::Active && expected
                    == ExpectedBuildState::Active);
                match r {
                    Ok(()) => legal && after.same_but_state(
                        before,
                        i as int,
                        NodeBuildState::Complete(subtree),
                    ),
                    Err(e) => !legal && e is InternalError && after == before,
                }
            },
        }
    }

    /// How far the node at a position has come. A node that is not remembered counts
    /// as unseen.
    pub fn state_at(&self, position: Option<usize>) -> (r: NodeBuildState)
        requires
            position matches Some(i) ==> i < self.entries@.len(),
        ensures
            r == match position {
                Some(i) => self.entries@[i as int].1,
                None => NodeBuildState::Unseen,
            },
    {
        match position {
            Some(i) => self.entries[i].1,
            None => NodeBuildState::Unseen,
        }
    }

    /// Activates the node at a position.
    pub fn activate_at(&mut self, position: Option<usize>) -> (r: TrieResult<()>)
        requires
            position matches Some(i) ==> i < old(self).entries@.len(),
        ensures
            Self::activates(*old(self), position, r, *final(self)),
    {
        match position {
            Some(i) => match activated(self.entries[i].1) {
                Ok(next) => {
                    self.entries[i].1 = next;
                    assert(self.entries@ =~= old(self).entries@.update(
                        i as int,
                        (old(self).entries@[i as int].0, NodeBuildState::Active),
                    ));
                    Ok(())
                },
                Err(e) => Err(e),
            },
            None => Ok(()),
        }
    }

    /// Completes the node at a position.
    pub fn complete_at(
        &mut self,
        position: Option<usize>,
        expected: ExpectedBuildState,
        subtree: CompletedSubtree,
    ) -> (r: TrieResult<()>)
        requires
            position matches Some(i) ==> i < old(self).entries@.len(),
        ensures
            Self::completes(*old(self), position, expected, subtree, r, *final(self)),
    {
        match position {
            Some(i) => match completed(self.entries[i].1, expected, subtree) {
                Ok(next) => {
                    self.entries[i].1 = next;
                    assert(self.entries@ =~= old(self).entries@.update(
                        i as int,
                        (old(self).entries@[i as int].0, NodeBuildState::Complete(subtree)),
                    ));
                    Ok(())
                },
                Err(e) => Err(e),
            },
            None => {
                if subtree.registry_span.is_some() {
                    return Err(
                        PersistentARTrieError::internal(
                            "non-shared serializer node produced a shared registry span",
                        ),
                    );
                }
                Ok(())
            },
        }
    }
}

/// A change of states leaves what is found and what is complete.
proof fn lemma_states_change<K: KeyEncoding, V: DictionaryValue>(
    before: DagAware<K, V>,
    after: DagAware<K, V>,
)
    requires
        after.index == before.index,
        after.graph_prepared == before.graph_prepared,
        after.entries@.len() == before.entries@.len(),
        forall|i: int|
            0 <= i < before.entries@.len() ==> (#[trigger] after.entries@[i]).0
                == before.entries@[i].0 && (before.entries@[i].1 is Complete ==> after.entries@[i].1
                == before.entries@[i].1),
    ensures
        after.doubted() == before.doubted(),
        forall|root: Arc<OverlayNode<K, V>>| #[trigger]
            before.prepared_for(root) ==> after.prepared_for(root),
        forall|n: Arc<OverlayNode<K, V>>, position: Option<usize>|
            #[trigger] after.finds(n, position) == before.finds(n, position),
        forall|n: Arc<OverlayNode<K, V>>, b: bool|
            #[trigger] after.boundary(n, b) == before.boundary(n, b),
        forall|n: Arc<OverlayNode<K, V>>, p: SwizzledPtr| #[trigger]
            before.done(n, p) ==> after.done(n, p),
        forall|n: Arc<OverlayNode<K, V>>, p: SwizzledPtr| #[trigger]
            before.noted(n, p) ==> after.noted(n, p),
{
    assert(after.nodes() =~= before.nodes());
    assert forall|n: Arc<OverlayNode<K, V>>, position: Option<usize>|
        #[trigger] after.finds(n, position) == before.finds(n, position) by {}
    assert forall|i: int, p: SwizzledPtr| before.completed_at(i, p) implies
        #[trigger] after.completed_at(i, p) by {
        assert(after.entries@[i].0 == before.entries@[i].0);
    }
    if before.doubted() {
        let (n, x, y) = choose|n: Arc<OverlayNode<K, V>>, x: Option<usize>, y: Option<usize>|
            #[trigger] before.finds(n, x) && #[trigger] before.finds(n, y) && x != y;
        assert(after.finds(n, x) && after.finds(n, y));
    }
    if after.doubted() {
        let (n, x, y) = choose|n: Arc<OverlayNode<K, V>>, x: Option<usize>, y: Option<usize>|
            #[trigger] after.finds(n, x) && #[trigger] after.finds(n, y) && x != y;
        assert(before.finds(n, x) && before.finds(n, y));
    }
    assert forall|n: Arc<OverlayNode<K, V>>, b: bool|
        #[trigger] after.boundary(n, b) == before.boundary(n, b) by {
        if before.boundary(n, b) {
            let position = choose|position: Option<usize>| #[trigger]
                before.finds(n, position) && b == (position is Some);
            assert(after.finds(n, position));
        }
        if after.boundary(n, b) {
            let position = choose|position: Option<usize>| #[trigger]
                after.finds(n, position) && b == (position is Some);
            assert(before.finds(n, position));
        }
    }
    assert forall|n: Arc<OverlayNode<K, V>>, p: SwizzledPtr| #[trigger]
        before.done(n, p) implies after.done(n, p) by {
        let i = choose|i: usize| #[trigger]
            before.finds(n, Some(i)) && before.completed_at(i as int, p);
        assert(after.finds(n, Some(i)));
        assert(after.completed_at(i as int, p));
    }
    assert forall|n: Arc<OverlayNode<K, V>>, p: SwizzledPtr| #[trigger]
        before.noted(n, p) implies after.noted(n, p) by {
        let position = choose|position: Option<usize>| #[trigger]
            before.finds(n, position) && (position matches Some(i) ==> before.completed_at(
                i as int,
                p,
            ));
        assert(after.finds(n, position));
        if position is Some {
            assert(after.completed_at(position->0 as int, p));
        }
    }
}

/// Activating a node keeps the others active, and makes it active where it was found.
proof fn lemma_activation<K: KeyEncoding, V: DictionaryValue>(
    before: DagAware<K, V>,
    after: DagAware<K, V>,
    node: Arc<OverlayNode<K, V>>,
    position: Option<usize>,
)
    requires
        before.finds(node, position),
        forall|n: Arc<OverlayNode<K, V>>, p: Option<usize>|
            #[trigger] after.finds(n, p) == before.finds(n, p),
        after == before || (position matches Some(i) && before.entries@[i as int].1
            == NodeBuildState::Unseen && after.same_but_state(
            before,
            i as int,
            NodeBuildState::Active,
        )),
    ensures
        forall|n: Arc<OverlayNode<K, V>>| #[trigger] before.activated(n) ==> after.activated(n),
        before.steady() ==> after.steady(),
        (position matches Some(i) ==> after.entries@[i as int].1 == NodeBuildState::Active)
            ==> after.activated(node),
{
    assert forall|n: Arc<OverlayNode<K, V>>| #[trigger] before.activated(n) implies after.activated(
        n,
    ) by {
        let p = choose|p: Option<usize>| #[trigger]
            before.finds(n, p) && (p matches Some(i) ==> before.entries@[i as int].1
                == NodeBuildState::Active);
        assert(after.finds(n, p));
    }
    if before.steady() {
        assert forall|i: usize|
            i < after.entries@.len() && (#[trigger] after.entries@[i as int]).1
                == NodeBuildState::Active implies after.finds(
            after.entries@[i as int].0,
            Some(i),
        ) by {
            assert(after.entries@[i as int].0 == before.entries@[i as int].0);
            if before.entries@[i as int].1 != NodeBuildState::Active {
                assert(position == Some(i));
                assert(before.nodes()[i as int] == node);
            }
        }
    }
    assert(after.finds(node, position));
}

/// Completing a node keeps the others active.
proof fn lemma_completion<K: KeyEncoding, V: DictionaryValue>(
    before: DagAware<K, V>,
    after: DagAware<K, V>,
    node: Arc<OverlayNode<K, V>>,
    position: Option<usize>,
)
    requires
        before.finds(node, position),
        forall|n: Arc<OverlayNode<K, V>>, p: Option<usize>|
            #[trigger] after.finds(n, p) == before.finds(n, p),
        after == before || (position matches Some(i) && after.entries@[i as int].1 is Complete
            && after.same_but_state(before, i as int, after.entries@[i as int].1)),
    ensures
        forall|n: Arc<OverlayNode<K, V>>| #[trigger]
            before.activated(n) && n != node ==> after.activated(n),
        before.steady() ==> after.steady(),
{
    assert forall|n: Arc<OverlayNode<K, V>>| #[trigger]
        before.activated(n) && n != node implies after.activated(n) by {
        let p = choose|p: Option<usize>| #[trigger]
            before.finds(n, p) && (p matches Some(i) ==> before.entries@[i as int].1
                == NodeBuildState::Active);
        assert(after.finds(n, p));
        if p is Some && p == position {
            assert(before.nodes()[p->0 as int] == n && before.nodes()[p->0 as int] == node);
        }
    }
    if before.steady() {
        assert forall|i: usize|
            i < after.entries@.len() && (#[trigger] after.entries@[i as int]).1
                == NodeBuildState::Active implies after.finds(
            after.entries@[i as int].0,
            Some(i),
        ) by {
            assert(after.entries@[i as int] == before.entries@[i as int]);
        }
    }
}

/// The position that is indexed under an address, if it is one of the first `count`.
pub fn indexed(index: &HashMap<u64, usize>, address: u64, count: usize) -> (r: Option<usize>)
    ensures
        r == (if index@.dom().contains(address) && index@[address] < count {
            Some(index@[address])
        } else {
            None
        }),
{
    match index.get(&address) {
        Some(position) => if *position < count {
            Some(*position)
        } else {
            None
        },
        None => None,
    }
}

/// An index holds the addresses that were told of some nodes: every position in it is
/// there under an address of its node, and every node has an address in it.
pub open spec fn index_told<K: KeyEncoding, V>(
    nodes: Seq<Arc<OverlayNode<K, V>>>,
    index: Map<u64, usize>,
) -> bool {
    &&& forall|address: u64| #[trigger]
        index.dom().contains(address) ==> index[address] < nodes.len() && told_address(
            nodes[index[address] as int],
            address,
        )
    &&& forall|i: int| 0 <= i < nodes.len() ==> #[trigger] has_address(nodes[i], index)
}

/// An address of a node is in an index.
pub open spec fn has_address<K: KeyEncoding, V>(
    node: Arc<OverlayNode<K, V>>,
    index: Map<u64, usize>,
) -> bool {
    exists|address: u64| #[trigger] told_address(node, address) && index.dom().contains(address)
}

/// One more node, under its address.
pub proof fn lemma_index_push<K: KeyEncoding, V>(
    nodes: Seq<Arc<OverlayNode<K, V>>>,
    index: Map<u64, usize>,
    node: Arc<OverlayNode<K, V>>,
    address: u64,
)
    requires
        index_told(nodes, index),
        told_address(node, address),
        nodes.len() <= usize::MAX,
    ensures
        index_told(nodes.push(node), index.insert(address, nodes.len() as usize)),
{
    let longer = nodes.push(node);
    let more = index.insert(address, nodes.len() as usize);
    assert forall|a: u64| #[trigger] more.dom().contains(a) implies more[a] < longer.len()
        && told_address(longer[more[a] as int], a) by {
        if a != address {
            assert(index.dom().contains(a));
            assert(longer[more[a] as int] == nodes[index[a] as int]);
        }
    }
    assert forall|i: int| 0 <= i < longer.len() implies #[trigger] has_address(longer[i], more) by {
        if i < nodes.len() {
            assert(longer[i] == nodes[i]);
            assert(has_address(nodes[i], index));
            let a = choose|a: u64| #[trigger]
                told_address(nodes[i], a) && index.dom().contains(a);
            assert(more.dom().contains(a));
        } else {
            assert(more.dom().contains(address));
        }
    }
}

/// A position is the one that is indexed under an address, if the node there was told
/// to be the same allocation as `node`.
pub open spec fn indexed_entry<K: KeyEncoding, V>(
    nodes: Seq<Arc<OverlayNode<K, V>>>,
    index: Map<u64, usize>,
    address: u64,
    node: Arc<OverlayNode<K, V>>,
    position: Option<usize>,
) -> bool {
    if index.dom().contains(address) && index[address] < nodes.len() {
        let i = index[address];
        exists|same: bool| #[trigger]
            told_same(nodes[i as int], node, same) && position == (if same {
                Some(i)
            } else {
                None
            }) && (same ==> nodes[i as int] == node)
    } else {
        position is None
    }
}

/// The position of a node in a census: the one that is indexed under the address, if
/// the entry there is the same allocation. Other nodes have none.
fn census_position<K: KeyEncoding, V>(
    census: &Vec<CensusEntry<K, V>>,
    index: &HashMap<u64, usize>,
    node: &Arc<OverlayNode<K, V>>,
    address: u64,
) -> (r: Option<usize>)
    ensures
        indexed_entry(census_nodes(census@), index@, address, *node, r),
{
    match indexed(index, address, census.len()) {
        Some(i) => {
            let same: bool = same_handle(&census[i].node, node);
            assert(told_same(census_nodes(census@)[i as int], *node, same));
            if same {
                Some(i)
            } else {
                None
            }
        },
        None => None,
    }
}

/// An entry that is under way is on the walk.
spec fn on_walk<K: KeyEncoding, V>(stack: Seq<CensusFrame<K, V>>, i: int) -> bool {
    exists|k: int| 0 <= k < stack.len() && (#[trigger] stack[k]).position == i
}

/// What holds of a census under way.
#[verifier::opaque]
spec fn census_ok<K: KeyEncoding, V>(
    root: Tree<K::Unit, V>,
    census: Seq<CensusEntry<K, V>>,
    stack: Seq<CensusFrame<K, V>>,
) -> bool {
    &&& forall|i: int|
        0 <= i < census.len() ==> (#[trigger] census[i]).node.wf() && reachable(
            root,
            census[i].node@,
        ) && (census[i].active ==> on_walk(stack, i))
    &&& forall|k: int|
        0 <= k < stack.len() ==> {
            &&& (#[trigger] stack[k]).position < census.len()
            &&& stack[k].node == census[stack[k].position as int].node
            &&& stack[k].next_child <= stack[k].node.children@.len()
        }
    &&& forall|k: int, l: int|
        0 <= k < l < stack.len() ==> (#[trigger] stack[k]).node.steps() > (
        #[trigger] stack[l]).node.steps() && stack[k].position != stack[l].position
}

/// Steps left in a census.
spec fn census_left<K: KeyEncoding, V>(stack: Seq<CensusFrame<K, V>>) -> int
    decreases stack.len(),
{
    if stack.len() == 0 {
        0
    } else {
        let frame = stack.last();
        let left = frame.node.kids_steps(frame.node.children@.len()) - frame.node.kids_steps(
            frame.next_child as nat,
        );
        1 + left + census_left(stack.drop_last())
    }
}

/// Steps left are never negative.
proof fn lemma_census_left<K: KeyEncoding, V>(
    root: Tree<K::Unit, V>,
    census: Seq<CensusEntry<K, V>>,
    stack: Seq<CensusFrame<K, V>>,
)
    requires
        forall|k: int|
            0 <= k < stack.len() ==> (#[trigger] stack[k]).next_child
                <= stack[k].node.children@.len(),
    ensures
        census_left(stack) >= 0,
    decreases stack.len(),
{
    if stack.len() > 0 {
        let frame = stack.last();
        assert(stack[stack.len() - 1] == frame);
        let node = *frame.node;
        lemma_kids_steps_monotone(node, frame.next_child as nat, node.children@.len());
        assert forall|k: int| 0 <= k < stack.drop_last().len() implies (
        #[trigger] stack.drop_last()[k]).next_child
            <= stack.drop_last()[k].node.children@.len() by {
            assert(stack.drop_last()[k] == stack[k]);
        }
        lemma_census_left(root, census, stack.drop_last());
    }
}

/// The next child of a walk is not on the walk.
proof fn lemma_child_not_on_walk<K: KeyEncoding, V>(
    root: Tree<K::Unit, V>,
    census: Seq<CensusEntry<K, V>>,
    stack: Seq<CensusFrame<K, V>>,
    slot: int,
    i: int,
)
    requires
        census_ok(root, census, stack),
        stack.len() > 0,
        0 <= slot < stack.last().node.children@.len(),
        stack.last().node.children@[slot].1 is InMem,
        0 <= i < census.len(),
        census[i].node == stack.last().node.children@[slot].1->InMem_0,
    ensures
        !census[i].active,
{
    reveal(census_ok);
    let node = *stack.last().node;
    lemma_child_steps(node, slot);
    if census[i].active {
        assert(on_walk(stack, i));
        let k = choose|k: int| 0 <= k < stack.len() && (#[trigger] stack[k]).position == i;
        let top = stack.len() - 1;
        assert(stack[top] == stack.last());
        if k < top {
            assert(stack[k].node.steps() > stack[top].node.steps());
        }
    }
}

/// Passing over a child.
proof fn lemma_census_pass<K: KeyEncoding, V>(
    root: Tree<K::Unit, V>,
    census: Seq<CensusEntry<K, V>>,
    counted: Seq<CensusEntry<K, V>>,
    stack: Seq<CensusFrame<K, V>>,
    frame: CensusFrame<K, V>,
)
    requires
        census_ok(root, census, stack),
        stack.len() > 0,
        stack.last().next_child < stack.last().node.children@.len(),
        frame.node == stack.last().node,
        frame.position == stack.last().position,
        frame.next_child == stack.last().next_child + 1,
        counted.len() == census.len(),
        forall|i: int|
            0 <= i < census.len() ==> (#[trigger] counted[i]).node == census[i].node
                && counted[i].active == census[i].active,
    ensures
        census_ok(root, counted, stack.drop_last().push(frame)),
        census_left(stack.drop_last().push(frame)) < census_left(stack),
        census_left(stack.drop_last().push(frame)) >= 0,
{
    reveal(census_ok);
    let next = stack.drop_last().push(frame);
    let top = stack.len() - 1;
    assert(stack[top] == stack.last());
    assert forall|k: int| 0 <= k < next.len() implies (#[trigger] next[k]).node == stack[k].node
        && next[k].position == stack[k].position && next[k].next_child
        <= next[k].node.children@.len() by {
        if k < top {
            assert(next[k] == stack[k]);
        }
    }
    assert forall|i: int| 0 <= i < counted.len() implies (#[trigger] counted[i]).node.wf()
        && reachable(root, counted[i].node@) && (counted[i].active ==> on_walk(next, i)) by {
        assert(census[i].node.wf());
        if counted[i].active {
            assert(on_walk(stack, i));
            let k = choose|k: int| 0 <= k < stack.len() && (#[trigger] stack[k]).position == i;
            assert(next[k].position == i);
        }
    }
    assert forall|k: int| 0 <= k < next.len() implies {
        &&& (#[trigger] next[k]).position < counted.len()
        &&& next[k].node == counted[next[k].position as int].node
        &&& next[k].next_child <= next[k].node.children@.len()
    } by {
        assert(next[k].node == stack[k].node);
    }
    assert forall|k: int, l: int| 0 <= k < l < next.len() implies (
    #[trigger] next[k]).node.steps() > (#[trigger] next[l]).node.steps() && next[k].position
        != next[l].position by {
        assert(next[k].node == stack[k].node && next[l].node == stack[l].node);
    }
    assert(next.drop_last() =~= stack.drop_last());
    let node = *frame.node;
    let slot = stack.last().next_child as nat;
    match node.children@[slot as int].1 {
        Child::InMem(child) => {
            assert(node.kids_steps(slot + 1) == node.kids_steps(slot) + child.steps());
        },
        Child::OnDisk(_) => {
            assert(node.kids_steps(slot + 1) == node.kids_steps(slot) + 1);
        },
    }
    lemma_census_left(root, counted, next);
}

/// Entering a new child.
proof fn lemma_census_enter<K: KeyEncoding, V>(
    root: Tree<K::Unit, V>,
    census: Seq<CensusEntry<K, V>>,
    stack: Seq<CensusFrame<K, V>>,
    child: Arc<OverlayNode<K, V>>,
    address: u64,
)
    requires
        census_ok(root, census, stack),
        census.len() < usize::MAX,
        child.wf(),
        reachable(root, child@),
        forall|k: int| 0 <= k < stack.len() ==> (#[trigger] stack[k]).node.steps() > child.steps(),
    ensures
        census_ok(
            root,
            census.push(CensusEntry { node: child, incoming_edges: 1, active: true, address }),
            stack.push(
                CensusFrame { node: child, next_child: 0, position: census.len() as usize },
            ),
        ),
        census_left(
            stack.push(
                CensusFrame { node: child, next_child: 0, position: census.len() as usize },
            ),
        ) == census_left(stack) + child.steps() - 1,
{
    reveal(census_ok);
    let entry = CensusEntry { node: child, incoming_edges: 1, active: true, address };
    let frame = CensusFrame { node: child, next_child: 0, position: census.len() as usize };
    let longer = census.push(entry);
    let next = stack.push(frame);
    assert forall|i: int| 0 <= i < longer.len() implies (#[trigger] longer[i]).node.wf()
        && reachable(root, longer[i].node@) && (longer[i].active ==> on_walk(next, i)) by {
        if i < census.len() {
            assert(longer[i] == census[i]);
            if census[i].active {
                assert(on_walk(stack, i));
                let k = choose|k: int| 0 <= k < stack.len() && (#[trigger] stack[k]).position == i;
                assert(next[k].position == i);
            }
        } else {
            assert(next[stack.len() as int].position == i);
        }
    }
    assert forall|k: int| 0 <= k < next.len() implies {
        &&& (#[trigger] next[k]).position < longer.len()
        &&& next[k].node == longer[next[k].position as int].node
        &&& next[k].next_child <= next[k].node.children@.len()
    } by {
        if k < stack.len() {
            assert(next[k] == stack[k]);
        }
    }
    assert forall|k: int, l: int| 0 <= k < l < next.len() implies (
    #[trigger] next[k]).node.steps() > (#[trigger] next[l]).node.steps() && next[k].position
        != next[l].position by {
        assert(next[k] == stack[k]);
        if l < stack.len() {
            assert(next[l] == stack[l]);
        }
    }
    assert(next.drop_last() =~= stack);
}

/// Leaving a node.
proof fn lemma_census_leave<K: KeyEncoding, V>(
    root: Tree<K::Unit, V>,
    census: Seq<CensusEntry<K, V>>,
    closed: Seq<CensusEntry<K, V>>,
    stack: Seq<CensusFrame<K, V>>,
)
    requires
        census_ok(root, census, stack),
        stack.len() > 0,
        closed.len() == census.len(),
        forall|i: int|
            0 <= i < census.len() ==> (#[trigger] closed[i]).node == census[i].node
                && closed[i].active == (census[i].active && i != stack.last().position),
    ensures
        census_ok(root, closed, stack.drop_last()),
        census_left(stack.drop_last()) < census_left(stack),
        census_left(stack.drop_last()) >= 0,
{
    reveal(census_ok);
    let next = stack.drop_last();
    let top = stack.len() - 1;
    assert(stack[top] == stack.last());
    assert forall|i: int| 0 <= i < closed.len() implies (#[trigger] closed[i]).node.wf()
        && reachable(root, closed[i].node@) && (closed[i].active ==> on_walk(next, i)) by {
        assert(census[i].node.wf());
        if closed[i].active {
            assert(on_walk(stack, i));
            let k = choose|k: int| 0 <= k < stack.len() && (#[trigger] stack[k]).position == i;
            assert(k < top);
            assert(next[k].position == i);
        }
    }
    assert forall|k: int| 0 <= k < next.len() implies {
        &&& (#[trigger] next[k]).position < closed.len()
        &&& next[k].node == closed[next[k].position as int].node
        &&& next[k].next_child <= next[k].node.children@.len()
    } by {
        assert(next[k] == stack[k]);
    }
    assert forall|k: int, l: int| 0 <= k < l < next.len() implies (
    #[trigger] next[k]).node.steps() > (#[trigger] next[l]).node.steps() && next[k].position
        != next[l].position by {
        assert(next[k] == stack[k] && next[l] == stack[l]);
    }
    let node = *stack.last().node;
    lemma_kids_steps_monotone(node, stack.last().next_child as nat, node.children@.len());
    lemma_census_left(root, closed, next);
}

/// A resident edge of a graph: from which node, by which child slot, to which node.
pub type GraphEdge = (int, int, int);

/// The number of edges that lead to a node.
pub open spec fn edges_to(edges: Seq<GraphEdge>, target: int) -> nat
    decreases edges.len(),
{
    if edges.len() == 0 {
        0
    } else {
        edges_to(edges.drop_last(), target) + if edges.last().2 == target {
            1nat
        } else {
            0
        }
    }
}

/// An edge leaves a node by a slot.
pub open spec fn has_edge(edges: Seq<GraphEdge>, p: int, slot: int) -> bool {
    exists|e: int| 0 <= e < edges.len() && (#[trigger] edges[e]).0 == p && edges[e].1 == slot
}

/// An edge leads from a node to its child.
pub open spec fn edge_fits<K: KeyEncoding, V>(
    nodes: Seq<Arc<OverlayNode<K, V>>>,
    edge: GraphEdge,
) -> bool {
    &&& 0 <= edge.0 < nodes.len()
    &&& 0 <= edge.2 < nodes.len()
    &&& 0 <= edge.1 < nodes[edge.0].children@.len()
    &&& nodes[edge.0].children@[edge.1].1 == Child::<K, V>::InMem(nodes[edge.2])
}

/// The nodes and edges of the graph below a root: the root comes first, and every
/// resident child slot of every node is one edge, to a node that equals the child.
pub open spec fn graph_below<K: KeyEncoding, V>(
    root: Arc<OverlayNode<K, V>>,
    nodes: Seq<Arc<OverlayNode<K, V>>>,
    edges: Seq<GraphEdge>,
) -> bool {
    &&& nodes.len() > 0
    &&& nodes[0] == root
    &&& forall|e: int| 0 <= e < edges.len() ==> edge_fits(nodes, #[trigger] edges[e])
    &&& forall|e: int, f: int|
        0 <= e < f < edges.len() ==> (#[trigger] edges[e]).0 != (#[trigger] edges[f]).0
            || edges[e].1 != edges[f].1
    &&& forall|p: int, slot: int|
        0 <= p < nodes.len() && 0 <= slot < nodes[p].children@.len()
            && nodes[p].children@[slot].1 is InMem ==> #[trigger] has_edge(edges, p, slot)
}

/// The first `n` nodes that several edges lead to, in order and not yet serialized.
pub open spec fn shared<K: KeyEncoding, V>(
    nodes: Seq<Arc<OverlayNode<K, V>>>,
    edges: Seq<GraphEdge>,
    n: nat,
) -> Seq<(Arc<OverlayNode<K, V>>, NodeBuildState)>
    decreases n,
{
    if n == 0 {
        Seq::empty()
    } else {
        let before = shared(nodes, edges, (n - 1) as nat);
        if edges_to(edges, n - 1) > 1 {
            before.push((nodes[n - 1], NodeBuildState::Unseen))
        } else {
            before
        }
    }
}

/// The nodes with more than one edge to them.
pub open spec fn shared_nodes<K: KeyEncoding, V>(
    nodes: Seq<Arc<OverlayNode<K, V>>>,
    edges: Seq<GraphEdge>,
) -> Seq<Arc<OverlayNode<K, V>>> {
    let entries = shared(nodes, edges, nodes.len());
    Seq::new(entries.len(), |k: int| entries[k].0)
}

/// How the nodes of a graph were told apart. Each has the address that was told of it.
/// An edge either finds a new node or one that was told to be the same allocation as
/// the child; and a new node was told to be another allocation than the last node
/// before it with its address, if there is one.
pub open spec fn graph_told<K: KeyEncoding, V>(
    nodes: Seq<Arc<OverlayNode<K, V>>>,
    edges: Seq<GraphEdge>,
    addresses: Seq<u64>,
) -> bool {
    &&& addresses.len() == nodes.len()
    &&& forall|i: int| 0 <= i < nodes.len() ==> #[trigger] told_address(nodes[i], addresses[i])
    &&& forall|i: int, j: int|
        0 <= i < j < nodes.len() && #[trigger] last_alike(addresses, i, j) ==> told_same(
            nodes[i],
            nodes[j],
            false,
        )
    &&& forall|e: int| 0 <= e < edges.len() ==> #[trigger] edge_told(nodes, edges, e)
}

/// The last address before `j` that is the one at `j` is that at `i`.
pub open spec fn last_alike(addresses: Seq<u64>, i: int, j: int) -> bool {
    addresses[i] == addresses[j] && forall|k: int|
        i < k < j ==> #[trigger] addresses[k] != addresses[j]
}

/// An edge leads to a node that no edge led to before and that is not the root, or to
/// one that was told to be the same allocation.
pub open spec fn edge_told<K: KeyEncoding, V>(
    nodes: Seq<Arc<OverlayNode<K, V>>>,
    edges: Seq<GraphEdge>,
    e: int,
) -> bool {
    let target = edges[e].2;
    ||| target != 0 && forall|f: int| 0 <= f < e ==> (#[trigger] edges[f]).2 != target
    ||| told_same(nodes[target], nodes[target], true)
}

/// An index holds the last position of each address.
spec fn index_last(addresses: Seq<u64>, index: Map<u64, usize>) -> bool {
    &&& forall|a: u64| #[trigger]
        index.dom().contains(a) ==> index[a] < addresses.len() && addresses[index[a] as int] == a
            && forall|k: int| index[a] < k < addresses.len() ==> #[trigger] addresses[k] != a
    &&& forall|i: int|
        0 <= i < addresses.len() ==> index.dom().contains(#[trigger] addresses[i])
}

/// The addresses of a census.
spec fn census_addresses<K: KeyEncoding, V>(census: Seq<CensusEntry<K, V>>) -> Seq<u64> {
    census.map_values(|entry: CensusEntry<K, V>| entry.address)
}

/// A new node that the index did not lead to.
proof fn lemma_told_push<K: KeyEncoding, V>(
    nodes: Seq<Arc<OverlayNode<K, V>>>,
    edges: Seq<GraphEdge>,
    addresses: Seq<u64>,
    index: Map<u64, usize>,
    node: Arc<OverlayNode<K, V>>,
    address: u64,
    edge: GraphEdge,
)
    requires
        graph_told(nodes, edges, addresses),
        index_last(addresses, index),
        nodes.len() <= usize::MAX,
        nodes.len() > 0,
        told_address(node, address),
        indexed_entry(nodes, index, address, node, None),
        edge.2 == nodes.len(),
        forall|e: int| 0 <= e < edges.len() ==> 0 <= (#[trigger] edges[e]).2 < nodes.len(),
    ensures
        graph_told(nodes.push(node), edges.push(edge), addresses.push(address)),
        index_last(addresses.push(address), index.insert(address, nodes.len() as usize)),
{
    let n = nodes.len() as int;
    let more = nodes.push(node);
    let longer = edges.push(edge);
    let told = addresses.push(address);
    assert forall|i: int| 0 <= i < more.len() implies #[trigger] told_address(
        more[i],
        told[i],
    ) by {
        if i < n {
            assert(told_address(nodes[i], addresses[i]));
        }
    }
    assert forall|i: int, j: int|
        0 <= i < j < more.len() && #[trigger] last_alike(told, i, j) implies told_same(
        more[i],
        more[j],
        false,
    ) by {
        if j < n {
            assert(last_alike(addresses, i, j)) by {
                assert forall|k: int| i < k < j implies #[trigger] addresses[k] != addresses[j] by {
                    assert(told[k] == addresses[k]);
                }
            }
        } else {
            assert(addresses[i] == address);
            assert(index.dom().contains(addresses[i]));
            let last = index[address] as int;
            if last < i {
                assert(addresses[i] != address);
            } else if i < last {
                assert(told[last] != told[j]);
            }
        }
    }
    assert forall|e: int| 0 <= e < longer.len() implies #[trigger] edge_told(more, longer, e) by {
        if e < edges.len() {
            assert(longer[e] == edges[e]);
            assert(edge_told(nodes, edges, e));
            assert(more[edges[e].2] == nodes[edges[e].2]);
            if edges[e].2 != 0 && forall|f: int| 0 <= f < e ==> (#[trigger] edges[f]).2 != edges[e].2 {
                assert forall|f: int| 0 <= f < e implies (#[trigger] longer[f]).2 != longer[e].2 by {
                    assert(longer[f] == edges[f]);
                }
            }
        } else {
            assert forall|f: int| 0 <= f < e implies (#[trigger] longer[f]).2 != longer[e].2 by {
                assert(longer[f] == edges[f]);
            }
        }
    }
    let next = index.insert(address, n as usize);
    assert forall|a: u64| #[trigger] next.dom().contains(a) implies next[a] < told.len()
        && told[next[a] as int] == a && forall|k: int|
        next[a] < k < told.len() ==> #[trigger] told[k] != a by {
        if a != address {
            assert(index.dom().contains(a));
            assert forall|k: int| next[a] < k < told.len() implies #[trigger] told[k] != a by {
                if k < n {
                    assert(told[k] == addresses[k]);
                }
            }
        }
    }
    assert forall|i: int| 0 <= i < told.len() implies next.dom().contains(#[trigger] told[i]) by {
        if i < n {
            assert(told[i] == addresses[i]);
        }
    }
}

/// An edge to a node that was told to be the child.
proof fn lemma_told_edge<K: KeyEncoding, V>(
    nodes: Seq<Arc<OverlayNode<K, V>>>,
    edges: Seq<GraphEdge>,
    addresses: Seq<u64>,
    edge: GraphEdge,
)
    requires
        graph_told(nodes, edges, addresses),
        told_same(nodes[edge.2], nodes[edge.2], true),
    ensures
        graph_told(nodes, edges.push(edge), addresses),
{
    let longer = edges.push(edge);
    assert forall|e: int| 0 <= e < longer.len() implies #[trigger] edge_told(nodes, longer, e) by {
        if e < edges.len() {
            assert(longer[e] == edges[e]);
            assert(edge_told(nodes, edges, e));
            if edges[e].2 != 0 && forall|f: int| 0 <= f < e ==> (#[trigger] edges[f]).2 != edges[e].2 {
                assert forall|f: int| 0 <= f < e implies (#[trigger] longer[f]).2 != longer[e].2 by {
                    assert(longer[f] == edges[f]);
                }
            }
        }
    }
}

/// No node has more edges than there are.
proof fn lemma_edges_bound(edges: Seq<GraphEdge>, target: int)
    ensures
        edges_to(edges, target) <= edges.len(),
    decreases edges.len(),
{
    if edges.len() > 0 {
        lemma_edges_bound(edges.drop_last(), target);
    }
}

/// The nodes of a census.
spec fn census_nodes<K: KeyEncoding, V>(census: Seq<CensusEntry<K, V>>) -> Seq<
    Arc<OverlayNode<K, V>>,
> {
    census.map_values(|entry: CensusEntry<K, V>| entry.node)
}

/// How many child slots of a node the walk has dealt with.
spec fn progress<K: KeyEncoding, V>(
    census: Seq<CensusEntry<K, V>>,
    stack: Seq<CensusFrame<K, V>>,
    p: int,
) -> int {
    if on_walk(stack, p) {
        stack[choose|k: int| 0 <= k < stack.len() && (#[trigger] stack[k]).position == p].next_child
            as int
    } else {
        census[p].node.children@.len() as int
    }
}

/// The edges that the walk has met, and their counts.
#[verifier::opaque]
spec fn census_counted<K: KeyEncoding, V>(
    census: Seq<CensusEntry<K, V>>,
    stack: Seq<CensusFrame<K, V>>,
    edges: Seq<GraphEdge>,
) -> bool {
    &&& forall|e: int|
        0 <= e < edges.len() ==> edge_fits(census_nodes(census), #[trigger] edges[e])
            && edges[e].1 < progress(census, stack, edges[e].0)
    &&& forall|e: int, f: int|
        0 <= e < f < edges.len() ==> (#[trigger] edges[e]).0 != (#[trigger] edges[f]).0
            || edges[e].1 != edges[f].1
    &&& forall|p: int, slot: int|
        0 <= p < census.len() && 0 <= slot < progress(census, stack, p)
            && census[p].node.children@[slot].1 is InMem ==> #[trigger] has_edge(edges, p, slot)
    &&& forall|i: int|
        0 <= i < census.len() ==> (#[trigger] census[i]).incoming_edges == edges_to(edges, i)
}

/// The progress at the nodes of the walk.
proof fn lemma_progress<K: KeyEncoding, V>(
    root: Tree<K::Unit, V>,
    census: Seq<CensusEntry<K, V>>,
    stack: Seq<CensusFrame<K, V>>,
)
    requires
        census_ok(root, census, stack),
    ensures
        forall|k: int|
            0 <= k < stack.len() ==> progress(
                census,
                stack,
                (#[trigger] stack[k]).position as int,
            ) == stack[k].next_child,
{
    reveal(census_ok);
    assert forall|k: int| 0 <= k < stack.len() implies progress(
        census,
        stack,
        (#[trigger] stack[k]).position as int,
    ) == stack[k].next_child by {
        let p = stack[k].position as int;
        assert(on_walk(stack, p));
        let l = choose|l: int| 0 <= l < stack.len() && (#[trigger] stack[l]).position == p;
        if l < k {
            assert(stack[l].position != stack[k].position);
        } else if k < l {
            assert(stack[k].position != stack[l].position);
        }
    }
}

/// An edge to one node does not count for another.
proof fn lemma_edges_push(edges: Seq<GraphEdge>, edge: GraphEdge, target: int)
    ensures
        edges_to(edges.push(edge), target) == edges_to(edges, target) + if edge.2 == target {
            1nat
        } else {
            0
        },
{
    assert(edges.push(edge).drop_last() =~= edges);
}

/// No edge leads to a node that is not there.
proof fn lemma_no_edges_to(edges: Seq<GraphEdge>, target: int)
    requires
        forall|e: int| 0 <= e < edges.len() ==> (#[trigger] edges[e]).2 != target,
    ensures
        edges_to(edges, target) == 0,
    decreases edges.len(),
{
    if edges.len() > 0 {
        assert(edges[edges.len() - 1].2 != target);
        assert forall|e: int| 0 <= e < edges.drop_last().len() implies (
        #[trigger] edges.drop_last()[e]).2 != target by {
            assert(edges.drop_last()[e] == edges[e]);
        }
        lemma_no_edges_to(edges.drop_last(), target);
    }
}

/// Passing over a child that is not resident.
proof fn lemma_counted_skip<K: KeyEncoding, V>(
    root: Tree<K::Unit, V>,
    census: Seq<CensusEntry<K, V>>,
    stack: Seq<CensusFrame<K, V>>,
    frame: CensusFrame<K, V>,
    edges: Seq<GraphEdge>,
)
    requires
        census_ok(root, census, stack),
        census_ok(root, census, stack.drop_last().push(frame)),
        census_counted(census, stack, edges),
        stack.len() > 0,
        frame.node == stack.last().node,
        frame.position == stack.last().position,
        frame.next_child == stack.last().next_child + 1,
        frame.next_child <= frame.node.children@.len(),
        !(frame.node.children@[frame.next_child - 1].1 is InMem),
    ensures
        census_counted(census, stack.drop_last().push(frame), edges),
{
    let next = stack.drop_last().push(frame);
    lemma_progress_next(root, census, census, stack, next, frame);
    reveal(census_counted);
    let q = frame.position as int;
    let slot = frame.next_child - 1;
    assert(stack[stack.len() - 1] == stack.last());
    assert(0 <= q < census.len() && census[q].node == frame.node) by {
        reveal(census_ok);
    }
    lemma_progress(root, census, stack);
    assert(progress(census, stack, q) == slot);
    assert forall|e: int| 0 <= e < edges.len() implies edge_fits(
        census_nodes(census),
        #[trigger] edges[e],
    ) && edges[e].1 < progress(census, next, edges[e].0) by {
        assert(0 <= edges[e].0 < census.len());
    }
    assert forall|p: int, t: int|
        0 <= p < census.len() && 0 <= t < progress(census, next, p)
            && census[p].node.children@[t].1 is InMem implies #[trigger] has_edge(edges, p, t) by {
        assert(!(p == q && t == slot));
        assert(t < progress(census, stack, p));
    }
}

/// The progress after one more child.
proof fn lemma_progress_next<K: KeyEncoding, V>(
    root: Tree<K::Unit, V>,
    census: Seq<CensusEntry<K, V>>,
    counted: Seq<CensusEntry<K, V>>,
    stack: Seq<CensusFrame<K, V>>,
    next: Seq<CensusFrame<K, V>>,
    frame: CensusFrame<K, V>,
)
    requires
        census_ok(root, census, stack),
        census_ok(root, counted, next),
        stack.len() > 0,
        next == stack.drop_last().push(frame),
        frame.position == stack.last().position,
        frame.next_child == stack.last().next_child + 1,
        counted.len() == census.len(),
        forall|i: int| 0 <= i < census.len() ==> (#[trigger] counted[i]).node == census[i].node,
    ensures
        forall|p: int|
            0 <= p < census.len() ==> #[trigger] progress(counted, next, p) == progress(
                census,
                stack,
                p,
            ) + if p == frame.position {
                1int
            } else {
                0
            },
{
    lemma_progress(root, census, stack);
    lemma_progress(root, counted, next);
    assert(stack[stack.len() - 1] == stack.last());
    assert(next[stack.len() - 1] == frame);
    assert forall|p: int| 0 <= p < census.len() implies #[trigger] progress(counted, next, p)
        == progress(census, stack, p) + if p == frame.position {
        1int
    } else {
        0
    } by {
        if on_walk(stack, p) {
            let k = choose|k: int| 0 <= k < stack.len() && (#[trigger] stack[k]).position == p;
            assert(progress(census, stack, stack[k].position as int) == stack[k].next_child);
            if k < stack.len() - 1 {
                assert(next[k] == stack[k]);
                assert(progress(counted, next, next[k].position as int) == next[k].next_child);
                if p == frame.position {
                    reveal(census_ok);
                    assert(stack[k].position != stack[stack.len() - 1].position);
                }
            } else {
                assert(progress(counted, next, next[k].position as int) == next[k].next_child);
            }
        } else {
            assert(p != frame.position);
            if on_walk(next, p) {
                let k = choose|k: int| 0 <= k < next.len() && (#[trigger] next[k]).position == p;
                if k < stack.len() - 1 {
                    assert(stack[k].position == p);
                }
            }
        }
    }
}

/// Counting an edge to a node that is known.
proof fn lemma_counted_edge<K: KeyEncoding, V>(
    root: Tree<K::Unit, V>,
    census: Seq<CensusEntry<K, V>>,
    counted: Seq<CensusEntry<K, V>>,
    stack: Seq<CensusFrame<K, V>>,
    frame: CensusFrame<K, V>,
    edges: Seq<GraphEdge>,
    target: int,
)
    requires
        census_ok(root, census, stack),
        census_ok(root, counted, stack.drop_last().push(frame)),
        census_counted(census, stack, edges),
        stack.len() > 0,
        frame.node == stack.last().node,
        frame.position == stack.last().position,
        frame.next_child == stack.last().next_child + 1,
        frame.next_child <= frame.node.children@.len(),
        0 <= target < census.len(),
        frame.node.children@[frame.next_child - 1].1 == Child::<K, V>::InMem(census[target].node),
        counted.len() == census.len(),
        forall|i: int|
            0 <= i < census.len() ==> (#[trigger] counted[i]).node == census[i].node
                && counted[i].incoming_edges == census[i].incoming_edges + if i == target {
                1int
            } else {
                0
            },
    ensures
        census_counted(
            counted,
            stack.drop_last().push(frame),
            edges.push((frame.position as int, frame.next_child - 1, target)),
        ),
{
    let next = stack.drop_last().push(frame);
    let q = frame.position as int;
    let slot = frame.next_child - 1;
    let edge: GraphEdge = (q, slot, target);
    let longer = edges.push(edge);
    lemma_progress_next(root, census, counted, stack, next, frame);
    lemma_progress(root, census, stack);
    assert(stack[stack.len() - 1] == stack.last());
    assert(0 <= q < census.len() && census[q].node == frame.node) by {
        reveal(census_ok);
    }
    assert(progress(census, stack, q) == slot);
    reveal(census_counted);
    assert(census_nodes(counted) =~= census_nodes(census));
    assert forall|e: int| 0 <= e < longer.len() implies edge_fits(
        census_nodes(counted),
        #[trigger] longer[e],
    ) && longer[e].1 < progress(counted, next, longer[e].0) by {
        if e < edges.len() {
            assert(longer[e] == edges[e]);
        }
    }
    assert forall|e: int, f: int| 0 <= e < f < longer.len() implies (#[trigger] longer[e]).0 != (
    #[trigger] longer[f]).0 || longer[e].1 != longer[f].1 by {
        assert(longer[e] == edges[e]);
        if f < edges.len() {
            assert(longer[f] == edges[f]);
        }
    }
    assert forall|p: int, t: int|
        0 <= p < counted.len() && 0 <= t < progress(counted, next, p)
            && counted[p].node.children@[t].1 is InMem implies #[trigger] has_edge(longer, p, t) by {
        if p == q && t == slot {
            assert(longer[edges.len() as int] == edge);
        } else {
            assert(has_edge(edges, p, t));
            let e = choose|e: int|
                0 <= e < edges.len() && (#[trigger] edges[e]).0 == p && edges[e].1 == t;
            assert(longer[e] == edges[e]);
        }
    }
    assert forall|i: int| 0 <= i < counted.len() implies (#[trigger] counted[i]).incoming_edges
        == edges_to(longer, i) by {
        lemma_edges_push(edges, edge, i);
        assert(census[i].incoming_edges == edges_to(edges, i));
    }
}

/// Entering a node that is new.
proof fn lemma_counted_enter<K: KeyEncoding, V>(
    root: Tree<K::Unit, V>,
    census: Seq<CensusEntry<K, V>>,
    stack: Seq<CensusFrame<K, V>>,
    frame: CensusFrame<K, V>,
    child: Arc<OverlayNode<K, V>>,
    edges: Seq<GraphEdge>,
    address: u64,
)
    requires
        census_ok(root, census, stack),
        census_ok(root, census, stack.drop_last().push(frame)),
        census_ok(
            root,
            census.push(CensusEntry { node: child, incoming_edges: 1, active: true, address }),
            stack.drop_last().push(frame).push(
                CensusFrame { node: child, next_child: 0, position: census.len() as usize },
            ),
        ),
        census_counted(census, stack, edges),
        census.len() < usize::MAX,
        stack.len() > 0,
        frame.node == stack.last().node,
        frame.position == stack.last().position,
        frame.next_child == stack.last().next_child + 1,
        frame.next_child <= frame.node.children@.len(),
        frame.node.children@[frame.next_child - 1].1 == Child::<K, V>::InMem(child),
    ensures
        census_counted(
            census.push(CensusEntry { node: child, incoming_edges: 1, active: true, address }),
            stack.drop_last().push(frame).push(
                CensusFrame { node: child, next_child: 0, position: census.len() as usize },
            ),
            edges.push((frame.position as int, frame.next_child - 1, census.len() as int)),
        ),
{
    let passed = stack.drop_last().push(frame);
    let n = census.len() as int;
    let entry = CensusEntry { node: child, incoming_edges: 1, active: true, address };
    let below = CensusFrame { node: child, next_child: 0, position: n as usize };
    let more = census.push(entry);
    let next = passed.push(below);
    let q = frame.position as int;
    let slot = frame.next_child - 1;
    let edge: GraphEdge = (q, slot, n);
    let longer = edges.push(edge);
    lemma_progress_next(root, census, census, stack, passed, frame);
    lemma_progress(root, census, stack);
    lemma_progress(root, census, passed);
    lemma_progress(root, more, next);
    assert(stack[stack.len() - 1] == stack.last());
    assert(0 <= q < census.len() && census[q].node == frame.node) by {
        reveal(census_ok);
    }
    assert(progress(census, stack, q) == slot);
    assert(next[passed.len() as int] == below);
    assert(progress(more, next, n) == 0) by {
        assert(progress(more, next, next[passed.len() as int].position as int) == 0);
    }
    assert forall|p: int| 0 <= p < n implies #[trigger] progress(more, next, p) == progress(
        census,
        passed,
        p,
    ) by {
        assert(more[p] == census[p]);
        if on_walk(passed, p) {
            let k = choose|k: int| 0 <= k < passed.len() && (#[trigger] passed[k]).position == p;
            assert(next[k] == passed[k]);
            assert(progress(more, next, next[k].position as int) == next[k].next_child);
            assert(progress(census, passed, passed[k].position as int) == passed[k].next_child);
        } else if on_walk(next, p) {
            let k = choose|k: int| 0 <= k < next.len() && (#[trigger] next[k]).position == p;
            if k < passed.len() {
                assert(passed[k].position == p);
            }
        }
    }
    reveal(census_counted);
    assert forall|e: int| 0 <= e < longer.len() implies edge_fits(
        census_nodes(more),
        #[trigger] longer[e],
    ) && longer[e].1 < progress(more, next, longer[e].0) by {
        if e < edges.len() {
            assert(longer[e] == edges[e]);
            assert(edge_fits(census_nodes(census), edges[e]));
            assert(census_nodes(more)[edges[e].0] == census_nodes(census)[edges[e].0]);
            assert(census_nodes(more)[edges[e].2] == census_nodes(census)[edges[e].2]);
        } else {
            assert(census_nodes(more)[q] == frame.node);
            assert(census_nodes(more)[n] == child);
        }
    }
    assert forall|e: int, f: int| 0 <= e < f < longer.len() implies (#[trigger] longer[e]).0 != (
    #[trigger] longer[f]).0 || longer[e].1 != longer[f].1 by {
        assert(longer[e] == edges[e]);
        if f < edges.len() {
            assert(longer[f] == edges[f]);
        }
    }
    assert forall|p: int, t: int|
        0 <= p < more.len() && 0 <= t < progress(more, next, p)
            && more[p].node.children@[t].1 is InMem implies #[trigger] has_edge(longer, p, t) by {
        assert(p < n);
        assert(more[p] == census[p]);
        if p == q && t == slot {
            assert(longer[edges.len() as int] == edge);
        } else {
            assert(has_edge(edges, p, t));
            let e = choose|e: int|
                0 <= e < edges.len() && (#[trigger] edges[e]).0 == p && edges[e].1 == t;
            assert(longer[e] == edges[e]);
        }
    }
    assert forall|i: int| 0 <= i < more.len() implies (#[trigger] more[i]).incoming_edges
        == edges_to(longer, i) by {
        lemma_edges_push(edges, edge, i);
        if i < n {
            assert(more[i] == census[i]);
        } else {
            assert forall|e: int| 0 <= e < edges.len() implies (#[trigger] edges[e]).2 != n by {
                assert(edge_fits(census_nodes(census), edges[e]));
            }
            lemma_no_edges_to(edges, n);
        }
    }
}

/// Leaving a node whose children are all dealt with.
proof fn lemma_counted_leave<K: KeyEncoding, V>(
    root: Tree<K::Unit, V>,
    census: Seq<CensusEntry<K, V>>,
    closed: Seq<CensusEntry<K, V>>,
    stack: Seq<CensusFrame<K, V>>,
    edges: Seq<GraphEdge>,
)
    requires
        census_ok(root, census, stack),
        census_ok(root, closed, stack.drop_last()),
        census_counted(census, stack, edges),
        stack.len() > 0,
        stack.last().next_child >= stack.last().node.children@.len(),
        closed.len() == census.len(),
        forall|i: int|
            0 <= i < census.len() ==> (#[trigger] closed[i]).node == census[i].node
                && closed[i].incoming_edges == census[i].incoming_edges,
    ensures
        census_counted(closed, stack.drop_last(), edges),
{
    let next = stack.drop_last();
    lemma_progress(root, census, stack);
    lemma_progress(root, closed, next);
    assert(stack[stack.len() - 1] == stack.last());
    assert forall|p: int| 0 <= p < census.len() implies #[trigger] progress(closed, next, p)
        == progress(census, stack, p) by {
        assert(closed[p].node == census[p].node);
        if on_walk(stack, p) {
            let k = choose|k: int| 0 <= k < stack.len() && (#[trigger] stack[k]).position == p;
            assert(progress(census, stack, stack[k].position as int) == stack[k].next_child);
            if k < next.len() {
                assert(next[k] == stack[k]);
                assert(progress(closed, next, next[k].position as int) == next[k].next_child);
            } else {
                reveal(census_ok);
                assert(!on_walk(next, p)) by {
                    if on_walk(next, p) {
                        let l = choose|l: int|
                            0 <= l < next.len() && (#[trigger] next[l]).position == p;
                        assert(stack[l].position != stack[k].position);
                    }
                }
            }
        } else if on_walk(next, p) {
            let k = choose|k: int| 0 <= k < next.len() && (#[trigger] next[k]).position == p;
            assert(stack[k].position == p);
        }
    }
    reveal(census_counted);
    assert(census_nodes(closed) =~= census_nodes(census));
    assert forall|i: int| 0 <= i < closed.len() implies (#[trigger] closed[i]).incoming_edges
        == edges_to(edges, i) by {
        assert(census[i].incoming_edges == edges_to(edges, i));
    }
}

/// Counts the edges that lead to each resident node of a graph. A node that the
/// walk is still inside of cannot come up again: nodes are immutable, so a child
/// never holds its parent.
fn take_census<K: KeyEncoding, V: DictionaryValue>(root: &Arc<OverlayNode<K, V>>) -> (r: TrieResult<
    (Vec<CensusEntry<K, V>>, Ghost<Seq<GraphEdge>>),
>)
    requires
        root.wf(),
    ensures
        match r {
            Ok((census, edges)) => {
                &&& graph_below(*root, census_nodes(census@), edges@)
                &&& graph_told(census_nodes(census@), edges@, census_addresses(census@))
                &&& forall|i: int|
                    0 <= i < census@.len() ==> {
                        &&& (#[trigger] census@[i]).node.wf()
                        &&& reachable(root@, census@[i].node@)
                        &&& census@[i].incoming_edges == edges_to(edges@, i)
                    }
            },
            Err(e) => no_room(e) || (e is InternalError && root.steps() >= usize::MAX),
        },
{
    let mut census: Vec<CensusEntry<K, V>> = Vec::new();
    let mut index: HashMap<u64, usize> = HashMap::new();
    let mut stack: Vec<CensusFrame<K, V>> = Vec::new();
    let ghost mut edges: Seq<GraphEdge> = Seq::empty();
    match reserve_entries(&mut census, 1, "compressed serializer DAG census", 1) {
        Ok(()) => {},
        Err(e) => {
            return Err(e);
        },
    }
    match reserve_entries(&mut stack, 1, "compressed serializer DAG census stack", 1) {
        Ok(()) => {},
        Err(e) => {
            return Err(e);
        },
    }
    let address: u64 = handle_address(root);
    census.push(CensusEntry { node: share(root), incoming_edges: 0, active: true, address });
    index.insert(address, 0);
    stack.push(CensusFrame { node: share(root), next_child: 0, position: 0 });
    proof {
        reveal(census_ok);
        assert(at(root@, Seq::<K::Unit>::empty()) == Some(root@));
        assert(stack@[0].position == 0);
        assert(on_walk(stack@, 0));
        lemma_census_left(root@, census@, stack@);
        lemma_progress(root@, census@, stack@);
        assert(progress(census@, stack@, stack@[0].position as int) == 0);
        assert(census_counted(census@, stack@, edges)) by {
            reveal(census_counted);
        }
        assert(census_addresses(census@) =~= seq![address]);
        assert(census_nodes(census@) =~= seq![*root]);
        assert(census_left(stack@) == root.steps() - 1) by {
            assert(stack@.drop_last() =~= Seq::empty());
            assert(census_left(Seq::<CensusFrame<K, V>>::empty()) == 0);
        }
    }
    while stack.len() > 0
        invariant
            census_ok(root@, census@, stack@),
            census_left(stack@) >= 0,
            census@.len() > 0,
            census@[0].node == *root,
            census_counted(census@, stack@, edges),
            graph_told(census_nodes(census@), edges, census_addresses(census@)),
            index_last(census_addresses(census@), index@),
            edges.len() + census_left(stack@) < root.steps(),
            census@.len() <= edges.len() + 1,
        decreases census_left(stack@),
    {
        let ghost walk = stack@;
        let ghost entries = census@;
        let mut frame: CensusFrame<K, V> = match stack.pop() {
            Some(frame) => frame,
            None => {
                return Err(
                    PersistentARTrieError::internal(
                        "compressed serializer DAG census stack became empty",
                    ),
                );
            },
        };
        proof {
            reveal(census_ok);
            assert(walk[walk.len() - 1] == frame);
            assert(stack@ =~= walk.drop_last());
        }
        if frame.next_child < frame.node.children.len() {
            let slot: usize = frame.next_child;
            frame.next_child += 1;
            let child: Option<Arc<OverlayNode<K, V>>> = match &frame.node.children[slot].1 {
                Child::InMem(child) => Some(share(child)),
                Child::OnDisk(_) => None,
            };
            match child {
                None => {
                    proof {
                        lemma_census_pass(root@, entries, entries, walk, frame);
                        lemma_counted_skip(root@, entries, walk, frame, edges);
                    }
                    stack.push(frame);
                },
                Some(child) => {
                    let address: u64 = handle_address(&child);
                    let ghost addresses = census_addresses(census@);
                    let ghost nodes = census_nodes(census@);
                    match census_position(&census, &index, &child, address) {
                        Some(position) => {
                            proof {
                                lemma_edges_bound(edges, position as int);
                                assert(census@[position as int].incoming_edges == edges_to(
                                    edges,
                                    position as int,
                                )) by {
                                    reveal(census_counted);
                                }
                                lemma_child_not_on_walk(
                                    root@,
                                    entries,
                                    walk,
                                    slot as int,
                                    position as int,
                                );
                            }
                            if census[position].incoming_edges == usize::MAX {
                                return Err(
                                    PersistentARTrieError::internal(
                                        "compressed serializer DAG incoming-edge count overflow",
                                    ),
                                );
                            }
                            census[position].incoming_edges = census[position].incoming_edges + 1;
                            proof {
                                lemma_census_pass(root@, entries, census@, walk, frame);
                                lemma_counted_edge(
                                    root@,
                                    entries,
                                    census@,
                                    walk,
                                    frame,
                                    edges,
                                    position as int,
                                );
                                let edge = (frame.position as int, slot as int, position as int);
                                lemma_told_edge(nodes, edges, addresses, edge);
                                edges = edges.push(edge);
                                assert(census_nodes(census@) =~= nodes);
                                assert(census_addresses(census@) =~= addresses);
                            }
                            stack.push(frame);
                        },
                        None => {
                            if census.len() == usize::MAX {
                                return Err(
                                    PersistentARTrieError::internal(
                                        "compressed serializer DAG node count overflow",
                                    ),
                                );
                            }
                            let requested: usize = census.len() + 1;
                            match reserve_entries(
                                &mut census,
                                1,
                                "compressed serializer DAG census",
                                requested,
                            ) {
                                Ok(()) => {},
                                Err(e) => {
                                    return Err(e);
                                },
                            }
                            match reserve_entries(
                                &mut stack,
                                1,
                                "compressed serializer DAG census stack",
                                requested,
                            ) {
                                Ok(()) => {},
                                Err(e) => {
                                    return Err(e);
                                },
                            }
                            proof {
                                lemma_census_pass(root@, entries, entries, walk, frame);
                                let node = *frame.node;
                                lemma_slot(node, slot as int);
                                lemma_reachable_child(
                                    root@,
                                    node@,
                                    node.children@[slot as int].0,
                                    child@,
                                );
                                lemma_child_steps(node, slot as int);
                                let passed = walk.drop_last().push(frame);
                                assert forall|k: int| 0 <= k < passed.len() implies (
                                #[trigger] passed[k]).node.steps() > child.steps() by {
                                    if k < walk.len() - 1 {
                                        assert(passed[k] == walk[k]);
                                        assert(walk[k].node.steps() > walk[walk.len()
                                            - 1].node.steps());
                                    }
                                }
                                lemma_census_enter(root@, entries, passed, child, address);
                                lemma_enter_left(walk, frame, child, slot as int);
                                lemma_counted_enter(
                                    root@,
                                    entries,
                                    walk,
                                    frame,
                                    child,
                                    edges,
                                    address,
                                );
                                let edge = (frame.position as int, slot as int, entries.len() as int);
                                assert forall|e: int| 0 <= e < edges.len() implies 0 <= (
                                #[trigger] edges[e]).2 < nodes.len() by {
                                    reveal(census_counted);
                                    assert(edge_fits(nodes, edges[e]));
                                }
                                lemma_told_push(nodes, edges, addresses, index@, child, address, edge);
                                edges = edges.push(edge);
                            }
                            let position: usize = census.len();
                            index.insert(address, position);
                            census.push(
                                CensusEntry {
                                    node: share(&child),
                                    incoming_edges: 1,
                                    active: true,
                                    address,
                                },
                            );
                            assert(census_nodes(census@) =~= nodes.push(child));
                            assert(census_addresses(census@) =~= addresses.push(address));
                            stack.push(frame);
                            stack.push(CensusFrame { node: child, next_child: 0, position });
                        },
                    }
                },
            }
        } else {
            let position: usize = frame.position;
            census[position].active = false;
            proof {
                lemma_census_leave(root@, entries, census@, walk);
                lemma_counted_leave(root@, entries, census@, walk, edges);
                assert(census_nodes(census@) =~= census_nodes(entries));
                assert(census_addresses(census@) =~= census_addresses(entries));
            }
        }
    }
    proof {
        reveal(census_ok);
        reveal(census_counted);
        let nodes = census_nodes(census@);
        assert forall|p: int| 0 <= p < census@.len() implies #[trigger] progress(
            census@,
            stack@,
            p,
        ) == nodes[p].children@.len() by {}
        assert forall|p: int, slot: int|
            0 <= p < nodes.len() && 0 <= slot < nodes[p].children@.len()
                && nodes[p].children@[slot].1 is InMem implies #[trigger] has_edge(
            edges,
            p,
            slot,
        ) by {
            assert(progress(census@, stack@, p) == nodes[p].children@.len());
        }
    }
    Ok((census, Ghost(edges)))
}

/// Entering a child takes one of the steps that passing over it would take.
proof fn lemma_enter_left<K: KeyEncoding, V>(
    walk: Seq<CensusFrame<K, V>>,
    frame: CensusFrame<K, V>,
    child: Arc<OverlayNode<K, V>>,
    slot: int,
)
    requires
        walk.len() > 0,
        walk.last().next_child == slot,
        0 <= slot < walk.last().node.children@.len(),
        walk.last().node.children@[slot].1 == Child::<K, V>::InMem(child),
        frame.node == walk.last().node,
        frame.next_child == slot + 1,
    ensures
        census_left(walk.drop_last().push(frame)) + child.steps() == census_left(walk),
{
    let passed = walk.drop_last().push(frame);
    assert(passed.drop_last() =~= walk.drop_last());
    let node = *frame.node;
    assert(node.kids_steps((slot + 1) as nat) == node.kids_steps(slot as nat) + child.steps());
}

impl<K: KeyEncoding, V: DictionaryValue> GraphPolicy<K, V> for DagAware<K, V> {
    open spec fn memo(&self) -> Seq<(Arc<OverlayNode<K, V>>, NodeBuildState)> {
        self.entries@
    }

    open spec fn fresh(&self) -> bool {
        !self.graph_prepared && self.entries@.len() == 0
    }

    open spec fn prepared_for(&self, root: Arc<OverlayNode<K, V>>) -> bool {
        &&& self.graph_prepared
        &&& self.index_told()
        &&& exists|
            nodes: Seq<Arc<OverlayNode<K, V>>>,
            edges: Seq<GraphEdge>,
            addresses: Seq<u64>,
        |
            graph_below(root, nodes, edges) && #[trigger] graph_told(nodes, edges, addresses)
                && self.nodes() == shared_nodes(nodes, edges)
    }

    open spec fn boundary(&self, node: Arc<OverlayNode<K, V>>, r: bool) -> bool {
        exists|position: Option<usize>| #[trigger]
            self.finds(node, position) && r == (position is Some)
    }

    open spec fn done(&self, node: Arc<OverlayNode<K, V>>, ptr: SwizzledPtr) -> bool {
        exists|i: usize| #[trigger] self.finds(node, Some(i)) && self.completed_at(i as int, ptr)
    }

    open spec fn noted(&self, node: Arc<OverlayNode<K, V>>, ptr: SwizzledPtr) -> bool {
        exists|position: Option<usize>| #[trigger]
            self.finds(node, position) && (position matches Some(i) ==> self.completed_at(
                i as int,
                ptr,
            ))
    }

    open spec fn unseen(&self, node: Arc<OverlayNode<K, V>>) -> bool {
        exists|position: Option<usize>| #[trigger]
            self.finds(node, position) && (position matches Some(i) ==> self.entries@[i as int].1
                == NodeBuildState::Unseen)
    }

    open spec fn activated(&self, node: Arc<OverlayNode<K, V>>) -> bool {
        exists|position: Option<usize>| #[trigger]
            self.finds(node, position) && (position matches Some(i) ==> self.entries@[i as int].1
                == NodeBuildState::Active)
    }

    open spec fn steady(&self) -> bool {
        forall|i: usize|
            i < self.entries@.len() && (#[trigger] self.entries@[i as int]).1
                == NodeBuildState::Active ==> self.finds(self.entries@[i as int].0, Some(i))
    }

    open spec fn doubted(&self) -> bool {
        exists|node: Arc<OverlayNode<K, V>>, x: Option<usize>, y: Option<usize>|
            #[trigger] self.finds(node, x) && #[trigger] self.finds(node, y) && x != y
    }

    fn prepare_graph(&mut self, root: &Arc<OverlayNode<K, V>>) -> (r: TrieResult<()>)
        ensures
            match r {
                Ok(()) => {
                    &&& !old(self).graph_prepared
                    &&& old(self).entries@.len() == 0
                    &&& final(self).graph_prepared
                    &&& final(self).index_told()
                    &&& exists|
                        nodes: Seq<Arc<OverlayNode<K, V>>>,
                        edges: Seq<GraphEdge>,
                        addresses: Seq<u64>,
                    |
                        graph_below(*root, nodes, edges) && #[trigger] graph_told(
                            nodes,
                            edges,
                            addresses,
                        ) && final(self).entries@ == shared(nodes, edges, nodes.len())
                },
                Err(e) => {
                    &&& old(self).graph_prepared || old(self).entries@.len() > 0
                        ==> e is InternalError
                    &&& no_room(e) || (e is InternalError && (old(self).graph_prepared || old(
                        self,
                    ).entries@.len() > 0 || root.steps() >= usize::MAX))
                    &&& *final(self) == *old(self)
                },
            },
    {
        if self.graph_prepared || self.entries.len() > 0 {
            return Err(
                PersistentARTrieError::internal(
                    "compressed serializer graph census was initialized more than once",
                ),
            );
        }
        let (census, Ghost(edges)) = match take_census(root) {
            Ok(census) => census,
            Err(e) => {
                return Err(e);
            },
        };
        proof {
            let nodes = census_nodes(census@);
            let addresses = census_addresses(census@);
            assert forall|k: int| 0 <= k < census@.len() implies told_address(
                (#[trigger] census@[k]).node,
                census@[k].address,
            ) by {
                assert(told_address(nodes[k], addresses[k]));
            }
        }
        let mut found: Vec<(Arc<OverlayNode<K, V>>, NodeBuildState)> = Vec::new();
        let mut index: HashMap<u64, usize> = HashMap::new();
        let mut i: usize = 0;
        while i < census.len()
            invariant
                i <= census@.len(),
                forall|k: int|
                    0 <= k < census@.len() ==> {
                        &&& (#[trigger] census@[k]).node.wf()
                        &&& reachable(root@, census@[k].node@)
                        &&& census@[k].incoming_edges == edges_to(edges, k)
                        &&& told_address(census@[k].node, census@[k].address)
                    },
                found@ == shared(census_nodes(census@), edges, i as nat),
                index_told(Seq::new(found@.len(), |k: int| found@[k].0), index@),
                forall|k: int|
                    0 <= k < found@.len() ==> (#[trigger] found@[k]).1 == NodeBuildState::Unseen
                        && reachable(root@, found@[k].0@),
            decreases census@.len() - i,
        {
            if census[i].incoming_edges > 1 {
                let address: u64 = census[i].address;
                let position: usize = found.len();
                let ghost before = Seq::new(found@.len(), |k: int| found@[k].0);
                proof {
                    lemma_index_push(before, index@, census@[i as int].node, address);
                }
                index.insert(address, position);
                found.push((share(&census[i].node), NodeBuildState::Unseen));
                assert(Seq::new(found@.len(), |k: int| found@[k].0) =~= before.push(
                    census@[i as int].node,
                ));
            }
            i += 1;
        }
        let ghost nodes = Seq::new(found@.len(), |k: int| found@[k].0);
        self.entries = found;
        self.index = index;
        assert(self.nodes() =~= nodes);
        assert(self.nodes() =~= shared_nodes(census_nodes(census@), edges));
        self.graph_prepared = true;
        Ok(())
    }

    fn is_compression_boundary(&self, node: &Arc<OverlayNode<K, V>>) -> (r: bool)
        ensures
            exists|position: Option<usize>| #[trigger]
                self.finds(*node, position) && r == (position is Some),
    {
        let position: Option<usize> = self.position(node);
        proof {
            if position is Some {
                assert(self.memo()[position->0 as int].0 == *node);
            }
        }
        position.is_some()
    }

    fn node_build_state(&self, node: &Arc<OverlayNode<K, V>>) -> (r: NodeBuildState)
        ensures
            exists|position: Option<usize>| #[trigger]
                self.finds(*node, position) && r == match position {
                    Some(i) => self.entries@[i as int].1,
                    None => NodeBuildState::Unseen,
                },
    {
        let position: Option<usize> = self.position(node);
        let state = self.state_at(position);
        proof {
            if position is Some {
                assert(self.memo()[position->0 as int] == (*node, state));
                match state {
                    NodeBuildState::Complete(subtree) => {
                        assert(self.finds(*node, Some(position->0)));
                        assert(self.completed_at(position->0 as int, subtree.disk_ptr));
                    },
                    _ => {},
                }
            }
        }
        state
    }

    fn mark_active(&mut self, node: &Arc<OverlayNode<K, V>>) -> (r: TrieResult<()>)
        ensures
            exists|position: Option<usize>| #[trigger]
                old(self).finds(*node, position) && Self::activates(
                    *old(self),
                    position,
                    r,
                    *final(self),
                ),
    {
        let position: Option<usize> = self.position(node);
        let ghost before = *self;
        let r = self.activate_at(position);
        proof {
            lemma_states_change(before, *self);
            assert(self.finds(*node, position));
            lemma_activation(before, *self, *node, position);
            if r is Err {
                assert(before.memo()[position->0 as int].1 != NodeBuildState::Unseen);
                if before.unseen(*node) {
                    let x = choose|x: Option<usize>| #[trigger]
                        before.finds(*node, x) && (x matches Some(i) ==> before.entries@[i as int].1
                            == NodeBuildState::Unseen);
                    assert(before.finds(*node, position) && x != position);
                }
            }
        }
        r
    }

    fn mark_complete(
        &mut self,
        node: &Arc<OverlayNode<K, V>>,
        expected: ExpectedBuildState,
        disk_ptr: &SwizzledPtr,
        registry_span: Option<RegistryBuilderSubtree>,
    ) -> (r: TrieResult<()>)
        ensures
            exists|position: Option<usize>| #[trigger]
                old(self).finds(*node, position) && Self::completes(
                    *old(self),
                    position,
                    expected,
                    CompletedSubtree { disk_ptr: *disk_ptr, registry_span },
                    r,
                    *final(self),
                ),
    {
        let subtree = CompletedSubtree { disk_ptr: *disk_ptr, registry_span };
        let position: Option<usize> = self.position(node);
        let ghost before = *self;
        let r = self.complete_at(position, expected, subtree);
        proof {
            lemma_states_change(before, *self);
            assert(self.finds(*node, position));
            if r is Ok && position is Some {
                assert(self.completed_at(position->0 as int, *disk_ptr));
            }
            lemma_completion(before, *self, *node, position);
            if r is Ok && before.steady() && !before.doubted() {
                assert(self.entries.len() == self.entries@.len());
                assert forall|i: int|
                    0 <= i < self.memo().len() && (#[trigger] self.memo()[i]).1
                        == NodeBuildState::Active implies self.memo()[i].0 != *node by {
                    if self.memo()[i].0 == *node {
                        let at = i as usize;
                        assert(before.entries@[at as int].1 == NodeBuildState::Active);
                        assert(before.finds(*node, Some(at)) && before.finds(*node, position));
                    }
                }
            }
            if r is Ok && registry_span is None && before.boundary(*node, false)
                && !before.doubted() {
                let x = choose|x: Option<usize>| #[trigger]
                    before.finds(*node, x) && false == (x is Some);
                assert(before.finds(*node, position) && x == position);
            }
            if r is Err && !before.doubted() {
                if position is None {
                    if before.boundary(*node, true) {
                        let x = choose|x: Option<usize>| #[trigger]
                            before.finds(*node, x) && true == (x is Some);
                        assert(before.finds(*node, position) && x != position);
                    }
                } else if expected == ExpectedBuildState::Active {
                    if before.activated(*node) {
                        let x = choose|x: Option<usize>| #[trigger]
                            before.finds(*node, x) && (x matches Some(i)
                                ==> before.entries@[i as int].1 == NodeBuildState::Active);
                        assert(before.finds(*node, position) && x != position);
                    }
                } else if before.unseen(*node) {
                    let x = choose|x: Option<usize>| #[trigger]
                        before.finds(*node, x) && (x matches Some(i) ==> before.entries@[i as int].1
                            == NodeBuildState::Unseen);
                    assert(before.finds(*node, position) && x != position);
                }
            }
        }
        r
    }
}

} // verus!
