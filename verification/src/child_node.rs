//! Children of trie nodes: in memory, or where they were written.

use vstd::prelude::*;
use crate::swizzled_ptr::SwizzledPtr;

verus! {

/// What a node says about itself.
#[derive(Clone, Copy, Debug, PartialEq, Eq, Structural)]
pub struct NodeHeader {
    pub is_final: bool,
    /// The node has changed since it was written.
    pub is_dirty: bool,
    /// Something below the node has.
    pub has_dirty_descendants: bool,
}

impl NodeHeader {
    /// The header with its change flags down.
    pub open spec fn without_flags(self) -> Self {
        NodeHeader { is_final: self.is_final, is_dirty: false, has_dirty_descendants: false }
    }

    /// The header of a node without terms.
    pub fn new() -> (r: Self)
        ensures
            r == (NodeHeader { is_final: false, is_dirty: false, has_dirty_descendants: false }),
    {
        NodeHeader { is_final: false, is_dirty: false, has_dirty_descendants: false }
    }

    /// Takes the change flags down.
    pub fn clear_dirty_flags(&mut self)
        ensures
            *final(self) == old(self).without_flags(),
    {
        self.is_dirty = false;
        self.has_dirty_descendants = false;
    }
}

/// Terms that share one leaf.
pub struct StringBucket {
    pub terms: Vec<Vec<u8>>,
}

impl StringBucket {
    /// No terms.
    pub fn new() -> (r: Self)
        ensures
            r.terms@.len() == 0,
    {
        StringBucket { terms: Vec::new() }
    }
}

/// A child of a node.
pub enum ChildNode {
    /// A leaf.
    Bucket(StringBucket),
    /// An inner node.
    ArtNode {
        node: NodeHeader,
        is_final: bool,
        value: Option<Vec<u8>>,
        children: Vec<(u8, ChildNode)>,
    },
    /// A node that is not in memory.
    DiskRef { ptr: SwizzledPtr },
}

/// The root of a trie.
pub enum TrieRoot {
    /// A single leaf.
    Bucket(StringBucket),
    /// An inner node.
    ArtNode {
        node: NodeHeader,
        children: Vec<(u8, ChildNode)>,
        is_final: bool,
        value: Option<Vec<u8>>,
    },
}

/// A child whose change flags are down, everywhere.
pub open spec fn child_cleared(before: ChildNode, after: ChildNode) -> bool
    decreases before,
{
    match (before, after) {
        (ChildNode::Bucket(a), ChildNode::Bucket(b)) => a == b,
        (
            ChildNode::ArtNode { node: a, is_final: f, value: v, children: x },
            ChildNode::ArtNode { node: b, is_final: g, value: w, children: y },
        ) => {
            &&& b == a.without_flags()
            &&& f == g
            &&& v == w
            &&& x@.len() == y@.len()
            &&& forall|i: int|
                0 <= i < x@.len() ==> (#[trigger] y@[i]).0 == x@[i].0 && child_cleared(
                    x@[i].1,
                    y@[i].1,
                )
        },
        (ChildNode::DiskRef { ptr: p }, ChildNode::DiskRef { ptr: q }) => p == q,
        _ => false,
    }
}

/// Takes down the change flags of a child and of everything below it.
pub fn clear_child_dirty_flags_recursive(child: &mut ChildNode)
    ensures
        child_cleared(*old(child), *final(child)),
    decreases *old(child),
{
    match child {
        ChildNode::Bucket(_) => {},
        ChildNode::ArtNode { node, children, .. } => {
            node.clear_dirty_flags();
            let ghost before = children@;
            let count: usize = children.len();
            let mut i: usize = 0;
            while i < count
                invariant
                    *old(child) is ArtNode,
                    before == old(child)->ArtNode_children@,
                    count == before.len() == children@.len(),
                    i <= count,
                    forall|k: int|
                        0 <= k < i ==> (#[trigger] children@[k]).0 == before[k].0
                            && child_cleared(before[k].1, children@[k].1),
                    forall|k: int| i <= k < count ==> #[trigger] children@[k] == before[k],
                decreases count - i,
            {
                assert(decreases_to!(*old(child) => before[i as int].1));
                clear_child_dirty_flags_recursive(&mut children[i].1);
                i += 1;
            }
        },
        ChildNode::DiskRef { .. } => {},
    }
}

/// Takes down the change flags of all children and of everything below them.
pub fn clear_children(children: &mut Vec<(u8, ChildNode)>)
    ensures
        final(children)@.len() == old(children)@.len(),
        forall|i: int|
            0 <= i < old(children)@.len() ==> (#[trigger] final(children)@[i]).0 == old(
                children,
            )@[i].0 && child_cleared(old(children)@[i].1, final(children)@[i].1),
{
    let ghost before = children@;
    let count: usize = children.len();
    let mut i: usize = 0;
    while i < count
        invariant
            count == before.len() == children@.len(),
            i <= count,
            forall|k: int|
                0 <= k < i ==> (#[trigger] children@[k]).0 == before[k].0 && child_cleared(
                    before[k].1,
                    children@[k].1,
                ),
            forall|k: int| i <= k < count ==> #[trigger] children@[k] == before[k],
        decreases count - i,
    {
        clear_child_dirty_flags_recursive(&mut children[i].1);
        i += 1;
    }
}

} // verus!
