//! Which paths have changed since they were written, and where the others lie.

use vstd::prelude::*;
use crate::dict_impl::{resolvable, resolve_child_for_mutation_with_bm, resolved};
use crate::child_node::{child_cleared, clear_children, ChildNode, NodeHeader, TrieRoot};
use crate::path_map::PathMap;
use crate::swizzled_ptr::SwizzledPtr;

verus! {

/// The paths that have changed, the places where unchanged paths were written, and
/// the tree that carries change flags.
pub struct DirtyTracking {
    pub dirty_prefixes: PathMap<()>,
    pub persisted_disk_locations: PathMap<SwizzledPtr>,
    pub root: TrieRoot,
}

/// A root whose change flags are down, everywhere.
pub open spec fn root_cleared(before: TrieRoot, after: TrieRoot) -> bool {
    match (before, after) {
        (TrieRoot::Bucket(a), TrieRoot::Bucket(b)) => a == b,
        (
            TrieRoot::ArtNode { node: a, children: x, is_final: f, value: v },
            TrieRoot::ArtNode { node: b, children: y, is_final: g, value: w },
        ) => {
            &&& b == a.without_flags()
            &&& f == g
            &&& v == w
            &&& x@.len() == y@.len()
            &&& forall|i: int|
                0 <= i < x@.len() ==> (#[trigger] y@[i]).0 == x@[i].0 && child_cleared(
                    x@[i].1,
                    y@[i].1,
                )
        },
        _ => false,
    }
}

impl DirtyTracking {
    /// The maps are in order.
    pub open spec fn wf(self) -> bool {
        self.dirty_prefixes.wf() && self.persisted_disk_locations.wf()
    }

    /// A path has changed.
    pub open spec fn is_dirty(self, path: Seq<u8>) -> bool {
        self.dirty_prefixes@.dom().contains(path)
    }

    /// Nothing has changed, and nothing was written.
    pub fn new(root: TrieRoot) -> (r: Self)
        ensures
            r.wf(),
            r.dirty_prefixes@ == Map::<Seq<u8>, ()>::empty(),
            r.persisted_disk_locations@ == Map::<Seq<u8>, SwizzledPtr>::empty(),
            r.root == root,
    {
        DirtyTracking {
            dirty_prefixes: PathMap::new(),
            persisted_disk_locations: PathMap::new(),
            root,
        }
    }

    /// Takes note that the end of a path has changed: so has every prefix of it, and
    /// none of them lies where it was written.
    pub fn record_dirty_path(&mut self, path: &[u8])
        requires
            old(self).wf(),
        ensures
            final(self).wf(),
            final(self).root == old(self).root,
            forall|p: Seq<u8>| #[trigger]
                final(self).is_dirty(p) == (old(self).is_dirty(p) || p.is_prefix_of(path@)),
            forall|p: Seq<u8>| #[trigger]
                final(self).persisted_disk_locations@.dom().contains(p) == (old(
                    self,
                ).persisted_disk_locations@.dom().contains(p) && !p.is_prefix_of(path@)),
            forall|p: Seq<u8>| #[trigger]
                final(self).persisted_disk_locations@.dom().contains(p)
                    ==> final(self).persisted_disk_locations@[p] == old(
                    self,
                ).persisted_disk_locations@[p],
    {
        let ghost before = *self;
        let total: usize = path.len();
        let mut length: usize = 0;
        let mut done: bool = false;
        while !done
            invariant
                self.wf(),
                total == path@.len(),
                length <= total,
                self.root == before.root,
                !done ==> forall|p: Seq<u8>| #[trigger]
                    self.is_dirty(p) == (before.is_dirty(p) || (p.is_prefix_of(path@) && p.len()
                        < length)),
                !done ==> forall|p: Seq<u8>| #[trigger]
                    self.persisted_disk_locations@.dom().contains(p) == (
                    before.persisted_disk_locations@.dom().contains(p) && !(p.is_prefix_of(path@)
                        && p.len() < length)),
                done ==> forall|p: Seq<u8>| #[trigger]
                    self.is_dirty(p) == (before.is_dirty(p) || p.is_prefix_of(path@)),
                done ==> forall|p: Seq<u8>| #[trigger]
                    self.persisted_disk_locations@.dom().contains(p) == (
                    before.persisted_disk_locations@.dom().contains(p) && !p.is_prefix_of(path@)),
                forall|p: Seq<u8>| #[trigger]
                    self.persisted_disk_locations@.dom().contains(p)
                        ==> self.persisted_disk_locations@[p]
                        == before.persisted_disk_locations@[p],
            decreases total - length, (if done { 0int } else { 1 }),
        {
            let prefix = vstd::slice::slice_subrange(path, 0, length);
            let ghost here = *self;
            self.dirty_prefixes.insert(prefix, ());
            self.persisted_disk_locations.remove(prefix);
            proof {
                assert(prefix@ =~= path@.take(length as int));
                assert forall|p: Seq<u8>| #[trigger] self.is_dirty(p) == (before.is_dirty(p) || (
                p.is_prefix_of(path@) && p.len() < length + 1)) by {
                    assert(here.is_dirty(p) == (before.is_dirty(p) || (p.is_prefix_of(path@)
                        && p.len() < length)));
                    lemma_prefix_of_length(p, path@, prefix@);
                }
                assert forall|p: Seq<u8>| #[trigger]
                    self.persisted_disk_locations@.dom().contains(p) == (
                before.persisted_disk_locations@.dom().contains(p) && !(p.is_prefix_of(path@)
                    && p.len() < length + 1)) by {
                    assert(here.persisted_disk_locations@.dom().contains(p) == (
                    before.persisted_disk_locations@.dom().contains(p) && !(p.is_prefix_of(path@)
                        && p.len() < length)));
                    lemma_prefix_of_length(p, path@, prefix@);
                }
            }
            if length == total {
                done = true;
            } else {
                length += 1;
            }
        }
    }

    /// Whether a path has changed.
    pub fn path_needs_persistence(&self, path: &[u8]) -> (r: bool)
        requires
            self.wf(),
        ensures
            r == self.is_dirty(path@),
    {
        self.dirty_prefixes.contains(path)
    }

    /// Takes note on the root that something below it has changed.
    pub fn propagate_dirty_to_root(&mut self)
        ensures
            final(self).dirty_prefixes == old(self).dirty_prefixes,
            final(self).persisted_disk_locations == old(self).persisted_disk_locations,
            match (old(self).root, final(self).root) {
                (
                    TrieRoot::ArtNode { node: a, children: x, is_final: f, value: v },
                    TrieRoot::ArtNode { node: b, children: y, is_final: g, value: w },
                ) => {
                    &&& b == (NodeHeader { has_dirty_descendants: true, ..a })
                    &&& x == y
                    &&& f == g
                    &&& v == w
                },
                (a, b) => a == b,
            },
    {
        match &mut self.root {
            TrieRoot::ArtNode { node, .. } => {
                node.has_dirty_descendants = true;
            },
            TrieRoot::Bucket(_) => {},
        }
    }

    /// Takes note of where a path was written.
    pub fn cache_disk_location(&mut self, path: &[u8], ptr: SwizzledPtr)
        requires
            old(self).wf(),
        ensures
            final(self).wf(),
            final(self).dirty_prefixes == old(self).dirty_prefixes,
            final(self).root == old(self).root,
            final(self).persisted_disk_locations@ == old(self).persisted_disk_locations@.insert(
                path@,
                ptr,
            ),
    {
        self.persisted_disk_locations.insert(path, ptr);
    }

    /// Where a path was written, unless it has changed since.
    pub fn get_cached_disk_location(&self, path: &[u8]) -> (r: Option<SwizzledPtr>)
        requires
            self.wf(),
        ensures
            r == (if !self.is_dirty(path@) && self.persisted_disk_locations@.dom().contains(path@) {
                Some(self.persisted_disk_locations@[path@])
            } else {
                None
            }),
    {
        if self.dirty_prefixes.contains(path) {
            None
        } else {
            self.persisted_disk_locations.get(path)
        }
    }

    /// Takes note of where a durable child lies, before it is loaded.
    pub fn cache_before_resolution(&mut self, child: &ChildNode, path: &[u8])
        requires
            old(self).wf(),
        ensures
            final(self).wf(),
            final(self).dirty_prefixes == old(self).dirty_prefixes,
            final(self).root == old(self).root,
            final(self).persisted_disk_locations@ == match *child {
                ChildNode::DiskRef { ptr } => old(self).persisted_disk_locations@.insert(
                    path@,
                    ptr,
                ),
                _ => old(self).persisted_disk_locations@,
            },
    {
        match child {
            ChildNode::DiskRef { ptr } => {
                self.cache_disk_location(path, *ptr);
            },
            _ => {},
        }
    }

    /// Loads a child before it is changed, and takes note of where it lay. The location
    /// is kept even where the child cannot be loaded.
    pub fn resolve_and_cache_disk_location<
        P: Fn(u32) -> Option<Vec<u8>>,
        D: Fn(&[u8]) -> Option<NodeHeader>,
    >(
        &mut self,
        child: &mut ChildNode,
        path: &[u8],
        buffer_manager: Option<P>,
        decode: D,
    ) -> (r: bool)
        requires
            old(self).wf(),
            resolvable(*old(child), buffer_manager, decode),
        ensures
            final(self).wf(),
            final(self).dirty_prefixes == old(self).dirty_prefixes,
            final(self).root == old(self).root,
            final(self).persisted_disk_locations@ == match *old(child) {
                ChildNode::DiskRef { ptr } => old(self).persisted_disk_locations@.insert(
                    path@,
                    ptr,
                ),
                _ => old(self).persisted_disk_locations@,
            },
            resolved(*old(child), buffer_manager, decode, r, *final(child)),
    {
        self.cache_before_resolution(child, path);
        resolve_child_for_mutation_with_bm(child, buffer_manager, decode)
    }

    /// Takes note of a checkpoint: nothing has changed since. Where paths were written
    /// stays known.
    pub fn clear_dirty_tracking_state(&mut self)
        requires
            old(self).wf(),
        ensures
            final(self).wf(),
            final(self).dirty_prefixes@ == Map::<Seq<u8>, ()>::empty(),
            final(self).persisted_disk_locations == old(self).persisted_disk_locations,
            root_cleared(old(self).root, final(self).root),
    {
        self.dirty_prefixes.clear();
        self.clear_dirty_flags_recursive();
    }

    /// Takes down the change flags of every node.
    fn clear_dirty_flags_recursive(&mut self)
        ensures
            final(self).dirty_prefixes == old(self).dirty_prefixes,
            final(self).persisted_disk_locations == old(self).persisted_disk_locations,
            root_cleared(old(self).root, final(self).root),
    {
        match &mut self.root {
            TrieRoot::Bucket(_) => {},
            TrieRoot::ArtNode { node, children, .. } => {
                node.clear_dirty_flags();
                clear_children(children);
            },
        }
    }
}

/// The prefix of a given length.
proof fn lemma_prefix_of_length(p: Seq<u8>, path: Seq<u8>, prefix: Seq<u8>)
    requires
        prefix.len() <= path.len(),
        prefix == path.take(prefix.len() as int),
    ensures
        (p.is_prefix_of(path) && p.len() < prefix.len() + 1) == ((p.is_prefix_of(path) && p.len()
            < prefix.len()) || p == prefix),
{
    if p.is_prefix_of(path) && p.len() == prefix.len() {
        assert(p =~= prefix);
    }
}

/// A path that was marked is not found where it was written, nor is any prefix of it.
pub proof fn dirty_paths_have_no_location(before: DirtyTracking, after: DirtyTracking, path: Seq<u8>, p: Seq<u8>)
    requires
        forall|q: Seq<u8>| #[trigger]
            after.is_dirty(q) == (before.is_dirty(q) || q.is_prefix_of(path)),
        forall|q: Seq<u8>| #[trigger]
            after.persisted_disk_locations@.dom().contains(q) == (
            before.persisted_disk_locations@.dom().contains(q) && !q.is_prefix_of(path)),
        p.is_prefix_of(path),
    ensures
        after.is_dirty(p),
        !after.persisted_disk_locations@.dom().contains(p),
{
    assert(after.is_dirty(p) == (before.is_dirty(p) || p.is_prefix_of(path)));
}

} // verus!
