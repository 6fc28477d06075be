//! Changed paths, the places where unchanged ones lie, and the flags of nodes.

use vstd::prelude::*;
use crate::child_node::{
    child_cleared, clear_child_dirty_flags_recursive, clear_children, ChildNode, NodeHeader,
    TrieRoot,
};
use crate::dict_impl::{close_steps, resolvable, resolve_child_for_mutation_with_bm, CloseStep};
use crate::dirty_tracking::DirtyTracking;
use crate::overlay::checkpoint::{
    checkpoint_route_split, publish_captured_overlay_snapshot, CheckpointStep,
};
use crate::swizzled_ptr::{DiskLocation, NodeType, SwizzledPtr};

verus! {

/// A path begins another.
pub open spec fn begins(p: Seq<u8>, path: Seq<u8>) -> bool {
    p.len() <= path.len() && forall|i: int| 0 <= i < p.len() ==> #[trigger] p[i] == path[i]
}

/// A path that is recorded has to be written, and so has every path that begins it; none
/// of them is found where it was written. Every other path is as it was.
pub proof fn a_changed_path_has_to_be_written(
    tracking: &mut DirtyTracking,
    before: DirtyTracking,
    after: DirtyTracking,
    path: &[u8],
    probe: &[u8],
    needed: bool,
    place: Option<SwizzledPtr>,
    now_needed: bool,
    now_place: Option<SwizzledPtr>,
)
    requires
        before.wf(),
        *tracking == before,
        *final(tracking) == after,
        call_ensures(DirtyTracking::record_dirty_path, (tracking, path), ()),
        call_ensures(DirtyTracking::path_needs_persistence, (&before, probe), needed),
        call_ensures(DirtyTracking::get_cached_disk_location, (&before, probe), place),
        call_ensures(DirtyTracking::path_needs_persistence, (&after, probe), now_needed),
        call_ensures(DirtyTracking::get_cached_disk_location, (&after, probe), now_place),
    ensures
        now_needed <==> needed || begins(probe@, path@),
        now_place == if begins(probe@, path@) {
            None
        } else {
            place
        },
        now_needed ==> now_place is None,
        after.root == before.root,
{
    assert(begins(probe@, path@) <==> probe@.is_prefix_of(path@)) by {
        if begins(probe@, path@) {
            assert(probe@ =~= path@.subrange(0, probe@.len() as int));
        }
        if probe@.is_prefix_of(path@) {
            assert forall|i: int| 0 <= i < probe@.len() implies #[trigger] probe@[i] == path@[i] by {
                assert(path@.subrange(0, probe@.len() as int)[i] == path@[i]);
            }
        }
    }
    assert(after.is_dirty(probe@) == (before.is_dirty(probe@) || probe@.is_prefix_of(path@)));
    assert(after.persisted_disk_locations@.dom().contains(probe@) == (
    before.persisted_disk_locations@.dom().contains(probe@) && !probe@.is_prefix_of(path@)));
}

/// A path whose place is taken note of is found there unless it has to be written; no
/// other path is found elsewhere than before, and nothing has to be written that had not.
pub proof fn a_written_path_is_found(
    tracking: &mut DirtyTracking,
    before: DirtyTracking,
    after: DirtyTracking,
    path: &[u8],
    ptr: SwizzledPtr,
    probe: &[u8],
    needed: bool,
    place: Option<SwizzledPtr>,
    now_needed: bool,
    now_place: Option<SwizzledPtr>,
)
    requires
        before.wf(),
        *tracking == before,
        *final(tracking) == after,
        call_ensures(DirtyTracking::cache_disk_location, (tracking, path, ptr), ()),
        call_ensures(DirtyTracking::path_needs_persistence, (&before, probe), needed),
        call_ensures(DirtyTracking::get_cached_disk_location, (&before, probe), place),
        call_ensures(DirtyTracking::path_needs_persistence, (&after, probe), now_needed),
        call_ensures(DirtyTracking::get_cached_disk_location, (&after, probe), now_place),
    ensures
        now_needed == needed,
        now_place == if needed {
            None
        } else if probe@ == path@ {
            Some(ptr)
        } else {
            place
        },
        after.root == before.root,
{
}

/// The place of a child is taken note of exactly if it is a durable one.
pub proof fn the_place_of_a_durable_child_is_kept(
    by_child: &mut DirtyTracking,
    by_place: &mut DirtyTracking,
    before: DirtyTracking,
    child_after: DirtyTracking,
    place_after: DirtyTracking,
    child: &ChildNode,
    ptr: SwizzledPtr,
    path: &[u8],
)
    requires
        before.wf(),
        *by_child == before,
        *by_place == before,
        *final(by_child) == child_after,
        *final(by_place) == place_after,
        *child matches ChildNode::DiskRef { ptr: p } ==> p == ptr,
        call_ensures(DirtyTracking::cache_before_resolution, (by_child, child, path), ()),
        call_ensures(DirtyTracking::cache_disk_location, (by_place, path, ptr), ()),
    ensures
        child_after.persisted_disk_locations@ == if *child is DiskRef {
            place_after.persisted_disk_locations@
        } else {
            before.persisted_disk_locations@
        },
        child_after.dirty_prefixes == before.dirty_prefixes,
        child_after.root == before.root,
{
}

/// After a checkpoint nothing has to be written, and a path that had not to be is found
/// where it was. A new tracking knows of nothing.
pub proof fn nothing_has_changed_since_a_checkpoint(
    tracking: &mut DirtyTracking,
    before: DirtyTracking,
    after: DirtyTracking,
    probe: &[u8],
    needed: bool,
    place: Option<SwizzledPtr>,
    now_needed: bool,
    now_place: Option<SwizzledPtr>,
    root: TrieRoot,
    fresh: DirtyTracking,
    fresh_needed: bool,
    fresh_place: Option<SwizzledPtr>,
)
    requires
        before.wf(),
        *tracking == before,
        *final(tracking) == after,
        call_ensures(DirtyTracking::clear_dirty_tracking_state, (tracking,), ()),
        call_ensures(DirtyTracking::path_needs_persistence, (&before, probe), needed),
        call_ensures(DirtyTracking::get_cached_disk_location, (&before, probe), place),
        call_ensures(DirtyTracking::path_needs_persistence, (&after, probe), now_needed),
        call_ensures(DirtyTracking::get_cached_disk_location, (&after, probe), now_place),
        call_ensures(DirtyTracking::new, (root,), fresh),
        call_ensures(DirtyTracking::path_needs_persistence, (&fresh, probe), fresh_needed),
        call_ensures(DirtyTracking::get_cached_disk_location, (&fresh, probe), fresh_place),
    ensures
        !now_needed,
        !needed ==> now_place == place,
        !fresh_needed,
        fresh_place is None,
        fresh.root == root,
{
}

/// The node that some positions among children lead to.
pub open spec fn below(child: ChildNode, at: Seq<nat>) -> Option<ChildNode>
    decreases at.len(),
{
    if at.len() == 0 {
        Some(child)
    } else {
        match child {
            ChildNode::ArtNode { children, .. } => if at[0] < children@.len() {
                below(children@[at[0] as int].1, at.drop_first())
            } else {
                None
            },
            _ => None,
        }
    }
}

/// Two nodes are the same but for the flags, which the second has down: the same kind,
/// term, value and labels of edges.
pub open spec fn quieted(before: ChildNode, after: ChildNode) -> bool {
    match (before, after) {
        (ChildNode::Bucket(a), ChildNode::Bucket(b)) => a == b,
        (ChildNode::DiskRef { ptr: p }, ChildNode::DiskRef { ptr: q }) => p == q,
        (
            ChildNode::ArtNode { node: a, is_final: f, value: v, children: x },
            ChildNode::ArtNode { node: b, is_final: g, value: w, children: y },
        ) => {
            &&& !b.is_dirty
            &&& !b.has_dirty_descendants
            &&& b.is_final == a.is_final
            &&& f == g
            &&& v == w
            &&& x@.len() == y@.len()
            &&& forall|i: int| 0 <= i < x@.len() ==> (#[trigger] x@[i]).0 == y@[i].0
        },
        _ => false,
    }
}

/// Taking the flags of a node down takes them down on every node below it, however deep,
/// and changes nothing else.
pub proof fn flags_are_taken_down_everywhere(
    child: &mut ChildNode,
    before: ChildNode,
    after: ChildNode,
    at: Seq<nat>,
)
    requires
        *child == before,
        *final(child) == after,
        call_ensures(clear_child_dirty_flags_recursive, (child,), ()),
    ensures
        below(before, at) is Some <==> below(after, at) is Some,
        below(before, at) is Some ==> quieted(below(before, at)->0, below(after, at)->0),
{
    lemma_below(before, after, at);
}

/// Flags are down at every position.
proof fn lemma_below(before: ChildNode, after: ChildNode, at: Seq<nat>)
    requires
        child_cleared(before, after),
    ensures
        below(before, at) is Some <==> below(after, at) is Some,
        below(before, at) is Some ==> quieted(below(before, at)->0, below(after, at)->0),
    decreases at.len(),
{
    match (before, after) {
        (
            ChildNode::ArtNode { node: a, is_final: f, value: v, children: x },
            ChildNode::ArtNode { node: b, is_final: g, value: w, children: y },
        ) => {
            assert forall|i: int| 0 <= i < x@.len() implies (#[trigger] x@[i]).0 == y@[i].0 by {
                assert(y@[i].0 == x@[i].0);
            }
            if at.len() > 0 && at[0] < x@.len() {
                assert(y@[at[0] as int].0 == x@[at[0] as int].0);
                lemma_below(x@[at[0] as int].1, y@[at[0] as int].1, at.drop_first());
            }
        },
        _ => {},
    }
}

/// A checkpoint takes down the flags of the root and of every node below it, and changes
/// nothing else of the tree. The header of a node without terms has no flags.
pub proof fn a_checkpoint_takes_every_flag_down(
    tracking: &mut DirtyTracking,
    before: DirtyTracking,
    after: DirtyTracking,
    i: int,
    at: Seq<nat>,
    header: &mut NodeHeader,
    header_before: NodeHeader,
    header_after: NodeHeader,
    fresh: NodeHeader,
)
    requires
        before.wf(),
        *tracking == before,
        *final(tracking) == after,
        call_ensures(DirtyTracking::clear_dirty_tracking_state, (tracking,), ()),
        *header == header_before,
        *final(header) == header_after,
        call_ensures(NodeHeader::clear_dirty_flags, (header,), ()),
        call_ensures(NodeHeader::new, (), fresh),
    ensures
        before.root is Bucket <==> after.root is Bucket,
        before.root is Bucket ==> after.root == before.root,
        before.root is ArtNode ==> {
            &&& !after.root->node.is_dirty
            &&& !after.root->node.has_dirty_descendants
            &&& after.root->node.is_final == before.root->node.is_final
            &&& after.root->is_final == before.root->is_final
            &&& after.root->value == before.root->value
            &&& after.root->children@.len() == before.root->children@.len()
        },
        before.root is ArtNode && 0 <= i < before.root->children@.len() ==> {
            let x = before.root->children@[i];
            let y = after.root->children@[i];
            &&& x.0 == y.0
            &&& below(x.1, at) is Some <==> below(y.1, at) is Some
            &&& below(x.1, at) is Some ==> quieted(below(x.1, at)->0, below(y.1, at)->0)
        },
        !header_after.is_dirty && !header_after.has_dirty_descendants,
        header_after.is_final == header_before.is_final,
        !fresh.is_dirty && !fresh.has_dirty_descendants && !fresh.is_final,
{
    if before.root is ArtNode && 0 <= i < before.root->children@.len() {
        let x = before.root->children@[i];
        let y = after.root->children@[i];
        assert(y.0 == x.0);
        lemma_below(x.1, y.1, at);
    }
}

/// Telling the root that something below it has changed sets that flag of an inner root
/// and changes nothing else.
pub proof fn the_root_is_told_of_changes(
    tracking: &mut DirtyTracking,
    before: DirtyTracking,
    after: DirtyTracking,
)
    requires
        *tracking == before,
        *final(tracking) == after,
        call_ensures(DirtyTracking::propagate_dirty_to_root, (tracking,), ()),
    ensures
        after.dirty_prefixes == before.dirty_prefixes,
        after.persisted_disk_locations == before.persisted_disk_locations,
        before.root is Bucket ==> after.root == before.root,
        before.root is ArtNode ==> {
            &&& after.root is ArtNode
            &&& after.root->node.has_dirty_descendants
            &&& after.root->node.is_dirty == before.root->node.is_dirty
            &&& after.root->node.is_final == before.root->node.is_final
            &&& after.root->children == before.root->children
            &&& after.root->is_final == before.root->is_final
            &&& after.root->value == before.root->value
        },
{
}

/// A child that is in memory stays as it is and counts as loaded. A durable one counts as
/// loaded exactly if it is no longer a durable one; it is then what its layout says, a
/// leaf without terms or an inner node with the header that was read from its place on
/// its page. One that is not loaded stays as it is.
pub proof fn a_child_is_loaded_from_its_place<
    P: Fn(u32) -> Option<Vec<u8>>,
    D: Fn(&[u8]) -> Option<NodeHeader>,
>(
    child: &mut ChildNode,
    before: ChildNode,
    after: ChildNode,
    pages: Option<P>,
    decode: D,
    loaded: bool,
    place: Option<DiskLocation>,
)
    requires
        *child == before,
        *final(child) == after,
        resolvable(before, pages, decode),
        call_ensures(resolve_child_for_mutation_with_bm::<P, D>, (child, pages, decode), loaded),
        before matches ChildNode::DiskRef { ptr } ==> call_ensures(
            SwizzledPtr::disk_location,
            (&ptr,),
            place,
        ),
    ensures
        !(before is DiskRef) ==> loaded && after == before,
        !loaded ==> after == before,
        loaded ==> !(after is DiskRef),
        before is DiskRef && (place is None || pages is None) ==> !loaded,
        before is DiskRef && loaded ==> {
            let layout = place->0.node_type;
            &&& layout == NodeType::Bucket ==> after is Bucket && after->Bucket_0.terms@.len() == 0
            &&& layout != NodeType::Bucket ==> {
                &&& layout == NodeType::Node4 || layout == NodeType::Node16 || layout
                    == NodeType::Node48 || layout == NodeType::Node256
                &&& after is ArtNode
                &&& after->ArtNode_is_final == after->ArtNode_node.is_final
                &&& after->ArtNode_value is None
                &&& after->ArtNode_children@.len() == 0
                &&& read_from(pages->0, decode, place->0, after->ArtNode_node)
            }
        },
{
    if before is DiskRef && loaded && place->0.node_type != NodeType::Bucket {
        let fetch = pages->0;
        let location = place->0;
        let page = choose|page: Vec<u8>| #[trigger]
            call_ensures(fetch, (location.block_id,), Some(page))
                && crate::dict_impl::loaded_from(decode, page@, location, after);
        assert(crate::dict_impl::loaded_from(decode, page@, location, after));
    }
}

/// Loading a child for a change takes note of where it lay, if it was a durable one,
/// whether it could be loaded or not; one that could not stays as it is.
pub proof fn the_place_of_a_loaded_child_is_kept<
    P: Fn(u32) -> Option<Vec<u8>>,
    D: Fn(&[u8]) -> Option<NodeHeader>,
>(
    tracking: &mut DirtyTracking,
    child: &mut ChildNode,
    noting: &mut DirtyTracking,
    before: DirtyTracking,
    after: DirtyTracking,
    noted: DirtyTracking,
    child_before: ChildNode,
    child_after: ChildNode,
    path: &[u8],
    pages: Option<P>,
    decode: D,
    loaded: bool,
)
    requires
        before.wf(),
        *tracking == before,
        *noting == before,
        *final(tracking) == after,
        *final(noting) == noted,
        *child == child_before,
        *final(child) == child_after,
        resolvable(child_before, pages, decode),
        call_ensures(
            DirtyTracking::resolve_and_cache_disk_location::<P, D>,
            (tracking, child, path, pages, decode),
            loaded,
        ),
        call_ensures(
            DirtyTracking::cache_before_resolution,
            (noting, &child_before, path),
            (),
        ),
    ensures
        after.persisted_disk_locations@ == noted.persisted_disk_locations@,
        after.dirty_prefixes == before.dirty_prefixes,
        after.root == before.root,
        !loaded ==> child_after == child_before,
        loaded <==> !(child_after is DiskRef),
        !(child_before is DiskRef) ==> loaded && child_after == child_before,
{
}

/// A header was read from its place on its page.
pub open spec fn read_from<P: Fn(u32) -> Option<Vec<u8>>, D: Fn(&[u8]) -> Option<NodeHeader>>(
    pages: P,
    decode: D,
    place: DiskLocation,
    header: NodeHeader,
) -> bool {
    exists|page: Vec<u8>, bytes: &[u8]|
        {
            &&& #[trigger] call_ensures(pages, (place.block_id,), Some(page))
            &&& bytes@ == page@.skip(place.offset as int)
            &&& #[trigger] call_ensures(decode, (bytes,), Some(header))
        }
}

/// Closing stops the eviction before anything is synced, syncs the log only after the
/// thread that syncs it has stopped, and writes pages last. A step is taken exactly if
/// there is something that it is for.
pub proof fn a_trie_is_closed_in_order(eviction: bool, log: bool, pages: bool, steps: Vec<CloseStep>)
    requires
        call_ensures(close_steps, (eviction, log, pages), steps),
    ensures
        steps@.no_duplicates(),
        steps@.contains(CloseStep::StopEviction) <==> eviction,
        steps@.contains(CloseStep::StopLogSync) <==> log,
        steps@.contains(CloseStep::SyncLog) <==> log,
        steps@.contains(CloseStep::FlushPages) <==> pages,
        forall|i: int, j: int|
            0 <= i < j < steps@.len() ==> closing_place(#[trigger] steps@[i]) < closing_place(
                #[trigger] steps@[j],
            ),
{
    let a = if eviction {
        1int
    } else {
        0
    };
    let b = if log {
        2int
    } else {
        0
    };
    if eviction {
        assert(steps@[0] == CloseStep::StopEviction);
    }
    if log {
        assert(steps@[a] == CloseStep::StopLogSync);
        assert(steps@[a + 1] == CloseStep::SyncLog);
    }
    if pages {
        assert(steps@[a + b] == CloseStep::FlushPages);
    }
}

/// The place of a step among all steps of closing.
pub open spec fn closing_place(step: CloseStep) -> int {
    match step {
        CloseStep::StopEviction => 0,
        CloseStep::StopLogSync => 1,
        CloseStep::SyncLog => 2,
        CloseStep::FlushPages => 3,
    }
}

/// A checkpoint captures first, then publishes as was captured, with the registry
/// exactly if the capture holds one, and then ends.
pub proof fn a_checkpoint_publishes_what_it_captured(
    with_eviction: bool,
    first: Option<CheckpointStep>,
    second: Option<CheckpointStep>,
    third: Option<CheckpointStep>,
    published: CheckpointStep,
)
    requires
        call_ensures(checkpoint_route_split, (None, with_eviction), first),
        call_ensures(checkpoint_route_split, (first, with_eviction), second),
        call_ensures(checkpoint_route_split, (second, with_eviction), third),
        call_ensures(publish_captured_overlay_snapshot, (with_eviction,), published),
    ensures
        first == Some(CheckpointStep::Capture),
        second == Some(published),
        published == CheckpointStep::PublishWithEviction <==> with_eviction,
        published == CheckpointStep::Publish <==> !with_eviction,
        third is None,
{
}

/// Taking down the flags of children does so for each of them as for one, and keeps their
/// labels and their order.
pub proof fn flags_of_all_children_are_taken_down(
    children: &mut Vec<(u8, ChildNode)>,
    before: Vec<(u8, ChildNode)>,
    after: Vec<(u8, ChildNode)>,
    i: int,
    at: Seq<nat>,
)
    requires
        *children == before,
        *final(children) == after,
        call_ensures(clear_children, (children,), ()),
    ensures
        after@.len() == before@.len(),
        0 <= i < before@.len() ==> {
            let x = before@[i];
            let y = after@[i];
            &&& x.0 == y.0
            &&& below(x.1, at) is Some <==> below(y.1, at) is Some
            &&& below(x.1, at) is Some ==> quieted(below(x.1, at)->0, below(y.1, at)->0)
        },
{
    if 0 <= i < before@.len() {
        assert(after@[i].0 == before@[i].0);
        lemma_below(before@[i].1, after@[i].1, at);
    }
}

} // verus!
