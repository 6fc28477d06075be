//! The dictionary: loading children for a change, its root, and closing it.

use std::sync::Arc;
use vstd::prelude::*;
use crate::child_node::{ChildNode, NodeHeader, StringBucket};
use crate::key_encoding::ByteKey;
use crate::overlay::atomic_ptr::{AtomicNodePtr, PublishedRoot};
use crate::overlay::dict_node::OverlayDictionaryNode;
use crate::overlay::faulter::MemoryRecords;
use crate::overlay::node::{OverlayNode, Tree};
use crate::swizzled_ptr::{DiskLocation, NodeType};
use crate::value::DictionaryValue;

verus! {

/// The layouts of inner nodes with byte keys.
pub open spec fn is_inner(node_type: NodeType) -> bool {
    node_type == NodeType::Node4 || node_type == NodeType::Node16 || node_type == NodeType::Node48
        || node_type == NodeType::Node256
}

/// A child that was loaded from a page.
pub open spec fn loaded_from<D: Fn(&[u8]) -> Option<NodeHeader>>(
    decode: D,
    page: Seq<u8>,
    location: DiskLocation,
    child: ChildNode,
) -> bool {
    if location.node_type == NodeType::Bucket {
        child matches ChildNode::Bucket(bucket) && bucket.terms@.len() == 0
    } else {
        is_inner(location.node_type) && exists|bytes: &[u8], header: NodeHeader|
            {
                &&& bytes@ == page.skip(location.offset as int)
                &&& #[trigger] call_ensures(decode, (bytes,), Some(header))
                &&& child matches ChildNode::ArtNode { node, is_final, value, children } && node
                    == header && is_final == header.is_final && value is None && children@.len()
                    == 0
            }
    }
}

/// A page that no child can be loaded from.
pub open spec fn not_loadable<D: Fn(&[u8]) -> Option<NodeHeader>>(
    decode: D,
    page: Seq<u8>,
    location: DiskLocation,
) -> bool {
    &&& location.node_type != NodeType::Bucket
    &&& is_inner(location.node_type) ==> exists|bytes: &[u8]|
        bytes@ == page.skip(location.offset as int) && #[trigger] call_ensures(
            decode,
            (bytes,),
            None,
        )
}

/// A child can be asked for: pages and headers can be read, and the page of the child
/// reaches to the offset of its record.
pub open spec fn resolvable<P: Fn(u32) -> Option<Vec<u8>>, D: Fn(&[u8]) -> Option<NodeHeader>>(
    child: ChildNode,
    buffer_manager: Option<P>,
    decode: D,
) -> bool {
    &&& forall|bytes: &[u8]| call_requires(decode, (bytes,))
    &&& buffer_manager matches Some(fetch) ==> forall|block_id: u32|
        call_requires(fetch, (block_id,))
    &&& child matches ChildNode::DiskRef { ptr } ==> (ptr.location() matches Some(location) ==> (
    buffer_manager matches Some(fetch) ==> forall|page: Vec<u8>| #[trigger]
        call_ensures(fetch, (location.block_id,), Some(page)) ==> location.offset <= page@.len()))
}

/// What became of a child that was to be in memory: one that was there stays as it is;
/// a durable one was loaded from its page, or stays where it is.
pub open spec fn resolved<P: Fn(u32) -> Option<Vec<u8>>, D: Fn(&[u8]) -> Option<NodeHeader>>(
    before: ChildNode,
    buffer_manager: Option<P>,
    decode: D,
    r: bool,
    after: ChildNode,
) -> bool {
    match before {
        ChildNode::DiskRef { ptr } => match (ptr.location(), buffer_manager) {
            (Some(location), Some(fetch)) => if r {
                exists|page: Vec<u8>|
                    #[trigger] call_ensures(fetch, (location.block_id,), Some(page))
                        && loaded_from(decode, page@, location, after)
            } else {
                &&& after == before
                &&& call_ensures(fetch, (location.block_id,), None) || exists|page: Vec<u8>|
                    #[trigger] call_ensures(fetch, (location.block_id,), Some(page))
                        && not_loadable(decode, page@, location)
            },
            _ => !r && after == before,
        },
        _ => r && after == before,
    }
}

/// Brings a child into memory before it is changed. A child that is in memory stays
/// as it is. `buffer_manager` gives back the page of a block, `decode` the header of
/// an inner node; a page must reach to the offset of the record. A leaf comes back
/// without terms. The result says whether the child is in memory now.
pub fn resolve_child_for_mutation_with_bm<
    P: Fn(u32) -> Option<Vec<u8>>,
    D: Fn(&[u8]) -> Option<NodeHeader>,
>(child: &mut ChildNode, buffer_manager: Option<P>, decode: D) -> (r: bool)
    requires
        resolvable(*old(child), buffer_manager, decode),
    ensures
        resolved(*old(child), buffer_manager, decode, r, *final(child)),
{
    let location: DiskLocation = match child {
        ChildNode::DiskRef { ptr } => match ptr.disk_location() {
            Some(location) => location,
            None => {
                return false;
            },
        },
        _ => {
            return true;
        },
    };
    let fetch = match buffer_manager {
        Some(fetch) => fetch,
        None => {
            return false;
        },
    };
    let page: Vec<u8> = match fetch(location.block_id) {
        Some(page) => page,
        None => {
            return false;
        },
    };
    let bytes = vstd::slice::slice_subrange(page.as_slice(), location.offset as usize, page.len());
    assert(bytes@ =~= page@.skip(location.offset as int));
    match location.node_type {
        NodeType::Bucket => {
            *child = ChildNode::Bucket(StringBucket::new());
            true
        },
        NodeType::Node4 | NodeType::Node16 | NodeType::Node48 | NodeType::Node256 => match decode(
            bytes,
        ) {
            Some(header) => {
                *child =
                ChildNode::ArtNode {
                    node: header,
                    is_final: header.is_final,
                    value: None,
                    children: Vec::new(),
                };
                true
            },
            None => false,
        },
        _ => false,
    }
}

/// What closing a trie does.
#[derive(Clone, Copy, Debug, PartialEq, Eq, Structural)]
pub enum CloseStep {
    /// Stop the eviction coordinator.
    StopEviction,
    /// Stop the thread that syncs the log.
    StopLogSync,
    /// Sync the log.
    SyncLog,
    /// Write the changed pages.
    FlushPages,
}

/// The steps that closing a trie takes, in order: nothing is written to the log
/// behind its last sync, and nothing is evicted after it.
pub fn close_steps(has_eviction: bool, has_log: bool, has_pages: bool) -> (r: Vec<CloseStep>)
    ensures
        r@ == (if has_eviction {
            seq![CloseStep::StopEviction]
        } else {
            Seq::empty()
        }) + (if has_log {
            seq![CloseStep::StopLogSync, CloseStep::SyncLog]
        } else {
            Seq::empty()
        }) + (if has_pages {
            seq![CloseStep::FlushPages]
        } else {
            Seq::empty()
        }),
{
    let mut r: Vec<CloseStep> = Vec::new();
    if has_eviction {
        r.push(CloseStep::StopEviction);
    }
    if has_log {
        r.push(CloseStep::StopLogSync);
        r.push(CloseStep::SyncLog);
    }
    if has_pages {
        r.push(CloseStep::FlushPages);
    }
    proof {
        let first = if has_eviction {
            seq![CloseStep::StopEviction]
        } else {
            Seq::empty()
        };
        let second = if has_log {
            seq![CloseStep::StopLogSync, CloseStep::SyncLog]
        } else {
            Seq::empty()
        };
        let third = if has_pages {
            seq![CloseStep::FlushPages]
        } else {
            Seq::empty()
        };
        assert(r@ =~= first + second + third);
    }
    r
}

/// A handle on the published root and its number of terms, from one revision. A slot
/// without a root stands for an empty trie.
pub fn root_with_term_count<V: DictionaryValue>(slot: Option<&AtomicNodePtr<ByteKey, V>>) -> (r: (
    OverlayDictionaryNode<ByteKey, V, MemoryRecords<ByteKey, V>>,
    usize,
))
    ensures
        r.0.wf(),
        r.0.overlay is Some,
        r.0.overlay_faulter is None,
        match slot {
            Some(slot) => exists|content: Option<Arc<PublishedRoot<ByteKey, V>>>| #[trigger]
                slot.read(content) && match content {
                    Some(published) => r.0.overlay == Some(published.node) && r.1
                        == published.term_count,
                    None => r.0.overlay->0@ == Tree::<u8, V>::empty() && r.1 == 0,
                },
            None => r.0.overlay->0@ == Tree::<u8, V>::empty() && r.1 == 0,
        },
{
    let loaded: Option<(Arc<OverlayNode<ByteKey, V>>, usize)> = match slot {
        Some(slot) => slot.load_with_term_count(),
        None => None,
    };
    root_or_empty(loaded)
}

/// A handle on a loaded root and its number of terms, or on an empty trie.
pub fn root_or_empty<V: DictionaryValue>(
    loaded: Option<(Arc<OverlayNode<ByteKey, V>>, usize)>,
) -> (r: (OverlayDictionaryNode<ByteKey, V, MemoryRecords<ByteKey, V>>, usize))
    requires
        loaded matches Some((node, _)) ==> node.wf(),
    ensures
        r.0.wf(),
        r.0.overlay_faulter is None,
        match loaded {
            Some((node, count)) => r.0.overlay == Some(node) && r.1 == count,
            None => r.0.overlay is Some && r.0.overlay->0@ == Tree::<u8, V>::empty() && r.1 == 0,
        },
{
    match loaded {
        Some((node, count)) => (OverlayDictionaryNode::from_overlay_root(node, None), count),
        None => (
            OverlayDictionaryNode::from_overlay_root(Arc::new(OverlayNode::new()), None),
            0,
        ),
    }
}

} // verus!
