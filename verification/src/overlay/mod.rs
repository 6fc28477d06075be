//! The lock-free overlay: immutable nodes, path copying, eviction and serialization.

use std::sync::Arc;
use vstd::prelude::*;
use crate::error::{CollectionAllocationError, PersistentARTrieError};
use crate::key_encoding::KeyEncoding;
use crate::shared::share;
use self::node::OverlayNode;

pub mod atomic_ptr;
pub mod cas_driver;
pub mod cas_walk;
pub mod checkpoint;
pub mod compressed_serialize;
pub mod cursor_arena;
pub mod dict_node;
pub mod durable_write;
pub mod evict;
pub mod evict_chain_plan;
pub mod evict_laws;
pub mod evict_plan;
pub mod evict_winners;
pub mod f5_build;
pub mod fault;
pub mod faulter;
pub mod graph_policy;
pub mod indices;
pub mod model;
pub mod node;
pub mod paths;
pub mod residency;
pub mod serialize_agreement;
pub mod serialize_build;
pub mod serialize_chain;
pub mod serialize_emission;
pub mod serialize_frame;
pub mod serialize_laws;
pub mod serialize_ledger;
pub mod serialize_meetings;
pub mod serialize_model;
pub mod serialize_order;
pub mod serialize_registrations;
pub mod serialize_sink;
pub mod serialize_stack;
pub mod serialize_stamps;
pub mod serialize_trace;
pub mod stamping;

verus! {

/// Number of path frames that a walk keeps before it makes room for its whole
/// bound at once.
pub const INLINE_OVERLAY_DEPTH: usize = 16;

/// A node retained by an iterative path-copy machine: borrowed from the root
/// snapshot that the caller holds, or owned because a fault loaded it.
pub enum OverlayNodeHandle<'root, K: KeyEncoding, V> {
    Borrowed(&'root Arc<OverlayNode<K, V>>),
    Owned(Arc<OverlayNode<K, V>>),
}

impl<'root, K: KeyEncoding, V> OverlayNodeHandle<'root, K, V> {
    /// The retained node.
    pub open spec fn spec_node(self) -> OverlayNode<K, V> {
        match self {
            OverlayNodeHandle::Borrowed(node) => **node,
            OverlayNodeHandle::Owned(node) => *node,
        }
    }

    /// The retained node.
    pub fn node(&self) -> (r: &OverlayNode<K, V>)
        ensures
            *r == self.spec_node(),
    {
        match self {
            OverlayNodeHandle::Borrowed(node) => &***node,
            OverlayNodeHandle::Owned(node) => &**node,
        }
    }

    /// An owned handle to the retained node.
    pub fn into_arc(self) -> (r: Arc<OverlayNode<K, V>>)
        ensures
            *r == self.spec_node(),
    {
        match self {
            OverlayNodeHandle::Borrowed(node) => share(node),
            OverlayNodeHandle::Owned(node) => node,
        }
    }
}

/// One step of a walk: the node it left and the edge it took.
pub struct OverlayPathFrame<'root, K: KeyEncoding, V> {
    pub node: OverlayNodeHandle<'root, K, V>,
    pub unit: K::Unit,
}

/// The frames of a walk, outermost first.
///
/// The first [`INLINE_OVERLAY_DEPTH`] frames need no reservation. The next one
/// reserves room for the complete walk in one step.
pub struct OverlayPathSpine<'root, K: KeyEncoding, V> {
    pub frames: Vec<OverlayPathFrame<'root, K, V>>,
    pub room: usize,
    pub spill_refused: bool,
}

impl<'root, K: KeyEncoding, V> OverlayPathSpine<'root, K, V> {
    /// The frames fit the room that was made for them.
    pub open spec fn wf(self) -> bool {
        &&& self.frames@.len() <= self.room
        &&& INLINE_OVERLAY_DEPTH <= self.room
        &&& forall|i: int|
            0 <= i < self.frames@.len() ==> (#[trigger] self.frames@[i]).node.spec_node().wf()
    }

    /// Why a spine does not grow: it must not, or the reservation found no room.
    pub open spec fn refusal(self, e: CollectionAllocationError) -> bool {
        if self.spill_refused {
            e is CapacityOverflow
        } else {
            e is TryReserve
        }
    }

    /// The error of a walk whose spine does not grow.
    pub open spec fn refuses(
        self,
        e: PersistentARTrieError,
        operation: Seq<char>,
        requested_entries: int,
    ) -> bool {
        &&& e is AllocationFailed
        &&& e->operation@ == operation
        &&& e->requested_entries == requested_entries
        &&& self.refusal(e->source)
    }

    /// An empty spine.
    pub fn new() -> (r: Self)
        ensures
            r.wf(),
            r.frames@.len() == 0,
            r.room == INLINE_OVERLAY_DEPTH,
            !r.spill_refused,
    {
        OverlayPathSpine { frames: Vec::new(), room: INLINE_OVERLAY_DEPTH, spill_refused: false }
    }

    /// An empty spine that must stay within its inline frames.
    pub fn without_spill() -> (r: Self)
        ensures
            r.wf(),
            r.frames@.len() == 0,
            r.room == INLINE_OVERLAY_DEPTH,
            r.spill_refused,
    {
        OverlayPathSpine { frames: Vec::new(), room: INLINE_OVERLAY_DEPTH, spill_refused: true }
    }

    /// An empty spine, which may outgrow its inline frames or must not.
    pub fn empty(may_spill: bool) -> (r: Self)
        ensures
            r.wf(),
            r.frames@.len() == 0,
            r.room == INLINE_OVERLAY_DEPTH,
            r.spill_refused == !may_spill,
    {
        if may_spill {
            OverlayPathSpine::new()
        } else {
            OverlayPathSpine::without_spill()
        }
    }

    /// Number of frames.
    pub fn len(&self) -> (r: usize)
        ensures
            r == self.frames@.len(),
    {
        self.frames.len()
    }

    /// Number of frames for which there is room.
    pub fn capacity(&self) -> (r: usize)
        ensures
            r == self.room,
    {
        self.room
    }

    /// Whether the spine outgrew its inline frames.
    pub fn spilled(&self) -> (r: bool)
        ensures
            r == (self.room > INLINE_OVERLAY_DEPTH),
    {
        self.room > INLINE_OVERLAY_DEPTH
    }
}

/// Appends one frame. `maximum_frames` bounds the complete walk.
pub fn try_push_overlay_path_spine<'root, K: KeyEncoding, V>(
    spine: &mut OverlayPathSpine<'root, K, V>,
    frame: OverlayPathFrame<'root, K, V>,
    maximum_frames: usize,
) -> (r: Result<(), CollectionAllocationError>)
    requires
        old(spine).wf(),
        frame.node.spec_node().wf(),
        old(spine).frames@.len() == old(spine).room ==> maximum_frames > old(spine).room,
    ensures
        final(spine).wf(),
        final(spine).spill_refused == old(spine).spill_refused,
        match r {
            Ok(()) => {
                &&& final(spine).frames@ == old(spine).frames@.push(frame)
                &&& final(spine).room == (if old(spine).frames@.len() == old(spine).room {
                    maximum_frames
                } else {
                    old(spine).room
                })
                &&& old(spine).frames@.len() == old(spine).room ==> !old(spine).spill_refused
            },
            Err(e) => {
                &&& old(spine).frames@.len() == old(spine).room
                &&& final(spine).frames@ == old(spine).frames@
                &&& final(spine).room == old(spine).room
                &&& old(spine).refusal(e)
            },
        },
{
    if spine.frames.len() == spine.room {
        if spine.spill_refused {
            return Err(CollectionAllocationError::CapacityOverflow);
        }
        let additional: usize = maximum_frames - spine.frames.len();
        match spine.frames.try_reserve(additional) {
            Ok(()) => {},
            Err(source) => {
                return Err(CollectionAllocationError::TryReserve(source));
            },
        }
        spine.room = maximum_frames;
    }
    spine.frames.push(frame);
    Ok(())
}

} // verus!
