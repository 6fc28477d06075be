//! The frames of the serializer's work stack.

use std::sync::Arc;
use vstd::prelude::*;
use crate::error::{
    no_room, reserve_entries, CollectionAllocationError, PersistentARTrieError, TrieResult,
};
use crate::eviction::{topology_path, RegistryPathId, TopologyEntry};
use crate::key_encoding::KeyEncoding;
use crate::registry::{
    paths_are_stable, paths_extend, DiskLocationRegistry, RegistryBuilderSubtreeStart,
};
use crate::swizzled_ptr::SwizzledPtr;
use crate::value::DictionaryValue;
use super::graph_policy::{reachable, GraphPolicy};
use super::indices::InlineIndices;
use super::node::{Child, OverlayNode, Tree};
use super::serialize_build::OverlaySerializationBuild;
use super::serialize_chain::{
    chain_chunk_bounds, chain_chunk_count, chain_node, chain_ok, chunk_total, lemma_chunk_index,
};
use super::serialize_trace::Trace;
use super::serialize_ledger::{
    ledger, memo_sound, null_child, slot_resolved, slots_of, stamps_sound, Facts,
};
use super::serialize_model::Store;

verus! {

/// A node whose children are being written, with the chain above it.
pub struct Frame<K: KeyEncoding, V> {
    pub node: Arc<OverlayNode<K, V>>,
    pub chain_prefix: Vec<K::Unit>,
    pub live_spine: Vec<Arc<OverlayNode<K, V>>>,
    pub base_depth: usize,
    /// The registered paths of the chunks and of the node, from the top down.
    pub registry_entries: InlineIndices,
    pub registry_start: Option<RegistryBuilderSubtreeStart>,
    pub next_child: usize,
    pub slots: Vec<(K::Unit, Child<K, V>)>,
    pub resolved: Vec<SwizzledPtr>,
    /// The units from the root to the node.
    pub full: Ghost<Seq<K::Unit>>,
    /// What was done before the node was started on.
    pub start: Ghost<Trace<K::Unit, V>>,
}

/// The steps that one slot takes.
pub open spec fn slot_steps<K: KeyEncoding, V>(child: Child<K, V>) -> nat {
    match child {
        Child::InMem(node) => node.steps(),
        Child::OnDisk(_) => 1,
    }
}

/// The steps that the first `n` slots take.
pub open spec fn slots_steps<K: KeyEncoding, V>(slots: Seq<(K::Unit, Child<K, V>)>, n: nat) -> nat
    decreases n,
{
    if n == 0 || n > slots.len() {
        0
    } else {
        slots_steps(slots, (n - 1) as nat) + slot_steps(slots[n - 1].1)
    }
}

/// Later slots do not matter to the steps of earlier ones.
proof fn lemma_slots_steps_push<K: KeyEncoding, V>(
    slots: Seq<(K::Unit, Child<K, V>)>,
    slot: (K::Unit, Child<K, V>),
    n: nat,
)
    requires
        n <= slots.len(),
    ensures
        slots_steps(slots.push(slot), n) == slots_steps(slots, n),
    decreases n,
{
    if n > 0 {
        lemma_slots_steps_push(slots, slot, (n - 1) as nat);
    }
}

/// More slots take more steps.
pub proof fn lemma_slots_steps_monotone<K: KeyEncoding, V>(
    slots: Seq<(K::Unit, Child<K, V>)>,
    a: nat,
    b: nat,
)
    requires
        a <= b <= slots.len(),
    ensures
        slots_steps(slots, a) <= slots_steps(slots, b),
    decreases b,
{
    if a < b {
        lemma_slots_steps_monotone(slots, a, (b - 1) as nat);
    }
}

impl<K: KeyEncoding, V> Frame<K, V> {
    /// The node at the top of the chain.
    pub open spec fn head(self) -> Arc<OverlayNode<K, V>> {
        chain_node(self.live_spine@, self.node, 0)
    }

    /// The parts of a frame fit together.
    pub open spec fn ok(self) -> bool {
        &&& self.node.wf()
        &&& chain_ok(self.live_spine@, self.chain_prefix@, self.node)
        &&& slots_of(self.node.children@, self.slots@)
        &&& self.next_child <= self.slots@.len()
        &&& self.resolved@.len() <= self.next_child
        &&& self.base_depth <= self.full@.len()
        &&& self.full@.len() <= usize::MAX
        &&& self.chain_prefix@.len() > 0 ==> self.full@.len() == self.base_depth + 1
            + self.chain_prefix@.len()
        &&& self.chain_prefix@.len() <= self.full@.len()
        &&& self.full@.skip(self.full@.len() - self.chain_prefix@.len()) == self.chain_prefix@
    }

    /// The registered paths are those of the chunks and of the node.
    pub open spec fn registered(self, entries: Seq<TopologyEntry<K::Unit>>) -> bool {
        entries_registered::<K>(
            entries,
            self.registry_entries@,
            self.full@,
            self.base_depth as int,
            self.chain_prefix@.len() as int,
        )
    }

    /// The steps left in a frame.
    pub open spec fn left(self) -> int {
        1 + slots_steps(self.slots@, self.slots@.len()) - slots_steps(
            self.slots@,
            self.next_child as nat,
        )
    }

    /// The children that are done are facts, and the node belongs to the root.
    pub open spec fn sound(self, root: Tree<K::Unit, V>, facts: Facts<K::Unit, V>) -> bool {
        &&& reachable(root, self.node@)
        &&& reachable(root, self.head()@)
        &&& forall|i: int|
            0 <= i < self.resolved@.len() ==> slot_resolved(
                facts,
                self.slots@[i].1,
                #[trigger] self.resolved@[i],
            )
    }
}

/// Registered paths of a chain: one above each chunk, and one at the end.
#[verifier::opaque]
pub open spec fn entries_registered<K: KeyEncoding>(
    entries: Seq<TopologyEntry<K::Unit>>,
    ids: Seq<usize>,
    full: Seq<K::Unit>,
    base_depth: int,
    chain_len: int,
) -> bool {
    let width = (K::max_prefix_len() + 1) as int;
    &&& ids.len() == chunk_total(chain_len, width) + 1
    &&& forall|c: int| 0 <= c < ids.len() ==> 0 < #[trigger] ids[c] <= entries.len()
    &&& forall|c: int|
        0 <= c < chunk_total(chain_len, width) ==> topology_path(entries, #[trigger] ids[c] as int)
            == full.take(base_depth + 1 + c * width)
    &&& topology_path(entries, ids.last() as int) == full
}

/// More paths change nothing about registered ones.
pub proof fn lemma_entries_extend<K: KeyEncoding>(
    before: Seq<TopologyEntry<K::Unit>>,
    after: Seq<TopologyEntry<K::Unit>>,
    ids: Seq<usize>,
    full: Seq<K::Unit>,
    base_depth: int,
    chain_len: int,
)
    requires
        paths_extend(before, after),
        chain_len >= 0,
        entries_registered::<K>(before, ids, full, base_depth, chain_len),
    ensures
        entries_registered::<K>(after, ids, full, base_depth, chain_len),
{
    reveal(entries_registered);
    let width = (K::max_prefix_len() + 1) as int;
    lemma_chunk_total(chain_len, width);
    assert forall|c: int| 0 <= c < chunk_total(chain_len, width) implies topology_path(
        after,
        #[trigger] ids[c] as int,
    ) == full.take(base_depth + 1 + c * width) by {
        paths_are_stable(before, after, ids[c] as int);
    }
    paths_are_stable(before, after, ids[ids.len() - 1] as int);
}

/// There are no negative chunks.
pub proof fn lemma_chunk_total(chain_len: int, width: int)
    requires
        chain_len >= 0,
        width > 0,
    ensures
        chunk_total(chain_len, width) >= 0,
        chain_len > 0 ==> chunk_total(chain_len, width) > 0,
{
    vstd::arithmetic::div_mod::lemma_fundamental_div_mod(chain_len, width);
    assert(chain_len / width >= 0) by (nonlinear_arith)
        requires
            chain_len >= 0,
            width > 0,
    ;
    if chain_len > 0 && chain_len % width == 0 {
        assert(chain_len / width != 0) by {
            assert(width * 0 == 0);
        }
    }
}

/// The whole state of a serialization is sound.
pub open spec fn state_sound<K: KeyEncoding, V: DictionaryValue, P: GraphPolicy<K, V>>(
    store: Store<K::Unit, V>,
    root: Tree<K::Unit, V>,
    facts: Facts<K::Unit, V>,
    build: OverlaySerializationBuild<K, V, P>,
) -> bool {
    &&& ledger(store, root, facts)
    &&& memo_sound(build.graph.memo(), facts)
    &&& stamps_sound(build.deferred_stamps@, facts)
}

/// A frame for a node whose children are yet to be written. Children that lead
/// nowhere are left out.
pub fn make_frame<K: KeyEncoding, V: DictionaryValue>(
    node: Arc<OverlayNode<K, V>>,
    chain_prefix: Vec<K::Unit>,
    live_spine: Vec<Arc<OverlayNode<K, V>>>,
    base_depth: usize,
    registry_entries: InlineIndices,
    registry_start: Option<RegistryBuilderSubtreeStart>,
    Ghost(full): Ghost<Seq<K::Unit>>,
    Ghost(start): Ghost<Trace<K::Unit, V>>,
) -> (r: TrieResult<Frame<K, V>>)
    requires
        node.wf(),
        chain_ok(live_spine@, chain_prefix@, node),
        base_depth <= full.len() <= usize::MAX,
        chain_prefix@.len() > 0 ==> full.len() == base_depth + 1 + chain_prefix@.len(),
        chain_prefix@.len() <= full.len(),
        full.skip(full.len() - chain_prefix@.len()) == chain_prefix@,
    ensures
        match r {
            Ok(frame) => {
                &&& frame.ok()
                &&& frame.node == node
                &&& frame.chain_prefix == chain_prefix
                &&& frame.live_spine == live_spine
                &&& frame.base_depth == base_depth
                &&& frame.registry_entries == registry_entries
                &&& frame.registry_start == registry_start
                &&& frame.next_child == 0
                &&& frame.resolved@.len() == 0
                &&& frame.full@ == full
                &&& frame.start@ == start
                &&& frame.left() < node.steps()
            },
            Err(e) => no_room(e),
        },
{
    let count: usize = node.children.len();
    let mut slots: Vec<(K::Unit, Child<K, V>)> = Vec::new();
    match reserve_entries(&mut slots, count, "compressed serializer child slots", count) {
        Ok(()) => {},
        Err(e) => {
            return Err(e);
        },
    }
    let ghost children = node.children@;
    let mut i: usize = 0;
    while i < count
        invariant
            node.wf(),
            children == node.children@,
            i <= count == children.len(),
            forall|k: int|
                0 <= k < slots@.len() ==> children.contains(#[trigger] slots@[k]) && !null_child(
                    slots@[k].1,
                ),
            forall|j: int|
                0 <= j < i && !null_child((#[trigger] children[j]).1) ==> slots@.contains(
                    children[j],
                ),
            forall|k: int, l: int|
                0 <= k < l < slots@.len() ==> K::rank((#[trigger] slots@[k]).0) < K::rank(
                    (#[trigger] slots@[l]).0,
                ),
            forall|k: int, j: int|
                0 <= k < slots@.len() && i <= j < children.len() ==> K::rank(
                    (#[trigger] slots@[k]).0,
                ) < K::rank((#[trigger] children[j]).0),
            slots_steps(slots@, slots@.len()) <= node.kids_steps(i as nat),
        decreases count - i,
    {
        let ghost before = slots@;
        let entry = &node.children[i];
        let keep: bool = match &entry.1 {
            Child::InMem(_) => true,
            Child::OnDisk(ptr) => !ptr.is_null(),
        };
        if keep {
            slots.push((entry.0, entry.1.alias()));
            proof {
                assert(slots@ =~= before.push(children[i as int]));
                lemma_slots_steps_push(before, children[i as int], before.len());
                assert(children.contains(children[i as int]));
                assert forall|k: int| 0 <= k < slots@.len() implies children.contains(
                    #[trigger] slots@[k],
                ) && !null_child(slots@[k].1) by {
                    if k < before.len() {
                        assert(slots@[k] == before[k]);
                    }
                }
                assert forall|j: int|
                    0 <= j < i + 1 && !null_child((#[trigger] children[j]).1) implies slots@.contains(
                    children[j],
                ) by {
                    if j < i {
                        assert(before.contains(children[j]));
                        let k = choose|k: int| 0 <= k < before.len() && before[k] == children[j];
                        assert(slots@[k] == children[j]);
                    } else {
                        assert(slots@[before.len() as int] == children[j]);
                    }
                }
                assert forall|k: int, l: int| 0 <= k < l < slots@.len() implies K::rank(
                    (#[trigger] slots@[k]).0,
                ) < K::rank((#[trigger] slots@[l]).0) by {
                    assert(slots@[k] == before[k]);
                    if l < before.len() {
                        assert(slots@[l] == before[l]);
                    }
                }
                assert forall|k: int, j: int|
                    0 <= k < slots@.len() && i + 1 <= j < children.len() implies K::rank(
                    (#[trigger] slots@[k]).0,
                ) < K::rank((#[trigger] children[j]).0) by {
                    if k < before.len() {
                        assert(slots@[k] == before[k]);
                    }
                }
            }
        }
        i += 1;
    }
    let frame = Frame {
        node,
        chain_prefix,
        live_spine,
        base_depth,
        registry_entries,
        registry_start,
        next_child: 0,
        slots,
        resolved: Vec::new(),
        full: Ghost(full),
        start: Ghost(start),
    };
    Ok(frame)
}

/// Registers the paths of the chunks of a chain and of the node at its end. The
/// path of the first may have been registered before.
pub fn reserve_chain_entries<K: KeyEncoding>(
    registry: &mut DiskLocationRegistry<K::Unit>,
    path: &Vec<K::Unit>,
    base_depth: usize,
    chain_len: usize,
    width: usize,
    parent_path: RegistryPathId,
    pre_reserved_top: Option<RegistryPathId>,
) -> (r: TrieResult<InlineIndices>)
    requires
        old(registry).wf(),
        width == K::max_prefix_len() + 1,
        path@.len() == base_depth + 1 + chain_len,
        parent_path.ordinal <= old(registry).topology.entries@.len(),
        old(registry).topology.path(parent_path) == path@.take(base_depth as int),
        pre_reserved_top matches Some(top) ==> 0 < top.ordinal == old(
            registry,
        ).topology.entries@.len() && old(registry).topology.path(top) == path@.take(
            base_depth + 1,
        ),
    ensures
        final(registry).wf(),
        final(registry).records@ == old(registry).records@,
        final(registry).open@ == old(registry).open@,
        paths_extend(old(registry).topology.entries@, final(registry).topology.entries@),
        match r {
            Ok(ids) => entries_registered::<K>(
                final(registry).topology.entries@,
                ids@,
                path@,
                base_depth as int,
                chain_len as int,
            ) && ids@.len() > 0 && ids@.last() == final(registry).topology.entries@.len(),
            Err(e) => no_room(e) || (e is InternalError
                && final(registry).topology.entries@.len() == usize::MAX),
        },
{
    let depth: usize = path.len();
    let count: usize = match chain_chunk_count(chain_len, width) {
        Ok(count) => count,
        Err(e) => {
            return Err(e);
        },
    };
    let ghost start = registry.topology.entries@;
    proof {
        lemma_chunk_total(chain_len as int, width as int);
        if count == usize::MAX {
            lemma_chunk_index(chain_len as int, width as int, count - 1);
            assert((count - 1) * width >= count - 1) by (nonlinear_arith)
                requires
                    width >= 1,
                    count >= 1,
            ;
        }
    }
    let requested: usize = match count.checked_add(1) {
        Some(requested) => requested,
        None => {
            return Err(
                PersistentARTrieError::internal(
                    "compressed serializer registry-entry count overflow",
                ),
            );
        },
    };
    let mut ids = InlineIndices::new();
    match ids.try_reserve_exact(requested) {
        Ok(()) => {},
        Err(source) => {
            return Err(
                PersistentARTrieError::allocation_failed(
                    "compressed serializer registry entries",
                    requested,
                    CollectionAllocationError::Inline(source),
                ),
            );
        },
    }
    let mut top: Option<RegistryPathId> = pre_reserved_top;
    let mut parent: RegistryPathId = parent_path;
    let mut segment_start: usize = base_depth;
    proof {
        lemma_chunk_total(chain_len as int, width as int);
        lemma_chunk_index(chain_len as int, width as int, 0);
    }
    let mut chunk_endpoint: usize = base_depth + 1;
    let mut chunk_index: usize = 0;
    while chunk_index < count
        invariant
            registry.wf(),
            registry.records@ == old(registry).records@,
            registry.open@ == old(registry).open@,
            start == old(registry).topology.entries@,
            paths_extend(start, registry.topology.entries@),
            width == K::max_prefix_len() + 1,
            count == chunk_total(chain_len as int, width as int),
            depth == path@.len(),
            path@.len() == base_depth + 1 + chain_len,
            chunk_index <= count,
            ids@.len() == chunk_index,
            forall|c: int|
                0 <= c < ids@.len() ==> 0 < #[trigger] ids@[c] <= registry.topology.entries@.len(),
            forall|c: int|
                0 <= c < ids@.len() ==> topology_path(
                    registry.topology.entries@,
                    #[trigger] ids@[c] as int,
                ) == path@.take(base_depth + 1 + c * width),
            parent.ordinal <= registry.topology.entries@.len(),
            topology_path(registry.topology.entries@, parent.ordinal as int) == path@.take(
                segment_start as int,
            ),
            segment_start < chunk_endpoint <= path@.len(),
            chunk_index < count ==> chunk_endpoint == base_depth + 1 + chunk_index * width,
            chunk_index == count ==> chunk_endpoint == path@.len(),
            top matches Some(id) ==> {
                &&& chunk_index == 0
                &&& 0 < id.ordinal == registry.topology.entries@.len()
                &&& topology_path(registry.topology.entries@, id.ordinal as int) == path@.take(
                    base_depth + 1,
                )
            },
        decreases count - chunk_index,
    {
        let ghost before = registry.topology.entries@;
        proof {
            lemma_chunk_index(chain_len as int, width as int, chunk_index as int);
            lemma_chunk_index(chain_len as int, width as int, chunk_index + 1);
            assert((chunk_index + 1) * width == chunk_index * width + width)
                by (nonlinear_arith);
        }
        let entry: RegistryPathId = match top {
            Some(entry) => {
                assert(chunk_index * width == 0) by (nonlinear_arith)
                    requires
                        chunk_index == 0,
                ;
                entry
            },
            None => {
                let segment = vstd::slice::slice_subrange(
                    path.as_slice(),
                    segment_start,
                    chunk_endpoint,
                );
                match registry.reserve_path(parent, segment) {
                    Ok(entry) => {
                        assert(path@.take(segment_start as int) + path@.subrange(
                            segment_start as int,
                            chunk_endpoint as int,
                        ) =~= path@.take(chunk_endpoint as int));
                        entry
                    },
                    Err(e) => {
                        return Err(e);
                    },
                }
            },
        };
        top = None;
        let ghost listed = ids@;
        ids.push(entry.ordinal);
        proof {
            let after = registry.topology.entries@;
            assert forall|c: int| 0 <= c < ids@.len() implies 0 < #[trigger] ids@[c]
                <= after.len() by {
                if c < listed.len() {
                    assert(ids@[c] == listed[c]);
                }
            }
            assert forall|c: int| 0 <= c < ids@.len() implies topology_path(
                after,
                #[trigger] ids@[c] as int,
            ) == path@.take(base_depth + 1 + c * width) by {
                if c < listed.len() {
                    assert(ids@[c] == listed[c]);
                    paths_are_stable(before, after, listed[c] as int);
                }
            }
        }
        parent = entry;
        segment_start = chunk_endpoint;
        let (_, chunk_end) = match chain_chunk_bounds(chain_len, width, chunk_index) {
            Ok(bounds) => bounds,
            Err(e) => {
                return Err(e);
            },
        };
        chunk_endpoint = base_depth + 1 + chunk_end;
        chunk_index += 1;
    }
    let terminus: RegistryPathId = match top {
        Some(entry) => {
            assert(chain_len == 0) by {
                lemma_chunk_total(chain_len as int, width as int);
            }
            assert(path@.take(base_depth + 1) =~= path@);
            entry
        },
        None => {
            let ghost before = registry.topology.entries@;
            let segment = vstd::slice::slice_subrange(path.as_slice(), segment_start, depth);
            match registry.reserve_path(parent, segment) {
                Ok(entry) => {
                    proof {
                        assert(path@.take(segment_start as int) + path@.subrange(
                            segment_start as int,
                            path@.len() as int,
                        ) =~= path@);
                        let after = registry.topology.entries@;
                        assert forall|c: int| 0 <= c < ids@.len() implies topology_path(
                            after,
                            #[trigger] ids@[c] as int,
                        ) == path@.take(base_depth + 1 + c * width) by {
                            paths_are_stable(before, after, ids@[c] as int);
                        }
                    }
                    entry
                },
                Err(e) => {
                    return Err(e);
                },
            }
        },
    };
    let ghost listed = ids@;
    ids.push(terminus.ordinal);
    proof {
        reveal(entries_registered);
        let after = registry.topology.entries@;
        assert forall|c: int| 0 <= c < ids@.len() implies 0 < #[trigger] ids@[c] <= after.len() by {
            if c < listed.len() {
                assert(ids@[c] == listed[c]);
            }
        }
        assert forall|c: int| 0 <= c < count implies topology_path(after, #[trigger] ids@[c] as int)
            == path@.take(base_depth + 1 + c * width) by {
            assert(ids@[c] == listed[c]);
        }
    }
    Ok(ids)
}

} // verus!
