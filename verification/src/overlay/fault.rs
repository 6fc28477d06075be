//! Point reads that load durable children, and batches that evict resident ones,
//! against a published root.

use smallvec::CollectionAllocErr;
use std::sync::Arc;
use vstd::prelude::*;
use vstd::slice::slice_subrange;
use crate::error::{no_room, PersistentARTrieError, TrieResult};
use crate::eviction::{CompactEvictionBatch, CompactEvictionPolicy};
use crate::key_encoding::KeyEncoding;
use crate::shared::{share, told_same};
use crate::swizzled_ptr::SwizzledPtr;
use crate::value::DictionaryValue;
use super::atomic_ptr::{
    AtomicNodePtr, PreparedBoundRootTransition, PublishedRoot, RootRevision,
};
use super::cas_walk::{find_leaf_iterative, spine_ancestors, unwind_spine};
use super::evict::{
    build_batch_ancestor_replacement_into, build_batch_replacement_into,
    build_chain_ancestor_replacement_into, build_chain_replacement_into, chain_marks_in_range,
    evict_chain, evict_node, marks_in_range, ChainWalkFrame,
};
use super::evict_chain_plan::{build_chain_plan, chain_plans, chain_through};
use super::evict_plan::{
    batch_rejected, batch_units, build_batch_plan, lemma_plan_in_range, plan_wf, plans,
    BatchPlanNode,
};
use super::faulter::OverlayFaulter;
use super::indices::SuccessfulCandidateIndices;
use super::model::{
    at, full_at, full_kid, full_term, kid, lemma_at_concat, lemma_at_full, lemma_same_kids, lemma_unwound_same,
    next_ancestor, same_terms, unwound, Records,
};
use super::node::{Branch, Child, OverlayNode, Tree};
use super::residency::{PreparedPackedResidency, RootEvictionRevision};
use super::{
    try_push_overlay_path_spine, OverlayNodeHandle, OverlayPathFrame, OverlayPathSpine,
    INLINE_OVERLAY_DEPTH,
};

verus! {

/// How many times a read rebases on a new root before it answers from a snapshot.
pub const DEFAULT_MAX_FAULTIN_RETRIES: usize = 16;

/// Where a walk over resident children ends.
#[verifier::reject_recursive_types(U)]
#[verifier::reject_recursive_types(V)]
pub enum WalkEnd<U, V> {
    /// At the end of the key.
    Resident(Tree<U, V>),
    /// At an edge without a child.
    Missing,
    /// At a durable child, reached by the edge at position `depth`.
    Durable { depth: int, ptr: SwizzledPtr },
}

/// Where the walk along `key` ends that has come to `depth`.
pub open spec fn walk_end<U, V>(tree: Tree<U, V>, key: Seq<U>, depth: int) -> WalkEnd<U, V>
    decreases key.len() - depth,
{
    if depth >= key.len() || depth < 0 {
        WalkEnd::Resident(tree)
    } else {
        match kid(tree, key[depth]) {
            None => WalkEnd::Missing,
            Some(Branch::InMem(child)) => walk_end(child, key, depth + 1),
            Some(Branch::OnDisk(ptr)) => if ptr.raw == 0 {
                WalkEnd::Missing
            } else {
                WalkEnd::Durable { depth, ptr }
            },
        }
    }
}

/// The end of a walk over resident children.
pub enum FaultWalk<'root, K: KeyEncoding, V> {
    /// The node at the end of the key.
    Resident(&'root Arc<OverlayNode<K, V>>),
    /// There is no such node.
    Missing,
    /// A durable child, with the way to its parent.
    Durable {
        spine: OverlayPathSpine<'root, K, V>,
        parent: &'root Arc<OverlayNode<K, V>>,
        depth: usize,
        ptr: SwizzledPtr,
    },
}

/// The ancestors of a walk along `key`: each leads to the next by its edge.
pub open spec fn walked<U, V>(
    root: Tree<U, V>,
    key: Seq<U>,
    ancestors: Seq<(Tree<U, V>, U)>,
    end: Tree<U, V>,
) -> bool {
    &&& ancestors.len() <= key.len()
    &&& root == (if ancestors.len() > 0 {
        ancestors[0].0
    } else {
        end
    })
    &&& forall|i: int|
        0 <= i < ancestors.len() ==> (#[trigger] ancestors[i]).1 == key[i] && kid(
            ancestors[i].0,
            ancestors[i].1,
        ) == Some(Branch::InMem(next_ancestor(ancestors, end, i)))
}

/// The error of a walk whose resident part is longer than the inline frames of a spine:
/// the reservation found no room, or none was allowed.
pub open spec fn path_refused<U, V>(
    e: PersistentARTrieError,
    root: Tree<U, V>,
    key: Seq<U>,
    may_spill: bool,
) -> bool {
    &&& e is AllocationFailed
    &&& e->operation@ == "overlay fault-in path"@
    &&& e->requested_entries == key.len()
    &&& if may_spill {
        no_room(e)
    } else {
        e->source is CapacityOverflow
    }
    &&& INLINE_OVERLAY_DEPTH < key.len()
    &&& at(root, key.take(INLINE_OVERLAY_DEPTH + 1)) is Some
}

/// Walks along `key` as far as children are resident.
pub fn walk_to_durable<'root, K: KeyEncoding, V: DictionaryValue>(
    root: &'root Arc<OverlayNode<K, V>>,
    key: &[K::Unit],
) -> (r: TrieResult<FaultWalk<'root, K, V>>)
    requires
        root.wf(),
    ensures
        match r {
            Ok(FaultWalk::Resident(node)) => node.wf() && walk_end(root@, key@, 0)
                == WalkEnd::<K::Unit, V>::Resident(node@),
            Ok(FaultWalk::Missing) => walk_end(root@, key@, 0) is Missing,
            Ok(FaultWalk::Durable { spine, parent, depth, ptr }) => {
                &&& walk_end(root@, key@, 0) == (WalkEnd::<K::Unit, V>::Durable {
                    depth: depth as int,
                    ptr,
                })
                &&& depth < key@.len()
                &&& ptr.raw != 0
                &&& spine.wf()
                &&& spine.frames@.len() == depth
                &&& parent.wf()
                &&& kid(parent@, key@[depth as int]) == Some(Branch::<K::Unit, V>::OnDisk(ptr))
                &&& walked(root@, key@, spine_ancestors(spine.frames@), parent@)
            },
            Err(e) => path_refused(e, root@, key@, true),
        },
{
    walk_to_durable_on(OverlayPathSpine::new(), root, key)
}

/// [`walk_to_durable`] on a given empty spine, which may be one that refuses to
/// grow beyond its inline frames.
pub fn walk_to_durable_on<'root, K: KeyEncoding, V: DictionaryValue>(
    spine: OverlayPathSpine<'root, K, V>,
    root: &'root Arc<OverlayNode<K, V>>,
    key: &[K::Unit],
) -> (r: TrieResult<FaultWalk<'root, K, V>>)
    requires
        spine.wf(),
        spine.frames@.len() == 0,
        root.wf(),
    ensures
        match r {
            Ok(FaultWalk::Resident(node)) => node.wf() && walk_end(root@, key@, 0)
                == WalkEnd::<K::Unit, V>::Resident(node@),
            Ok(FaultWalk::Missing) => walk_end(root@, key@, 0) is Missing,
            Ok(FaultWalk::Durable { spine, parent, depth, ptr }) => {
                &&& walk_end(root@, key@, 0) == (WalkEnd::<K::Unit, V>::Durable {
                    depth: depth as int,
                    ptr,
                })
                &&& depth < key@.len()
                &&& ptr.raw != 0
                &&& spine.wf()
                &&& spine.frames@.len() == depth
                &&& parent.wf()
                &&& kid(parent@, key@[depth as int]) == Some(Branch::<K::Unit, V>::OnDisk(ptr))
                &&& walked(root@, key@, spine_ancestors(spine.frames@), parent@)
            },
            Err(e) => {
                &&& spine.refuses(e, "overlay fault-in path"@, key@.len() as int)
                &&& spine.room < key@.len()
                &&& at(root@, key@.take(spine.room + 1)) is Some
            },
        },
{
    let mut walk = spine;
    let mut current = root;
    let mut depth: usize = 0;
    assert(spine_ancestors(walk.frames@) =~= Seq::empty());
    assert(key@.take(0) =~= Seq::empty());
    while depth < key.len()
        invariant
            depth <= key@.len(),
            current.wf(),
            walk.wf(),
            walk.frames@.len() == depth,
            walk.room == spine.room || walk.room == key@.len(),
            walk.spill_refused == spine.spill_refused,
            at(root@, key@.take(depth as int)) == Some(current@),
            walked(root@, key@, spine_ancestors(walk.frames@), current@),
            walk_end(root@, key@, 0) == walk_end(current@, key@, depth as int),
        decreases key@.len() - depth,
    {
        let unit = key[depth];
        match current.find_child(unit) {
            None => {
                return Ok(FaultWalk::Missing);
            },
            Some(Child::OnDisk(ptr)) => {
                if ptr.is_null() {
                    return Ok(FaultWalk::Missing);
                }
                return Ok(FaultWalk::Durable { spine: walk, parent: current, depth, ptr: *ptr });
            },
            Some(Child::InMem(child)) => {
                let ghost before = spine_ancestors(walk.frames@);
                proof {
                    let step = seq![unit];
                    assert(step.drop_first() =~= Seq::empty());
                    assert(at(child@, Seq::<K::Unit>::empty()) == Some(child@));
                    assert(at(current@, step) == Some(child@));
                    lemma_at_concat(root@, key@.take(depth as int), step);
                    assert(key@.take(depth + 1) =~= key@.take(depth as int) + step);
                }
                match try_push_overlay_path_spine(
                    &mut walk,
                    OverlayPathFrame { node: OverlayNodeHandle::Borrowed(current), unit },
                    key.len(),
                ) {
                    Ok(()) => {},
                    Err(source) => {
                        return Err(
                            PersistentARTrieError::allocation_failed(
                                "overlay fault-in path",
                                key.len(),
                                source,
                            ),
                        );
                    },
                }
                proof {
                    let after = spine_ancestors(walk.frames@);
                    assert(after =~= before.push((current@, unit)));
                    assert forall|i: int| 0 <= i < after.len() implies (#[trigger] after[i]).1
                        == key@[i] && kid(after[i].0, after[i].1) == Some(
                        Branch::InMem(next_ancestor(after, child@, i)),
                    ) by {
                        if i < before.len() {
                            assert(after[i] == before[i]);
                            assert(next_ancestor(after, child@, i) == next_ancestor(
                                before,
                                current@,
                                i,
                            ));
                        }
                    }
                }
                current = child;
                depth += 1;
            },
        }
    }
    Ok(FaultWalk::Resident(current))
}

/// The root with the durable child at the end of a walk replaced by its loaded
/// node.
pub fn splice_loaded<'root, K: KeyEncoding, V: DictionaryValue>(
    spine: OverlayPathSpine<'root, K, V>,
    parent: &Arc<OverlayNode<K, V>>,
    unit: K::Unit,
    loaded: Arc<OverlayNode<K, V>>,
) -> (r: Arc<OverlayNode<K, V>>)
    requires
        spine.wf(),
        parent.wf(),
        loaded.wf(),
    ensures
        r.wf(),
        r@ == unwound(
            spine_ancestors(spine.frames@),
            parent@.put(unit, Branch::InMem(loaded@)),
        ),
{
    let copy = Arc::new(parent.with_child(unit, Child::InMem(loaded)));
    unwind_spine(spine, copy)
}

/// Loading a durable child changes no stored term.
pub proof fn fault_in_keeps_terms<U, V>(
    records: Records<U, V>,
    root: Tree<U, V>,
    key: Seq<U>,
    ancestors: Seq<(Tree<U, V>, U)>,
    parent: Tree<U, V>,
    unit: U,
    ptr: SwizzledPtr,
)
    requires
        walked(root, key, ancestors, parent),
        kid(parent, unit) == Some(Branch::<U, V>::OnDisk(ptr)),
        ptr.raw != 0,
    ensures
        same_terms(
            records,
            root,
            unwound(ancestors, parent.put(unit, Branch::InMem(records(ptr)))),
        ),
{
    let copy = parent.put(unit, Branch::InMem(records(ptr)));
    assert forall|u: U|
        match (#[trigger] full_kid(records, parent, u), full_kid(records, copy, u)) {
            (Some(x), Some(y)) => same_terms(records, x, y),
            (None, None) => true,
            _ => false,
        } by {
        if u == unit {
            assert(kid(copy, u) == Some(Branch::InMem(records(ptr))));
        } else {
            assert(kid(copy, u) == kid(parent, u));
        }
    }
    lemma_same_kids(records, parent, copy);
    assert forall|i: int| 0 <= i < ancestors.len() implies full_kid(
        records,
        (#[trigger] ancestors[i]).0,
        ancestors[i].1,
    ) == Some(next_ancestor(ancestors, parent, i)) by {
        assert(ancestors[i].1 == key[i]);
    }
    lemma_unwound_same(records, ancestors, parent, copy);
}

/// The final node that `key[start..]` leads to from `node`, through resident and
/// durable children.
pub fn walk_faulting_snapshot<K: KeyEncoding, V: DictionaryValue, F: OverlayFaulter<K, V>>(
    faulter: &F,
    node: Arc<OverlayNode<K, V>>,
    key: &[K::Unit],
    start: usize,
) -> (r: TrieResult<Option<Arc<OverlayNode<K, V>>>>)
    requires
        node.wf(),
        start <= key@.len(),
    ensures
        match r {
            Ok(Some(leaf)) => {
                &&& leaf.wf()
                &&& leaf@.is_final
                &&& full_at(faulter.records(), node@, key@.skip(start as int)) == Some(leaf@)
            },
            Ok(None) => full_term(faulter.records(), node@, key@.skip(start as int)) is None,
            Err(e) => walk_end(node@, key@.skip(start as int), 0) is Durable && exists|
                ptr: SwizzledPtr,
            | #[trigger]
                call_ensures(F::try_fault_overlay_slot, (faulter, &ptr), Err(e)),
        },
{
    let ghost records = faulter.records();
    let ghost goal = key@.skip(start as int);
    let mut current = share(&node);
    let mut i: usize = start;
    let ghost mut resident: bool = true;
    while i < key.len()
        invariant
            start <= i <= key@.len(),
            node.wf(),
            records == faulter.records(),
            goal == key@.skip(start as int),
            current.wf(),
            full_at(records, node@, goal) == full_at(records, current@, key@.skip(i as int)),
            resident ==> walk_end(node@, goal, 0) == walk_end(current@, goal, i - start),
            !resident ==> walk_end(node@, goal, 0) is Durable,
        decreases key@.len() - i,
    {
        let ghost rest = key@.skip(i as int);
        assert(rest[0] == key@[i as int]);
        assert(goal[i - start] == key@[i as int]);
        assert(rest.drop_first() =~= key@.skip(i + 1));
        let next: Arc<OverlayNode<K, V>> = match current.find_child(key[i]) {
            None => {
                return Ok(None);
            },
            Some(Child::InMem(child)) => share(child),
            Some(Child::OnDisk(ptr)) => {
                if ptr.is_null() {
                    return Ok(None);
                }
                let outcome = faulter.try_fault_overlay_slot(ptr);
                assert(call_ensures(F::try_fault_overlay_slot, (faulter, ptr), outcome));
                match outcome {
                    Ok(loaded) => {
                        proof {
                            resident = false;
                        }
                        loaded
                    },
                    Err(e) => {
                        return Err(e);
                    },
                }
            },
        };
        current = next;
        i += 1;
    }
    assert(key@.skip(i as int) =~= Seq::empty());
    if current.is_final() {
        Ok(Some(current))
    } else {
        Ok(None)
    }
}

/// What a walk over resident children comes to, through durable ones.
proof fn lemma_walk_end<U, V>(records: Records<U, V>, tree: Tree<U, V>, key: Seq<U>, depth: int)
    requires
        0 <= depth <= key.len(),
    ensures
        match walk_end(tree, key, depth) {
            WalkEnd::Resident(end) => full_at(records, tree, key.skip(depth)) == Some(end),
            WalkEnd::Missing => full_at(records, tree, key.skip(depth)) is None,
            WalkEnd::Durable { depth: d, ptr } => depth <= d < key.len() && full_at(
                records,
                tree,
                key.skip(depth),
            ) == full_at(records, records(ptr), key.skip(d + 1)),
        },
    decreases key.len() - depth,
{
    if depth < key.len() {
        let rest = key.skip(depth);
        assert(rest[0] == key[depth]);
        assert(rest.drop_first() =~= key.skip(depth + 1));
        match kid(tree, key[depth]) {
            Some(Branch::InMem(child)) => {
                lemma_walk_end(records, child, key, depth + 1);
            },
            _ => {},
        }
    } else {
        assert(key.skip(depth) =~= Seq::empty());
    }
}

/// The copy of a trie in which a path leads to a loaded node. The path must be
/// resident but for its last edge.
pub open spec fn spliced<U, V>(tree: Tree<U, V>, path: Seq<U>, loaded: Tree<U, V>) -> Tree<U, V>
    decreases path.len(),
{
    if path.len() == 0 {
        loaded
    } else {
        let below = match kid(tree, path[0]) {
            Some(Branch::InMem(child)) => child,
            _ => tree,
        };
        tree.put(path[0], Branch::InMem(spliced(below, path.drop_first(), loaded)))
    }
}

/// One more edge at the end of a resident path.
proof fn lemma_spliced_push<U, V>(
    tree: Tree<U, V>,
    path: Seq<U>,
    end: Tree<U, V>,
    unit: U,
    loaded: Tree<U, V>,
)
    requires
        at(tree, path) == Some(end),
    ensures
        spliced(tree, path.push(unit), loaded) == spliced(
            tree,
            path,
            end.put(unit, Branch::InMem(loaded)),
        ),
    decreases path.len(),
{
    let longer = path.push(unit);
    reveal_with_fuel(spliced, 2);
    if path.len() == 0 {
        assert(longer.drop_first() =~= Seq::empty());
    } else {
        assert(longer.drop_first() =~= path.drop_first().push(unit));
        match kid(tree, path[0]) {
            Some(Branch::InMem(child)) => {
                lemma_spliced_push(child, path.drop_first(), end, unit, loaded);
            },
            _ => {},
        }
    }
}

/// Copying the ancestors of a walk around a new end is splicing it in.
proof fn lemma_spliced_walk<U, V>(
    root: Tree<U, V>,
    key: Seq<U>,
    ancestors: Seq<(Tree<U, V>, U)>,
    end: Tree<U, V>,
    new: Tree<U, V>,
)
    requires
        walked(root, key, ancestors, end),
    ensures
        unwound(ancestors, new) == spliced(root, key.take(ancestors.len() as int), new),
        at(root, key.take(ancestors.len() as int)) == Some(end),
    decreases ancestors.len(),
{
    let n = ancestors.len() as int;
    let path = key.take(n);
    if n > 0 {
        let above = ancestors.drop_last();
        let (parent, unit) = ancestors.last();
        assert(ancestors[n - 1] == ancestors.last());
        assert(walked(root, key, above, parent)) by {
            assert forall|i: int| 0 <= i < above.len() implies (#[trigger] above[i]).1 == key[i]
                && kid(above[i].0, above[i].1) == Some(
                Branch::InMem(next_ancestor(above, parent, i)),
            ) by {
                assert(above[i] == ancestors[i]);
                if i + 1 < above.len() {
                    assert(above[i + 1] == ancestors[i + 1]);
                }
            }
            if n > 1 {
                assert(above[0] == ancestors[0]);
            }
        }
        lemma_spliced_walk(root, key, above, parent, parent.put(unit, Branch::InMem(new)));
        assert(path =~= key.take(n - 1).push(unit));
        lemma_spliced_push(root, key.take(n - 1), parent, unit, new);
        lemma_at_concat(root, key.take(n - 1), seq![unit]);
        assert(key.take(n - 1) + seq![unit] =~= path);
        assert(seq![unit].drop_first() =~= Seq::<U>::empty());
        assert(at(end, seq![unit].drop_first()) == Some(end));
    } else {
        assert(path =~= Seq::empty());
    }
}

/// A revision was given up: a durable child was to be loaded, the registry that the
/// revision is bound to did not take part, and the slot was told to hold another
/// revision by then.
pub open spec fn given_up<K: KeyEncoding, V>(
    slot: AtomicNodePtr<K, V>,
    revision: Arc<PublishedRoot<K, V>>,
    key: Seq<K::Unit>,
) -> bool {
    &&& walk_end(revision.node@, key, 0) is Durable
    &&& revision.eviction is Some
    &&& exists|latest: Option<Arc<PublishedRoot<K, V>>>| #[trigger]
        slot.read(latest) && (latest matches Some(other) ==> told_same(revision, other, false))
}

/// One round of an eviction: the revision it was tried on, where the replaced
/// candidates were to be listed, and what came of it.
pub struct EvictionRound<K: KeyEncoding, V> {
    pub revision: RootRevision<K, V>,
    pub room: SuccessfulCandidateIndices,
    pub outcome: (Option<ExactEvictionOutcome>, SuccessfulCandidateIndices),
}

/// How the rounds of an eviction ended: every round but the last lost against another
/// publication, and the last as well only if no more were allowed, or if the slot was
/// empty by then.
pub open spec fn rounds_ended<K: KeyEncoding, V>(
    rounds: Seq<EvictionRound<K, V>>,
    retries: usize,
    vanished: bool,
    r: (usize, usize),
) -> bool {
    let lost = Some(ExactEvictionOutcome::RootAdvanced);
    &&& rounds.len() <= retries + 1
    &&& forall|i: int| 0 <= i < rounds.len() - 1 ==> (#[trigger] rounds[i]).outcome.0 == lost
    &&& if rounds.len() > 0 && rounds.last().outcome.0 != lost {
        r == outcome_totals(rounds.last().outcome.0)
    } else {
        r == (0usize, 0usize) && (vanished || rounds.len() == retries + 1)
    }
}

/// Revisions that the slot held, all of them given up.
pub open spec fn all_given_up<K: KeyEncoding, V>(
    slot: AtomicNodePtr<K, V>,
    rounds: Seq<Arc<PublishedRoot<K, V>>>,
    key: Seq<K::Unit>,
) -> bool {
    forall|i: int|
        0 <= i < rounds.len() ==> slot.read(Some(#[trigger] rounds[i])) && given_up(
            slot,
            rounds[i],
            key,
        )
}

/// What a point read may answer: the final node under the key in a revision that the
/// slot held; that there is none there, or that the slot was empty; and, after as many
/// rounds as are allowed, all of which were given up, none as well. It fails if a
/// durable child could not be loaded, or if a long path found no room.
pub open spec fn read_answer<K: KeyEncoding, V>(
    records: Records<K::Unit, V>,
    slot: AtomicNodePtr<K, V>,
    key: Seq<K::Unit>,
    retries: usize,
    may_spill: bool,
    r: TrieResult<Option<Arc<OverlayNode<K, V>>>>,
) -> bool {
    match r {
        Ok(Some(leaf)) => {
            &&& leaf.wf()
            &&& leaf@.is_final
            &&& exists|revision: Arc<PublishedRoot<K, V>>| #[trigger]
                slot.read(Some(revision)) && full_at(records, revision.node@, key) == Some(leaf@)
        },
        Ok(None) => {
            ||| slot.read(None)
            ||| exists|revision: Arc<PublishedRoot<K, V>>| #[trigger]
                slot.read(Some(revision)) && full_term(records, revision.node@, key) is None
            ||| exists|rounds: Seq<Arc<PublishedRoot<K, V>>>| #[trigger]
                all_given_up(slot, rounds, key) && rounds.len() == retries + 1
        },
        Err(e) => exists|revision: Arc<PublishedRoot<K, V>>| #[trigger]
            slot.read(Some(revision)) && (path_refused(e, revision.node@, key, may_spill)
                || walk_end(revision.node@, key, 0) is Durable),
    }
}

/// A loaded node stands for what a revision that the slot held has under a key, from
/// a position of the key on.
pub open spec fn stands_for<K: KeyEncoding, V>(
    records: Records<K::Unit, V>,
    slot: AtomicNodePtr<K, V>,
    key: Seq<K::Unit>,
    node: Tree<K::Unit, V>,
    start: int,
) -> bool {
    exists|revision: Arc<PublishedRoot<K, V>>| #[trigger]
        slot.read(Some(revision)) && walk_end(revision.node@, key, 0) is Durable && full_at(
            records,
            revision.node@,
            key,
        ) == full_at(records, node, key.skip(start))
}

/// One round of a read: the revision it was tried on, with what was loaded before it
/// and what came of it.
pub struct ReadRound<K: KeyEncoding, V> {
    pub revision: RootRevision<K, V>,
    pub cache: Option<(usize, u64, Arc<OverlayNode<K, V>>)>,
    pub outcome: (TrieResult<FaultRound<K, V>>, Option<(usize, u64, Arc<OverlayNode<K, V>>)>),
}

/// The revisions of some rounds.
pub open spec fn published_of<K: KeyEncoding, V>(rounds: Seq<ReadRound<K, V>>) -> Seq<
    Arc<PublishedRoot<K, V>>,
> {
    Seq::new(rounds.len(), |i: int| rounds[i].revision.published)
}

/// What was loaded last when some rounds are over.
pub open spec fn next_cache<K: KeyEncoding, V>(rounds: Seq<ReadRound<K, V>>) -> Option<
    (usize, u64, Arc<OverlayNode<K, V>>),
> {
    if rounds.len() == 0 {
        None
    } else {
        rounds.last().outcome.1
    }
}

/// What a round that ended a read gave.
pub open spec fn round_answer<K: KeyEncoding, V>(round: ReadRound<K, V>) -> Option<
    TrieResult<Option<Arc<OverlayNode<K, V>>>>,
> {
    match round.outcome.0 {
        Err(e) => Some(Err(e)),
        Ok(FaultRound::Answered(answer)) => Some(Ok(answer)),
        _ => None,
    }
}

/// What the last of some rounds gave, if it ended the read.
pub open spec fn rounds_answer<K: KeyEncoding, V>(rounds: Seq<ReadRound<K, V>>) -> Option<
    TrieResult<Option<Arc<OverlayNode<K, V>>>>,
> {
    if rounds.len() == 0 {
        None
    } else {
        round_answer(rounds.last())
    }
}

/// Rounds that follow each other: each hands on what it loaded, only the last may end
/// the read, and there are no more of them than are allowed.
pub open spec fn rounds_follow<K: KeyEncoding, V>(
    rounds: Seq<ReadRound<K, V>>,
    retries: usize,
) -> bool {
    &&& rounds.len() <= retries + 1
    &&& forall|i: int|
        0 <= i < rounds.len() ==> (#[trigger] rounds[i]).cache == next_cache(rounds.take(i))
    &&& forall|i: int| 0 <= i < rounds.len() - 1 ==> round_answer(#[trigger] rounds[i]) is None
}

/// The node that was loaded last in some rounds, and where the key goes on below it.
pub open spec fn last_loaded<K: KeyEncoding, V>(rounds: Seq<ReadRound<K, V>>) -> Option<
    (Arc<OverlayNode<K, V>>, usize),
>
    decreases rounds.len(),
{
    if rounds.len() == 0 {
        None
    } else {
        match rounds.last().outcome.0 {
            Ok(FaultRound::Loaded(node, start)) => Some((node, start)),
            _ => last_loaded(rounds.drop_last()),
        }
    }
}

/// One round more.
proof fn lemma_rounds_push<K: KeyEncoding, V>(
    rounds: Seq<ReadRound<K, V>>,
    round: ReadRound<K, V>,
    retries: usize,
)
    requires
        rounds_follow(rounds, retries),
        rounds_answer(rounds) is None,
        rounds.len() <= retries,
        round.cache == next_cache(rounds),
    ensures
        rounds_follow(rounds.push(round), retries),
{
    let longer = rounds.push(round);
    assert forall|i: int| 0 <= i < longer.len() implies (#[trigger] longer[i]).cache
        == next_cache(longer.take(i)) by {
        if i < rounds.len() {
            assert(longer[i] == rounds[i]);
            assert(longer.take(i) =~= rounds.take(i));
        } else {
            assert(longer.take(i) =~= rounds);
        }
    }
    assert forall|i: int| 0 <= i < longer.len() - 1 implies round_answer(
        #[trigger] longer[i],
    ) is None by {
        assert(longer[i] == rounds[i]);
        if i == rounds.len() - 1 {
            assert(rounds[i] == rounds.last());
        }
    }
}

/// What a read does with a durable child that it found under a captured root.
#[derive(Clone, Copy, Debug, PartialEq, Eq, Structural)]
pub enum FaultPlan {
    /// Start over on the latest root, without loading.
    Rebase,
    /// Load, and publish together with the prepared residency change.
    PublishExact,
    /// Load, but publish nothing: the root is bound and must stay so.
    Retain,
    /// Load, and publish as a semantic rewrite.
    PublishUnbound,
}

/// Chooses between them. A bound root whose change could not be prepared is
/// rebased if it is no longer published.
pub fn plan_fault(bound: bool, prepared: bool, still_published: bool) -> (r: FaultPlan)
    ensures
        r == (if prepared {
            FaultPlan::PublishExact
        } else if bound && !still_published {
            FaultPlan::Rebase
        } else if bound {
            FaultPlan::Retain
        } else {
            FaultPlan::PublishUnbound
        }),
{
    if prepared {
        FaultPlan::PublishExact
    } else if bound {
        if still_published {
            FaultPlan::Retain
        } else {
            FaultPlan::Rebase
        }
    } else {
        FaultPlan::PublishUnbound
    }
}

/// What one round of a read came to.
pub enum FaultRound<K: KeyEncoding, V> {
    /// The final node under the key, or that there is none.
    Answered(Option<Arc<OverlayNode<K, V>>>),
    /// The revision is no longer published.
    GivenUp,
    /// A durable child on the way was loaded; the key goes on at a position.
    Loaded(Arc<OverlayNode<K, V>>, usize),
}

/// How the publication of an eviction ended.
#[derive(Clone, Copy, Debug, PartialEq, Eq, Structural)]
pub enum ExactEvictionOutcome {
    /// Published: the nodes and bytes that left memory.
    Committed(usize, usize),
    /// Another root was published meanwhile.
    RootAdvanced,
    /// The registry no longer stands behind the root.
    AuthorityLost,
}

/// How the publication of a load ended.
#[derive(Clone, Copy, Debug, PartialEq, Eq, Structural)]
pub enum ExactFaultOutcome {
    Committed,
    RootAdvanced,
    AuthorityLost,
}

/// The nodes and bytes that left memory with a round.
pub open spec fn outcome_totals(outcome: Option<ExactEvictionOutcome>) -> (usize, usize) {
    match outcome {
        Some(ExactEvictionOutcome::Committed(nodes, bytes)) => (nodes, bytes),
        _ => (0, 0),
    }
}

/// The nodes and bytes that left memory with a round: those of a publication, and
/// none without one.
pub fn totals_of(outcome: Option<ExactEvictionOutcome>) -> (r: (usize, usize))
    ensures
        r == outcome_totals(outcome),
{
    match outcome {
        Some(ExactEvictionOutcome::Committed(nodes, bytes)) => (nodes, bytes),
        _ => (0, 0),
    }
}

/// A root was rewritten without a residency change: the exchange for the new tree with
/// the same number of terms was tried. A bound revision is left alone instead.
pub open spec fn rewritten<K: KeyEncoding, V>(
    slot: AtomicNodePtr<K, V>,
    revision: RootRevision<K, V>,
    tree: Tree<K::Unit, V>,
) -> bool {
    revision.published.eviction is Some || exists|
        root: Arc<OverlayNode<K, V>>,
        outcome: Result<RootRevision<K, V>, Option<RootRevision<K, V>>>,
    |
        root@ == tree && #[trigger] slot.tried_rewrite(revision.published, root, 0, outcome)
}

/// A transition of a revision carries a residency change.
pub open spec fn carries<K: KeyEncoding, V>(
    transition: PreparedBoundRootTransition<K, V>,
    revision: RootRevision<K, V>,
    change: PreparedPackedResidency,
) -> bool {
    &&& transition.wf()
    &&& transition.expected == revision
    &&& transition.next.eviction == Some(Arc::new(RootEvictionRevision::after(change)))
}

/// All candidates of a batch lie on one path.
pub open spec fn chains<U: Copy>(batch: CompactEvictionBatch<U>) -> bool {
    exists|d: int| #[trigger] chain_through(batch, d)
}

/// A batch that no plan can be made for.
pub open spec fn unplannable<U: Copy>(batch: CompactEvictionBatch<U>) -> bool {
    !chains(batch) && (batch_rejected(batch) || batch_units(batch, batch.candidates@.len()) + 1
        >= usize::MAX)
}

/// A plan for one eviction batch.
pub enum EvictionPlan<U> {
    /// All candidates lie on one path.
    Chain(Vec<ChainWalkFrame<U>>),
    /// The general case.
    Batch(Vec<BatchPlanNode<U>>),
}

impl<U> EvictionPlan<U> {
    /// The plan is well formed and its marks name candidates.
    pub open spec fn wf(self, candidates: nat) -> bool {
        match self {
            EvictionPlan::Chain(frames) => chain_marks_in_range(frames@, candidates),
            EvictionPlan::Batch(plan) => plan_wf(plan@) && plan@.len() >= 1 && marks_in_range(
                plan@,
                candidates,
            ),
        }
    }
}

impl<U: Copy> EvictionPlan<U> {
    /// The plan selects the candidates of a batch, all of them and at their paths: the
    /// single-path plan if there is one, else the general one.
    pub open spec fn selects(self, batch: CompactEvictionBatch<U>) -> bool {
        match self {
            EvictionPlan::Chain(frames) => exists|d: int| #[trigger]
                chain_through(batch, d) && chain_plans(frames@, batch, d),
            EvictionPlan::Batch(plan) => !chains(batch) && !batch_rejected(batch) && plans(
                plan@,
                batch,
            ),
        }
    }
}

/// The plan of a batch: the single-path plan if there is one, else the general
/// one.
pub fn plan_eviction<K: KeyEncoding>(batch: &CompactEvictionBatch<K::Unit>) -> (r: Option<
    EvictionPlan<K::Unit>,
>)
    requires
        batch.wf(),
    ensures
        match r {
            Some(plan) => {
                &&& plan.wf(batch.candidates@.len())
                &&& plan.selects(*batch)
            },
            None => {
                &&& forall|d: int| !#[trigger] chain_through(*batch, d)
                &&& batch_rejected(*batch) || batch_units(*batch, batch.candidates@.len()) + 1
                    >= usize::MAX
            },
        },
{
    match build_chain_plan::<K>(batch) {
        Some(frames) => Some(EvictionPlan::Chain(frames)),
        None => match build_batch_plan::<K>(batch) {
            Some(plan) => {
                proof {
                    lemma_plan_in_range(plan@, *batch);
                }
                Some(EvictionPlan::Batch(plan))
            },
            None => None,
        },
    }
}

/// What a plan makes of a root: the copy, and the candidates that it replaced.
pub open spec fn evicted_by_plan<U, V>(
    policy: CompactEvictionPolicy,
    plan: EvictionPlan<U>,
    candidates: Seq<crate::eviction::CompactEvictionCandidate>,
    root: Tree<U, V>,
) -> (Tree<U, V>, Seq<usize>) {
    match plan {
        EvictionPlan::Chain(frames) => {
            let (tree, one) = evict_chain(policy, frames@, candidates, 0, root);
            (
                tree,
                match one {
                    Some(c) => seq![c],
                    None => Seq::empty(),
                },
            )
        },
        EvictionPlan::Batch(plan) => evict_node(policy, plan@, candidates, 0, root),
    }
}

/// Carries out a plan on a root. `None` when nothing is replaced.
pub fn evict_by_plan<K: KeyEncoding, V: DictionaryValue>(
    plan: &EvictionPlan<K::Unit>,
    root: &Arc<OverlayNode<K, V>>,
    batch: &CompactEvictionBatch<K::Unit>,
    successful: &mut SuccessfulCandidateIndices,
) -> (r: Option<Arc<OverlayNode<K, V>>>)
    requires
        root.wf(),
        plan.wf(batch.candidates@.len()),
    ensures
        ({
            let (tree, evicted) = evicted_by_plan(batch.policy, *plan, batch.candidates@, root@);
            &&& final(successful)@ == evicted
            &&& match r {
                Some(node) => evicted.len() > 0 && node.wf() && node@ == tree,
                None => evicted.len() == 0,
            }
        }),
{
    match plan {
        EvictionPlan::Chain(frames) => match batch.policy {
            CompactEvictionPolicy::DescendantFirst => build_chain_replacement_into(
                root,
                frames,
                batch,
                successful,
            ),
            CompactEvictionPolicy::ResidentBudgetAncestorClosure =>
                build_chain_ancestor_replacement_into(root, frames, batch, successful),
        },
        EvictionPlan::Batch(plan) => match batch.policy {
            CompactEvictionPolicy::DescendantFirst => build_batch_replacement_into(
                root,
                plan,
                batch,
                successful,
            ),
            CompactEvictionPolicy::ResidentBudgetAncestorClosure =>
                build_batch_ancestor_replacement_into(root, plan, batch, successful),
        },
    }
}

/// A trie that evicts and loads under a published root. The registry of durable
/// records and its transactions belong to the implementor.
pub trait OverlayEvictable<K: KeyEncoding, V: DictionaryValue>: OverlayFaulter<K, V> {
    /// The slot of the published root, if the overlay is in use.
    fn overlay_root_slot(&self) -> Option<&AtomicNodePtr<K, V>>;

    /// Whether an eviction coordinator is installed.
    fn overlay_has_coordinator(&self) -> bool;

    /// Prepares the residency change of an eviction.
    fn prepare_overlay_eviction_commit(
        &self,
        root_revision: &RootRevision<K, V>,
        batch: &CompactEvictionBatch<K::Unit>,
        successful: &SuccessfulCandidateIndices,
    ) -> Option<PreparedPackedResidency>;

    /// Publishes an eviction together with its residency change.
    fn commit_overlay_eviction(
        &self,
        root: &AtomicNodePtr<K, V>,
        transition: PreparedBoundRootTransition<K, V>,
    ) -> ExactEvictionOutcome
        requires
            transition.wf(),
    ;

    /// Prepares the residency change of a load.
    fn prepare_overlay_fault_commit(
        &self,
        root_revision: &RootRevision<K, V>,
        path: &[K::Unit],
        disk_ptr: &SwizzledPtr,
    ) -> Option<PreparedPackedResidency>;

    /// Publishes a load together with its residency change.
    fn commit_overlay_fault(
        &self,
        root: &AtomicNodePtr<K, V>,
        transition: PreparedBoundRootTransition<K, V>,
    ) -> ExactFaultOutcome
        requires
            transition.wf(),
    ;

    /// Takes note of an attempt to publish a load.
    fn note_faultin_cas(&self);

    /// One round of an eviction, against one revision: replaces what the plan selects
    /// there and has the outcome published together with its residency change. `None`
    /// if there was nothing to replace or the change could not be prepared. `room` is
    /// where the replaced candidates are listed, and is handed back.
    fn evict_in_revision(
        &self,
        root_slot: &AtomicNodePtr<K, V>,
        revision: &RootRevision<K, V>,
        batch: &CompactEvictionBatch<K::Unit>,
        plan: &EvictionPlan<K::Unit>,
        room: SuccessfulCandidateIndices,
    ) -> (r: (Option<ExactEvictionOutcome>, SuccessfulCandidateIndices))
        requires
            revision.wf(),
            plan.wf(batch.candidates@.len()),
        ensures
            ({
                let (tree, evicted) = evicted_by_plan(
                    batch.policy,
                    *plan,
                    batch.candidates@,
                    revision.published.node@,
                );
                match r.0 {
                    None => evicted.len() == 0 || exists|
                        list: SuccessfulCandidateIndices,
                        packed: Option<PreparedPackedResidency>,
                    |
                        list@ == evicted && #[trigger] call_ensures(
                            Self::prepare_overlay_eviction_commit,
                            (self, revision, batch, &list),
                            packed,
                        ) && (packed matches Some(change) ==> revision.told_fit(change, false)),
                    Some(outcome) => evicted.len() > 0 && exists|
                        list: SuccessfulCandidateIndices,
                        change: PreparedPackedResidency,
                        transition: PreparedBoundRootTransition<K, V>,
                    |
                        list@ == evicted && #[trigger] call_ensures(
                            Self::prepare_overlay_eviction_commit,
                            (self, revision, batch, &list),
                            Some(change),
                        ) && carries(transition, *revision, change) && transition.next.node@ == tree
                            && #[trigger] call_ensures(
                            Self::commit_overlay_eviction,
                            (self, root_slot, transition),
                            outcome,
                        ),
                }
            }),
    {
        let mut successful = room;
        let new_root = match evict_by_plan(plan, revision.node(), batch, &mut successful) {
            Some(new_root) => new_root,
            None => {
                return (None, successful);
            },
        };
        let prepared = self.prepare_overlay_eviction_commit(revision, batch, &successful);
        assert(call_ensures(
            Self::prepare_overlay_eviction_commit,
            (self, revision, batch, &successful),
            prepared,
        ));
        let packed = match prepared {
            Some(packed) => packed,
            None => {
                return (None, successful);
            },
        };
        let transition = match AtomicNodePtr::prepare_exact_root_transition(
            revision,
            new_root,
            packed,
        ) {
            Some(transition) => transition,
            None => {
                return (None, successful);
            },
        };
        let outcome = self.commit_overlay_eviction(root_slot, transition);
        assert(call_ensures(
            Self::commit_overlay_eviction,
            (self, root_slot, transition),
            outcome,
        ));
        (Some(outcome), successful)
    }

    /// Evicts a batch, with one publication per attempt and a bounded number of
    /// attempts. Returns the nodes and bytes that left memory, which are zero
    /// unless an attempt was published.
    fn evict_overlay_batch(
        &self,
        batch: &CompactEvictionBatch<K::Unit>,
        max_rebase_retries: usize,
    ) -> (r: (usize, usize))
        requires
            batch.wf(),
        ensures
            batch.candidates@.len() == 0 ==> r == (0usize, 0usize),
            batch_rejected(*batch) && (forall|d: int| !#[trigger] chain_through(*batch, d)) ==> r == (
                0usize,
                0usize,
            ),
            ({
                // Nothing was tried.
                ||| r == (0usize, 0usize) && (batch.candidates@.len() == 0 || unplannable(*batch)
                    || call_ensures(Self::overlay_root_slot, (self,), None) || call_ensures(
                    Self::overlay_has_coordinator,
                    (self,),
                    false,
                ) || exists|source: CollectionAllocErr| #[trigger]
                    call_ensures(
                        SuccessfulCandidateIndices::with_room,
                        (batch.candidates.len(),),
                        Err(source),
                    ))
                // The last round ended it.
                ||| exists|
                    slot: &AtomicNodePtr<K, V>,
                    plan: EvictionPlan<K::Unit>,
                    rounds: Seq<EvictionRound<K, V>>,
                |
                    {
                        &&& #[trigger] call_ensures(Self::overlay_root_slot, (self,), Some(slot))
                        &&& plan.wf(batch.candidates@.len())
                        &&& #[trigger] plan.selects(*batch)
                        &&& forall|i: int|
                            0 <= i < rounds.len() ==> slot.read(
                                Some((#[trigger] rounds[i]).revision.published),
                            ) && call_ensures(
                                Self::evict_in_revision,
                                (self, slot, &rounds[i].revision, batch, &plan, rounds[i].room),
                                rounds[i].outcome,
                            )
                        &&& #[trigger] rounds_ended(
                            rounds,
                            max_rebase_retries,
                            slot.read(None),
                            r,
                        )
                    }
            }),
    {
        if batch.candidates.len() == 0 {
            return (0, 0);
        }
        let plan = match plan_eviction::<K>(batch) {
            Some(plan) => plan,
            None => {
                return (0, 0);
            },
        };
        let slot = self.overlay_root_slot();
        assert(call_ensures(Self::overlay_root_slot, (self,), slot));
        let root_slot = match slot {
            Some(root_slot) => root_slot,
            None => {
                return (0, 0);
            },
        };
        let coordinated: bool = self.overlay_has_coordinator();
        assert(call_ensures(Self::overlay_has_coordinator, (self,), coordinated));
        if !coordinated {
            return (0, 0);
        }
        let reserved = SuccessfulCandidateIndices::with_room(batch.candidates.len());
        assert(call_ensures(
            SuccessfulCandidateIndices::with_room,
            (batch.candidates.len(),),
            reserved,
        ));
        let mut successful: SuccessfulCandidateIndices = match reserved {
            Ok(successful) => successful,
            Err(_) => {
                return (0, 0);
            },
        };
        let mut attempts: usize = max_rebase_retries;
        let ghost mut rounds: Seq<EvictionRound<K, V>> = Seq::empty();
        loop
            invariant
                attempts <= max_rebase_retries,
                rounds.len() == max_rebase_retries - attempts,
                forall|i: int|
                    0 <= i < rounds.len() ==> root_slot.read(
                        Some((#[trigger] rounds[i]).revision.published),
                    ) && call_ensures(
                        Self::evict_in_revision,
                        (self, root_slot, &rounds[i].revision, batch, &plan, rounds[i].room),
                        rounds[i].outcome,
                    ) && rounds[i].outcome.0 == Some(ExactEvictionOutcome::RootAdvanced),
                batch.wf(),
                plan.wf(batch.candidates@.len()),
                plan.selects(*batch),
                batch.candidates@.len() > 0,
                call_ensures(Self::overlay_root_slot, (self,), Some(root_slot)),
                !(batch_rejected(*batch) && (forall|d: int| !#[trigger] chain_through(*batch, d))),
            decreases attempts,
        {
            let old_revision = match root_slot.load_revision() {
                Some(old_revision) => old_revision,
                None => {
                    assert(rounds_ended(rounds, max_rebase_retries, true, (0, 0)));
                    return (0, 0);
                },
            };
            assert(root_slot.read(Some(old_revision.published)));
            let ghost room = successful;
            let result = self.evict_in_revision(
                root_slot,
                &old_revision,
                batch,
                &plan,
                successful,
            );
            assert(call_ensures(
                Self::evict_in_revision,
                (self, root_slot, &old_revision, batch, &plan, room),
                result,
            ));
            let ghost before = rounds;
            proof {
                let round = EvictionRound { revision: old_revision, room, outcome: result };
                rounds = rounds.push(round);
                assert(forall|i: int| 0 <= i < before.len() ==> #[trigger] rounds[i] == before[i]);
                assert(rounds.last() == round);
            }
            let (outcome, list) = result;
            successful = list;
            match outcome {
                Some(ExactEvictionOutcome::RootAdvanced) => {
                    if attempts == 0 {
                        assert(rounds_ended(
                            rounds,
                            max_rebase_retries,
                            root_slot.read(None),
                            (0, 0),
                        ));
                        return (0, 0);
                    }
                    attempts -= 1;
                },
                _ => {
                    assert(rounds_ended(
                        rounds,
                        max_rebase_retries,
                        root_slot.read(None),
                        outcome_totals(outcome),
                    ));
                    return totals_of(outcome);
                },
            }
        }
    }

    /// One round of a read, against one revision. `cache` holds the record that was
    /// loaded last. A resident end of the walk answers the read. A durable child on
    /// the way is loaded, unless the revision has to be given up, and published in
    /// its place where that is possible.
    fn find_leaf_in_revision(
        &self,
        root_slot: &AtomicNodePtr<K, V>,
        revision: &RootRevision<K, V>,
        key: &[K::Unit],
        cache: Option<(usize, u64, Arc<OverlayNode<K, V>>)>,
        may_spill: bool,
    ) -> (r: (TrieResult<FaultRound<K, V>>, Option<(usize, u64, Arc<OverlayNode<K, V>>)>))
        requires
            revision.published.node.wf(),
            cache matches Some((_, raw, node)) ==> node.wf() && node@ == (self.records())(
                (SwizzledPtr { raw }),
            ) && call_ensures(
                Self::try_fault_overlay_slot,
                (self, &(SwizzledPtr { raw })),
                Ok(node),
            ),
        ensures
            r.1 matches Some((_, raw, node)) ==> node.wf() && node@ == (self.records())(
                (SwizzledPtr { raw }),
            ) && call_ensures(
                Self::try_fault_overlay_slot,
                (self, &(SwizzledPtr { raw })),
                Ok(node),
            ),
            match walk_end(revision.published.node@, key@, 0) {
                WalkEnd::Resident(tree) => r.1 == cache && match r.0 {
                    Ok(FaultRound::Answered(Some(leaf))) => tree.is_final && leaf.wf() && leaf@
                        == tree,
                    Ok(FaultRound::Answered(None)) => !tree.is_final,
                    Ok(_) => false,
                    Err(e) => path_refused(e, revision.published.node@, key@, may_spill),
                },
                WalkEnd::Missing => r.1 == cache && match r.0 {
                    Ok(FaultRound::Answered(None)) => true,
                    Ok(_) => false,
                    Err(e) => path_refused(e, revision.published.node@, key@, may_spill),
                },
                WalkEnd::Durable { depth, ptr } => match r.0 {
                    Ok(FaultRound::Answered(_)) => false,
                    Ok(FaultRound::GivenUp) => r.1 == cache && given_up(
                        *root_slot,
                        revision.published,
                        key@,
                    ),
                    Ok(FaultRound::Loaded(node, start)) => {
                        &&& start == depth + 1
                        &&& start <= key@.len()
                        &&& node.wf()
                        &&& node@ == (self.records())(ptr)
                        &&& r.1 == Some((depth as usize, ptr.raw, node))
                        // The change was prepared, and the spliced root handed on with it.
                        &&& {
                            let tree = spliced(
                                revision.published.node@,
                                key@.take(depth + 1),
                                node@,
                            );
                            ||| call_ensures(Self::overlay_has_coordinator, (self,), false)
                                && rewritten(*root_slot, *revision, tree)
                            ||| exists|path: &[K::Unit]| path@ == key@.take(depth + 1)
                                && #[trigger] call_ensures(
                                Self::prepare_overlay_fault_commit,
                                (self, revision, path, &ptr),
                                None,
                            ) && rewritten(*root_slot, *revision, tree)
                            ||| exists|path: &[K::Unit], change: PreparedPackedResidency|
                                path@ == key@.take(depth + 1) && #[trigger] call_ensures(
                                    Self::prepare_overlay_fault_commit,
                                    (self, revision, path, &ptr),
                                    Some(change),
                                ) && (revision.told_fit(change, false) || exists|
                                    transition: PreparedBoundRootTransition<K, V>,
                                    outcome: ExactFaultOutcome,
                                |
                                    carries(transition, *revision, change)
                                        && transition.next.node@ == tree
                                        && #[trigger] call_ensures(
                                        Self::commit_overlay_fault,
                                        (self, root_slot, transition),
                                        outcome,
                                    ))
                        }
                    },
                    Err(e) => r.1 == cache && (path_refused(
                        e,
                        revision.published.node@,
                        key@,
                        may_spill,
                    ) || call_ensures(
                        Self::try_fault_overlay_slot,
                        (self, &ptr),
                        Err(e),
                    )),
                },
            },
    {
        let old_root = share(revision.node());
        match walk_to_durable_on(OverlayPathSpine::empty(may_spill), &old_root, key) {
            Err(e) => (Err(e), cache),
            Ok(FaultWalk::Missing) => (Ok(FaultRound::Answered(None)), cache),
            Ok(FaultWalk::Resident(node)) => if node.is_final() {
                (Ok(FaultRound::Answered(Some(share(node)))), cache)
            } else {
                (Ok(FaultRound::Answered(None)), cache)
            },
            Ok(FaultWalk::Durable { spine, parent, depth, ptr }) => {
                assert(depth < key.len());
                let coordinated: bool = self.overlay_has_coordinator();
                assert(call_ensures(Self::overlay_has_coordinator, (self,), coordinated));
                let path = slice_subrange(key, 0, depth + 1);
                assert(path@ =~= key@.take(depth + 1));
                let prepared: Option<PreparedPackedResidency> = if coordinated {
                    let prepared = self.prepare_overlay_fault_commit(revision, path, &ptr);
                    assert(call_ensures(
                        Self::prepare_overlay_fault_commit,
                        (self, revision, path, &ptr),
                        prepared,
                    ));
                    prepared
                } else {
                    None
                };
                let bound: bool = revision.eviction_binding().is_some();
                let still_published: bool = if bound && prepared.is_none() {
                    match root_slot.load_revision() {
                        Some(latest) => {
                            assert(root_slot.read(Some(latest.published)));
                            revision.same_revision(&latest)
                        },
                        None => {
                            assert(root_slot.read(None));
                            false
                        },
                    }
                } else {
                    true
                };
                if plan_fault(bound, prepared.is_some(), still_published) == FaultPlan::Rebase {
                    return (Ok(FaultRound::GivenUp), cache);
                }
                let cached: Option<Arc<OverlayNode<K, V>>> = match &cache {
                    Some((at_depth, raw, node)) => if *at_depth == depth && *raw == ptr.to_raw() {
                        Some(share(node))
                    } else {
                        None
                    },
                    None => None,
                };
                let mut kept = cache;
                let loaded: Arc<OverlayNode<K, V>> = match cached {
                    Some(node) => node,
                    None => {
                        let outcome = self.try_fault_overlay_slot(&ptr);
                        assert(call_ensures(
                            Self::try_fault_overlay_slot,
                            (self, &ptr),
                            outcome,
                        ));
                        match outcome {
                            Ok(node) => {
                                kept = Some((depth, ptr.to_raw(), share(&node)));
                                node
                            },
                            Err(e) => {
                                return (Err(e), kept);
                            },
                        }
                    },
                };
                let answer = share(&loaded);
                let new_root = splice_loaded(spine, parent, key[depth], loaded);
                proof {
                    fault_in_keeps_terms(
                        self.records(),
                        old_root@,
                        key@,
                        spine_ancestors(spine.frames@),
                        parent@,
                        key@[depth as int],
                        ptr,
                    );
                    assert(same_terms(self.records(), old_root@, new_root@));
                    let ancestors = spine_ancestors(spine.frames@);
                    let new = parent@.put(key@[depth as int], Branch::InMem(answer@));
                    lemma_spliced_walk(old_root@, key@, ancestors, parent@, new);
                    lemma_spliced_push(
                        old_root@,
                        key@.take(depth as int),
                        parent@,
                        key@[depth as int],
                        answer@,
                    );
                    assert(key@.take(depth as int).push(key@[depth as int]) =~= key@.take(
                        depth + 1,
                    ));
                }
                let attempted: bool = match prepared {
                    Some(packed) => match AtomicNodePtr::prepare_exact_root_transition(
                        revision,
                        new_root,
                        packed,
                    ) {
                        Some(transition) => {
                            let outcome = self.commit_overlay_fault(root_slot, transition);
                            assert(call_ensures(
                                Self::commit_overlay_fault,
                                (self, root_slot, transition),
                                outcome,
                            ));
                            match outcome {
                                ExactFaultOutcome::Committed => true,
                                ExactFaultOutcome::RootAdvanced => true,
                                ExactFaultOutcome::AuthorityLost => false,
                            }
                        },
                        None => false,
                    },
                    None => if bound {
                        false
                    } else {
                        let outcome = root_slot.compare_exchange_revision_counted(
                            revision,
                            new_root,
                            0,
                        );
                        assert(root_slot.tried_rewrite(revision.published, new_root, 0, outcome));
                        true
                    },
                };
                if attempted {
                    self.note_faultin_cas();
                }
                (Ok(FaultRound::Loaded(answer, depth + 1)), kept)
            },
        }
    }

    /// The final node under `key` in the published trie. A durable child on the way
    /// is loaded and, where that is possible, published in its place; the read then
    /// starts over on the latest root. After a bounded number of rounds it answers
    /// from the last snapshot instead.
    fn find_leaf_faulting(
        &self,
        root_slot: &AtomicNodePtr<K, V>,
        key: &[K::Unit],
        max_faultin_retries: usize,
    ) -> (r: TrieResult<Option<Arc<OverlayNode<K, V>>>>)
        ensures
            call_ensures(
                Self::find_leaf_faulting_on,
                (self, root_slot, key, max_faultin_retries, true),
                r,
            ),
            read_answer(self.records(), *root_slot, key@, max_faultin_retries, true, r),
    {
        let r = self.find_leaf_faulting_on(root_slot, key, max_faultin_retries, true);
        assert(call_ensures(
            Self::find_leaf_faulting_on,
            (self, root_slot, key, max_faultin_retries, true),
            r,
        ));
        r
    }

    /// [`OverlayEvictable::find_leaf_faulting`], where the spine of a walk may outgrow
    /// its inline frames or must not.
    fn find_leaf_faulting_on(
        &self,
        root_slot: &AtomicNodePtr<K, V>,
        key: &[K::Unit],
        max_faultin_retries: usize,
        may_spill: bool,
    ) -> (r: TrieResult<Option<Arc<OverlayNode<K, V>>>>)
        ensures
            read_answer(self.records(), *root_slot, key@, max_faultin_retries, may_spill, r),
            r matches Err(e) ==> (exists|revision: Arc<PublishedRoot<K, V>>| #[trigger]
                root_slot.read(Some(revision)) && path_refused(
                    e,
                    revision.node@,
                    key@,
                    may_spill,
                )) || exists|ptr: SwizzledPtr| #[trigger]
                call_ensures(Self::try_fault_overlay_slot, (self, &ptr), Err(e)),
            // Each round read a revision and dealt with it, and the last one, or what
            // was loaded last, gave the answer.
            exists|rounds: Seq<ReadRound<K, V>>|
                {
                    &&& forall|i: int|
                        0 <= i < rounds.len() ==> root_slot.read(
                            Some((#[trigger] rounds[i]).revision.published),
                        ) && call_ensures(
                            Self::find_leaf_in_revision,
                            (
                                self,
                                root_slot,
                                &rounds[i].revision,
                                key,
                                rounds[i].cache,
                                may_spill,
                            ),
                            rounds[i].outcome,
                        )
                    &&& #[trigger] rounds_follow(rounds, max_faultin_retries)
                    &&& match rounds_answer(rounds) {
                        Some(answer) => r == answer,
                        None => {
                            ||| root_slot.read(None) && r == Ok::<
                                Option<Arc<OverlayNode<K, V>>>,
                                PersistentARTrieError,
                            >(None)
                            ||| rounds.len() == max_faultin_retries + 1 && exists|
                                revision: Arc<PublishedRoot<K, V>>,
                            | #[trigger]
                                root_slot.read(Some(revision)) && match at(revision.node@, key@) {
                                    Some(node) if node.is_final => r matches Ok(Some(leaf))
                                        && leaf@ == node,
                                    _ => match last_loaded(rounds) {
                                        Some((node, start)) => call_ensures(
                                            walk_faulting_snapshot::<K, V, Self>,
                                            (self, node, key, start),
                                            r,
                                        ),
                                        None => r == Ok::<
                                            Option<Arc<OverlayNode<K, V>>>,
                                            PersistentARTrieError,
                                        >(None),
                                    },
                                }
                        },
                    }
                },
    {
        let mut cache: Option<(usize, u64, Arc<OverlayNode<K, V>>)> = None;
        let mut fallback: Option<(Arc<OverlayNode<K, V>>, usize)> = None;
        let mut attempts: usize = max_faultin_retries;
        let ghost mut rounds: Seq<ReadRound<K, V>> = Seq::empty();
        let ghost whole = key@;
        assert(whole.skip(0) =~= whole);
        loop
            invariant_except_break
                attempts <= max_faultin_retries,
                rounds.len() == max_faultin_retries - attempts,
            invariant
                whole == key@,
                whole.skip(0) == whole,
                cache matches Some((_, raw, node)) ==> node.wf() && node@ == (self.records())(
                    (SwizzledPtr { raw }),
                ) && call_ensures(
                    Self::try_fault_overlay_slot,
                    (self, &(SwizzledPtr { raw })),
                    Ok(node),
                ),
                fallback matches Some((node, start)) ==> node.wf() && start <= key@.len()
                    && stands_for(self.records(), *root_slot, whole, node@, start as int),
                fallback is None ==> all_given_up(*root_slot, published_of(rounds), whole),
                fallback == last_loaded(rounds),
                cache == next_cache(rounds),
                forall|i: int|
                    0 <= i < rounds.len() ==> root_slot.read(
                        Some((#[trigger] rounds[i]).revision.published),
                    ) && call_ensures(
                        Self::find_leaf_in_revision,
                        (self, root_slot, &rounds[i].revision, key, rounds[i].cache, may_spill),
                        rounds[i].outcome,
                    ),
                rounds_follow(rounds, max_faultin_retries),
                rounds_answer(rounds) is None,
            ensures
                rounds.len() == max_faultin_retries + 1,
            decreases attempts,
        {
            let old_revision = match root_slot.load_revision() {
                Some(old_revision) => old_revision,
                None => {
                    return Ok(None);
                },
            };
            assert(root_slot.read(Some(old_revision.published)));
            proof {
                lemma_walk_end(self.records(), old_revision.published.node@, whole, 0);
            }
            let ghost before = rounds;
            let ghost given = cache;
            let outcome = self.find_leaf_in_revision(
                root_slot,
                &old_revision,
                key,
                cache,
                may_spill,
            );
            assert(call_ensures(
                Self::find_leaf_in_revision,
                (self, root_slot, &old_revision, key, given, may_spill),
                outcome,
            ));
            let ghost round = ReadRound { revision: old_revision, cache: given, outcome };
            proof {
                rounds = rounds.push(round);
                assert(rounds.drop_last() =~= before);
                assert(rounds.last() == round);
                lemma_rounds_push(before, round, max_faultin_retries);
                assert forall|i: int| 0 <= i < rounds.len() implies root_slot.read(
                    Some((#[trigger] rounds[i]).revision.published),
                ) && call_ensures(
                    Self::find_leaf_in_revision,
                    (self, root_slot, &rounds[i].revision, key, rounds[i].cache, may_spill),
                    rounds[i].outcome,
                ) by {
                    if i < before.len() {
                        assert(rounds[i] == before[i]);
                    }
                }
            }
            let (found, kept) = outcome;
            cache = kept;
            match found {
                Err(e) => {
                    return Err(e);
                },
                Ok(FaultRound::Answered(answer)) => {
                    return Ok(answer);
                },
                Ok(FaultRound::GivenUp) => {
                    assert(given_up(*root_slot, old_revision.published, whole));
                },
                Ok(FaultRound::Loaded(node, start)) => {
                    assert(stands_for(self.records(), *root_slot, whole, node@, start as int));
                    fallback = Some((node, start));
                },
            }
            proof {
                if fallback is None {
                    let published = published_of(rounds);
                    assert forall|i: int| 0 <= i < published.len() implies root_slot.read(
                        Some(#[trigger] published[i]),
                    ) && given_up(*root_slot, published[i], whole) by {
                        if i < before.len() {
                            assert(published[i] == published_of(before)[i]);
                        }
                    }
                }
            }
            if attempts == 0 {
                break;
            }
            attempts -= 1;
        }
        let final_root = match root_slot.load_revision() {
            Some(final_revision) => {
                assert(root_slot.read(Some(final_revision.published)));
                share(final_revision.node())
            },
            None => {
                return Ok(None);
            },
        };
        match find_leaf_iterative(&final_root, key, 0) {
            Some(found) => {
                proof {
                    assert(super::cas_walk::remaining_key(whole, 0) =~= whole);
                    lemma_at_full(self.records(), final_root@, whole);
                }
                return Ok(Some(found));
            },
            None => {
                assert(super::cas_walk::remaining_key(whole, 0) =~= whole);
            },
        }
        match fallback {
            Some((decoded, start)) => {
                let ghost node = decoded;
                let r = walk_faulting_snapshot(self, decoded, key, start);
                assert(call_ensures(
                    walk_faulting_snapshot::<K, V, Self>,
                    (self, node, key, start),
                    r,
                ));
                r
            },
            None => {
                assert(all_given_up(*root_slot, published_of(rounds), whole));
                Ok(None)
            },
        }
    }
}

} // verus!
