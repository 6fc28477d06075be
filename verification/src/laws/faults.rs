//! Loading and evicting under a root: neither changes what is stored.

use std::sync::Arc;
use vstd::prelude::*;
use crate::dict_impl::{root_or_empty, root_with_term_count};
use crate::error::TrieResult;
use crate::eviction::{CompactEvictionBatch, CompactEvictionCandidate, CompactEvictionPolicy};
use crate::key_encoding::{ByteKey, KeyEncoding};
use crate::overlay::atomic_ptr::{
    AtomicNodePtr, PreparedBoundRootTransition, PublishedRoot, RootRevision,
};
use crate::overlay::cas_walk::{resolve_or_fault, ChildResolution, FaultMode};
use crate::overlay::dict_node::OverlayDictionaryNode;
use crate::overlay::evict::{evict_chain, evict_kids, evict_node, ChainWalkFrame};
use crate::overlay::evict_laws::{
    durable_at, evict_keeps_stamps, evict_keeps_terms, evicted_branch, lemma_evict_kids_at,
};
use crate::overlay::evict_plan::{
    lemma_plan_child, lemma_plan_siblings, plan_marks, plan_path, plan_wf, plans, BatchPlanNode,
};
use crate::overlay::evict_winners::{batch_evicts_its_winners, chain_evicts_its_winner};
use crate::overlay::fault::{
    evict_by_plan, evicted_by_plan, fault_in_keeps_terms, plan_eviction, plan_fault, splice_loaded,
    walk_end, walk_faulting_snapshot, walk_to_durable, EvictionPlan, ExactEvictionOutcome,
    FaultPlan, FaultRound, FaultWalk, OverlayEvictable, WalkEnd,
};
use crate::overlay::faulter::{MemoryRecords, OverlayFaulter};
use crate::overlay::indices::SuccessfulCandidateIndices;
use crate::overlay::model::{
    at, full_at, full_kid, full_term, kid, lemma_at_concat, lemma_same_kids, lemma_stamps_child,
    same_terms, stamps_hold, Records,
};
use crate::overlay::node::{put_all, Branch, OverlayNode, Tree};
use crate::overlay::{OverlayNodeHandle, OverlayPathSpine};
use crate::swizzled_ptr::{located_is_not_null, SwizzledPtr};
use crate::value::DictionaryValue;

verus! {

/// A record is published together with its change exactly if the change was prepared; a
/// root that is bound to a registry is otherwise kept as it is while it is published, and
/// given up when it is not; one that is bound to none is rewritten.
pub proof fn a_load_is_published_where_it_can_be(
    bound: bool,
    prepared: bool,
    published: bool,
    plan: FaultPlan,
)
    requires
        call_ensures(plan_fault, (bound, prepared, published), plan),
    ensures
        plan == FaultPlan::PublishExact <==> prepared,
        plan == FaultPlan::PublishUnbound <==> !prepared && !bound,
        plan == FaultPlan::Retain <==> !prepared && bound && published,
        plan == FaultPlan::Rebase <==> !prepared && bound && !published,
{
}

/// A walk along a key ends at the node that the key leads to in memory; or at a durable
/// child on the way, with the node above it, behind which lies what the key leads to; or
/// finds that the key leads nowhere, in memory or in records.
pub proof fn a_walk_ends_where_its_key_leads<'root, K: KeyEncoding, V: DictionaryValue>(
    root: &'root Arc<OverlayNode<K, V>>,
    key: &[K::Unit],
    walk: FaultWalk<'root, K, V>,
    records: Records<K::Unit, V>,
)
    requires
        root.wf(),
        call_ensures(walk_to_durable::<K, V>, (root, key), Ok(walk)),
    ensures
        walk matches FaultWalk::Resident(node) ==> at(root@, key@) == Some(node@) && full_at(
            records,
            root@,
            key@,
        ) == Some(node@),
        walk is Missing ==> full_at(records, root@, key@) is None,
        walk matches FaultWalk::Durable { spine, parent, depth, ptr } ==> {
            &&& depth < key@.len()
            &&& ptr.raw != 0
            &&& at(root@, key@) is None
            &&& kid(parent@, key@[depth as int]) == Some(Branch::<K::Unit, V>::OnDisk(ptr))
            &&& full_at(records, root@, key@) == full_at(
                records,
                records(ptr),
                key@.skip(depth + 1),
            )
        },
{
    lemma_walk_end(records, root@, key@, 0);
    assert(key@.skip(0) =~= key@);
}

/// Where a walk from a position of a key ends.
proof fn lemma_walk_end<U, V>(records: Records<U, V>, tree: Tree<U, V>, key: Seq<U>, from: int)
    requires
        0 <= from <= key.len(),
    ensures
        match walk_end(tree, key, from) {
            WalkEnd::Resident(node) => at(tree, key.skip(from)) == Some(node) && full_at(
                records,
                tree,
                key.skip(from),
            ) == Some(node),
            WalkEnd::Missing => at(tree, key.skip(from)) is None && full_at(
                records,
                tree,
                key.skip(from),
            ) is None,
            WalkEnd::Durable { depth, ptr } => from <= depth < key.len() && ptr.raw != 0 && at(
                tree,
                key.skip(from),
            ) is None && full_at(records, tree, key.skip(from)) == full_at(
                records,
                records(ptr),
                key.skip(depth + 1),
            ),
        },
    decreases key.len() - from,
{
    let rest = key.skip(from);
    if from < key.len() {
        assert(rest[0] == key[from]);
        assert(rest.drop_first() =~= key.skip(from + 1));
        match kid(tree, key[from]) {
            Some(Branch::InMem(child)) => {
                lemma_walk_end(records, child, key, from + 1);
            },
            _ => {},
        }
    } else {
        assert(rest =~= Seq::empty());
    }
}

/// Putting a loaded record in the place of a durable child changes nothing that is
/// stored, and the key then leads on in memory.
pub proof fn a_load_changes_nothing_stored<'root, K: KeyEncoding, V: DictionaryValue>(
    root: &'root Arc<OverlayNode<K, V>>,
    key: &[K::Unit],
    spine: OverlayPathSpine<'root, K, V>,
    parent: &'root Arc<OverlayNode<K, V>>,
    depth: usize,
    ptr: SwizzledPtr,
    loaded: Arc<OverlayNode<K, V>>,
    after: Arc<OverlayNode<K, V>>,
    records: Records<K::Unit, V>,
    probe: Seq<K::Unit>,
)
    requires
        root.wf(),
        loaded.wf(),
        loaded@ == records(ptr),
        call_ensures(
            walk_to_durable::<K, V>,
            (root, key),
            Ok(FaultWalk::Durable { spine, parent, depth, ptr }),
        ),
        call_ensures(
            splice_loaded::<K, V>,
            (spine, parent, key@[depth as int], loaded),
            after,
        ),
    ensures
        full_term(records, after@, probe) == full_term(records, root@, probe),
        at(after@, key@.take(depth + 1)) == Some(loaded@),
{
    let ancestors = crate::overlay::cas_walk::spine_ancestors(spine.frames@);
    let unit = key@[depth as int];
    fault_in_keeps_terms(records, root@, key@, ancestors, parent@, unit, ptr);
    lemma_spliced_end(ancestors, parent@, unit, loaded@);
    assert(crate::laws::tries::units_of(ancestors) =~= key@.take(depth as int)) by {
        assert forall|i: int| 0 <= i < depth implies ancestors[i].1 == key@[i] by {}
    }
    assert(key@.take(depth + 1) =~= key@.take(depth as int).push(unit));
    assert(same_terms(records, root@, after@));
}

/// Where a spliced node stands.
proof fn lemma_spliced_end<U, V>(
    ancestors: Seq<(Tree<U, V>, U)>,
    parent: Tree<U, V>,
    unit: U,
    loaded: Tree<U, V>,
)
    ensures
        at(
            crate::overlay::model::unwound(ancestors, parent.put(unit, Branch::InMem(loaded))),
            crate::laws::tries::units_of(ancestors).push(unit),
        ) == Some(loaded),
{
    let up = parent.put(unit, Branch::InMem(loaded));
    let root = crate::overlay::model::unwound(ancestors, up);
    let units = crate::laws::tries::units_of(ancestors);
    crate::laws::tries::copied_path_end(ancestors, up);
    lemma_at_concat(root, units, seq![unit]);
    assert(units.push(unit) =~= units + seq![unit]);
    assert(kid(up, unit) == Some(Branch::InMem(loaded)));
    assert(seq![unit].drop_first() =~= Seq::<U>::empty());
    assert(at(loaded, Seq::<U>::empty()) == Some(loaded));
}

/// A read from a snapshot finds exactly what is stored there, in memory or in records.
pub proof fn a_snapshot_read_finds_what_is_stored<
    K: KeyEncoding,
    V: DictionaryValue,
    F: OverlayFaulter<K, V>,
>(
    faulter: F,
    node: Arc<OverlayNode<K, V>>,
    key: &[K::Unit],
    start: usize,
    found: Option<Arc<OverlayNode<K, V>>>,
)
    requires
        node.wf(),
        start <= key@.len(),
        call_ensures(
            walk_faulting_snapshot::<K, V, F>,
            (&faulter, node, key, start),
            Ok(found),
        ),
    ensures
        found is Some <==> full_term(faulter.records(), node@, key@.skip(start as int)) is Some,
        found matches Some(leaf) ==> full_term(
            faulter.records(),
            node@,
            key@.skip(start as int),
        ) == Some(leaf@.value),
{
}

/// A point read that finds a node finds a stored term of a root that the slot held.
pub proof fn a_point_read_finds_what_was_published<
    K: KeyEncoding,
    V: DictionaryValue,
    T: OverlayEvictable<K, V>,
>(
    trie: &T,
    slot: &AtomicNodePtr<K, V>,
    key: &[K::Unit],
    retries: usize,
    leaf: Arc<OverlayNode<K, V>>,
)
    requires
        call_ensures(T::find_leaf_faulting, (trie, slot, key, retries), Ok(Some(leaf))),
    ensures
        exists|revision: Arc<PublishedRoot<K, V>>| #[trigger]
            slot.read(Some(revision)) && full_term(trie.records(), revision.node@, key@) == Some(
                leaf@.value,
            ),
{
    let revision = choose|revision: Arc<PublishedRoot<K, V>>| #[trigger]
        slot.read(Some(revision)) && full_at(trie.records(), revision.node@, key@) == Some(leaf@);
    assert(full_term(trie.records(), revision.node@, key@) == Some(leaf@.value));
}

/// A point read on roots that are bound to no registry finds nothing only if the slot was
/// empty or held a root without the term, in memory and in records; it fails only if a
/// durable child was on the way or a long path found no room.
pub proof fn a_point_read_finds_nothing_for_a_reason<
    K: KeyEncoding,
    V: DictionaryValue,
    T: OverlayEvictable<K, V>,
>(
    trie: &T,
    slot: &AtomicNodePtr<K, V>,
    key: &[K::Unit],
    retries: usize,
    result: TrieResult<Option<Arc<OverlayNode<K, V>>>>,
)
    requires
        call_ensures(T::find_leaf_faulting, (trie, slot, key, retries), result),
        forall|revision: Arc<PublishedRoot<K, V>>| #[trigger]
            slot.read(Some(revision)) ==> revision.eviction is None,
    ensures
        result matches Ok(None) ==> slot.read(None) || exists|revision: Arc<PublishedRoot<K, V>>|
            #[trigger] slot.read(Some(revision)) && full_term(
                trie.records(),
                revision.node@,
                key@,
            ) is None,
        result is Err && key@.len() <= crate::overlay::INLINE_OVERLAY_DEPTH ==> exists|
            revision: Arc<PublishedRoot<K, V>>,
        | #[trigger]
            slot.read(Some(revision)) && walk_end(revision.node@, key@, 0) is Durable,
{
    if result matches Ok(None) {
        if exists|rounds: Seq<Arc<PublishedRoot<K, V>>>| #[trigger]
            crate::overlay::fault::all_given_up(*slot, rounds, key@) && rounds.len() == retries
                + 1 {
            let rounds = choose|rounds: Seq<Arc<PublishedRoot<K, V>>>| #[trigger]
                crate::overlay::fault::all_given_up(*slot, rounds, key@) && rounds.len() == retries
                    + 1;
            assert(slot.read(Some(rounds[0])));
        }
    }
    if result is Err {
        let e = result->Err_0;
        let revision = choose|revision: Arc<PublishedRoot<K, V>>| #[trigger]
            slot.read(Some(revision)) && (crate::overlay::fault::path_refused(
                e,
                revision.node@,
                key@,
                true,
            ) || walk_end(revision.node@, key@, 0) is Durable);
        assert(slot.read(Some(revision)));
    }
}

/// A batch whose candidates all name registered paths, no two of them the same, has a plan
/// unless its paths are too long to be counted. A general plan is never made for another.
pub proof fn a_sound_batch_has_a_plan<K: KeyEncoding>(
    batch: CompactEvictionBatch<K::Unit>,
    plan: Option<EvictionPlan<K::Unit>>,
)
    requires
        batch.wf(),
        call_ensures(plan_eviction::<K>, (&batch,), plan),
    ensures
        (forall|c: int| 0 <= c < batch.candidates@.len() ==> #[trigger] batch.valid(c)) && (forall|
            a: int,
            b: int,
        |
            0 <= a < b < batch.candidates@.len() ==> #[trigger] batch.path(a) != #[trigger]
                batch.path(b)) && crate::overlay::evict_plan::batch_units(
            batch,
            batch.candidates@.len(),
        ) + 1 < usize::MAX ==> plan is Some,
        plan matches Some(EvictionPlan::Batch(_)) ==> (forall|c: int|
            0 <= c < batch.candidates@.len() ==> #[trigger] batch.valid(c)) && (forall|
            a: int,
            b: int,
        |
            0 <= a < b < batch.candidates@.len() ==> #[trigger] batch.path(a) != #[trigger]
                batch.path(b)),
{
    if plan matches Some(EvictionPlan::Batch(_)) {
        assert forall|a: int, b: int| 0 <= a < b < batch.candidates@.len() implies #[trigger] batch.path(
            a,
        ) != #[trigger] batch.path(b) by {
            assert(!crate::overlay::evict_plan::aliased(batch, a, b));
        }
    }
}

/// A candidate is current: its path leads to a node below the root that was written as the
/// record that the candidate names.
pub open spec fn is_current<U: Copy, V>(
    batch: CompactEvictionBatch<U>,
    root: Tree<U, V>,
    c: int,
) -> bool {
    &&& 0 <= c < batch.candidates@.len()
    &&& batch.path(c).len() > 0
    &&& batch.candidates@[c].disk_ptr.location() is Some
    &&& at(root, batch.path(c)) is Some
    &&& at(root, batch.path(c))->0.stamp == batch.candidates@[c].disk_ptr.raw
}

/// A path begins another that is longer.
pub open spec fn lies_above<U>(p: Seq<U>, q: Seq<U>) -> bool {
    p.len() < q.len() && forall|i: int| 0 <= i < p.len() ==> #[trigger] p[i] == q[i]
}

/// A plan for a batch replaces exactly the candidates that are current and have no current
/// candidate below them, or above them where ancestors go first, and changes nothing that
/// is stored. Each is listed once, and its path leads to its record afterwards; the root
/// counts one modification for each and loses its stamp.
pub proof fn an_eviction_replaces_its_winners<K: KeyEncoding, V: DictionaryValue>(
    batch: CompactEvictionBatch<K::Unit>,
    plan: EvictionPlan<K::Unit>,
    root: Arc<OverlayNode<K, V>>,
    list: &mut SuccessfulCandidateIndices,
    after_list: SuccessfulCandidateIndices,
    after: Option<Arc<OverlayNode<K, V>>>,
    c: usize,
    records: Records<K::Unit, V>,
)
    requires
        batch.wf(),
        forall|i: int| 0 <= i < batch.candidates@.len() ==> #[trigger] batch.valid(i),
        root.wf(),
        call_ensures(plan_eviction::<K>, (&batch,), Some(plan)),
        *final(list) == after_list,
        call_ensures(evict_by_plan::<K, V>, (&plan, &root, &batch, list), after),
        c < batch.candidates@.len(),
    ensures
        after_list@.contains(c) <==> is_current(batch, root@, c as int) && forall|d: int| #[trigger]
            is_current(batch, root@, d) ==> match batch.policy {
                CompactEvictionPolicy::DescendantFirst => !lies_above(
                    batch.path(c as int),
                    batch.path(d),
                ),
                CompactEvictionPolicy::ResidentBudgetAncestorClosure => !lies_above(
                    batch.path(d),
                    batch.path(c as int),
                ),
            },
        after_list@.no_duplicates(),
        after is Some && after_list@.contains(c) ==> durable_at(
            after->0@,
            batch.path(c as int),
        ) == Some(batch.candidates@[c as int].disk_ptr),
        after is Some <==> after_list@.len() > 0,
        after is Some ==> after->0@.version as int == (root@.version + after_list@.len())
            % 0x1_0000_0000_0000_0000 && after->0@.stamp == 0,
        stamps_hold(records, root@) && after is Some ==> same_terms(records, root@, after->0@)
            && stamps_hold(records, after->0@),
{
    assert forall|i: int| 0 <= i < batch.candidates@.len() implies (
    #[trigger] batch.candidates@[i]).depth == batch.path(i).len() by {
        assert(batch.valid(i));
    }
    lemma_winner(batch, root@, c as int);
    match plan {
        EvictionPlan::Batch(nodes) => {
            assert(nodes.len() == nodes@.len());
            batch_evicts_its_winners(batch.policy, nodes@, batch, root@, c);
            lemma_node_lists_once(batch.policy, nodes@, batch, 0, root@);
            let list = evict_node(batch.policy, nodes@, batch.candidates@, 0, root@).1;
            if list.contains(c) {
                let x = choose|x: int| 0 <= x < list.len() && list[x] == c;
                lemma_node_leads(batch.policy, nodes@, batch, 0, root@, x);
                assert(plan_path(nodes@, 0) =~= Seq::empty());
                assert(batch.path(c as int).skip(0) =~= batch.path(c as int));
            }
            if stamps_hold(records, root@) {
                evict_keeps_terms(records, batch.policy, nodes@, batch.candidates@, 0, root@);
                evict_keeps_stamps(records, batch.policy, nodes@, batch.candidates@, 0, root@);
            }
        },
        EvictionPlan::Chain(frames) => {
            let d = choose|d: int| #[trigger]
                crate::overlay::evict_chain_plan::chain_through(batch, d)
                    && crate::overlay::evict_chain_plan::chain_plans(frames@, batch, d);
            chain_evicts_its_winner(batch.policy, frames@, batch, d, root@, c);
            let one = evict_chain(batch.policy, frames@, batch.candidates@, 0, root@).1;
            if let Some(x) = one {
                lemma_chain_leads(batch.policy, frames@, batch, d, 0, root@);
                assert(batch.path(x as int).skip(0) =~= batch.path(x as int));
            }
            if let Some(x) = one {
                assert(seq![x][0] == x);
                assert(seq![x].contains(c) <==> x == c);
            }
            if stamps_hold(records, root@) {
                lemma_chain_keeps(records, batch.policy, frames@, batch.candidates@, 0, root@);
            }
        },
    }
}

/// A round of an eviction that comes to be published publishes a root in the place of the
/// one that it was tried on, with as many terms and with everything stored as it was.
pub proof fn an_eviction_publishes_what_stores_the_same<
    K: KeyEncoding,
    V: DictionaryValue,
    T: OverlayEvictable<K, V>,
>(
    trie: &T,
    slot: &AtomicNodePtr<K, V>,
    revision: RootRevision<K, V>,
    batch: CompactEvictionBatch<K::Unit>,
    plan: EvictionPlan<K::Unit>,
    room: SuccessfulCandidateIndices,
    outcome: ExactEvictionOutcome,
    list: SuccessfulCandidateIndices,
    records: Records<K::Unit, V>,
)
    requires
        batch.wf(),
        revision.wf(),
        call_ensures(plan_eviction::<K>, (&batch,), Some(plan)),
        call_ensures(
            T::evict_in_revision,
            (trie, slot, &revision, &batch, &plan, room),
            (Some(outcome), list),
        ),
        stamps_hold(records, revision.published.node@),
    ensures
        exists|transition: PreparedBoundRootTransition<K, V>|
            {
                &&& #[trigger] call_ensures(
                    T::commit_overlay_eviction,
                    (trie, slot, transition),
                    outcome,
                )
                &&& transition.expected == revision
                &&& transition.next.term_count == revision.published.term_count
                &&& same_terms(records, revision.published.node@, transition.next.node@)
            },
{
    let root = revision.published.node@;
    let (tree, evicted) = evicted_by_plan(batch.policy, plan, batch.candidates@, root);
    let (successful, change, transition) = choose|
        successful: SuccessfulCandidateIndices,
        change: crate::overlay::residency::PreparedPackedResidency,
        transition: PreparedBoundRootTransition<K, V>,
    |
        successful@ == evicted && #[trigger] call_ensures(
            T::prepare_overlay_eviction_commit,
            (trie, &revision, &batch, &successful),
            Some(change),
        ) && crate::overlay::fault::carries(transition, revision, change)
            && transition.next.node@ == tree && #[trigger] call_ensures(
            T::commit_overlay_eviction,
            (trie, slot, transition),
            outcome,
        );
    match plan {
        EvictionPlan::Batch(nodes) => {
            evict_keeps_terms(records, batch.policy, nodes@, batch.candidates@, 0, root);
        },
        EvictionPlan::Chain(frames) => {
            lemma_chain_keeps(records, batch.policy, frames@, batch.candidates@, 0, root);
        },
    }
    assert(call_ensures(T::commit_overlay_eviction, (trie, slot, transition), outcome));
}

/// A path begins another.
spec fn begins<U>(p: Seq<U>, q: Seq<U>) -> bool {
    p.len() <= q.len() && q.take(p.len() as int) == p
}

/// The candidates that are replaced below a plan node are listed once each, and lie below
/// it.
proof fn lemma_node_lists_once<U: Copy, V>(
    policy: CompactEvictionPolicy,
    plan: Seq<BatchPlanNode<U>>,
    batch: CompactEvictionBatch<U>,
    i: int,
    live: Tree<U, V>,
)
    requires
        plans(plan, batch),
        0 <= i < plan.len(),
    ensures
        evict_node(policy, plan, batch.candidates@, i, live).1.no_duplicates(),
        forall|x: int|
            0 <= x < evict_node(policy, plan, batch.candidates@, i, live).1.len() ==> begins(
                plan_path(plan, i),
                batch.path(
                    (#[trigger] evict_node(policy, plan, batch.candidates@, i, live).1[x]) as int,
                ),
            ),
    decreases plan.len() - i, plan[i].children@.len() + 1,
{
    let n = plan[i].children@.len();
    let list = evict_node(policy, plan, batch.candidates@, i, live).1;
    lemma_kids_list_once(policy, plan, batch, i, n, live);
    assert(list == evict_kids(policy, plan, batch.candidates@, i, n, live).1);
    assert forall|x: int| 0 <= x < list.len() implies begins(
        plan_path(plan, i),
        batch.path((#[trigger] list[x]) as int),
    ) by {
        let k = choose|k: int|
            0 <= k < n && begins(
                plan_path(plan, (#[trigger] plan[i].children@[k]) as int),
                batch.path(list[x] as int),
            );
        let c = plan[i].children@[k] as int;
        lemma_plan_child(plan, i, k);
        let whole = batch.path(list[x] as int);
        assert(plan_path(plan, c) == plan_path(plan, i).push(plan[c].edge->0));
        assert(whole.take(plan_path(plan, i).len() as int) =~= plan_path(plan, c).take(
            plan_path(plan, i).len() as int,
        ));
        assert(plan_path(plan, c).take(plan_path(plan, i).len() as int) =~= plan_path(plan, i));
    }
}

/// The candidates that are replaced below the first children of a plan node are listed
/// once each, and lie below one of them.
proof fn lemma_kids_list_once<U: Copy, V>(
    policy: CompactEvictionPolicy,
    plan: Seq<BatchPlanNode<U>>,
    batch: CompactEvictionBatch<U>,
    i: int,
    n: nat,
    live: Tree<U, V>,
)
    requires
        plans(plan, batch),
        0 <= i < plan.len(),
        n <= plan[i].children@.len(),
    ensures
        evict_kids(policy, plan, batch.candidates@, i, n, live).1.no_duplicates(),
        forall|x: int|
            0 <= x < evict_kids(policy, plan, batch.candidates@, i, n, live).1.len() ==> exists|
                k: int,
            |
                0 <= k < n && begins(
                    plan_path(plan, (#[trigger] plan[i].children@[k]) as int),
                    batch.path(
                        (#[trigger] evict_kids(policy, plan, batch.candidates@, i, n, live).1[x]) as int,
                    ),
                ),
    decreases plan.len() - i, n,
{
    let candidates = batch.candidates@;
    let list = evict_kids(policy, plan, candidates, i, n, live).1;
    if n > 0 {
        let m = (n - 1) as nat;
        let before = evict_kids(policy, plan, candidates, i, m, live).1;
        lemma_kids_list_once(policy, plan, batch, i, m, live);
        lemma_plan_child(plan, i, n - 1);
        let c = plan[i].children@[n - 1] as int;
        let above = plan_path(plan, i);
        assert(plan_path(plan, c) == above.push(plan[c].edge->0));
        let more = list.skip(before.len() as int);
        if let Some(Branch::InMem(child)) = kid(live, plan[c].edge->0) {
            lemma_node_lists_once(policy, plan, batch, c, child);
            let below = evict_node(policy, plan, candidates, c, child).1;
            let selected = plan[c].selected_candidate;
            if crate::overlay::evict::evictable(selected, candidates, child) && (policy
                == CompactEvictionPolicy::ResidentBudgetAncestorClosure || below.len() == 0) {
                reveal(plan_marks);
                assert(list =~= before.push(selected->0));
                assert(plan_path(plan, c) == batch.path(selected->0 as int));
                assert(more =~= seq![selected->0]);
                assert(batch.path(selected->0 as int).take(plan_path(plan, c).len() as int)
                    =~= plan_path(plan, c));
                assert(begins(plan_path(plan, c), batch.path(more[0] as int)));
            } else if below.len() > 0 {
                assert(list =~= before + below);
                assert(more =~= below);
            } else {
                assert(list =~= before);
                assert(more =~= Seq::empty());
            }
        } else {
            assert(list =~= before);
            assert(more =~= Seq::empty());
        }
        assert(list =~= before + more);
        assert(more.no_duplicates());
        assert forall|x: int| 0 <= x < more.len() implies begins(
            plan_path(plan, c),
            batch.path((#[trigger] more[x]) as int),
        ) by {}
        assert forall|x: int, y: int| 0 <= x < before.len() && 0 <= y < more.len() implies before[x]
            != more[y] by {
            let k = choose|k: int|
                0 <= k < m && begins(
                    plan_path(plan, (#[trigger] plan[i].children@[k]) as int),
                    batch.path(before[x] as int),
                );
            let d = plan[i].children@[k] as int;
            lemma_plan_child(plan, i, k);
            lemma_plan_siblings(plan, i, k, n - 1);
            assert(plan_path(plan, d) == above.push(plan[d].edge->0));
            let p = batch.path(before[x] as int);
            let q = batch.path(more[y] as int);
            assert(begins(plan_path(plan, c), q));
            assert(p.take(above.len() as int + 1)[above.len() as int] == p[above.len() as int]);
            assert(q.take(above.len() as int + 1)[above.len() as int] == q[above.len() as int]);
        }
        assert forall|x: int, y: int| 0 <= x < y < list.len() implies list[x] != list[y] by {
            if y < before.len() {
                assert(list[x] == before[x] && list[y] == before[y]);
            } else if x < before.len() {
                assert(list[x] == before[x] && list[y] == more[y - before.len()]);
            } else {
                assert(list[x] == more[x - before.len()] && list[y] == more[y - before.len()]);
            }
        }
        assert forall|x: int| 0 <= x < list.len() implies exists|k: int|
            0 <= k < n && begins(
                plan_path(plan, (#[trigger] plan[i].children@[k]) as int),
                batch.path((#[trigger] list[x]) as int),
            ) by {
            if x < before.len() {
                assert(list[x] == before[x]);
                let k = choose|k: int|
                    0 <= k < m && begins(
                        plan_path(plan, (#[trigger] plan[i].children@[k]) as int),
                        batch.path(before[x] as int),
                    );
                assert(begins(
                    plan_path(plan, plan[i].children@[k] as int),
                    batch.path(list[x] as int),
                ));
            } else {
                assert(list[x] == more[x - before.len()]);
                assert(begins(
                    plan_path(plan, plan[i].children@[n - 1] as int),
                    batch.path(list[x] as int),
                ));
            }
        }
    }
}

/// A candidate was replaced at a child of a plan node or below it.
spec fn replaced_at<U, V>(
    policy: CompactEvictionPolicy,
    plan: Seq<BatchPlanNode<U>>,
    candidates: Seq<CompactEvictionCandidate>,
    c: int,
    live: Tree<U, V>,
    e: usize,
) -> bool {
    let child = kid(live, plan[c].edge->0)->0->InMem_0;
    let (copy, below) = evict_node(policy, plan, candidates, c, child);
    &&& kid(live, plan[c].edge->0) matches Some(Branch::InMem(_))
    &&& {
        ||| plan[c].selected_candidate == Some(e) && evicted_branch(
            policy,
            plan,
            candidates,
            c,
            live,
        ) == Some(Branch::<U, V>::OnDisk(candidates[e as int].disk_ptr))
        ||| below.contains(e) && evicted_branch(policy, plan, candidates, c, live) == Some(
            Branch::InMem(copy),
        )
    }
}

/// Every candidate that is listed for the first children was replaced at one of them.
proof fn lemma_kids_replaced<U: Copy, V>(
    policy: CompactEvictionPolicy,
    plan: Seq<BatchPlanNode<U>>,
    candidates: Seq<CompactEvictionCandidate>,
    i: int,
    n: nat,
    live: Tree<U, V>,
    e: usize,
)
    requires
        plan_wf(plan),
        0 <= i < plan.len(),
        n <= plan[i].children@.len(),
        evict_kids(policy, plan, candidates, i, n, live).1.contains(e),
    ensures
        exists|k: int|
            0 <= k < n && replaced_at(
                policy,
                plan,
                candidates,
                (#[trigger] plan[i].children@[k]) as int,
                live,
                e,
            ),
    decreases n,
{
    let list = evict_kids(policy, plan, candidates, i, n, live).1;
    if n == 0 {
        assert(list =~= Seq::empty());
    } else {
        let m = (n - 1) as nat;
        let before = evict_kids(policy, plan, candidates, i, m, live).1;
        lemma_plan_child(plan, i, n - 1);
        let c = plan[i].children@[n - 1] as int;
        let x = choose|x: int| 0 <= x < list.len() && list[x] == e;
        if x < before.len() {
            assert(list[x] == before[x]);
            assert(before.contains(e));
            lemma_kids_replaced(policy, plan, candidates, i, m, live, e);
            let k = choose|k: int|
                0 <= k < m && replaced_at(
                    policy,
                    plan,
                    candidates,
                    (#[trigger] plan[i].children@[k]) as int,
                    live,
                    e,
                );
            assert(replaced_at(policy, plan, candidates, plan[i].children@[k] as int, live, e));
        } else {
            let child = kid(live, plan[c].edge->0)->0->InMem_0;
            let (copy, below) = evict_node(policy, plan, candidates, c, child);
            let selected = plan[c].selected_candidate;
            if crate::overlay::evict::evictable(selected, candidates, child) && (policy
                == CompactEvictionPolicy::ResidentBudgetAncestorClosure || below.len() == 0) {
                assert(e == selected->0);
            } else {
                assert(list == before + below);
                assert(below[x - before.len()] == e);
            }
            assert(replaced_at(policy, plan, candidates, plan[i].children@[n - 1] as int, live, e));
        }
    }
}

/// The path of a candidate that is listed below a plan node leads from there to its record.
proof fn lemma_node_leads<U: Copy, V>(
    policy: CompactEvictionPolicy,
    plan: Seq<BatchPlanNode<U>>,
    batch: CompactEvictionBatch<U>,
    i: int,
    live: Tree<U, V>,
    x: int,
)
    requires
        plans(plan, batch),
        0 <= i < plan.len(),
        0 <= x < evict_node(policy, plan, batch.candidates@, i, live).1.len(),
    ensures
        ({
            let (after, list) = evict_node(policy, plan, batch.candidates@, i, live);
            let path = batch.path(list[x] as int);
            &&& begins(plan_path(plan, i), path)
            &&& path.len() > plan_path(plan, i).len()
            &&& durable_at(after, path.skip(plan_path(plan, i).len() as int)) == Some(
                batch.candidates@[list[x] as int].disk_ptr,
            )
        }),
    decreases plan.len() - i,
{
    let candidates = batch.candidates@;
    let n = plan[i].children@.len();
    let (after, list) = evict_node(policy, plan, candidates, i, live);
    let e = list[x];
    let path = batch.path(e as int);
    let here = plan_path(plan, i);
    lemma_node_lists_once(policy, plan, batch, i, live);
    assert(evict_kids(policy, plan, candidates, i, n, live).1 == list);
    assert(list.contains(e));
    lemma_kids_replaced(policy, plan, candidates, i, n, live, e);
    let k = choose|k: int|
        0 <= k < n && replaced_at(
            policy,
            plan,
            candidates,
            (#[trigger] plan[i].children@[k]) as int,
            live,
            e,
        );
    let c = plan[i].children@[k] as int;
    lemma_plan_child(plan, i, k);
    let unit = plan[c].edge->0;
    lemma_evict_kids_at(policy, plan, candidates, i, n, live, unit);
    assert(kid(after, unit) == evicted_branch(policy, plan, candidates, c, live)) by {
        let flat = Tree {
            kids: put_all(live.kids, evict_kids(policy, plan, candidates, i, n, live).0),
            ..live
        };
        assert(kid(after, unit) == kid(flat, unit));
        assert(plan[plan[i].children@[k] as int].edge == Some(unit));
    }
    assert(plan_path(plan, c) == here.push(unit));
    let rel = path.skip(here.len() as int);
    let child = kid(live, unit)->0->InMem_0;
    let (copy, below) = evict_node(policy, plan, candidates, c, child);
    if plan[c].selected_candidate == Some(e) && evicted_branch(policy, plan, candidates, c, live)
        == Some(Branch::<U, V>::OnDisk(candidates[e as int].disk_ptr)) {
        reveal(plan_marks);
        assert(path == here.push(unit));
        assert(rel =~= seq![unit]);
        assert(rel.drop_last() =~= Seq::empty());
        assert(at(after, Seq::<U>::empty()) == Some(after));
    } else {
        let y = choose|y: int| 0 <= y < below.len() && below[y] == e;
        lemma_node_leads(policy, plan, batch, c, child, y);
        let deeper = path.skip(plan_path(plan, c).len() as int);
        assert(path.take(plan_path(plan, c).len() as int)[here.len() as int] == path[here.len() as int]);
        assert(rel[0] == unit);
        assert(rel.drop_first() =~= deeper);
        assert(rel.drop_last().drop_first() =~= deeper.drop_last());
        assert(rel.drop_last()[0] == unit);
        assert(rel.last() == deeper.last());
        assert(at(after, rel.drop_last()) == at(copy, deeper.drop_last()));
    }
}

/// A candidate that is marked on a single path stands at its mark.
proof fn lemma_chain_mark<U: Copy>(
    frames: Seq<ChainWalkFrame<U>>,
    batch: CompactEvictionBatch<U>,
    d: int,
    k: int,
    e: usize,
)
    requires
        crate::overlay::evict_chain_plan::chain_through(batch, d),
        crate::overlay::evict_chain_plan::chain_plans(frames, batch, d),
        forall|i: int|
            0 <= i < batch.candidates@.len() ==> (#[trigger] batch.candidates@[i]).depth
                == batch.path(i).len(),
        0 <= k < frames.len(),
        frames[k].selected_candidate == Some(e),
    ensures
        batch.path(e as int).len() == k + 1,
        forall|j: int| 0 <= j <= k ==> batch.path(e as int)[j] == (#[trigger] frames[j]).edge,
{
    let candidates = batch.candidates@;
    assert(e < candidates.len() && candidates[e as int].depth == k + 1);
    crate::overlay::evict_chain_plan::lemma_ancestor_depth(
        batch.topology.entries@,
        candidates[e as int].path_id.ordinal as int,
        candidates[d].path_id.ordinal as int,
    );
    let path = batch.path(e as int);
    let whole = batch.path(d);
    assert forall|j: int| 0 <= j <= k implies path[j] == (#[trigger] frames[j]).edge by {
        assert(whole.subrange(0, path.len() as int)[j] == whole[j]);
    }
}

/// The path of the candidate that a single path replaces leads to its record.
proof fn lemma_chain_leads<U: Copy, V>(
    policy: CompactEvictionPolicy,
    frames: Seq<ChainWalkFrame<U>>,
    batch: CompactEvictionBatch<U>,
    d: int,
    k: int,
    live: Tree<U, V>,
)
    requires
        crate::overlay::evict_chain_plan::chain_through(batch, d),
        crate::overlay::evict_chain_plan::chain_plans(frames, batch, d),
        forall|i: int|
            0 <= i < batch.candidates@.len() ==> (#[trigger] batch.candidates@[i]).depth
                == batch.path(i).len(),
        0 <= k <= frames.len(),
        evict_chain(policy, frames, batch.candidates@, k, live).1 is Some,
    ensures
        ({
            let (after, one) = evict_chain(policy, frames, batch.candidates@, k, live);
            let path = batch.path(one->0 as int);
            &&& path.len() > k
            &&& forall|j: int| 0 <= j < path.len() ==> path[j] == (#[trigger] frames[j]).edge
            &&& path.len() <= frames.len()
            &&& durable_at(after, path.skip(k)) == Some(
                batch.candidates@[one->0 as int].disk_ptr,
            )
        }),
    decreases frames.len() - k,
{
    let candidates = batch.candidates@;
    let (after, one) = evict_chain(policy, frames, candidates, k, live);
    let unit = frames[k].edge;
    let e = one->0;
    let path = batch.path(e as int);
    let child = kid(live, unit)->0->InMem_0;
    let (copy, below) = evict_chain(policy, frames, candidates, k + 1, child);
    reveal_with_fuel(put_all, 3);
    let branch = kid(after, unit)->0;
    assert(after.kids =~= live.kids.insert(unit, branch)) by {
        let list = seq![(unit, branch)];
        assert(list.drop_last() =~= Seq::empty());
    }
    let selected = frames[k].selected_candidate;
    if crate::overlay::evict::evictable(selected, candidates, child) && (policy
        == CompactEvictionPolicy::ResidentBudgetAncestorClosure || below is None) {
        lemma_chain_mark(frames, batch, d, k, e);
        let rel = path.skip(k);
        assert(rel =~= seq![unit]);
        assert(rel.drop_last() =~= Seq::empty());
        assert(at(after, Seq::<U>::empty()) == Some(after));
    } else {
        lemma_chain_leads(policy, frames, batch, d, k + 1, child);
        let rel = path.skip(k);
        let deeper = path.skip(k + 1);
        assert(rel[0] == frames[k].edge);
        assert(rel.drop_first() =~= deeper);
        assert(rel.drop_last().drop_first() =~= deeper.drop_last());
        assert(rel.drop_last()[0] == unit);
        assert(rel.last() == deeper.last());
        assert(at(after, rel.drop_last()) == at(copy, deeper.drop_last()));
    }
}

/// Which candidates are replaced, in other words.
proof fn lemma_winner<U: Copy, V>(batch: CompactEvictionBatch<U>, root: Tree<U, V>, c: int)
    ensures
        crate::overlay::evict_winners::winner(batch.policy, batch, root, c) <==> is_current(
            batch,
            root,
            c,
        ) && forall|d: int| #[trigger]
            is_current(batch, root, d) ==> match batch.policy {
                CompactEvictionPolicy::DescendantFirst => !lies_above(batch.path(c), batch.path(d)),
                CompactEvictionPolicy::ResidentBudgetAncestorClosure => !lies_above(
                    batch.path(d),
                    batch.path(c),
                ),
            },
{
    assert forall|d: int| #[trigger] is_current(batch, root, d)
        == crate::overlay::evict_winners::current(batch, root, d) by {}
    assert forall|p: Seq<U>, q: Seq<U>| #[trigger] lies_above(p, q)
        == crate::overlay::evict_winners::strictly_above(p, q) by {
        if lies_above(p, q) {
            assert(p =~= q.subrange(0, p.len() as int));
        }
        if crate::overlay::evict_winners::strictly_above(p, q) {
            assert forall|i: int| 0 <= i < p.len() implies #[trigger] p[i] == q[i] by {
                assert(q.subrange(0, p.len() as int)[i] == q[i]);
            }
        }
    }
    if crate::overlay::evict_winners::winner(batch.policy, batch, root, c) {
        assert forall|d: int| #[trigger] is_current(batch, root, d) implies match batch.policy {
            CompactEvictionPolicy::DescendantFirst => !lies_above(batch.path(c), batch.path(d)),
            CompactEvictionPolicy::ResidentBudgetAncestorClosure => !lies_above(
                batch.path(d),
                batch.path(c),
            ),
        } by {
            assert(crate::overlay::evict_winners::current(batch, root, d));
        }
    }
    if is_current(batch, root, c) && forall|d: int| #[trigger]
        is_current(batch, root, d) ==> match batch.policy {
            CompactEvictionPolicy::DescendantFirst => !lies_above(batch.path(c), batch.path(d)),
            CompactEvictionPolicy::ResidentBudgetAncestorClosure => !lies_above(
                batch.path(d),
                batch.path(c),
            ),
        } {
        assert forall|d: int| #[trigger]
            crate::overlay::evict_winners::current(batch, root, d) implies match batch.policy {
            CompactEvictionPolicy::DescendantFirst =>
                !crate::overlay::evict_winners::strictly_above(batch.path(c), batch.path(d)),
            CompactEvictionPolicy::ResidentBudgetAncestorClosure =>
                !crate::overlay::evict_winners::strictly_above(batch.path(d), batch.path(c)),
        } by {
            assert(is_current(batch, root, d));
        }
    }
}

/// Eviction along a single path keeps what is stored, and the stamps.
proof fn lemma_chain_keeps<U, V>(
    records: Records<U, V>,
    policy: CompactEvictionPolicy,
    frames: Seq<ChainWalkFrame<U>>,
    candidates: Seq<CompactEvictionCandidate>,
    k: int,
    live: Tree<U, V>,
)
    requires
        stamps_hold(records, live),
    ensures
        same_terms(records, live, evict_chain(policy, frames, candidates, k, live).0),
        stamps_hold(records, evict_chain(policy, frames, candidates, k, live).0),
    decreases frames.len() - k,
{
    let (after, one) = evict_chain(policy, frames, candidates, k, live);
    if 0 <= k < frames.len() && one is Some {
        let unit = frames[k].edge;
        let child = kid(live, unit)->0->InMem_0;
        lemma_stamps_child(records, live, unit, child);
        lemma_chain_keeps(records, policy, frames, candidates, k + 1, child);
        let (copy, below) = evict_chain(policy, frames, candidates, k + 1, child);
        let branch = kid(after, unit)->0;
        reveal_with_fuel(put_all, 3);
        assert(after.kids =~= live.kids.insert(unit, branch)) by {
            let list = seq![(unit, branch)];
            assert(list.drop_last() =~= Seq::empty());
        }
        assert(after.stamp == 0);
        assert(at(live, seq![unit]) == Some(child)) by {
            assert(seq![unit].drop_first() =~= Seq::<U>::empty());
            assert(at(child, Seq::<U>::empty()) == Some(child));
        }
        assert forall|u: U|
            match (#[trigger] full_kid(records, live, u), full_kid(records, after, u)) {
                (Some(x), Some(y)) => same_terms(records, x, y),
                (None, None) => true,
                _ => false,
            } by {
            if u == unit {
                match branch {
                    Branch::OnDisk(ptr) => {
                        located_is_not_null(ptr);
                        assert(child.stamp == ptr.raw);
                        assert(ptr == (SwizzledPtr { raw: child.stamp }));
                        assert(same_terms(records, records(ptr), child));
                        lemma_same_back(records, records(ptr), child);
                    },
                    Branch::InMem(inner) => {},
                }
            } else {
                assert(kid(after, u) == kid(live, u));
            }
        }
        lemma_same_kids(records, live, after);
        assert forall|path: Seq<U>|
            match #[trigger] at(after, path) {
                Some(node) => node.stamp != 0 ==> same_terms(
                    records,
                    records(SwizzledPtr { raw: node.stamp }),
                    node,
                ),
                None => true,
            } by {
            if path.len() > 0 {
                if path[0] == unit {
                    match branch {
                        Branch::InMem(inner) => {
                            assert(at(after, path) == at(inner, path.drop_first()));
                        },
                        _ => {},
                    }
                } else {
                    assert(kid(after, path[0]) == kid(live, path[0]));
                    assert(at(after, path) == at(live, path));
                }
            }
        }
    } else if 0 <= k < frames.len() {
        assert(after == live);
    }
}

/// Storing the same works both ways.
proof fn lemma_same_back<U, V>(records: Records<U, V>, a: Tree<U, V>, b: Tree<U, V>)
    requires
        same_terms(records, a, b),
    ensures
        same_terms(records, b, a),
{
    assert forall|key: Seq<U>| #[trigger] full_term(records, b, key) == full_term(
        records,
        a,
        key,
    ) by {
        assert(full_term(records, a, key) == full_term(records, b, key));
    }
}

/// An edge that is resolved leads to the child in memory, or to what was loaded of a
/// durable one, which is loaded only if that is allowed; an edge without a child is
/// absent.
pub proof fn an_edge_is_resolved_or_loaded<
    'root,
    K: KeyEncoding,
    V: DictionaryValue,
    F: Fn(&SwizzledPtr) -> TrieResult<Arc<OverlayNode<K, V>>>,
>(
    node: &OverlayNodeHandle<'root, K, V>,
    unit: K::Unit,
    fault: FaultMode,
    fault_in: &F,
    result: ChildResolution<'root, K, V>,
)
    requires
        node.spec_node().wf(),
        crate::overlay::cas_walk::loader_ok(*fault_in),
        call_ensures(resolve_or_fault::<K, V, F>, (node, unit, fault, fault_in), result),
    ensures
        result is Absent <==> kid(node.spec_node()@, unit) is None,
        result is InMem <==> (kid(node.spec_node()@, unit) matches Some(Branch::InMem(_))),
        result matches ChildResolution::InMem(next) ==> kid(node.spec_node()@, unit) == Some(
            Branch::InMem(next.spec_node()@),
        ),
        result is Faulted || result is FaultFailed ==> fault == FaultMode::Fault,
        fault == FaultMode::NoFaultIn && (kid(node.spec_node()@, unit) matches Some(
            Branch::OnDisk(_),
        )) ==> result is Null,
{
}

/// A handle on a loaded root has its node and its number of terms; without a root the
/// handle is on a trie without terms.
pub proof fn a_root_is_handed_out_or_an_empty_one<V: DictionaryValue>(
    loaded: Option<(Arc<OverlayNode<ByteKey, V>>, usize)>,
    handle: OverlayDictionaryNode<ByteKey, V, MemoryRecords<ByteKey, V>>,
    count: usize,
    is_final: bool,
    edges: Option<usize>,
)
    requires
        loaded matches Some((node, _)) ==> node.wf(),
        call_ensures(root_or_empty::<V>, (loaded,), (handle, count)),
        call_ensures(
            OverlayDictionaryNode::<ByteKey, V, MemoryRecords<ByteKey, V>>::is_final,
            (&handle,),
            is_final,
        ),
        call_ensures(
            OverlayDictionaryNode::<ByteKey, V, MemoryRecords<ByteKey, V>>::edge_count,
            (&handle,),
            edges,
        ),
    ensures
        loaded matches Some((node, n)) ==> handle.overlay == Some(node) && count == n,
        loaded is None ==> count == 0 && !is_final && edges == Some(0usize),
{
}

/// One round of a read answers with what its revision stores under the key, or that it
/// stores nothing there; what it loads stands for the rest of the key.
pub proof fn a_round_answers_from_its_revision<
    K: KeyEncoding,
    V: DictionaryValue,
    T: OverlayEvictable<K, V>,
>(
    trie: &T,
    slot: &AtomicNodePtr<K, V>,
    revision: RootRevision<K, V>,
    key: &[K::Unit],
    may_spill: bool,
    round: FaultRound<K, V>,
    cache: Option<(usize, u64, Arc<OverlayNode<K, V>>)>,
)
    requires
        revision.wf(),
        call_ensures(
            T::find_leaf_in_revision,
            (trie, slot, &revision, key, None, may_spill),
            (Ok(round), cache),
        ),
    ensures
        round matches FaultRound::Answered(Some(leaf)) ==> full_term(
            trie.records(),
            revision.published.node@,
            key@,
        ) == Some(leaf@.value),
        round matches FaultRound::Answered(None) ==> full_term(
            trie.records(),
            revision.published.node@,
            key@,
        ) is None,
        round matches FaultRound::Loaded(node, start) ==> 0 < start <= key@.len() && full_at(
            trie.records(),
            revision.published.node@,
            key@,
        ) == full_at(trie.records(), node@, key@.skip(start as int)),
        round is GivenUp ==> revision.published.eviction is Some,
{
    lemma_walk_end(trie.records(), revision.published.node@, key@, 0);
    assert(key@.skip(0) =~= key@);
}

/// A handle on the root of a slot comes with the number of terms of the same revision; an
/// empty slot, or none, gives a trie without terms.
pub proof fn a_root_comes_with_its_terms<V: DictionaryValue>(
    slot: Option<&AtomicNodePtr<ByteKey, V>>,
    handle: OverlayDictionaryNode<ByteKey, V, MemoryRecords<ByteKey, V>>,
    count: usize,
)
    requires
        call_ensures(root_with_term_count::<V>, (slot,), (handle, count)),
    ensures
        handle.overlay is Some,
        slot is None ==> count == 0 && handle.overlay->0@ == Tree::<u8, V>::empty(),
        slot matches Some(s) ==> (s.read(None) && count == 0) || exists|
            content: Arc<PublishedRoot<ByteKey, V>>,
        | #[trigger]
            s.read(Some(content)) && content.term_count == count && handle.overlay == Some(
                content.node,
            ),
{
    if let Some(s) = slot {
        let content = choose|content: Option<Arc<PublishedRoot<ByteKey, V>>>| #[trigger]
            s.read(content) && match content {
                Some(published) => handle.overlay == Some(published.node) && count
                    == published.term_count,
                None => handle.overlay->0@ == Tree::<u8, V>::empty() && count == 0,
            };
        if content is Some {
            assert(s.read(Some(content->0)));
        }
    }
}

} // verus!
