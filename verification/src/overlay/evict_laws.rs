//! What eviction keeps.

use vstd::prelude::*;
use crate::eviction::{CompactEvictionCandidate, CompactEvictionPolicy};
use crate::swizzled_ptr::{located_is_not_null, SwizzledPtr};
use super::evict::{evict_chain, evict_kids, evict_node, evictable, ChainWalkFrame};
use super::evict_plan::{lemma_plan_child, lemma_plan_siblings, plan_wf, BatchPlanNode};
use super::model::{
    at, full_kid, kid, lemma_same_kids, lemma_stamps_child, same_terms, stamps_hold, Records,
};
use super::node::{put_all, Branch, Tree};

verus! {

/// The branch that eviction leaves behind for one plan child.
pub open spec fn evicted_branch<U, V>(
    policy: CompactEvictionPolicy,
    plan: Seq<BatchPlanNode<U>>,
    candidates: Seq<CompactEvictionCandidate>,
    c: int,
    live: Tree<U, V>,
) -> Option<Branch<U, V>> {
    match kid(live, plan[c].edge->0) {
        Some(Branch::InMem(child)) => {
            let (copy, below) = evict_node(policy, plan, candidates, c, child);
            let selected = plan[c].selected_candidate;
            if evictable(selected, candidates, child) && (policy
                == CompactEvictionPolicy::ResidentBudgetAncestorClosure || below.len() == 0) {
                Some(Branch::OnDisk(candidates[selected->0 as int].disk_ptr))
            } else {
                Some(Branch::InMem(copy))
            }
        },
        other => other,
    }
}

/// Eviction touches exactly the edges of the plan, and only where there is a
/// child.
pub proof fn lemma_evict_kids_at<U, V>(
    policy: CompactEvictionPolicy,
    plan: Seq<BatchPlanNode<U>>,
    candidates: Seq<CompactEvictionCandidate>,
    i: int,
    n: nat,
    live: Tree<U, V>,
    unit: U,
)
    requires
        plan_wf(plan),
        0 <= i < plan.len(),
        n <= plan[i].children@.len(),
    ensures
        ({
            let after = Tree {
                kids: put_all(live.kids, evict_kids(policy, plan, candidates, i, n, live).0),
                ..live
            };
            &&& forall|k: int|
                0 <= k < n && plan[(#[trigger] plan[i].children@[k]) as int].edge == Some(unit)
                    ==> kid(after, unit) == evicted_branch(
                    policy,
                    plan,
                    candidates,
                    plan[i].children@[k] as int,
                    live,
                )
            &&& (forall|k: int|
                0 <= k < n ==> plan[(#[trigger] plan[i].children@[k]) as int].edge != Some(unit))
                ==> kid(after, unit) == kid(live, unit)
        }),
    decreases n,
{
    if n > 0 {
        let m = (n - 1) as nat;
        lemma_evict_kids_at(policy, plan, candidates, i, m, live, unit);
        lemma_plan_child(plan, i, m as int);
        let c = plan[i].children@[m as int] as int;
        let (before, _) = evict_kids(policy, plan, candidates, i, m, live);
        let (after, _) = evict_kids(policy, plan, candidates, i, n, live);
        if after.len() > before.len() {
            assert(after.drop_last() =~= before);
        }
        assert forall|k: int|
            0 <= k < m && plan[(#[trigger] plan[i].children@[k]) as int].edge == Some(unit) implies plan[c].edge
            != Some(unit) by {
            lemma_plan_siblings(plan, i, k, m as int);
        }
        if plan[c].edge == Some(unit) {
            // No earlier sibling has this edge, so the branch was untouched so far.
            assert forall|k: int| 0 <= k < m implies plan[(
            #[trigger] plan[i].children@[k]) as int].edge != Some(unit) by {
                lemma_plan_siblings(plan, i, k, m as int);
            }
            match kid(live, unit) {
                Some(Branch::InMem(child)) => {
                    let (copy, below) = evict_node(policy, plan, candidates, c, child);
                    if below.len() == 0 {
                        assert(copy == child);
                    }
                },
                _ => {},
            }
        }
    }
}

/// The record that a path leads to, if its last edge is durable.
pub open spec fn durable_at<U, V>(tree: Tree<U, V>, path: Seq<U>) -> Option<SwizzledPtr> {
    if path.len() == 0 {
        None
    } else {
        match at(tree, path.drop_last()) {
            Some(node) => match kid(node, path.last()) {
                Some(Branch::OnDisk(ptr)) => Some(ptr),
                _ => None,
            },
            None => None,
        }
    }
}

/// A resident node was replaced by the very record that it was written as.
pub open spec fn swapped<U, V>(before: Tree<U, V>, after: Tree<U, V>, path: Seq<U>) -> bool {
    &&& at(before, path) is Some
    &&& durable_at(after, path) is Some
    &&& durable_at(after, path)->0.location() is Some
    &&& at(before, path)->0.stamp == durable_at(after, path)->0.raw
}

/// A key went out of memory together with a node on its path that was replaced by
/// the record it was written as.
pub open spec fn moved_to_record<U, V>(before: Tree<U, V>, after: Tree<U, V>, key: Seq<U>) -> bool {
    exists|k: int| 0 < k <= key.len() && #[trigger] swapped(before, after, key.take(k))
}

/// A swap below a child is a swap below its parent.
proof fn lemma_swapped_up<U, V>(
    before: Tree<U, V>,
    after: Tree<U, V>,
    key: Seq<U>,
    child: Tree<U, V>,
    copy: Tree<U, V>,
)
    requires
        key.len() > 0,
        kid(before, key[0]) == Some(Branch::InMem(child)),
        kid(after, key[0]) == Some(Branch::InMem(copy)),
        moved_to_record(child, copy, key.drop_first()),
    ensures
        moved_to_record(before, after, key),
{
    let rest = key.drop_first();
    let k = choose|k: int| 0 < k <= rest.len() && #[trigger] swapped(child, copy, rest.take(k));
    let path = key.take(k + 1);
    let tail = rest.take(k);
    assert(path.drop_first() =~= tail);
    assert(path.drop_last().drop_first() =~= tail.drop_last());
    assert(path.last() == tail.last());
    assert(at(before, path) == at(child, tail));
    assert(at(after, path.drop_last()) == at(copy, tail.drop_last()));
    assert(swapped(before, after, key.take(k + 1)));
}

/// Eviction loses nothing: a node that stays in memory keeps its finality and its
/// value, and a node that leaves it does so under a pointer to the record it, or
/// an ancestor of it, was written as.
pub proof fn evict_only_swaps_residency<U, V>(
    policy: CompactEvictionPolicy,
    plan: Seq<BatchPlanNode<U>>,
    candidates: Seq<CompactEvictionCandidate>,
    i: int,
    live: Tree<U, V>,
    key: Seq<U>,
)
    requires
        plan_wf(plan),
        0 <= i < plan.len(),
    ensures
        ({
            let (after, _) = evict_node(policy, plan, candidates, i, live);
            match (at(live, key), at(after, key)) {
                (Some(before), Some(kept)) => kept.is_final == before.is_final && kept.value
                    == before.value,
                (Some(_), None) => moved_to_record(live, after, key),
                (None, kept) => kept is None,
            }
        }),
    decreases key.len(),
{
    let n = plan[i].children@.len();
    let (after, evicted) = evict_node(policy, plan, candidates, i, live);
    if key.len() > 0 && evicted.len() > 0 {
        let unit = key[0];
        let rest = key.drop_first();
        lemma_evict_kids_at(policy, plan, candidates, i, n, live, unit);
        let flat = Tree {
            kids: put_all(live.kids, evict_kids(policy, plan, candidates, i, n, live).0),
            ..live
        };
        assert(kid(after, unit) == kid(flat, unit));
        if exists|k: int|
            0 <= k < n && plan[(#[trigger] plan[i].children@[k]) as int].edge == Some(unit) {
            let k = choose|k: int|
                0 <= k < n && plan[(#[trigger] plan[i].children@[k]) as int].edge == Some(unit);
            let c = plan[i].children@[k] as int;
            lemma_plan_child(plan, i, k);
            match kid(live, unit) {
                Some(Branch::InMem(child)) => {
                    let (copy, below) = evict_node(policy, plan, candidates, c, child);
                    match kid(after, unit) {
                        Some(Branch::InMem(_)) => {
                            evict_only_swaps_residency(policy, plan, candidates, c, child, rest);
                            if at(child, rest) is Some && at(copy, rest) is None {
                                lemma_swapped_up(live, after, key, child, copy);
                            }
                        },
                        _ => {
                            let path = key.take(1);
                            assert(path.drop_first() =~= Seq::empty());
                            assert(path.drop_last() =~= Seq::empty());
                            assert(at(live, path) == at(child, path.drop_first()));
                            assert(swapped(live, after, key.take(1)));
                        },
                    }
                },
                _ => {},
            }
        }
    }
}

/// Eviction changes no stored term, as long as every stamped node stores what its
/// record does: what left memory is found in the records.
pub proof fn evict_keeps_terms<U, V>(
    records: Records<U, V>,
    policy: CompactEvictionPolicy,
    plan: Seq<BatchPlanNode<U>>,
    candidates: Seq<CompactEvictionCandidate>,
    i: int,
    live: Tree<U, V>,
)
    requires
        plan_wf(plan),
        0 <= i < plan.len(),
        stamps_hold(records, live),
    ensures
        same_terms(records, live, evict_node(policy, plan, candidates, i, live).0),
    decreases plan.len() - i,
{
    let n = plan[i].children@.len();
    let (after, evicted) = evict_node(policy, plan, candidates, i, live);
    if evicted.len() > 0 {
        let flat = Tree {
            kids: put_all(live.kids, evict_kids(policy, plan, candidates, i, n, live).0),
            ..live
        };
        assert forall|unit: U|
            match (#[trigger] full_kid(records, live, unit), full_kid(records, after, unit)) {
                (Some(x), Some(y)) => same_terms(records, x, y),
                (None, None) => true,
                _ => false,
            } by {
            lemma_evict_kids_at(policy, plan, candidates, i, n, live, unit);
            assert(kid(after, unit) == kid(flat, unit));
            if exists|k: int|
                0 <= k < n && plan[(#[trigger] plan[i].children@[k]) as int].edge == Some(unit) {
                let k = choose|k: int|
                    0 <= k < n && plan[(#[trigger] plan[i].children@[k]) as int].edge == Some(unit);
                let c = plan[i].children@[k] as int;
                lemma_plan_child(plan, i, k);
                match kid(live, unit) {
                    Some(Branch::InMem(child)) => {
                        lemma_stamps_child(records, live, unit, child);
                        evict_keeps_terms(records, policy, plan, candidates, c, child);
                        match kid(after, unit) {
                            Some(Branch::OnDisk(ptr)) => {
                                located_is_not_null(ptr);
                                assert(at(child, Seq::<U>::empty()) == Some(child));
                                assert(ptr == SwizzledPtr { raw: child.stamp });
                                assert(same_terms(records, records(ptr), child));
                            },
                            _ => {},
                        }
                    },
                    _ => {},
                }
            }
        }
        lemma_same_kids(records, live, after);
    }
}

/// After eviction every stamped node still stores what its record does.
pub proof fn evict_keeps_stamps<U, V>(
    records: Records<U, V>,
    policy: CompactEvictionPolicy,
    plan: Seq<BatchPlanNode<U>>,
    candidates: Seq<CompactEvictionCandidate>,
    i: int,
    live: Tree<U, V>,
)
    requires
        plan_wf(plan),
        0 <= i < plan.len(),
        stamps_hold(records, live),
    ensures
        stamps_hold(records, evict_node(policy, plan, candidates, i, live).0),
{
    let (after, _) = evict_node(policy, plan, candidates, i, live);
    assert forall|path: Seq<U>|
        match #[trigger] at(after, path) {
            Some(node) => node.stamp != 0 ==> same_terms(
                records,
                records(SwizzledPtr { raw: node.stamp }),
                node,
            ),
            None => true,
        } by {
        lemma_evict_copies(policy, plan, candidates, i, live, path);
    }
}

/// A node after eviction is the node before it, or a copy without a stamp.
proof fn lemma_evict_copies<U, V>(
    policy: CompactEvictionPolicy,
    plan: Seq<BatchPlanNode<U>>,
    candidates: Seq<CompactEvictionCandidate>,
    i: int,
    live: Tree<U, V>,
    path: Seq<U>,
)
    requires
        plan_wf(plan),
        0 <= i < plan.len(),
    ensures
        ({
            let (after, _) = evict_node(policy, plan, candidates, i, live);
            match at(after, path) {
                Some(node) => node.stamp == 0 || at(live, path) == Some(node),
                None => true,
            }
        }),
    decreases path.len(),
{
    let n = plan[i].children@.len();
    let (after, evicted) = evict_node(policy, plan, candidates, i, live);
    if path.len() > 0 && evicted.len() > 0 {
        let unit = path[0];
        lemma_evict_kids_at(policy, plan, candidates, i, n, live, unit);
        let flat = Tree {
            kids: put_all(live.kids, evict_kids(policy, plan, candidates, i, n, live).0),
            ..live
        };
        assert(kid(after, unit) == kid(flat, unit));
        if exists|k: int|
            0 <= k < n && plan[(#[trigger] plan[i].children@[k]) as int].edge == Some(unit) {
            let k = choose|k: int|
                0 <= k < n && plan[(#[trigger] plan[i].children@[k]) as int].edge == Some(unit);
            let c = plan[i].children@[k] as int;
            lemma_plan_child(plan, i, k);
            match kid(live, unit) {
                Some(Branch::InMem(child)) => {
                    lemma_evict_copies(policy, plan, candidates, c, child, path.drop_first());
                },
                _ => {},
            }
        }
    }
}

/// A plan that is a single path.
pub open spec fn is_chain<U>(plan: Seq<BatchPlanNode<U>>, frames: Seq<ChainWalkFrame<U>>) -> bool {
    &&& plan.len() == frames.len() + 1
    &&& forall|k: int|
        0 <= k < frames.len() ==> {
            &&& (#[trigger] plan[k]).children@ == seq![(k + 1) as usize]
            &&& k + 1 <= usize::MAX
        }
    &&& plan[frames.len() as int].children@.len() == 0
    &&& forall|k: int|
        0 <= k < frames.len() ==> {
            &&& plan[k + 1].edge == Some((#[trigger] frames[k]).edge)
            &&& plan[k + 1].selected_candidate == frames[k].selected_candidate
        }
}

/// Along a single path the specialised walk and the general one agree.
pub proof fn chain_matches_general<U, V>(
    policy: CompactEvictionPolicy,
    plan: Seq<BatchPlanNode<U>>,
    frames: Seq<ChainWalkFrame<U>>,
    candidates: Seq<CompactEvictionCandidate>,
    k: int,
    live: Tree<U, V>,
)
    requires
        is_chain(plan, frames),
        0 <= k <= frames.len(),
    ensures
        ({
            let (general, evicted) = evict_node(policy, plan, candidates, k, live);
            let (chain, one) = evict_chain(policy, frames, candidates, k, live);
            &&& general == chain
            &&& evicted == match one {
                Some(c) => seq![c],
                None => Seq::<usize>::empty(),
            }
        }),
    decreases frames.len() - k,
{
    reveal_with_fuel(evict_kids, 2);
    if k < frames.len() {
        assert(plan[k].children@ == seq![(k + 1) as usize]);
        assert(plan[k + 1].edge == Some(frames[k].edge));
        match kid(live, frames[k].edge) {
            Some(Branch::InMem(child)) => {
                chain_matches_general(policy, plan, frames, candidates, k + 1, child);
                let (reps, evicted) = evict_kids(policy, plan, candidates, k, 1, live);
                let (copy, below) = evict_node(policy, plan, candidates, k + 1, child);
                let selected = frames[k].selected_candidate;
                if evictable(selected, candidates, child) && (policy
                    == CompactEvictionPolicy::ResidentBudgetAncestorClosure || below.len() == 0) {
                    assert(evicted =~= seq![selected->0]);
                    assert(reps =~= seq![
                        (
                            frames[k].edge,
                            Branch::<U, V>::OnDisk(candidates[selected->0 as int].disk_ptr),
                        ),
                    ]);
                } else if below.len() > 0 {
                    assert(evicted =~= below);
                    assert(reps =~= seq![(frames[k].edge, Branch::InMem(copy))]);
                } else {
                    assert(evicted =~= Seq::empty());
                }
            },
            _ => {
                let (reps, evicted) = evict_kids(policy, plan, candidates, k, 1, live);
                assert(evicted =~= Seq::empty());
            },
        }
    }
}

} // verus!
