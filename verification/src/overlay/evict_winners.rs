//! Which candidates of a batch an eviction replaces.

use vstd::prelude::*;
use crate::eviction::{CompactEvictionBatch, CompactEvictionCandidate, CompactEvictionPolicy};
use super::evict::{evict_chain, evict_kids, evict_node, evictable, ChainWalkFrame};
use super::evict_chain_plan::{chain_plans, chain_through, lemma_ancestor_depth, none_at_depth};
use super::evict_plan::{
    lemma_plan_child, marked, plan_marks, plan_path, plan_paths_are_distinct, plan_wf, plans,
    BatchPlanNode,
};
use super::model::{at, kid};
use super::node::{Branch, Tree};

verus! {

/// One path leads to a place above that of another.
pub open spec fn strictly_above<U>(p: Seq<U>, q: Seq<U>) -> bool {
    p.is_prefix_of(q) && p.len() < q.len()
}

/// A candidate names a resident node below the root by its path, and the record
/// that this node was written as.
pub open spec fn current<U: Copy, V>(
    batch: CompactEvictionBatch<U>,
    live: Tree<U, V>,
    c: int,
) -> bool {
    &&& 0 <= c < batch.candidates@.len()
    &&& batch.path(c).len() > 0
    &&& batch.candidates@[c].disk_ptr.location() is Some
    &&& at(live, batch.path(c)) matches Some(node) && node.stamp == batch.candidates@[c].disk_ptr.raw
}

/// A current candidate that no other current candidate stands in the way of: one
/// below it when descendants go first, one above it when ancestors do.
pub open spec fn winner<U: Copy, V>(
    policy: CompactEvictionPolicy,
    batch: CompactEvictionBatch<U>,
    live: Tree<U, V>,
    c: int,
) -> bool {
    &&& current(batch, live, c)
    &&& forall|d: int| #[trigger]
        current(batch, live, d) ==> match policy {
            CompactEvictionPolicy::DescendantFirst => !strictly_above(batch.path(c), batch.path(d)),
            CompactEvictionPolicy::ResidentBudgetAncestorClosure => !strictly_above(
                batch.path(d),
                batch.path(c),
            ),
        }
}

/// The path from one plan node to another below it.
spec fn rel<U>(plan: Seq<BatchPlanNode<U>>, i: int, j: int) -> Seq<U> {
    plan_path(plan, j).skip(plan_path(plan, i).len() as int)
}

/// Plan node `j` lies below plan node `i`, whose live node is given, and its mark is
/// current.
spec fn hit<U, V>(
    plan: Seq<BatchPlanNode<U>>,
    candidates: Seq<CompactEvictionCandidate>,
    i: int,
    live: Tree<U, V>,
    j: int,
) -> bool {
    &&& 0 <= i < j < plan.len()
    &&& strictly_above(plan_path(plan, i), plan_path(plan, j))
    &&& at(live, rel(plan, i, j)) matches Some(node) && evictable(
        plan[j].selected_candidate,
        candidates,
        node,
    )
}

/// A hit that no other hit stands in the way of.
spec fn wins<U, V>(
    policy: CompactEvictionPolicy,
    plan: Seq<BatchPlanNode<U>>,
    candidates: Seq<CompactEvictionCandidate>,
    i: int,
    live: Tree<U, V>,
    j: int,
) -> bool {
    &&& hit(plan, candidates, i, live, j)
    &&& forall|k: int| #[trigger]
        hit(plan, candidates, i, live, k) ==> match policy {
            CompactEvictionPolicy::DescendantFirst => !strictly_above(
                plan_path(plan, j),
                plan_path(plan, k),
            ),
            CompactEvictionPolicy::ResidentBudgetAncestorClosure => !strictly_above(
                plan_path(plan, k),
                plan_path(plan, j),
            ),
        }
}

/// A candidate that wins below a plan node.
spec fn evicts<U, V>(
    policy: CompactEvictionPolicy,
    plan: Seq<BatchPlanNode<U>>,
    candidates: Seq<CompactEvictionCandidate>,
    i: int,
    live: Tree<U, V>,
    x: usize,
) -> bool {
    exists|j: int| #[trigger]
        wins(policy, plan, candidates, i, live, j) && plan[j].selected_candidate == Some(x)
}

/// Plan node `j` lies at or below one of the first `n` children of `i`.
spec fn in_first<U>(plan: Seq<BatchPlanNode<U>>, i: int, n: int, j: int) -> bool {
    exists|k: int|
        0 <= k < n && plan_path(plan, (#[trigger] plan[i].children@[k]) as int).is_prefix_of(
            plan_path(plan, j),
        )
}

/// The path of a child.
proof fn lemma_child_path<U>(plan: Seq<BatchPlanNode<U>>, i: int, k: int)
    requires
        plan_wf(plan),
        plan.len() <= usize::MAX,
        0 <= i < plan.len(),
        0 <= k < plan[i].children@.len(),
    ensures
        ({
            let c = plan[i].children@[k] as int;
            &&& i < c < plan.len()
            &&& plan[c].edge is Some
            &&& plan_path(plan, c) == plan_path(plan, i).push(plan[c].edge->0)
        }),
{
    lemma_plan_child(plan, i, k);
}

/// The parent of a plan node.
proof fn lemma_parent<U>(plan: Seq<BatchPlanNode<U>>, j: int)
    requires
        plan_wf(plan),
        plan.len() <= usize::MAX,
        0 < j < plan.len(),
    ensures
        plan[j].parent < j,
        plan[j].edge is Some,
        plan[plan[j].parent as int].children@.contains(j as usize),
        plan_path(plan, j) == plan_path(plan, plan[j].parent as int).push(plan[j].edge->0),
{
    reveal(plan_wf);
    assert(plan[j].parent < j);
}

/// A node above another comes before it, and the other lies below one of its
/// children.
proof fn lemma_above<U>(plan: Seq<BatchPlanNode<U>>, i: int, j: int)
    requires
        plan_wf(plan),
        plan.len() <= usize::MAX,
        0 <= i < plan.len(),
        0 <= j < plan.len(),
        strictly_above(plan_path(plan, i), plan_path(plan, j)),
    ensures
        i < j,
        in_first(plan, i, plan[i].children@.len() as int, j),
    decreases j,
{
    assert(j > 0);
    lemma_parent(plan, j);
    let p = plan[j].parent as int;
    let up = plan_path(plan, p);
    let path = plan_path(plan, j);
    assert(up =~= path.drop_last());
    assert(plan_path(plan, i).is_prefix_of(up));
    if plan_path(plan, i).len() == up.len() {
        assert(plan_path(plan, i) =~= up);
        plan_paths_are_distinct(plan, i, p);
        let k = choose|k: int| 0 <= k < plan[i].children@.len() && plan[i].children@[k] == j as usize;
        assert(plan_path(plan, plan[i].children@[k] as int).is_prefix_of(path));
    } else {
        lemma_above(plan, i, p);
        let n = plan[i].children@.len() as int;
        let k = choose|k: int|
            0 <= k < n && plan_path(plan, (#[trigger] plan[i].children@[k]) as int).is_prefix_of(up);
        assert(plan_path(plan, plan[i].children@[k] as int).is_prefix_of(path));
    }
}

/// Hits at and below a child, seen from the child.
proof fn lemma_child_hit<U, V>(
    plan: Seq<BatchPlanNode<U>>,
    candidates: Seq<CompactEvictionCandidate>,
    i: int,
    k: int,
    live: Tree<U, V>,
    j: int,
)
    requires
        plan_wf(plan),
        plan.len() <= usize::MAX,
        0 <= i < plan.len(),
        0 <= k < plan[i].children@.len(),
        0 <= j < plan.len(),
        plan_path(plan, plan[i].children@[k] as int).is_prefix_of(plan_path(plan, j)),
    ensures
        ({
            let c = plan[i].children@[k] as int;
            hit(plan, candidates, i, live, j) == match kid(live, plan[c].edge->0) {
                Some(Branch::InMem(child)) => if j == c {
                    evictable(plan[c].selected_candidate, candidates, child)
                } else {
                    hit(plan, candidates, c, child, j)
                },
                _ => false,
            }
        }),
{
    let c = plan[i].children@[k] as int;
    lemma_child_path(plan, i, k);
    let unit = plan[c].edge->0;
    let above = plan_path(plan, i);
    let path = plan_path(plan, j);
    assert(above.is_prefix_of(path)) by {
        assert(above =~= plan_path(plan, c).take(above.len() as int));
    }
    lemma_above(plan, i, j);
    let down = rel(plan, i, j);
    assert(down.len() > 0);
    assert(down[0] == path[above.len() as int]);
    assert(plan_path(plan, c)[above.len() as int] == unit);
    assert(down[0] == unit);
    assert(down.drop_first() =~= rel(plan, c, j));
    match kid(live, unit) {
        Some(Branch::InMem(child)) => {
            assert(at(live, down) == at(child, rel(plan, c, j)));
        },
        _ => {
            assert(at(live, down) is None);
        },
    }
    if j == c {
        assert(rel(plan, c, j) =~= Seq::<U>::empty());
    } else {
        if path.len() == plan_path(plan, c).len() {
            assert(path =~= plan_path(plan, c));
            plan_paths_are_distinct(plan, c, j);
        }
        lemma_above(plan, c, j);
    }
}

/// Two nodes one of which is above the other lie below the same child.
proof fn lemma_same_branch<U>(plan: Seq<BatchPlanNode<U>>, i: int, k: int, j: int, m: int)
    requires
        plan_wf(plan),
        plan.len() <= usize::MAX,
        0 <= i < plan.len(),
        0 <= k < plan[i].children@.len(),
        plan_path(plan, plan[i].children@[k] as int).is_prefix_of(plan_path(plan, j)),
        strictly_above(plan_path(plan, i), plan_path(plan, m)),
        strictly_above(plan_path(plan, j), plan_path(plan, m)) || strictly_above(
            plan_path(plan, m),
            plan_path(plan, j),
        ),
    ensures
        plan_path(plan, plan[i].children@[k] as int).is_prefix_of(plan_path(plan, m)),
{
    let c = plan[i].children@[k] as int;
    lemma_child_path(plan, i, k);
    let top = plan_path(plan, c);
    let a = plan_path(plan, j);
    let b = plan_path(plan, m);
    assert(top.len() <= b.len());
    if strictly_above(a, b) {
        assert(top =~= b.take(top.len() as int)) by {
            assert(top == a.take(top.len() as int));
            assert(a == b.take(a.len() as int));
        }
    } else {
        assert(top =~= b.take(top.len() as int)) by {
            assert(top == a.take(top.len() as int));
            assert(b == a.take(b.len() as int));
        }
    }
}

/// Where there is a hit, something wins.
proof fn lemma_winner_exists<U, V>(
    policy: CompactEvictionPolicy,
    plan: Seq<BatchPlanNode<U>>,
    candidates: Seq<CompactEvictionCandidate>,
    i: int,
    live: Tree<U, V>,
    j: int,
)
    requires
        plan_wf(plan),
        plan.len() <= usize::MAX,
        hit(plan, candidates, i, live, j),
    ensures
        exists|x: usize| #[trigger] evicts(policy, plan, candidates, i, live, x),
    decreases
            if policy == CompactEvictionPolicy::DescendantFirst {
                plan.len() - j
            } else {
                j
            },
{
    if wins(policy, plan, candidates, i, live, j) {
        let x = plan[j].selected_candidate->0;
        assert(evicts(policy, plan, candidates, i, live, x));
    } else {
        let k = choose|k: int| #[trigger]
            hit(plan, candidates, i, live, k) && (match policy {
                CompactEvictionPolicy::DescendantFirst => strictly_above(
                    plan_path(plan, j),
                    plan_path(plan, k),
                ),
                CompactEvictionPolicy::ResidentBudgetAncestorClosure => strictly_above(
                    plan_path(plan, k),
                    plan_path(plan, j),
                ),
            });
        match policy {
            CompactEvictionPolicy::DescendantFirst => {
                lemma_above(plan, j, k);
            },
            CompactEvictionPolicy::ResidentBudgetAncestorClosure => {
                lemma_above(plan, k, j);
            },
        }
        lemma_winner_exists(policy, plan, candidates, i, live, k);
    }
}

/// Winners below a child, seen from its parent.
proof fn lemma_child_wins<U, V>(
    policy: CompactEvictionPolicy,
    plan: Seq<BatchPlanNode<U>>,
    candidates: Seq<CompactEvictionCandidate>,
    i: int,
    k: int,
    live: Tree<U, V>,
    child: Tree<U, V>,
    j: int,
)
    requires
        plan_wf(plan),
        plan.len() <= usize::MAX,
        0 <= i < plan.len(),
        0 <= k < plan[i].children@.len(),
        0 <= j < plan.len(),
        plan_path(plan, plan[i].children@[k] as int).is_prefix_of(plan_path(plan, j)),
        kid(live, plan[plan[i].children@[k] as int].edge->0) == Some(Branch::InMem(child)),
    ensures
        ({
            let c = plan[i].children@[k] as int;
            let own = evictable(plan[c].selected_candidate, candidates, child);
            wins(policy, plan, candidates, i, live, j) == match policy {
                CompactEvictionPolicy::DescendantFirst => if j == c {
                    own && forall|m: int| !#[trigger] hit(plan, candidates, c, child, m)
                } else {
                    wins(policy, plan, candidates, c, child, j)
                },
                CompactEvictionPolicy::ResidentBudgetAncestorClosure => if j == c {
                    own
                } else {
                    !own && wins(policy, plan, candidates, c, child, j)
                },
            }
        }),
{
    let c = plan[i].children@[k] as int;
    let own = evictable(plan[c].selected_candidate, candidates, child);
    lemma_child_path(plan, i, k);
    lemma_child_hit(plan, candidates, i, k, live, j);
    lemma_child_hit(plan, candidates, i, k, live, c);
    let top = plan_path(plan, c);
    let path = plan_path(plan, j);
    assert forall|m: int| #[trigger] hit(plan, candidates, c, child, m) implies hit(
        plan,
        candidates,
        i,
        live,
        m,
    ) by {
        lemma_child_hit(plan, candidates, i, k, live, m);
    }
    if j == c {
        match policy {
            CompactEvictionPolicy::DescendantFirst => {
                if own && forall|m: int| !#[trigger] hit(plan, candidates, c, child, m) {
                    assert forall|m: int| #[trigger]
                        hit(plan, candidates, i, live, m) implies !strictly_above(
                        path,
                        plan_path(plan, m),
                    ) by {
                        if strictly_above(path, plan_path(plan, m)) {
                            lemma_same_branch(plan, i, k, j, m);
                            lemma_child_hit(plan, candidates, i, k, live, m);
                            assert(!hit(plan, candidates, c, child, m));
                        }
                    }
                    assert(wins(policy, plan, candidates, i, live, j));
                }
                if wins(policy, plan, candidates, i, live, j) {
                    assert forall|m: int| !#[trigger] hit(plan, candidates, c, child, m) by {
                        if hit(plan, candidates, c, child, m) {
                            assert(hit(plan, candidates, i, live, m));
                            assert(strictly_above(path, plan_path(plan, m)));
                        }
                    }
                }
            },
            CompactEvictionPolicy::ResidentBudgetAncestorClosure => {
                assert forall|m: int| #[trigger]
                    hit(plan, candidates, i, live, m) implies !strictly_above(
                    plan_path(plan, m),
                    path,
                ) by {
                    assert(plan_path(plan, m).len() > plan_path(plan, i).len());
                }
            },
        }
    } else {
        if path.len() == top.len() {
            assert(path =~= top);
            plan_paths_are_distinct(plan, c, j);
        }
        assert(strictly_above(top, path));
        if wins(policy, plan, candidates, i, live, j) {
            assert(wins(policy, plan, candidates, c, child, j));
            if policy == CompactEvictionPolicy::ResidentBudgetAncestorClosure && own {
                assert(hit(plan, candidates, i, live, c));
                assert(false);
            }
        }
        if wins(policy, plan, candidates, c, child, j) && (policy
            == CompactEvictionPolicy::DescendantFirst || !own) {
            assert forall|m: int| #[trigger] hit(plan, candidates, i, live, m) implies match policy {
                CompactEvictionPolicy::DescendantFirst => !strictly_above(
                    path,
                    plan_path(plan, m),
                ),
                CompactEvictionPolicy::ResidentBudgetAncestorClosure => !strictly_above(
                    plan_path(plan, m),
                    path,
                ),
            } by {
                if strictly_above(path, plan_path(plan, m)) || strictly_above(
                    plan_path(plan, m),
                    path,
                ) {
                    lemma_same_branch(plan, i, k, j, m);
                    lemma_child_hit(plan, candidates, i, k, live, m);
                }
            }
        }
    }
}

/// What eviction replaces below a plan node is what wins there.
proof fn lemma_evict_node<U, V>(
    policy: CompactEvictionPolicy,
    plan: Seq<BatchPlanNode<U>>,
    candidates: Seq<CompactEvictionCandidate>,
    i: int,
    live: Tree<U, V>,
)
    requires
        plan_wf(plan),
        plan.len() <= usize::MAX,
        0 <= i < plan.len(),
    ensures
        forall|x: usize| #[trigger]
            evict_node(policy, plan, candidates, i, live).1.contains(x) == evicts(
                policy,
                plan,
                candidates,
                i,
                live,
                x,
            ),
    decreases plan.len() - i, plan[i].children@.len() + 1,
{
    let n = plan[i].children@.len();
    lemma_evict_kids(policy, plan, candidates, i, n, live);
    assert forall|x: usize| #[trigger]
        evict_node(policy, plan, candidates, i, live).1.contains(x) == evicts(
            policy,
            plan,
            candidates,
            i,
            live,
            x,
        ) by {
        assert(evict_node(policy, plan, candidates, i, live).1 == evict_kids(
            policy,
            plan,
            candidates,
            i,
            n,
            live,
        ).1);
        if evicts(policy, plan, candidates, i, live, x) {
            let j = choose|j: int| #[trigger]
                wins(policy, plan, candidates, i, live, j) && plan[j].selected_candidate == Some(x);
            lemma_above(plan, i, j);
            assert(evicts_first(policy, plan, candidates, i, n as int, live, x));
        }
    }
}

/// A candidate that wins at or below one of the first `n` children.
spec fn evicts_first<U, V>(
    policy: CompactEvictionPolicy,
    plan: Seq<BatchPlanNode<U>>,
    candidates: Seq<CompactEvictionCandidate>,
    i: int,
    n: int,
    live: Tree<U, V>,
    x: usize,
) -> bool {
    exists|j: int| #[trigger]
        wins(policy, plan, candidates, i, live, j) && plan[j].selected_candidate == Some(x)
            && in_first(plan, i, n, j)
}

/// What eviction replaces along the first children is what wins there.
proof fn lemma_evict_kids<U, V>(
    policy: CompactEvictionPolicy,
    plan: Seq<BatchPlanNode<U>>,
    candidates: Seq<CompactEvictionCandidate>,
    i: int,
    n: nat,
    live: Tree<U, V>,
)
    requires
        plan_wf(plan),
        plan.len() <= usize::MAX,
        0 <= i < plan.len(),
        n <= plan[i].children@.len(),
    ensures
        forall|x: usize| #[trigger]
            evict_kids(policy, plan, candidates, i, n, live).1.contains(x) == evicts_first(
                policy,
                plan,
                candidates,
                i,
                n as int,
                live,
                x,
            ),
    decreases plan.len() - i, n,
{
    if n > 0 {
        let m = (n - 1) as nat;
        let k = n - 1;
        lemma_evict_kids(policy, plan, candidates, i, m, live);
        lemma_child_path(plan, i, k);
        let c = plan[i].children@[k] as int;
        let unit = plan[c].edge->0;
        let before = evict_kids(policy, plan, candidates, i, m, live).1;
        let after = evict_kids(policy, plan, candidates, i, n, live).1;
        assert forall|x: usize| #[trigger] after.contains(x) == evicts_first(
            policy,
            plan,
            candidates,
            i,
            n as int,
            live,
            x,
        ) by {
            assert(before.contains(x) == evicts_first(
                policy,
                plan,
                candidates,
                i,
                m as int,
                live,
                x,
            ));
            lemma_first_step(policy, plan, candidates, i, k, live, x);
            match kid(live, unit) {
                Some(Branch::InMem(child)) => {
                    lemma_evict_node(policy, plan, candidates, c, child);
                    lemma_child_share(policy, plan, candidates, i, k, live, child, x);
                    let below = evict_node(policy, plan, candidates, c, child).1;
                    assert(below.contains(x) == evicts(policy, plan, candidates, c, child, x));
                    let selected = plan[c].selected_candidate;
                    assert((exists|y: usize| #[trigger]
                        evicts(policy, plan, candidates, c, child, y)) == (below.len() > 0)) by {
                        if below.len() > 0 {
                            assert(below.contains(below[0]));
                        }
                        if exists|y: usize| #[trigger]
                            evicts(policy, plan, candidates, c, child, y) {
                            let y = choose|y: usize| #[trigger]
                                evicts(policy, plan, candidates, c, child, y);
                            assert(below.contains(y));
                        }
                    }
                    if evictable(selected, candidates, child) && (policy
                        == CompactEvictionPolicy::ResidentBudgetAncestorClosure || below.len()
                        == 0) {
                        assert(after == before.push(selected->0));
                        assert(after.contains(x) == (before.contains(x) || x == selected->0)) by {
                            if before.contains(x) {
                                let t = choose|t: int| 0 <= t < before.len() && before[t] == x;
                                assert(after[t] == x);
                            }
                            if x == selected->0 {
                                assert(after[before.len() as int] == x);
                            }
                        }
                    } else if below.len() > 0 {
                        assert(after == before + below);
                        assert(after.contains(x) == (before.contains(x) || below.contains(x))) by {
                            if before.contains(x) {
                                let t = choose|t: int| 0 <= t < before.len() && before[t] == x;
                                assert(after[t] == x);
                            }
                            if below.contains(x) {
                                let t = choose|t: int| 0 <= t < below.len() && below[t] == x;
                                assert(after[before.len() + t] == x);
                            }
                        }
                    }
                },
                _ => {
                    if evicts_at(policy, plan, candidates, i, k, live, x) {
                        let j = choose|j: int| #[trigger]
                            wins(policy, plan, candidates, i, live, j)
                                && plan[j].selected_candidate == Some(x) && plan_path(
                                plan,
                                c,
                            ).is_prefix_of(plan_path(plan, j));
                        lemma_child_hit(plan, candidates, i, k, live, j);
                    }
                },
            }
        }
    } else {
        assert forall|x: usize| !evicts_first(policy, plan, candidates, i, 0, live, x) by {}
    }
}

/// A candidate that wins at or below one child.
spec fn evicts_at<U, V>(
    policy: CompactEvictionPolicy,
    plan: Seq<BatchPlanNode<U>>,
    candidates: Seq<CompactEvictionCandidate>,
    i: int,
    k: int,
    live: Tree<U, V>,
    x: usize,
) -> bool {
    exists|j: int| #[trigger]
        wins(policy, plan, candidates, i, live, j) && plan[j].selected_candidate == Some(x)
            && plan_path(plan, plan[i].children@[k] as int).is_prefix_of(plan_path(plan, j))
}

/// One more child.
proof fn lemma_first_step<U, V>(
    policy: CompactEvictionPolicy,
    plan: Seq<BatchPlanNode<U>>,
    candidates: Seq<CompactEvictionCandidate>,
    i: int,
    k: int,
    live: Tree<U, V>,
    x: usize,
)
    requires
        0 <= i < plan.len(),
        0 <= k < plan[i].children@.len(),
    ensures
        evicts_first(policy, plan, candidates, i, k + 1, live, x) == (evicts_first(
            policy,
            plan,
            candidates,
            i,
            k,
            live,
            x,
        ) || evicts_at(policy, plan, candidates, i, k, live, x)),
{
    if evicts_first(policy, plan, candidates, i, k + 1, live, x) {
        let j = choose|j: int| #[trigger]
            wins(policy, plan, candidates, i, live, j) && plan[j].selected_candidate == Some(x)
                && in_first(plan, i, k + 1, j);
        let t = choose|t: int|
            0 <= t < k + 1 && plan_path(
                plan,
                (#[trigger] plan[i].children@[t]) as int,
            ).is_prefix_of(plan_path(plan, j));
        if t < k {
            assert(in_first(plan, i, k, j));
        }
    }
    if evicts_first(policy, plan, candidates, i, k, live, x) {
        let j = choose|j: int| #[trigger]
            wins(policy, plan, candidates, i, live, j) && plan[j].selected_candidate == Some(x)
                && in_first(plan, i, k, j);
        let t = choose|t: int|
            0 <= t < k && plan_path(plan, (#[trigger] plan[i].children@[t]) as int).is_prefix_of(
                plan_path(plan, j),
            );
        assert(in_first(plan, i, k + 1, j));
    }
    if evicts_at(policy, plan, candidates, i, k, live, x) {
        let j = choose|j: int| #[trigger]
            wins(policy, plan, candidates, i, live, j) && plan[j].selected_candidate == Some(x)
                && plan_path(plan, plan[i].children@[k] as int).is_prefix_of(plan_path(plan, j));
        assert(in_first(plan, i, k + 1, j));
    }
}

/// What wins at or below a resident child.
proof fn lemma_child_share<U, V>(
    policy: CompactEvictionPolicy,
    plan: Seq<BatchPlanNode<U>>,
    candidates: Seq<CompactEvictionCandidate>,
    i: int,
    k: int,
    live: Tree<U, V>,
    child: Tree<U, V>,
    x: usize,
)
    requires
        plan_wf(plan),
        plan.len() <= usize::MAX,
        0 <= i < plan.len(),
        0 <= k < plan[i].children@.len(),
        kid(live, plan[plan[i].children@[k] as int].edge->0) == Some(Branch::InMem(child)),
    ensures
        ({
            let c = plan[i].children@[k] as int;
            let own = evictable(plan[c].selected_candidate, candidates, child);
            let below = exists|y: usize| #[trigger]
                evicts(policy, plan, candidates, c, child, y);
            evicts_at(policy, plan, candidates, i, k, live, x) == if own && (policy
                == CompactEvictionPolicy::ResidentBudgetAncestorClosure || !below) {
                plan[c].selected_candidate == Some(x)
            } else {
                evicts(policy, plan, candidates, c, child, x)
            }
        }),
{
    let c = plan[i].children@[k] as int;
    let own = evictable(plan[c].selected_candidate, candidates, child);
    let below = exists|y: usize| #[trigger] evicts(policy, plan, candidates, c, child, y);
    lemma_child_path(plan, i, k);
    assert(!below ==> forall|m: int| !#[trigger] hit(plan, candidates, c, child, m)) by {
        if !below {
            assert forall|m: int| !#[trigger] hit(plan, candidates, c, child, m) by {
                if hit(plan, candidates, c, child, m) {
                    lemma_winner_exists(policy, plan, candidates, c, child, m);
                }
            }
        }
    }
    assert(below ==> exists|m: int| #[trigger] hit(plan, candidates, c, child, m)) by {
        if below {
            let y = choose|y: usize| #[trigger] evicts(policy, plan, candidates, c, child, y);
            let m = choose|m: int| #[trigger]
                wins(policy, plan, candidates, c, child, m) && plan[m].selected_candidate == Some(
                    y,
                );
            assert(hit(plan, candidates, c, child, m));
        }
    }
    lemma_child_wins(policy, plan, candidates, i, k, live, child, c);
    if evicts_at(policy, plan, candidates, i, k, live, x) {
        let j = choose|j: int| #[trigger]
            wins(policy, plan, candidates, i, live, j) && plan[j].selected_candidate == Some(x)
                && plan_path(plan, c).is_prefix_of(plan_path(plan, j));
        lemma_child_wins(policy, plan, candidates, i, k, live, child, j);
        if j != c {
            assert(wins(policy, plan, candidates, c, child, j));
            assert(evicts(policy, plan, candidates, c, child, x));
        }
    }
    if evicts(policy, plan, candidates, c, child, x) {
        let j = choose|j: int| #[trigger]
            wins(policy, plan, candidates, c, child, j) && plan[j].selected_candidate == Some(x);
        lemma_child_wins(policy, plan, candidates, i, k, live, child, j);
    }
}

/// A batch evicts its winners and nothing else: a candidate is replaced exactly if
/// the node under its path is resident and was written as its record, and no other
/// such candidate stands in its way. When descendants go first that is one below
/// it, when ancestors do one above it.
pub proof fn batch_evicts_its_winners<U: Copy, V>(
    policy: CompactEvictionPolicy,
    plan: Seq<BatchPlanNode<U>>,
    batch: CompactEvictionBatch<U>,
    live: Tree<U, V>,
    c: usize,
)
    requires
        plans(plan, batch),
        plan.len() <= usize::MAX,
        c < batch.candidates@.len(),
    ensures
        evict_node(policy, plan, batch.candidates@, 0, live).1.contains(c) == winner(
            policy,
            batch,
            live,
            c as int,
        ),
{
    let candidates = batch.candidates@;
    assert(batch.candidates@.len() == batch.candidates.len());
    assert(plan.len() >= 1) by {
        reveal(plan_wf);
    }
    lemma_evict_node(policy, plan, candidates, 0, live);
    // A mark is a hit exactly if its candidate is current.
    assert forall|j: int, d: int|
        0 <= j < plan.len() && 0 <= d < candidates.len() && (#[trigger] plan[j]).selected_candidate
            == Some(d as usize) implies plan_path(plan, j) == batch.path(d) && hit(
        plan,
        candidates,
        0,
        live,
        j,
    ) == #[trigger] current(batch, live, d) by {
        reveal(plan_marks);
        let path = plan_path(plan, j);
        assert(path == batch.path(d));
        assert(rel(plan, 0, j) =~= path);
        if j > 0 {
            lemma_parent(plan, j);
            assert(path.len() > 0);
        }
    }
    assert forall|j: int| hit(plan, candidates, 0, live, j) implies exists|d: int|
        0 <= d < candidates.len() && (#[trigger] plan[j]).selected_candidate == Some(d as usize)
            && #[trigger] current(batch, live, d) by {
        let d = plan[j].selected_candidate->0 as int;
        assert(plan[j].selected_candidate == Some(d as usize));
        assert(current(batch, live, d));
    }
    assert(marked(plan, c as int)) by {
        reveal(plan_marks);
    }
    let at_c = choose|i: int|
        0 <= i < plan.len() && (#[trigger] plan[i]).selected_candidate == Some(c as int as usize);
    assert(hit(plan, candidates, 0, live, at_c) == current(batch, live, c as int));
    if winner(policy, batch, live, c as int) {
        assert(wins(policy, plan, candidates, 0, live, at_c)) by {
            assert forall|k: int| #[trigger] hit(plan, candidates, 0, live, k) implies match policy {
                CompactEvictionPolicy::DescendantFirst => !strictly_above(
                    plan_path(plan, at_c),
                    plan_path(plan, k),
                ),
                CompactEvictionPolicy::ResidentBudgetAncestorClosure => !strictly_above(
                    plan_path(plan, k),
                    plan_path(plan, at_c),
                ),
            } by {
                let d = plan[k].selected_candidate->0 as int;
                assert(plan[k].selected_candidate == Some(d as usize));
                assert(current(batch, live, d));
            }
        }
        assert(evicts(policy, plan, candidates, 0, live, c));
    }
    if evicts(policy, plan, candidates, 0, live, c) {
        let j = choose|j: int| #[trigger]
            wins(policy, plan, candidates, 0, live, j) && plan[j].selected_candidate == Some(c);
        assert(current(batch, live, c as int));
        assert forall|d: int| #[trigger] current(batch, live, d) implies match policy {
            CompactEvictionPolicy::DescendantFirst => !strictly_above(
                batch.path(c as int),
                batch.path(d),
            ),
            CompactEvictionPolicy::ResidentBudgetAncestorClosure => !strictly_above(
                batch.path(d),
                batch.path(c as int),
            ),
        } by {
            assert(marked(plan, d)) by {
                reveal(plan_marks);
            }
            let k = choose|k: int|
                0 <= k < plan.len() && (#[trigger] plan[k]).selected_candidate == Some(d as usize);
            assert(hit(plan, candidates, 0, live, k));
        }
    }
}

/// Position `j` of a single-path plan lies at or below position `k`, whose live
/// parent is given, and its mark is current.
spec fn chain_hit<U, V>(
    frames: Seq<ChainWalkFrame<U>>,
    candidates: Seq<CompactEvictionCandidate>,
    path: Seq<U>,
    k: int,
    live: Tree<U, V>,
    j: int,
) -> bool {
    &&& 0 <= k <= j < frames.len()
    &&& at(live, path.subrange(k, j + 1)) matches Some(node) && evictable(
        frames[j].selected_candidate,
        candidates,
        node,
    )
}

/// A hit that no other hit stands in the way of.
spec fn chain_wins<U, V>(
    policy: CompactEvictionPolicy,
    frames: Seq<ChainWalkFrame<U>>,
    candidates: Seq<CompactEvictionCandidate>,
    path: Seq<U>,
    k: int,
    live: Tree<U, V>,
    j: int,
) -> bool {
    &&& chain_hit(frames, candidates, path, k, live, j)
    &&& forall|m: int| #[trigger]
        chain_hit(frames, candidates, path, k, live, m) ==> match policy {
            CompactEvictionPolicy::DescendantFirst => m <= j,
            CompactEvictionPolicy::ResidentBudgetAncestorClosure => j <= m,
        }
}

/// What eviction replaces along a single path is what wins there.
proof fn lemma_evict_chain<U, V>(
    policy: CompactEvictionPolicy,
    frames: Seq<ChainWalkFrame<U>>,
    candidates: Seq<CompactEvictionCandidate>,
    path: Seq<U>,
    k: int,
    live: Tree<U, V>,
)
    requires
        frames.len() == path.len(),
        forall|j: int| 0 <= j < frames.len() ==> (#[trigger] frames[j]).edge == path[j],
        0 <= k <= frames.len(),
    ensures
        match evict_chain(policy, frames, candidates, k, live).1 {
            Some(x) => exists|j: int| #[trigger]
                chain_wins(policy, frames, candidates, path, k, live, j)
                    && frames[j].selected_candidate == Some(x),
            None => forall|j: int| !#[trigger] chain_hit(frames, candidates, path, k, live, j),
        },
    decreases frames.len() - k,
{
    if k < frames.len() {
        let unit = frames[k].edge;
        assert forall|j: int| k <= j < frames.len() implies #[trigger] chain_hit(
            frames,
            candidates,
            path,
            k,
            live,
            j,
        ) == match kid(live, unit) {
            Some(Branch::InMem(child)) => if j == k {
                evictable(frames[k].selected_candidate, candidates, child)
            } else {
                chain_hit(frames, candidates, path, k + 1, child, j)
            },
            _ => false,
        } by {
            let down = path.subrange(k, j + 1);
            assert(down[0] == unit);
            assert(down.drop_first() =~= path.subrange(k + 1, j + 1));
            match kid(live, unit) {
                Some(Branch::InMem(child)) => {
                    assert(at(live, down) == at(child, down.drop_first()));
                },
                _ => {
                    assert(at(live, down) is None);
                },
            }
        }
        match kid(live, unit) {
            Some(Branch::InMem(child)) => {
                lemma_evict_chain(policy, frames, candidates, path, k + 1, child);
                let below = evict_chain(policy, frames, candidates, k + 1, child).1;
                let own = evictable(frames[k].selected_candidate, candidates, child);
                assert forall|j: int| #[trigger]
                    chain_hit(frames, candidates, path, k, live, j) implies (j == k && own)
                    || chain_hit(frames, candidates, path, k + 1, child, j) by {}
                assert forall|j: int| #[trigger]
                    chain_hit(frames, candidates, path, k + 1, child, j) implies chain_hit(
                    frames,
                    candidates,
                    path,
                    k,
                    live,
                    j,
                ) by {
                    assert(chain_hit(frames, candidates, path, k, live, j) == chain_hit(
                        frames,
                        candidates,
                        path,
                        k + 1,
                        child,
                        j,
                    ));
                }
                if own && (policy == CompactEvictionPolicy::ResidentBudgetAncestorClosure
                    || below is None) {
                    assert(chain_hit(frames, candidates, path, k, live, k));
                    assert(chain_wins(policy, frames, candidates, path, k, live, k));
                } else if below is Some {
                    let j = choose|j: int| #[trigger]
                        chain_wins(policy, frames, candidates, path, k + 1, child, j)
                            && frames[j].selected_candidate == below;
                    assert(chain_hit(frames, candidates, path, k, live, j));
                    assert(chain_wins(policy, frames, candidates, path, k, live, j));
                }
            },
            _ => {
                assert forall|j: int| !#[trigger]
                    chain_hit(frames, candidates, path, k, live, j) by {}
            },
        }
    }
}

/// A batch whose candidates lie on one path evicts its one winner, if it has one,
/// and nothing else. The depths that the candidates state are those of their paths.
pub proof fn chain_evicts_its_winner<U: Copy, V>(
    policy: CompactEvictionPolicy,
    frames: Seq<ChainWalkFrame<U>>,
    batch: CompactEvictionBatch<U>,
    d: int,
    live: Tree<U, V>,
    c: usize,
)
    requires
        chain_through(batch, d),
        chain_plans(frames, batch, d),
        forall|i: int|
            0 <= i < batch.candidates@.len() ==> (#[trigger] batch.candidates@[i]).depth
                == batch.path(i).len(),
        c < batch.candidates@.len(),
    ensures
        (evict_chain(policy, frames, batch.candidates@, 0, live).1 == Some(c)) == winner(
            policy,
            batch,
            live,
            c as int,
        ),
{
    let candidates = batch.candidates@;
    let path = batch.path(d);
    assert(batch.candidates@.len() == batch.candidates.len());
    lemma_evict_chain(policy, frames, candidates, path, 0, live);
    // The mark at a candidate's depth is the candidate, and a hit exactly if it is
    // current.
    assert forall|i: int| 0 <= i < candidates.len() implies {
        let j = candidates[i].depth - 1;
        &&& 0 <= j < frames.len()
        &&& frames[j].selected_candidate == Some(i as usize)
        &&& #[trigger] batch.path(i) == path.take(j + 1)
        &&& chain_hit(frames, candidates, path, 0, live, j) == current(batch, live, i)
    } by {
        lemma_ancestor_depth(
            batch.topology.entries@,
            candidates[i].path_id.ordinal as int,
            candidates[d].path_id.ordinal as int,
        );
        assert(candidates[i].depth == batch.path(i).len());
        assert(candidates[d].depth == path.len());
        let j = candidates[i].depth - 1;
        assert(batch.path(i) =~= path.take(j + 1));
        assert(path.subrange(0, j + 1) =~= path.take(j + 1));
        match frames[j].selected_candidate {
            Some(x) => {
                assert(candidates[x as int].depth == candidates[i].depth);
                if x < i {
                    assert(candidates[x as int].depth != candidates[i].depth);
                }
                if i < x {
                    assert(candidates[i].depth != candidates[x as int].depth);
                }
                assert(x == i);
            },
            None => {
                assert(none_at_depth(batch, j + 1));
            },
        }
    }
    assert forall|j: int| #[trigger] chain_hit(frames, candidates, path, 0, live, j) implies {
        let i = frames[j].selected_candidate->0 as int;
        &&& current(batch, live, i)
        &&& batch.path(i) == path.take(j + 1)
    } by {
        let i = frames[j].selected_candidate->0 as int;
        assert(candidates[i].depth == j + 1);
        assert(batch.path(i) == path.take(j + 1));
    }
    assert forall|a: int, b: int| 0 <= a < path.len() && 0 <= b < path.len() implies
        #[trigger] strictly_above(path.take(a + 1), path.take(b + 1)) == (a < b) by {
        if a < b {
            assert(path.take(a + 1) =~= path.take(b + 1).take(a + 1));
        }
    }
    let at_c = candidates[c as int].depth - 1;
    assert(batch.path(c as int) == path.take(at_c + 1));
    if winner(policy, batch, live, c as int) {
        assert(chain_hit(frames, candidates, path, 0, live, at_c));
        let x = evict_chain(policy, frames, candidates, 0, live).1->0;
        let j = choose|j: int| #[trigger]
            chain_wins(policy, frames, candidates, path, 0, live, j)
                && frames[j].selected_candidate == Some(x);
        assert(chain_hit(frames, candidates, path, 0, live, j));
        assert(current(batch, live, x as int));
        assert(strictly_above(path.take(at_c + 1), path.take(j + 1)) == (at_c < j));
        assert(strictly_above(path.take(j + 1), path.take(at_c + 1)) == (j < at_c));
        assert(j == at_c);
    }
    if evict_chain(policy, frames, candidates, 0, live).1 == Some(c) {
        let j = choose|j: int| #[trigger]
            chain_wins(policy, frames, candidates, path, 0, live, j)
                && frames[j].selected_candidate == Some(c);
        assert(chain_hit(frames, candidates, path, 0, live, j));
        assert forall|e: int| #[trigger] current(batch, live, e) implies match policy {
            CompactEvictionPolicy::DescendantFirst => !strictly_above(
                batch.path(c as int),
                batch.path(e),
            ),
            CompactEvictionPolicy::ResidentBudgetAncestorClosure => !strictly_above(
                batch.path(e),
                batch.path(c as int),
            ),
        } by {
            let m = candidates[e].depth - 1;
            assert(batch.path(e) == path.take(m + 1));
            assert(chain_hit(frames, candidates, path, 0, live, m));
            assert(strictly_above(path.take(j + 1), path.take(m + 1)) == (j < m));
            assert(strictly_above(path.take(m + 1), path.take(j + 1)) == (m < j));
        }
    }
}

/// A number that one of the first `n` numbers got.
pub open spec fn numbered(renumbered: spec_fn(int) -> int, n: int, k: int) -> bool {
    exists|i: int| 0 <= i < n && #[trigger] renumbered(i) == k
}

/// The order of candidates does not matter: two batches that name the same records
/// under the same paths have the same winners.
pub proof fn winners_do_not_depend_on_order<U: Copy, V>(
    policy: CompactEvictionPolicy,
    a: CompactEvictionBatch<U>,
    b: CompactEvictionBatch<U>,
    renumbered: spec_fn(int) -> int,
    live: Tree<U, V>,
    c: int,
)
    requires
        a.candidates@.len() == b.candidates@.len(),
        forall|i: int|
            0 <= i < a.candidates@.len() ==> {
                let k = #[trigger] renumbered(i);
                &&& 0 <= k < b.candidates@.len()
                &&& b.path(k) == a.path(i)
                &&& b.candidates@[k].disk_ptr == a.candidates@[i].disk_ptr
            },
        forall|k: int|
            0 <= k < b.candidates@.len() ==> #[trigger] numbered(
                renumbered,
                a.candidates@.len() as int,
                k,
            ),
        0 <= c < a.candidates@.len(),
    ensures
        winner(policy, a, live, c) == winner(policy, b, live, renumbered(c)),
{
    assert forall|i: int| 0 <= i < a.candidates@.len() implies current(a, live, i) == current(
        b,
        live,
        #[trigger] renumbered(i),
    ) by {}
    if winner(policy, a, live, c) {
        assert forall|d: int| #[trigger] current(b, live, d) implies match policy {
            CompactEvictionPolicy::DescendantFirst => !strictly_above(
                b.path(renumbered(c)),
                b.path(d),
            ),
            CompactEvictionPolicy::ResidentBudgetAncestorClosure => !strictly_above(
                b.path(d),
                b.path(renumbered(c)),
            ),
        } by {
            assert(numbered(renumbered, a.candidates@.len() as int, d));
            let i = choose|i: int| 0 <= i < a.candidates@.len() && #[trigger] renumbered(i) == d;
            assert(current(a, live, i));
        }
    }
    if winner(policy, b, live, renumbered(c)) {
        assert forall|d: int| #[trigger] current(a, live, d) implies match policy {
            CompactEvictionPolicy::DescendantFirst => !strictly_above(a.path(c), a.path(d)),
            CompactEvictionPolicy::ResidentBudgetAncestorClosure => !strictly_above(
                a.path(d),
                a.path(c),
            ),
        } by {
            assert(current(b, live, renumbered(d)));
        }
    }
}

} // verus!
