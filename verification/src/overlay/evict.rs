//! Replacing resident subtrees by their durable records.

use std::sync::Arc;
use vstd::prelude::*;
use crate::eviction::{CompactEvictionBatch, CompactEvictionCandidate, CompactEvictionPolicy};
use crate::key_encoding::KeyEncoding;
use crate::shared::share;
use crate::swizzled_ptr::SwizzledPtr;
use crate::value::DictionaryValue;
use super::evict_plan::{lemma_plan_child, plan_wf, BatchPlanNode};
use super::indices::SuccessfulCandidateIndices;
use super::model::kid;
use super::node::{branches, Branch, Child, OverlayNode, Tree};

verus! {

/// The selected record of a plan node is the one that the live node was written
/// as.
pub open spec fn evictable<U, V>(
    selected: Option<usize>,
    candidates: Seq<CompactEvictionCandidate>,
    live: Tree<U, V>,
) -> bool {
    selected matches Some(c) && c < candidates.len() && candidates[c as int].disk_ptr.location() is Some
        && live.stamp == candidates[c as int].disk_ptr.raw
}

/// What eviction makes of a live node along a plan: the copy, and the candidates
/// that were replaced.
pub open spec fn evict_node<U, V>(
    policy: CompactEvictionPolicy,
    plan: Seq<BatchPlanNode<U>>,
    candidates: Seq<CompactEvictionCandidate>,
    i: int,
    live: Tree<U, V>,
) -> (Tree<U, V>, Seq<usize>)
    decreases plan.len() - i, plan[i].children@.len() + 1,
{
    let (replacements, evicted) = evict_kids(
        policy,
        plan,
        candidates,
        i,
        plan[i].children@.len(),
        live,
    );
    if evicted.len() == 0 {
        (live, evicted)
    } else {
        (live.replaced(replacements, evicted.len() as int), evicted)
    }
}

/// The replaced branches of a live node along the first `n` children of a plan
/// node. A selected child whose record is current is replaced by it: always when
/// ancestors go first, and unless something below it was replaced when
/// descendants do. Any other child is replaced by its copy when something below
/// it was replaced.
pub open spec fn evict_kids<U, V>(
    policy: CompactEvictionPolicy,
    plan: Seq<BatchPlanNode<U>>,
    candidates: Seq<CompactEvictionCandidate>,
    i: int,
    n: nat,
    live: Tree<U, V>,
) -> (Seq<(U, Branch<U, V>)>, Seq<usize>)
    decreases plan.len() - i, n,
{
    if n == 0 || n > plan[i].children@.len() {
        (Seq::empty(), Seq::empty())
    } else {
        let (replacements, evicted) = evict_kids(policy, plan, candidates, i, (n - 1) as nat, live);
        let c = plan[i].children@[n - 1] as int;
        let unit = plan[c].edge->0;
        if c <= i || c >= plan.len() {
            (replacements, evicted)
        } else {
            match kid(live, unit) {
                Some(Branch::InMem(child)) => {
                    let (copy, below) = evict_node(policy, plan, candidates, c, child);
                    let selected = plan[c].selected_candidate;
                    if evictable(selected, candidates, child) && (policy
                        == CompactEvictionPolicy::ResidentBudgetAncestorClosure || below.len() == 0) {
                        (
                            replacements.push(
                                (unit, Branch::OnDisk(candidates[selected->0 as int].disk_ptr)),
                            ),
                            evicted.push(selected->0),
                        )
                    } else if below.len() > 0 {
                        (replacements.push((unit, Branch::InMem(copy))), evicted + below)
                    } else {
                        (replacements, evicted)
                    }
                },
                _ => (replacements, evicted),
            }
        }
    }
}

/// The marks of a plan name candidates.
pub open spec fn marks_in_range<U>(plan: Seq<BatchPlanNode<U>>, n: nat) -> bool {
    forall|i: int|
        0 <= i < plan.len() ==> match (#[trigger] plan[i]).selected_candidate {
            Some(c) => c < n,
            None => true,
        }
}

/// Work that a plan node takes: one step in, one step out, and its children.
spec fn plan_work<U>(plan: Seq<BatchPlanNode<U>>, i: int) -> nat
    decreases plan.len() - i, plan[i].children@.len() + 1,
{
    2 + kids_work(plan, i, plan[i].children@.len())
}

/// Work that the last `n` children of a plan node take.
spec fn kids_work<U>(plan: Seq<BatchPlanNode<U>>, i: int, n: nat) -> nat
    decreases plan.len() - i, n,
{
    if n == 0 || n > plan[i].children@.len() {
        0
    } else {
        let c = plan[i].children@[plan[i].children@.len() - n] as int;
        kids_work(plan, i, (n - 1) as nat) + if i < c < plan.len() {
            plan_work(plan, c)
        } else {
            0
        }
    }
}

/// A live node under way: how many of its plan children are done, what they
/// replaced, and how many candidates had been replaced before it.
struct BatchWalkFrame<K: KeyEncoding, V> {
    plan_index: usize,
    live: Arc<OverlayNode<K, V>>,
    done: usize,
    replacements: Vec<(K::Unit, Child<K, V>)>,
    start: usize,
}

/// Work left in the frames of unfinished ancestors, and in the last frame.
spec fn frames_work<K: KeyEncoding, V>(
    plan: Seq<BatchPlanNode<K::Unit>>,
    frames: Seq<BatchWalkFrame<K, V>>,
    entered: bool,
) -> nat
    decreases frames.len(),
{
    if frames.len() == 0 {
        0
    } else {
        let frame = frames.last();
        let left = plan[frame.plan_index as int].children@.len() - frame.done - (if entered {
            1int
        } else {
            0
        });
        1 + kids_work(
            plan,
            frame.plan_index as int,
            if left >= 0 {
                left as nat
            } else {
                0
            },
        ) + frames_work(plan, frames.drop_last(), true)
    }
}

/// The candidates that a frame's finished children replaced.
spec fn frame_evicted<K: KeyEncoding, V>(
    frames: Seq<BatchWalkFrame<K, V>>,
    successful: Seq<usize>,
    k: int,
) -> Seq<usize> {
    successful.subrange(
        frames[k].start as int,
        if k + 1 < frames.len() {
            frames[k + 1].start as int
        } else {
            successful.len() as int
        },
    )
}

/// What holds of one frame.
#[verifier::opaque]
spec fn frame_ok<K: KeyEncoding, V>(
    policy: CompactEvictionPolicy,
    plan: Seq<BatchPlanNode<K::Unit>>,
    candidates: Seq<CompactEvictionCandidate>,
    frame: BatchWalkFrame<K, V>,
    evicted: Seq<usize>,
) -> bool {
    &&& frame.plan_index < plan.len()
    &&& frame.live.wf()
    &&& frame.done <= plan[frame.plan_index as int].children@.len()
    &&& (branches(frame.replacements@), evicted) == evict_kids(
        policy,
        plan,
        candidates,
        frame.plan_index as int,
        frame.done as nat,
        frame.live@,
    )
    &&& forall|r: int|
        0 <= r < frame.replacements@.len() ==> {
            &&& frame.live@.kids.dom().contains((#[trigger] frame.replacements@[r]).0)
            &&& match frame.replacements@[r].1 {
                Child::InMem(node) => node.wf(),
                Child::OnDisk(_) => true,
            }
        }
}

/// A frame is the next plan child of the frame below it.
#[verifier::opaque]
spec fn frame_link<K: KeyEncoding, V>(
    policy: CompactEvictionPolicy,
    plan: Seq<BatchPlanNode<K::Unit>>,
    candidates: Seq<CompactEvictionCandidate>,
    parent: BatchWalkFrame<K, V>,
    frame: BatchWalkFrame<K, V>,
) -> bool {
    let p = parent.plan_index as int;
    &&& parent.done < plan[p].children@.len()
    &&& plan[p].children@[parent.done as int] == frame.plan_index
    &&& kid(parent.live@, plan[frame.plan_index as int].edge->0) == Some(
        Branch::InMem(frame.live@),
    )
    &&& policy == CompactEvictionPolicy::ResidentBudgetAncestorClosure ==> !evictable(
        plan[frame.plan_index as int].selected_candidate,
        candidates,
        frame.live@,
    )
}

/// Frame `k` is as it should be.
spec fn frame_fine<K: KeyEncoding, V>(
    policy: CompactEvictionPolicy,
    plan: Seq<BatchPlanNode<K::Unit>>,
    candidates: Seq<CompactEvictionCandidate>,
    frames: Seq<BatchWalkFrame<K, V>>,
    successful: Seq<usize>,
    k: int,
) -> bool {
    frame_ok(policy, plan, candidates, frames[k], frame_evicted(frames, successful, k))
}

/// The frame above frame `k` is its next plan child.
spec fn frame_linked<K: KeyEncoding, V>(
    policy: CompactEvictionPolicy,
    plan: Seq<BatchPlanNode<K::Unit>>,
    candidates: Seq<CompactEvictionCandidate>,
    frames: Seq<BatchWalkFrame<K, V>>,
    k: int,
) -> bool {
    frame_link(policy, plan, candidates, frames[k], frames[k + 1])
}

/// What holds of the whole stack.
#[verifier::opaque]
spec fn stack_ok<K: KeyEncoding, V>(
    policy: CompactEvictionPolicy,
    plan: Seq<BatchPlanNode<K::Unit>>,
    candidates: Seq<CompactEvictionCandidate>,
    frames: Seq<BatchWalkFrame<K, V>>,
    successful: Seq<usize>,
    root: Tree<K::Unit, V>,
) -> bool {
    &&& frames.len() > 0 ==> frames[0].plan_index == 0 && frames[0].live@ == root
        && frames[0].start == 0
    &&& forall|a: int, b: int|
        0 <= a <= b < frames.len() ==> (#[trigger] frames[a]).start <= (
        #[trigger] frames[b]).start <= successful.len()
    &&& forall|k: int|
        0 <= k < frames.len() ==> #[trigger] frame_fine(
            policy,
            plan,
            candidates,
            frames,
            successful,
            k,
        )
    &&& forall|k: int|
        0 <= k < frames.len() - 1 ==> #[trigger] frame_linked(policy, plan, candidates, frames, k)
}

/// The last frame satisfies its own condition.
proof fn lemma_stack_top<K: KeyEncoding, V>(
    policy: CompactEvictionPolicy,
    plan: Seq<BatchPlanNode<K::Unit>>,
    candidates: Seq<CompactEvictionCandidate>,
    frames: Seq<BatchWalkFrame<K, V>>,
    successful: Seq<usize>,
    root: Tree<K::Unit, V>,
)
    requires
        frames.len() > 0,
        stack_ok(policy, plan, candidates, frames, successful, root),
    ensures
        frames.last().start <= successful.len(),
        frame_ok(
            policy,
            plan,
            candidates,
            frames.last(),
            successful.skip(frames.last().start as int),
        ),
        frames.len() == 1 ==> frames.last().plan_index == 0 && frames.last().live@ == root
            && frames.last().start == 0,
        frames.len() > 1 ==> frame_link(
            policy,
            plan,
            candidates,
            frames[frames.len() - 2],
            frames.last(),
        ),
{
    reveal(stack_ok);
    let k = frames.len() - 1;
    assert(frame_fine(policy, plan, candidates, frames, successful, k));
    assert(frames[k].start <= frames[k].start <= successful.len());
    assert(frame_evicted(frames, successful, k) =~= successful.skip(frames.last().start as int));
    if frames.len() > 1 {
        assert(frame_linked(policy, plan, candidates, frames, k - 1));
    }
}

/// Replacing the last frame by a later state of itself.
proof fn lemma_stack_advance<K: KeyEncoding, V>(
    policy: CompactEvictionPolicy,
    plan: Seq<BatchPlanNode<K::Unit>>,
    candidates: Seq<CompactEvictionCandidate>,
    frames: Seq<BatchWalkFrame<K, V>>,
    successful: Seq<usize>,
    root: Tree<K::Unit, V>,
    after: BatchWalkFrame<K, V>,
    grown: Seq<usize>,
)
    requires
        frames.len() > 0,
        stack_ok(policy, plan, candidates, frames, successful, root),
        after.plan_index == frames.last().plan_index,
        after.live@ == frames.last().live@,
        after.start == frames.last().start,
        successful.len() <= grown.len(),
        grown.take(frames.last().start as int) == successful.take(frames.last().start as int),
        frame_ok(policy, plan, candidates, after, grown.skip(after.start as int)),
    ensures
        stack_ok(policy, plan, candidates, frames.drop_last().push(after), grown, root),
{
    reveal(stack_ok);
    let next = frames.drop_last().push(after);
    let last = frames.len() - 1;
    let s = frames.last().start as int;
    assert(frames[last].start <= frames[last].start <= successful.len());
    assert forall|k: int| 0 <= k < next.len() implies (#[trigger] next[k]).start == frames[k].start by {}
    assert forall|x: int| 0 <= x < s implies grown[x] == successful[x] by {
        assert(grown.take(s)[x] == successful.take(s)[x]);
    }
    assert forall|k: int| 0 <= k < next.len() implies #[trigger] frame_fine(
        policy,
        plan,
        candidates,
        next,
        grown,
        k,
    ) by {
        if k == last {
            assert(frame_evicted(next, grown, k) =~= grown.skip(after.start as int));
        } else {
            assert(next[k] == frames[k]);
            assert(frame_fine(policy, plan, candidates, frames, successful, k));
            assert(frames[k + 1].start <= frames[last].start);
            assert(frames[k].start <= frames[k + 1].start);
            assert(next[k + 1].start == frames[k + 1].start);
            assert(frame_evicted(next, grown, k) =~= frame_evicted(frames, successful, k));
        }
    }
    assert forall|k: int| 0 <= k < next.len() - 1 implies #[trigger] frame_linked(
        policy,
        plan,
        candidates,
        next,
        k,
    ) by {
        assert(frame_linked(policy, plan, candidates, frames, k));
        assert(next[k] == frames[k]);
        reveal(frame_link);
    }
}

/// Entering the next plan child of the last frame.
proof fn lemma_stack_enter<K: KeyEncoding, V>(
    policy: CompactEvictionPolicy,
    plan: Seq<BatchPlanNode<K::Unit>>,
    candidates: Seq<CompactEvictionCandidate>,
    frames: Seq<BatchWalkFrame<K, V>>,
    successful: Seq<usize>,
    root: Tree<K::Unit, V>,
    child: BatchWalkFrame<K, V>,
)
    requires
        frames.len() > 0,
        stack_ok(policy, plan, candidates, frames, successful, root),
        frame_link(policy, plan, candidates, frames.last(), child),
        child.start == successful.len(),
        frame_ok(policy, plan, candidates, child, Seq::empty()),
    ensures
        stack_ok(policy, plan, candidates, frames.push(child), successful, root),
{
    reveal(stack_ok);
    let next = frames.push(child);
    assert forall|a: int, b: int| 0 <= a <= b < next.len() implies (#[trigger] next[a]).start <= (
    #[trigger] next[b]).start <= successful.len() by {
        if a < frames.len() {
            assert(next[a] == frames[a]);
            assert(frames[a].start <= frames[a].start <= successful.len());
        }
        if b < frames.len() {
            assert(next[b] == frames[b]);
        }
    }
    assert forall|k: int| 0 <= k < next.len() implies #[trigger] frame_fine(
        policy,
        plan,
        candidates,
        next,
        successful,
        k,
    ) by {
        if k < frames.len() {
            assert(next[k] == frames[k]);
            assert(frame_fine(policy, plan, candidates, frames, successful, k));
            assert(frame_evicted(next, successful, k) =~= frame_evicted(frames, successful, k));
        } else {
            assert(frame_evicted(next, successful, k) =~= Seq::empty());
        }
    }
    assert forall|k: int| 0 <= k < next.len() - 1 implies #[trigger] frame_linked(
        policy,
        plan,
        candidates,
        next,
        k,
    ) by {
        if k + 1 < frames.len() {
            assert(frame_linked(policy, plan, candidates, frames, k));
        }
    }
}

/// Leaving the last frame makes its parent last.
proof fn lemma_stack_leave<K: KeyEncoding, V>(
    policy: CompactEvictionPolicy,
    plan: Seq<BatchPlanNode<K::Unit>>,
    candidates: Seq<CompactEvictionCandidate>,
    frames: Seq<BatchWalkFrame<K, V>>,
    successful: Seq<usize>,
    root: Tree<K::Unit, V>,
)
    requires
        frames.len() > 1,
        stack_ok(policy, plan, candidates, frames, successful, root),
    ensures
        stack_ok(
            policy,
            plan,
            candidates,
            frames.drop_last(),
            successful.take(frames.last().start as int),
            root,
        ),
        frames[frames.len() - 2].start <= frames.last().start,
{
    reveal(stack_ok);
    let next = frames.drop_last();
    let last = frames.len() - 1;
    assert(frames[last - 1].start <= frames[last].start <= successful.len());
    let shorter = successful.take(frames.last().start as int);
    assert forall|a: int, b: int| 0 <= a <= b < next.len() implies (#[trigger] next[a]).start <= (
    #[trigger] next[b]).start <= shorter.len() by {
        assert(next[a] == frames[a] && next[b] == frames[b]);
        assert(frames[b].start <= frames[last].start);
    }
    assert forall|k: int| 0 <= k < next.len() implies #[trigger] frame_fine(
        policy,
        plan,
        candidates,
        next,
        shorter,
        k,
    ) by {
        assert(next[k] == frames[k]);
        assert(frame_fine(policy, plan, candidates, frames, successful, k));
        assert(frames[k].start <= frames[k + 1].start);
        assert(frames[k + 1].start <= frames[last].start);
        assert(frame_evicted(next, shorter, k) =~= frame_evicted(frames, successful, k));
    }
    assert forall|k: int| 0 <= k < next.len() - 1 implies #[trigger] frame_linked(
        policy,
        plan,
        candidates,
        next,
        k,
    ) by {
        assert(frame_linked(policy, plan, candidates, frames, k));
    }
}

/// As many branches are replaced as needed: none exactly when no candidate is.
proof fn lemma_evict_kids_empty<U, V>(
    policy: CompactEvictionPolicy,
    plan: Seq<BatchPlanNode<U>>,
    candidates: Seq<CompactEvictionCandidate>,
    i: int,
    n: nat,
    live: Tree<U, V>,
)
    ensures
        ({
            let (replacements, evicted) = evict_kids(policy, plan, candidates, i, n, live);
            (replacements.len() == 0) == (evicted.len() == 0)
        }),
    decreases n,
{
    if n > 0 && n <= plan[i].children@.len() {
        lemma_evict_kids_empty(policy, plan, candidates, i, (n - 1) as nat, live);
    }
}

/// The selected record of a plan node, if the live node was written as it.
fn current_record<K: KeyEncoding, V: DictionaryValue>(
    selected: Option<usize>,
    batch: &CompactEvictionBatch<K::Unit>,
    live: &OverlayNode<K, V>,
) -> (r: Option<(usize, SwizzledPtr)>)
    requires
        selected matches Some(c) ==> c < batch.candidates@.len(),
    ensures
        match r {
            Some((c, ptr)) => {
                &&& evictable(selected, batch.candidates@, live@)
                &&& selected == Some(c)
                &&& ptr == batch.candidates@[c as int].disk_ptr
            },
            None => !evictable(selected, batch.candidates@, live@),
        },
{
    match selected {
        Some(c) => {
            let ptr = batch.candidates[c].disk_ptr;
            if ptr.disk_location().is_some() && live.durable_stamp() == ptr.to_raw() {
                Some((c, ptr))
            } else {
                None
            }
        },
        None => None,
    }
}

/// Adding a replacement to a frame whose next plan child is done.
proof fn lemma_frame_push<K: KeyEncoding, V>(
    policy: CompactEvictionPolicy,
    plan: Seq<BatchPlanNode<K::Unit>>,
    candidates: Seq<CompactEvictionCandidate>,
    before: BatchWalkFrame<K, V>,
    after: BatchWalkFrame<K, V>,
    entry: (K::Unit, Child<K, V>),
    evicted: Seq<usize>,
    grown: Seq<usize>,
)
    requires
        frame_ok(policy, plan, candidates, before, evicted),
        before.done < plan[before.plan_index as int].children@.len(),
        after.plan_index == before.plan_index,
        after.live == before.live,
        after.done == before.done + 1,
        after.replacements@ == before.replacements@.push(entry),
        before.live@.kids.dom().contains(entry.0),
        entry.1 matches Child::InMem(node) ==> node.wf(),
        evict_kids(
            policy,
            plan,
            candidates,
            after.plan_index as int,
            after.done as nat,
            after.live@,
        ) == (branches(before.replacements@).push((entry.0, entry.1.branch())), grown),
    ensures
        frame_ok(policy, plan, candidates, after, grown),
{
    reveal(frame_ok);
    assert(branches(after.replacements@) =~= branches(before.replacements@).push(
        (entry.0, entry.1.branch()),
    ));
    assert forall|r: int| 0 <= r < after.replacements@.len() implies {
        &&& after.live@.kids.dom().contains((#[trigger] after.replacements@[r]).0)
        &&& match after.replacements@[r].1 {
            Child::InMem(node) => node.wf(),
            Child::OnDisk(_) => true,
        }
    } by {
        if r < before.replacements@.len() {
            assert(after.replacements@[r] == before.replacements@[r]);
        }
    }
}

/// Walks a plan over a live root and copies what it replaces, without native
/// recursion. The replaced candidates are left in `successful`.
fn build_replacement<K: KeyEncoding, V: DictionaryValue>(
    policy: CompactEvictionPolicy,
    old_root: &Arc<OverlayNode<K, V>>,
    plan: &Vec<BatchPlanNode<K::Unit>>,
    batch: &CompactEvictionBatch<K::Unit>,
    successful: &mut SuccessfulCandidateIndices,
) -> (r: Option<Arc<OverlayNode<K, V>>>)
    requires
        old_root.wf(),
        plan_wf(plan@),
        plan@.len() >= 1,
        marks_in_range(plan@, batch.candidates@.len()),
    ensures
        ({
            let (tree, evicted) = evict_node(policy, plan@, batch.candidates@, 0, old_root@);
            &&& final(successful)@ == evicted
            &&& match r {
                Some(root) => evicted.len() > 0 && root.wf() && root@ == tree,
                None => evicted.len() == 0,
            }
        }),
{
    let ghost candidates = batch.candidates@;
    successful.clear();
    let mut frames: Vec<BatchWalkFrame<K, V>> = Vec::new();
    frames.push(
        BatchWalkFrame {
            plan_index: 0,
            live: share(old_root),
            done: 0,
            replacements: Vec::new(),
            start: 0,
        },
    );
    proof {
        reveal(stack_ok);
        reveal(frame_ok);
        reveal(frame_link);
        assert(branches(frames@[0].replacements@) =~= Seq::empty());
        assert(frame_evicted(frames@, successful@, 0) =~= Seq::empty());
    }
    loop
        invariant
            frames@.len() > 0,
            candidates == batch.candidates@,
            plan_wf(plan@),
            plan@.len() >= 1,
            marks_in_range(plan@, batch.candidates@.len()),
            stack_ok(policy, plan@, candidates, frames@, successful@, old_root@),
        decreases frames_work(plan@, frames@, false),
    {
        let ghost stack = frames@;
        let ghost found = successful@;
        proof {
            reveal(frame_ok);
            reveal(frame_link);
            lemma_stack_top(policy, plan@, candidates, stack, found, old_root@);
        }
        let mut frame: BatchWalkFrame<K, V> = match frames.pop() {
            Some(frame) => frame,
            None => {
                return None;
            },
        };
        let ghost before = frame;
        assert(before == stack.last());
        assert(frames@ =~= stack.drop_last());
        let p: usize = frame.plan_index;
        let node = &plan[p];
        if frame.done < node.children.len() {
            let child_index: usize = node.children[frame.done];
            proof {
                lemma_plan_child(plan@, p as int, frame.done as int);
            }
            let child_plan = &plan[child_index];
            let unit: K::Unit = match &child_plan.edge {
                Some(unit) => *unit,
                None => {
                    return None;
                },
            };
            let child: Option<Arc<OverlayNode<K, V>>> = match frame.live.find_child(unit) {
                Some(Child::InMem(child)) => Some(share(child)),
                _ => None,
            };
            match child {
                None => {
                    frame.done += 1;
                    proof {
                        lemma_stack_advance(
                            policy,
                            plan@,
                            candidates,
                            stack,
                            found,
                            old_root@,
                            frame,
                            found,
                        );
                        lemma_work_advance(plan@, stack, frame, false);
                    }
                    frames.push(frame);
                },
                Some(child) => {
                    let record: Option<(usize, SwizzledPtr)> = match policy {
                        CompactEvictionPolicy::ResidentBudgetAncestorClosure => current_record(
                            child_plan.selected_candidate,
                            batch,
                            &*child,
                        ),
                        CompactEvictionPolicy::DescendantFirst => None,
                    };
                    match record {
                        Some((candidate, ptr)) => {
                            frame.replacements.push((unit, Child::OnDisk(ptr)));
                            frame.done += 1;
                            successful.push(candidate);
                            proof {
                                let evicted = found.skip(before.start as int);
                                assert(successful@.skip(before.start as int) =~= evicted.push(
                                    candidate,
                                ));
                                assert(successful@.take(before.start as int) =~= found.take(
                                    before.start as int,
                                ));
                                lemma_frame_push(
                                    policy,
                                    plan@,
                                    candidates,
                                    before,
                                    frame,
                                    (unit, Child::OnDisk(ptr)),
                                    evicted,
                                    evicted.push(candidate),
                                );
                                lemma_stack_advance(
                                    policy,
                                    plan@,
                                    candidates,
                                    stack,
                                    found,
                                    old_root@,
                                    frame,
                                    successful@,
                                );
                                lemma_work_advance(plan@, stack, frame, false);
                            }
                            frames.push(frame);
                        },
                        None => {
                            let entered = BatchWalkFrame {
                                plan_index: child_index,
                                live: child,
                                done: 0,
                                replacements: Vec::new(),
                                start: successful.len(),
                            };
                            proof {
                                assert(branches(entered.replacements@) =~= Seq::empty());
                                lemma_stack_enter(
                                    policy,
                                    plan@,
                                    candidates,
                                    stack,
                                    found,
                                    old_root@,
                                    entered,
                                );
                                lemma_work_enter(plan@, stack, entered);
                            }
                            frames.push(frame);
                            assert(frames@ =~= stack);
                            frames.push(entered);
                        },
                    }
                },
            }
        } else {
            let ghost evicted = found.skip(before.start as int);
            proof {
                lemma_evict_kids_empty(
                    policy,
                    plan@,
                    candidates,
                    p as int,
                    before.done as nat,
                    before.live@,
                );
            }
            let steps: usize = successful.len() - frame.start;
            let changed: bool = frame.replacements.len() > 0;
            let live: Arc<OverlayNode<K, V>> = frame.live;
            let copy: Arc<OverlayNode<K, V>> = if changed {
                match live.try_with_child_replacements(frame.replacements, steps) {
                    Ok(copy) => Arc::new(copy),
                    Err(_) => {
                        return None;
                    },
                }
            } else {
                share(&live)
            };
            assert((copy@, evicted) == evict_node(policy, plan@, candidates, p as int, live@));
            let parent: Option<BatchWalkFrame<K, V>> = frames.pop();
            match parent {
                None => {
                    assert(stack.len() == 1);
                    assert(evicted =~= found);
                    if changed {
                        return Some(copy);
                    }
                    return None;
                },
                Some(parent) => {
                    let mut parent = parent;
                    let ghost above = parent;
                    proof {
                        assert(above == stack[stack.len() - 2]);
                        assert(frames@ =~= stack.drop_last().drop_last());
                        lemma_stack_leave(policy, plan@, candidates, stack, found, old_root@);
                        lemma_stack_top(
                            policy,
                            plan@,
                            candidates,
                            stack.drop_last(),
                            found.take(before.start as int),
                            old_root@,
                        );
                        lemma_plan_child(plan@, above.plan_index as int, above.done as int);
                        assert(above.done < plan@[above.plan_index as int].children.len());
                    }
                    let unit: K::Unit = match &node.edge {
                        Some(unit) => *unit,
                        None => {
                            return None;
                        },
                    };
                    let ghost earlier = found.take(before.start as int).skip(above.start as int);
                    if changed {
                        parent.replacements.push((unit, Child::InMem(copy)));
                        parent.done += 1;
                        proof {
                            assert(found.skip(above.start as int) =~= earlier + evicted);
                            lemma_frame_push(
                                policy,
                                plan@,
                                candidates,
                                above,
                                parent,
                                (unit, Child::InMem(copy)),
                                earlier,
                                earlier + evicted,
                            );
                        }
                    } else {
                        assert(found =~= found.take(before.start as int));
                        match current_record(node.selected_candidate, batch, &*live) {
                            Some((candidate, ptr)) => {
                                parent.replacements.push((unit, Child::OnDisk(ptr)));
                                parent.done += 1;
                                successful.push(candidate);
                                proof {
                                    assert(successful@.skip(above.start as int) =~= earlier.push(
                                        candidate,
                                    ));
                                    lemma_frame_push(
                                        policy,
                                        plan@,
                                        candidates,
                                        above,
                                        parent,
                                        (unit, Child::OnDisk(ptr)),
                                        earlier,
                                        earlier.push(candidate),
                                    );
                                }
                            },
                            None => {
                                parent.done += 1;
                            },
                        }
                    }
                    proof {
                        assert(successful@.take(above.start as int) =~= found.take(
                            before.start as int,
                        ).take(above.start as int));
                        lemma_stack_advance(
                            policy,
                            plan@,
                            candidates,
                            stack.drop_last(),
                            found.take(before.start as int),
                            old_root@,
                            parent,
                            successful@,
                        );
                        lemma_work_leave(plan@, stack, parent);
                    }
                    frames.push(parent);
                },
            }
        }
    }
}

/// Finishing a plan child takes work away.
proof fn lemma_work_advance<K: KeyEncoding, V>(
    plan: Seq<BatchPlanNode<K::Unit>>,
    stack: Seq<BatchWalkFrame<K, V>>,
    frame: BatchWalkFrame<K, V>,
    entered: bool,
)
    requires
        plan_wf(plan),
        stack.len() > 0,
        stack.last().plan_index < plan.len(),
        stack.last().done < plan[stack.last().plan_index as int].children@.len(),
        frame.plan_index == stack.last().plan_index,
        frame.done == stack.last().done + 1,
    ensures
        frames_work(plan, stack.drop_last().push(frame), false) < frames_work(plan, stack, false),
{
    let next = stack.drop_last().push(frame);
    assert(next.drop_last() =~= stack.drop_last());
    let p = frame.plan_index as int;
    let len = plan[p].children@.len();
    lemma_plan_child(plan, p, stack.last().done as int);
    let left = (len - stack.last().done) as nat;
    assert(kids_work(plan, p, left) == kids_work(plan, p, (left - 1) as nat) + plan_work(
        plan,
        plan[p].children@[len - left] as int,
    ));
}

/// Entering a plan child takes one step.
proof fn lemma_work_enter<K: KeyEncoding, V>(
    plan: Seq<BatchPlanNode<K::Unit>>,
    stack: Seq<BatchWalkFrame<K, V>>,
    child: BatchWalkFrame<K, V>,
)
    requires
        plan_wf(plan),
        stack.len() > 0,
        stack.last().plan_index < plan.len(),
        stack.last().done < plan[stack.last().plan_index as int].children@.len(),
        child.plan_index == plan[stack.last().plan_index as int].children@[stack.last().done as int],
        child.done == 0,
    ensures
        frames_work(plan, stack.push(child), false) < frames_work(plan, stack, false),
{
    reveal_with_fuel(frames_work, 2);
    let next = stack.push(child);
    assert(next.drop_last() =~= stack);
    let p = stack.last().plan_index as int;
    let len = plan[p].children@.len();
    lemma_plan_child(plan, p, stack.last().done as int);
    let left = (len - stack.last().done) as nat;
    assert(kids_work(plan, p, left) == kids_work(plan, p, (left - 1) as nat) + plan_work(
        plan,
        plan[p].children@[len - left] as int,
    ));
}

/// Leaving a finished node takes one step.
proof fn lemma_work_leave<K: KeyEncoding, V>(
    plan: Seq<BatchPlanNode<K::Unit>>,
    stack: Seq<BatchWalkFrame<K, V>>,
    parent: BatchWalkFrame<K, V>,
)
    requires
        stack.len() > 1,
        parent.plan_index == stack[stack.len() - 2].plan_index,
        parent.done == stack[stack.len() - 2].done + 1,
    ensures
        frames_work(plan, stack.drop_last().drop_last().push(parent), false) < frames_work(
            plan,
            stack,
            false,
        ),
{
    reveal_with_fuel(frames_work, 3);
    let lower = stack.drop_last();
    let next = lower.drop_last().push(parent);
    assert(next.drop_last() =~= lower.drop_last());
    assert(lower.last() == stack[stack.len() - 2]);
}

/// Replaces the selected subtrees of a live root, descendants first.
pub fn build_batch_replacement_into<K: KeyEncoding, V: DictionaryValue>(
    old_root: &Arc<OverlayNode<K, V>>,
    plan: &Vec<BatchPlanNode<K::Unit>>,
    batch: &CompactEvictionBatch<K::Unit>,
    successful: &mut SuccessfulCandidateIndices,
) -> (r: Option<Arc<OverlayNode<K, V>>>)
    requires
        old_root.wf(),
        plan_wf(plan@),
        plan@.len() >= 1,
        marks_in_range(plan@, batch.candidates@.len()),
    ensures
        ({
            let (tree, evicted) = evict_node(
                CompactEvictionPolicy::DescendantFirst,
                plan@,
                batch.candidates@,
                0,
                old_root@,
            );
            &&& final(successful)@ == evicted
            &&& match r {
                Some(root) => evicted.len() > 0 && root.wf() && root@ == tree,
                None => evicted.len() == 0,
            }
        }),
{
    build_replacement(CompactEvictionPolicy::DescendantFirst, old_root, plan, batch, successful)
}

/// Replaces the selected subtrees of a live root, ancestors first.
pub fn build_batch_ancestor_replacement_into<K: KeyEncoding, V: DictionaryValue>(
    old_root: &Arc<OverlayNode<K, V>>,
    plan: &Vec<BatchPlanNode<K::Unit>>,
    batch: &CompactEvictionBatch<K::Unit>,
    successful: &mut SuccessfulCandidateIndices,
) -> (r: Option<Arc<OverlayNode<K, V>>>)
    requires
        old_root.wf(),
        plan_wf(plan@),
        plan@.len() >= 1,
        marks_in_range(plan@, batch.candidates@.len()),
    ensures
        ({
            let (tree, evicted) = evict_node(
                CompactEvictionPolicy::ResidentBudgetAncestorClosure,
                plan@,
                batch.candidates@,
                0,
                old_root@,
            );
            &&& final(successful)@ == evicted
            &&& match r {
                Some(root) => evicted.len() > 0 && root.wf() && root@ == tree,
                None => evicted.len() == 0,
            }
        }),
{
    build_replacement(
        CompactEvictionPolicy::ResidentBudgetAncestorClosure,
        old_root,
        plan,
        batch,
        successful,
    )
}

/// One edge of a plan that is a single path.
pub struct ChainWalkFrame<U> {
    pub edge: U,
    pub selected_candidate: Option<usize>,
}

/// What eviction makes of a live node along a single path: the copy, and the one
/// candidate that was replaced.
pub open spec fn evict_chain<U, V>(
    policy: CompactEvictionPolicy,
    frames: Seq<ChainWalkFrame<U>>,
    candidates: Seq<CompactEvictionCandidate>,
    k: int,
    live: Tree<U, V>,
) -> (Tree<U, V>, Option<usize>)
    decreases frames.len() - k,
{
    if k < 0 || k >= frames.len() {
        (live, None)
    } else {
        let unit = frames[k].edge;
        let selected = frames[k].selected_candidate;
        match kid(live, unit) {
            Some(Branch::InMem(child)) => {
                let (copy, below) = evict_chain(policy, frames, candidates, k + 1, child);
                if evictable(selected, candidates, child) && (policy
                    == CompactEvictionPolicy::ResidentBudgetAncestorClosure || below is None) {
                    (
                        live.replaced(
                            seq![
                                (unit, Branch::OnDisk(candidates[selected->0 as int].disk_ptr)),
                            ],
                            1,
                        ),
                        selected,
                    )
                } else if below is Some {
                    (live.replaced(seq![(unit, Branch::InMem(copy))], 1), below)
                } else {
                    (live, None)
                }
            },
            _ => (live, None),
        }
    }
}

/// The marks of a single-path plan name candidates.
pub open spec fn chain_marks_in_range<U>(frames: Seq<ChainWalkFrame<U>>, n: nat) -> bool {
    forall|i: int|
        0 <= i < frames.len() ==> match (#[trigger] frames[i]).selected_candidate {
            Some(c) => c < n,
            None => true,
        }
}

/// A copy of `parent` in which one edge leads to `child`.
fn relink<K: KeyEncoding, V: DictionaryValue>(
    parent: &OverlayNode<K, V>,
    unit: K::Unit,
    child: Child<K, V>,
) -> (r: Option<Arc<OverlayNode<K, V>>>)
    requires
        parent.wf(),
        child matches Child::InMem(node) ==> node.wf(),
        parent@.kids.dom().contains(unit),
    ensures
        (r matches Some(node) && node.wf() && node@ == parent@.replaced(
            seq![(unit, child.branch())],
            1,
        )),
{
    let mut replacements: Vec<(K::Unit, Child<K, V>)> = Vec::new();
    let ghost branch = child.branch();
    replacements.push((unit, child));
    proof {
        assert(branches(replacements@) =~= seq![(unit, branch)]);
        assert(replacements@[0].0 == unit);
    }
    match parent.try_with_child_replacements(replacements, 1) {
        Ok(node) => Some(Arc::new(node)),
        Err(_) => None,
    }
}

/// The node below parent `k` of a walk that ends at `live`.
spec fn walked_below<K: KeyEncoding, V>(
    parents: Seq<Arc<OverlayNode<K, V>>>,
    live: Tree<K::Unit, V>,
    k: int,
) -> Tree<K::Unit, V> {
    if k + 1 < parents.len() {
        parents[k + 1]@
    } else {
        live
    }
}

/// Step `k` of a walk along a single path. When ancestors go first, the walk only
/// enters nodes that are not current.
spec fn walked_at<K: KeyEncoding, V>(
    policy: CompactEvictionPolicy,
    frames: Seq<ChainWalkFrame<K::Unit>>,
    candidates: Seq<CompactEvictionCandidate>,
    parents: Seq<Arc<OverlayNode<K, V>>>,
    live: Tree<K::Unit, V>,
    k: int,
) -> bool {
    &&& parents[k].wf()
    &&& kid(parents[k]@, frames[k].edge) == Some(Branch::InMem(walked_below(parents, live, k)))
    &&& policy == CompactEvictionPolicy::ResidentBudgetAncestorClosure ==> !evictable(
        frames[k].selected_candidate,
        candidates,
        walked_below(parents, live, k),
    )
}

/// The live nodes that a walk along a single path went through, down to `live`.
#[verifier::opaque]
spec fn chain_walked<K: KeyEncoding, V>(
    policy: CompactEvictionPolicy,
    frames: Seq<ChainWalkFrame<K::Unit>>,
    candidates: Seq<CompactEvictionCandidate>,
    parents: Seq<Arc<OverlayNode<K, V>>>,
    live: Tree<K::Unit, V>,
    root: Tree<K::Unit, V>,
) -> bool {
    &&& parents.len() <= frames.len()
    &&& forall|k: int|
        0 <= k < parents.len() ==> #[trigger] walked_at(
            policy,
            frames,
            candidates,
            parents,
            live,
            k,
        )
    &&& root == (if parents.len() == 0 {
        live
    } else {
        parents[0]@
    })
}

/// One step further down.
proof fn lemma_walk_down<K: KeyEncoding, V>(
    policy: CompactEvictionPolicy,
    frames: Seq<ChainWalkFrame<K::Unit>>,
    candidates: Seq<CompactEvictionCandidate>,
    parents: Seq<Arc<OverlayNode<K, V>>>,
    current: Arc<OverlayNode<K, V>>,
    root: Tree<K::Unit, V>,
    child: Tree<K::Unit, V>,
)
    requires
        chain_walked(policy, frames, candidates, parents, current@, root),
        parents.len() < frames.len(),
        current.wf(),
        kid(current@, frames[parents.len() as int].edge) == Some(Branch::InMem(child)),
        policy == CompactEvictionPolicy::ResidentBudgetAncestorClosure ==> !evictable(
            frames[parents.len() as int].selected_candidate,
            candidates,
            child,
        ),
    ensures
        chain_walked(policy, frames, candidates, parents.push(current), child, root),
{
    reveal(chain_walked);
    let next = parents.push(current);
    assert forall|k: int| 0 <= k < next.len() implies #[trigger] walked_at(
        policy,
        frames,
        candidates,
        next,
        child,
        k,
    ) by {
        if k < parents.len() {
            assert(walked_at(policy, frames, candidates, parents, current@, k));
            assert(walked_below(next, child, k) == walked_below(parents, current@, k));
        }
    }
}

/// One step back up.
proof fn lemma_walk_up<K: KeyEncoding, V>(
    policy: CompactEvictionPolicy,
    frames: Seq<ChainWalkFrame<K::Unit>>,
    candidates: Seq<CompactEvictionCandidate>,
    parents: Seq<Arc<OverlayNode<K, V>>>,
    live: Tree<K::Unit, V>,
    root: Tree<K::Unit, V>,
)
    requires
        chain_walked(policy, frames, candidates, parents, live, root),
        parents.len() > 0,
    ensures
        parents.len() <= frames.len(),
        chain_walked(policy, frames, candidates, parents.drop_last(), parents.last()@, root),
        parents.last().wf(),
        kid(parents.last()@, frames[parents.len() - 1].edge) == Some(Branch::InMem(live)),
        policy == CompactEvictionPolicy::ResidentBudgetAncestorClosure ==> !evictable(
            frames[parents.len() - 1].selected_candidate,
            candidates,
            live,
        ),
{
    reveal(chain_walked);
    let next = parents.drop_last();
    let above = parents.last()@;
    assert(walked_at(policy, frames, candidates, parents, live, parents.len() - 1));
    assert forall|k: int| 0 <= k < next.len() implies #[trigger] walked_at(
        policy,
        frames,
        candidates,
        next,
        above,
        k,
    ) by {
        assert(walked_at(policy, frames, candidates, parents, live, k));
        assert(walked_below(next, above, k) == walked_below(parents, live, k));
    }
}

/// Walks a single path down, and copies what it replaces on the way back.
fn build_chain<K: KeyEncoding, V: DictionaryValue>(
    policy: CompactEvictionPolicy,
    old_root: &Arc<OverlayNode<K, V>>,
    frames: &Vec<ChainWalkFrame<K::Unit>>,
    batch: &CompactEvictionBatch<K::Unit>,
    successful: &mut SuccessfulCandidateIndices,
) -> (r: Option<Arc<OverlayNode<K, V>>>)
    requires
        old_root.wf(),
        chain_marks_in_range(frames@, batch.candidates@.len()),
    ensures
        ({
            let (tree, evicted) = evict_chain(policy, frames@, batch.candidates@, 0, old_root@);
            match evicted {
                Some(c) => {
                    &&& final(successful)@ == seq![c]
                    &&& r matches Some(root)
                    &&& root.wf()
                    &&& root@ == tree
                },
                None => r is None && final(successful)@ == Seq::<usize>::empty(),
            }
        }),
{
    let ghost candidates = batch.candidates@;
    successful.clear();
    let mut parents: Vec<Arc<OverlayNode<K, V>>> = Vec::new();
    let mut current: Arc<OverlayNode<K, V>> = share(old_root);
    let mut hit: Option<(usize, SwizzledPtr)> = None;
    assert(chain_walked(policy, frames@, candidates, parents@, current@, old_root@)) by {
        reveal(chain_walked);
    }
    loop
        invariant_except_break
            hit is None,
        invariant
            candidates == batch.candidates@,
            chain_marks_in_range(frames@, candidates.len()),
            current.wf(),
            parents@.len() <= frames@.len(),
            chain_walked(policy, frames@, candidates, parents@, current@, old_root@),
            successful@ == Seq::<usize>::empty(),
        ensures
            match hit {
                None => evict_chain(policy, frames@, candidates, parents@.len() as int, current@)
                    == (current@, None::<usize>),
                Some((c, ptr)) => {
                    let k = parents@.len() as int;
                    &&& k < frames@.len()
                    &&& current@.kids.dom().contains(frames@[k].edge)
                    &&& evict_chain(policy, frames@, candidates, k, current@) == (
                        current@.replaced(seq![(frames@[k].edge, Branch::OnDisk(ptr))], 1),
                        Some(c),
                    )
                },
            },
        decreases frames@.len() - parents@.len(),
    {
        if parents.len() == frames.len() {
            break;
        }
        let frame = &frames[parents.len()];
        let child: Option<Arc<OverlayNode<K, V>>> = match current.find_child(frame.edge) {
            Some(Child::InMem(child)) => Some(share(child)),
            _ => None,
        };
        match child {
            None => {
                break;
            },
            Some(child) => {
                let record: Option<(usize, SwizzledPtr)> = match policy {
                    CompactEvictionPolicy::ResidentBudgetAncestorClosure => current_record(
                        frame.selected_candidate,
                        batch,
                        &*child,
                    ),
                    CompactEvictionPolicy::DescendantFirst => None,
                };
                if record.is_some() {
                    hit = record;
                    break;
                }
                proof {
                    lemma_walk_down(
                        policy,
                        frames@,
                        candidates,
                        parents@,
                        current,
                        old_root@,
                        child@,
                    );
                }
                parents.push(current);
                current = child;
            },
        }
    }
    let ghost mut live: Tree<K::Unit, V> = current@;
    let mut evicted: Option<usize> = None;
    match hit {
        Some((candidate, ptr)) => {
            let unit: K::Unit = frames[parents.len()].edge;
            match relink(&*current, unit, Child::OnDisk(ptr)) {
                Some(copy) => {
                    current = copy;
                },
                None => {
                    return None;
                },
            }
            evicted = Some(candidate);
        },
        None => {},
    }
    while parents.len() > 0
        invariant
            candidates == batch.candidates@,
            chain_marks_in_range(frames@, candidates.len()),
            current.wf(),
            chain_walked(policy, frames@, candidates, parents@, live, old_root@),
            evict_chain(policy, frames@, candidates, parents@.len() as int, live) == (
                current@,
                evicted,
            ),
            successful@ == Seq::<usize>::empty(),
        decreases parents@.len(),
    {
        let ghost before = parents@;
        proof {
            lemma_walk_up(policy, frames@, candidates, before, live, old_root@);
        }
        let parent: Arc<OverlayNode<K, V>> = match parents.pop() {
            Some(parent) => parent,
            None => {
                return None;
            },
        };
        assert(parents@ =~= before.drop_last());
        let frame = &frames[parents.len()];
        let ghost above = parent@;
        match evicted {
            Some(_) => match relink(&*parent, frame.edge, Child::InMem(current)) {
                Some(copy) => {
                    current = copy;
                },
                None => {
                    return None;
                },
            },
            None => match current_record(frame.selected_candidate, batch, &*current) {
                Some((candidate, ptr)) => match relink(&*parent, frame.edge, Child::OnDisk(ptr)) {
                    Some(copy) => {
                        current = copy;
                        evicted = Some(candidate);
                    },
                    None => {
                        return None;
                    },
                },
                None => {
                    current = parent;
                },
            },
        }
        proof {
            live = above;
        }
    }
    assert(live == old_root@) by {
        reveal(chain_walked);
    }
    match evicted {
        Some(candidate) => {
            successful.push(candidate);
            assert(successful@ =~= seq![candidate]);
            Some(current)
        },
        None => None,
    }
}

/// Replaces one selected subtree along a single path, the deepest that is current.
pub fn build_chain_replacement_into<K: KeyEncoding, V: DictionaryValue>(
    old_root: &Arc<OverlayNode<K, V>>,
    frames: &Vec<ChainWalkFrame<K::Unit>>,
    batch: &CompactEvictionBatch<K::Unit>,
    successful: &mut SuccessfulCandidateIndices,
) -> (r: Option<Arc<OverlayNode<K, V>>>)
    requires
        old_root.wf(),
        chain_marks_in_range(frames@, batch.candidates@.len()),
    ensures
        ({
            let (tree, evicted) = evict_chain(
                CompactEvictionPolicy::DescendantFirst,
                frames@,
                batch.candidates@,
                0,
                old_root@,
            );
            match evicted {
                Some(c) => {
                    &&& final(successful)@ == seq![c]
                    &&& r matches Some(root)
                    &&& root.wf()
                    &&& root@ == tree
                },
                None => r is None && final(successful)@ == Seq::<usize>::empty(),
            }
        }),
{
    build_chain(CompactEvictionPolicy::DescendantFirst, old_root, frames, batch, successful)
}

/// Replaces one selected subtree along a single path, the shallowest that is
/// current.
pub fn build_chain_ancestor_replacement_into<K: KeyEncoding, V: DictionaryValue>(
    old_root: &Arc<OverlayNode<K, V>>,
    frames: &Vec<ChainWalkFrame<K::Unit>>,
    batch: &CompactEvictionBatch<K::Unit>,
    successful: &mut SuccessfulCandidateIndices,
) -> (r: Option<Arc<OverlayNode<K, V>>>)
    requires
        old_root.wf(),
        chain_marks_in_range(frames@, batch.candidates@.len()),
    ensures
        ({
            let (tree, evicted) = evict_chain(
                CompactEvictionPolicy::ResidentBudgetAncestorClosure,
                frames@,
                batch.candidates@,
                0,
                old_root@,
            );
            match evicted {
                Some(c) => {
                    &&& final(successful)@ == seq![c]
                    &&& r matches Some(root)
                    &&& root.wf()
                    &&& root@ == tree
                },
                None => r is None && final(successful)@ == Seq::<usize>::empty(),
            }
        }),
{
    build_chain(
        CompactEvictionPolicy::ResidentBudgetAncestorClosure,
        old_root,
        frames,
        batch,
        successful,
    )
}

} // verus!
