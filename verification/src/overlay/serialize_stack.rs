//! The stack of the serializer: how its frames fit together, and what is known of
//! them.

use std::sync::Arc;
use vstd::prelude::*;
use crate::key_encoding::KeyEncoding;
use crate::registry::{paths_extend, RegistryBuilderSubtreeStart};
use crate::swizzled_ptr::SwizzledPtr;
use crate::value::DictionaryValue;
use super::graph_policy::{
    lemma_reachable_child, reachable, CompletedSubtree, GraphPolicy, NodeBuildState,
};
use super::node::{lemma_child_steps, Child, OverlayNode, Tree};
use super::serialize_build::{OverlaySerializationBuild, RegistryBuildMode};
use super::serialize_emission::{
    ends, lemma_kids_emit_more, needs_record, passes, told_more, Told,
};
use super::serialize_frame::{lemma_entries_extend, lemma_slots_steps_monotone, Frame};
use super::serialize_ledger::{lemma_slot_kid, slot_resolved, Facts};
use super::serialize_trace::Trace;

verus! {

/// A resident child belongs to the root.
pub open spec fn slot_reachable<K: KeyEncoding, V>(root: Tree<K::Unit, V>, child: Child<K, V>) -> bool {
    child matches Child::InMem(node) ==> reachable(root, node@)
}

/// A frame lies above the frame of the child that it waits for.
pub open spec fn frame_linked<K: KeyEncoding, V>(stack: Seq<Frame<K, V>>, k: int) -> bool {
    let parent = stack[k];
    let child = stack[k + 1];
    &&& parent.next_child >= 1
    &&& parent.resolved@.len() == parent.next_child - 1
    &&& parent.slots@[parent.next_child - 1].1 == Child::<K, V>::InMem(child.head())
    &&& child.base_depth == parent.full@.len()
    &&& child.full@.take(child.base_depth as int) == parent.full@
    &&& child.full@ == parent.full@.push(parent.slots@[parent.next_child - 1].0)
        + child.chain_prefix@
}

/// The frames of a stack fit together, and the first is that of the root.
#[verifier::opaque]
pub open spec fn frames_ok<K: KeyEncoding, V>(
    stack: Seq<Frame<K, V>>,
    root: Arc<OverlayNode<K, V>>,
) -> bool {
    &&& forall|k: int| 0 <= k < stack.len() ==> (#[trigger] stack[k]).ok()
    &&& forall|k: int| 0 <= k < stack.len() - 1 ==> #[trigger] frame_linked(stack, k)
    &&& stack.len() > 0 ==> stack[0].head() == root
}

/// The paths of all frames are registered.
#[verifier::opaque]
pub open spec fn frames_registered<K: KeyEncoding, V, P>(
    stack: Seq<Frame<K, V>>,
    build: OverlaySerializationBuild<K, V, P>,
) -> bool {
    build.mode != RegistryBuildMode::Disabled ==> forall|k: int|
        0 <= k < stack.len() ==> (#[trigger] stack[k]).registered(build.registry.topology.entries@)
}

/// All frames are sound.
#[verifier::opaque]
pub open spec fn frames_sound<K: KeyEncoding, V>(
    stack: Seq<Frame<K, V>>,
    root: Tree<K::Unit, V>,
    facts: Facts<K::Unit, V>,
) -> bool {
    forall|k: int| 0 <= k < stack.len() ==> (#[trigger] stack[k]).sound(root, facts)
}

/// What was written since each frame was started on are its children that are done,
/// up to the start of the next frame, and all chains but that of the root, which has
/// none, end where they must.
#[verifier::opaque]
pub open spec fn frames_dealt<K: KeyEncoding, V>(
    stack: Seq<Frame<K, V>>,
    told: Told<K, V>,
    first: Trace<K::Unit, V>,
    trace: Trace<K::Unit, V>,
) -> bool {
    forall|k: int| 0 <= k < stack.len() ==> #[trigger] frame_dealt(stack, k, told, first, trace)
}

/// The same of one frame.
pub open spec fn frame_dealt<K: KeyEncoding, V>(
    stack: Seq<Frame<K, V>>,
    k: int,
    told: Told<K, V>,
    first: Trace<K::Unit, V>,
    trace: Trace<K::Unit, V>,
) -> bool {
    &&& stack[k].dealt(
        told,
        if k + 1 < stack.len() {
            stack[k + 1].start@
        } else {
            trace
        },
    )
    &&& if k == 0 {
        stack[k].chain_prefix@.len() == 0 && stack[k].start@ == first
    } else {
        stack[k].peeled(told) && needs_record(told, stack[k].head())
    }
}

/// The frame on top, and those below it.
pub proof fn lemma_dealt_pop<K: KeyEncoding, V>(
    stack: Seq<Frame<K, V>>,
    told: Told<K, V>,
    first: Trace<K::Unit, V>,
    trace: Trace<K::Unit, V>,
)
    requires
        frames_dealt(stack, told, first, trace),
        stack.len() > 0,
    ensures
        frames_dealt(stack.drop_last(), told, first, stack.last().start@),
        stack.last().dealt(told, trace),
        stack.len() == 1 ==> stack.last().chain_prefix@.len() == 0 && stack.last().start@ == first,
        stack.len() > 1 ==> stack.last().peeled(told) && needs_record(told, stack.last().head()),
{
    reveal(frames_dealt);
    let rest = stack.drop_last();
    assert(frame_dealt(stack, stack.len() - 1, told, first, trace));
    assert forall|k: int| 0 <= k < rest.len() implies #[trigger] frame_dealt(
        rest,
        k,
        told,
        first,
        stack.last().start@,
    ) by {
        assert(frame_dealt(stack, k, told, first, trace));
        assert(rest[k] == stack[k]);
        if k + 1 < rest.len() {
            assert(rest[k + 1] == stack[k + 1]);
        }
    }
}

/// A frame on top.
pub proof fn lemma_dealt_top<K: KeyEncoding, V>(
    stack: Seq<Frame<K, V>>,
    frame: Frame<K, V>,
    told: Told<K, V>,
    first: Trace<K::Unit, V>,
    trace: Trace<K::Unit, V>,
)
    requires
        frames_dealt(stack, told, first, frame.start@),
        frame.dealt(told, trace),
        if stack.len() == 0 {
            frame.chain_prefix@.len() == 0 && frame.start@ == first
        } else {
            frame.peeled(told) && needs_record(told, frame.head())
        },
    ensures
        frames_dealt(stack.push(frame), told, first, trace),
{
    reveal(frames_dealt);
    let longer = stack.push(frame);
    assert forall|k: int| 0 <= k < longer.len() implies #[trigger] frame_dealt(
        longer,
        k,
        told,
        first,
        trace,
    ) by {
        if k < stack.len() {
            assert(frame_dealt(stack, k, told, first, frame.start@));
            assert(longer[k] == stack[k]);
            if k + 1 < stack.len() {
                assert(longer[k + 1] == stack[k + 1]);
            }
        }
    }
}

/// What the frames are done with stays so when more is told.
pub proof fn lemma_dealt_more<K: KeyEncoding, V>(
    stack: Seq<Frame<K, V>>,
    less: Told<K, V>,
    more: Told<K, V>,
    first: Trace<K::Unit, V>,
    trace: Trace<K::Unit, V>,
)
    requires
        frames_dealt(stack, less, first, trace),
        told_more(less, more),
    ensures
        frames_dealt(stack, more, first, trace),
{
    reveal(frames_dealt);
    assert forall|k: int| 0 <= k < stack.len() implies #[trigger] frame_dealt(
        stack,
        k,
        more,
        first,
        trace,
    ) by {
        assert(frame_dealt(stack, k, less, first, trace));
        let frame = stack[k];
        let node = *frame.node;
        lemma_kids_emit_more(
            less,
            more,
            frame.full@,
            node.steps(),
            frame.slots@,
            frame.resolved@.len(),
            frame.start@,
            if k + 1 < stack.len() {
                stack[k + 1].start@
            } else {
                trace
            },
            frame.kids(),
        );
        if k > 0 {
            lemma_peeled_more(frame, less, more);
        }
    }
}

/// The end of a chain does not depend on what is complete.
pub proof fn lemma_peeled_more<K: KeyEncoding, V>(
    frame: Frame<K, V>,
    less: Told<K, V>,
    more: Told<K, V>,
)
    requires
        frame.peeled(less),
        told_more(less, more),
    ensures
        frame.peeled(more),
{
    assert forall|j: int| 0 <= j < frame.live_spine@.len() implies passes(
        more,
        #[trigger] frame.live_spine@[j],
    ) by {
        assert(passes(less, frame.live_spine@[j]));
    }
    assert(ends(less, frame.node));
}

/// Frames lie no deeper than the steps of the root, belong to the root, and open a
/// subtree only where nodes are remembered.
#[verifier::opaque]
pub open spec fn frames_sized<K: KeyEncoding, V>(
    stack: Seq<Frame<K, V>>,
    root: Arc<OverlayNode<K, V>>,
    remembered: nat,
    registers: bool,
) -> bool {
    forall|k: int|
        0 <= k < stack.len() ==> frame_sized(#[trigger] stack[k], k, root, remembered, registers)
}

/// The same of one frame.
pub open spec fn frame_sized<K: KeyEncoding, V>(
    frame: Frame<K, V>,
    k: int,
    root: Arc<OverlayNode<K, V>>,
    remembered: nat,
    registers: bool,
) -> bool {
    &&& k <= frame.full@.len()
    &&& frame.full@.len() + frame.node.steps() <= root.steps()
    &&& reachable(root@, frame.node@)
    &&& frame.placed(root@)
    &&& frame.registry_start is Some ==> remembered > 0 && registers
}

/// The frame on top, and those below it.
pub proof fn lemma_sized_pop<K: KeyEncoding, V>(
    stack: Seq<Frame<K, V>>,
    root: Arc<OverlayNode<K, V>>,
    remembered: nat,
    registers: bool,
)
    requires
        frames_sized(stack, root, remembered, registers),
        stack.len() > 0,
    ensures
        frames_sized(stack.drop_last(), root, remembered, registers),
        frame_sized(stack.last(), stack.len() - 1, root, remembered, registers),
{
    reveal(frames_sized);
    let rest = stack.drop_last();
    assert(frame_sized(stack[stack.len() - 1], stack.len() - 1, root, remembered, registers));
    assert forall|k: int| 0 <= k < rest.len() implies frame_sized(
        #[trigger] rest[k],
        k,
        root,
        remembered,
        registers,
    ) by {
        assert(rest[k] == stack[k]);
    }
}

/// A frame on top.
pub proof fn lemma_sized_top<K: KeyEncoding, V>(
    stack: Seq<Frame<K, V>>,
    frame: Frame<K, V>,
    root: Arc<OverlayNode<K, V>>,
    remembered: nat,
    registers: bool,
)
    requires
        frames_sized(stack, root, remembered, registers),
        frame_sized(frame, stack.len() as int, root, remembered, registers),
    ensures
        frames_sized(stack.push(frame), root, remembered, registers),
{
    reveal(frames_sized);
    let longer = stack.push(frame);
    assert forall|k: int| 0 <= k < longer.len() implies frame_sized(
        #[trigger] longer[k],
        k,
        root,
        remembered,
        registers,
    ) by {
        if k < stack.len() {
            assert(longer[k] == stack[k]);
        }
    }
}

/// A resident child takes fewer steps than its parent.
pub proof fn lemma_slot_fewer<K: KeyEncoding, V>(frame: Frame<K, V>, slot: int)
    requires
        frame.ok(),
        0 <= slot < frame.slots@.len(),
    ensures
        frame.slots@[slot].1 matches Child::InMem(child) ==> child.steps() + 2
            <= frame.node.steps(),
{
    let node = *frame.node;
    assert(node.children@.contains(frame.slots@[slot]));
    let j = choose|j: int| 0 <= j < node.children@.len() && node.children@[j] == frame.slots@[slot];
    if node.children@[j].1 is InMem {
        lemma_child_steps(node, j);
    }
}

/// The unfinished subtrees of the frames.
pub open spec fn open_tail<K: KeyEncoding, V>(stack: Seq<Frame<K, V>>) -> Seq<RegistryBuilderSubtreeStart>
    decreases stack.len(),
{
    if stack.len() == 0 {
        Seq::empty()
    } else {
        match stack.last().registry_start {
            Some(start) => open_tail(stack.drop_last()).push(start),
            None => open_tail(stack.drop_last()),
        }
    }
}

/// The steps left on a stack.
pub open spec fn frames_left<K: KeyEncoding, V>(stack: Seq<Frame<K, V>>) -> int
    decreases stack.len(),
{
    if stack.len() == 0 {
        0
    } else {
        frames_left(stack.drop_last()) + stack.last().left()
    }
}

/// Steps left are never negative.
pub proof fn lemma_frames_left<K: KeyEncoding, V>(
    stack: Seq<Frame<K, V>>,
    root: Arc<OverlayNode<K, V>>,
)
    requires
        frames_ok(stack, root),
    ensures
        frames_left(stack) >= 0,
    decreases stack.len(),
{
    if stack.len() > 0 {
        lemma_frames_pop(stack, root);
        lemma_frames_left(stack.drop_last(), root);
        let frame = stack.last();
        lemma_slots_steps_monotone(
            frame.slots@,
            frame.next_child as nat,
            frame.slots@.len(),
        );
    }
}

/// The frame on top, and the frames below it.
pub proof fn lemma_frames_pop<K: KeyEncoding, V>(stack: Seq<Frame<K, V>>, root: Arc<OverlayNode<K, V>>)
    requires
        frames_ok(stack, root),
        stack.len() > 0,
    ensures
        frames_ok(stack.drop_last(), root),
        stack.last().ok(),
        stack.len() == 1 ==> stack.last().head() == root,
        stack.len() > 1 ==> frame_linked(stack, stack.len() - 2),
{
    reveal(frames_ok);
    let rest = stack.drop_last();
    assert(stack[stack.len() - 1] == stack.last());
    assert forall|k: int| 0 <= k < rest.len() implies (#[trigger] rest[k]).ok() by {
        assert(rest[k] == stack[k]);
    }
    assert forall|k: int| 0 <= k < rest.len() - 1 implies #[trigger] frame_linked(rest, k) by {
        assert(frame_linked(stack, k));
        assert(rest[k] == stack[k] && rest[k + 1] == stack[k + 1]);
    }
    if stack.len() > 1 {
        assert(frame_linked(stack, stack.len() - 2));
    }
}

/// A new frame on top.
pub proof fn lemma_frames_push<K: KeyEncoding, V>(
    stack: Seq<Frame<K, V>>,
    frame: Frame<K, V>,
    root: Arc<OverlayNode<K, V>>,
)
    requires
        frames_ok(stack, root),
        frame.ok(),
        stack.len() == 0 ==> frame.head() == root,
        stack.len() > 0 ==> frame_linked(stack.push(frame), stack.len() - 1),
    ensures
        frames_ok(stack.push(frame), root),
        frames_left(stack.push(frame)) == frames_left(stack) + frame.left(),
        open_tail(stack.push(frame)) == (match frame.registry_start {
            Some(start) => open_tail(stack).push(start),
            None => open_tail(stack),
        }),
{
    reveal(frames_ok);
    let longer = stack.push(frame);
    assert forall|k: int| 0 <= k < longer.len() implies (#[trigger] longer[k]).ok() by {
        if k < stack.len() {
            assert(longer[k] == stack[k]);
        }
    }
    assert forall|k: int| 0 <= k < longer.len() - 1 implies #[trigger] frame_linked(longer, k) by {
        if k < stack.len() - 1 {
            assert(frame_linked(stack, k));
            assert(longer[k] == stack[k] && longer[k + 1] == stack[k + 1]);
        }
    }
    assert(longer.drop_last() =~= stack);
}

/// More paths change nothing about the frames.
pub proof fn lemma_frames_registered<K: KeyEncoding, V, P>(
    stack: Seq<Frame<K, V>>,
    before: OverlaySerializationBuild<K, V, P>,
    after: OverlaySerializationBuild<K, V, P>,
)
    requires
        frames_registered(stack, before),
        before.mode == after.mode,
        paths_extend(before.registry.topology.entries@, after.registry.topology.entries@),
    ensures
        frames_registered(stack, after),
{
    reveal(frames_registered);
    if after.mode != RegistryBuildMode::Disabled {
        assert forall|k: int| 0 <= k < stack.len() implies (#[trigger] stack[k]).registered(
            after.registry.topology.entries@,
        ) by {
            let frame = stack[k];
            lemma_entries_extend::<K>(
                before.registry.topology.entries@,
                after.registry.topology.entries@,
                frame.registry_entries@,
                frame.full@,
                frame.base_depth as int,
                frame.chain_prefix@.len() as int,
            );
        }
    }
}

/// The registered paths of the frame on top, and of those below it.
pub proof fn lemma_registered_pop<K: KeyEncoding, V, P>(
    stack: Seq<Frame<K, V>>,
    build: OverlaySerializationBuild<K, V, P>,
)
    requires
        frames_registered(stack, build),
        stack.len() > 0,
    ensures
        frames_registered(stack.drop_last(), build),
        build.mode != RegistryBuildMode::Disabled ==> stack.last().registered(
            build.registry.topology.entries@,
        ),
{
    reveal(frames_registered);
    if build.mode != RegistryBuildMode::Disabled {
        let rest = stack.drop_last();
        assert(stack[stack.len() - 1] == stack.last());
        assert forall|k: int| 0 <= k < rest.len() implies (#[trigger] rest[k]).registered(
            build.registry.topology.entries@,
        ) by {
            assert(rest[k] == stack[k]);
        }
    }
}

/// A registered frame on top.
pub proof fn lemma_registered_push<K: KeyEncoding, V, P>(
    stack: Seq<Frame<K, V>>,
    frame: Frame<K, V>,
    build: OverlaySerializationBuild<K, V, P>,
)
    requires
        frames_registered(stack, build),
        build.mode != RegistryBuildMode::Disabled ==> frame.registered(
            build.registry.topology.entries@,
        ),
    ensures
        frames_registered(stack.push(frame), build),
{
    reveal(frames_registered);
    if build.mode != RegistryBuildMode::Disabled {
        let longer = stack.push(frame);
        assert forall|k: int| 0 <= k < longer.len() implies (#[trigger] longer[k]).registered(
            build.registry.topology.entries@,
        ) by {
            if k < stack.len() {
                assert(longer[k] == stack[k]);
            }
        }
    }
}

/// The frame on top is sound, and so are those below it, whatever is learnt.
pub proof fn lemma_sound_pop<K: KeyEncoding, V>(
    stack: Seq<Frame<K, V>>,
    root: Tree<K::Unit, V>,
    facts: Facts<K::Unit, V>,
    more: Facts<K::Unit, V>,
)
    requires
        frames_sound(stack, root, facts),
        stack.len() > 0,
        facts.subset_of(more),
    ensures
        frames_sound(stack.drop_last(), root, more),
        stack.last().sound(root, facts),
        stack.last().sound(root, more),
{
    reveal(frames_sound);
    let rest = stack.drop_last();
    assert(stack[stack.len() - 1] == stack.last());
    assert forall|k: int| 0 <= k < stack.len() implies (#[trigger] stack[k]).sound(root, more) by {
        let frame = stack[k];
        assert(frame.sound(root, facts));
        assert forall|i: int| 0 <= i < frame.resolved@.len() implies slot_resolved(
            more,
            frame.slots@[i].1,
            #[trigger] frame.resolved@[i],
        ) by {
            assert(slot_resolved(facts, frame.slots@[i].1, frame.resolved@[i]));
        }
    }
    assert forall|k: int| 0 <= k < rest.len() implies (#[trigger] rest[k]).sound(root, more) by {
        assert(rest[k] == stack[k]);
    }
}

/// A sound frame on top.
pub proof fn lemma_sound_push<K: KeyEncoding, V>(
    stack: Seq<Frame<K, V>>,
    frame: Frame<K, V>,
    root: Tree<K::Unit, V>,
    facts: Facts<K::Unit, V>,
)
    requires
        frames_sound(stack, root, facts),
        frame.sound(root, facts),
    ensures
        frames_sound(stack.push(frame), root, facts),
{
    reveal(frames_sound);
    let longer = stack.push(frame);
    assert forall|k: int| 0 <= k < longer.len() implies (#[trigger] longer[k]).sound(
        root,
        facts,
    ) by {
        if k < stack.len() {
            assert(longer[k] == stack[k]);
        }
    }
}

/// A frame with one more resolved child.
pub proof fn lemma_resolved_push<K: KeyEncoding, V>(
    before: Frame<K, V>,
    after: Frame<K, V>,
    ptr: SwizzledPtr,
    root: Tree<K::Unit, V>,
    facts: Facts<K::Unit, V>,
)
    requires
        before.sound(root, facts),
        after.node == before.node,
        after.live_spine == before.live_spine,
        after.slots == before.slots,
        after.resolved@ == before.resolved@.push(ptr),
        before.resolved@.len() < before.slots@.len(),
        slot_resolved(facts, before.slots@[before.resolved@.len() as int].1, ptr),
    ensures
        after.sound(root, facts),
{
    assert forall|i: int| 0 <= i < after.resolved@.len() implies slot_resolved(
        facts,
        after.slots@[i].1,
        #[trigger] after.resolved@[i],
    ) by {
        if i < before.resolved@.len() {
            assert(after.resolved@[i] == before.resolved@[i]);
        }
    }
}

/// A resident child of a frame belongs to the root.
pub proof fn lemma_slot_reachable<K: KeyEncoding, V>(
    root: Tree<K::Unit, V>,
    frame: Frame<K, V>,
    slot: int,
)
    requires
        frame.ok(),
        reachable(root, frame.node@),
        0 <= slot < frame.slots@.len(),
    ensures
        slot_reachable(root, frame.slots@[slot].1),
{
    let node = *frame.node;
    lemma_slot_kid(node, frame.slots@, slot);
    match frame.slots@[slot].1 {
        Child::InMem(child) => {
            lemma_reachable_child(root, node@, frame.slots@[slot].0, child@);
        },
        Child::OnDisk(_) => {},
    }
}

/// The frame on top goes on.
pub proof fn lemma_replaced<K: KeyEncoding, V>(
    stack: Seq<Frame<K, V>>,
    frame: Frame<K, V>,
    root: Arc<OverlayNode<K, V>>,
)
    requires
        frames_ok(stack, root),
        stack.len() > 0,
        frame.ok(),
        frame.node == stack.last().node,
        frame.live_spine == stack.last().live_spine,
        frame.chain_prefix == stack.last().chain_prefix,
        frame.base_depth == stack.last().base_depth,
        frame.full == stack.last().full,
        frame.registry_start == stack.last().registry_start,
    ensures
        frames_ok(stack.drop_last().push(frame), root),
        frames_left(stack.drop_last().push(frame)) == frames_left(stack) - stack.last().left()
            + frame.left(),
        open_tail(stack.drop_last().push(frame)) == open_tail(stack),
{
    lemma_frames_pop(stack, root);
    let rest = stack.drop_last();
    let next = rest.push(frame);
    if rest.len() > 0 {
        assert(frame_linked(stack, stack.len() - 2));
        assert(next[rest.len() - 1] == stack[stack.len() - 2]);
        assert(next[rest.len() as int] == frame);
        assert(stack[stack.len() - 1] == stack.last());
        assert(frame_linked(next, rest.len() - 1));
    }
    lemma_frames_push(rest, frame, root);
}

/// The nodes of the frames, and whether a subtree was begun for them.
pub open spec fn acts<K: KeyEncoding, V>(stack: Seq<Frame<K, V>>) -> Seq<
    (Arc<OverlayNode<K, V>>, bool),
> {
    Seq::new(stack.len(), |k: int| (stack[k].node, stack[k].registry_start is Some))
}

/// A node is worked on.
pub open spec fn at_work<K: KeyEncoding, V>(
    acts: Seq<(Arc<OverlayNode<K, V>>, bool)>,
    node: Arc<OverlayNode<K, V>>,
) -> bool {
    exists|k: int| 0 <= k < acts.len() && (#[trigger] acts[k]).0 == node
}

/// The policy and the frames agree, unless the policy was told two things of one node:
/// the nodes that are worked on are active and no others, and what is complete has a
/// span where paths are registered. Deeper frames take fewer steps.
#[verifier::opaque]
pub open spec fn active<K: KeyEncoding, V: DictionaryValue, P: GraphPolicy<K, V>>(
    acts: Seq<(Arc<OverlayNode<K, V>>, bool)>,
    graph: P,
    registers: bool,
) -> bool {
    &&& forall|j: int, k: int|
        0 <= j < k < acts.len() ==> (#[trigger] acts[k]).0.steps() < (
        #[trigger] acts[j]).0.steps()
    &&& graph.doubted() || {
        &&& graph.steady()
        &&& forall|k: int| 0 <= k < acts.len() ==> graph.activated((#[trigger] acts[k]).0)
        &&& forall|i: int|
            0 <= i < graph.memo().len() && (#[trigger] graph.memo()[i]).1 == NodeBuildState::Active
                ==> at_work(acts, graph.memo()[i].0)
        &&& forall|i: int|
            registers && 0 <= i < graph.memo().len() ==> spanned(#[trigger] graph.memo()[i])
        &&& forall|k: int|
            0 <= k < acts.len() && (#[trigger] acts[k]).1 ==> graph.boundary(acts[k].0, true)
        &&& forall|k: int|
            registers && 0 < k < acts.len() && !(#[trigger] acts[k]).1 ==> graph.boundary(
                acts[k].0,
                false,
            )
    }
}

/// A complete entry has a span.
pub open spec fn spanned<K: KeyEncoding, V>(
    entry: (Arc<OverlayNode<K, V>>, NodeBuildState),
) -> bool {
    entry.1 matches NodeBuildState::Complete(subtree) ==> subtree.registry_span is Some
}

/// No node below the frames is active.
pub proof fn lemma_none_active<K: KeyEncoding, V: DictionaryValue, P: GraphPolicy<K, V>>(
    acts: Seq<(Arc<OverlayNode<K, V>>, bool)>,
    graph: P,
    registers: bool,
    node: Arc<OverlayNode<K, V>>,
    i: int,
)
    requires
        active(acts, graph, registers),
        !graph.doubted(),
        acts.len() > 0,
        node.steps() < acts.last().0.steps(),
        0 <= i < graph.memo().len(),
        graph.memo()[i].0 == node,
    ensures
        graph.memo()[i].1 != NodeBuildState::Active,
        registers ==> spanned(graph.memo()[i]),
{
    reveal(active);
    if graph.memo()[i].1 == NodeBuildState::Active {
        let k = choose|k: int| 0 <= k < acts.len() && (#[trigger] acts[k]).0 == node;
        assert(acts[acts.len() - 1] == acts.last());
        assert(acts[k].0 == node);
    }
}

/// A frame more, whose node was activated.
pub proof fn lemma_active_push<K: KeyEncoding, V: DictionaryValue, P: GraphPolicy<K, V>>(
    acts: Seq<(Arc<OverlayNode<K, V>>, bool)>,
    before: P,
    after: P,
    registers: bool,
    node: Arc<OverlayNode<K, V>>,
    begun: bool,
)
    requires
        active(acts, before, registers),
        acts.len() > 0 ==> node.steps() < acts.last().0.steps(),
        after.memo().len() == before.memo().len(),
        forall|i: int|
            0 <= i < before.memo().len() ==> (#[trigger] after.memo()[i]).0 == before.memo()[i].0
                && (after.memo()[i].1 == before.memo()[i].1 || after.memo()[i] == (
                node,
                NodeBuildState::Active,
            )),
        forall|n: Arc<OverlayNode<K, V>>| #[trigger] before.activated(n) ==> after.activated(n),
        forall|n: Arc<OverlayNode<K, V>>, b: bool|
            #[trigger] after.boundary(n, b) == before.boundary(n, b),
        after.doubted() == before.doubted(),
        before.steady() ==> after.steady(),
        after.activated(node),
        begun ==> after.boundary(node, true),
        registers && acts.len() > 0 && !begun ==> after.boundary(node, false),
    ensures
        active(acts.push((node, begun)), after, registers),
{
    reveal(active);
    let more = acts.push((node, begun));
    assert forall|j: int, k: int| 0 <= j < k < more.len() implies (#[trigger] more[k]).0.steps() < (
    #[trigger] more[j]).0.steps() by {
        assert(more[j] == acts[j]);
        if k < acts.len() {
            assert(more[k] == acts[k]);
        } else {
            assert(acts[acts.len() - 1] == acts.last());
        }
    }
    if !after.doubted() {
        assert forall|k: int| 0 <= k < more.len() implies after.activated((#[trigger] more[k]).0) by {
            if k < acts.len() {
                assert(more[k] == acts[k]);
            }
        }
        assert forall|i: int|
            0 <= i < after.memo().len() && (#[trigger] after.memo()[i]).1
                == NodeBuildState::Active implies at_work(more, after.memo()[i].0) by {
            if after.memo()[i].1 == before.memo()[i].1 {
                let k = choose|k: int|
                    0 <= k < acts.len() && (#[trigger] acts[k]).0 == before.memo()[i].0;
                assert(more[k] == acts[k]);
            } else {
                assert(more[acts.len() as int].0 == node);
            }
        }
        assert forall|i: int| registers && 0 <= i < after.memo().len() implies spanned(
            #[trigger] after.memo()[i],
        ) by {
            assert(spanned(before.memo()[i]));
        }
        assert forall|k: int| 0 <= k < more.len() && (#[trigger] more[k]).1 implies after.boundary(
            more[k].0,
            true,
        ) by {
            if k < acts.len() {
                assert(more[k] == acts[k]);
                assert(before.boundary(acts[k].0, true));
            }
        }
        assert forall|k: int|
            registers && 0 < k < more.len() && !(#[trigger] more[k]).1 implies after.boundary(
            more[k].0,
            false,
        ) by {
            if k < acts.len() {
                assert(more[k] == acts[k]);
                assert(before.boundary(acts[k].0, false));
            }
        }
    }
}

/// A node below the frames, or the node of the last frame, was completed.
pub proof fn lemma_active_complete<K: KeyEncoding, V: DictionaryValue, P: GraphPolicy<K, V>>(
    acts: Seq<(Arc<OverlayNode<K, V>>, bool)>,
    rest: Seq<(Arc<OverlayNode<K, V>>, bool)>,
    before: P,
    after: P,
    registers: bool,
    node: Arc<OverlayNode<K, V>>,
    subtree: CompletedSubtree,
)
    requires
        active(acts, before, registers),
        acts.len() > 0,
        rest.len() > 0,
        (rest == acts && node.steps() < acts.last().0.steps()) || (rest == acts.drop_last()
            && node == acts.last().0),
        after.memo().len() == before.memo().len(),
        forall|i: int|
            0 <= i < before.memo().len() ==> (#[trigger] after.memo()[i]).0 == before.memo()[i].0
                && (after.memo()[i].1 == before.memo()[i].1 || after.memo()[i] == (
                node,
                NodeBuildState::Complete(subtree),
            )),
        forall|n: Arc<OverlayNode<K, V>>| #[trigger]
            before.activated(n) && n != node ==> after.activated(n),
        forall|n: Arc<OverlayNode<K, V>>, b: bool|
            #[trigger] after.boundary(n, b) == before.boundary(n, b),
        after.doubted() == before.doubted(),
        before.steady() ==> after.steady(),
        before.steady() ==> before.doubted() || forall|i: int|
            0 <= i < after.memo().len() && (#[trigger] after.memo()[i]).1 == NodeBuildState::Active
                ==> after.memo()[i].0 != node,
        subtree.registry_span is None && registers ==> before.doubted() || before.boundary(
            node,
            false,
        ),
        subtree.registry_span is None && before.boundary(node, false) ==> before.doubted()
            || forall|i: int|
            0 <= i < after.memo().len() ==> #[trigger] after.memo()[i] == before.memo()[i],
    ensures
        active(rest, after, registers),
{
    reveal(active);
    assert(acts[acts.len() - 1] == acts.last());
    assert forall|k: int| 0 <= k < rest.len() implies #[trigger] rest[k] == acts[k] && rest[k].0
        != node by {
        if k < acts.len() - 1 {
            assert(acts[k].0.steps() > acts[acts.len() - 1].0.steps());
        }
    }
    assert forall|j: int, k: int| 0 <= j < k < rest.len() implies (#[trigger] rest[k]).0.steps() < (
    #[trigger] rest[j]).0.steps() by {
        assert(rest[j] == acts[j] && rest[k] == acts[k]);
    }
    if !after.doubted() {
        assert forall|k: int| 0 <= k < rest.len() implies after.activated((#[trigger] rest[k]).0) by {
            assert(rest[k] == acts[k]);
            assert(before.activated(acts[k].0));
        }
        assert forall|i: int|
            0 <= i < after.memo().len() && (#[trigger] after.memo()[i]).1
                == NodeBuildState::Active implies at_work(rest, after.memo()[i].0) by {
            assert(before.memo()[i].1 == NodeBuildState::Active);
            let k = choose|k: int|
                0 <= k < acts.len() && (#[trigger] acts[k]).0 == before.memo()[i].0;
            assert(after.memo()[i].0 != node);
            assert(rest[k] == acts[k]);
        }
        assert forall|i: int| registers && 0 <= i < after.memo().len() implies spanned(
            #[trigger] after.memo()[i],
        ) by {
            assert(spanned(before.memo()[i]));
        }
        assert forall|k: int| 0 <= k < rest.len() && (#[trigger] rest[k]).1 implies after.boundary(
            rest[k].0,
            true,
        ) by {
            assert(rest[k] == acts[k]);
            assert(before.boundary(acts[k].0, true));
        }
        assert forall|k: int|
            registers && 0 < k < rest.len() && !(#[trigger] rest[k]).1 implies after.boundary(
            rest[k].0,
            false,
        ) by {
            assert(rest[k] == acts[k]);
            assert(before.boundary(acts[k].0, false));
        }
    }
}

} // verus!
