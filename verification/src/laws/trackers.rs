//! Trackers of changed arenas and slots: what is found changed is what was marked.

use vstd::prelude::*;
use crate::dirty_tracker::{
    changes_are_finite, slot_sum, BatchDirtyTracker, DirtyTracker, DirtyTrackerStats,
};

verus! {

/// A call that changes a tracker.
pub enum TrackerCall<'a> {
    MarkArena(u32),
    MarkSlot(u32, u32),
    Checkpoint,
    Clear(&'a [u32]),
}

/// A tracker is called.
pub open spec fn made<'a>(tracker: &mut DirtyTracker, call: TrackerCall<'a>) -> bool {
    match call {
        TrackerCall::MarkArena(arena) => call_ensures(
            DirtyTracker::mark_arena_dirty,
            (tracker, arena),
            (),
        ),
        TrackerCall::MarkSlot(arena, slot) => call_ensures(
            DirtyTracker::mark_slot_dirty,
            (tracker, arena, slot),
            (),
        ),
        TrackerCall::Checkpoint => call_ensures(DirtyTracker::checkpoint_complete, (tracker,), ()),
        TrackerCall::Clear(arenas) => call_ensures(
            DirtyTracker::clear_arenas,
            (tracker, arenas),
            (),
        ),
    }
}

/// The calls that were made.
pub open spec fn calls_of<'a, 'b>(steps: Seq<(&'a mut DirtyTracker, TrackerCall<'b>)>) -> Seq<
    TrackerCall<'b>,
> {
    Seq::new(steps.len(), |i: int| steps[i].1)
}

/// A call forgets what was marked in an arena.
pub open spec fn forgets<'b>(call: TrackerCall<'b>, arena: u32) -> bool {
    match call {
        TrackerCall::Checkpoint => true,
        TrackerCall::Clear(arenas) => exists|i: int|
            0 <= i < arenas@.len() && #[trigger] arenas@[i] == arena,
        _ => false,
    }
}

/// An arena, or a slot of it, was marked and not forgotten since.
pub open spec fn arena_marked<'b>(calls: Seq<TrackerCall<'b>>, arena: u32) -> bool {
    exists|i: int|
        {
            &&& 0 <= i < calls.len()
            &&& match #[trigger] calls[i] {
                TrackerCall::MarkArena(a) => a == arena,
                TrackerCall::MarkSlot(a, _) => a == arena,
                _ => false,
            }
            &&& forall|j: int| i < j < calls.len() ==> !forgets(#[trigger] calls[j], arena)
        }
}

/// A slot was marked and not forgotten since.
pub open spec fn slot_marked<'b>(calls: Seq<TrackerCall<'b>>, arena: u32, slot: u32) -> bool {
    exists|i: int|
        {
            &&& 0 <= i < calls.len()
            &&& #[trigger] calls[i] == TrackerCall::<'b>::MarkSlot(arena, slot)
            &&& forall|j: int| i < j < calls.len() ==> !forgets(#[trigger] calls[j], arena)
        }
}

/// How many of some calls are marks.
pub open spec fn marks_in<'b>(calls: Seq<TrackerCall<'b>>) -> nat {
    calls.filter(|c: TrackerCall<'b>| c is MarkArena || c is MarkSlot).len()
}

/// How many of some calls are checkpoints.
pub open spec fn checkpoints_in<'b>(calls: Seq<TrackerCall<'b>>) -> nat {
    calls.filter(|c: TrackerCall<'b>| c is Checkpoint).len()
}

/// An arena is found changed exactly if it or a slot of it was marked and not forgotten
/// since. A slot is found changed exactly if it was, or, where slots are not told apart,
/// if its arena is. The lists hold what is found changed, once each, and the epoch, the
/// marks and the checkpoints are counted.
pub proof fn what_was_marked_is_changed<'a, 'b>(
    track_slots: bool,
    start: DirtyTracker,
    steps: Seq<(&'a mut DirtyTracker, TrackerCall<'b>)>,
    end: DirtyTracker,
)
    requires
        call_ensures(DirtyTracker::new, (track_slots,), start),
        forall|i: int| 0 <= i < steps.len() ==> made(#[trigger] steps[i].0, steps[i].1),
        forall|i: int| 0 <= i < steps.len() - 1 ==> *final(#[trigger] steps[i].0) == *steps[i + 1].0,
        steps.len() > 0 ==> *steps[0].0 == start && *final(steps[steps.len() - 1].0) == end,
        steps.len() == 0 ==> end == start,
    ensures
        end.wf(),
        forall|arena: u32, r: bool| #[trigger]
            call_ensures(DirtyTracker::is_arena_dirty, (&end, arena), r) ==> r == arena_marked(
                calls_of(steps),
                arena,
            ),
        forall|arena: u32, slot: u32, r: bool| #[trigger]
            call_ensures(DirtyTracker::is_slot_dirty, (&end, arena, slot), r) ==> r == if track_slots {
                slot_marked(calls_of(steps), arena, slot)
            } else {
                arena_marked(calls_of(steps), arena)
            },
        forall|ids: Vec<u32>| #[trigger]
            call_ensures(DirtyTracker::dirty_arena_ids, (&end,), ids) ==> ids@.no_duplicates()
                && forall|arena: u32| #[trigger]
                ids@.contains(arena) <==> arena_marked(calls_of(steps), arena),
        forall|arena: u32, ids: Option<Vec<u32>>| #[trigger]
            call_ensures(DirtyTracker::dirty_slot_ids, (&end, arena), ids) ==> match ids {
                Some(ids) => track_slots && ids@.len() > 0 && ids@.no_duplicates() && forall|
                    slot: u32,
                | #[trigger]
                    ids@.contains(slot) <==> slot_marked(calls_of(steps), arena, slot),
                None => !track_slots || forall|slot: u32|
                    !#[trigger] slot_marked(calls_of(steps), arena, slot),
            },
        forall|epoch: u64| #[trigger]
            call_ensures(DirtyTracker::epoch, (&end,), epoch) ==> epoch as int == checkpoints_in(
                calls_of(steps),
            ) as int % 0x1_0000_0000_0000_0000,
        forall|stats: DirtyTrackerStats| #[trigger]
            call_ensures(DirtyTracker::stats, (&end,), stats) ==> stats.track_slots == track_slots
                && stats.total_marks as int == marks_in(calls_of(steps)) as int
                % 0x1_0000_0000_0000_0000 && stats.checkpoint_count as int == checkpoints_in(
                calls_of(steps),
            ) as int % 0x1_0000_0000_0000_0000 && stats.epoch == stats.checkpoint_count,
{
    lemma_kept(track_slots, start, steps, end, steps.len());
    let calls = calls_of(steps);
    assert(calls.take(steps.len() as int) =~= calls);
    assert forall|arena: u32, slot: u32, r: bool| #[trigger]
        call_ensures(DirtyTracker::is_slot_dirty, (&end, arena, slot), r) implies r
        == if track_slots {
        slot_marked(calls, arena, slot)
    } else {
        arena_marked(calls, arena)
    } by {
        if slot_marked(calls, arena, slot) {
            lemma_slot_in_arena(calls, arena, slot);
        }
        assert(has_slot(end, arena, slot) == (track_slots && slot_marked(calls, arena, slot)));
    }
    assert forall|arena: u32, ids: Option<Vec<u32>>| #[trigger]
        call_ensures(DirtyTracker::dirty_slot_ids, (&end, arena), ids) implies match ids {
        Some(ids) => track_slots && ids@.len() > 0 && ids@.no_duplicates() && forall|slot: u32|
         #[trigger]
            ids@.contains(slot) <==> slot_marked(calls, arena, slot),
        None => !track_slots || forall|slot: u32| !#[trigger] slot_marked(calls, arena, slot),
    } by {
        match ids {
            Some(ids) => {
                assert forall|slot: u32| #[trigger] ids@.contains(slot) <==> slot_marked(
                    calls,
                    arena,
                    slot,
                ) by {
                    assert(ids@.contains(slot) <==> ids@.to_set().contains(slot));
                    assert(has_slot(end, arena, slot) == (track_slots && slot_marked(
                        calls,
                        arena,
                        slot,
                    )));
                }
            },
            None => {
                assert forall|slot: u32| track_slots implies !#[trigger] slot_marked(
                    calls,
                    arena,
                    slot,
                ) by {
                    assert(has_slot(end, arena, slot) == (track_slots && slot_marked(
                        calls,
                        arena,
                        slot,
                    )));
                }
            },
        }
    }
    assert forall|ids: Vec<u32>| #[trigger]
        call_ensures(DirtyTracker::dirty_arena_ids, (&end,), ids) implies ids@.no_duplicates()
        && forall|arena: u32| #[trigger]
        ids@.contains(arena) <==> arena_marked(calls, arena) by {
        assert forall|arena: u32| #[trigger] ids@.contains(arena) <==> arena_marked(
            calls,
            arena,
        ) by {
            assert(ids@.contains(arena) <==> ids@.to_set().contains(arena));
        }
    }
}

/// A slot is listed.
spec fn has_slot(tracker: DirtyTracker, arena: u32, slot: u32) -> bool {
    tracker.slots().dom().contains(arena) && tracker.slots()[arena].contains(slot)
}

/// A tracker holds what some calls have marked.
spec fn holds<'b>(tracker: DirtyTracker, track_slots: bool, calls: Seq<TrackerCall<'b>>) -> bool {
    &&& tracker.wf()
    &&& tracker.tracks_slots() == track_slots
    &&& forall|arena: u32| #[trigger] tracker.arenas().contains(arena) == arena_marked(calls, arena)
    &&& forall|arena: u32, slot: u32| #[trigger]
        has_slot(tracker, arena, slot) == (track_slots && slot_marked(calls, arena, slot))
    &&& tracker.marks() as int == marks_in(calls) as int % 0x1_0000_0000_0000_0000
    &&& tracker.checkpoints() as int == checkpoints_in(calls) as int % 0x1_0000_0000_0000_0000
    &&& tracker.current_epoch() == tracker.checkpoints()
}

/// A slot that is marked marks its arena.
proof fn lemma_slot_in_arena<'b>(calls: Seq<TrackerCall<'b>>, arena: u32, slot: u32)
    requires
        slot_marked(calls, arena, slot),
    ensures
        arena_marked(calls, arena),
{
    let i = choose|i: int|
        {
            &&& 0 <= i < calls.len()
            &&& #[trigger] calls[i] == TrackerCall::<'b>::MarkSlot(arena, slot)
            &&& forall|j: int| i < j < calls.len() ==> !forgets(#[trigger] calls[j], arena)
        };
    assert(calls[i] is MarkSlot);
}

/// What one more call marks.
proof fn lemma_marked_push<'b>(calls: Seq<TrackerCall<'b>>, call: TrackerCall<'b>)
    ensures
        forall|arena: u32| #[trigger]
            arena_marked(calls.push(call), arena) == (match call {
                TrackerCall::MarkArena(a) => a == arena,
                TrackerCall::MarkSlot(a, _) => a == arena,
                _ => false,
            } || (arena_marked(calls, arena) && !forgets(call, arena))),
        forall|arena: u32, slot: u32| #[trigger]
            slot_marked(calls.push(call), arena, slot) == (call == TrackerCall::<'b>::MarkSlot(
                arena,
                slot,
            ) || (slot_marked(calls, arena, slot) && !forgets(call, arena))),
        marks_in(calls.push(call)) == marks_in(calls) + if call is MarkArena || call is MarkSlot {
            1nat
        } else {
            0nat
        },
        checkpoints_in(calls.push(call)) == checkpoints_in(calls) + if call is Checkpoint {
            1nat
        } else {
            0nat
        },
{
    let more = calls.push(call);
    let m = calls.len() as int;
    assert(more[m] == call);
    assert(more.drop_last() =~= calls);
    reveal(Seq::filter);
    assert forall|arena: u32| #[trigger] arena_marked(more, arena) == (match call {
        TrackerCall::MarkArena(a) => a == arena,
        TrackerCall::MarkSlot(a, _) => a == arena,
        _ => false,
    } || (arena_marked(calls, arena) && !forgets(call, arena))) by {
        if arena_marked(calls, arena) && !forgets(call, arena) {
            let i = choose|i: int|
                {
                    &&& 0 <= i < calls.len()
                    &&& match #[trigger] calls[i] {
                        TrackerCall::MarkArena(a) => a == arena,
                        TrackerCall::MarkSlot(a, _) => a == arena,
                        _ => false,
                    }
                    &&& forall|j: int| i < j < calls.len() ==> !forgets(#[trigger] calls[j], arena)
                };
            assert(more[i] == calls[i]);
            assert forall|j: int| i < j < more.len() implies !forgets(#[trigger] more[j], arena) by {
                if j < m {
                    assert(more[j] == calls[j]);
                }
            }
        }
        if arena_marked(more, arena) {
            let i = choose|i: int|
                {
                    &&& 0 <= i < more.len()
                    &&& match #[trigger] more[i] {
                        TrackerCall::MarkArena(a) => a == arena,
                        TrackerCall::MarkSlot(a, _) => a == arena,
                        _ => false,
                    }
                    &&& forall|j: int| i < j < more.len() ==> !forgets(#[trigger] more[j], arena)
                };
            if i < m {
                assert(more[i] == calls[i]);
                assert(!forgets(more[m], arena));
                assert forall|j: int| i < j < calls.len() implies !forgets(
                    #[trigger] calls[j],
                    arena,
                ) by {
                    assert(more[j] == calls[j]);
                }
            }
        }
    }
    assert forall|arena: u32, slot: u32| #[trigger] slot_marked(more, arena, slot) == (call
        == TrackerCall::<'b>::MarkSlot(arena, slot) || (slot_marked(calls, arena, slot)
        && !forgets(call, arena))) by {
        if slot_marked(calls, arena, slot) && !forgets(call, arena) {
            let i = choose|i: int|
                {
                    &&& 0 <= i < calls.len()
                    &&& #[trigger] calls[i] == TrackerCall::<'b>::MarkSlot(arena, slot)
                    &&& forall|j: int| i < j < calls.len() ==> !forgets(#[trigger] calls[j], arena)
                };
            assert(more[i] == calls[i]);
            assert forall|j: int| i < j < more.len() implies !forgets(#[trigger] more[j], arena) by {
                if j < m {
                    assert(more[j] == calls[j]);
                }
            }
        }
        if slot_marked(more, arena, slot) {
            let i = choose|i: int|
                {
                    &&& 0 <= i < more.len()
                    &&& #[trigger] more[i] == TrackerCall::<'b>::MarkSlot(arena, slot)
                    &&& forall|j: int| i < j < more.len() ==> !forgets(#[trigger] more[j], arena)
                };
            if i < m {
                assert(more[i] == calls[i]);
                assert(!forgets(more[m], arena));
                assert forall|j: int| i < j < calls.len() implies !forgets(
                    #[trigger] calls[j],
                    arena,
                ) by {
                    assert(more[j] == calls[j]);
                }
            }
        }
    }
}

/// A tracker holds what the calls up to each one have marked.
#[verifier::rlimit(40)]
proof fn lemma_kept<'a, 'b>(
    track_slots: bool,
    start: DirtyTracker,
    steps: Seq<(&'a mut DirtyTracker, TrackerCall<'b>)>,
    end: DirtyTracker,
    k: nat,
)
    requires
        call_ensures(DirtyTracker::new, (track_slots,), start),
        forall|i: int| 0 <= i < steps.len() ==> made(#[trigger] steps[i].0, steps[i].1),
        forall|i: int| 0 <= i < steps.len() - 1 ==> *final(#[trigger] steps[i].0) == *steps[i + 1].0,
        steps.len() > 0 ==> *steps[0].0 == start && *final(steps[steps.len() - 1].0) == end,
        steps.len() == 0 ==> end == start,
        k <= steps.len(),
    ensures
        holds(
            if k < steps.len() {
                *steps[k as int].0
            } else {
                end
            },
            track_slots,
            calls_of(steps).take(k as int),
        ),
    decreases k,
{
    let calls = calls_of(steps);
    if k == 0 {
        assert(calls.take(0) =~= Seq::empty());
        reveal(Seq::filter);
        assert(marks_in(calls.take(0)) == 0);
        assert(checkpoints_in(calls.take(0)) == 0);
    } else {
        let m = k - 1;
        lemma_kept(track_slots, start, steps, end, m as nat);
        let fewer = calls.take(m);
        let call = steps[m].1;
        assert(made(steps[m].0, steps[m].1));
        assert(calls.take(k as int) =~= fewer.push(call));
        lemma_marked_push(fewer, call);
        let before = *steps[m].0;
        let after = *final(steps[m].0);
        assert(after == if k < steps.len() {
            *steps[k as int].0
        } else {
            end
        });
        assert forall|arena: u32| #[trigger] after.arenas().contains(arena) == arena_marked(
            fewer.push(call),
            arena,
        ) by {
            assert(before.arenas().contains(arena) == arena_marked(fewer, arena));
            if let TrackerCall::Clear(arenas) = call {
                assert(arenas@.contains(arena) == forgets(call, arena));
            }
        }
        assert forall|arena: u32, slot: u32| #[trigger] has_slot(after, arena, slot) == (track_slots
            && slot_marked(fewer.push(call), arena, slot)) by {
            assert(has_slot(before, arena, slot) == (track_slots && slot_marked(
                fewer,
                arena,
                slot,
            )));
            if let TrackerCall::Clear(arenas) = call {
                assert(arenas@.to_set().contains(arena) == forgets(call, arena)) by {
                    assert(arenas@.contains(arena) == forgets(call, arena));
                }
            }
        }
        vstd::arithmetic::div_mod::lemma_add_mod_noop(
            marks_in(fewer) as int,
            1,
            0x1_0000_0000_0000_0000,
        );
        vstd::arithmetic::div_mod::lemma_add_mod_noop(
            checkpoints_in(fewer) as int,
            1,
            0x1_0000_0000_0000_0000,
        );
    }
}

/// Two trackers tell slots apart or not as they were made, and a default one does not.
pub proof fn trackers_are_made_as_named(arenas: DirtyTracker, slots: DirtyTracker, r: DirtyTrackerStats, s: DirtyTrackerStats)
    requires
        call_ensures(DirtyTracker::arena_level, (), arenas),
        call_ensures(DirtyTracker::slot_level, (), slots),
        call_ensures(DirtyTracker::stats, (&arenas,), r),
        call_ensures(DirtyTracker::stats, (&slots,), s),
    ensures
        !r.track_slots,
        s.track_slots,
        r.dirty_arenas == 0 && r.total_marks == 0 && r.checkpoint_count == 0 && r.epoch == 0,
        s.dirty_arenas == 0 && s.total_marks == 0 && s.checkpoint_count == 0 && s.epoch == 0,
{
}

/// The counts of a tracker agree: as many arenas are counted as are listed, and the
/// numbers of its state are those that it gives one by one.
pub proof fn counts_agree(
    tracker: DirtyTracker,
    ids: Vec<u32>,
    count: usize,
    stats: DirtyTrackerStats,
    epoch: u64,
)
    requires
        tracker.wf(),
        call_ensures(DirtyTracker::dirty_arena_ids, (&tracker,), ids),
        call_ensures(DirtyTracker::dirty_arena_count, (&tracker,), count),
        call_ensures(DirtyTracker::stats, (&tracker,), stats),
        call_ensures(DirtyTracker::epoch, (&tracker,), epoch),
    ensures
        count == ids@.len(),
        stats.dirty_arenas == count,
        stats.epoch == epoch,
{
    ids@.unique_seq_to_set();
}

/// Marking a slot that was not marked counts one slot more, and marking one that was
/// counts none, modulo the machine word.
pub proof fn a_marked_slot_counts_once(
    tracker: &mut DirtyTracker,
    before: DirtyTracker,
    after: DirtyTracker,
    arena: u32,
    slot: u32,
    was: bool,
    is: bool,
    count: usize,
    now_count: usize,
    stats: DirtyTrackerStats,
)
    requires
        *tracker == before,
        *final(tracker) == after,
        before.wf(),
        before.tracks_slots(),
        call_ensures(DirtyTracker::is_slot_dirty, (&before, arena, slot), was),
        call_ensures(DirtyTracker::mark_slot_dirty, (tracker, arena, slot), ()),
        call_ensures(DirtyTracker::is_slot_dirty, (&after, arena, slot), is),
        call_ensures(DirtyTracker::dirty_slot_count, (&before,), count),
        call_ensures(DirtyTracker::dirty_slot_count, (&after,), now_count),
        call_ensures(DirtyTracker::stats, (&after,), stats),
    ensures
        is,
        was ==> now_count == count,
        !was ==> now_count as int == (count + 1) % (usize::MAX + 1),
        stats.dirty_slots == now_count,
{
    before.lemma_slots_in_arenas(arena);
    let p = choose|n: nat| #[trigger]
        before.is_slot_count(n) && count == n % (usize::MAX + 1) as nat;
    let q = choose|n: nat| #[trigger]
        after.is_slot_count(n) && now_count == n % (usize::MAX + 1) as nat;
    let s = choose|n: nat| #[trigger]
        after.is_slot_count(n) && stats.dirty_slots == n % (usize::MAX + 1) as nat;
    lemma_one_count(after, q, s);
    changes_are_finite(before);
    changes_are_finite(after);
    let list = choose|arenas: Seq<u32>|
        arenas.no_duplicates() && arenas.to_set() == before.slots().dom() && p
            == #[trigger] slot_sum(before.slots(), arenas);
    let (x, y) = (before.slots(), after.slots());
    if x.dom().contains(arena) {
        lemma_changed_sum(x, y, list, arena);
        assert(x[arena].insert(slot).len() == x[arena].len() + if was {
            0nat
        } else {
            1nat
        }) by {
            if was {
                assert(x[arena].insert(slot) =~= x[arena]);
            }
        }
        assert(list.contains(arena)) by {
            assert(list.to_set().contains(arena));
        }
        assert(y.dom() =~= x.dom());
        assert(after.is_slot_count(slot_sum(y, list)));
        lemma_one_count(after, q, slot_sum(y, list));
    } else {
        let longer = list.push(arena);
        assert(!list.contains(arena)) by {
            assert(!list.to_set().contains(arena));
        }
        lemma_changed_sum(x, y, list, arena);
        assert(longer.drop_last() =~= list);
        assert(longer.to_set() =~= y.dom()) by {
            assert forall|a: u32| longer.to_set().contains(a) == y.dom().contains(a) by {
                if list.to_set().contains(a) {
                    let i = choose|i: int| 0 <= i < list.len() && list[i] == a;
                    assert(longer[i] == a);
                }
                assert(longer[list.len() as int] == arena);
                if longer.contains(a) {
                    let i = choose|i: int| 0 <= i < longer.len() && longer[i] == a;
                    if i < list.len() {
                        assert(list[i] == a);
                        assert(list.to_set().contains(a));
                    }
                }
            }
        }
        assert(Set::<u32>::empty().insert(slot).len() == 1);
        assert(y[arena].len() == 1);
        assert(slot_sum(y, longer) == slot_sum(x, list) + 1);
        assert(after.is_slot_count(slot_sum(y, longer)));
        lemma_one_count(after, q, slot_sum(y, longer));
    }
    vstd::arithmetic::div_mod::lemma_add_mod_noop(p as int, 1, usize::MAX + 1);
    vstd::arithmetic::div_mod::lemma_small_mod(1, (usize::MAX + 1) as nat);
}

/// How many slots some lists hold together.
pub open spec fn listed_slots(lists: Seq<Option<Vec<u32>>>) -> nat
    decreases lists.len(),
{
    if lists.len() == 0 {
        0
    } else {
        listed_slots(lists.drop_last()) + match lists.last() {
            Some(list) => list@.len(),
            None => 0,
        }
    }
}

/// As many slots are counted as are listed for all changed arenas together, modulo the
/// machine word; so a tracker that has seen no change, or none since a checkpoint, counts
/// none.
pub proof fn slots_are_counted_as_listed(
    tracker: DirtyTracker,
    arenas: Vec<u32>,
    lists: Seq<Option<Vec<u32>>>,
    count: usize,
)
    requires
        tracker.wf(),
        call_ensures(DirtyTracker::dirty_arena_ids, (&tracker,), arenas),
        lists.len() == arenas@.len(),
        forall|i: int|
            0 <= i < lists.len() ==> call_ensures(
                DirtyTracker::dirty_slot_ids,
                (&tracker, #[trigger] arenas@[i]),
                lists[i],
            ),
        call_ensures(DirtyTracker::dirty_slot_count, (&tracker,), count),
    ensures
        count as int == listed_slots(lists) as int % (usize::MAX + 1),
        arenas@.len() == 0 ==> count == 0,
{
    let n = choose|n: nat| #[trigger]
        tracker.is_slot_count(n) && count == n % (usize::MAX + 1) as nat;
    let slots = tracker.slots();
    if tracker.tracks_slots() {
        changes_are_finite(tracker);
        let all = with_slots(slots, arenas@);
        lemma_with_slots(slots, arenas@);
        lemma_listed_sum(tracker, arenas@, lists, lists.len() as int);
        assert(lists.take(lists.len() as int) =~= lists);
        assert(arenas@.take(lists.len() as int) =~= arenas@);
        assert(all.to_set() =~= slots.dom()) by {
            assert forall|a: u32| all.to_set().contains(a) == slots.dom().contains(a) by {
                tracker.lemma_slots_in_arenas(a);
                if slots.dom().contains(a) {
                    assert(arenas@.to_set().contains(a));
                }
            }
        }
        assert(tracker.is_slot_count(slot_sum(slots, all)));
        lemma_one_count(tracker, n, slot_sum(slots, all));
    } else {
        assert forall|i: int| 0 <= i < lists.len() implies (#[trigger] lists[i]) is None by {
            assert(call_ensures(
                DirtyTracker::dirty_slot_ids,
                (&tracker, arenas@[i]),
                lists[i],
            ));
        }
        lemma_nothing_listed(lists, lists.len() as int);
        assert(lists.take(lists.len() as int) =~= lists);
        vstd::arithmetic::div_mod::lemma_small_mod(0, (usize::MAX + 1) as nat);
    }
    if arenas@.len() == 0 {
        vstd::arithmetic::div_mod::lemma_small_mod(0, (usize::MAX + 1) as nat);
    }
}

/// The arenas of a list that have slots.
spec fn with_slots(slots: Map<u32, Set<u32>>, arenas: Seq<u32>) -> Seq<u32>
    decreases arenas.len(),
{
    if arenas.len() == 0 {
        Seq::empty()
    } else if slots.dom().contains(arenas.last()) {
        with_slots(slots, arenas.drop_last()).push(arenas.last())
    } else {
        with_slots(slots, arenas.drop_last())
    }
}

/// What the arenas with slots are.
proof fn lemma_with_slots(slots: Map<u32, Set<u32>>, arenas: Seq<u32>)
    requires
        arenas.no_duplicates(),
    ensures
        with_slots(slots, arenas).no_duplicates(),
        forall|a: u32| #[trigger]
            with_slots(slots, arenas).contains(a) <==> arenas.contains(a) && slots.dom().contains(a),
    decreases arenas.len(),
{
    if arenas.len() > 0 {
        let fewer = arenas.drop_last();
        let m = arenas.len() - 1;
        lemma_with_slots(slots, fewer);
        let before = with_slots(slots, fewer);
        let all = with_slots(slots, arenas);
        assert(arenas[m] == arenas.last());
        assert forall|a: u32| arenas.contains(a) <==> fewer.contains(a) || a == arenas.last() by {
            if arenas.contains(a) {
                let i = choose|i: int| 0 <= i < arenas.len() && arenas[i] == a;
                if i < m {
                    assert(fewer[i] == a);
                }
            }
            if fewer.contains(a) {
                let i = choose|i: int| 0 <= i < fewer.len() && fewer[i] == a;
                assert(arenas[i] == a);
            }
        }
        assert(!fewer.contains(arenas.last())) by {
            if fewer.contains(arenas.last()) {
                let i = choose|i: int| 0 <= i < fewer.len() && fewer[i] == arenas.last();
                assert(arenas[i] == arenas[m]);
            }
        }
        if slots.dom().contains(arenas.last()) {
            assert(!before.contains(arenas.last()));
            assert forall|a: u32| all.contains(a) <==> before.contains(a) || a == arenas.last() by {
                if all.contains(a) {
                    let i = choose|i: int| 0 <= i < all.len() && all[i] == a;
                    if i < before.len() {
                        assert(before[i] == a);
                    }
                }
                if before.contains(a) {
                    let i = choose|i: int| 0 <= i < before.len() && before[i] == a;
                    assert(all[i] == a);
                }
                assert(all[before.len() as int] == arenas.last());
            }
            assert forall|i: int, j: int| 0 <= i < j < all.len() implies all[i] != all[j] by {
                assert(all[i] == before[i]);
                if j < before.len() {
                    assert(all[j] == before[j]);
                } else {
                    assert(before.contains(before[i]));
                }
            }
        }
    }
}

/// The slots that are listed for the first arenas.
proof fn lemma_listed_sum(
    tracker: DirtyTracker,
    arenas: Seq<u32>,
    lists: Seq<Option<Vec<u32>>>,
    k: int,
)
    requires
        tracker.wf(),
        tracker.tracks_slots(),
        lists.len() == arenas.len(),
        forall|i: int|
            0 <= i < lists.len() ==> call_ensures(
                DirtyTracker::dirty_slot_ids,
                (&tracker, #[trigger] arenas[i]),
                lists[i],
            ),
        0 <= k <= lists.len(),
    ensures
        listed_slots(lists.take(k)) == slot_sum(
            tracker.slots(),
            with_slots(tracker.slots(), arenas.take(k)),
        ),
    decreases k,
{
    if k > 0 {
        lemma_listed_sum(tracker, arenas, lists, k - 1);
        assert(lists.take(k).drop_last() =~= lists.take(k - 1));
        assert(arenas.take(k).drop_last() =~= arenas.take(k - 1));
        let arena = arenas[k - 1];
        assert(arenas.take(k).last() == arena);
        assert(lists.take(k).last() == lists[k - 1]);
        let before = with_slots(tracker.slots(), arenas.take(k - 1));
        match lists[k - 1] {
            Some(list) => {
                list@.unique_seq_to_set();
                assert(before.push(arena).drop_last() =~= before);
            },
            None => {},
        }
    } else {
        assert(lists.take(0) =~= Seq::empty());
        assert(arenas.take(0) =~= Seq::empty());
    }
}

/// Lists that are not there hold nothing.
proof fn lemma_nothing_listed(lists: Seq<Option<Vec<u32>>>, k: int)
    requires
        0 <= k <= lists.len(),
        forall|i: int| 0 <= i < lists.len() ==> (#[trigger] lists[i]) is None,
    ensures
        listed_slots(lists.take(k)) == 0,
    decreases k,
{
    if k > 0 {
        lemma_nothing_listed(lists, k - 1);
        assert(lists.take(k).drop_last() =~= lists.take(k - 1));
        assert(lists.take(k).last() == lists[k - 1]);
    }
}

/// A sum over arenas changes with one of them.
proof fn lemma_changed_sum(x: Map<u32, Set<u32>>, y: Map<u32, Set<u32>>, list: Seq<u32>, arena: u32)
    requires
        list.no_duplicates(),
        forall|a: u32| a != arena ==> #[trigger] x[a] == y[a],
    ensures
        slot_sum(y, list) == slot_sum(x, list) + if list.contains(arena) {
            y[arena].len() - x[arena].len()
        } else {
            0
        },
    decreases list.len(),
{
    if list.len() > 0 {
        let fewer = list.drop_last();
        lemma_changed_sum(x, y, fewer, arena);
        assert(list.last() == list[list.len() - 1]);
        if fewer.contains(arena) {
            let i = choose|i: int| 0 <= i < fewer.len() && fewer[i] == arena;
            assert(list[i] == arena);
        } else if list.contains(arena) {
            let i = choose|i: int| 0 <= i < list.len() && list[i] == arena;
            if i < fewer.len() {
                assert(fewer[i] == arena);
            }
        }
    }
}

/// The slots of all arenas are counted in one way only.
proof fn lemma_one_count(tracker: DirtyTracker, p: nat, q: nat)
    requires
        tracker.is_slot_count(p),
        tracker.is_slot_count(q),
    ensures
        p == q,
{
    let a = choose|arenas: Seq<u32>|
        arenas.no_duplicates() && arenas.to_set() == tracker.slots().dom() && p
            == #[trigger] slot_sum(tracker.slots(), arenas);
    let b = choose|arenas: Seq<u32>|
        arenas.no_duplicates() && arenas.to_set() == tracker.slots().dom() && q
            == #[trigger] slot_sum(tracker.slots(), arenas);
    lemma_same_sum(tracker.slots(), a, b);
}

/// The order of arenas does not matter to a sum.
proof fn lemma_same_sum(slots: Map<u32, Set<u32>>, a: Seq<u32>, b: Seq<u32>)
    requires
        a.no_duplicates(),
        b.no_duplicates(),
        a.to_set() == b.to_set(),
    ensures
        slot_sum(slots, a) == slot_sum(slots, b),
    decreases a.len(),
{
    a.unique_seq_to_set();
    b.unique_seq_to_set();
    if a.len() > 0 {
        let x = a.last();
        assert(a.to_set().contains(x));
        let i = choose|i: int| 0 <= i < b.len() && b[i] == x;
        let c = b.remove(i);
        assert(a.drop_last().to_set() =~= c.to_set()) by {
            assert forall|y: u32| a.drop_last().to_set().contains(y) == c.to_set().contains(y) by {
                if a.drop_last().contains(y) {
                    let k = choose|k: int| 0 <= k < a.len() - 1 && a.drop_last()[k] == y;
                    assert(a[k] == y && a[a.len() - 1] == x);
                    assert(a.to_set().contains(y));
                    let l = choose|l: int| 0 <= l < b.len() && b[l] == y;
                    assert(l != i);
                    if l < i {
                        assert(c[l] == y);
                    } else {
                        assert(c[l - 1] == y);
                    }
                }
                if c.contains(y) {
                    let l = choose|l: int| 0 <= l < c.len() && c[l] == y;
                    if l < i {
                        assert(b[l] == y);
                    } else {
                        assert(b[l + 1] == y);
                    }
                    assert(y != x);
                    assert(b.to_set().contains(y));
                    let k = choose|k: int| 0 <= k < a.len() && a[k] == y;
                    assert(a.drop_last()[k] == y);
                }
            }
        }
        assert(c.no_duplicates()) by {
            assert forall|k: int, l: int| 0 <= k < l < c.len() implies c[k] != c[l] by {
                let kk = if k < i {
                    k
                } else {
                    k + 1
                };
                let ll = if l < i {
                    l
                } else {
                    l + 1
                };
                assert(c[k] == b[kk] && c[l] == b[ll]);
            }
        }
        lemma_same_sum(slots, a.drop_last(), c);
        lemma_sum_remove(slots, b, i);
    } else {
        assert(b.len() == 0);
    }
}

/// A sum without one arena.
proof fn lemma_sum_remove(slots: Map<u32, Set<u32>>, b: Seq<u32>, i: int)
    requires
        0 <= i < b.len(),
    ensures
        slot_sum(slots, b) == slot_sum(slots, b.remove(i)) + slots[b[i]].len(),
    decreases b.len(),
{
    if i == b.len() - 1 {
        assert(b.remove(i) =~= b.drop_last());
    } else {
        lemma_sum_remove(slots, b.drop_last(), i);
        assert(b.drop_last().remove(i) =~= b.remove(i).drop_last());
        assert(b.remove(i).last() == b.last());
    }
}

/// Merging makes changed what is changed in either: arenas always, and slots where both
/// trackers tell them apart. Marks add up, and the epoch stays.
pub proof fn merging_joins_changes(
    tracker: &mut DirtyTracker,
    before: DirtyTracker,
    after: DirtyTracker,
    other: DirtyTracker,
    arena: u32,
    slot: u32,
    arena_mine: bool,
    arena_theirs: bool,
    arena_now: bool,
    slot_mine: bool,
    slot_theirs: bool,
    slot_now: bool,
    mine: DirtyTrackerStats,
    theirs: DirtyTrackerStats,
    now: DirtyTrackerStats,
)
    requires
        *tracker == before,
        *final(tracker) == after,
        before.wf(),
        other.wf(),
        call_ensures(DirtyTracker::merge, (tracker, &other), ()),
        call_ensures(DirtyTracker::is_arena_dirty, (&before, arena), arena_mine),
        call_ensures(DirtyTracker::is_arena_dirty, (&other, arena), arena_theirs),
        call_ensures(DirtyTracker::is_arena_dirty, (&after, arena), arena_now),
        call_ensures(DirtyTracker::is_slot_dirty, (&before, arena, slot), slot_mine),
        call_ensures(DirtyTracker::is_slot_dirty, (&other, arena, slot), slot_theirs),
        call_ensures(DirtyTracker::is_slot_dirty, (&after, arena, slot), slot_now),
        call_ensures(DirtyTracker::stats, (&before,), mine),
        call_ensures(DirtyTracker::stats, (&other,), theirs),
        call_ensures(DirtyTracker::stats, (&after,), now),
    ensures
        arena_now <==> arena_mine || arena_theirs,
        mine.track_slots && theirs.track_slots ==> (slot_now <==> slot_mine || slot_theirs),
        mine.track_slots && !theirs.track_slots ==> slot_now == slot_mine,
        !mine.track_slots ==> slot_now == arena_now,
        now.total_marks as int == (mine.total_marks + theirs.total_marks)
            % 0x1_0000_0000_0000_0000,
        now.epoch == mine.epoch,
        now.checkpoint_count == mine.checkpoint_count,
        now.track_slots == mine.track_slots,
{
    before.lemma_slots_in_arenas(arena);
    other.lemma_slots_in_arenas(arena);
}

/// A full checkpoint writes every arena and an incremental one those that have changed;
/// an incremental one writes less exactly if fewer have changed than there are.
pub proof fn an_incremental_checkpoint_writes_what_changed(
    stats: DirtyTrackerStats,
    arenas: usize,
    size: usize,
    written: (usize, usize),
)
    requires
        arenas * size <= usize::MAX,
        stats.dirty_arenas * size <= usize::MAX,
        call_ensures(DirtyTrackerStats::checkpoint_bytes, (&stats, arenas, size), written),
    ensures
        size > 0 ==> written.0 as int / size as int == arenas && written.0 as int % size as int
            == 0,
        size > 0 ==> written.1 as int / size as int == stats.dirty_arenas && written.1 as int
            % size as int == 0,
        size == 0 ==> written.0 == 0 && written.1 == 0,
        size > 0 ==> (written.1 < written.0 <==> stats.dirty_arenas < arenas),
{
    if size > 0 {
        let (a, d, s) = (arenas as int, stats.dirty_arenas as int, size as int);
        vstd::arithmetic::div_mod::lemma_div_multiples_vanish(a, s);
        vstd::arithmetic::div_mod::lemma_mod_multiples_basic(a, s);
        vstd::arithmetic::div_mod::lemma_div_multiples_vanish(d, s);
        vstd::arithmetic::div_mod::lemma_mod_multiples_basic(d, s);
        vstd::arithmetic::mul::lemma_mul_is_commutative(a, s);
        vstd::arithmetic::mul::lemma_mul_is_commutative(d, s);
        assert(d < a <==> d * s < a * s) by (nonlinear_arith)
            requires
                s > 0,
        ;
    }
}

/// A batch marks as a tracker does, is worth handing on exactly if as many arenas have
/// changed as were asked for, and hands on what it has collected.
pub proof fn a_batch_collects_and_hands_on(
    batch: &mut BatchDirtyTracker,
    arena_batch: &mut BatchDirtyTracker,
    slot_batch: &mut BatchDirtyTracker,
    arena_tracker: &mut DirtyTracker,
    slot_tracker: &mut DirtyTracker,
    before: BatchDirtyTracker,
    taken: BatchDirtyTracker,
    with_arena: BatchDirtyTracker,
    with_slot: BatchDirtyTracker,
    alone: DirtyTracker,
    alone_arena: DirtyTracker,
    alone_slot: DirtyTracker,
    arena: u32,
    slot: u32,
    count: usize,
    worth: bool,
    handed: DirtyTracker,
    left: usize,
)
    requires
        *batch == before,
        *arena_batch == before,
        *slot_batch == before,
        *final(batch) == taken,
        *final(arena_batch) == with_arena,
        *final(slot_batch) == with_slot,
        *arena_tracker == alone,
        *slot_tracker == alone,
        *final(arena_tracker) == alone_arena,
        *final(slot_tracker) == alone_slot,
        before.collected() == alone,
        alone.wf(),
        call_ensures(BatchDirtyTracker::mark_arena_dirty, (arena_batch, arena), ()),
        call_ensures(BatchDirtyTracker::mark_slot_dirty, (slot_batch, arena, slot), ()),
        call_ensures(DirtyTracker::mark_arena_dirty, (arena_tracker, arena), ()),
        call_ensures(DirtyTracker::mark_slot_dirty, (slot_tracker, arena, slot), ()),
        call_ensures(BatchDirtyTracker::dirty_count, (&before,), count),
        call_ensures(BatchDirtyTracker::should_merge, (&before,), worth),
        call_ensures(BatchDirtyTracker::take, (batch,), handed),
        call_ensures(BatchDirtyTracker::dirty_count, (&taken,), left),
    ensures
        with_arena.collected().arenas() == alone_arena.arenas(),
        with_arena.collected().slots() == alone_arena.slots(),
        with_arena.collected().marks() == alone_arena.marks(),
        with_slot.collected().arenas() == alone_slot.arenas(),
        with_slot.collected().slots() == alone_slot.slots(),
        with_slot.collected().marks() == alone_slot.marks(),
        with_arena.threshold() == before.threshold(),
        with_slot.threshold() == before.threshold(),
        taken.threshold() == before.threshold(),
        forall|n: usize| #[trigger]
            call_ensures(DirtyTracker::dirty_arena_count, (&alone,), n) ==> n == count,
        worth <==> count >= before.threshold(),
        handed == alone,
        left == 0,
        forall|track_slots: bool, threshold: usize, fresh: BatchDirtyTracker, w: bool|
            #[trigger] call_ensures(BatchDirtyTracker::new, (track_slots, threshold), fresh)
                && #[trigger] call_ensures(BatchDirtyTracker::should_merge, (&fresh,), w) ==> (w
                <==> threshold == 0),
{
}

} // verus!
