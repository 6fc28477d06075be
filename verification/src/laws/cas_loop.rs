//! The loop of an insertion or removal whose record is durable: how it ends, and what
//! it asks for on the way.

use vstd::prelude::*;
use crate::error::PersistentARTrieError;
use crate::overlay::cas_driver::{
    drive_answers, CacheDirection, CasDriver, CasOutcome, DriveEvent, DrivePhase, InsertAttempt,
    RemoveAttempt,
};
use crate::wal::Lsn;

verus! {

/// The last outcome of an attempt among some events.
pub open spec fn last_attempt(events: Seq<DriveEvent>) -> Option<CasOutcome>
    decreases events.len(),
{
    if events.len() == 0 {
        None
    } else {
        match events.last() {
            DriveEvent::Attempted(outcome) => Some(outcome),
            _ => last_attempt(events.drop_last()),
        }
    }
}

/// The last generation that was claimed among some events.
pub open spec fn last_claim(events: Seq<DriveEvent>) -> Option<u64>
    decreases events.len(),
{
    if events.len() == 0 {
        None
    } else {
        match events.last() {
            DriveEvent::Claimed(generation) => Some(generation),
            _ => last_claim(events.drop_last()),
        }
    }
}

/// The events that were reported.
pub open spec fn events_of<'a>(steps: Seq<(&'a mut CasDriver, DriveEvent)>) -> Seq<DriveEvent> {
    Seq::new(steps.len(), |i: int| steps[i].1)
}

/// The loop is told an event that answers its phase.
pub open spec fn told(driver: &mut CasDriver, event: DriveEvent) -> bool {
    &&& drive_answers(driver.phase, event)
    &&& exists|error: Option<PersistentARTrieError>| #[trigger]
        call_ensures(CasDriver::drive_cas, (driver, event), error)
}

/// What the phase of a loop says of the events that were reported to it.
pub open spec fn reported(phase: DrivePhase, events: Seq<DriveEvent>) -> bool {
    match phase {
        DrivePhase::Claim => events.len() == 0 || events.last() is Performed && last_attempt(
            events,
        ) == Some(CasOutcome::Conflict),
        DrivePhase::Attempt { generation } => events.len() > 0 && events.last()
            == DriveEvent::Claimed(generation),
        DrivePhase::CountRetry { generation } => events.len() > 0 && events.last()
            == DriveEvent::Attempted(CasOutcome::Conflict) && last_claim(events) == Some(
            generation,
        ),
        DrivePhase::TouchCache { applied, generation } => events.len() > 0 && events.last()
            == DriveEvent::Attempted(
            if applied {
                CasOutcome::Applied
            } else {
                CasOutcome::Idempotent
            },
        ) && last_claim(events) == Some(generation),
        DrivePhase::Rank { generation } => last_attempt(events) == Some(CasOutcome::Applied)
            && last_claim(events) == Some(generation) && events.last() is Performed,
        DrivePhase::Mark { generation, rank_lsn } => last_attempt(events) == Some(
            CasOutcome::Applied,
        ) && last_claim(events) == Some(generation) && events.len() > 0 && events.last()
            == DriveEvent::Ranked(rank_lsn),
        DrivePhase::Burn => last_attempt(events) == Some(CasOutcome::Idempotent)
            && events.last() is Performed,
        DrivePhase::Done(applied) => last_attempt(events) == Some(
            if applied {
                CasOutcome::Applied
            } else {
                CasOutcome::Idempotent
            },
        ) && events.last() is Performed,
        DrivePhase::Failed => events.len() > 0 && (events.last() is RankFailed && last_attempt(
            events,
        ) == Some(CasOutcome::Applied) || (events.last() matches DriveEvent::Attempted(outcome)
            && outcome is IoError)),
    }
}

/// A loop is where the events that were reported to it have led: it ends with true
/// exactly if its last attempt was applied, and with false exactly if there was nothing
/// to do; it asks for a rank only after an attempt that was applied, with the generation
/// that was claimed last; it marks the rank that was made durable; it fails only if the
/// rank or a load failed. What it was started for does not change.
pub proof fn a_loop_ends_as_its_last_attempt<'a>(
    data_lsn: Lsn,
    start: CasDriver,
    steps: Seq<(&'a mut CasDriver, DriveEvent)>,
    end: CasDriver,
)
    requires
        call_ensures(CasDriver::drive_insert_cas, (data_lsn,), start) || call_ensures(
            CasDriver::drive_remove_cas,
            (data_lsn,),
            start,
        ),
        forall|i: int|
            0 <= i < steps.len() ==> told(#[trigger] steps[i].0, steps[i].1),
        forall|i: int| 0 <= i < steps.len() - 1 ==> *final(#[trigger] steps[i].0) == *steps[i + 1].0,
        steps.len() > 0 ==> *steps[0].0 == start && *final(steps[steps.len() - 1].0) == end,
        steps.len() == 0 ==> end == start,
    ensures
        reported(end.phase, events_of(steps)),
        end.data_lsn == data_lsn,
        end.cache == start.cache,
        end.phase matches DrivePhase::Done(applied) ==> (applied <==> last_attempt(
            events_of(steps),
        ) == Some(CasOutcome::Applied)) && (!applied <==> last_attempt(events_of(steps)) == Some(
            CasOutcome::Idempotent,
        )),
        end.phase matches DrivePhase::Rank { generation } ==> last_attempt(events_of(steps))
            == Some(CasOutcome::Applied) && last_claim(events_of(steps)) == Some(generation),
        end.phase is Burn ==> last_attempt(events_of(steps)) == Some(CasOutcome::Idempotent),
{
    lemma_reported(data_lsn, start, steps, end, steps.len());
    assert(events_of(steps).take(steps.len() as int) =~= events_of(steps));
}

/// Where some events have led.
proof fn lemma_reported<'a>(
    data_lsn: Lsn,
    start: CasDriver,
    steps: Seq<(&'a mut CasDriver, DriveEvent)>,
    end: CasDriver,
    k: nat,
)
    requires
        start.phase == DrivePhase::Claim,
        start.data_lsn == data_lsn,
        forall|i: int|
            0 <= i < steps.len() ==> told(#[trigger] steps[i].0, steps[i].1),
        forall|i: int| 0 <= i < steps.len() - 1 ==> *final(#[trigger] steps[i].0) == *steps[i + 1].0,
        steps.len() > 0 ==> *steps[0].0 == start && *final(steps[steps.len() - 1].0) == end,
        steps.len() == 0 ==> end == start,
        k <= steps.len(),
    ensures
        ({
            let here = if k < steps.len() {
                *steps[k as int].0
            } else {
                end
            };
            &&& reported(here.phase, events_of(steps).take(k as int))
            &&& here.data_lsn == data_lsn
            &&& here.cache == start.cache
        }),
    decreases k,
{
    let events = events_of(steps);
    if k == 0 {
        assert(events.take(0) =~= Seq::empty());
    } else {
        let m = k - 1;
        lemma_reported(data_lsn, start, steps, end, m as nat);
        let event = steps[m].1;
        assert(told(steps[m].0, steps[m].1));
        let more = events.take(k as int);
        assert(more =~= events.take(m).push(event));
        assert(more.drop_last() =~= events.take(m));
        assert(more.last() == event);
        assert(*final(steps[m].0) == if k < steps.len() {
            *steps[k as int].0
        } else {
            end
        });
    }
}

/// Every answer leads on: a loop that is told what it asked for takes the next step, a
/// conflict leads to another claim, and an attempt that could not load hands its error
/// back.
pub proof fn a_loop_goes_on(
    driver: &mut CasDriver,
    before: CasDriver,
    after: CasDriver,
    event: DriveEvent,
    error: Option<PersistentARTrieError>,
)
    requires
        *driver == before,
        *final(driver) == after,
        drive_answers(before.phase, event),
        call_ensures(CasDriver::drive_cas, (driver, event), error),
    ensures
        after.data_lsn == before.data_lsn,
        after.cache == before.cache,
        event matches DriveEvent::Claimed(generation) ==> before.phase == DrivePhase::Claim
            && after.phase == (DrivePhase::Attempt { generation }),
        event matches DriveEvent::Attempted(outcome) ==> (before.phase is Attempt && {
            let generation = before.phase->Attempt_generation;
            match outcome {
                CasOutcome::Applied => after.phase matches DrivePhase::TouchCache {
                    applied: true,
                    generation: g,
                } && g == generation,
                CasOutcome::Idempotent => after.phase matches DrivePhase::TouchCache {
                    applied: false,
                    generation: g,
                } && g == generation,
                CasOutcome::Conflict => after.phase matches DrivePhase::CountRetry { generation: g }
                    && g == generation,
                CasOutcome::IoError(e) => after.phase is Failed,
            }
        }),
        error is Some <==> (event matches DriveEvent::Attempted(outcome) && outcome is IoError),
        error matches Some(e) ==> event == DriveEvent::Attempted(CasOutcome::IoError(e)),
        before.phase is CountRetry ==> after.phase == DrivePhase::Claim,
        before.phase matches DrivePhase::TouchCache { applied, generation } ==> if applied {
            after.phase == (DrivePhase::Rank { generation })
        } else {
            after.phase == DrivePhase::Burn
        },
        event matches DriveEvent::Ranked(rank_lsn) ==> (before.phase is Rank && (
        after.phase matches DrivePhase::Mark { generation, rank_lsn: l } && l == rank_lsn
            && generation == before.phase->Rank_generation)),
        event is RankFailed ==> before.phase is Rank && after.phase is Failed,
        before.phase is Mark ==> after.phase == DrivePhase::Done(true),
        before.phase is Burn ==> after.phase == DrivePhase::Done(false),
{
}

/// An insertion tells the cache that the term is there, a removal that it may not be;
/// both begin with a claim.
pub proof fn a_loop_begins_with_a_claim(data_lsn: Lsn, insert: CasDriver, remove: CasDriver)
    requires
        call_ensures(CasDriver::drive_insert_cas, (data_lsn,), insert),
        call_ensures(CasDriver::drive_remove_cas, (data_lsn,), remove),
    ensures
        insert.phase == DrivePhase::Claim,
        remove.phase == DrivePhase::Claim,
        insert.data_lsn == data_lsn,
        remove.data_lsn == data_lsn,
        insert.cache == CacheDirection::MarkPresent,
        remove.cache == CacheDirection::Invalidate,
{
}

/// What an attempt is to the loop: applied exactly if it changed the set of terms,
/// nothing to do exactly if the term was there or was not there already, and a conflict
/// or an error as it was.
pub proof fn an_attempt_is_applied_if_it_changed_something(
    insert: InsertAttempt,
    inserted: CasOutcome,
    remove: RemoveAttempt,
    removed: CasOutcome,
)
    requires
        call_ensures(InsertAttempt::outcome, (insert,), inserted),
        call_ensures(RemoveAttempt::outcome, (remove,), removed),
    ensures
        insert is Inserted <==> inserted is Applied,
        insert is AlreadyExists <==> inserted is Idempotent,
        insert is Conflict <==> inserted is Conflict,
        insert is IoError <==> inserted is IoError,
        insert is IoError ==> insert->IoError_0 == inserted->IoError_0,
        remove is Removed <==> removed is Applied,
        remove is AlreadyAbsent <==> removed is Idempotent,
        remove is Conflict <==> removed is Conflict,
        remove is IoError <==> removed is IoError,
        remove is IoError ==> remove->IoError_0 == removed->IoError_0,
{
}

} // verus!
