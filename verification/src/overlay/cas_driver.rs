//! The retry loop of a durable insertion or removal whose record is already durable.
//!
//! The caller performs the action of the current phase and reports what came of it.

use vstd::prelude::*;
use crate::error::PersistentARTrieError;
use crate::wal::Lsn;

verus! {

/// What came of one attempt to remove a term.
pub enum RemoveAttempt {
    /// The term was there, and is gone.
    Removed,
    /// The term was not there.
    AlreadyAbsent,
    /// Another root was published in between.
    Conflict,
    /// A durable part of the path could not be loaded.
    IoError(PersistentARTrieError),
}

/// What came of one attempt to insert a term.
pub enum InsertAttempt {
    /// The term is new.
    Inserted,
    /// The term was there.
    AlreadyExists,
    /// Another root was published in between.
    Conflict,
    /// A durable part of the path could not be loaded.
    IoError(PersistentARTrieError),
}

/// What came of one attempt.
pub enum CasOutcome {
    /// The write is visible.
    Applied,
    /// There was nothing to do.
    Idempotent,
    /// Another root was published in between.
    Conflict,
    /// A durable part of the path could not be loaded.
    IoError(PersistentARTrieError),
}

/// What the cache of present terms learns.
#[derive(Clone, Copy, Debug, PartialEq, Eq, Structural)]
pub enum CacheDirection {
    /// The term is there.
    MarkPresent,
    /// The term may not be there.
    Invalidate,
}

impl InsertAttempt {
    /// The attempt as the loop sees it.
    pub fn outcome(self) -> (r: CasOutcome)
        ensures
            r == match self {
                InsertAttempt::Inserted => CasOutcome::Applied,
                InsertAttempt::AlreadyExists => CasOutcome::Idempotent,
                InsertAttempt::Conflict => CasOutcome::Conflict,
                InsertAttempt::IoError(e) => CasOutcome::IoError(e),
            },
    {
        match self {
            InsertAttempt::Inserted => CasOutcome::Applied,
            InsertAttempt::AlreadyExists => CasOutcome::Idempotent,
            InsertAttempt::Conflict => CasOutcome::Conflict,
            InsertAttempt::IoError(e) => CasOutcome::IoError(e),
        }
    }
}

impl RemoveAttempt {
    /// The attempt as the loop sees it.
    pub fn outcome(self) -> (r: CasOutcome)
        ensures
            r == match self {
                RemoveAttempt::Removed => CasOutcome::Applied,
                RemoveAttempt::AlreadyAbsent => CasOutcome::Idempotent,
                RemoveAttempt::Conflict => CasOutcome::Conflict,
                RemoveAttempt::IoError(e) => CasOutcome::IoError(e),
            },
    {
        match self {
            RemoveAttempt::Removed => CasOutcome::Applied,
            RemoveAttempt::AlreadyAbsent => CasOutcome::Idempotent,
            RemoveAttempt::Conflict => CasOutcome::Conflict,
            RemoveAttempt::IoError(e) => CasOutcome::IoError(e),
        }
    }
}

/// The step that the loop has come to.
#[derive(Clone, Copy, Debug, PartialEq, Eq, Structural)]
pub enum DrivePhase {
    /// Claim a commit generation.
    Claim,
    /// Try to publish.
    Attempt { generation: u64 },
    /// Count the conflict.
    CountRetry { generation: u64 },
    /// Tell the cache, before anything is marked.
    TouchCache { applied: bool, generation: u64 },
    /// Make the rank of the record durable.
    Rank { generation: u64 },
    /// Mark the record and then its rank as committed.
    Mark { generation: u64, rank_lsn: Lsn },
    /// Mark the record as committed although it has no rank.
    Burn,
    /// Ended: the write was made, or there was nothing to do.
    Done(bool),
    /// Ended: a step failed.
    Failed,
}

/// What came of a step.
pub enum DriveEvent {
    /// The generation that was claimed.
    Claimed(u64),
    /// What came of an attempt.
    Attempted(CasOutcome),
    /// The rank is durable.
    Ranked(Lsn),
    /// The rank could not be made durable.
    RankFailed,
    /// A step that cannot fail is done.
    Performed,
}

/// The loop of one insertion or removal.
pub struct CasDriver {
    pub data_lsn: Lsn,
    pub cache: CacheDirection,
    pub phase: DrivePhase,
    /// All phases so far, the present one last.
    pub history: Ghost<Seq<DrivePhase>>,
}

/// An event answers the action of a phase.
pub open spec fn drive_answers(phase: DrivePhase, event: DriveEvent) -> bool {
    match (phase, event) {
        (DrivePhase::Claim, DriveEvent::Claimed(_)) => true,
        (DrivePhase::Attempt { .. }, DriveEvent::Attempted(_)) => true,
        (DrivePhase::CountRetry { .. }, DriveEvent::Performed) => true,
        (DrivePhase::TouchCache { .. }, DriveEvent::Performed) => true,
        (DrivePhase::Rank { .. }, DriveEvent::Ranked(_)) => true,
        (DrivePhase::Rank { .. }, DriveEvent::RankFailed) => true,
        (DrivePhase::Mark { .. }, DriveEvent::Performed) => true,
        (DrivePhase::Burn, DriveEvent::Performed) => true,
        _ => false,
    }
}

/// The phase after an event.
pub open spec fn drive_after(phase: DrivePhase, event: DriveEvent) -> DrivePhase {
    match (phase, event) {
        (DrivePhase::Claim, DriveEvent::Claimed(generation)) => DrivePhase::Attempt { generation },
        (DrivePhase::Attempt { generation }, DriveEvent::Attempted(outcome)) => match outcome {
            CasOutcome::Applied => DrivePhase::TouchCache { applied: true, generation },
            CasOutcome::Idempotent => DrivePhase::TouchCache { applied: false, generation },
            CasOutcome::Conflict => DrivePhase::CountRetry { generation },
            CasOutcome::IoError(_) => DrivePhase::Failed,
        },
        (DrivePhase::CountRetry { .. }, DriveEvent::Performed) => DrivePhase::Claim,
        (DrivePhase::TouchCache { applied, generation }, DriveEvent::Performed) => if applied {
            DrivePhase::Rank { generation }
        } else {
            DrivePhase::Burn
        },
        (DrivePhase::Rank { generation }, DriveEvent::Ranked(rank_lsn)) => DrivePhase::Mark {
            generation,
            rank_lsn,
        },
        (DrivePhase::Rank { .. }, DriveEvent::RankFailed) => DrivePhase::Failed,
        (DrivePhase::Mark { .. }, DriveEvent::Performed) => DrivePhase::Done(true),
        (DrivePhase::Burn, DriveEvent::Performed) => DrivePhase::Done(false),
        _ => phase,
    }
}

/// Each phase follows from the one before it.
pub open spec fn drive_follows(history: Seq<DrivePhase>, i: int) -> bool {
    let here = history[i];
    match history[i + 1] {
        DrivePhase::Claim => here is CountRetry,
        DrivePhase::Attempt { .. } => here == DrivePhase::Claim,
        DrivePhase::CountRetry { generation } => here == (DrivePhase::Attempt { generation }),
        DrivePhase::TouchCache { generation, .. } => here == (DrivePhase::Attempt { generation }),
        DrivePhase::Rank { generation } => here == (DrivePhase::TouchCache {
            applied: true,
            generation,
        }),
        DrivePhase::Mark { generation, .. } => here == (DrivePhase::Rank { generation }),
        DrivePhase::Burn => here matches DrivePhase::TouchCache { applied: false, .. },
        DrivePhase::Done(applied) => if applied {
            here is Mark
        } else {
            here == DrivePhase::Burn
        },
        DrivePhase::Failed => here is Attempt || here is Rank,
    }
}

impl CasDriver {
    /// The phases so far follow from each other and lead to the present one.
    pub open spec fn wf(self) -> bool {
        &&& self.history@.len() > 0
        &&& self.history@[0] == DrivePhase::Claim
        &&& self.history@.last() == self.phase
        &&& forall|i: int|
            0 <= i < self.history@.len() - 1 ==> #[trigger] drive_follows(self.history@, i)
    }

    /// The loop of an insertion whose record is durable.
    pub fn drive_insert_cas(data_lsn: Lsn) -> (r: Self)
        ensures
            r.wf(),
            r.data_lsn == data_lsn,
            r.cache == CacheDirection::MarkPresent,
            r.phase == DrivePhase::Claim,
            r.history@ == seq![DrivePhase::Claim],
    {
        CasDriver {
            data_lsn,
            cache: CacheDirection::MarkPresent,
            phase: DrivePhase::Claim,
            history: Ghost(Seq::empty().push(DrivePhase::Claim)),
        }
    }

    /// The loop of a removal whose record is durable.
    pub fn drive_remove_cas(data_lsn: Lsn) -> (r: Self)
        ensures
            r.wf(),
            r.data_lsn == data_lsn,
            r.cache == CacheDirection::Invalidate,
            r.phase == DrivePhase::Claim,
            r.history@ == seq![DrivePhase::Claim],
    {
        CasDriver {
            data_lsn,
            cache: CacheDirection::Invalidate,
            phase: DrivePhase::Claim,
            history: Ghost(Seq::empty().push(DrivePhase::Claim)),
        }
    }

    /// Takes the answer to the action of the present phase, and goes on. The error of
    /// an attempt that could not load a part of the path is handed back.
    pub fn drive_cas(&mut self, event: DriveEvent) -> (r: Option<PersistentARTrieError>)
        requires
            old(self).wf(),
            drive_answers(old(self).phase, event),
        ensures
            final(self).wf(),
            final(self).data_lsn == old(self).data_lsn,
            final(self).cache == old(self).cache,
            final(self).phase == drive_after(old(self).phase, event),
            final(self).history@ == old(self).history@.push(final(self).phase),
            r == match event {
                DriveEvent::Attempted(CasOutcome::IoError(e)) => Some(e),
                _ => None,
            },
    {
        let ghost before = *self;
        let mut error: Option<PersistentARTrieError> = None;
        let next: DrivePhase = match (self.phase, event) {
            (DrivePhase::Claim, DriveEvent::Claimed(generation)) => DrivePhase::Attempt {
                generation,
            },
            (DrivePhase::Attempt { generation }, DriveEvent::Attempted(outcome)) => match outcome {
                CasOutcome::Applied => DrivePhase::TouchCache { applied: true, generation },
                CasOutcome::Idempotent => DrivePhase::TouchCache { applied: false, generation },
                CasOutcome::Conflict => DrivePhase::CountRetry { generation },
                CasOutcome::IoError(e) => {
                    error = Some(e);
                    DrivePhase::Failed
                },
            },
            (DrivePhase::CountRetry { .. }, DriveEvent::Performed) => DrivePhase::Claim,
            (DrivePhase::TouchCache { applied, generation }, DriveEvent::Performed) => if applied {
                DrivePhase::Rank { generation }
            } else {
                DrivePhase::Burn
            },
            (DrivePhase::Rank { generation }, DriveEvent::Ranked(rank_lsn)) => DrivePhase::Mark {
                generation,
                rank_lsn,
            },
            (DrivePhase::Rank { .. }, DriveEvent::RankFailed) => DrivePhase::Failed,
            (DrivePhase::Mark { .. }, DriveEvent::Performed) => DrivePhase::Done(true),
            (DrivePhase::Burn, DriveEvent::Performed) => DrivePhase::Done(false),
            (phase, _) => phase,
        };
        self.phase = next;
        self.history = Ghost(before.history@.push(next));
        proof {
            let history = self.history@;
            assert forall|i: int| 0 <= i < history.len() - 1 implies #[trigger] drive_follows(
                history,
                i,
            ) by {
                if i < before.history@.len() - 1 {
                    assert(drive_follows(before.history@, i));
                    assert(history[i] == before.history@[i]);
                    assert(history[i + 1] == before.history@[i + 1]);
                } else {
                    assert(history[i] == before.history@.last());
                }
            }
        }
        error
    }
}

/// The generation that a record is ranked with is the one that was claimed for the
/// attempt that won, and the cache was told in between.
pub proof fn rank_binds_the_winning_claim(driver: CasDriver, i: int)
    requires
        driver.wf(),
        0 <= i < driver.history@.len(),
        driver.history@[i] is Rank,
    ensures
        i >= 3,
        driver.history@[i - 1] == (DrivePhase::TouchCache {
            applied: true,
            generation: driver.history@[i]->Rank_generation,
        }),
        driver.history@[i - 2] == (DrivePhase::Attempt {
            generation: driver.history@[i]->Rank_generation,
        }),
        driver.history@[i - 3] == DrivePhase::Claim,
{
    let history = driver.history@;
    assert(drive_follows(history, i - 1));
    assert(drive_follows(history, i - 2));
    assert(drive_follows(history, i - 3));
}

/// A loop that ends with a visible write has ranked and then marked its record; one
/// that had nothing to do has marked it without a rank.
pub proof fn loop_ends_ranked_or_burned(driver: CasDriver)
    requires
        driver.wf(),
        driver.phase is Done,
    ensures
        ({
            let history = driver.history@;
            let last = history.len() - 1;
            if driver.phase->Done_0 {
                &&& last >= 5
                &&& history[last - 1] is Mark
                &&& history[last - 2] is Rank
            } else {
                &&& last >= 4
                &&& history[last - 1] == DrivePhase::Burn
                &&& history[last - 2] matches DrivePhase::TouchCache { applied: false, .. }
            }
        }),
{
    let history = driver.history@;
    let last = history.len() - 1;
    assert(history[last] == driver.phase);
    assert(drive_follows(history, last - 1));
    assert(drive_follows(history, last - 2));
    assert(drive_follows(history, last - 3));
    if driver.phase->Done_0 {
        assert(drive_follows(history, last - 4));
        assert(drive_follows(history, last - 5));
    } else {
        assert(drive_follows(history, last - 4));
    }
}

} // verus!
