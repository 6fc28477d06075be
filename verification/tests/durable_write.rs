use persistent_artrie::error::PersistentARTrieError;
use persistent_artrie::overlay::cas_driver::{
    CacheDirection, CasDriver, CasOutcome, DriveEvent, DrivePhase, InsertAttempt, RemoveAttempt,
};
use persistent_artrie::overlay::checkpoint::{
    checkpoint_route_split, publish_captured_overlay_snapshot, CheckpointStep,
};
use persistent_artrie::overlay::durable_write::{
    bound_increment_delta, durable_policy_gate, get_or_insert_after_insert,
    get_or_insert_after_read, DurabilityPolicy, DurableWrite, GetOrInsertPhase, ValueWriteMode,
    WriteEvent, WritePhase, WriteVerdict,
};
use persistent_artrie::wal::record::WalRecord;

const POLICY: DurabilityPolicy = DurabilityPolicy::Immediate;

#[test]
fn a_lazy_policy_is_refused_with_its_reason() {
    assert!(durable_policy_gate(DurabilityPolicy::GroupCommit, "upsert", "write").is_ok());
    for policy in [DurabilityPolicy::Periodic, DurabilityPolicy::Never] {
        match durable_policy_gate(policy, "upsert_cas_durable", "upsert") {
            Err(PersistentARTrieError::InvalidOperation { message }) => assert_eq!(
                message,
                "upsert_cas_durable requires Immediate or GroupCommit durability so an acknowledged upsert is guaranteed durable before it becomes visible"
            ),
            _ => panic!("the policy is refused"),
        }
    }
}

#[test]
fn a_counter_change_must_fit_the_log() {
    assert!(matches!(bound_increment_delta(i64::MAX as u64), Ok(i64::MAX)));
    assert!(matches!(
        bound_increment_delta(i64::MAX as u64 + 1),
        Err(PersistentARTrieError::InvalidOperation { .. })
    ));
}

#[test]
fn a_new_term_is_logged_shown_ranked_and_marked_in_turn() {
    let mut write = DurableWrite::insert_cas_with_value_durable_default(
        b"t".to_vec(),
        vec![1],
        POLICY,
        true,
    )
    .expect("begin");
    assert_eq!(write.mode(), ValueWriteMode::InsertOnce);
    assert_eq!(write.phase, WritePhase::Probe);
    write.advance(WriteEvent::Present(false));
    assert_eq!(write.phase, WritePhase::Append { existed: false });
    assert!(matches!(write.record(), WalRecord::Insert { .. }));
    write.advance(WriteEvent::Appended(7));
    assert_eq!(
        write.phase,
        WritePhase::Publish {
            existed: false,
            lsn: 7
        }
    );
    write.advance(WriteEvent::Published {
        generation: 3,
        count: 0,
    });
    match write.commit_rank(7, 3) {
        WalRecord::CommitRank {
            data_lsn,
            term,
            generation,
        } => assert_eq!((data_lsn, term, generation), (7, b"t".to_vec(), 3)),
        _ => panic!("a rank record"),
    }
    write.advance(WriteEvent::Ranked(8));
    write.advance(WriteEvent::Marked);
    assert_eq!(
        write.phase,
        WritePhase::Done(WriteVerdict::Applied {
            existed: false,
            lsn: 7,
            generation: 3,
            rank_lsn: 8,
            count: 0
        })
    );
    assert!(matches!(write.result(), Some(Ok(1))));
}

#[test]
fn a_present_term_is_not_logged_again() {
    let mut write = DurableWrite::insert_cas_with_value_durable_default(
        b"t".to_vec(),
        vec![1],
        POLICY,
        true,
    )
    .expect("begin");
    write.advance(WriteEvent::Present(true));
    assert_eq!(write.phase, WritePhase::Done(WriteVerdict::Skipped));
    assert!(matches!(write.result(), Some(Ok(0))));
}

#[test]
fn a_write_that_loses_after_logging_is_burned() {
    let mut write = DurableWrite::compare_and_swap_cas_durable_default(
        b"t".to_vec(),
        Some(vec![1]),
        vec![2],
        POLICY,
        true,
    )
    .expect("begin");
    assert_eq!(write.phase, WritePhase::Read);
    write.advance(WriteEvent::Value(Some(vec![1])));
    assert!(matches!(write.phase, WritePhase::Append { .. }));
    write.advance(WriteEvent::Appended(4));
    write.advance(WriteEvent::NotApplied);
    assert!(matches!(write.phase, WritePhase::Burn { lsn: 4, .. }));
    write.advance(WriteEvent::Marked);
    assert!(matches!(
        write.phase,
        WritePhase::Done(WriteVerdict::Burned { lsn: 4, .. })
    ));
}

#[test]
fn a_swap_with_another_value_is_skipped() {
    let mut write = DurableWrite::compare_and_swap_cas_durable_default(
        b"t".to_vec(),
        None,
        vec![2],
        POLICY,
        true,
    )
    .expect("begin");
    write.advance(WriteEvent::Value(Some(vec![1])));
    assert_eq!(write.phase, WritePhase::Done(WriteVerdict::Skipped));
}

#[test]
fn an_upsert_tells_whether_the_term_is_new() {
    for (existed, answer) in [(true, 0), (false, 1)] {
        let mut write =
            DurableWrite::upsert_cas_durable_default(b"t".to_vec(), vec![9], POLICY, true)
                .expect("begin");
        write.advance(WriteEvent::Present(existed));
        write.advance(WriteEvent::Appended(1));
        write.advance(WriteEvent::Published {
            generation: 1,
            count: 0,
        });
        write.advance(WriteEvent::Ranked(2));
        write.advance(WriteEvent::Marked);
        match write.result() {
            Some(Ok(result)) => assert_eq!(result, answer),
            _ => panic!("the write succeeded"),
        }
    }
}

#[test]
fn a_counter_is_logged_first_and_answers_its_sum() {
    let mut write =
        DurableWrite::try_increment_cas_durable_default(b"c".to_vec(), 5, POLICY, true)
            .expect("begin");
    match write.record() {
        WalRecord::BatchIncrement { entries } => assert_eq!(entries, vec![(b"c".to_vec(), 5)]),
        _ => panic!("a counter record"),
    }
    write.advance(WriteEvent::Appended(1));
    write.advance(WriteEvent::Published {
        generation: 1,
        count: 42,
    });
    write.advance(WriteEvent::Ranked(2));
    write.advance(WriteEvent::Marked);
    assert!(matches!(write.result(), Some(Ok(42))));
    assert!(matches!(
        DurableWrite::try_increment_cas_durable_default(b"c".to_vec(), u64::MAX, POLICY, true),
        Err(PersistentARTrieError::InvalidOperation { .. })
    ));
}

#[test]
fn a_write_needs_an_overlay() {
    assert!(matches!(
        DurableWrite::upsert_cas_durable_default(b"t".to_vec(), vec![9], POLICY, false),
        Err(PersistentARTrieError::InvalidOperation { .. })
    ));
    let mut write = DurableWrite::upsert_cas_durable_default(b"t".to_vec(), vec![9], POLICY, true)
        .expect("begin");
    write.advance(WriteEvent::Failed);
    assert_eq!(write.phase, WritePhase::Done(WriteVerdict::Failed));
    assert!(write.result().is_none());
}

#[test]
fn a_default_is_inserted_only_where_nothing_is() {
    assert_eq!(
        get_or_insert_after_read(GetOrInsertPhase::Read, true),
        GetOrInsertPhase::UseRead
    );
    assert_eq!(
        get_or_insert_after_read(GetOrInsertPhase::Read, false),
        GetOrInsertPhase::Insert
    );
    assert_eq!(get_or_insert_after_insert(true), GetOrInsertPhase::UseDefault);
    assert_eq!(get_or_insert_after_insert(false), GetOrInsertPhase::ReadWinner);
    assert_eq!(
        get_or_insert_after_read(GetOrInsertPhase::ReadWinner, false),
        GetOrInsertPhase::UseDefault
    );
}

#[test]
fn the_winning_attempt_takes_the_generation_of_its_own_claim() {
    let mut driver = CasDriver::drive_insert_cas(5);
    assert_eq!(driver.cache, CacheDirection::MarkPresent);
    assert!(driver.drive_cas(DriveEvent::Claimed(10)).is_none());
    assert_eq!(driver.phase, DrivePhase::Attempt { generation: 10 });
    driver.drive_cas(DriveEvent::Attempted(InsertAttempt::Conflict.outcome()));
    assert_eq!(driver.phase, DrivePhase::CountRetry { generation: 10 });
    driver.drive_cas(DriveEvent::Performed);
    assert_eq!(driver.phase, DrivePhase::Claim);
    driver.drive_cas(DriveEvent::Claimed(11));
    driver.drive_cas(DriveEvent::Attempted(InsertAttempt::Inserted.outcome()));
    assert_eq!(
        driver.phase,
        DrivePhase::TouchCache {
            applied: true,
            generation: 11
        }
    );
    driver.drive_cas(DriveEvent::Performed);
    assert_eq!(driver.phase, DrivePhase::Rank { generation: 11 });
    driver.drive_cas(DriveEvent::Ranked(6));
    assert_eq!(
        driver.phase,
        DrivePhase::Mark {
            generation: 11,
            rank_lsn: 6
        }
    );
}

#[test]
fn a_failed_load_ends_the_loop_with_its_error() {
    let mut driver = CasDriver::drive_remove_cas(5);
    assert_eq!(driver.cache, CacheDirection::Invalidate);
    driver.drive_cas(DriveEvent::Claimed(1));
    let error = driver.drive_cas(DriveEvent::Attempted(
        RemoveAttempt::IoError(PersistentARTrieError::corrupted("lost")).outcome(),
    ));
    match error {
        Some(PersistentARTrieError::CorruptedFile { reason }) => assert_eq!(reason, "lost"),
        _ => panic!("the error comes out"),
    }
    assert!(matches!(
        RemoveAttempt::AlreadyAbsent.outcome(),
        CasOutcome::Idempotent
    ));
    assert!(matches!(RemoveAttempt::Removed.outcome(), CasOutcome::Applied));
}

#[test]
fn a_checkpoint_publishes_what_it_captured() {
    assert_eq!(
        checkpoint_route_split(None, true),
        Some(CheckpointStep::Capture)
    );
    assert_eq!(
        checkpoint_route_split(Some(CheckpointStep::Capture), true),
        Some(CheckpointStep::PublishWithEviction)
    );
    assert_eq!(
        checkpoint_route_split(Some(CheckpointStep::Capture), false),
        Some(CheckpointStep::Publish)
    );
    assert_eq!(
        checkpoint_route_split(Some(CheckpointStep::Publish), false),
        None
    );
    assert_eq!(
        publish_captured_overlay_snapshot(false),
        CheckpointStep::Publish
    );
}
