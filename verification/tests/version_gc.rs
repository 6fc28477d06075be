use persistent_artrie::version_gc::{
    gc_worker_step, GcCandidate, GcConfig, GcWorkerAction, GcWorkerEvent, ReaderGuard,
    VersionGcRegistry,
};
use persistent_artrie::wal::frame::decode_record_frame;
use persistent_artrie::wal::writer::WalWriter;

const SECOND: u64 = 1_000_000_000;

#[test]
fn test_add_remove_reader() {
    let config = GcConfig::for_testing();
    let mut registry = VersionGcRegistry::new(config);

    assert_eq!(registry.reader_count(1), 0);

    registry.add_reader(1);
    assert_eq!(registry.reader_count(1), 1);

    registry.add_reader(1);
    assert_eq!(registry.reader_count(1), 2);

    registry.remove_reader(1);
    assert_eq!(registry.reader_count(1), 1);

    registry.remove_reader(1);
    assert_eq!(registry.reader_count(1), 0);
    assert!(!registry.has_readers(1));
}

#[test]
fn test_reader_guard() {
    let config = GcConfig::for_testing();
    let mut registry = VersionGcRegistry::new(config);

    assert_eq!(registry.reader_count(1), 0);

    {
        let guard = ReaderGuard::new(1, &mut registry);
        assert_eq!(registry.reader_count(1), 1);
        assert_eq!(guard.version_id(), 1);
        guard.release(&mut registry);
    }

    assert_eq!(registry.reader_count(1), 0);
}

#[test]
fn test_gc_candidate() {
    let config = GcConfig::for_testing();
    let mut registry = VersionGcRegistry::new(config);

    registry.add_gc_candidate(1, 100, 50, 0);
    registry.add_gc_candidate(2, 200, 75, 0);

    assert_eq!(registry.pending_count(), 2);
    assert!(registry.pending_versions().contains(&1));
    assert!(registry.pending_versions().contains(&2));
}

#[test]
fn test_gc_cycle_respects_readers() {
    let config = GcConfig {
        grace_period: 0,
        min_retained_versions: 0,
        ..GcConfig::for_testing()
    };
    let mut registry = VersionGcRegistry::new(config);

    registry.add_gc_candidate(1, 100, 50, 0);
    registry.add_reader(1);
    registry.record_modification();

    let collected = registry.run_gc_cycle_internal(0);
    assert!(collected.is_empty());
    assert_eq!(registry.stats().versions_skipped, 1);

    registry.remove_reader(1);
    registry.record_modification();
    let collected = registry.run_gc_cycle_internal(0);
    assert_eq!(collected, vec![1]);
}

#[test]
fn test_gc_cycle_respects_grace_period() {
    let config = GcConfig {
        grace_period: 10 * SECOND,
        min_retained_versions: 0,
        ..GcConfig::for_testing()
    };
    let mut registry = VersionGcRegistry::new(config);

    registry.add_gc_candidate(1, 100, 50, 5);
    registry.record_modification();

    let collected = registry.run_gc_cycle_internal(5);
    assert!(collected.is_empty());

    registry.record_modification();
    assert!(registry.run_gc_cycle_internal(10 * SECOND + 4).is_empty());
    registry.record_modification();
    assert_eq!(registry.run_gc_cycle_internal(10 * SECOND + 5), vec![1]);
}

#[test]
fn test_gc_cycle_respects_retention() {
    let config = GcConfig {
        grace_period: 0,
        min_retained_versions: 3,
        ..GcConfig::for_testing()
    };
    let mut registry = VersionGcRegistry::new(config);

    for i in 1..=4 {
        registry.add_gc_candidate(i, i * 100, i * 50, 0);
    }
    registry.record_modification();

    let collected = registry.run_gc_cycle_internal(0);
    assert_eq!(collected.len(), 1);
    assert_eq!(registry.pending_count(), 3);
}

#[test]
fn test_gc_stats() {
    let config = GcConfig {
        grace_period: 0,
        min_retained_versions: 0,
        ..GcConfig::for_testing()
    };
    let mut registry = VersionGcRegistry::new(config);

    registry.add_gc_candidate(1, 100, 50, 0);
    registry.record_modification();
    registry.run_gc_cycle_internal(0);

    let stats = registry.stats();
    assert_eq!(stats.cycles_run, 1);
    assert_eq!(stats.versions_collected, 1);
    assert!(stats.bytes_reclaimed > 0);
    assert_eq!(stats.bytes_reclaimed, 50 * 200);
}

#[test]
fn test_no_gc_without_modifications() {
    let config = GcConfig::for_testing();
    let mut registry = VersionGcRegistry::new(config);

    registry.add_gc_candidate(1, 100, 50, 0);

    let collected = registry.run_gc_cycle_internal(10 * SECOND);
    assert!(collected.is_empty());
}

#[test]
fn one_cycle_takes_the_oldest_up_to_its_limit() {
    let config = GcConfig {
        grace_period: 0,
        min_retained_versions: 1,
        max_gc_per_cycle: 2,
        ..GcConfig::for_testing()
    };
    let mut registry = VersionGcRegistry::new(config);
    for i in 1..=5 {
        registry.add_gc_candidate(i, 0, 1, 0);
    }
    registry.add_reader(2);
    registry.record_modification();
    assert_eq!(registry.run_gc_cycle_internal(9), vec![1, 3]);
    assert_eq!(registry.pending_versions(), vec![2, 4, 5]);
    assert_eq!(registry.stats().versions_skipped, 1);
    registry.clear_candidates();
    assert_eq!(registry.pending_count(), 0);
}

#[test]
fn a_collecting_cycle_is_logged() {
    let config = GcConfig {
        grace_period: 0,
        min_retained_versions: 0,
        ..GcConfig::for_testing()
    };
    let mut registry = VersionGcRegistry::new(config);
    let mut wal = WalWriter::create();
    let (collected, logged) = registry.run_gc_cycle(0, &mut wal);
    assert!(collected.is_empty());
    assert!(logged.is_none());
    assert_eq!(wal.current_lsn(), 1);

    registry.add_gc_candidate(7, 0, 3, 0);
    registry.record_modification();
    let (collected, logged) = registry.run_gc_cycle(1, &mut wal);
    assert_eq!(collected, vec![7]);
    let (lsn, bytes) = logged.expect("a record");
    assert_eq!(lsn, 1);
    let (read_lsn, kind, payload) = decode_record_frame(&bytes, 0).expect("frame");
    assert_eq!((read_lsn, kind), (1, 8));
    assert_eq!(payload[payload.len() - 8..].to_vec(), 7u64.to_le_bytes().to_vec());
}

#[test]
fn the_worker_runs_cycles_when_asked_or_when_due() {
    let candidate = GcCandidate {
        version_id: 1,
        root_ptr: 2,
        eligible_since: 3,
        node_count: 4,
    };
    assert_eq!(gc_worker_step(GcWorkerEvent::Shutdown, 10), GcWorkerAction::Stop);
    assert_eq!(
        gc_worker_step(GcWorkerEvent::Disconnected, 10),
        GcWorkerAction::Stop
    );
    assert_eq!(
        gc_worker_step(GcWorkerEvent::RunCycle, 10),
        GcWorkerAction::RunCycle
    );
    assert_eq!(
        gc_worker_step(GcWorkerEvent::AddCandidate(candidate), 10),
        GcWorkerAction::Keep(candidate)
    );
    assert_eq!(
        gc_worker_step(GcWorkerEvent::Timeout { since_cycle: 9 }, 10),
        GcWorkerAction::Wait
    );
    assert_eq!(
        gc_worker_step(GcWorkerEvent::Timeout { since_cycle: 10 }, 10),
        GcWorkerAction::RunCycle
    );
}

#[test]
fn ready_made_settings() {
    let default = GcConfig::default();
    assert_eq!(default.gc_interval, SECOND);
    assert_eq!(default.grace_period, 5 * SECOND);
    assert_eq!(default.min_retained_versions, 5);
    assert!(default.background_gc);
    assert!(!GcConfig::for_testing().background_gc);
    assert_eq!(GcConfig::high_throughput().max_gc_per_cycle, 50);
}
