use persistent_artrie::wal::codec::{crc32, get_le, put_le};
use persistent_artrie::wal::frame::{
    decode_record_frame, encode_record_frame, scan_last_lsn, segment_first_lsn, segment_lsns,
};
use persistent_artrie::wal::frontier::{SegmentFrontier, WaitVerdict};
use persistent_artrie::wal::header::{RankRegime, WalHeader, WAL_HEADER_SIZE};
use persistent_artrie::wal::record::WalRecord;
use persistent_artrie::wal::segments::{
    max_lsn_in_segments, prune_segments_if_needed, record_segment_extension,
    sort_segments_by_first_lsn,
};
use persistent_artrie::wal::sync_backend::completion_status;
use persistent_artrie::wal::writer::{frontier_error, next_open_step, OpenStep, WalWriter};
use persistent_artrie::wal::WalError;

fn insert(term: &[u8]) -> WalRecord {
    WalRecord::Insert {
        term: term.to_vec(),
        value: None,
    }
}

#[test]
fn rotate_carries_floor_and_regime() {
    let mut writer = WalWriter::create();
    assert!(writer.set_commit_seq_floor(777).is_some());
    writer.header.rank_regime = 1;

    let (bytes, _) = writer.rotate_to_archive();

    assert_eq!(
        writer.commit_seq_floor(),
        777,
        "commit_seq_floor carried across rotate"
    );
    assert_eq!(
        writer.header.rank_regime, 1,
        "rank_regime carried across rotate"
    );
    let read = WalHeader::from_bytes(&bytes).expect("the new file's header");
    assert_eq!(read.commit_seq_floor, 777);
    assert_eq!(read.rank_regime, 1);
}

#[test]
fn regime_stamp_guards_reject_non_empty_wal() {
    let mut writer = WalWriter::create();

    assert!(
        writer.is_empty_after_header(),
        "fresh WAL is empty after header"
    );
    writer.set_overlay_regime().expect("stamp overlay on empty");
    assert_eq!(writer.rank_regime(), RankRegime::Overlay);
    assert!(
        writer.is_empty_after_header(),
        "stamping the header appends no records"
    );
    writer.set_owned_regime().expect("stamp owned on empty");
    assert_eq!(writer.rank_regime(), RankRegime::Owned);

    writer.append(&insert(b"x"));
    assert!(
        !writer.is_empty_after_header(),
        "WAL is non-empty after an append"
    );
    assert!(
        matches!(
            writer.set_overlay_regime(),
            Err(WalError::InvalidRegimeStamp { .. })
        ),
        "set_overlay_regime must reject a non-empty WAL"
    );
    assert!(
        matches!(
            writer.set_owned_regime(),
            Err(WalError::InvalidRegimeStamp { .. })
        ),
        "set_owned_regime must reject a non-empty WAL"
    );
}

#[test]
fn the_checksum_is_the_usual_one() {
    assert_eq!(crc32(b"123456789", 0, 9), 0xCBF4_3926);
    assert_eq!(crc32(b"", 0, 0), 0);
    assert_eq!(crc32(b"xx123456789", 2, 11), 0xCBF4_3926);
}

#[test]
fn numbers_are_written_with_the_low_byte_first() {
    let mut bytes = vec![9];
    put_le(&mut bytes, 0x0102_0304, 4);
    assert_eq!(bytes, vec![9, 4, 3, 2, 1]);
    assert_eq!(get_le(&bytes, 1, 4), 0x0102_0304);
}

#[test]
fn a_written_frame_reads_back() {
    let mut file = vec![0u8; 3];
    file.extend(encode_record_frame(41, 2, b"abc"));
    let second = file.len();
    file.extend(encode_record_frame(42, 1, b""));
    let (lsn, kind, payload) = decode_record_frame(&file, 3).expect("first");
    assert_eq!((lsn, kind, payload), (41, 2, b"abc".to_vec()));
    let (lsn, kind, payload) = decode_record_frame(&file, second).expect("second");
    assert_eq!((lsn, kind, payload), (42, 1, Vec::new()));
    assert_eq!(scan_last_lsn(&file, 3), Some(42));
    assert_eq!(segment_first_lsn(&file, 3), Some(41));
    assert_eq!(segment_lsns(&file, 3), vec![41, 42]);
    assert_eq!(segment_lsns(&file, second), vec![42]);

    file.pop();
    assert_eq!(scan_last_lsn(&file, 3), Some(41));
    assert_eq!(segment_lsns(&file, 3), vec![41]);
    file[20] ^= 1;
    assert!(matches!(
        decode_record_frame(&file, 3),
        Err(WalError::CorruptedRecord { .. })
    ));
    assert_eq!(scan_last_lsn(&file, 3), None);
    assert_eq!(segment_first_lsn(&file, 3), None);
    assert_eq!(segment_first_lsn(&file, 300), None);
    assert!(segment_lsns(&file, 3).is_empty());
    assert!(segment_lsns(&file, 300).is_empty());
}

#[test]
fn a_written_header_reads_back() {
    let mut writer = WalWriter::create();
    writer.set_overlay_regime().expect("stamp");
    writer.set_commit_seq_floor(5);
    let bytes = writer.write_checkpoint_header(19);
    assert_eq!(bytes.len(), WAL_HEADER_SIZE);
    let header = WalHeader::from_bytes(&bytes).expect("header");
    assert_eq!(header.checkpoint_lsn, 19);
    assert_eq!(header.commit_seq_floor, 5);
    assert_eq!(header.regime(), RankRegime::Overlay);
    assert_eq!(writer.checkpoint_lsn(), 19);
    assert!(matches!(
        WalHeader::from_bytes(&bytes[1..]),
        Err(WalError::CorruptedHeader)
    ));
    assert!(matches!(
        WalHeader::from_bytes(&[0u8; 32]),
        Err(WalError::CorruptedHeader)
    ));
}

#[test]
fn appended_records_are_numbered_in_turn() {
    let mut writer = WalWriter::create();
    let (first, a) = writer.append(&insert(b"a"));
    let (second, b) = writer.append(&WalRecord::Remove { term: b"b".to_vec() });
    let (third, c) = writer.append_batch(vec![(b"c".to_vec(), Some(vec![1]))]);
    assert_eq!((first, second, third), (1, 2, 3));
    assert_eq!(writer.allocate_lsn(), 4);
    assert_eq!(writer.sync(), 4);
    assert_eq!(writer.synced_lsn(), 4);
    let mut file = WalHeader::new().to_bytes();
    file.extend(a);
    file.extend(b);
    file.extend(c);
    assert_eq!(WalWriter::recovered_lsn(&WalHeader::new(), &file, &[]), 3);
    assert_eq!(WalWriter::recovered_lsn(&WalHeader::new(), &file, &[9, 2]), 9);
    let reopened = WalWriter::open(WalHeader::new(), 3, Some(file.len() as u64));
    assert_eq!(reopened.current_lsn(), 4);
    assert_eq!(reopened.segment_next_offset, file.len() as u64);
}

#[test]
fn payloads_hold_what_the_records_say() {
    let records = [
        (insert(b"k"), 1, 8 + 1 + 1),
        (WalRecord::Remove { term: b"k".to_vec() }, 2, 9),
        (
            WalRecord::Upsert {
                term: b"k".to_vec(),
                value: vec![1, 2],
            },
            3,
            19,
        ),
        (
            WalRecord::BatchInsert {
                entries: vec![(b"k".to_vec(), Some(vec![3]))],
            },
            4,
            8 + 9 + 1 + 9,
        ),
        (
            WalRecord::BatchIncrement {
                entries: vec![(b"k".to_vec(), -1)],
            },
            5,
            8 + 9 + 8,
        ),
        (
            WalRecord::CommitRank {
                data_lsn: 1,
                term: b"k".to_vec(),
                generation: 2,
            },
            6,
            8 + 9 + 8,
        ),
        (WalWriter::checkpoint_record(6, 7), 7, 16),
        (WalRecord::VersionGc { version_ids: vec![1] }, 8, 16),
    ];
    for (record, kind, length) in records {
        assert_eq!(record.record_type(), kind);
        assert_eq!(record.serialize_payload().len(), length);
    }
    let change = WalRecord::BatchIncrement {
        entries: vec![(b"k".to_vec(), -2)],
    };
    let payload = change.serialize_payload();
    assert_eq!(payload[17..].to_vec(), (-2i64).to_le_bytes().to_vec());
}

#[test]
fn positional_records_follow_each_other() {
    let mut writer = WalWriter::create();
    let (first, at, bytes) = writer.append_record_segment(&insert(b"a"));
    assert_eq!((first, at), (1, WAL_HEADER_SIZE as u64));
    let (second, next, _) = writer.append_record_segment(&insert(b"bb"));
    assert_eq!((second, next), (2, at + bytes.len() as u64));
    match writer.append_record_segment_with_lsn(9, &insert(b"c")) {
        Err(WalError::CorruptedRecord { message }) => assert_eq!(
            message,
            "reserved LSN 9 does not match next lock-free WAL LSN 3"
        ),
        _ => panic!("a reservation out of turn is refused"),
    }
    assert!(writer.append_record_segment_with_lsn(3, &insert(b"c")).is_ok());

    assert_eq!(writer.finish_record_segment(2, true), WaitVerdict::Wait);
    assert_eq!(writer.sync_record_segments(), 0);
    assert_eq!(writer.finish_record_segment(1, true), WaitVerdict::Durable);
    assert_eq!(writer.sync_record_segments(), 2);
    assert_eq!(writer.finish_record_segment(3, false), WaitVerdict::Failed(3));
}

#[test]
fn the_frontier_is_the_unbroken_run() {
    let mut frontier = SegmentFrontier::new(4);
    for lsn in [7, 6, 9, 3] {
        frontier.mark_segment_durable(lsn);
    }
    assert_eq!(frontier.durable_lsn, 4);
    frontier.mark_segment_durable(5);
    assert_eq!(frontier.durable_lsn, 7);
    frontier.mark_segment_failed(8);
    assert_eq!(
        frontier.wait_for_segment_durable_lsn(7),
        WaitVerdict::Durable
    );
    assert_eq!(
        frontier.wait_for_segment_durable_lsn(9),
        WaitVerdict::Failed(8)
    );
    frontier.raise(20);
    assert_eq!(frontier.durable_lsn, 20);
    match frontier_error(9, 8) {
        WalError::CorruptedRecord { message } => assert_eq!(
            message,
            "cannot publish contiguous WAL segment frontier through LSN 9; earlier reserved LSN 8 failed to publish"
        ),
        _ => panic!("a failed wait reports a record"),
    }
}

#[test]
fn segments_are_sorted_and_pruned_by_their_first_record() {
    let order = sort_segments_by_first_lsn(&vec![Some(30), None, Some(10), Some(20)]);
    let sorted: Vec<usize> = order;
    assert_eq!(&sorted[sorted.len() - 1..], &[1]);
    assert_eq!(&sorted[..3], &[2, 3, 0]);

    let first = vec![Some(1), Some(5), Some(9), Some(12)];
    let sizes = vec![10, 10, 10, 10];
    assert_eq!(prune_segments_if_needed(&first, &sizes, 2, 1000, 100), 2);
    assert_eq!(prune_segments_if_needed(&first, &sizes, 2, 1000, 4), 1);
    assert_eq!(prune_segments_if_needed(&first, &sizes, 2, 1000, 0), 0);
    assert_eq!(prune_segments_if_needed(&first, &sizes, 10, 10, 100), 3);
    assert_eq!(prune_segments_if_needed(&first, &sizes, 0, 0, 100), 3);
    assert_eq!(prune_segments_if_needed(&first, &sizes, 10, 40, 100), 0);
    assert_eq!(max_lsn_in_segments(&[3, 8, 5]), Some(8));
    assert_eq!(max_lsn_in_segments(&[]), None);
    assert_eq!(record_segment_extension(Some("log")), "log.d");
    assert_eq!(record_segment_extension(None), "wal.d");
}

#[test]
fn rotation_keeps_the_numbers_and_may_be_stamped_again() {
    let mut writer = WalWriter::create();
    writer.append(&insert(b"a"));
    writer.write_checkpoint_header(1);
    let (bytes, old_checkpoint) = writer.rotate_to_archive();
    assert_eq!(old_checkpoint, 1);
    assert_eq!(writer.checkpoint_lsn(), 0);
    assert_eq!(writer.current_lsn(), 2);
    assert_eq!(bytes, WalHeader::new().to_bytes());
    assert!(WalWriter::records_empty_on_disk(Some(32)));
    assert!(!WalWriter::records_empty_on_disk(None));
    assert!(WalWriter::active_file_has_records(33));
    assert!(!WalWriter::active_file_has_records(32));
    assert!(writer.set_overlay_regime().is_err());
    assert!(writer.set_overlay_regime_records_empty(40).is_err());
    assert!(writer.restamp_overlay_after_rotation(Some(40)).is_err());
    assert!(writer.restamp_overlay_after_rotation(Some(32)).is_ok());
    assert_eq!(writer.rank_regime(), RankRegime::Overlay);
    assert!(matches!(
        writer.set_overlay_regime_records_empty(32),
        Ok(None)
    ));
    writer.truncate();
    assert_eq!(writer.current_lsn(), 1);
    writer.set_min_lsn(8);
    writer.set_min_synced_lsn(6);
    assert_eq!(writer.current_lsn(), 8);
    assert_eq!(writer.synced_lsn(), 6);
}

#[test]
fn a_log_is_opened_made_or_opened_after_all() {
    assert_eq!(
        next_open_step(OpenStep::Open, &WalError::NotFound),
        Some(OpenStep::Create)
    );
    assert_eq!(
        next_open_step(OpenStep::Create, &WalError::AlreadyExists),
        Some(OpenStep::Reopen)
    );
    assert_eq!(next_open_step(OpenStep::Reopen, &WalError::NotFound), None);
    assert_eq!(
        next_open_step(OpenStep::Open, &WalError::ParentNotFound),
        None
    );
}

#[test]
fn a_negative_completion_is_an_error_number() {
    assert_eq!(completion_status(0), Ok(()));
    assert_eq!(completion_status(3), Ok(()));
    assert_eq!(completion_status(-5), Err(5));
}
