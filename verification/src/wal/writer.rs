//! What the log writer keeps and decides: LSNs, offsets, the durable frontier and
//! the header. The bytes that it hands out are written to files elsewhere.

use vstd::prelude::*;
use crate::text::{decimal, join, number};
use super::frame::{
    appended_record_is_found, encode_record_frame, frame, last_lsn_from, scan_last_lsn, whole_from,
};
use super::frontier::{run_of, SegmentFrontier, WaitVerdict};
use super::header::{RankRegime, WalHeader, MAGIC, MAGIC_OVERLAY, WAL_HEADER_SIZE};
use super::record::WalRecord;
use super::segments::max_lsn_in_segments;
use super::{Lsn, WalError};

verus! {

/// The state of a log writer.
pub struct WalWriter {
    /// The LSN of the next record.
    pub next_lsn: Lsn,
    /// The last LSN that a sync covered.
    pub synced_lsn: Lsn,
    /// Where the next positional write goes.
    pub segment_next_offset: u64,
    /// Which positional writes are durable.
    pub frontier: SegmentFrontier,
    pub header: WalHeader,
}

/// Limits of the archive.
#[derive(Clone, Copy, Debug, PartialEq, Eq, Structural)]
pub struct WalConfig {
    pub max_segments: usize,
    pub max_archive_bytes: u64,
}

/// The larger of two numbers.
pub open spec fn larger(a: u64, b: u64) -> u64 {
    if a < b {
        b
    } else {
        a
    }
}

/// The last LSN that an existing log has used: in its file, in its record segments,
/// or in the checkpoint of its header.
pub open spec fn used_lsn(header: WalHeader, file: Seq<u8>, segment_lsns: Seq<Lsn>) -> Lsn {
    let in_file = match last_lsn_from(file, WAL_HEADER_SIZE as int) {
        Some(lsn) => lsn,
        None => 0,
    };
    larger(larger(in_file, largest_of(segment_lsns)), header.checkpoint_lsn)
}

/// The largest of some LSNs, or zero.
pub open spec fn largest_of(lsns: Seq<Lsn>) -> Lsn
    decreases lsns.len(),
{
    if lsns.len() == 0 {
        0
    } else {
        larger(largest_of(lsns.drop_last()), lsns.last())
    }
}

/// The largest of some LSNs is one of them and not below any.
proof fn lemma_largest(lsns: Seq<Lsn>, largest: Lsn)
    requires
        lsns.contains(largest),
        forall|i: int| 0 <= i < lsns.len() ==> #[trigger] lsns[i] <= largest,
    ensures
        largest_of(lsns) == largest,
    decreases lsns.len(),
{
    let shorter = lsns.drop_last();
    let i = choose|i: int| 0 <= i < lsns.len() && lsns[i] == largest;
    lemma_largest_bound(shorter, largest);
    assert(lsns[lsns.len() - 1] <= largest);
    if i < shorter.len() {
        assert(shorter[i] == largest);
        assert forall|k: int| 0 <= k < shorter.len() implies #[trigger] shorter[k] <= largest by {
            assert(shorter[k] == lsns[k]);
        }
        lemma_largest(shorter, largest);
    }
}

/// A bound on some LSNs is a bound on the largest.
proof fn lemma_largest_bound(lsns: Seq<Lsn>, bound: Lsn)
    requires
        forall|i: int| 0 <= i < lsns.len() ==> #[trigger] lsns[i] <= bound,
    ensures
        largest_of(lsns) <= bound,
    decreases lsns.len(),
{
    if lsns.len() > 0 {
        assert forall|k: int| 0 <= k < lsns.drop_last().len() implies #[trigger] lsns.drop_last()[k]
            <= bound by {
            assert(lsns.drop_last()[k] == lsns[k]);
        }
        lemma_largest_bound(lsns.drop_last(), bound);
        assert(lsns[lsns.len() - 1] <= bound);
    }
}

/// The message of a wait that cannot succeed.
pub open spec fn frontier_message(lsn: Lsn, failed: Lsn) -> Seq<char> {
    "cannot publish contiguous WAL segment frontier through LSN "@ + decimal(lsn as nat)
        + "; earlier reserved LSN "@ + decimal(failed as nat) + " failed to publish"@
}

/// The message of a reservation that is not the next one.
pub open spec fn reservation_message(lsn: Lsn, current: Lsn) -> Seq<char> {
    "reserved LSN "@ + decimal(lsn as nat) + " does not match next lock-free WAL LSN "@ + decimal(
        current as nat,
    )
}

/// The error of a wait that cannot succeed.
pub fn frontier_error(lsn: Lsn, failed: Lsn) -> (r: WalError)
    ensures
        r matches WalError::CorruptedRecord { message } && message@ == frontier_message(
            lsn,
            failed,
        ),
{
    let a = join(
        "cannot publish contiguous WAL segment frontier through LSN ",
        number(lsn).as_str(),
    );
    let b = join(a.as_str(), "; earlier reserved LSN ");
    let c = join(b.as_str(), number(failed).as_str());
    WalError::CorruptedRecord { message: join(c.as_str(), " failed to publish") }
}

/// What to do when a log is to be opened or made.
#[derive(Clone, Copy, Debug, PartialEq, Eq, Structural)]
pub enum OpenStep {
    /// Open the file.
    Open,
    /// Make the file, which was not there.
    Create,
    /// Open the file, which somebody else made in between.
    Reopen,
}

/// The next step after one failed, if there is one: a file that is not there is
/// made, and a file that is there after all is opened.
pub fn next_open_step(step: OpenStep, error: &WalError) -> (r: Option<OpenStep>)
    ensures
        r == match (step, *error) {
            (OpenStep::Open, WalError::NotFound) => Some(OpenStep::Create),
            (OpenStep::Create, WalError::AlreadyExists) => Some(OpenStep::Reopen),
            _ => None,
        },
{
    match (step, error) {
        (OpenStep::Open, WalError::NotFound) => Some(OpenStep::Create),
        (OpenStep::Create, WalError::AlreadyExists) => Some(OpenStep::Reopen),
        _ => None,
    }
}

impl WalWriter {
    /// There is an LSN before the next one.
    pub open spec fn wf(self) -> bool {
        self.next_lsn >= 1
    }

    /// The writer of a new log.
    pub fn create() -> (r: Self)
        ensures
            r.wf(),
            r.next_lsn == 1,
            r.synced_lsn == 0,
            r.segment_next_offset == WAL_HEADER_SIZE,
            r.frontier.durable_lsn == 0,
            r.frontier.pending@ == Set::<Lsn>::empty(),
            r.frontier.failed_lsn == Lsn::MAX,
            r.header == WalHeader::fresh(),
    {
        WalWriter {
            next_lsn: 1,
            synced_lsn: 0,
            segment_next_offset: 32,
            frontier: SegmentFrontier::new(0),
            header: WalHeader::new(),
        }
    }

    /// The last LSN that an existing log has used.
    pub fn recovered_lsn(header: &WalHeader, file: &[u8], segment_lsns: &[Lsn]) -> (r: Lsn)
        requires
            file@.len() >= WAL_HEADER_SIZE,
        ensures
            r == used_lsn(*header, file@, segment_lsns@),
    {
        let mut last: Lsn = 0;
        match scan_last_lsn(file, WAL_HEADER_SIZE) {
            Some(lsn) => {
                last = lsn;
            },
            None => {},
        }
        match max_lsn_in_segments(segment_lsns) {
            Some(lsn) => {
                proof {
                    lemma_largest(segment_lsns@, lsn);
                }
                if last < lsn {
                    last = lsn;
                }
            },
            None => {},
        }
        if last < header.checkpoint_lsn {
            last = header.checkpoint_lsn;
        }
        last
    }

    /// The writer of an existing log. Everything up to the last LSN that was used is
    /// durable. Without a file length the log counts as empty.
    pub fn open(header: WalHeader, last_lsn: Lsn, file_len: Option<u64>) -> (r: Self)
        requires
            last_lsn < Lsn::MAX,
        ensures
            r.wf(),
            r.next_lsn == last_lsn + 1,
            r.synced_lsn == last_lsn,
            r.segment_next_offset == (match file_len {
                Some(length) => larger(length, WAL_HEADER_SIZE as u64),
                None => WAL_HEADER_SIZE as u64,
            }),
            r.frontier.durable_lsn == last_lsn,
            r.frontier.pending@ == Set::<Lsn>::empty(),
            r.frontier.failed_lsn == Lsn::MAX,
            r.header == header,
    {
        let segment_next_offset: u64 = match file_len {
            Some(length) => if length < 32 {
                32
            } else {
                length
            },
            None => 32,
        };
        WalWriter {
            next_lsn: last_lsn + 1,
            synced_lsn: last_lsn,
            segment_next_offset,
            frontier: SegmentFrontier::new(last_lsn),
            header,
        }
    }

    /// Gives a record the next LSN. Gives back the frame to write.
    pub fn append(&mut self, record: &WalRecord) -> (r: (Lsn, Vec<u8>))
        requires
            old(self).next_lsn < Lsn::MAX,
            record.payload().len() <= usize::MAX - 17,
        ensures
            r.0 == old(self).next_lsn,
            r.1@ == frame(r.0, record.spec_record_type(), record.payload()),
            *final(self) == (WalWriter { next_lsn: (old(self).next_lsn + 1) as u64, ..*old(self) }),
    {
        let lsn: Lsn = self.next_lsn;
        self.next_lsn = lsn + 1;
        let payload = record.serialize_payload();
        let bytes = encode_record_frame(lsn, record.record_type(), payload.as_slice());
        (lsn, bytes)
    }

    /// Gives a record the next LSN and a place of its own in the file. Gives back the
    /// LSN, the offset and the frame to write there.
    pub fn append_record_segment(&mut self, record: &WalRecord) -> (r: (Lsn, u64, Vec<u8>))
        requires
            old(self).next_lsn < Lsn::MAX,
            record.payload().len() <= usize::MAX - 17,
            old(self).segment_next_offset + 17 + record.payload().len() <= u64::MAX,
        ensures
            r.0 == old(self).next_lsn,
            r.1 == old(self).segment_next_offset,
            r.2@ == frame(r.0, record.spec_record_type(), record.payload()),
            r.2@.len() == 17 + record.payload().len(),
            *final(self) == (WalWriter {
                next_lsn: (old(self).next_lsn + 1) as u64,
                segment_next_offset: (old(self).segment_next_offset + r.2@.len()) as u64,
                ..*old(self)
            }),
    {
        let lsn: Lsn = self.next_lsn;
        self.next_lsn = lsn + 1;
        let payload = record.serialize_payload();
        let bytes = encode_record_frame(lsn, record.record_type(), payload.as_slice());
        let offset: u64 = self.segment_next_offset;
        self.segment_next_offset = offset + bytes.len() as u64;
        (lsn, offset, bytes)
    }

    /// Gives a record the LSN that its caller reserved, which must be the next one.
    pub fn append_record_segment_with_lsn(&mut self, lsn: Lsn, record: &WalRecord) -> (r: Result<
        (Lsn, u64, Vec<u8>),
        WalError,
    >)
        requires
            old(self).next_lsn < Lsn::MAX,
            record.payload().len() <= usize::MAX - 17,
            old(self).segment_next_offset + 17 + record.payload().len() <= u64::MAX,
        ensures
            match r {
                Ok((given, offset, bytes)) => {
                    &&& lsn == old(self).next_lsn
                    &&& given == lsn
                    &&& offset == old(self).segment_next_offset
                    &&& bytes@ == frame(lsn, record.spec_record_type(), record.payload())
                    &&& *final(self) == (WalWriter {
                        next_lsn: (old(self).next_lsn + 1) as u64,
                        segment_next_offset: (old(self).segment_next_offset + bytes@.len()) as u64,
                        ..*old(self)
                    })
                },
                Err(e) => {
                    &&& lsn != old(self).next_lsn
                    &&& (e matches WalError::CorruptedRecord { message } && message@
                        == reservation_message(lsn, old(self).next_lsn))
                    &&& *final(self) == *old(self)
                },
            },
    {
        let current: Lsn = self.next_lsn;
        if lsn != current {
            let a = join("reserved LSN ", number(lsn).as_str());
            let b = join(a.as_str(), " does not match next lock-free WAL LSN ");
            return Err(
                WalError::CorruptedRecord { message: join(b.as_str(), number(current).as_str()) },
            );
        }
        Ok(self.append_record_segment(record))
    }

    /// Takes note of how a positional write ended, and says what its writer is to do
    /// next.
    pub fn finish_record_segment(&mut self, lsn: Lsn, published: bool) -> (r: WaitVerdict)
        requires
            lsn < Lsn::MAX,
            old(self).frontier.durable_lsn < Lsn::MAX,
            !old(self).frontier.pending@.contains(Lsn::MAX),
        ensures
            *final(self) == (WalWriter { frontier: final(self).frontier, ..*old(self) }),
            !published ==> {
                &&& final(self).frontier.failed_lsn == (if lsn < old(self).frontier.failed_lsn {
                    lsn
                } else {
                    old(self).frontier.failed_lsn
                })
                &&& final(self).frontier.durable_lsn == old(self).frontier.durable_lsn
                &&& final(self).frontier.pending == old(self).frontier.pending
            },
            published ==> {
                let all = old(self).frontier.pending@.insert(lsn);
                let (from, to) = (
                    old(self).frontier.durable_lsn,
                    final(self).frontier.durable_lsn,
                );
                &&& final(self).frontier.failed_lsn == old(self).frontier.failed_lsn
                &&& from <= to < Lsn::MAX
                &&& run_of(all, from, to)
                &&& !all.contains((to + 1) as Lsn)
                &&& forall|k: Lsn| #[trigger]
                    final(self).frontier.pending@.contains(k) == (all.contains(k) && !(from < k && k
                        <= to))
                &&& forall|base: Lsn, marked: Set<Lsn>| #[trigger]
                    old(self).frontier.tracks(base, marked) ==> final(self).frontier.tracks(
                        base,
                        marked.insert(lsn),
                    )
            },
            r == (if final(self).frontier.durable_lsn >= lsn {
                WaitVerdict::Durable
            } else if final(self).frontier.failed_lsn <= lsn {
                WaitVerdict::Failed(final(self).frontier.failed_lsn)
            } else {
                WaitVerdict::Wait
            }),
    {
        if published {
            self.frontier.mark_segment_durable(lsn);
        } else {
            self.frontier.mark_segment_failed(lsn);
        }
        self.frontier.wait_for_segment_durable_lsn(lsn)
    }

    /// Takes note that the file was synced.
    pub fn sync(&mut self) -> (r: Lsn)
        requires
            old(self).wf(),
        ensures
            r == old(self).next_lsn - 1,
            *final(self) == (WalWriter { synced_lsn: r, ..*old(self) }),
    {
        let current: Lsn = self.next_lsn - 1;
        self.synced_lsn = current;
        current
    }

    /// Takes note that the positional writes were synced.
    pub fn sync_record_segments(&mut self) -> (r: Lsn)
        ensures
            r == old(self).frontier.durable_lsn,
            *final(self) == (WalWriter { synced_lsn: r, ..*old(self) }),
    {
        let durable: Lsn = self.frontier.durable_lsn;
        self.synced_lsn = durable;
        durable
    }

    /// Gives a batch of terms the next LSN, as one record.
    pub fn append_batch(&mut self, entries: Vec<(Vec<u8>, Option<Vec<u8>>)>) -> (r: (Lsn, Vec<u8>))
        requires
            old(self).next_lsn < Lsn::MAX,
            (WalRecord::BatchInsert { entries }).payload().len() <= usize::MAX - 17,
        ensures
            r.0 == old(self).next_lsn,
            r.1@ == frame(r.0, 4, (WalRecord::BatchInsert { entries }).payload()),
            *final(self) == (WalWriter { next_lsn: (old(self).next_lsn + 1) as u64, ..*old(self) }),
    {
        let record = WalRecord::BatchInsert { entries };
        self.append(&record)
    }

    /// The LSN of the next record.
    pub fn current_lsn(&self) -> (r: Lsn)
        ensures
            r == self.next_lsn,
    {
        self.next_lsn
    }

    /// The last LSN that a sync covered.
    pub fn synced_lsn(&self) -> (r: Lsn)
        ensures
            r == self.synced_lsn,
    {
        self.synced_lsn
    }

    /// Takes an LSN without writing a record.
    pub fn allocate_lsn(&mut self) -> (r: Lsn)
        requires
            old(self).next_lsn < Lsn::MAX,
        ensures
            r == old(self).next_lsn,
            *final(self) == (WalWriter { next_lsn: (old(self).next_lsn + 1) as u64, ..*old(self) }),
    {
        let lsn: Lsn = self.next_lsn;
        self.next_lsn = lsn + 1;
        lsn
    }

    /// Makes sure that later records have at least this LSN.
    pub fn set_min_lsn(&mut self, min_lsn: Lsn)
        ensures
            *final(self) == (WalWriter {
                next_lsn: larger(old(self).next_lsn, min_lsn),
                ..*old(self)
            }),
    {
        if self.next_lsn < min_lsn {
            self.next_lsn = min_lsn;
        }
    }

    /// Takes note that everything up to an LSN is durable.
    pub fn set_min_synced_lsn(&mut self, min_lsn: Lsn)
        ensures
            final(self).next_lsn == old(self).next_lsn,
            final(self).segment_next_offset == old(self).segment_next_offset,
            final(self).header == old(self).header,
            final(self).synced_lsn == larger(old(self).synced_lsn, min_lsn),
            final(self).frontier.durable_lsn == larger(old(self).frontier.durable_lsn, min_lsn),
            final(self).frontier.pending == old(self).frontier.pending,
            final(self).frontier.failed_lsn == old(self).frontier.failed_lsn,
    {
        if self.synced_lsn < min_lsn {
            self.synced_lsn = min_lsn;
        }
        self.frontier.raise(min_lsn);
    }

    /// The record of a checkpoint.
    pub fn checkpoint_record(checkpoint_lsn: Lsn, timestamp: u64) -> (r: WalRecord)
        ensures
            r == (WalRecord::Checkpoint { checkpoint_lsn, timestamp }),
    {
        WalRecord::Checkpoint { checkpoint_lsn, timestamp }
    }

    /// States a checkpoint in the header. Gives back the header to write.
    pub fn write_checkpoint_header(&mut self, checkpoint_lsn: Lsn) -> (r: Vec<u8>)
        ensures
            final(self).header == (WalHeader { checkpoint_lsn, ..old(self).header }),
            r@ == final(self).header.bytes(),
            *final(self) == (WalWriter { header: final(self).header, ..*old(self) }),
    {
        self.header.checkpoint_lsn = checkpoint_lsn;
        self.header.to_bytes()
    }

    /// The LSN of the last checkpoint.
    pub fn checkpoint_lsn(&self) -> (r: Lsn)
        ensures
            r == self.header.checkpoint_lsn,
    {
        self.header.checkpoint_lsn
    }

    /// Raises the floor of the commit sequence; a lower floor changes nothing. Gives
    /// back the header to write, if it changed.
    pub fn set_commit_seq_floor(&mut self, floor: u64) -> (r: Option<Vec<u8>>)
        ensures
            final(self).header == (WalHeader {
                commit_seq_floor: larger(old(self).header.commit_seq_floor, floor),
                ..old(self).header
            }),
            *final(self) == (WalWriter { header: final(self).header, ..*old(self) }),
            match r {
                Some(bytes) => floor > old(self).header.commit_seq_floor && bytes@ == final(
                    self
                ).header.bytes(),
                None => floor <= old(self).header.commit_seq_floor,
            },
    {
        if floor <= self.header.commit_seq_floor {
            return None;
        }
        self.header.commit_seq_floor = floor;
        Some(self.header.to_bytes())
    }

    /// The floor of the commit sequence.
    pub fn commit_seq_floor(&self) -> (r: u64)
        ensures
            r == self.header.commit_seq_floor,
    {
        self.header.commit_seq_floor
    }

    /// Whether no LSN has been used since the log was made or truncated.
    pub fn is_empty_after_header(&self) -> (r: bool)
        ensures
            r == (self.next_lsn == 1),
    {
        self.next_lsn == 1
    }

    /// Whether a file of this length holds no records. A length that cannot be had
    /// counts as one with records.
    pub fn records_empty_on_disk(file_len: Option<u64>) -> (r: bool)
        ensures
            r == (file_len == Some(WAL_HEADER_SIZE as u64)),
    {
        match file_len {
            Some(length) => length == 32,
            None => false,
        }
    }

    /// The header in the overlay regime.
    pub open spec fn stamped_overlay(header: WalHeader) -> WalHeader {
        if header.rank_regime == 1 {
            header
        } else {
            WalHeader { magic: MAGIC_OVERLAY, rank_regime: 1, ..header }
        }
    }

    /// Changes the header to the overlay regime, unless it has it. Gives back the
    /// header to write, if it changed.
    fn stamp_overlay(&mut self) -> (r: Option<Vec<u8>>)
        ensures
            final(self).header == Self::stamped_overlay(old(self).header),
            *final(self) == (WalWriter { header: final(self).header, ..*old(self) }),
            match r {
                Some(bytes) => old(self).header.rank_regime != 1 && bytes@ == final(
                    self
                ).header.bytes(),
                None => old(self).header.rank_regime == 1,
            },
    {
        if self.header.rank_regime == 1 {
            return None;
        }
        self.header.magic = MAGIC_OVERLAY;
        self.header.rank_regime = 1;
        Some(self.header.to_bytes())
    }

    /// Changes the log to the overlay regime. Only a log without records can change:
    /// its records would otherwise be read by other rules than they were written by.
    pub fn set_overlay_regime(&mut self) -> (r: Result<Option<Vec<u8>>, WalError>)
        ensures
            match r {
                Ok(written) => {
                    &&& old(self).next_lsn == 1
                    &&& final(self).header == Self::stamped_overlay(old(self).header)
                    &&& *final(self) == (WalWriter { header: final(self).header, ..*old(self) })
                    &&& match written {
                        Some(bytes) => old(self).header.rank_regime != 1 && bytes@ == final(
                            self
                        ).header.bytes(),
                        None => old(self).header.rank_regime == 1,
                    }
                },
                Err(e) => {
                    &&& old(self).next_lsn != 1
                    &&& e is InvalidRegimeStamp
                    &&& *final(self) == *old(self)
                },
            },
    {
        if !self.is_empty_after_header() {
            return Err(
                WalError::InvalidRegimeStamp {
                    message: "set_overlay_regime on a non-empty WAL (records already appended); the non-empty Owned->Overlay transition requires a rotation".to_owned(),
                },
            );
        }
        Ok(self.stamp_overlay())
    }

    /// Changes the log to the overlay regime if its file holds no records, whatever
    /// its next LSN is.
    pub fn set_overlay_regime_records_empty(&mut self, file_len: u64) -> (r: Result<
        Option<Vec<u8>>,
        WalError,
    >)
        ensures
            match r {
                Ok(written) => {
                    &&& file_len == WAL_HEADER_SIZE
                    &&& final(self).header == Self::stamped_overlay(old(self).header)
                    &&& *final(self) == (WalWriter { header: final(self).header, ..*old(self) })
                    &&& match written {
                        Some(bytes) => old(self).header.rank_regime != 1 && bytes@ == final(
                            self
                        ).header.bytes(),
                        None => old(self).header.rank_regime == 1,
                    }
                },
                Err(e) => {
                    &&& file_len != WAL_HEADER_SIZE
                    &&& e is InvalidRegimeStamp
                    &&& *final(self) == *old(self)
                },
            },
    {
        if file_len != 32 {
            return Err(
                WalError::InvalidRegimeStamp {
                    message: "set_overlay_regime_records_empty on a WAL that carries records on disk; the non-empty Owned->Overlay transition requires a rotation".to_owned(),
                },
            );
        }
        Ok(self.stamp_overlay())
    }

    /// Changes the log back to the owned regime. Only a log without records can
    /// change.
    pub fn set_owned_regime(&mut self) -> (r: Result<Option<Vec<u8>>, WalError>)
        ensures
            match r {
                Ok(written) => {
                    &&& old(self).next_lsn == 1
                    &&& final(self).header == (if old(self).header.rank_regime == 0 {
                        old(self).header
                    } else {
                        WalHeader { magic: MAGIC, rank_regime: 0, ..old(self).header }
                    })
                    &&& *final(self) == (WalWriter { header: final(self).header, ..*old(self) })
                    &&& match written {
                        Some(bytes) => old(self).header.rank_regime != 0 && bytes@ == final(
                            self
                        ).header.bytes(),
                        None => old(self).header.rank_regime == 0,
                    }
                },
                Err(e) => {
                    &&& old(self).next_lsn != 1
                    &&& e is InvalidRegimeStamp
                    &&& *final(self) == *old(self)
                },
            },
    {
        if !self.is_empty_after_header() {
            return Err(
                WalError::InvalidRegimeStamp {
                    message: "set_owned_regime on a non-empty WAL (records already appended); the non-empty Overlay->Owned transition requires a rotation".to_owned(),
                },
            );
        }
        if self.header.rank_regime == 0 {
            return Ok(None);
        }
        self.header.magic = MAGIC;
        self.header.rank_regime = 0;
        Ok(Some(self.header.to_bytes()))
    }

    /// The regime that the header states.
    pub fn rank_regime(&self) -> (r: RankRegime)
        ensures
            r == self.header.spec_regime(),
    {
        self.header.regime()
    }

    /// Takes note that all records were removed. Gives back the header to write.
    pub fn truncate(&mut self) -> (r: Vec<u8>)
        ensures
            final(self).wf(),
            final(self).next_lsn == 1,
            final(self).synced_lsn == 0,
            final(self).segment_next_offset == WAL_HEADER_SIZE,
            final(self).frontier.durable_lsn == 0,
            final(self).frontier.pending@ == Set::<Lsn>::empty(),
            final(self).frontier.failed_lsn == Lsn::MAX,
            final(self).header == (WalHeader { checkpoint_lsn: 0, ..old(self).header }),
            r@ == final(self).header.bytes(),
    {
        self.next_lsn = 1;
        self.synced_lsn = 0;
        self.frontier = SegmentFrontier::new(0);
        self.segment_next_offset = 32;
        self.header.checkpoint_lsn = 0;
        self.header.to_bytes()
    }

    /// Takes note that the file was moved to the archive and a new one was begun. The
    /// new file goes on with the LSNs, the commit floor and the regime of the old one.
    /// Gives back its header, and the checkpoint of the old one, below which archived
    /// segments may be removed.
    pub fn rotate_to_archive(&mut self) -> (r: (Vec<u8>, Lsn))
        ensures
            final(self).next_lsn == old(self).next_lsn,
            final(self).synced_lsn == old(self).synced_lsn,
            final(self).frontier == old(self).frontier,
            final(self).segment_next_offset == WAL_HEADER_SIZE,
            final(self).header == (WalHeader {
                commit_seq_floor: old(self).header.commit_seq_floor,
                rank_regime: old(self).header.rank_regime,
                ..WalHeader::fresh()
            }),
            r.0@ == final(self).header.bytes(),
            r.1 == old(self).header.checkpoint_lsn,
    {
        let carried_checkpoint: Lsn = self.header.checkpoint_lsn;
        let mut header = WalHeader::new();
        header.commit_seq_floor = self.header.commit_seq_floor;
        header.rank_regime = self.header.rank_regime;
        self.header = header;
        self.segment_next_offset = 32;
        (self.header.to_bytes(), carried_checkpoint)
    }

    /// Changes the file that a rotation began to the overlay regime, if it holds no
    /// records. Gives back the header to write.
    pub fn restamp_overlay_after_rotation(&mut self, file_len: Option<u64>) -> (r: Result<
        Vec<u8>,
        WalError,
    >)
        ensures
            match r {
                Ok(bytes) => {
                    &&& file_len == Some(WAL_HEADER_SIZE as u64)
                    &&& final(self).header == (WalHeader {
                        magic: MAGIC_OVERLAY,
                        rank_regime: 1,
                        ..old(self).header
                    })
                    &&& *final(self) == (WalWriter { header: final(self).header, ..*old(self) })
                    &&& bytes@ == final(self).header.bytes()
                },
                Err(e) => {
                    &&& file_len != Some(WAL_HEADER_SIZE as u64)
                    &&& e is InvalidRegimeStamp
                    &&& *final(self) == *old(self)
                },
            },
    {
        if !Self::records_empty_on_disk(file_len) {
            return Err(
                WalError::InvalidRegimeStamp {
                    message: "rotate_and_restamp_overlay: fresh active is not records-empty after rotate (records appended concurrently?); refusing the Overlay stamp".to_owned(),
                },
            );
        }
        self.header.magic = MAGIC_OVERLAY;
        self.header.rank_regime = 1;
        Ok(self.header.to_bytes())
    }

    /// Whether the active file counts as a segment of the log.
    pub fn active_file_has_records(file_len: u64) -> (r: bool)
        ensures
            r == (file_len > WAL_HEADER_SIZE),
    {
        file_len > 32
    }
}

/// A log that was closed after an append is opened where it ended: the LSN that is
/// recovered from its file is that of the appended record, so the next record gets
/// the one after it.
pub proof fn reopened_log_goes_on(
    header: WalHeader,
    file: Seq<u8>,
    segment_lsns: Seq<Lsn>,
    next_lsn: Lsn,
    record_type: u8,
    payload: Seq<u8>,
)
    requires
        whole_from(file, WAL_HEADER_SIZE as int),
        used_lsn(header, file, segment_lsns) < next_lsn,
        17 + payload.len() < 0x1_0000_0000,
    ensures
        ({
            let longer = file + frame(next_lsn, record_type, payload);
            &&& whole_from(longer, WAL_HEADER_SIZE as int)
            &&& used_lsn(header, longer, segment_lsns) == next_lsn
        }),
{
    appended_record_is_found(file, next_lsn, record_type, payload, WAL_HEADER_SIZE as int);
}

/// Two records that are given places one after the other do not overlap in the file,
/// and their LSNs follow each other.
pub proof fn record_segments_do_not_overlap(
    start: WalWriter,
    middle: WalWriter,
    first: (Lsn, u64, Seq<u8>),
    second: (Lsn, u64, Seq<u8>),
)
    requires
        first.0 == start.next_lsn,
        first.1 == start.segment_next_offset,
        start.segment_next_offset + first.2.len() <= u64::MAX,
        middle == (WalWriter {
            next_lsn: (start.next_lsn + 1) as u64,
            segment_next_offset: (start.segment_next_offset + first.2.len()) as u64,
            ..start
        }),
        start.next_lsn < Lsn::MAX,
        second.0 == middle.next_lsn,
        second.1 == middle.segment_next_offset,
    ensures
        first.1 + first.2.len() <= second.1,
        second.0 == first.0 + 1,
{
}

} // verus!
