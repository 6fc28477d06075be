//! Log records.

use vstd::prelude::*;
use super::codec::{le_bytes, lemma_le_len, put_le};
use super::frame::append;
use super::Lsn;

verus! {

/// A log record.
#[allow(inconsistent_fields)]
pub enum WalRecord {
    /// A term was added, with or without a value.
    Insert { term: Vec<u8>, value: Option<Vec<u8>> },
    /// A term was removed.
    Remove { term: Vec<u8> },
    /// A value was written.
    Upsert { term: Vec<u8>, value: Vec<u8> },
    /// Terms were added.
    BatchInsert { entries: Vec<(Vec<u8>, Option<Vec<u8>>)> },
    /// Counters were changed.
    BatchIncrement { entries: Vec<(Vec<u8>, i64)> },
    /// The record at `data_lsn` became visible as the commit `generation`.
    CommitRank { data_lsn: Lsn, term: Vec<u8>, generation: u64 },
    /// Everything up to `checkpoint_lsn` is in the image.
    Checkpoint { checkpoint_lsn: Lsn, timestamp: u64 },
    /// Versions were collected.
    VersionGc { version_ids: Vec<u64> },
}

/// Bytes with their length before them.
pub open spec fn sized(bytes: Seq<u8>) -> Seq<u8> {
    le_bytes(bytes.len(), 8) + bytes
}

/// Bytes that may be missing.
pub open spec fn optional(bytes: Option<Vec<u8>>) -> Seq<u8> {
    match bytes {
        Some(bytes) => seq![1u8] + sized(bytes@),
        None => seq![0u8],
    }
}

/// The entries of a batch of terms.
pub open spec fn insert_entries(entries: Seq<(Vec<u8>, Option<Vec<u8>>)>) -> Seq<u8>
    decreases entries.len(),
{
    if entries.len() == 0 {
        Seq::empty()
    } else {
        insert_entries(entries.drop_last()) + sized(entries.last().0@) + optional(entries.last().1)
    }
}

/// The entries of a batch of counters. A change is written modulo 2^64.
pub open spec fn increment_entries(entries: Seq<(Vec<u8>, i64)>) -> Seq<u8>
    decreases entries.len(),
{
    if entries.len() == 0 {
        Seq::empty()
    } else {
        increment_entries(entries.drop_last()) + sized(entries.last().0@) + le_bytes(
            entries.last().1 as u64 as nat,
            8,
        )
    }
}

/// The versions of a collection.
pub open spec fn version_entries(version_ids: Seq<u64>) -> Seq<u8>
    decreases version_ids.len(),
{
    if version_ids.len() == 0 {
        Seq::empty()
    } else {
        version_entries(version_ids.drop_last()) + le_bytes(version_ids.last() as nat, 8)
    }
}

/// The payload of a collection.
pub open spec fn version_list(version_ids: Seq<u64>) -> Seq<u8> {
    le_bytes(version_ids.len(), 8) + version_entries(version_ids)
}

/// How long the payload of a collection is.
pub proof fn lemma_version_list_len(version_ids: Seq<u64>)
    ensures
        version_entries(version_ids).len() == 8 * version_ids.len(),
        version_list(version_ids).len() == 8 + 8 * version_ids.len(),
    decreases version_ids.len(),
{
    lemma_le_len(version_ids.len(), 8);
    if version_ids.len() > 0 {
        lemma_le_len(version_ids.last() as nat, 8);
        lemma_version_list_len(version_ids.drop_last());
    }
}

impl WalRecord {
    /// The number that stands for the kind of a record.
    pub open spec fn spec_record_type(self) -> u8 {
        match self {
            WalRecord::Insert { .. } => 1,
            WalRecord::Remove { .. } => 2,
            WalRecord::Upsert { .. } => 3,
            WalRecord::BatchInsert { .. } => 4,
            WalRecord::BatchIncrement { .. } => 5,
            WalRecord::CommitRank { .. } => 6,
            WalRecord::Checkpoint { .. } => 7,
            WalRecord::VersionGc { .. } => 8,
        }
    }

    /// The payload of a record.
    pub open spec fn payload(self) -> Seq<u8> {
        match self {
            WalRecord::Insert { term, value } => sized(term@) + optional(value),
            WalRecord::Remove { term } => sized(term@),
            WalRecord::Upsert { term, value } => sized(term@) + sized(value@),
            WalRecord::BatchInsert { entries } => le_bytes(entries@.len(), 8) + insert_entries(
                entries@,
            ),
            WalRecord::BatchIncrement { entries } => le_bytes(entries@.len(), 8)
                + increment_entries(entries@),
            WalRecord::CommitRank { data_lsn, term, generation } => le_bytes(data_lsn as nat, 8)
                + le_bytes(generation as nat, 8) + sized(term@),
            WalRecord::Checkpoint { checkpoint_lsn, timestamp } => le_bytes(
                checkpoint_lsn as nat,
                8,
            ) + le_bytes(timestamp as nat, 8),
            WalRecord::VersionGc { version_ids } => version_list(version_ids@),
        }
    }

    /// The number that stands for the kind of the record.
    pub fn record_type(&self) -> (r: u8)
        ensures
            r == self.spec_record_type(),
    {
        match self {
            WalRecord::Insert { .. } => 1,
            WalRecord::Remove { .. } => 2,
            WalRecord::Upsert { .. } => 3,
            WalRecord::BatchInsert { .. } => 4,
            WalRecord::BatchIncrement { .. } => 5,
            WalRecord::CommitRank { .. } => 6,
            WalRecord::Checkpoint { .. } => 7,
            WalRecord::VersionGc { .. } => 8,
        }
    }

    /// The payload of the record.
    pub fn serialize_payload(&self) -> (r: Vec<u8>)
        ensures
            r@ == self.payload(),
    {
        let mut r: Vec<u8> = Vec::new();
        match self {
            WalRecord::Insert { term, value } => {
                put_sized(&mut r, term);
                put_optional(&mut r, value);
            },
            WalRecord::Remove { term } => {
                put_sized(&mut r, term);
            },
            WalRecord::Upsert { term, value } => {
                put_sized(&mut r, term);
                put_sized(&mut r, value);
            },
            WalRecord::BatchInsert { entries } => {
                put_le(&mut r, entries.len() as u64, 8);
                let ghost count = r@;
                let mut i: usize = 0;
                assert(r@ =~= count + insert_entries(entries@.take(0)));
                while i < entries.len()
                    invariant
                        i <= entries@.len(),
                        r@ == count + insert_entries(entries@.take(i as int)),
                    decreases entries@.len() - i,
                {
                    put_sized(&mut r, &entries[i].0);
                    put_optional(&mut r, &entries[i].1);
                    proof {
                        let more = entries@.take(i + 1);
                        assert(more.drop_last() =~= entries@.take(i as int));
                        assert(r@ =~= count + insert_entries(more));
                    }
                    i += 1;
                }
                assert(entries@.take(i as int) =~= entries@);
            },
            WalRecord::BatchIncrement { entries } => {
                put_le(&mut r, entries.len() as u64, 8);
                let ghost count = r@;
                let mut i: usize = 0;
                assert(r@ =~= count + increment_entries(entries@.take(0)));
                while i < entries.len()
                    invariant
                        i <= entries@.len(),
                        r@ == count + increment_entries(entries@.take(i as int)),
                    decreases entries@.len() - i,
                {
                    put_sized(&mut r, &entries[i].0);
                    put_le(&mut r, entries[i].1 as u64, 8);
                    proof {
                        let more = entries@.take(i + 1);
                        assert(more.drop_last() =~= entries@.take(i as int));
                        assert(r@ =~= count + increment_entries(more));
                    }
                    i += 1;
                }
                assert(entries@.take(i as int) =~= entries@);
            },
            WalRecord::CommitRank { data_lsn, term, generation } => {
                put_le(&mut r, *data_lsn, 8);
                put_le(&mut r, *generation, 8);
                put_sized(&mut r, term);
            },
            WalRecord::Checkpoint { checkpoint_lsn, timestamp } => {
                put_le(&mut r, *checkpoint_lsn, 8);
                put_le(&mut r, *timestamp, 8);
            },
            WalRecord::VersionGc { version_ids } => {
                put_le(&mut r, version_ids.len() as u64, 8);
                let ghost count = r@;
                let mut i: usize = 0;
                assert(r@ =~= count + version_entries(version_ids@.take(0)));
                while i < version_ids.len()
                    invariant
                        i <= version_ids@.len(),
                        r@ == count + version_entries(version_ids@.take(i as int)),
                    decreases version_ids@.len() - i,
                {
                    put_le(&mut r, version_ids[i], 8);
                    proof {
                        let more = version_ids@.take(i + 1);
                        assert(more.drop_last() =~= version_ids@.take(i as int));
                        assert(r@ =~= count + version_entries(more));
                    }
                    i += 1;
                }
                assert(version_ids@.take(i as int) =~= version_ids@);
            },
        }
        assert(r@ =~= self.payload());
        r
    }
}

/// Appends bytes with their length before them.
fn put_sized(buffer: &mut Vec<u8>, bytes: &Vec<u8>)
    ensures
        final(buffer)@ == old(buffer)@ + sized(bytes@),
{
    let ghost before = buffer@;
    put_le(buffer, bytes.len() as u64, 8);
    append(buffer, bytes.as_slice(), 0, bytes.len());
    assert(bytes@.subrange(0, bytes@.len() as int) =~= bytes@);
    assert(buffer@ =~= before + sized(bytes@));
}

/// Appends bytes that may be missing.
fn put_optional(buffer: &mut Vec<u8>, bytes: &Option<Vec<u8>>)
    ensures
        final(buffer)@ == old(buffer)@ + optional(*bytes),
{
    let ghost before = buffer@;
    match bytes {
        Some(bytes) => {
            buffer.push(1);
            put_sized(buffer, bytes);
        },
        None => {
            buffer.push(0);
        },
    }
    assert(buffer@ =~= before + optional(*bytes));
}

} // verus!
