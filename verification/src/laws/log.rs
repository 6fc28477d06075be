//! The log: what is written is found again, and what is found is what was written.

use vstd::prelude::*;
use crate::text::decimal;
use crate::version_gc::VersionGcRegistry;
use crate::wal::codec::{
    crc32, crc32_of, crc_bits, crc_state, get_le, le_bytes, lemma_le_len, lemma_le_round_trip,
    lemma_le_value_round_trip, lemma_ranges,
};
use crate::wal::frame::{
    append, decode_record_frame, encode_record_frame, frame, frame_at, frame_body, frame_len_at,
    last_lsn_from, lsns_from, scan_last_lsn, segment_first_lsn, segment_lsns,
    written_frame_reads_back,
};
use crate::wal::header::{
    written_header_reads_back, RankRegime, WalHeader, MAGIC, MAGIC_OVERLAY, WAL_HEADER_SIZE,
};
use crate::wal::record::WalRecord;
use crate::wal::segments::{
    max_lsn_in_segments, prune_segments_if_needed, record_segment_extension, sizes_from,
    sort_segments_by_first_lsn,
};
use crate::wal::sync_backend::completion_status;
use crate::wal::writer::{frontier_error, next_open_step, OpenStep, WalWriter};
use crate::wal::{Lsn, WalError};

verus! {

/// A frame is read back from where it stands: with its LSN, its kind and its payload.
pub proof fn a_frame_is_read_back(
    lsn: Lsn,
    kind: u8,
    payload: &[u8],
    written: Vec<u8>,
    bytes: &[u8],
    at: usize,
    read: Result<(Lsn, u8, Vec<u8>), WalError>,
)
    requires
        17 + payload@.len() < 0x1_0000_0000,
        call_ensures(encode_record_frame, (lsn, kind, payload), written),
        at + written@.len() <= bytes@.len(),
        bytes@.subrange(at as int, at + written@.len()) == written@,
        call_ensures(decode_record_frame, (bytes, at), read),
    ensures
        written@.len() == 17 + payload@.len(),
        read matches Ok((l, k, p)) && l == lsn && k == kind && p@ == payload@,
{
    let before = bytes@.take(at as int);
    let after = bytes@.skip(at + written@.len());
    assert(before + frame(lsn, kind, payload@) + after =~= bytes@);
    written_frame_reads_back(before, lsn, kind, payload@, after);
}

/// A frame has the checksum of what follows it first, then its length, its LSN, its kind
/// and its payload.
pub proof fn a_frame_has_its_parts_in_place(
    lsn: Lsn,
    kind: u8,
    payload: &[u8],
    written: Vec<u8>,
    bytes: &[u8],
    checksum: u64,
    sum: u32,
    length: u64,
    number: u64,
)
    requires
        17 + payload@.len() < 0x1_0000_0000,
        17 + payload@.len() <= usize::MAX,
        call_ensures(encode_record_frame, (lsn, kind, payload), written),
        bytes@ == written@,
        call_ensures(get_le, (bytes, 0, 4), checksum),
        call_ensures(crc32, (bytes, 4, (17 + payload@.len()) as usize), sum),
        call_ensures(get_le, (bytes, 4, 4), length),
        call_ensures(get_le, (bytes, 8, 8), number),
    ensures
        checksum == sum,
        length == written@.len(),
        number == lsn,
        written@[16] == kind,
        written@.skip(17) == payload@,
{
    let none = Seq::<u8>::empty();
    assert(none + frame(lsn, kind, payload@) + none =~= written@);
    written_frame_reads_back(none, lsn, kind, payload@, none);
    assert(bytes@.subrange(0, 4) =~= written@.subrange(0, 4));
    assert(bytes@.subrange(4, 8) =~= written@.subrange(4, 8));
    assert(bytes@.subrange(8, 16) =~= written@.subrange(8, 16));
    lemma_ranges();
    lemma_le_value_round_trip(written@.subrange(8, 16));
    assert(written@.skip(17) =~= written@.subrange(17, 17 + payload@.len() as int));
}

/// A header has its magic number first, then the LSN of the checkpoint, the floor of the
/// commits and the number of the regime, eight bytes each.
pub proof fn a_header_has_its_parts_in_place(
    header: WalHeader,
    written: Vec<u8>,
    bytes: &[u8],
    magic: u64,
    checkpoint: u64,
    floor: u64,
    regime: u64,
)
    requires
        call_ensures(WalHeader::to_bytes, (&header,), written),
        bytes@ == written@,
        call_ensures(get_le, (bytes, 0, 8), magic),
        call_ensures(get_le, (bytes, 8, 8), checkpoint),
        call_ensures(get_le, (bytes, 16, 8), floor),
        call_ensures(get_le, (bytes, 24, 8), regime),
    ensures
        written@.len() == 32,
        magic == header.magic,
        checkpoint == header.checkpoint_lsn,
        floor == header.commit_seq_floor,
        regime == header.rank_regime,
{
    lemma_ranges();
    lemma_le_round_trip(header.magic as nat, 8);
    lemma_le_round_trip(header.checkpoint_lsn as nat, 8);
    lemma_le_round_trip(header.commit_seq_floor as nat, 8);
    lemma_le_round_trip(header.rank_regime as nat, 8);
    assert(bytes@.subrange(0, 8) =~= le_bytes(header.magic as nat, 8));
    assert(bytes@.subrange(8, 16) =~= le_bytes(header.checkpoint_lsn as nat, 8));
    assert(bytes@.subrange(16, 24) =~= le_bytes(header.commit_seq_floor as nat, 8));
    assert(bytes@.subrange(24, 32) =~= le_bytes(header.rank_regime as nat, 8));
}

/// The writer of a new log gives the first record the LSN one, has nothing synced, and puts
/// the first record behind the header of a new log.
pub proof fn a_new_log_counts_from_one(
    writer: WalWriter,
    current: Lsn,
    synced: Lsn,
    checkpoint: Lsn,
    floor: u64,
    regime: RankRegime,
    unused: bool,
)
    requires
        call_ensures(WalWriter::create, (), writer),
        call_ensures(WalWriter::current_lsn, (&writer,), current),
        call_ensures(WalWriter::synced_lsn, (&writer,), synced),
        call_ensures(WalWriter::checkpoint_lsn, (&writer,), checkpoint),
        call_ensures(WalWriter::commit_seq_floor, (&writer,), floor),
        call_ensures(WalWriter::rank_regime, (&writer,), regime),
        call_ensures(WalWriter::is_empty_after_header, (&writer,), unused),
    ensures
        current == 1,
        synced == 0,
        checkpoint == 0,
        floor == 0,
        regime == RankRegime::Owned,
        unused,
        writer.segment_next_offset == WAL_HEADER_SIZE,
        writer.frontier.durable_lsn == 0,
        writer.frontier.failed_lsn == Lsn::MAX,
        forall|k: Lsn| !writer.frontier.pending@.contains(k),
{
}

/// A log that is not there is made, one that somebody else made meanwhile is opened, and
/// any other failure stands. A sync has failed exactly if its result is negative, with that
/// number.
pub proof fn failures_lead_on(
    missing: Option<OpenStep>,
    taken: Option<OpenStep>,
    step: OpenStep,
    error: WalError,
    other: Option<OpenStep>,
    result: i32,
    status: Result<(), i32>,
)
    requires
        call_ensures(next_open_step, (OpenStep::Open, &WalError::NotFound), missing),
        call_ensures(next_open_step, (OpenStep::Create, &WalError::AlreadyExists), taken),
        call_ensures(next_open_step, (step, &error), other),
        result > i32::MIN,
        call_ensures(completion_status, (result,), status),
    ensures
        missing == Some(OpenStep::Create),
        taken == Some(OpenStep::Reopen),
        other is Some ==> (step == OpenStep::Open && error is NotFound) || (step
            == OpenStep::Create && error is AlreadyExists),
        status is Err <==> result < 0,
        status matches Err(number) ==> number + result == 0,
{
}

/// The number that some digits stand for.
pub open spec fn digits_value(digits: Seq<char>) -> nat
    decreases digits.len(),
{
    if digits.len() == 0 {
        0
    } else {
        10 * digits_value(digits.drop_last()) + (digits.last() as u32 - 48) as nat
    }
}

/// A number is spelled in decimal digits, the first of which is not zero unless it is the
/// only one.
pub proof fn a_number_is_spelled_in_digits(n: nat)
    ensures
        decimal(n).len() > 0,
        digits_value(decimal(n)) == n,
        forall|i: int| 0 <= i < decimal(n).len() ==> 48 <= #[trigger] decimal(n)[i] as u32 <= 57,
        decimal(n).len() > 1 ==> decimal(n)[0] as u32 != 48,
{
    lemma_decimal(n);
}

/// What decimal digits are.
proof fn lemma_decimal(n: nat)
    ensures
        decimal(n).len() > 0,
        digits_value(decimal(n)) == n,
        forall|i: int| 0 <= i < decimal(n).len() ==> 48 <= #[trigger] decimal(n)[i] as u32 <= 57,
        decimal(n).len() > 1 ==> decimal(n)[0] as u32 != 48,
        n > 0 ==> decimal(n)[0] as u32 != 48,
    decreases n,
{
    let all = decimal(n);
    if n < 10 {
        assert(all.drop_last() =~= Seq::empty());
        assert(digits_value(all.drop_last()) == 0);
        assert(all.last() == (48 + n) as char);
    } else {
        let fewer = decimal(n / 10);
        lemma_decimal(n / 10);
        assert(all.drop_last() =~= fewer);
        assert(all.last() == (48 + n % 10) as char);
        assert forall|i: int| 0 <= i < all.len() implies 48 <= #[trigger] all[i] as u32 <= 57 by {
            if i < fewer.len() {
                assert(all[i] == fewer[i]);
            }
        }
        assert(all[0] == fewer[0]);
    }
}

/// A wait that cannot succeed names the awaited LSN and the one that failed, in digits and
/// between the same words, whatever they are.
pub proof fn errors_name_their_numbers(
    lsn: Lsn,
    failed: Lsn,
    other_lsn: Lsn,
    other_failed: Lsn,
    error: WalError,
    other: WalError,
)
    requires
        call_ensures(frontier_error, (lsn, failed), error),
        call_ensures(frontier_error, (other_lsn, other_failed), other),
    ensures
        error is CorruptedRecord && other is CorruptedRecord,
        exists|before: Seq<char>, between: Seq<char>, behind: Seq<char>|
            {
                &&& error->CorruptedRecord_message@ == before + decimal(lsn as nat) + between
                    + decimal(failed as nat) + behind
                &&& other->CorruptedRecord_message@ == #[trigger] (before + decimal(
                    other_lsn as nat,
                ) + between + decimal(other_failed as nat) + behind)
            },
{
    let before = "cannot publish contiguous WAL segment frontier through LSN "@;
    let between = "; earlier reserved LSN "@;
    let behind = " failed to publish"@;
    assert(other->CorruptedRecord_message@ == (before + decimal(other_lsn as nat) + between
        + decimal(other_failed as nat) + behind));
}

/// The directory of record segments is named after the extension of the log file, with the
/// same ending whatever it is; a file without one counts as one of the usual extension.
pub proof fn segments_are_named_after_their_log(
    extension: &str,
    other: &str,
    named: String,
    other_named: String,
    usual: String,
    without: String,
)
    requires
        call_ensures(record_segment_extension, (Some(extension),), named),
        call_ensures(record_segment_extension, (Some(other),), other_named),
        call_ensures(record_segment_extension, (Some("wal"),), usual),
        call_ensures(record_segment_extension, (None,), without),
    ensures
        named@.len() == extension@.len() + 2,
        named@.take(extension@.len() as int) == extension@,
        named@.skip(extension@.len() as int) == other_named@.skip(other@.len() as int),
        without@ == usual@,
{
    reveal_strlit(".d");
    reveal_strlit("wal");
    reveal_strlit("wal.d");
    assert(named@.take(extension@.len() as int) =~= extension@);
    assert(named@.skip(extension@.len() as int) =~= ".d"@);
    assert(other_named@.skip(other@.len() as int) =~= ".d"@);
    assert(without@ =~= usual@);
}

/// A frame that is read is one that was written: the same LSN, kind and payload give
/// the same bytes.
pub proof fn a_frame_that_is_read_was_written(
    bytes: &[u8],
    at: usize,
    lsn: Lsn,
    kind: u8,
    payload: Vec<u8>,
    slice: &[u8],
    written: Vec<u8>,
)
    requires
        at <= bytes@.len(),
        call_ensures(decode_record_frame, (bytes, at), Ok((lsn, kind, payload))),
        slice@ == payload@,
        17 + payload@.len() < 0x1_0000_0000,
        call_ensures(encode_record_frame, (lsn, kind, slice), written),
    ensures
        at + written@.len() <= bytes@.len(),
        bytes@.subrange(at as int, at + written@.len()) == written@,
{
    let end = at + frame_len_at(bytes@, at as int);
    let length = bytes@.subrange(at + 4, at + 8);
    let number = bytes@.subrange(at + 8, at + 16);
    let checksum = bytes@.subrange(at as int, at + 4);
    lemma_ranges();
    lemma_le_value_round_trip(length);
    lemma_le_value_round_trip(number);
    lemma_le_value_round_trip(checksum);
    assert(payload@.len() == end - (at + 17));
    let body = frame_body(lsn, kind, payload@);
    assert((17 + payload@.len()) % 0x1_0000_0000 == 17 + payload@.len());
    assert(body =~= bytes@.subrange(at + 4, end));
    assert(written@ =~= bytes@.subrange(at as int, end));
}

/// The checksum tells apart what differs in one byte.
pub proof fn a_checksum_tells_a_changed_byte(
    a: &[u8],
    b: &[u8],
    start: usize,
    end: usize,
    changed: int,
    sum_a: u32,
    sum_b: u32,
)
    requires
        start <= changed < end,
        end <= a@.len(),
        end <= b@.len(),
        forall|i: int| start <= i < end && i != changed ==> #[trigger] a@[i] == b@[i],
        a@[changed] != b@[changed],
        call_ensures(crc32, (a, start, end), sum_a),
        call_ensures(crc32, (b, start, end), sum_b),
    ensures
        sum_a != sum_b,
{
    let x = a@.subrange(start as int, end as int);
    let y = b@.subrange(start as int, end as int);
    lemma_crc_differs(x, y, changed - start);
    let p = crc_state(x);
    let q = crc_state(y);
    assert(p != q ==> p ^ 0xffff_ffff != q ^ 0xffff_ffff) by (bit_vector);
}

/// The state of the checksum differs from the changed byte on.
proof fn lemma_crc_differs(x: Seq<u8>, y: Seq<u8>, changed: int)
    requires
        x.len() == y.len(),
        0 <= changed < x.len(),
        forall|i: int| 0 <= i < x.len() && i != changed ==> #[trigger] x[i] == y[i],
        x[changed] != y[changed],
    ensures
        crc_state(x) != crc_state(y),
    decreases x.len(),
{
    let m = x.len() - 1;
    let p = crc_state(x.drop_last());
    let q = crc_state(y.drop_last());
    let c = x.last();
    let d = y.last();
    if changed == m {
        assert(x.drop_last() =~= y.drop_last());
        assert(c != d ==> p ^ (c as u32) != p ^ (d as u32)) by (bit_vector);
    } else {
        lemma_crc_differs(x.drop_last(), y.drop_last(), changed);
        assert(x[m] == y[m]);
        assert(p != q ==> p ^ (c as u32) != q ^ (c as u32)) by (bit_vector);
    }
    lemma_crc_bits_differ(p ^ (c as u32), q ^ (d as u32), 8);
}

/// Different states stay different.
proof fn lemma_crc_bits_differ(p: u32, q: u32, n: nat)
    requires
        p != q,
    ensures
        crc_bits(p, n) != crc_bits(q, n),
    decreases n,
{
    if n > 0 {
        lemma_crc_bits_differ(p, q, (n - 1) as nat);
        let a = crc_bits(p, (n - 1) as nat);
        let b = crc_bits(q, (n - 1) as nat);
        assert(a != b ==> (if a & 1 == 1 {
            (a >> 1) ^ 0xedb8_8320
        } else {
            a >> 1
        }) != (if b & 1 == 1 {
            (b >> 1) ^ 0xedb8_8320
        } else {
            b >> 1
        })) by (bit_vector);
    }
}

/// A frame in which one byte behind its length was changed is not read.
pub proof fn a_changed_frame_is_not_read(
    lsn: Lsn,
    kind: u8,
    payload: &[u8],
    written: Vec<u8>,
    bytes: &[u8],
    changed: int,
    read: Result<(Lsn, u8, Vec<u8>), WalError>,
)
    requires
        17 + payload@.len() < 0x1_0000_0000,
        call_ensures(encode_record_frame, (lsn, kind, payload), written),
        bytes@.len() == written@.len(),
        8 <= changed < written@.len(),
        forall|i: int| 0 <= i < written@.len() && i != changed ==> #[trigger] bytes@[i]
            == written@[i],
        bytes@[changed] != written@[changed],
        call_ensures(decode_record_frame, (bytes, 0), read),
    ensures
        read is Err,
{
    let none = Seq::<u8>::empty();
    assert(none + frame(lsn, kind, payload@) + none =~= written@);
    written_frame_reads_back(none, lsn, kind, payload@, none);
    let total = 17 + payload@.len();
    assert(bytes@.subrange(0, 4) =~= written@.subrange(0, 4));
    assert(bytes@.subrange(4, 8) =~= written@.subrange(4, 8));
    let x = bytes@.subrange(4, total as int);
    let y = written@.subrange(4, total as int);
    lemma_crc_differs(x, y, changed - 4);
    let p = crc_state(x);
    let q = crc_state(y);
    assert(p != q ==> p ^ 0xffff_ffff != q ^ 0xffff_ffff) by (bit_vector);
}

/// What is appended stands behind what was there, unchanged.
pub proof fn appended_bytes_stand_at_the_end(
    buffer: &mut Vec<u8>,
    before: Vec<u8>,
    after: Vec<u8>,
    bytes: &[u8],
    start: usize,
    end: usize,
)
    requires
        *buffer == before,
        *final(buffer) == after,
        start <= end <= bytes@.len(),
        call_ensures(append, (buffer, bytes, start, end), ()),
    ensures
        after@.len() == before@.len() + (end - start),
        forall|i: int| 0 <= i < before@.len() ==> #[trigger] after@[i] == before@[i],
        forall|i: int|
            0 <= i < end - start ==> after@[before@.len() + i] == #[trigger] bytes@[start + i],
{
}

/// The LSNs of a part of the log are those of its frames, one behind the other, up to
/// the first place where none is read.
pub proof fn a_scan_reads_frame_by_frame(
    bytes: &[u8],
    start: usize,
    found: Vec<Lsn>,
    read: Result<(Lsn, u8, Vec<u8>), WalError>,
    rest: Vec<Lsn>,
    next: usize,
)
    requires
        start <= bytes@.len(),
        call_ensures(segment_lsns, (bytes, start), found),
        call_ensures(decode_record_frame, (bytes, start), read),
        read matches Ok((_, _, payload)) ==> next == start + 17 + payload@.len(),
        call_ensures(segment_lsns, (bytes, next), rest),
    ensures
        read is Err ==> found@.len() == 0,
        read matches Ok((lsn, _, _)) ==> found@ == seq![lsn] + rest@,
{
}

/// The last LSN of a part of the log is the largest of its frames, and the first is
/// that of the first frame.
pub proof fn the_last_lsn_is_the_largest(
    bytes: &[u8],
    start: usize,
    found: Vec<Lsn>,
    last: Option<Lsn>,
    first: Option<Lsn>,
)
    requires
        start <= bytes@.len(),
        call_ensures(segment_lsns, (bytes, start), found),
        call_ensures(scan_last_lsn, (bytes, start), last),
        call_ensures(segment_first_lsn, (bytes, start), first),
    ensures
        last is None <==> found@.len() == 0,
        last matches Some(lsn) ==> found@.contains(lsn) && forall|i: int|
            0 <= i < found@.len() ==> #[trigger] found@[i] <= lsn,
        first is None <==> found@.len() == 0,
        first matches Some(lsn) ==> lsn == found@[0],
{
    lemma_largest(bytes@, start as int);
}

/// The largest LSN is one of the LSNs and not below any.
proof fn lemma_largest(bytes: Seq<u8>, at: int)
    ensures
        last_lsn_from(bytes, at) is None <==> lsns_from(bytes, at).len() == 0,
        last_lsn_from(bytes, at) matches Some(lsn) ==> lsns_from(bytes, at).contains(lsn)
            && forall|i: int|
            0 <= i < lsns_from(bytes, at).len() ==> #[trigger] lsns_from(bytes, at)[i] <= lsn,
    decreases bytes.len() - at,
{
    if 0 <= at < bytes.len() && frame_at(bytes, at) {
        let next = at + frame_len_at(bytes, at);
        lemma_largest(bytes, next);
        let later = lsns_from(bytes, next);
        let all = lsns_from(bytes, at);
        assert(all[0] == crate::wal::frame::frame_lsn_at(bytes, at));
        assert forall|i: int| 0 <= i < later.len() implies #[trigger] later[i] == all[i + 1] by {}
        if let Some(lsn) = last_lsn_from(bytes, next) {
            let k = choose|k: int| 0 <= k < later.len() && later[k] == lsn;
            assert(all[k + 1] == lsn);
        }
        assert forall|i: int| 0 <= i < all.len() implies #[trigger] all[i] <= last_lsn_from(
            bytes,
            at,
        )->0 by {
            if i > 0 {
                assert(later[i - 1] == all[i]);
            }
        }
    }
}

/// The LSN that an existing log has used last is the largest of those in its file, in
/// its record segments and in its header, or zero if there are none; the log is opened
/// behind it.
pub proof fn a_log_is_opened_behind_what_it_has_used(
    header: WalHeader,
    file: &[u8],
    segments: &[Lsn],
    in_file: Vec<Lsn>,
    last: Lsn,
    file_len: Option<u64>,
    writer: WalWriter,
    current: Lsn,
    synced: Lsn,
    checkpoint: Lsn,
    floor: u64,
)
    requires
        file@.len() >= WAL_HEADER_SIZE,
        call_ensures(segment_lsns, (file, WAL_HEADER_SIZE), in_file),
        call_ensures(WalWriter::recovered_lsn, (&header, file, segments), last),
        last < Lsn::MAX,
        call_ensures(WalWriter::open, (header, last, file_len), writer),
        call_ensures(WalWriter::current_lsn, (&writer,), current),
        call_ensures(WalWriter::synced_lsn, (&writer,), synced),
        call_ensures(WalWriter::checkpoint_lsn, (&writer,), checkpoint),
        call_ensures(WalWriter::commit_seq_floor, (&writer,), floor),
    ensures
        forall|i: int| 0 <= i < in_file@.len() ==> #[trigger] in_file@[i] <= last,
        forall|i: int| 0 <= i < segments@.len() ==> #[trigger] segments@[i] <= last,
        header.checkpoint_lsn <= last,
        last == 0 || in_file@.contains(last) || segments@.contains(last) || header.checkpoint_lsn
            == last,
        current == last + 1,
        synced == last,
        checkpoint == header.checkpoint_lsn,
        floor == header.commit_seq_floor,
        file_len is None ==> writer.segment_next_offset == WAL_HEADER_SIZE,
        file_len matches Some(n) ==> writer.segment_next_offset >= n && writer.segment_next_offset
            >= WAL_HEADER_SIZE && (writer.segment_next_offset == n || writer.segment_next_offset
            == WAL_HEADER_SIZE),
{
    lemma_largest(file@, WAL_HEADER_SIZE as int);
    lemma_largest_of(segments@);
}

/// The largest of some LSNs is one of them, or zero, and not below any.
proof fn lemma_largest_of(lsns: Seq<Lsn>)
    ensures
        crate::wal::writer::largest_of(lsns) == 0 || lsns.contains(
            crate::wal::writer::largest_of(lsns),
        ),
        forall|i: int|
            0 <= i < lsns.len() ==> #[trigger] lsns[i] <= crate::wal::writer::largest_of(lsns),
    decreases lsns.len(),
{
    if lsns.len() > 0 {
        let fewer = lsns.drop_last();
        lemma_largest_of(fewer);
        assert forall|i: int| 0 <= i < lsns.len() implies #[trigger] lsns[i]
            <= crate::wal::writer::largest_of(lsns) by {
            if i < fewer.len() {
                assert(fewer[i] == lsns[i]);
            }
        }
        if fewer.contains(crate::wal::writer::largest_of(fewer)) {
            let k = choose|k: int| 0 <= k < fewer.len() && fewer[k]
                == crate::wal::writer::largest_of(fewer);
            assert(lsns[k] == crate::wal::writer::largest_of(fewer));
        }
        assert(lsns[lsns.len() - 1] == lsns.last());
    }
}

/// One way of taking an LSN.
pub enum Taking<'a> {
    /// With a record.
    Append(&'a WalRecord),
    /// With a record that has a place of its own.
    Segment(&'a WalRecord),
    /// With a record whose LSN was reserved.
    Reserved(&'a WalRecord),
    /// Without a record.
    Allocate,
}

/// A writer was asked for an LSN in some way and gave it, with this place and frame if
/// there is a record.
pub open spec fn took(
    writer: &mut WalWriter,
    way: Taking<'_>,
    lsn: Lsn,
    place: Option<u64>,
    bytes: Vec<u8>,
) -> bool {
    match way {
        Taking::Append(record) => place is None && call_ensures(
            WalWriter::append,
            (writer, record),
            (lsn, bytes),
        ),
        Taking::Segment(record) => place is Some && call_ensures(
            WalWriter::append_record_segment,
            (writer, record),
            (lsn, place->0, bytes),
        ),
        Taking::Reserved(record) => place is Some && call_ensures(
            WalWriter::append_record_segment_with_lsn,
            (writer, lsn, record),
            Ok((lsn, place->0, bytes)),
        ),
        Taking::Allocate => place is None && call_ensures(WalWriter::allocate_lsn, (writer,), lsn),
    }
}

/// The record that an LSN is taken with.
pub open spec fn record_of(way: Taking<'_>) -> Option<WalRecord> {
    match way {
        Taking::Append(record) => Some(*record),
        Taking::Segment(record) => Some(*record),
        Taking::Reserved(record) => Some(*record),
        Taking::Allocate => None,
    }
}

/// However an LSN is taken, it is the current one, and the next one is current then.
/// The frame of a record reads back with that LSN and with the kind and payload of the
/// record. A record with a place of its own gets the one behind the last, and nothing
/// else changes.
pub proof fn lsns_are_taken_one_by_one(
    writer: &mut WalWriter,
    before: WalWriter,
    after: WalWriter,
    way: Taking<'_>,
    lsn: Lsn,
    place: Option<u64>,
    bytes: Vec<u8>,
    current: Lsn,
    now_current: Lsn,
)
    requires
        *writer == before,
        *final(writer) == after,
        before.next_lsn < Lsn::MAX,
        record_of(way) matches Some(record) ==> before.segment_next_offset + 17
            + record.payload().len() <= u64::MAX,
        took(writer, way, lsn, place, bytes),
        call_ensures(WalWriter::current_lsn, (&before,), current),
        call_ensures(WalWriter::current_lsn, (&after,), now_current),
    ensures
        lsn == current,
        now_current == lsn + 1,
        after.synced_lsn == before.synced_lsn,
        after.frontier == before.frontier,
        after.header == before.header,
        place matches Some(at) ==> at == before.segment_next_offset && after.segment_next_offset
            == at + bytes@.len(),
        place is None ==> after.segment_next_offset == before.segment_next_offset,
        forall|
            record: WalRecord,
            kind: u8,
            payload: Vec<u8>,
            slice: &[u8],
            read: Result<(Lsn, u8, Vec<u8>), WalError>,
        |
            ({
                &&& record_of(way) == Some(record)
                &&& 17 + payload@.len() < 0x1_0000_0000
                &&& #[trigger] call_ensures(WalRecord::record_type, (&record,), kind)
                &&& #[trigger] call_ensures(WalRecord::serialize_payload, (&record,), payload)
                &&& slice@ == bytes@
                &&& #[trigger] call_ensures(decode_record_frame, (slice, 0), read)
            }) ==> (read matches Ok((l, k, p)) && l == lsn && k == kind && p@ == payload@),
{
    assert forall|
        record: WalRecord,
        kind: u8,
        payload: Vec<u8>,
        slice: &[u8],
        read: Result<(Lsn, u8, Vec<u8>), WalError>,
    |
        ({
            &&& record_of(way) == Some(record)
            &&& 17 + payload@.len() < 0x1_0000_0000
            &&& #[trigger] call_ensures(WalRecord::record_type, (&record,), kind)
            &&& #[trigger] call_ensures(WalRecord::serialize_payload, (&record,), payload)
            &&& slice@ == bytes@
            &&& #[trigger] call_ensures(decode_record_frame, (slice, 0), read)
        }) implies (read matches Ok((l, k, p)) && l == lsn && k == kind && p@ == payload@) by {
        let none = Seq::<u8>::empty();
        assert(none + frame(lsn, kind, payload@) + none =~= slice@);
        written_frame_reads_back(none, lsn, kind, payload@, none);
    }
    match record_of(way) {
        Some(record) => {
            lemma_frame_len(lsn, record.spec_record_type(), record.payload());
        },
        None => {},
    }
}

/// How long a frame is.
proof fn lemma_frame_len(lsn: Lsn, kind: u8, payload: Seq<u8>)
    ensures
        frame(lsn, kind, payload).len() == 17 + payload.len(),
{
    lemma_le_len((17 + payload.len()) % 0x1_0000_0000, 4);
    lemma_le_len(lsn as nat, 8);
    lemma_le_len(crc32_of(frame_body(lsn, kind, payload)) as nat, 4);
}

/// An LSN that was reserved is refused exactly if it is not the current one, and then
/// nothing changes.
pub proof fn a_reservation_must_be_the_next(
    writer: &mut WalWriter,
    before: WalWriter,
    after: WalWriter,
    lsn: Lsn,
    record: &WalRecord,
    result: Result<(Lsn, u64, Vec<u8>), WalError>,
    current: Lsn,
)
    requires
        *writer == before,
        *final(writer) == after,
        call_ensures(WalWriter::append_record_segment_with_lsn, (writer, lsn, record), result),
        call_ensures(WalWriter::current_lsn, (&before,), current),
    ensures
        result is Ok <==> lsn == current,
        result is Err ==> after == before,
{
}

/// A batch is appended as the record of all its entries.
pub proof fn a_batch_is_one_record(
    one: &mut WalWriter,
    other: &mut WalWriter,
    before: WalWriter,
    one_after: WalWriter,
    other_after: WalWriter,
    entries: Vec<(Vec<u8>, Option<Vec<u8>>)>,
    batch: (Lsn, Vec<u8>),
    record: WalRecord,
    single: (Lsn, Vec<u8>),
)
    requires
        *one == before,
        *other == before,
        *final(one) == one_after,
        *final(other) == other_after,
        record == (WalRecord::BatchInsert { entries }),
        call_ensures(WalWriter::append_batch, (one, entries), batch),
        call_ensures(WalWriter::append, (other, &record), single),
    ensures
        batch.0 == single.0,
        batch.1@ == single.1@,
        one_after == other_after,
{
}

/// A sync covers every LSN that was taken; a sync of the positional writes covers the
/// durable frontier. Neither changes which LSN is next.
pub proof fn a_sync_covers_what_was_taken(
    one: &mut WalWriter,
    other: &mut WalWriter,
    before: WalWriter,
    one_after: WalWriter,
    other_after: WalWriter,
    all: Lsn,
    run: Lsn,
    current: Lsn,
)
    requires
        *one == before,
        *other == before,
        *final(one) == one_after,
        *final(other) == other_after,
        before.wf(),
        call_ensures(WalWriter::sync, (one,), all),
        call_ensures(WalWriter::sync_record_segments, (other,), run),
        call_ensures(WalWriter::current_lsn, (&before,), current),
    ensures
        all + 1 == current,
        run == before.frontier.durable_lsn,
        forall|k: Lsn| call_ensures(WalWriter::synced_lsn, (&one_after,), k) ==> k == all,
        forall|k: Lsn| call_ensures(WalWriter::synced_lsn, (&other_after,), k) ==> k == run,
        forall|k: Lsn| call_ensures(WalWriter::current_lsn, (&one_after,), k) ==> k == current,
        forall|k: Lsn| call_ensures(WalWriter::current_lsn, (&other_after,), k) ==> k == current,
{
}

/// A floor only rises: afterwards it is not below what was asked for nor below what it
/// was, and it is one of the two; the header is written exactly if it rose.
pub proof fn floors_only_rise(
    lsn: &mut WalWriter,
    synced: &mut WalWriter,
    commits: &mut WalWriter,
    before: WalWriter,
    lsn_after: WalWriter,
    synced_after: WalWriter,
    commits_after: WalWriter,
    floor: u64,
    written: Option<Vec<u8>>,
)
    requires
        *lsn == before,
        *synced == before,
        *commits == before,
        *final(lsn) == lsn_after,
        *final(synced) == synced_after,
        *final(commits) == commits_after,
        call_ensures(WalWriter::set_min_lsn, (lsn, floor), ()),
        call_ensures(WalWriter::set_min_synced_lsn, (synced, floor), ()),
        call_ensures(WalWriter::set_commit_seq_floor, (commits, floor), written),
    ensures
        lsn_after.next_lsn >= floor && lsn_after.next_lsn >= before.next_lsn,
        lsn_after.next_lsn == floor || lsn_after.next_lsn == before.next_lsn,
        lsn_after.synced_lsn == before.synced_lsn,
        synced_after.synced_lsn >= floor && synced_after.synced_lsn >= before.synced_lsn,
        synced_after.synced_lsn == floor || synced_after.synced_lsn == before.synced_lsn,
        synced_after.frontier.durable_lsn >= floor && synced_after.frontier.durable_lsn
            >= before.frontier.durable_lsn,
        synced_after.frontier.durable_lsn == floor || synced_after.frontier.durable_lsn
            == before.frontier.durable_lsn,
        synced_after.next_lsn == before.next_lsn,
        commits_after.header.commit_seq_floor >= floor && commits_after.header.commit_seq_floor
            >= before.header.commit_seq_floor,
        commits_after.header.commit_seq_floor == floor || commits_after.header.commit_seq_floor
            == before.header.commit_seq_floor,
        written is Some <==> commits_after.header.commit_seq_floor
            != before.header.commit_seq_floor,
        forall|bytes: Vec<u8>| call_ensures(WalHeader::to_bytes, (&commits_after.header,), bytes)
            ==> (written matches Some(w) ==> w@ == bytes@),
        forall|f: u64| call_ensures(WalWriter::commit_seq_floor, (&commits_after,), f) ==> f
            == commits_after.header.commit_seq_floor,
{
}

/// A header is read back from the bytes that it was written as, and bytes that are
/// read as a header are the ones that it is written as.
pub proof fn a_header_is_read_back(
    header: WalHeader,
    written: Vec<u8>,
    bytes: &[u8],
    read: Result<WalHeader, WalError>,
)
    requires
        call_ensures(WalHeader::to_bytes, (&header,), written),
        call_ensures(WalHeader::from_bytes, (bytes,), read),
    ensures
        written@.len() == WAL_HEADER_SIZE,
        (header.magic == MAGIC || header.magic == MAGIC_OVERLAY) && header.rank_regime < 2
            && written@.is_prefix_of(bytes@) ==> read == Ok::<WalHeader, WalError>(header),
        read == Ok::<WalHeader, WalError>(header) ==> written@.is_prefix_of(bytes@),
        bytes@.len() < WAL_HEADER_SIZE ==> read is Err,
        read matches Ok(h) ==> (h.magic == MAGIC || h.magic == MAGIC_OVERLAY) && h.rank_regime
            < 2,
{
    if written@.is_prefix_of(bytes@) {
        let after = bytes@.skip(written@.len() as int);
        assert(header.bytes() + after =~= bytes@);
        if (header.magic == MAGIC || header.magic == MAGIC_OVERLAY) && header.rank_regime < 2 {
            written_header_reads_back(header, after);
        }
    }
    if read == Ok::<WalHeader, WalError>(header) {
        lemma_le_value_round_trip(bytes@.subrange(0, 8));
        lemma_le_value_round_trip(bytes@.subrange(8, 16));
        lemma_le_value_round_trip(bytes@.subrange(16, 24));
        lemma_le_value_round_trip(bytes@.subrange(24, 32));
        assert(written@ =~= bytes@.take(32));
        assert(written@.is_prefix_of(bytes@));
    }
}

/// The regime of a header is the one whose number stands in it.
pub proof fn a_regime_is_told_by_its_number(
    header: WalHeader,
    regime: RankRegime,
    code: u8,
    fresh: WalHeader,
    fresh_regime: RankRegime,
)
    requires
        header.rank_regime < 2,
        call_ensures(WalHeader::regime, (&header,), regime),
        call_ensures(RankRegime::code, (regime,), code),
        call_ensures(WalHeader::new, (), fresh),
        call_ensures(WalHeader::regime, (&fresh,), fresh_regime),
    ensures
        code == header.rank_regime,
        fresh_regime == RankRegime::Owned,
        fresh.checkpoint_lsn == 0,
        fresh.commit_seq_floor == 0,
        fresh.magic == MAGIC,
{
}

/// A log can change its regime exactly if it holds no records, and then it has the
/// regime that was asked for. A log that cannot change is left as it was. The header is
/// written exactly if it changed, and nothing but the regime and the magic changes.
pub proof fn a_regime_changes_only_without_records(
    to_overlay: &mut WalWriter,
    by_file: &mut WalWriter,
    to_owned: &mut WalWriter,
    before: WalWriter,
    overlay_after: WalWriter,
    by_file_after: WalWriter,
    owned_after: WalWriter,
    file_len: u64,
    overlay: Result<Option<Vec<u8>>, WalError>,
    file: Result<Option<Vec<u8>>, WalError>,
    owned: Result<Option<Vec<u8>>, WalError>,
    unused: bool,
    empty: bool,
    regime: RankRegime,
)
    requires
        *to_overlay == before,
        *by_file == before,
        *to_owned == before,
        *final(to_overlay) == overlay_after,
        *final(by_file) == by_file_after,
        *final(to_owned) == owned_after,
        before.header.rank_regime < 2,
        call_ensures(WalWriter::set_overlay_regime, (to_overlay,), overlay),
        call_ensures(WalWriter::set_overlay_regime_records_empty, (by_file, file_len), file),
        call_ensures(WalWriter::set_owned_regime, (to_owned,), owned),
        call_ensures(WalWriter::is_empty_after_header, (&before,), unused),
        call_ensures(WalWriter::records_empty_on_disk, (Some(file_len),), empty),
        call_ensures(WalWriter::rank_regime, (&before,), regime),
    ensures
        unused <==> before.next_lsn == 1,
        empty <==> file_len == WAL_HEADER_SIZE,
        overlay is Ok <==> unused,
        owned is Ok <==> unused,
        file is Ok <==> empty,
        overlay is Err ==> overlay_after == before,
        owned is Err ==> owned_after == before,
        file is Err ==> by_file_after == before,
        overlay matches Ok(written) ==> restamped(
            before,
            overlay_after,
            RankRegime::Overlay,
            written,
        ),
        file matches Ok(written) ==> restamped(before, by_file_after, RankRegime::Overlay, written),
        owned matches Ok(written) ==> restamped(before, owned_after, RankRegime::Owned, written),
{
}

/// A log has the regime that it was changed to, the header that was written is its
/// header, and nothing else has changed.
pub open spec fn restamped(
    before: WalWriter,
    after: WalWriter,
    regime: RankRegime,
    written: Option<Vec<u8>>,
) -> bool {
    &&& forall|r: RankRegime| call_ensures(WalWriter::rank_regime, (&after,), r) ==> r == regime
    &&& forall|r: RankRegime|
        call_ensures(WalWriter::rank_regime, (&before,), r) ==> (written is Some <==> r != regime)
    &&& forall|bytes: Vec<u8>|
        call_ensures(WalHeader::to_bytes, (&after.header,), bytes) ==> (written matches Some(w)
            ==> w@ == bytes@)
    &&& written is None ==> after == before
    &&& written is Some ==> after.header.magic == if regime == RankRegime::Overlay {
        MAGIC_OVERLAY
    } else {
        MAGIC
    }
    &&& after.header.checkpoint_lsn == before.header.checkpoint_lsn
    &&& after.header.commit_seq_floor == before.header.commit_seq_floor
    &&& after.next_lsn == before.next_lsn
    &&& after.synced_lsn == before.synced_lsn
    &&& after.segment_next_offset == before.segment_next_offset
    &&& after.frontier == before.frontier
}

/// A truncated log counts from one again, and keeps the floor of its commits and its
/// regime. A rotated log goes on counting, with the floor and the regime of the file
/// before it and without its checkpoint, which is handed back.
pub proof fn a_log_is_begun_again(
    truncated: &mut WalWriter,
    rotated: &mut WalWriter,
    before: WalWriter,
    truncated_after: WalWriter,
    rotated_after: WalWriter,
    truncated_header: Vec<u8>,
    rotated_header: (Vec<u8>, Lsn),
    current: Lsn,
    synced: Lsn,
    checkpoint: Lsn,
    floor: u64,
    regime: RankRegime,
)
    requires
        *truncated == before,
        *rotated == before,
        *final(truncated) == truncated_after,
        *final(rotated) == rotated_after,
        call_ensures(WalWriter::truncate, (truncated,), truncated_header),
        call_ensures(WalWriter::rotate_to_archive, (rotated,), rotated_header),
        call_ensures(WalWriter::current_lsn, (&before,), current),
        call_ensures(WalWriter::synced_lsn, (&before,), synced),
        call_ensures(WalWriter::checkpoint_lsn, (&before,), checkpoint),
        call_ensures(WalWriter::commit_seq_floor, (&before,), floor),
        call_ensures(WalWriter::rank_regime, (&before,), regime),
    ensures
        forall|e: bool|
            call_ensures(WalWriter::is_empty_after_header, (&truncated_after,), e) ==> e,
        begun_again(truncated_after, 1, 0, 0, floor, regime, truncated_header),
        begun_again(rotated_after, current, synced, 0, floor, regime, rotated_header.0),
        rotated_header.1 == checkpoint,
        rotated_after.frontier == before.frontier,
        truncated_after.frontier.durable_lsn == 0,
        truncated_after.frontier.failed_lsn == Lsn::MAX,
        forall|k: Lsn| !truncated_after.frontier.pending@.contains(k),
{
}

/// What the observers of a log that was begun again tell.
pub open spec fn begun_again(
    after: WalWriter,
    current: Lsn,
    synced: Lsn,
    checkpoint: Lsn,
    floor: u64,
    regime: RankRegime,
    header: Vec<u8>,
) -> bool {
    &&& forall|k: Lsn| call_ensures(WalWriter::current_lsn, (&after,), k) ==> k == current
    &&& forall|k: Lsn| call_ensures(WalWriter::synced_lsn, (&after,), k) ==> k == synced
    &&& forall|k: Lsn| call_ensures(WalWriter::checkpoint_lsn, (&after,), k) ==> k == checkpoint
    &&& forall|k: u64| call_ensures(WalWriter::commit_seq_floor, (&after,), k) ==> k == floor
    &&& forall|r: RankRegime| call_ensures(WalWriter::rank_regime, (&after,), r) ==> r == regime
    &&& forall|bytes: Vec<u8>|
        call_ensures(WalHeader::to_bytes, (&after.header,), bytes) ==> header@ == bytes@
    &&& after.segment_next_offset == WAL_HEADER_SIZE
}

/// A checkpoint that is written to the header is the checkpoint of the log from then
/// on, and nothing else changes. Its record names it and the time.
pub proof fn a_checkpoint_is_stated(
    writer: &mut WalWriter,
    before: WalWriter,
    after: WalWriter,
    checkpoint: Lsn,
    timestamp: u64,
    written: Vec<u8>,
    record: WalRecord,
    found: Lsn,
    bytes: Vec<u8>,
)
    requires
        *writer == before,
        *final(writer) == after,
        call_ensures(WalWriter::write_checkpoint_header, (writer, checkpoint), written),
        call_ensures(WalWriter::checkpoint_record, (checkpoint, timestamp), record),
        call_ensures(WalWriter::checkpoint_lsn, (&after,), found),
        call_ensures(WalHeader::to_bytes, (&after.header,), bytes),
    ensures
        found == checkpoint,
        written@ == bytes@,
        record matches WalRecord::Checkpoint { checkpoint_lsn, timestamp: t } && checkpoint_lsn
            == checkpoint && t == timestamp,
        after.header.magic == before.header.magic,
        after.header.commit_seq_floor == before.header.commit_seq_floor,
        after.header.rank_regime == before.header.rank_regime,
        after.next_lsn == before.next_lsn,
        after.synced_lsn == before.synced_lsn,
        after.segment_next_offset == before.segment_next_offset,
        after.frontier == before.frontier,
{
}

/// The file that a rotation began gets the overlay regime exactly if it holds no
/// records; a file with records counts as a segment of the log.
pub proof fn a_rotated_log_is_restamped_without_records(
    writer: &mut WalWriter,
    before: WalWriter,
    after: WalWriter,
    file_len: Option<u64>,
    result: Result<Vec<u8>, WalError>,
    empty: bool,
    counts: bool,
)
    requires
        *writer == before,
        *final(writer) == after,
        call_ensures(WalWriter::restamp_overlay_after_rotation, (writer, file_len), result),
        call_ensures(WalWriter::records_empty_on_disk, (file_len,), empty),
        file_len matches Some(n) ==> call_ensures(WalWriter::active_file_has_records, (n,), counts),
    ensures
        result is Ok <==> empty,
        file_len is None ==> !empty,
        file_len matches Some(n) ==> (counts <==> n > WAL_HEADER_SIZE) && !(counts && empty),
        result is Err ==> after == before,
        result is Ok ==> after.header.magic == MAGIC_OVERLAY && forall|r: RankRegime|
            call_ensures(WalWriter::rank_regime, (&after,), r) ==> r == RankRegime::Overlay,
        result matches Ok(w) ==> forall|bytes: Vec<u8>|
            call_ensures(WalHeader::to_bytes, (&after.header,), bytes) ==> w@ == bytes@,
        after.header.checkpoint_lsn == before.header.checkpoint_lsn,
        after.header.commit_seq_floor == before.header.commit_seq_floor,
        after.next_lsn == before.next_lsn,
        after.synced_lsn == before.synced_lsn,
        after.segment_next_offset == before.segment_next_offset,
        after.frontier == before.frontier,
{
}

/// A first LSN is not behind another: what cannot be read comes last.
pub open spec fn not_behind(a: Option<Lsn>, b: Option<Lsn>) -> bool {
    b is None || (a is Some && a->0 <= b->0)
}

/// Sorting lists every segment once, none before one with a smaller first LSN, those
/// without one at the end, and equal ones in the order in which they were given.
pub proof fn segments_are_sorted(first_lsns: &Vec<Option<Lsn>>, order: Vec<usize>)
    requires
        call_ensures(sort_segments_by_first_lsn, (first_lsns,), order),
    ensures
        order@.len() == first_lsns@.len(),
        forall|i: int, j: int|
            0 <= i < j < order@.len() ==> #[trigger] order@[i] != #[trigger] order@[j] && not_behind(
                first_lsns@[order@[i] as int],
                first_lsns@[order@[j] as int],
            ) && (first_lsns@[order@[i] as int] == first_lsns@[order@[j] as int] ==> order@[i]
                < order@[j]),
        forall|i: int| 0 <= i < order@.len() ==> #[trigger] order@[i] < first_lsns@.len(),
{
    assert forall|i: int, j: int| 0 <= i < j < order@.len() implies #[trigger] order@[i]
        != #[trigger] order@[j] && not_behind(
        first_lsns@[order@[i] as int],
        first_lsns@[order@[j] as int],
    ) && (first_lsns@[order@[i] as int] == first_lsns@[order@[j] as int] ==> order@[i]
        < order@[j]) by {
        assert(crate::wal::segments::segment_before(first_lsns@, order@[i], order@[j]));
    }
}

/// The sum of some sizes.
pub open spec fn total(sizes: Seq<u64>) -> nat
    decreases sizes.len(),
{
    if sizes.len() == 0 {
        0
    } else {
        total(sizes.drop_last()) + sizes.last() as nat
    }
}

/// A checkpoint covers the first record of a segment.
pub open spec fn covered(first_lsn: Option<Lsn>, checkpoint: Lsn) -> bool {
    checkpoint > 0 && first_lsn is Some && first_lsn->0 <= checkpoint
}

/// Segments are removed one by one from the oldest on, for as long as there are too
/// many or they take too much, the checkpoint covers the next one, and it is not the
/// last. So whatever was removed was covered and had to go, and what is left is within
/// the limits unless the oldest of it is not covered or is the only one.
pub proof fn segments_are_pruned_as_needed(
    first_lsns: &Vec<Option<Lsn>>,
    sizes: &Vec<u64>,
    max_segments: usize,
    max_bytes: u64,
    checkpoint: Lsn,
    removed: usize,
)
    requires
        first_lsns@.len() == sizes@.len(),
        total(sizes@) <= u64::MAX,
        call_ensures(
            prune_segments_if_needed,
            (first_lsns, sizes, max_segments, max_bytes, checkpoint),
            removed,
        ),
    ensures
        sizes@.len() == 0 ==> removed == 0,
        sizes@.len() > 0 ==> removed < sizes@.len(),
        forall|i: int|
            0 <= i < removed ==> covered(#[trigger] first_lsns@[i], checkpoint) && (sizes@.len() - i
                > max_segments || total(sizes@.skip(i)) > max_bytes),
        sizes@.len() > 0 ==> ({
            ||| sizes@.len() - removed == 1
            ||| !covered(first_lsns@[removed as int], checkpoint)
            ||| sizes@.len() - removed <= max_segments && total(sizes@.skip(removed as int))
                <= max_bytes
        }),
{
    assert forall|i: int| 0 <= i <= sizes@.len() implies sizes_from(sizes@, i) == #[trigger] total(
        sizes@.skip(i),
    ) by {
        lemma_total(sizes@, i);
    }
    assert(sizes@.skip(0) =~= sizes@);
    assert(sizes_from(sizes@, 0) == total(sizes@.skip(0)));
    assert(crate::wal::segments::all_must_go(
        first_lsns@,
        sizes@,
        max_segments,
        max_bytes,
        checkpoint,
        removed as int,
    ));
    assert forall|i: int| 0 <= i < removed implies covered(#[trigger] first_lsns@[i], checkpoint)
        && (sizes@.len() - i > max_segments || total(sizes@.skip(i)) > max_bytes) by {
        assert(crate::wal::segments::must_go(
            first_lsns@,
            sizes@,
            max_segments,
            max_bytes,
            checkpoint,
            i,
        ));
        assert(sizes_from(sizes@, i) == total(sizes@.skip(i)));
    }
    if removed > 0 {
        assert(crate::wal::segments::must_go(
            first_lsns@,
            sizes@,
            max_segments,
            max_bytes,
            checkpoint,
            removed - 1,
        ));
    }
    assert(sizes_from(sizes@, removed as int) == total(sizes@.skip(removed as int)));
}

/// The two ways of adding up agree.
proof fn lemma_total(sizes: Seq<u64>, i: int)
    requires
        0 <= i <= sizes.len(),
    ensures
        sizes_from(sizes, i) == total(sizes.skip(i)),
    decreases sizes.len() - i,
{
    if i < sizes.len() {
        lemma_total(sizes, i + 1);
        lemma_total_first(sizes.skip(i));
        assert(sizes.skip(i).drop_first() =~= sizes.skip(i + 1));
    }
}

/// A sum begins with its first part.
proof fn lemma_total_first(sizes: Seq<u64>)
    requires
        sizes.len() > 0,
    ensures
        total(sizes) == sizes[0] as nat + total(sizes.drop_first()),
    decreases sizes.len(),
{
    if sizes.len() > 1 {
        lemma_total_first(sizes.drop_last());
        assert(sizes.drop_last().drop_first() =~= sizes.drop_first().drop_last());
    } else {
        assert(sizes.drop_first() =~= sizes.drop_last());
    }
}

/// The largest LSN of some is one of them, and none is larger.
pub proof fn the_largest_lsn_is_found(lsns: &[Lsn], largest: Option<Lsn>)
    requires
        call_ensures(max_lsn_in_segments, (lsns,), largest),
    ensures
        largest is None <==> lsns@.len() == 0,
        largest matches Some(lsn) ==> lsns@.contains(lsn) && forall|i: int|
            0 <= i < lsns@.len() ==> #[trigger] lsns@[i] <= lsn,
{
}

/// A cycle that is logged collects what a cycle that is not logged collects, and leaves the
/// registry as that does. It takes an LSN exactly if something was collected, and then the frame is the one that the
/// collected versions are appended with.
pub proof fn a_cycle_logs_what_it_collects(
    logged: &mut VersionGcRegistry,
    wal: &mut WalWriter,
    silent: &mut VersionGcRegistry,
    other: &mut WalWriter,
    registry: VersionGcRegistry,
    logged_after: VersionGcRegistry,
    silent_after: VersionGcRegistry,
    log: WalWriter,
    log_after: WalWriter,
    other_after: WalWriter,
    now: u64,
    result: (Vec<u64>, Option<(Lsn, Vec<u8>)>),
    collected: Vec<u64>,
    record: WalRecord,
    appended: (Lsn, Vec<u8>),
)
    requires
        *logged == registry,
        *silent == registry,
        *final(logged) == logged_after,
        *final(silent) == silent_after,
        *wal == log,
        *other == log,
        *final(wal) == log_after,
        *final(other) == other_after,
        call_ensures(VersionGcRegistry::run_gc_cycle, (logged, now, wal), result),
        call_ensures(VersionGcRegistry::run_gc_cycle_internal, (silent, now), collected),
        record is VersionGc,
        record->version_ids@ == collected@,
        call_ensures(WalWriter::append, (other, &record), appended),
    ensures
        result.0@ == collected@,
        result.1 is Some <==> collected@.len() > 0,
        result.1 matches Some((lsn, bytes)) ==> lsn == appended.0 && bytes@ == appended.1@
            && log_after == other_after,
        result.1 is None ==> log_after == log,
        logged_after.readers() == silent_after.readers(),
        logged_after.candidates() == silent_after.candidates(),
        logged_after.modifications() == silent_after.modifications(),
        logged_after.statistics() == silent_after.statistics(),
        logged_after.settings() == silent_after.settings(),
{
}

} // verus!
