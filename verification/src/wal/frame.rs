//! Frames: how one record lies in the log.
//!
//! A frame is the checksum of the rest (4 bytes), the length of the whole frame
//! (4 bytes), the LSN (8 bytes), the record type (1 byte) and the payload. Numbers
//! have their least significant byte first.

use vstd::prelude::*;
use super::codec::{
    crc32, crc32_of, get_le, le_bytes, le_value, lemma_le_len, lemma_le_round_trip, lemma_ranges,
    put_le,
};
use super::{Lsn, WalError};

verus! {

/// The bytes of a frame before its payload.
pub const RECORD_HEADER_SIZE: usize = 17;

/// The part of a frame that the checksum covers.
pub open spec fn frame_body(lsn: Lsn, record_type: u8, payload: Seq<u8>) -> Seq<u8> {
    le_bytes((17 + payload.len()) % 0x1_0000_0000, 4) + le_bytes(lsn as nat, 8)
        + seq![record_type] + payload
}

/// A frame.
pub open spec fn frame(lsn: Lsn, record_type: u8, payload: Seq<u8>) -> Seq<u8> {
    let body = frame_body(lsn, record_type, payload);
    le_bytes(crc32_of(body) as nat, 4) + body
}

/// The frame of a record.
pub fn encode_record_frame(lsn: Lsn, record_type: u8, payload: &[u8]) -> (r: Vec<u8>)
    requires
        payload@.len() <= usize::MAX - 17,
    ensures
        r@ == frame(lsn, record_type, payload@),
        r@.len() == 17 + payload@.len(),
{
    let total: usize = RECORD_HEADER_SIZE + payload.len();
    let mut body: Vec<u8> = Vec::with_capacity(total);
    put_le(&mut body, ((total as u64) % 0x1_0000_0000) as u64, 4);
    put_le(&mut body, lsn, 8);
    body.push(record_type);
    append(&mut body, payload, 0, payload.len());
    proof {
        assert(payload@.subrange(0, payload@.len() as int) =~= payload@);
        assert(body@ =~= frame_body(lsn, record_type, payload@));
        lemma_le_len((total as nat) % 0x1_0000_0000, 4);
        lemma_le_len(lsn as nat, 8);
    }
    let checksum: u32 = crc32(body.as_slice(), 0, body.len());
    let mut r: Vec<u8> = Vec::with_capacity(total);
    put_le(&mut r, checksum as u64, 4);
    append(&mut r, body.as_slice(), 0, body.len());
    proof {
        assert(body@.subrange(0, body@.len() as int) =~= body@);
        lemma_le_len(checksum as nat, 4);
        assert(r@ =~= frame(lsn, record_type, payload@));
    }
    r
}

/// Appends a part of some bytes.
pub fn append(buffer: &mut Vec<u8>, bytes: &[u8], start: usize, end: usize)
    requires
        start <= end <= bytes@.len(),
    ensures
        final(buffer)@ == old(buffer)@ + bytes@.subrange(start as int, end as int),
{
    let ghost before = buffer@;
    let mut i: usize = start;
    assert(bytes@.subrange(start as int, start as int) =~= Seq::empty());
    assert(before + Seq::<u8>::empty() =~= before);
    while i < end
        invariant
            start <= i <= end <= bytes@.len(),
            buffer@ == before + bytes@.subrange(start as int, i as int),
        decreases end - i,
    {
        buffer.push(bytes[i]);
        assert(bytes@.subrange(start as int, i + 1) =~= bytes@.subrange(
            start as int,
            i as int,
        ).push(bytes@[i as int]));
        assert(before + bytes@.subrange(start as int, i + 1) =~= (before + bytes@.subrange(
            start as int,
            i as int,
        )).push(bytes@[i as int]));
        i += 1;
    }
}

/// A frame starts at a position: its length fits, and its checksum is right.
pub open spec fn frame_at(bytes: Seq<u8>, at: int) -> bool {
    let total = le_value(bytes.subrange(at + 4, at + 8)) as int;
    &&& at + 17 <= bytes.len()
    &&& 17 <= total
    &&& at + total <= bytes.len()
    &&& le_value(bytes.subrange(at, at + 4)) == crc32_of(bytes.subrange(at + 4, at + total))
}

/// The length of the frame at a position.
pub open spec fn frame_len_at(bytes: Seq<u8>, at: int) -> int {
    le_value(bytes.subrange(at + 4, at + 8)) as int
}

/// The LSN of the frame at a position.
pub open spec fn frame_lsn_at(bytes: Seq<u8>, at: int) -> Lsn {
    le_value(bytes.subrange(at + 8, at + 16)) as Lsn
}

/// Reads the frame at a position.
pub fn decode_record_frame(bytes: &[u8], at: usize) -> (r: Result<(Lsn, u8, Vec<u8>), WalError>)
    requires
        at <= bytes@.len(),
    ensures
        match r {
            Ok((lsn, record_type, payload)) => {
                let end = at + frame_len_at(bytes@, at as int);
                &&& frame_at(bytes@, at as int)
                &&& lsn == frame_lsn_at(bytes@, at as int)
                &&& record_type == bytes@[at + 16]
                &&& payload@ == bytes@.subrange(at + 17, end)
            },
            Err(e) => !frame_at(bytes@, at as int) && e is CorruptedRecord,
        },
{
    let available: usize = bytes.len() - at;
    if available < RECORD_HEADER_SIZE {
        return Err(
            WalError::CorruptedRecord { message: "record header is cut short".to_owned() },
        );
    }
    proof {
        lemma_ranges();
        super::codec::lemma_le_value_round_trip(bytes@.subrange(at + 4, at + 8));
        super::codec::lemma_le_value_round_trip(bytes@.subrange(at + 8, at + 16));
    }
    let total: u64 = get_le(bytes, at + 4, 4);
    if total < 17 || total > available as u64 {
        return Err(
            WalError::CorruptedRecord { message: "record length is out of range".to_owned() },
        );
    }
    let end: usize = at + total as usize;
    let checksum: u64 = get_le(bytes, at, 4);
    let actual: u32 = crc32(bytes, at + 4, end);
    if checksum != actual as u64 {
        return Err(
            WalError::CorruptedRecord { message: "record checksum does not match".to_owned() },
        );
    }
    let lsn: u64 = get_le(bytes, at + 8, 8);
    let mut payload: Vec<u8> = Vec::new();
    append(&mut payload, bytes, at + 17, end);
    assert(payload@ =~= bytes@.subrange(at + 17, end as int));
    Ok((lsn, bytes[at + 16], payload))
}

/// A written frame reads back: wherever it stands in the log, its LSN, record type
/// and payload are found there. Frames must be shorter than four gigabytes.
pub proof fn written_frame_reads_back(
    before: Seq<u8>,
    lsn: Lsn,
    record_type: u8,
    payload: Seq<u8>,
    after: Seq<u8>,
)
    requires
        17 + payload.len() < 0x1_0000_0000,
    ensures
        ({
            let bytes = before + frame(lsn, record_type, payload) + after;
            let at = before.len() as int;
            &&& frame_at(bytes, at)
            &&& frame_len_at(bytes, at) == 17 + payload.len()
            &&& frame_lsn_at(bytes, at) == lsn
            &&& bytes[at + 16] == record_type
            &&& bytes.subrange(at + 17, at + 17 + payload.len()) == payload
        }),
{
    let body = frame_body(lsn, record_type, payload);
    let whole = frame(lsn, record_type, payload);
    let bytes = before + whole + after;
    let at = before.len() as int;
    let total = 17 + payload.len();
    let length = le_bytes(total % 0x1_0000_0000, 4);
    let number = le_bytes(lsn as nat, 8);
    let checksum = le_bytes(crc32_of(body) as nat, 4);
    lemma_ranges();
    lemma_le_round_trip(total, 4);
    lemma_le_round_trip(lsn as nat, 8);
    lemma_le_round_trip(crc32_of(body) as nat, 4);
    assert(total % 0x1_0000_0000 == total);
    assert(bytes.subrange(at, at + 4) =~= checksum);
    assert(bytes.subrange(at + 4, at + 8) =~= length);
    assert(bytes.subrange(at + 8, at + 16) =~= number);
    assert(bytes.subrange(at + 4, at + total) =~= body);
    assert(bytes.subrange(at + 17, at + total) =~= payload);
}

/// The largest LSN of the frames from a position on, up to the first place where no
/// frame starts.
pub open spec fn last_lsn_from(bytes: Seq<u8>, at: int) -> Option<Lsn>
    decreases bytes.len() - at,
{
    if 0 <= at < bytes.len() && frame_at(bytes, at) {
        let lsn = frame_lsn_at(bytes, at);
        match last_lsn_from(bytes, at + frame_len_at(bytes, at)) {
            Some(later) => if later > lsn {
                Some(later)
            } else {
                Some(lsn)
            },
            None => Some(lsn),
        }
    } else {
        None
    }
}

/// From a position on, one frame follows another up to the end.
pub open spec fn whole_from(bytes: Seq<u8>, at: int) -> bool
    decreases bytes.len() - at,
{
    at == bytes.len() || (0 <= at < bytes.len() && frame_at(bytes, at) && whole_from(
        bytes,
        at + frame_len_at(bytes, at),
    ))
}

/// What is behind a frame does not matter to it.
proof fn lemma_frame_prefix(bytes: Seq<u8>, tail: Seq<u8>, at: int)
    requires
        0 <= at,
        frame_at(bytes, at),
    ensures
        frame_at(bytes + tail, at),
        frame_len_at(bytes + tail, at) == frame_len_at(bytes, at),
        frame_lsn_at(bytes + tail, at) == frame_lsn_at(bytes, at),
{
    let longer = bytes + tail;
    let end = at + frame_len_at(bytes, at);
    assert(longer.subrange(at, at + 4) =~= bytes.subrange(at, at + 4));
    assert(longer.subrange(at + 4, at + 8) =~= bytes.subrange(at + 4, at + 8));
    assert(longer.subrange(at + 8, at + 16) =~= bytes.subrange(at + 8, at + 16));
    assert(longer.subrange(at + 4, end) =~= bytes.subrange(at + 4, end));
}

/// A torn tail is ignored: bytes behind the last frame that are not a frame
/// themselves change nothing about the LSN that is found.
pub proof fn torn_tail_is_ignored(bytes: Seq<u8>, tail: Seq<u8>, at: int)
    requires
        0 <= at,
        whole_from(bytes, at),
        !frame_at(bytes + tail, bytes.len() as int),
    ensures
        last_lsn_from(bytes + tail, at) == last_lsn_from(bytes, at),
    decreases bytes.len() - at,
{
    if at < bytes.len() {
        lemma_frame_prefix(bytes, tail, at);
        torn_tail_is_ignored(bytes, tail, at + frame_len_at(bytes, at));
    }
}

/// An appended record is found again: behind whole frames it is the last one, and
/// the frames are whole with it.
pub proof fn appended_record_is_found(
    bytes: Seq<u8>,
    lsn: Lsn,
    record_type: u8,
    payload: Seq<u8>,
    at: int,
)
    requires
        0 <= at,
        whole_from(bytes, at),
        17 + payload.len() < 0x1_0000_0000,
    ensures
        ({
            let longer = bytes + frame(lsn, record_type, payload);
            &&& whole_from(longer, at)
            &&& last_lsn_from(longer, at) == later_lsn(last_lsn_from(bytes, at), Some(lsn))
        }),
    decreases bytes.len() - at,
{
    let tail = frame(lsn, record_type, payload);
    let longer = bytes + tail;
    if at < bytes.len() {
        lemma_frame_prefix(bytes, tail, at);
        appended_record_is_found(
            bytes,
            lsn,
            record_type,
            payload,
            at + frame_len_at(bytes, at),
        );
    } else {
        written_frame_reads_back(bytes, lsn, record_type, payload, Seq::empty());
        assert(bytes + tail + Seq::<u8>::empty() =~= longer);
        lemma_le_len(crc32_of(frame_body(lsn, record_type, payload)) as nat, 4);
        lemma_le_len((17 + payload.len()) % 0x1_0000_0000, 4);
        lemma_le_len(lsn as nat, 8);
        assert(longer.len() == bytes.len() + 17 + payload.len());
        assert(whole_from(longer, longer.len() as int));
        assert(last_lsn_from(longer, longer.len() as int) is None);
    }
}

/// The LSNs of the frames from a position on, up to the first place where no frame
/// starts.
pub open spec fn lsns_from(bytes: Seq<u8>, at: int) -> Seq<Lsn>
    decreases bytes.len() - at,
{
    if 0 <= at < bytes.len() && frame_at(bytes, at) {
        seq![frame_lsn_at(bytes, at)] + lsns_from(bytes, at + frame_len_at(bytes, at))
    } else {
        Seq::empty()
    }
}

/// The LSNs of the frames from a position on, in order.
pub fn segment_lsns(bytes: &[u8], start: usize) -> (r: Vec<Lsn>)
    ensures
        r@ == lsns_from(bytes@, start as int),
{
    let size: usize = bytes.len();
    let mut r: Vec<Lsn> = Vec::new();
    let mut at: usize = start;
    assert(r@ + lsns_from(bytes@, at as int) =~= lsns_from(bytes@, start as int));
    while at < size
        invariant_except_break
            r@ + lsns_from(bytes@, at as int) == lsns_from(bytes@, start as int),
        invariant
            size == bytes@.len(),
        ensures
            r@ == lsns_from(bytes@, start as int),
        decreases size - at,
    {
        match decode_record_frame(bytes, at) {
            Ok((lsn, _, payload)) => {
                let ghost before = r@;
                let ghost here = at as int;
                r.push(lsn);
                at = at + RECORD_HEADER_SIZE + payload.len();
                assert(r@ + lsns_from(bytes@, at as int) =~= before + lsns_from(bytes@, here));
            },
            Err(_) => {
                assert(r@ + Seq::<Lsn>::empty() =~= r@);
                break;
            },
        }
        assert(at >= size ==> r@ + lsns_from(bytes@, at as int) =~= r@);
    }
    r
}

/// The larger of two LSNs.
pub open spec fn later_lsn(a: Option<Lsn>, b: Option<Lsn>) -> Option<Lsn> {
    match (a, b) {
        (Some(x), Some(y)) => if y > x {
            Some(y)
        } else {
            Some(x)
        },
        (Some(x), None) => Some(x),
        (None, _) => b,
    }
}

/// The largest LSN of the frames from a position on.
pub fn scan_last_lsn(bytes: &[u8], start: usize) -> (r: Option<Lsn>)
    requires
        start <= bytes@.len(),
    ensures
        r == last_lsn_from(bytes@, start as int),
{
    let size: usize = bytes.len();
    let mut at: usize = start;
    let mut last: Option<Lsn> = None;
    loop
        invariant
            size == bytes@.len(),
            start <= at <= size,
            later_lsn(last, last_lsn_from(bytes@, at as int)) == last_lsn_from(
                bytes@,
                start as int,
            ),
        decreases bytes@.len() - at,
    {
        match decode_record_frame(bytes, at) {
            Ok((lsn, _, payload)) => {
                assert(frame_len_at(bytes@, at as int) == 17 + payload@.len());
                last = match last {
                    Some(before) => if lsn > before {
                        Some(lsn)
                    } else {
                        Some(before)
                    },
                    None => Some(lsn),
                };
                at = at + RECORD_HEADER_SIZE + payload.len();
            },
            Err(_) => {
                return last;
            },
        }
    }
}

/// The LSN of the first frame of a log file that starts with a header of `header_len`
/// bytes.
pub fn segment_first_lsn(file: &[u8], header_len: usize) -> (r: Option<Lsn>)
    ensures
        r == (if header_len <= file@.len() && frame_at(file@, header_len as int) {
            Some(frame_lsn_at(file@, header_len as int))
        } else {
            None
        }),
{
    if header_len > file.len() {
        return None;
    }
    match decode_record_frame(file, header_len) {
        Ok((lsn, _, _)) => Some(lsn),
        Err(_) => None,
    }
}

} // verus!
