//! Log records: what was logged can be told from its bytes.

use vstd::prelude::*;
use crate::wal::codec::{
    byte_range, get_le, le_bytes, lemma_le_len, lemma_le_round_trip, lemma_ranges, put_le,
};
use crate::wal::record::{
    increment_entries, insert_entries, optional, sized, version_entries, WalRecord,
};

verus! {

/// Two values that may be missing hold the same.
pub open spec fn same_bytes(a: Option<Vec<u8>>, b: Option<Vec<u8>>) -> bool {
    &&& a is Some <==> b is Some
    &&& a is Some ==> a->0@ == b->0@
}

/// Two entries of batches hold the same term and value.
pub open spec fn same_entry(a: (Vec<u8>, Option<Vec<u8>>), b: (Vec<u8>, Option<Vec<u8>>)) -> bool {
    a.0@ == b.0@ && same_bytes(a.1, b.1)
}

/// Two entries of batches hold the same term and change.
pub open spec fn same_change(a: (Vec<u8>, i64), b: (Vec<u8>, i64)) -> bool {
    a.0@ == b.0@ && a.1 == b.1
}

/// Two records of one kind hold the same terms, values, changes and numbers.
pub open spec fn same_record(a: WalRecord, b: WalRecord) -> bool {
    match (a, b) {
        (
            WalRecord::Insert { term: t, value: v },
            WalRecord::Insert { term: u, value: w },
        ) => t@ == u@ && same_bytes(v, w),
        (WalRecord::Remove { term: t }, WalRecord::Remove { term: u }) => t@ == u@,
        (
            WalRecord::Upsert { term: t, value: v },
            WalRecord::Upsert { term: u, value: w },
        ) => t@ == u@ && v@ == w@,
        (WalRecord::BatchInsert { entries: p }, WalRecord::BatchInsert { entries: q }) => {
            &&& p@.len() == q@.len()
            &&& forall|i: int| 0 <= i < p@.len() ==> same_entry(#[trigger] p@[i], q@[i])
        },
        (WalRecord::BatchIncrement { entries: p }, WalRecord::BatchIncrement { entries: q }) => {
            &&& p@.len() == q@.len()
            &&& forall|i: int| 0 <= i < p@.len() ==> same_change(#[trigger] p@[i], q@[i])
        },
        (
            WalRecord::CommitRank { data_lsn: l, term: t, generation: g },
            WalRecord::CommitRank { data_lsn: m, term: u, generation: h },
        ) => l == m && t@ == u@ && g == h,
        (
            WalRecord::Checkpoint { checkpoint_lsn: l, timestamp: t },
            WalRecord::Checkpoint { checkpoint_lsn: m, timestamp: u },
        ) => l == m && t == u,
        (WalRecord::VersionGc { version_ids: p }, WalRecord::VersionGc { version_ids: q }) => p@
            == q@,
        _ => false,
    }
}

/// A logged record can be read back: two records of one kind have the same payload
/// exactly if they hold the same terms, values, changes and numbers.
pub proof fn a_payload_tells_its_record(
    a: WalRecord,
    b: WalRecord,
    kind: u8,
    payload_a: Vec<u8>,
    payload_b: Vec<u8>,
)
    requires
        call_ensures(WalRecord::record_type, (&a,), kind),
        call_ensures(WalRecord::record_type, (&b,), kind),
        call_ensures(WalRecord::serialize_payload, (&a,), payload_a),
        call_ensures(WalRecord::serialize_payload, (&b,), payload_b),
    ensures
        payload_a@ == payload_b@ <==> same_record(a, b),
{
    if same_record(a, b) {
        lemma_same_payload(a, b);
    }
    if payload_a@ == payload_b@ {
        lemma_payload_tells(a, b);
    }
}

/// The kind of a record tells what it is.
pub proof fn a_kind_tells_its_record(a: WalRecord, b: WalRecord, kind_a: u8, kind_b: u8)
    requires
        call_ensures(WalRecord::record_type, (&a,), kind_a),
        call_ensures(WalRecord::record_type, (&b,), kind_b),
    ensures
        kind_a == kind_b <==> match (a, b) {
            (WalRecord::Insert { .. }, WalRecord::Insert { .. }) => true,
            (WalRecord::Remove { .. }, WalRecord::Remove { .. }) => true,
            (WalRecord::Upsert { .. }, WalRecord::Upsert { .. }) => true,
            (WalRecord::BatchInsert { .. }, WalRecord::BatchInsert { .. }) => true,
            (WalRecord::BatchIncrement { .. }, WalRecord::BatchIncrement { .. }) => true,
            (WalRecord::CommitRank { .. }, WalRecord::CommitRank { .. }) => true,
            (WalRecord::Checkpoint { .. }, WalRecord::Checkpoint { .. }) => true,
            (WalRecord::VersionGc { .. }, WalRecord::VersionGc { .. }) => true,
            _ => false,
        },
        kind_a != 0,
{
}

/// The payload of a term that was added is the payload of its removal, and then, if it
/// has a value, a byte and the payload that the value alone would have as a term.
pub proof fn a_payload_holds_its_parts(
    inserted: WalRecord,
    removed: WalRecord,
    of_value: WalRecord,
    payload: Vec<u8>,
    of_term: Vec<u8>,
    value_alone: Vec<u8>,
)
    requires
        inserted is Insert,
        removed is Remove,
        of_value is Remove,
        removed->Remove_term@ == inserted->Insert_term@,
        inserted->Insert_value matches Some(value) ==> of_value->Remove_term@ == value@,
        call_ensures(WalRecord::serialize_payload, (&inserted,), payload),
        call_ensures(WalRecord::serialize_payload, (&removed,), of_term),
        call_ensures(WalRecord::serialize_payload, (&of_value,), value_alone),
    ensures
        of_term@.len() == 8 + inserted->Insert_term@.len(),
        of_term@.skip(8) == inserted->Insert_term@,
        inserted->Insert_value is None ==> payload@ == of_term@ + seq![0u8],
        inserted->Insert_value is Some ==> payload@ == of_term@ + seq![1u8] + value_alone@,
{
    lemma_le_len(inserted->Insert_term@.len(), 8);
    assert(of_term@.skip(8) =~= inserted->Insert_term@);
    if inserted->Insert_value is Some {
        assert(payload@ =~= of_term@ + seq![1u8] + value_alone@);
    }
}

/// The payload of a value that was written is that of its term and then that of the value,
/// each as a term alone would have it.
pub proof fn a_written_value_is_logged_behind_its_term(
    written: WalRecord,
    of_term: WalRecord,
    of_value: WalRecord,
    payload: Vec<u8>,
    term_alone: Vec<u8>,
    value_alone: Vec<u8>,
)
    requires
        written is Upsert,
        of_term is Remove,
        of_value is Remove,
        of_term->Remove_term@ == written->Upsert_term@,
        of_value->Remove_term@ == written->Upsert_value@,
        call_ensures(WalRecord::serialize_payload, (&written,), payload),
        call_ensures(WalRecord::serialize_payload, (&of_term,), term_alone),
        call_ensures(WalRecord::serialize_payload, (&of_value,), value_alone),
    ensures
        payload@ == term_alone@ + value_alone@,
{
}

/// The payload of a rank has the LSN of its record first, then the generation, and then
/// its term as a term alone would have it; that of a checkpoint has its LSN and the time.
pub proof fn ranks_and_checkpoints_begin_with_their_lsn(
    rank: WalRecord,
    of_term: WalRecord,
    checkpoint: WalRecord,
    payload: Vec<u8>,
    term_alone: Vec<u8>,
    checkpoint_payload: Vec<u8>,
    bytes: &[u8],
    other: &[u8],
    lsn: u64,
    generation: u64,
    checkpoint_lsn: u64,
    timestamp: u64,
)
    requires
        rank is CommitRank,
        of_term is Remove,
        checkpoint is Checkpoint,
        of_term->Remove_term@ == rank->CommitRank_term@,
        call_ensures(WalRecord::serialize_payload, (&rank,), payload),
        call_ensures(WalRecord::serialize_payload, (&of_term,), term_alone),
        call_ensures(WalRecord::serialize_payload, (&checkpoint,), checkpoint_payload),
        bytes@ == payload@,
        other@ == checkpoint_payload@,
        call_ensures(get_le, (bytes, 0, 8), lsn),
        call_ensures(get_le, (bytes, 8, 8), generation),
        call_ensures(get_le, (other, 0, 8), checkpoint_lsn),
        call_ensures(get_le, (other, 8, 8), timestamp),
    ensures
        lsn == rank->data_lsn,
        generation == rank->generation,
        payload@.skip(16) == term_alone@,
        checkpoint_lsn == checkpoint->checkpoint_lsn,
        timestamp == checkpoint->timestamp,
        checkpoint_payload@.len() == 16,
{
    lemma_ranges();
    let x = rank->data_lsn as nat;
    let y = rank->generation as nat;
    lemma_le_round_trip(x, 8);
    lemma_le_round_trip(y, 8);
    assert(bytes@.subrange(0, 8) =~= le_bytes(x, 8));
    assert(bytes@.subrange(8, 16) =~= le_bytes(y, 8));
    assert(payload@.skip(16) =~= term_alone@);
    let p = checkpoint->checkpoint_lsn as nat;
    let q = checkpoint->timestamp as nat;
    lemma_le_round_trip(p, 8);
    lemma_le_round_trip(q, 8);
    assert(other@.subrange(0, 8) =~= le_bytes(p, 8));
    assert(other@.subrange(8, 16) =~= le_bytes(q, 8));
}

/// The payload of a batch has its number of entries first. One more entry adds the payload
/// that the entry would have by itself: a term with its value, or a term with its change
/// behind it.
pub proof fn a_batch_is_logged_entry_by_entry(
    fewer: WalRecord,
    more: WalRecord,
    one: WalRecord,
    payload_fewer: Vec<u8>,
    payload_more: Vec<u8>,
    payload_one: Vec<u8>,
    bytes: &[u8],
    count: u64,
)
    requires
        fewer is BatchInsert,
        more is BatchInsert,
        one is Insert,
        more->BatchInsert_entries@.len() > 0,
        fewer->BatchInsert_entries@ == more->BatchInsert_entries@.drop_last(),
        one->Insert_term == more->BatchInsert_entries@.last().0,
        one->Insert_value == more->BatchInsert_entries@.last().1,
        call_ensures(WalRecord::serialize_payload, (&fewer,), payload_fewer),
        call_ensures(WalRecord::serialize_payload, (&more,), payload_more),
        call_ensures(WalRecord::serialize_payload, (&one,), payload_one),
        bytes@ == payload_more@,
        call_ensures(get_le, (bytes, 0, 8), count),
    ensures
        count == more->BatchInsert_entries@.len(),
        payload_more@.skip(8) == payload_fewer@.skip(8) + payload_one@,
{
    lemma_ranges();
    let entries = more->BatchInsert_entries;
    assert(entries.len() == entries@.len());
    lemma_le_round_trip(entries@.len(), 8);
    lemma_le_len(fewer->BatchInsert_entries@.len(), 8);
    assert(bytes@.subrange(0, 8) =~= le_bytes(entries@.len(), 8));
    assert(payload_more@.skip(8) =~= payload_fewer@.skip(8) + payload_one@);
}

/// The payload of a batch of counters has its number of entries first. One more entry adds
/// its term, as a term alone would have it, and its change modulo 2^64.
pub proof fn changes_are_logged_behind_their_terms(
    fewer: WalRecord,
    more: WalRecord,
    one: WalRecord,
    payload_fewer: Vec<u8>,
    payload_more: Vec<u8>,
    term_alone: Vec<u8>,
    bytes: &[u8],
    count: u64,
    at: usize,
    change: u64,
)
    requires
        fewer is BatchIncrement,
        more is BatchIncrement,
        one is Remove,
        more->BatchIncrement_entries@.len() > 0,
        fewer->BatchIncrement_entries@ == more->BatchIncrement_entries@.drop_last(),
        one->Remove_term == more->BatchIncrement_entries@.last().0,
        call_ensures(WalRecord::serialize_payload, (&fewer,), payload_fewer),
        call_ensures(WalRecord::serialize_payload, (&more,), payload_more),
        call_ensures(WalRecord::serialize_payload, (&one,), term_alone),
        bytes@ == payload_more@,
        at == payload_fewer@.len() + term_alone@.len(),
        call_ensures(get_le, (bytes, 0, 8), count),
        call_ensures(get_le, (bytes, at, 8), change),
    ensures
        count == more->BatchIncrement_entries@.len(),
        payload_more@.len() == at + 8,
        payload_more@.subrange(8, at as int) == payload_fewer@.skip(8) + term_alone@,
        change as i64 == more->BatchIncrement_entries@.last().1,
{
    lemma_ranges();
    let entries = more->BatchIncrement_entries;
    assert(entries.len() == entries@.len());
    lemma_le_round_trip(entries@.len(), 8);
    lemma_le_len(fewer->BatchIncrement_entries@.len(), 8);
    assert(bytes@.subrange(0, 8) =~= le_bytes(entries@.len(), 8));
    let delta = entries@.last().1;
    lemma_le_round_trip(delta as u64 as nat, 8);
    assert(payload_more@.subrange(8, at as int) =~= payload_fewer@.skip(8) + term_alone@);
    assert(bytes@.subrange(at as int, at + 8) =~= le_bytes(delta as u64 as nat, 8));
    assert(delta as u64 as i64 == delta) by (bit_vector);
}

/// The payload of a collection has the number of versions first and then the versions, in
/// their order.
pub proof fn collected_versions_are_logged_in_order(
    record: WalRecord,
    payload: Vec<u8>,
    bytes: &[u8],
    count: u64,
    i: usize,
    version: u64,
)
    requires
        record is VersionGc,
        call_ensures(WalRecord::serialize_payload, (&record,), payload),
        bytes@ == payload@,
        call_ensures(get_le, (bytes, 0, 8), count),
        i < record->version_ids@.len(),
        8 + 8 * i <= usize::MAX,
        8 + 8 * i + 8 <= bytes@.len(),
        call_ensures(get_le, (bytes, (8 + 8 * i) as usize, 8), version),
    ensures
        count == record->version_ids@.len(),
        payload@.len() == 8 + 8 * record->version_ids@.len(),
        version == record->version_ids@[i as int],
{
    lemma_ranges();
    let ids = record->version_ids;
    assert(ids.len() == ids@.len());
    crate::wal::record::lemma_version_list_len(ids@);
    lemma_le_round_trip(ids@.len(), 8);
    assert(bytes@.subrange(0, 8) =~= le_bytes(ids@.len(), 8));
    lemma_version_at(ids@, i as int);
    lemma_le_round_trip(ids@[i as int] as nat, 8);
    assert(bytes@.subrange(8 + 8 * i, 8 + 8 * i + 8) =~= version_entries(ids@).subrange(
        8 * i,
        8 * i + 8,
    ));
}

/// Where a version stands.
proof fn lemma_version_at(ids: Seq<u64>, i: int)
    requires
        0 <= i < ids.len(),
    ensures
        version_entries(ids).len() == 8 * ids.len(),
        version_entries(ids).subrange(8 * i, 8 * i + 8) == le_bytes(ids[i] as nat, 8),
    decreases ids.len(),
{
    crate::wal::record::lemma_version_list_len(ids);
    crate::wal::record::lemma_version_list_len(ids.drop_last());
    lemma_le_len(ids.last() as nat, 8);
    let all = version_entries(ids);
    if i < ids.len() - 1 {
        lemma_version_at(ids.drop_last(), i);
        assert(all.subrange(8 * i, 8 * i + 8) =~= version_entries(ids.drop_last()).subrange(
            8 * i,
            8 * i + 8,
        ));
    } else {
        assert(all.subrange(8 * i, 8 * i + 8) =~= le_bytes(ids[i] as nat, 8));
    }
}

/// A number that was put behind some bytes is read back from there, wherever those
/// bytes stand.
pub proof fn a_number_is_read_back(
    buffer: &mut Vec<u8>,
    before: Vec<u8>,
    after: Vec<u8>,
    x: u64,
    n: usize,
    bytes: &[u8],
    at: usize,
    r: u64,
)
    requires
        *buffer == before,
        *final(buffer) == after,
        n <= 8,
        n < 8 ==> (x as nat) < byte_range(n as nat),
        call_ensures(put_le, (buffer, x, n), ()),
        at + n <= bytes@.len(),
        bytes@.subrange(at as int, at + n) == after@.skip(before@.len() as int),
        call_ensures(get_le, (bytes, at, n), r),
    ensures
        r == x,
        after@.len() == before@.len() + n,
        after@.take(before@.len() as int) == before@,
{
    lemma_ranges();
    lemma_le_round_trip(x as nat, n as nat);
    assert(after@.skip(before@.len() as int) =~= le_bytes(x as nat, n as nat));
    assert(after@.take(before@.len() as int) =~= before@);
}

/// The first byte of a number is the least significant one: it is the number's
/// remainder, and what follows is the rest of the number.
pub proof fn the_least_byte_comes_first(bytes: &[u8], at: usize, n: usize, all: u64, rest: u64)
    requires
        0 < n <= 8,
        at + n <= bytes@.len(),
        at < usize::MAX,
        call_ensures(get_le, (bytes, at, n), all),
        call_ensures(get_le, (bytes, (at + 1) as usize, (n - 1) as usize), rest),
    ensures
        all == bytes@[at as int] as nat + 256 * (rest as nat),
{
    assert(bytes@.subrange(at as int, at + n).drop_first() =~= bytes@.subrange(
        at + 1,
        at + 1 + (n - 1),
    ));
}

/// A number begins some bytes.
proof fn lemma_number_first(x: nat, y: nat, a: Seq<u8>, b: Seq<u8>)
    requires
        x < 0x1_0000_0000_0000_0000,
        y < 0x1_0000_0000_0000_0000,
        le_bytes(x, 8) + a == le_bytes(y, 8) + b,
    ensures
        x == y,
        a == b,
{
    lemma_ranges();
    lemma_le_round_trip(x, 8);
    lemma_le_round_trip(y, 8);
    let whole = le_bytes(x, 8) + a;
    assert(whole.take(8) =~= le_bytes(x, 8));
    assert((le_bytes(y, 8) + b).take(8) =~= le_bytes(y, 8));
    assert(whole.skip(8) =~= a);
    assert((le_bytes(y, 8) + b).skip(8) =~= b);
}

/// Bytes with their length begin some bytes.
proof fn lemma_sized_first(x: Vec<u8>, y: Vec<u8>, a: Seq<u8>, b: Seq<u8>)
    requires
        sized(x@) + a == sized(y@) + b,
    ensures
        x@ == y@,
        a == b,
{
    assert(sized(x@) + a =~= le_bytes(x@.len(), 8) + (x@ + a));
    assert(sized(y@) + b =~= le_bytes(y@.len(), 8) + (y@ + b));
    assert(x.len() == x@.len() && y.len() == y@.len());
    lemma_number_first(x@.len(), y@.len(), x@ + a, y@ + b);
    assert((x@ + a).take(x@.len() as int) =~= x@);
    assert((y@ + b).take(y@.len() as int) =~= y@);
    assert((x@ + a).skip(x@.len() as int) =~= a);
    assert((y@ + b).skip(y@.len() as int) =~= b);
}

/// Bytes that may be missing begin some bytes.
proof fn lemma_optional_first(x: Option<Vec<u8>>, y: Option<Vec<u8>>, a: Seq<u8>, b: Seq<u8>)
    requires
        optional(x) + a == optional(y) + b,
    ensures
        same_bytes(x, y),
        a == b,
{
    let p = optional(x) + a;
    let q = optional(y) + b;
    assert(p[0] == optional(x)[0]);
    assert(q[0] == optional(y)[0]);
    match (x, y) {
        (Some(x), Some(y)) => {
            assert(p.skip(1) =~= sized(x@) + a);
            assert(q.skip(1) =~= sized(y@) + b);
            lemma_sized_first(x, y, a, b);
        },
        (None, None) => {
            assert(p.skip(1) =~= a);
            assert(q.skip(1) =~= b);
        },
        _ => {},
    }
}

/// The first entry of a batch comes first.
proof fn lemma_insert_entries_first(entries: Seq<(Vec<u8>, Option<Vec<u8>>)>)
    requires
        entries.len() > 0,
    ensures
        insert_entries(entries) == sized(entries[0].0@) + (optional(entries[0].1) + insert_entries(
            entries.drop_first(),
        )),
    decreases entries.len(),
{
    let first = sized(entries[0].0@) + optional(entries[0].1);
    if entries.len() == 1 {
        assert(entries.drop_last() =~= seq![]);
        assert(entries.drop_first() =~= seq![]);
        assert(insert_entries(entries.drop_last()) =~= seq![]);
        assert(insert_entries(entries.drop_first()) =~= seq![]);
    } else {
        lemma_insert_entries_first(entries.drop_last());
        assert(entries.drop_last().drop_first() =~= entries.drop_first().drop_last());
        assert(entries.drop_first().last() == entries.last());
    }
    assert(insert_entries(entries) =~= sized(entries[0].0@) + (optional(entries[0].1)
        + insert_entries(entries.drop_first())));
}

/// The first entry of a batch comes first.
proof fn lemma_increment_entries_first(entries: Seq<(Vec<u8>, i64)>)
    requires
        entries.len() > 0,
    ensures
        increment_entries(entries) == sized(entries[0].0@) + (le_bytes(
            entries[0].1 as u64 as nat,
            8,
        ) + increment_entries(entries.drop_first())),
    decreases entries.len(),
{
    if entries.len() == 1 {
        assert(entries.drop_last() =~= seq![]);
        assert(entries.drop_first() =~= seq![]);
        assert(increment_entries(entries.drop_last()) =~= seq![]);
        assert(increment_entries(entries.drop_first()) =~= seq![]);
    } else {
        lemma_increment_entries_first(entries.drop_last());
        assert(entries.drop_last().drop_first() =~= entries.drop_first().drop_last());
        assert(entries.drop_first().last() == entries.last());
    }
    assert(increment_entries(entries) =~= sized(entries[0].0@) + (le_bytes(
        entries[0].1 as u64 as nat,
        8,
    ) + increment_entries(entries.drop_first())));
}

/// The first version comes first.
proof fn lemma_version_entries_first(ids: Seq<u64>)
    requires
        ids.len() > 0,
    ensures
        version_entries(ids) == le_bytes(ids[0] as nat, 8) + version_entries(ids.drop_first()),
    decreases ids.len(),
{
    if ids.len() == 1 {
        assert(ids.drop_last() =~= seq![]);
        assert(ids.drop_first() =~= seq![]);
        assert(version_entries(ids.drop_last()) =~= seq![]);
        assert(version_entries(ids.drop_first()) =~= seq![]);
    } else {
        lemma_version_entries_first(ids.drop_last());
        assert(ids.drop_last().drop_first() =~= ids.drop_first().drop_last());
        assert(ids.drop_first().last() == ids.last());
    }
    assert(version_entries(ids) =~= le_bytes(ids[0] as nat, 8) + version_entries(ids.drop_first()));
}

/// Batches of terms of one length are told apart.
proof fn lemma_insert_entries_tell(
    p: Seq<(Vec<u8>, Option<Vec<u8>>)>,
    q: Seq<(Vec<u8>, Option<Vec<u8>>)>,
)
    requires
        p.len() == q.len(),
        insert_entries(p) == insert_entries(q),
    ensures
        forall|i: int| 0 <= i < p.len() ==> same_entry(#[trigger] p[i], q[i]),
    decreases p.len(),
{
    if p.len() > 0 {
        lemma_insert_entries_first(p);
        lemma_insert_entries_first(q);
        let a = insert_entries(p.drop_first());
        let b = insert_entries(q.drop_first());
        lemma_sized_first(p[0].0, q[0].0, optional(p[0].1) + a, optional(q[0].1) + b);
        lemma_optional_first(p[0].1, q[0].1, a, b);
        lemma_insert_entries_tell(p.drop_first(), q.drop_first());
        assert forall|i: int| 0 <= i < p.len() implies same_entry(#[trigger] p[i], q[i]) by {
            if i > 0 {
                assert(p[i] == p.drop_first()[i - 1]);
                assert(q[i] == q.drop_first()[i - 1]);
            }
        }
    }
}

/// Batches of counters of one length are told apart.
proof fn lemma_increment_entries_tell(p: Seq<(Vec<u8>, i64)>, q: Seq<(Vec<u8>, i64)>)
    requires
        p.len() == q.len(),
        increment_entries(p) == increment_entries(q),
    ensures
        forall|i: int| 0 <= i < p.len() ==> same_change(#[trigger] p[i], q[i]),
    decreases p.len(),
{
    if p.len() > 0 {
        lemma_increment_entries_first(p);
        lemma_increment_entries_first(q);
        let a = increment_entries(p.drop_first());
        let b = increment_entries(q.drop_first());
        let x = p[0].1;
        let y = q[0].1;
        lemma_sized_first(
            p[0].0,
            q[0].0,
            le_bytes(x as u64 as nat, 8) + a,
            le_bytes(y as u64 as nat, 8) + b,
        );
        lemma_number_first(x as u64 as nat, y as u64 as nat, a, b);
        assert(x as u64 == y as u64 ==> x == y) by (bit_vector);
        lemma_increment_entries_tell(p.drop_first(), q.drop_first());
        assert forall|i: int| 0 <= i < p.len() implies same_change(#[trigger] p[i], q[i]) by {
            if i > 0 {
                assert(p[i] == p.drop_first()[i - 1]);
                assert(q[i] == q.drop_first()[i - 1]);
            }
        }
    }
}

/// Lists of versions of one length are told apart.
proof fn lemma_version_entries_tell(p: Seq<u64>, q: Seq<u64>)
    requires
        p.len() == q.len(),
        version_entries(p) == version_entries(q),
    ensures
        p == q,
    decreases p.len(),
{
    if p.len() > 0 {
        lemma_version_entries_first(p);
        lemma_version_entries_first(q);
        lemma_number_first(
            p[0] as nat,
            q[0] as nat,
            version_entries(p.drop_first()),
            version_entries(q.drop_first()),
        );
        lemma_version_entries_tell(p.drop_first(), q.drop_first());
        assert forall|i: int| 0 <= i < p.len() implies p[i] == q[i] by {
            if i > 0 {
                assert(p[i] == p.drop_first()[i - 1]);
                assert(q[i] == q.drop_first()[i - 1]);
            }
        }
    }
    assert(p =~= q);
}

/// Payloads of records of one kind are told apart.
proof fn lemma_payload_tells(a: WalRecord, b: WalRecord)
    requires
        a.spec_record_type() == b.spec_record_type(),
        a.payload() == b.payload(),
    ensures
        same_record(a, b),
{
    let none = Seq::<u8>::empty();
    match (a, b) {
        (
            WalRecord::Insert { term: t, value: v },
            WalRecord::Insert { term: u, value: w },
        ) => {
            lemma_sized_first(t, u, optional(v), optional(w));
            assert(optional(v) + none =~= optional(v));
            assert(optional(w) + none =~= optional(w));
            lemma_optional_first(v, w, none, none);
        },
        (WalRecord::Remove { term: t }, WalRecord::Remove { term: u }) => {
            assert(sized(t@) + none =~= sized(t@));
            assert(sized(u@) + none =~= sized(u@));
            lemma_sized_first(t, u, none, none);
        },
        (
            WalRecord::Upsert { term: t, value: v },
            WalRecord::Upsert { term: u, value: w },
        ) => {
            lemma_sized_first(t, u, sized(v@), sized(w@));
            assert(sized(v@) + none =~= sized(v@));
            assert(sized(w@) + none =~= sized(w@));
            lemma_sized_first(v, w, none, none);
        },
        (WalRecord::BatchInsert { entries: p }, WalRecord::BatchInsert { entries: q }) => {
            assert(p.len() == p@.len() && q.len() == q@.len());
            lemma_number_first(p@.len(), q@.len(), insert_entries(p@), insert_entries(q@));
            lemma_insert_entries_tell(p@, q@);
        },
        (WalRecord::BatchIncrement { entries: p }, WalRecord::BatchIncrement { entries: q }) => {
            assert(p.len() == p@.len() && q.len() == q@.len());
            lemma_number_first(p@.len(), q@.len(), increment_entries(p@), increment_entries(q@));
            lemma_increment_entries_tell(p@, q@);
        },
        (
            WalRecord::CommitRank { data_lsn: l, term: t, generation: g },
            WalRecord::CommitRank { data_lsn: m, term: u, generation: h },
        ) => {
            assert(a.payload() =~= le_bytes(l as nat, 8) + (le_bytes(g as nat, 8) + sized(t@)));
            assert(b.payload() =~= le_bytes(m as nat, 8) + (le_bytes(h as nat, 8) + sized(u@)));
            lemma_number_first(
                l as nat,
                m as nat,
                le_bytes(g as nat, 8) + sized(t@),
                le_bytes(h as nat, 8) + sized(u@),
            );
            lemma_number_first(g as nat, h as nat, sized(t@), sized(u@));
            assert(sized(t@) + none =~= sized(t@));
            assert(sized(u@) + none =~= sized(u@));
            lemma_sized_first(t, u, none, none);
        },
        (
            WalRecord::Checkpoint { checkpoint_lsn: l, timestamp: t },
            WalRecord::Checkpoint { checkpoint_lsn: m, timestamp: u },
        ) => {
            lemma_number_first(
                l as nat,
                m as nat,
                le_bytes(t as nat, 8),
                le_bytes(u as nat, 8),
            );
            assert(le_bytes(t as nat, 8) + none =~= le_bytes(t as nat, 8));
            assert(le_bytes(u as nat, 8) + none =~= le_bytes(u as nat, 8));
            lemma_number_first(t as nat, u as nat, none, none);
        },
        (WalRecord::VersionGc { version_ids: p }, WalRecord::VersionGc { version_ids: q }) => {
            assert(p.len() == p@.len() && q.len() == q@.len());
            lemma_number_first(p@.len(), q@.len(), version_entries(p@), version_entries(q@));
            lemma_version_entries_tell(p@, q@);
        },
        _ => {},
    }
}

/// Batches with the same entries have the same bytes.
proof fn lemma_same_entries(p: Seq<(Vec<u8>, Option<Vec<u8>>)>, q: Seq<(Vec<u8>, Option<Vec<u8>>)>)
    requires
        p.len() == q.len(),
        forall|i: int| 0 <= i < p.len() ==> same_entry(#[trigger] p[i], q[i]),
    ensures
        insert_entries(p) == insert_entries(q),
    decreases p.len(),
{
    if p.len() > 0 {
        assert forall|i: int| 0 <= i < p.len() - 1 implies same_entry(
            #[trigger] p.drop_last()[i],
            q.drop_last()[i],
        ) by {
            assert(same_entry(p[i], q[i]));
        }
        lemma_same_entries(p.drop_last(), q.drop_last());
        assert(same_entry(p[p.len() - 1], q[p.len() - 1]));
    }
}

/// Batches with the same changes have the same bytes.
proof fn lemma_same_changes(p: Seq<(Vec<u8>, i64)>, q: Seq<(Vec<u8>, i64)>)
    requires
        p.len() == q.len(),
        forall|i: int| 0 <= i < p.len() ==> same_change(#[trigger] p[i], q[i]),
    ensures
        increment_entries(p) == increment_entries(q),
    decreases p.len(),
{
    if p.len() > 0 {
        assert forall|i: int| 0 <= i < p.len() - 1 implies same_change(
            #[trigger] p.drop_last()[i],
            q.drop_last()[i],
        ) by {
            assert(same_change(p[i], q[i]));
        }
        lemma_same_changes(p.drop_last(), q.drop_last());
        assert(same_change(p[p.len() - 1], q[p.len() - 1]));
    }
}

/// Records that hold the same have the same payload.
proof fn lemma_same_payload(a: WalRecord, b: WalRecord)
    requires
        same_record(a, b),
    ensures
        a.payload() == b.payload(),
{
    match (a, b) {
        (WalRecord::BatchInsert { entries: p }, WalRecord::BatchInsert { entries: q }) => {
            lemma_same_entries(p@, q@);
        },
        (WalRecord::BatchIncrement { entries: p }, WalRecord::BatchIncrement { entries: q }) => {
            lemma_same_changes(p@, q@);
        },
        _ => {},
    }
}

} // verus!
