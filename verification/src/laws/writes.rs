//! Durable writes: when one logs a record, what it logs, and how it ends.

use vstd::prelude::*;
use crate::error::TrieResult;
use crate::overlay::durable_write::{
    answers, bound_increment_delta, durable_policy_gate, get_or_insert_after_insert,
    get_or_insert_after_read, DurabilityPolicy, DurableWrite, GetOrInsertPhase, ValueWriteMode,
    WriteEvent, WritePhase, WriteRequest, WriteVerdict,
};
use crate::wal::record::WalRecord;
use crate::wal::Lsn;

verus! {

/// Two values that may be missing are both missing, or both there with the same bytes
/// at every position.
pub open spec fn agree(a: Option<Vec<u8>>, b: Option<Vec<u8>>) -> bool {
    ||| a is None && b is None
    ||| {
        &&& a is Some
        &&& b is Some
        &&& a->0@.len() == b->0@.len()
        &&& forall|i: int| 0 <= i < a->0@.len() ==> #[trigger] a->0@[i] == b->0@[i]
    }
}

/// A write is told an event that answers its phase.
pub open spec fn told(write: &mut DurableWrite, event: WriteEvent) -> bool {
    &&& write.wf()
    &&& answers(write.request, write.phase, event)
    &&& call_ensures(DurableWrite::advance, (write, event), ())
}

/// The events that were reported.
pub open spec fn events_of<'a>(steps: Seq<(&'a mut DurableWrite, WriteEvent)>) -> Seq<WriteEvent> {
    Seq::new(steps.len(), |i: int| steps[i].1)
}

/// Calls that follow one another, from one state of a write to another.
pub open spec fn passed<'a>(
    start: DurableWrite,
    steps: Seq<(&'a mut DurableWrite, WriteEvent)>,
) -> bool {
    &&& forall|i: int| 0 <= i < steps.len() ==> told(#[trigger] steps[i].0, steps[i].1)
    &&& steps.len() > 0 ==> *steps[0].0 == start
}

/// A write whose first event has told whether the term is there goes on to log its
/// record.
pub open spec fn is_logged(request: WriteRequest, first: WriteEvent, existed: bool) -> bool {
    match request {
        WriteRequest::InsertOnce { .. } => first == WriteEvent::Present(false) && !existed,
        WriteRequest::Upsert { .. } => first == WriteEvent::Present(existed),
        WriteRequest::CompareAndSwap { expected, .. } => first matches WriteEvent::Value(present)
            && agree(expected, present) && existed == (present is Some),
        WriteRequest::Increment { .. } => false,
    }
}

/// A write whose first event has told whether the term is there has nothing to do.
pub open spec fn is_skipped(request: WriteRequest, first: WriteEvent) -> bool {
    match request {
        WriteRequest::InsertOnce { .. } => first == WriteEvent::Present(true),
        WriteRequest::Upsert { .. } => false,
        WriteRequest::CompareAndSwap { expected, .. } => first matches WriteEvent::Value(present)
            && !agree(expected, present),
        WriteRequest::Increment { .. } => false,
    }
}

/// The events begin with what leads to logging a record, and go on with `more`.
pub open spec fn logged_then(
    request: WriteRequest,
    events: Seq<WriteEvent>,
    existed: bool,
    more: Seq<WriteEvent>,
) -> bool {
    if request is Increment {
        !existed && events == more
    } else {
        events.len() > 0 && is_logged(request, events[0], existed) && events.drop_first() == more
    }
}

/// What the phase of a write says of the events that were reported to it.
pub open spec fn reported(request: WriteRequest, phase: WritePhase, events: Seq<WriteEvent>) -> bool {
    match phase {
        WritePhase::Probe => events.len() == 0 && (request is InsertOnce || request is Upsert),
        WritePhase::Read => events.len() == 0 && request is CompareAndSwap,
        WritePhase::Append { existed } => logged_then(request, events, existed, seq![]),
        WritePhase::Publish { existed, lsn } => logged_then(
            request,
            events,
            existed,
            seq![WriteEvent::Appended(lsn)],
        ),
        WritePhase::Rank { existed, lsn, generation, count } => logged_then(
            request,
            events,
            existed,
            seq![WriteEvent::Appended(lsn), WriteEvent::Published { generation, count }],
        ),
        WritePhase::Mark { existed, lsn, generation, rank_lsn, count } => logged_then(
            request,
            events,
            existed,
            seq![
                WriteEvent::Appended(lsn),
                WriteEvent::Published { generation, count },
                WriteEvent::Ranked(rank_lsn),
            ],
        ),
        WritePhase::Burn { existed, lsn } => logged_then(
            request,
            events,
            existed,
            seq![WriteEvent::Appended(lsn), WriteEvent::NotApplied],
        ),
        WritePhase::Done(WriteVerdict::Skipped) => events.len() == 1 && is_skipped(
            request,
            events[0],
        ),
        WritePhase::Done(WriteVerdict::Applied { existed, lsn, generation, rank_lsn, count }) =>
        logged_then(
            request,
            events,
            existed,
            seq![
                WriteEvent::Appended(lsn),
                WriteEvent::Published { generation, count },
                WriteEvent::Ranked(rank_lsn),
                WriteEvent::Marked,
            ],
        ),
        WritePhase::Done(WriteVerdict::Burned { existed, lsn }) => logged_then(
            request,
            events,
            existed,
            seq![WriteEvent::Appended(lsn), WriteEvent::NotApplied, WriteEvent::Marked],
        ),
        WritePhase::Done(WriteVerdict::Failed) => events.len() > 0 && events.last() is Failed,
    }
}

/// A compare-and-swap that reads a value goes on to log its record exactly if the
/// expected and the present value are both missing, or both there with the same bytes
/// at every position; otherwise it has nothing to do.
pub proof fn a_swap_is_logged_if_the_bytes_agree(
    write: &mut DurableWrite,
    before: DurableWrite,
    after: DurableWrite,
    term: Vec<u8>,
    expected: Option<Vec<u8>>,
    value: Vec<u8>,
    policy: DurabilityPolicy,
    present: Option<Vec<u8>>,
)
    requires
        call_ensures(
            DurableWrite::compare_and_swap_cas_durable_default,
            (term, expected, value, policy, true),
            Ok(before),
        ),
        *write == before,
        *final(write) == after,
        call_ensures(DurableWrite::advance, (write, WriteEvent::Value(present)), ()),
    ensures
        after.phase == (WritePhase::Append { existed: present is Some }) <==> agree(
            expected,
            present,
        ),
        after.phase == WritePhase::Done(WriteVerdict::Skipped) <==> !agree(expected, present),
{
    if expected is Some && present is Some && agree(expected, present) {
        assert(expected->0@ =~= present->0@);
    }
}

/// A write has come to where the events that were reported to it lead. An insertion
/// has nothing to do exactly if the term is there, a swap exactly if the values differ;
/// every other write logs its record, and then becomes visible, is ranked and is marked
/// with the LSNs, the generation and the count that were reported, or is refused and
/// marked without a rank.
pub proof fn a_write_is_where_its_events_lead<'a>(
    begun: DurableWrite,
    steps: Seq<(&'a mut DurableWrite, WriteEvent)>,
    end: DurableWrite,
    term: Vec<u8>,
    expected: Option<Vec<u8>>,
    value: Vec<u8>,
    delta: u64,
    policy: DurabilityPolicy,
)
    requires
        ({
            ||| call_ensures(
                DurableWrite::insert_cas_with_value_durable_default,
                (term, value, policy, true),
                Ok(begun),
            )
            ||| call_ensures(
                DurableWrite::upsert_cas_durable_default,
                (term, value, policy, true),
                Ok(begun),
            )
            ||| call_ensures(
                DurableWrite::compare_and_swap_cas_durable_default,
                (term, expected, value, policy, true),
                Ok(begun),
            )
            ||| call_ensures(
                DurableWrite::try_increment_cas_durable_default,
                (term, delta, policy, true),
                Ok(begun),
            )
        }),
        passed(begun, steps),
        forall|i: int| 0 <= i < steps.len() - 1 ==> *final(#[trigger] steps[i].0) == *steps[i + 1].0,
        steps.len() > 0 ==> *final(steps[steps.len() - 1].0) == end,
        steps.len() == 0 ==> end == begun,
    ensures
        reported(end.request, end.phase, events_of(steps)),
        end.request == begun.request,
        end.term == term,
{
    lemma_reported(begun, steps, end, steps.len());
    assert(events_of(steps).take(steps.len() as int) =~= events_of(steps));
}

/// Where some events have led.
proof fn lemma_reported<'a>(
    begun: DurableWrite,
    steps: Seq<(&'a mut DurableWrite, WriteEvent)>,
    end: DurableWrite,
    k: nat,
)
    requires
        reported(begun.request, begun.phase, seq![]),
        passed(begun, steps),
        forall|i: int| 0 <= i < steps.len() - 1 ==> *final(#[trigger] steps[i].0) == *steps[i + 1].0,
        steps.len() > 0 ==> *final(steps[steps.len() - 1].0) == end,
        steps.len() == 0 ==> end == begun,
        k <= steps.len(),
    ensures
        ({
            let here = if k < steps.len() {
                *steps[k as int].0
            } else {
                end
            };
            &&& reported(begun.request, here.phase, events_of(steps).take(k as int))
            &&& here.request == begun.request
            &&& here.term == begun.term
        }),
    decreases k,
{
    let events = events_of(steps);
    if k == 0 {
        assert(events.take(0) =~= seq![]);
    } else {
        let m = k - 1;
        lemma_reported(begun, steps, end, m as nat);
        let event = steps[m].1;
        assert(told(steps[m].0, steps[m].1));
        let fewer = events.take(m);
        let more = events.take(k as int);
        assert(more =~= fewer.push(event));
        let here = if k < steps.len() {
            *steps[k as int].0
        } else {
            end
        };
        assert(*final(steps[m].0) == here);
        lemma_one_more(begun.request, steps[m].0.phase, fewer, event, here.phase);
    }
}

/// What one more event leads to.
proof fn lemma_one_more(
    request: WriteRequest,
    phase: WritePhase,
    fewer: Seq<WriteEvent>,
    event: WriteEvent,
    next: WritePhase,
)
    requires
        reported(request, phase, fewer),
        answers(request, phase, event),
        next == crate::overlay::durable_write::phase_after(request, phase, event),
    ensures
        reported(request, next, fewer.push(event)),
{
    let more = fewer.push(event);
    if event is Failed {
    } else {
        match phase {
            WritePhase::Probe => {
                assert(more.drop_first() =~= seq![]);
            },
            WritePhase::Read => {
                assert(more.drop_first() =~= seq![]);
                let present = event->Value_0;
                let expected = request->expected;
                if expected is Some && present is Some && agree(expected, present) {
                    assert(expected->0@ =~= present->0@);
                }
            },
            _ => {
                if request is Increment {
                } else {
                    assert(more.drop_first() =~= fewer.drop_first().push(event));
                }
                match (phase, event) {
                    (WritePhase::Append { existed }, WriteEvent::Appended(lsn)) => {
                        assert(Seq::<WriteEvent>::empty().push(event) =~= seq![event]);
                    },
                    (WritePhase::Publish { existed, lsn }, _) => {
                        assert(seq![WriteEvent::Appended(lsn)].push(event) =~= seq![
                            WriteEvent::Appended(lsn),
                            event,
                        ]);
                    },
                    (WritePhase::Rank { existed, lsn, generation, count }, _) => {
                        let a = WriteEvent::Appended(lsn);
                        let b = WriteEvent::Published { generation, count };
                        assert(seq![a, b].push(event) =~= seq![a, b, event]);
                    },
                    (WritePhase::Mark { existed, lsn, generation, rank_lsn, count }, _) => {
                        let a = WriteEvent::Appended(lsn);
                        let b = WriteEvent::Published { generation, count };
                        let c = WriteEvent::Ranked(rank_lsn);
                        assert(seq![a, b, c].push(event) =~= seq![a, b, c, event]);
                    },
                    (WritePhase::Burn { existed, lsn }, _) => {
                        let a = WriteEvent::Appended(lsn);
                        let b = WriteEvent::NotApplied;
                        assert(seq![a, b].push(event) =~= seq![a, b, event]);
                    },
                    _ => {},
                }
            },
        }
    }
}

/// A write begins exactly if its record can be durable before the call returns and
/// there is an overlay to write to.
pub proof fn a_write_begins_if_it_can_be_durable(
    term: Vec<u8>,
    expected: Option<Vec<u8>>,
    value: Vec<u8>,
    delta: u64,
    policy: DurabilityPolicy,
    installed: bool,
    inserted: TrieResult<DurableWrite>,
    upserted: TrieResult<DurableWrite>,
    swapped: TrieResult<DurableWrite>,
    added: TrieResult<DurableWrite>,
)
    requires
        call_ensures(
            DurableWrite::insert_cas_with_value_durable_default,
            (term, value, policy, installed),
            inserted,
        ),
        call_ensures(
            DurableWrite::upsert_cas_durable_default,
            (term, value, policy, installed),
            upserted,
        ),
        call_ensures(
            DurableWrite::compare_and_swap_cas_durable_default,
            (term, expected, value, policy, installed),
            swapped,
        ),
        call_ensures(
            DurableWrite::try_increment_cas_durable_default,
            (term, delta, policy, installed),
            added,
        ),
    ensures
        inserted is Ok <==> installed && policy != DurabilityPolicy::Periodic && policy
            != DurabilityPolicy::Never,
        upserted is Ok <==> inserted is Ok,
        swapped is Ok <==> inserted is Ok,
        added is Ok <==> inserted is Ok && delta <= i64::MAX,
        inserted is Err ==> inserted->Err_0 is InvalidOperation,
        upserted is Err ==> upserted->Err_0 is InvalidOperation,
        swapped is Err ==> swapped->Err_0 is InvalidOperation,
        added is Err ==> added->Err_0 is InvalidOperation,
{
}

/// A write is let through exactly under a policy that makes its record durable
/// before the call returns; a change of a counter is within bounds exactly if it comes
/// out as it went in.
pub proof fn writes_are_let_through_if_they_can_be_kept(
    policy: DurabilityPolicy,
    method: &str,
    noun: &str,
    passed: TrieResult<()>,
    delta: u64,
    bounded: TrieResult<i64>,
)
    requires
        call_ensures(durable_policy_gate, (policy, method, noun), passed),
        call_ensures(bound_increment_delta, (delta,), bounded),
    ensures
        passed is Ok <==> policy != DurabilityPolicy::Periodic && policy
            != DurabilityPolicy::Never,
        bounded is Ok <==> delta <= i64::MAX,
        bounded matches Ok(r) ==> r == delta,
{
}

/// A write that is not let through is told so with the name of the method before and what
/// it writes after the same words, whatever they are.
pub proof fn a_refusal_names_method_and_noun(
    policy: DurabilityPolicy,
    method: &str,
    noun: &str,
    other_policy: DurabilityPolicy,
    other_method: &str,
    other_noun: &str,
    refused: TrieResult<()>,
    other: TrieResult<()>,
)
    requires
        call_ensures(durable_policy_gate, (policy, method, noun), refused),
        call_ensures(durable_policy_gate, (other_policy, other_method, other_noun), other),
        refused is Err,
        other is Err,
    ensures
        refused->Err_0 is InvalidOperation,
        other->Err_0 is InvalidOperation,
        exists|between: Seq<char>, behind: Seq<char>|
            {
                &&& refused->Err_0->InvalidOperation_message@ == method@ + between + noun@ + behind
                &&& other->Err_0->InvalidOperation_message@ == #[trigger] (other_method@ + between
                    + other_noun@ + behind)
            },
{
    let between = " requires Immediate or GroupCommit durability so an acknowledged "@;
    let behind = " is guaranteed durable before it becomes visible"@;
    assert(other->Err_0->InvalidOperation_message@ == (other_method@ + between + other_noun@
        + behind));
}

/// The record of a write holds what the write was begun with, and its rank names the
/// term, the LSN and the generation that were given, wherever the write has come to.
pub proof fn a_write_logs_what_it_was_given(
    term: Vec<u8>,
    expected: Option<Vec<u8>>,
    value: Vec<u8>,
    delta: u64,
    policy: DurabilityPolicy,
    installed: bool,
    begun: DurableWrite,
    here: DurableWrite,
    record: WalRecord,
    mode: ValueWriteMode,
    data_lsn: Lsn,
    generation: u64,
    rank: WalRecord,
)
    requires
        here.request == begun.request,
        here.term == begun.term,
        call_ensures(DurableWrite::record, (&here,), record),
        call_ensures(DurableWrite::mode, (&here,), mode),
        call_ensures(DurableWrite::commit_rank, (&here, data_lsn, generation), rank),
    ensures
        call_ensures(
            DurableWrite::insert_cas_with_value_durable_default,
            (term, value, policy, installed),
            Ok(begun),
        ) ==> mode == ValueWriteMode::InsertOnce && (record matches WalRecord::Insert {
            term: t,
            value: Some(v),
        } && t@ == term@ && v@ == value@) && (rank matches WalRecord::CommitRank {
            data_lsn: l,
            term: t,
            generation: g,
        } && l == data_lsn && t@ == term@ && g == generation),
        call_ensures(
            DurableWrite::upsert_cas_durable_default,
            (term, value, policy, installed),
            Ok(begun),
        ) ==> mode == ValueWriteMode::Upsert && (record matches WalRecord::Upsert {
            term: t,
            value: v,
        } && t@ == term@ && v@ == value@) && (rank matches WalRecord::CommitRank {
            data_lsn: l,
            term: t,
            generation: g,
        } && l == data_lsn && t@ == term@ && g == generation),
        call_ensures(
            DurableWrite::compare_and_swap_cas_durable_default,
            (term, expected, value, policy, installed),
            Ok(begun),
        ) ==> mode == ValueWriteMode::CompareAndSwap && (record matches WalRecord::Upsert {
            term: t,
            value: v,
        } && t@ == term@ && v@ == value@) && (rank matches WalRecord::CommitRank {
            data_lsn: l,
            term: t,
            generation: g,
        } && l == data_lsn && t@ == term@ && g == generation),
        call_ensures(
            DurableWrite::try_increment_cas_durable_default,
            (term, delta, policy, installed),
            Ok(begun),
        ) ==> mode == ValueWriteMode::Increment && (record matches WalRecord::BatchIncrement {
            entries,
        } && entries@.len() == 1 && entries@[0].0@ == term@ && entries@[0].1 == delta) && (
        rank matches WalRecord::CommitRank { data_lsn: l, term: t, generation: g } && l == data_lsn
            && t@ == term@ && g == generation),
{
}

/// A write has a result exactly if it has ended and no step failed. An insertion and a
/// swap answer one exactly if they were applied; a write of a value exactly if the term
/// was not there; an addition answers the count. A write of a value that was refused is
/// the one that ends in an error.
pub proof fn a_result_says_what_was_applied(write: DurableWrite, result: Option<TrieResult<u64>>)
    requires
        call_ensures(DurableWrite::result, (&write,), result),
    ensures
        result is Some <==> write.phase is Done && !(write.phase->Done_0 is Failed),
        result matches Some(Err(_)) <==> write.phase is Done && write.phase->Done_0 is Burned
            && write.request is Upsert,
        write.request is InsertOnce || write.request is CompareAndSwap ==> (result matches Some(
            Ok(n),
        ) ==> (n == 1 <==> write.phase->Done_0 is Applied) && (n == 0 <==> !(
        write.phase->Done_0 is Applied))),
        write.request is Upsert && write.phase is Done && write.phase->Done_0 is Applied ==> (
        result matches Some(Ok(n)) && n == if write.phase->Done_0->Applied_existed {
            0u64
        } else {
            1u64
        }),
        write.request is Increment && write.phase is Done && write.phase->Done_0 is Applied ==> (
        result matches Some(Ok(n)) && n == write.phase->Done_0->count),
{
}

/// A value that is read is the answer. The default is inserted only if nothing was
/// read before, and is the answer if it was inserted or if the winner is gone.
pub proof fn a_value_is_found_or_made(
    found: bool,
    first: GetOrInsertPhase,
    second: GetOrInsertPhase,
    inserted: bool,
    after: GetOrInsertPhase,
)
    requires
        call_ensures(get_or_insert_after_read, (GetOrInsertPhase::Read, found), first),
        call_ensures(get_or_insert_after_read, (GetOrInsertPhase::ReadWinner, found), second),
        call_ensures(get_or_insert_after_insert, (inserted,), after),
    ensures
        found <==> first == GetOrInsertPhase::UseRead,
        !found <==> first == GetOrInsertPhase::Insert,
        found <==> second == GetOrInsertPhase::UseRead,
        !found <==> second == GetOrInsertPhase::UseDefault,
        inserted <==> after == GetOrInsertPhase::UseDefault,
        !inserted <==> after == GetOrInsertPhase::ReadWinner,
{
}

} // verus!
