//! Durable writes, step by step: a record is durable before the write is visible,
//! and the write is acknowledged only when its rank is durable too.
//!
//! The steps themselves (reading, logging, publishing) are done by the caller, who
//! performs the action of the current phase and reports what came of it.

use vstd::prelude::*;
use crate::error::{PersistentARTrieError, TrieResult};
use crate::text::join;
use crate::wal::record::WalRecord;
use crate::wal::Lsn;

verus! {

/// When a logged record is made durable.
#[derive(Clone, Copy, Debug, PartialEq, Eq, Structural)]
pub enum DurabilityPolicy {
    /// Before the call returns.
    Immediate,
    /// Before the call returns, together with others.
    GroupCommit,
    /// At some later time.
    Periodic,
    /// Not at all.
    Never,
}

/// The message of a write that the policy does not allow.
pub open spec fn gate_message(method: Seq<char>, noun: Seq<char>) -> Seq<char> {
    method + " requires Immediate or GroupCommit durability so an acknowledged "@ + noun
        + " is guaranteed durable before it becomes visible"@
}

/// Lets a durable write pass only under a policy that makes its record durable
/// before the call returns.
pub fn durable_policy_gate(policy: DurabilityPolicy, method: &str, noun: &str) -> (r: TrieResult<()>)
    ensures
        match r {
            Ok(()) => policy == DurabilityPolicy::Immediate || policy
                == DurabilityPolicy::GroupCommit,
            Err(e) => {
                &&& policy == DurabilityPolicy::Periodic || policy == DurabilityPolicy::Never
                &&& (e matches PersistentARTrieError::InvalidOperation { message } && message@
                    == gate_message(method@, noun@))
            },
        },
{
    match policy {
        DurabilityPolicy::Immediate => Ok(()),
        DurabilityPolicy::GroupCommit => Ok(()),
        _ => {
            let a = join(
                method,
                " requires Immediate or GroupCommit durability so an acknowledged ",
            );
            let b = join(a.as_str(), noun);
            Err(
                PersistentARTrieError::InvalidOperation {
                    message: join(
                        b.as_str(),
                        " is guaranteed durable before it becomes visible",
                    ),
                },
            )
        },
    }
}

/// The change of a counter as the log holds it.
pub fn bound_increment_delta(delta: u64) -> (r: TrieResult<i64>)
    ensures
        match r {
            Ok(bounded) => bounded == delta,
            Err(e) => delta > i64::MAX && e is InvalidOperation,
        },
{
    if delta > 0x7fff_ffff_ffff_ffff {
        return Err(
            PersistentARTrieError::InvalidOperation {
                message: "counter delta exceeds the range of the log".to_owned(),
            },
        );
    }
    Ok(delta as i64)
}

/// A write, with its value as the log holds it.
pub enum WriteRequest {
    /// Adds a term unless it is there.
    InsertOnce { value: Vec<u8> },
    /// Writes a value in any case.
    Upsert { value: Vec<u8> },
    /// Writes a value if the present one is as expected.
    CompareAndSwap { expected: Option<Vec<u8>>, value: Vec<u8> },
    /// Adds to a counter.
    Increment { delta: i64 },
}

/// What publishing has to check on the root that it replaces.
#[derive(Clone, Copy, Debug, PartialEq, Eq, Structural)]
pub enum ValueWriteMode {
    /// That the term is not there.
    InsertOnce,
    /// Nothing.
    Upsert,
    /// That the value is still as expected.
    CompareAndSwap,
    /// Nothing; the value is computed from the present one.
    Increment,
}

/// How a write ended.
#[derive(Clone, Copy, Debug, PartialEq, Eq, Structural)]
pub enum WriteVerdict {
    /// Nothing had to be done, and nothing was logged.
    Skipped,
    /// Logged, visible, ranked and committed.
    Applied { existed: bool, lsn: Lsn, generation: u64, rank_lsn: Lsn, count: u64 },
    /// Logged, but refused when it was to become visible; it has no rank.
    Burned { existed: bool, lsn: Lsn },
    /// A step failed.
    Failed,
}

/// The step that a write has come to.
#[derive(Clone, Copy, Debug, PartialEq, Eq, Structural)]
pub enum WritePhase {
    /// Find out whether the term is there.
    Probe,
    /// Read the present value.
    Read,
    /// Make the record durable.
    Append { existed: bool },
    /// Make the write visible.
    Publish { existed: bool, lsn: Lsn },
    /// Make the rank durable.
    Rank { existed: bool, lsn: Lsn, generation: u64, count: u64 },
    /// Mark the record and then its rank as committed.
    Mark { existed: bool, lsn: Lsn, generation: u64, rank_lsn: Lsn, count: u64 },
    /// Mark the record as committed although it has no rank.
    Burn { existed: bool, lsn: Lsn },
    /// Nothing is left to do.
    Done(WriteVerdict),
}

/// What came of a step.
pub enum WriteEvent {
    /// Whether the term is there.
    Present(bool),
    /// The present value.
    Value(Option<Vec<u8>>),
    /// The record is durable.
    Appended(Lsn),
    /// The write is visible, as the commit `generation`.
    Published { generation: u64, count: u64 },
    /// The write was refused, and nothing became visible.
    NotApplied,
    /// The rank is durable.
    Ranked(Lsn),
    /// The LSNs are marked.
    Marked,
    /// The step failed.
    Failed,
}

/// A durable write under way.
pub struct DurableWrite {
    pub request: WriteRequest,
    pub term: Vec<u8>,
    pub phase: WritePhase,
    /// All phases so far, the present one last.
    pub history: Ghost<Seq<WritePhase>>,
}

impl WriteRequest {
    /// The phase before the record is logged, if there is one.
    pub open spec fn lead(self) -> Seq<WritePhase> {
        match self {
            WriteRequest::InsertOnce { .. } => seq![WritePhase::Probe],
            WriteRequest::Upsert { .. } => seq![WritePhase::Probe],
            WriteRequest::CompareAndSwap { .. } => seq![WritePhase::Read],
            WriteRequest::Increment { .. } => Seq::empty(),
        }
    }

    /// The phase that a write begins with.
    pub open spec fn first(self) -> WritePhase {
        match self {
            WriteRequest::InsertOnce { .. } => WritePhase::Probe,
            WriteRequest::Upsert { .. } => WritePhase::Probe,
            WriteRequest::CompareAndSwap { .. } => WritePhase::Read,
            WriteRequest::Increment { .. } => WritePhase::Append { existed: false },
        }
    }

    /// The name of the method that a message speaks of.
    pub open spec fn method(self) -> Seq<char> {
        match self {
            WriteRequest::InsertOnce { .. } => "insert_cas_with_value_durable"@,
            WriteRequest::Upsert { .. } => "upsert_cas_durable"@,
            WriteRequest::CompareAndSwap { .. } => "compare_and_swap"@,
            WriteRequest::Increment { .. } => "try_increment_cas_durable"@,
        }
    }

    /// What a message calls the write.
    pub open spec fn noun(self) -> Seq<char> {
        match self {
            WriteRequest::Increment { .. } => "increment"@,
            _ => "write"@,
        }
    }

    /// A value is as the request expects.
    pub open spec fn expects(self, present: Option<Vec<u8>>) -> bool {
        match self {
            WriteRequest::CompareAndSwap { expected, .. } => same_value(expected, present),
            _ => true,
        }
    }
}

/// Two values are equal, byte by byte.
pub open spec fn same_value(a: Option<Vec<u8>>, b: Option<Vec<u8>>) -> bool {
    match (a, b) {
        (Some(a), Some(b)) => a@ == b@,
        (None, None) => true,
        _ => false,
    }
}

/// An event answers the action of a phase.
pub open spec fn answers(request: WriteRequest, phase: WritePhase, event: WriteEvent) -> bool {
    match (phase, event) {
        (WritePhase::Done(_), _) => false,
        (_, WriteEvent::Failed) => !(phase is Mark || phase is Burn),
        (WritePhase::Probe, WriteEvent::Present(_)) => true,
        (WritePhase::Read, WriteEvent::Value(_)) => true,
        (WritePhase::Append { .. }, WriteEvent::Appended(_)) => true,
        (WritePhase::Publish { .. }, WriteEvent::Published { .. }) => true,
        (WritePhase::Publish { .. }, WriteEvent::NotApplied) => !(request is Increment),
        (WritePhase::Rank { .. }, WriteEvent::Ranked(_)) => true,
        (WritePhase::Mark { .. }, WriteEvent::Marked) => true,
        (WritePhase::Burn { .. }, WriteEvent::Marked) => true,
        _ => false,
    }
}

/// The phase after an event.
pub open spec fn phase_after(request: WriteRequest, phase: WritePhase, event: WriteEvent) -> WritePhase {
    match (phase, event) {
        (_, WriteEvent::Failed) => WritePhase::Done(WriteVerdict::Failed),
        (WritePhase::Probe, WriteEvent::Present(existed)) => if existed
            && request is InsertOnce {
            WritePhase::Done(WriteVerdict::Skipped)
        } else {
            WritePhase::Append { existed }
        },
        (WritePhase::Read, WriteEvent::Value(present)) => if request.expects(present) {
            WritePhase::Append { existed: present is Some }
        } else {
            WritePhase::Done(WriteVerdict::Skipped)
        },
        (WritePhase::Append { existed }, WriteEvent::Appended(lsn)) => WritePhase::Publish {
            existed,
            lsn,
        },
        (
            WritePhase::Publish { existed, lsn },
            WriteEvent::Published { generation, count },
        ) => WritePhase::Rank { existed, lsn, generation, count },
        (WritePhase::Publish { existed, lsn }, WriteEvent::NotApplied) => WritePhase::Burn {
            existed,
            lsn,
        },
        (
            WritePhase::Rank { existed, lsn, generation, count },
            WriteEvent::Ranked(rank_lsn),
        ) => WritePhase::Mark { existed, lsn, generation, rank_lsn, count },
        (
            WritePhase::Mark { existed, lsn, generation, rank_lsn, count },
            WriteEvent::Marked,
        ) => WritePhase::Done(
            WriteVerdict::Applied { existed, lsn, generation, rank_lsn, count },
        ),
        (WritePhase::Burn { existed, lsn }, WriteEvent::Marked) => WritePhase::Done(
            WriteVerdict::Burned { existed, lsn },
        ),
        _ => phase,
    }
}

/// The phases that lead to a phase, itself the last. A failure can come after any.
pub open spec fn led_to(request: WriteRequest, history: Seq<WritePhase>, phase: WritePhase) -> bool
    decreases history.len(),
{
    let lead = request.lead();
    match phase {
        WritePhase::Probe => history == lead && lead == seq![WritePhase::Probe],
        WritePhase::Read => history == lead && lead == seq![WritePhase::Read],
        WritePhase::Append { existed } => history == lead + seq![WritePhase::Append { existed }],
        WritePhase::Publish { existed, lsn } => history == lead + seq![
            WritePhase::Append { existed },
            WritePhase::Publish { existed, lsn },
        ],
        WritePhase::Rank { existed, lsn, generation, count } => history == lead + seq![
            WritePhase::Append { existed },
            WritePhase::Publish { existed, lsn },
            WritePhase::Rank { existed, lsn, generation, count },
        ],
        WritePhase::Mark { existed, lsn, generation, rank_lsn, count } => history == lead + seq![
            WritePhase::Append { existed },
            WritePhase::Publish { existed, lsn },
            WritePhase::Rank { existed, lsn, generation, count },
            WritePhase::Mark { existed, lsn, generation, rank_lsn, count },
        ],
        WritePhase::Burn { existed, lsn } => history == lead + seq![
            WritePhase::Append { existed },
            WritePhase::Publish { existed, lsn },
            WritePhase::Burn { existed, lsn },
        ],
        WritePhase::Done(WriteVerdict::Skipped) => history == lead + seq![phase],
        WritePhase::Done(WriteVerdict::Applied { existed, lsn, generation, rank_lsn, count }) => history
            == lead + seq![
            WritePhase::Append { existed },
            WritePhase::Publish { existed, lsn },
            WritePhase::Rank { existed, lsn, generation, count },
            WritePhase::Mark { existed, lsn, generation, rank_lsn, count },
            phase,
        ],
        WritePhase::Done(WriteVerdict::Burned { existed, lsn }) => history == lead + seq![
            WritePhase::Append { existed },
            WritePhase::Publish { existed, lsn },
            WritePhase::Burn { existed, lsn },
            phase,
        ],
        WritePhase::Done(WriteVerdict::Failed) => {
            &&& history.len() > 1
            &&& history.last() == phase
            &&& !(history[history.len() - 2] is Done)
            &&& led_to(request, history.drop_last(), history[history.len() - 2])
        },
    }
}

/// Whether two values are equal, byte by byte.
fn equal_bytes(a: &Vec<u8>, b: &Vec<u8>) -> (r: bool)
    ensures
        r == (a@ == b@),
{
    if a.len() != b.len() {
        return false;
    }
    let mut i: usize = 0;
    while i < a.len()
        invariant
            a@.len() == b@.len(),
            i <= a@.len(),
            forall|k: int| 0 <= k < i ==> #[trigger] a@[k] == b@[k],
        decreases a@.len() - i,
    {
        if a[i] != b[i] {
            assert(a@[i as int] != b@[i as int]);
            return false;
        }
        i += 1;
    }
    assert(a@ =~= b@);
    true
}

/// Whether two values that may be missing are equal.
fn equal_values(a: &Option<Vec<u8>>, b: &Option<Vec<u8>>) -> (r: bool)
    ensures
        r == same_value(*a, *b),
{
    match (a, b) {
        (Some(a), Some(b)) => equal_bytes(a, b),
        (None, None) => true,
        _ => false,
    }
}

/// A copy of some bytes.
fn copy_bytes(bytes: &Vec<u8>) -> (r: Vec<u8>)
    ensures
        r@ == bytes@,
{
    crate::registry::copy_units(bytes)
}

impl DurableWrite {
    /// The phases so far lead to the present one.
    pub open spec fn wf(self) -> bool {
        led_to(self.request, self.history@, self.phase)
    }

    /// Begins a write. It needs a policy that makes records durable before a call
    /// returns, and an overlay to write to.
    pub fn begin(
        request: WriteRequest,
        term: Vec<u8>,
        policy: DurabilityPolicy,
        overlay_installed: bool,
    ) -> (r: TrieResult<Self>)
        ensures
            match r {
                Ok(write) => {
                    &&& policy == DurabilityPolicy::Immediate || policy
                        == DurabilityPolicy::GroupCommit
                    &&& overlay_installed
                    &&& write.wf()
                    &&& write.request == request
                    &&& write.term == term
                    &&& write.phase == request.first()
                    &&& write.history@ == seq![write.phase]
                },
                Err(e) => e matches PersistentARTrieError::InvalidOperation { message } && if policy
                    == DurabilityPolicy::Immediate || policy == DurabilityPolicy::GroupCommit {
                    &&& !overlay_installed
                    &&& message@ == "Lock-free mode not enabled. Call install_overlay() first."@
                } else {
                    message@ == gate_message(request.method(), request.noun())
                },
            },
    {
        let gate = match &request {
            WriteRequest::InsertOnce { .. } => durable_policy_gate(
                policy,
                "insert_cas_with_value_durable",
                "write",
            ),
            WriteRequest::Upsert { .. } => durable_policy_gate(
                policy,
                "upsert_cas_durable",
                "write",
            ),
            WriteRequest::CompareAndSwap { .. } => durable_policy_gate(
                policy,
                "compare_and_swap",
                "write",
            ),
            WriteRequest::Increment { .. } => durable_policy_gate(
                policy,
                "try_increment_cas_durable",
                "increment",
            ),
        };
        match gate {
            Ok(()) => {},
            Err(e) => {
                return Err(e);
            },
        }
        if !overlay_installed {
            return Err(
                PersistentARTrieError::InvalidOperation {
                    message: "Lock-free mode not enabled. Call install_overlay() first.".to_owned(),
                },
            );
        }
        let phase: WritePhase = match &request {
            WriteRequest::InsertOnce { .. } => WritePhase::Probe,
            WriteRequest::Upsert { .. } => WritePhase::Probe,
            WriteRequest::CompareAndSwap { .. } => WritePhase::Read,
            WriteRequest::Increment { .. } => WritePhase::Append { existed: false },
        };
        let write = DurableWrite { request, term, phase, history: Ghost(Seq::empty().push(phase)) };
        proof {
            assert(write.request.lead() + seq![phase] =~= seq![phase] || !(
            write.request is Increment));
        }
        Ok(write)
    }

    /// Begins the insertion of a term unless it is there.
    pub fn insert_cas_with_value_durable_default(
        term: Vec<u8>,
        value: Vec<u8>,
        policy: DurabilityPolicy,
        overlay_installed: bool,
    ) -> (r: TrieResult<Self>)
        ensures
            r is Ok == (overlay_installed && (policy == DurabilityPolicy::Immediate || policy
                == DurabilityPolicy::GroupCommit)),
            r matches Ok(write) ==> write.wf() && write.term == term && write.request == (
            WriteRequest::InsertOnce { value }) && write.phase == WritePhase::Probe,
            r matches Err(e) ==> e is InvalidOperation,
    {
        Self::begin(WriteRequest::InsertOnce { value }, term, policy, overlay_installed)
    }

    /// Begins the writing of a value in any case.
    pub fn upsert_cas_durable_default(
        term: Vec<u8>,
        value: Vec<u8>,
        policy: DurabilityPolicy,
        overlay_installed: bool,
    ) -> (r: TrieResult<Self>)
        ensures
            r is Ok == (overlay_installed && (policy == DurabilityPolicy::Immediate || policy
                == DurabilityPolicy::GroupCommit)),
            r matches Ok(write) ==> write.wf() && write.term == term && write.request == (
            WriteRequest::Upsert { value }) && write.phase == WritePhase::Probe,
            r matches Err(e) ==> e is InvalidOperation,
    {
        Self::begin(WriteRequest::Upsert { value }, term, policy, overlay_installed)
    }

    /// Begins the writing of a value if the present one is as expected.
    pub fn compare_and_swap_cas_durable_default(
        term: Vec<u8>,
        expected: Option<Vec<u8>>,
        value: Vec<u8>,
        policy: DurabilityPolicy,
        overlay_installed: bool,
    ) -> (r: TrieResult<Self>)
        ensures
            r is Ok == (overlay_installed && (policy == DurabilityPolicy::Immediate || policy
                == DurabilityPolicy::GroupCommit)),
            r matches Ok(write) ==> write.wf() && write.term == term && write.request == (
            WriteRequest::CompareAndSwap { expected, value }) && write.phase == WritePhase::Read,
            r matches Err(e) ==> e is InvalidOperation,
    {
        Self::begin(
            WriteRequest::CompareAndSwap { expected, value },
            term,
            policy,
            overlay_installed,
        )
    }

    /// Begins the adding to a counter. A change that the log cannot hold is refused.
    pub fn try_increment_cas_durable_default(
        term: Vec<u8>,
        delta: u64,
        policy: DurabilityPolicy,
        overlay_installed: bool,
    ) -> (r: TrieResult<Self>)
        ensures
            r is Ok == (overlay_installed && delta <= i64::MAX && (policy
                == DurabilityPolicy::Immediate || policy == DurabilityPolicy::GroupCommit)),
            r matches Ok(write) ==> write.wf() && write.term == term && write.request == (
            WriteRequest::Increment { delta: delta as i64 }) && write.phase == (
            WritePhase::Append { existed: false }),
            r matches Err(e) ==> e is InvalidOperation,
    {
        let begun = Self::begin(
            WriteRequest::Increment { delta: 0 },
            term,
            policy,
            overlay_installed,
        );
        match begun {
            Ok(mut write) => match bound_increment_delta(delta) {
                Ok(bounded) => {
                    write.request = WriteRequest::Increment { delta: bounded };
                    Ok(write)
                },
                Err(e) => Err(e),
            },
            Err(e) => Err(e),
        }
    }

    /// The record to make durable.
    pub fn record(&self) -> (r: WalRecord)
        ensures
            match self.request {
                WriteRequest::InsertOnce { value } => r matches WalRecord::Insert {
                    term,
                    value: Some(bytes),
                } && term@ == self.term@ && bytes@ == value@,
                WriteRequest::Upsert { value } => r matches WalRecord::Upsert {
                    term,
                    value: bytes,
                } && term@ == self.term@ && bytes@ == value@,
                WriteRequest::CompareAndSwap { value, .. } => r matches WalRecord::Upsert {
                    term,
                    value: bytes,
                } && term@ == self.term@ && bytes@ == value@,
                WriteRequest::Increment { delta } => r matches WalRecord::BatchIncrement {
                    entries,
                } && entries@.len() == 1 && entries@[0].0@ == self.term@ && entries@[0].1 == delta,
            },
    {
        let term = copy_bytes(&self.term);
        match &self.request {
            WriteRequest::InsertOnce { value } => WalRecord::Insert {
                term,
                value: Some(copy_bytes(value)),
            },
            WriteRequest::Upsert { value } => WalRecord::Upsert { term, value: copy_bytes(value) },
            WriteRequest::CompareAndSwap { value, .. } => WalRecord::Upsert {
                term,
                value: copy_bytes(value),
            },
            WriteRequest::Increment { delta } => {
                let mut entries: Vec<(Vec<u8>, i64)> = Vec::new();
                entries.push((term, *delta));
                WalRecord::BatchIncrement { entries }
            },
        }
    }

    /// What publishing has to check.
    pub fn mode(&self) -> (r: ValueWriteMode)
        ensures
            r == match self.request {
                WriteRequest::InsertOnce { .. } => ValueWriteMode::InsertOnce,
                WriteRequest::Upsert { .. } => ValueWriteMode::Upsert,
                WriteRequest::CompareAndSwap { .. } => ValueWriteMode::CompareAndSwap,
                WriteRequest::Increment { .. } => ValueWriteMode::Increment,
            },
    {
        match &self.request {
            WriteRequest::InsertOnce { .. } => ValueWriteMode::InsertOnce,
            WriteRequest::Upsert { .. } => ValueWriteMode::Upsert,
            WriteRequest::CompareAndSwap { .. } => ValueWriteMode::CompareAndSwap,
            WriteRequest::Increment { .. } => ValueWriteMode::Increment,
        }
    }

    /// The record that binds a logged record to the commit that made it visible.
    pub fn commit_rank(&self, data_lsn: Lsn, generation: u64) -> (r: WalRecord)
        ensures
            r matches WalRecord::CommitRank { data_lsn: lsn, term, generation: seq } && lsn
                == data_lsn && term@ == self.term@ && seq == generation,
    {
        WalRecord::CommitRank { data_lsn, term: copy_bytes(&self.term), generation }
    }

    /// Takes the answer to the action of the present phase, and goes on.
    pub fn advance(&mut self, event: WriteEvent)
        requires
            old(self).wf(),
            answers(old(self).request, old(self).phase, event),
        ensures
            final(self).wf(),
            final(self).request == old(self).request,
            final(self).term == old(self).term,
            final(self).phase == phase_after(old(self).request, old(self).phase, event),
            final(self).history@ == old(self).history@.push(final(self).phase),
    {
        let ghost before = *self;
        let next: WritePhase = match (self.phase, event) {
            (_, WriteEvent::Failed) => WritePhase::Done(WriteVerdict::Failed),
            (WritePhase::Probe, WriteEvent::Present(existed)) => {
                let insert_once: bool = match &self.request {
                    WriteRequest::InsertOnce { .. } => true,
                    _ => false,
                };
                if existed && insert_once {
                    WritePhase::Done(WriteVerdict::Skipped)
                } else {
                    WritePhase::Append { existed }
                }
            },
            (WritePhase::Read, WriteEvent::Value(present)) => {
                let as_expected: bool = match &self.request {
                    WriteRequest::CompareAndSwap { expected, .. } => equal_values(
                        expected,
                        &present,
                    ),
                    _ => true,
                };
                if as_expected {
                    WritePhase::Append { existed: present.is_some() }
                } else {
                    WritePhase::Done(WriteVerdict::Skipped)
                }
            },
            (WritePhase::Append { existed }, WriteEvent::Appended(lsn)) => WritePhase::Publish {
                existed,
                lsn,
            },
            (
                WritePhase::Publish { existed, lsn },
                WriteEvent::Published { generation, count },
            ) => WritePhase::Rank { existed, lsn, generation, count },
            (WritePhase::Publish { existed, lsn }, WriteEvent::NotApplied) => WritePhase::Burn {
                existed,
                lsn,
            },
            (
                WritePhase::Rank { existed, lsn, generation, count },
                WriteEvent::Ranked(rank_lsn),
            ) => WritePhase::Mark { existed, lsn, generation, rank_lsn, count },
            (
                WritePhase::Mark { existed, lsn, generation, rank_lsn, count },
                WriteEvent::Marked,
            ) => WritePhase::Done(
                WriteVerdict::Applied { existed, lsn, generation, rank_lsn, count },
            ),
            (WritePhase::Burn { existed, lsn }, WriteEvent::Marked) => WritePhase::Done(
                WriteVerdict::Burned { existed, lsn },
            ),
            (phase, _) => phase,
        };
        self.phase = next;
        self.history = Ghost(before.history@.push(next));
        proof {
            lemma_led_on(before.request, before.history@, before.phase, event);
        }
    }

    /// The result of a write that has ended without a failed step: whether a term
    /// was added or a swap was made, or the new count.
    pub fn result(&self) -> (r: Option<TrieResult<u64>>)
        ensures
            match self.phase {
                WritePhase::Done(verdict) => match verdict {
                    WriteVerdict::Failed => r is None,
                    WriteVerdict::Skipped => r == Some(Ok::<u64, PersistentARTrieError>(0)),
                    WriteVerdict::Applied { existed, count, .. } => r == Some(
                        Ok::<u64, PersistentARTrieError>(
                            match self.request {
                                WriteRequest::Upsert { .. } => if existed {
                                    0
                                } else {
                                    1
                                },
                                WriteRequest::Increment { .. } => count,
                                _ => 1,
                            },
                        ),
                    ),
                    WriteVerdict::Burned { .. } => match self.request {
                        WriteRequest::Upsert { .. } => r matches Some(Err(e)) && e is InternalError,
                        _ => r == Some(Ok::<u64, PersistentARTrieError>(0)),
                    },
                },
                _ => r is None,
            },
    {
        match self.phase {
            WritePhase::Done(verdict) => match verdict {
                WriteVerdict::Failed => None,
                WriteVerdict::Skipped => Some(Ok(0)),
                WriteVerdict::Applied { existed, lsn: _, generation: _, rank_lsn: _, count } => {
                    let value: u64 = match &self.request {
                        WriteRequest::Upsert { .. } => if existed {
                            0
                        } else {
                            1
                        },
                        WriteRequest::Increment { .. } => count,
                        _ => 1,
                    };
                    Some(Ok(value))
                },
                WriteVerdict::Burned { .. } => match &self.request {
                    WriteRequest::Upsert { .. } => Some(
                        Err(
                            PersistentARTrieError::internal(
                                "upsert_cas_durable: value publish unexpectedly refused (NotApplied); the Upsert record is durable and replays on reopen",
                            ),
                        ),
                    ),
                    _ => Some(Ok(0)),
                },
            },
            _ => None,
        }
    }
}

/// An answer leads on.
proof fn lemma_led_on(
    request: WriteRequest,
    history: Seq<WritePhase>,
    phase: WritePhase,
    event: WriteEvent,
)
    requires
        led_to(request, history, phase),
        answers(request, phase, event),
    ensures
        led_to(
            request,
            history.push(phase_after(request, phase, event)),
            phase_after(request, phase, event),
        ),
{
    let next = phase_after(request, phase, event);
    let longer = history.push(next);
    let lead = request.lead();
    assert(longer.drop_last() =~= history);
    match phase {
        WritePhase::Probe => {
            assert(longer =~= lead + seq![next]);
        },
        WritePhase::Read => {
            assert(longer =~= lead + seq![next]);
        },
        WritePhase::Append { existed } => {
            assert(longer =~= lead + seq![phase, next]);
        },
        WritePhase::Publish { existed, lsn } => {
            assert(longer =~= lead + seq![WritePhase::Append { existed }, phase, next]);
        },
        WritePhase::Rank { existed, lsn, generation, count } => {
            assert(longer =~= lead + seq![
                WritePhase::Append { existed },
                WritePhase::Publish { existed, lsn },
                phase,
                next,
            ]);
        },
        WritePhase::Mark { existed, lsn, generation, rank_lsn, count } => {
            assert(longer =~= lead + seq![
                WritePhase::Append { existed },
                WritePhase::Publish { existed, lsn },
                WritePhase::Rank { existed, lsn, generation, count },
                phase,
                next,
            ]);
        },
        WritePhase::Burn { existed, lsn } => {
            assert(longer =~= lead + seq![
                WritePhase::Append { existed },
                WritePhase::Publish { existed, lsn },
                phase,
                next,
            ]);
        },
        WritePhase::Done(_) => {},
    }
    if next == WritePhase::Done(WriteVerdict::Failed) {
        assert(longer[longer.len() - 2] == history.last());
        lemma_led_last(request, history, phase);
    }
}

/// The phases that lead to a phase end with it.
proof fn lemma_led_last(request: WriteRequest, history: Seq<WritePhase>, phase: WritePhase)
    requires
        led_to(request, history, phase),
    ensures
        history.len() > 0,
        history.last() == phase,
{
}

/// A write that is acknowledged was first logged, then made visible, then ranked,
/// and only then marked, each once and in this order; the rank is bound to the LSN
/// of the record and to the commit that made it visible.
pub proof fn acknowledged_write_was_durable_first(write: DurableWrite)
    requires
        write.wf(),
        write.phase is Done,
        write.phase->Done_0 is Applied,
    ensures
        ({
            let verdict = write.phase->Done_0;
            let existed = verdict->Applied_existed;
            let lsn = verdict->Applied_lsn;
            let generation = verdict->generation;
            let rank_lsn = verdict->rank_lsn;
            let count = verdict->count;
            write.history@ == write.request.lead() + seq![
                WritePhase::Append { existed },
                WritePhase::Publish { existed, lsn },
                WritePhase::Rank { existed, lsn, generation, count },
                WritePhase::Mark { existed, lsn, generation, rank_lsn, count },
                write.phase,
            ]
        }),
{
}

/// No phase comes before the record is durable but the one that decides whether
/// there is anything to write.
pub proof fn nothing_is_visible_before_it_is_durable(write: DurableWrite, i: int)
    requires
        write.wf(),
        0 <= i < write.history@.len(),
        write.history@[i] is Publish,
    ensures
        i > 0,
        write.history@[i - 1] is Append,
{
    lemma_order(write.request, write.history@, write.phase, i);
}

/// A write is logged at most once, however it ends.
pub proof fn record_is_logged_at_most_once(write: DurableWrite, i: int, j: int)
    requires
        write.wf(),
        0 <= i < write.history@.len(),
        0 <= j < write.history@.len(),
        write.history@[i] is Append,
        write.history@[j] is Append,
    ensures
        i == j,
{
    lemma_order(write.request, write.history@, write.phase, i);
    lemma_order(write.request, write.history@, write.phase, j);
}

/// A write that was skipped or refused has no rank.
pub proof fn refused_write_has_no_rank(write: DurableWrite, i: int)
    requires
        write.wf(),
        write.phase is Done,
        write.phase->Done_0 is Skipped || write.phase->Done_0 is Burned,
        0 <= i < write.history@.len(),
    ensures
        !(write.history@[i] is Rank),
{
}

/// Where each phase stands.
proof fn lemma_order(request: WriteRequest, history: Seq<WritePhase>, phase: WritePhase, i: int)
    requires
        led_to(request, history, phase),
        0 <= i < history.len(),
    ensures
        history[i] is Publish ==> i > 0 && history[i - 1] is Append,
        history[i] is Append ==> i == request.lead().len(),
    decreases history.len(),
{
    if phase == WritePhase::Done(WriteVerdict::Failed) {
        if i < history.len() - 1 {
            lemma_order(request, history.drop_last(), history[history.len() - 2], i);
            assert(history.drop_last()[i] == history[i]);
            if i > 0 {
                assert(history.drop_last()[i - 1] == history[i - 1]);
            }
        }
    }
}

/// How a value is found or made.
#[derive(Clone, Copy, Debug, PartialEq, Eq, Structural)]
pub enum GetOrInsertPhase {
    /// Read the present value.
    Read,
    /// Insert the default unless the term is there.
    Insert,
    /// Read the value of the insertion that won.
    ReadWinner,
    /// The value that was read is the answer.
    UseRead,
    /// The default is the answer.
    UseDefault,
}

/// The phase after reading: a value is the answer; without one the default is
/// inserted, or, if somebody else had inserted one and it is gone, the answer.
pub fn get_or_insert_after_read(phase: GetOrInsertPhase, found: bool) -> (r: GetOrInsertPhase)
    requires
        phase == GetOrInsertPhase::Read || phase == GetOrInsertPhase::ReadWinner,
    ensures
        r == (if found {
            GetOrInsertPhase::UseRead
        } else if phase == GetOrInsertPhase::Read {
            GetOrInsertPhase::Insert
        } else {
            GetOrInsertPhase::UseDefault
        }),
{
    if found {
        GetOrInsertPhase::UseRead
    } else if phase == GetOrInsertPhase::Read {
        GetOrInsertPhase::Insert
    } else {
        GetOrInsertPhase::UseDefault
    }
}

/// The phase after inserting: the default is the answer if it was inserted, and the
/// value of the insertion that won is read if not.
pub fn get_or_insert_after_insert(inserted: bool) -> (r: GetOrInsertPhase)
    ensures
        r == (if inserted {
            GetOrInsertPhase::UseDefault
        } else {
            GetOrInsertPhase::ReadWinner
        }),
{
    if inserted {
        GetOrInsertPhase::UseDefault
    } else {
        GetOrInsertPhase::ReadWinner
    }
}

} // verus!
