//! Garbage collection of old trie versions. A version that somebody reads is never
//! collected.
//!
//! Times are nanoseconds on a clock that never goes back.

use std::collections::VecDeque;
use dashmap::DashMap;
use vstd::prelude::*;
use crate::dash::{dash_entries, dash_get, dash_insert, dash_len, dash_new, dash_remove};
use crate::wal::frame::frame;
use crate::wal::record::WalRecord;
use crate::wal::writer::WalWriter;
use crate::wal::Lsn;

verus! {

/// The bytes that one node is estimated to take.
pub const BYTES_PER_NODE: u64 = 200;

/// How versions are collected.
#[derive(Clone, Copy, Debug, PartialEq, Eq, Structural)]
pub struct GcConfig {
    /// The time between cycles.
    pub gc_interval: u64,
    /// The number of candidates that are kept.
    pub min_retained_versions: usize,
    /// The number of versions that are worth keeping.
    pub max_retained_versions: usize,
    /// The time that a version must have been a candidate.
    pub grace_period: u64,
    /// The number of versions that one cycle collects.
    pub max_gc_per_cycle: usize,
    /// Whether cycles run in a thread of their own.
    pub background_gc: bool,
}

impl Default for GcConfig {
    /// A cycle each second, five versions kept, a grace of five seconds.
    fn default() -> (r: Self)
        ensures
            r == (GcConfig {
                gc_interval: 1_000_000_000,
                min_retained_versions: 5,
                max_retained_versions: 100,
                grace_period: 5_000_000_000,
                max_gc_per_cycle: 10,
                background_gc: true,
            }),
    {
        GcConfig {
            gc_interval: 1_000_000_000,
            min_retained_versions: 5,
            max_retained_versions: 100,
            grace_period: 5_000_000_000,
            max_gc_per_cycle: 10,
            background_gc: true,
        }
    }
}

impl GcConfig {
    /// Short times, and no thread.
    pub fn for_testing() -> (r: Self)
        ensures
            r == (GcConfig {
                gc_interval: 100_000_000,
                min_retained_versions: 2,
                max_retained_versions: 10,
                grace_period: 100_000_000,
                max_gc_per_cycle: 5,
                background_gc: false,
            }),
    {
        GcConfig {
            gc_interval: 100_000_000,
            min_retained_versions: 2,
            max_retained_versions: 10,
            grace_period: 100_000_000,
            max_gc_per_cycle: 5,
            background_gc: false,
        }
    }

    /// Many versions in each cycle.
    pub fn high_throughput() -> (r: Self)
        ensures
            r == (GcConfig {
                gc_interval: 500_000_000,
                min_retained_versions: 10,
                max_retained_versions: 1000,
                grace_period: 2_000_000_000,
                max_gc_per_cycle: 50,
                background_gc: true,
            }),
    {
        GcConfig {
            gc_interval: 500_000_000,
            min_retained_versions: 10,
            max_retained_versions: 1000,
            grace_period: 2_000_000_000,
            max_gc_per_cycle: 50,
            background_gc: true,
        }
    }
}

/// A version that may be collected.
#[derive(Clone, Copy, Debug, PartialEq, Eq, Structural)]
pub struct GcCandidate {
    pub version_id: u64,
    pub root_ptr: u64,
    /// Since when it may be collected.
    pub eligible_since: u64,
    pub node_count: u64,
}

/// What has been collected so far. Counters count modulo 2^64.
#[derive(Clone, Copy, Debug, PartialEq, Eq, Structural)]
pub struct GcStats {
    pub cycles_run: u64,
    pub versions_collected: u64,
    /// How often a candidate was passed over because somebody read it.
    pub versions_skipped: u64,
    pub bytes_reclaimed: u64,
    pub last_cycle_duration: u64,
    pub pending_candidates: usize,
    pub versions_with_readers: usize,
}

impl GcStats {
    /// Nothing was collected.
    pub open spec fn zero() -> Self {
        GcStats {
            cycles_run: 0,
            versions_collected: 0,
            versions_skipped: 0,
            bytes_reclaimed: 0,
            last_cycle_duration: 0,
            pending_candidates: 0,
            versions_with_readers: 0,
        }
    }
}

impl Default for GcStats {
    /// Nothing was collected.
    fn default() -> (r: Self)
        ensures
            r == GcStats::zero(),
    {
        GcStats {
            cycles_run: 0,
            versions_collected: 0,
            versions_skipped: 0,
            bytes_reclaimed: 0,
            last_cycle_duration: 0,
            pending_candidates: 0,
            versions_with_readers: 0,
        }
    }
}

/// A sum modulo 2^64.
pub open spec fn wrapped(sum: int) -> u64 {
    (sum % 0x1_0000_0000_0000_0000) as u64
}

/// The readers of a version.
pub open spec fn readers_of(readers: Map<u64, u64>, version_id: u64) -> u64 {
    if readers.dom().contains(version_id) {
        readers[version_id]
    } else {
        0
    }
}

/// A candidate has waited long enough.
pub open spec fn past_grace(candidate: GcCandidate, now: u64, grace_period: u64) -> bool {
    (if now > candidate.eligible_since {
        now - candidate.eligible_since
    } else {
        0
    }) >= grace_period
}

/// What one cycle goes by.
pub struct CycleRules {
    pub readers: Map<u64, u64>,
    pub now: u64,
    pub grace_period: u64,
    /// How many versions may be collected.
    pub limit: int,
}

impl CycleRules {
    /// Nobody reads the candidate, and it has waited long enough.
    pub open spec fn collectable(self, candidate: GcCandidate) -> bool {
        past_grace(candidate, self.now, self.grace_period) && readers_of(
            self.readers,
            candidate.version_id,
        ) == 0
    }

    /// The candidates that a cycle collects: the oldest collectable ones, as many as
    /// it may.
    pub open spec fn collected(self, candidates: Seq<GcCandidate>) -> Seq<GcCandidate>
        decreases candidates.len(),
    {
        if candidates.len() == 0 {
            Seq::empty()
        } else {
            let before = self.collected(candidates.drop_last());
            if before.len() < self.limit && self.collectable(candidates.last()) {
                before.push(candidates.last())
            } else {
                before
            }
        }
    }

    /// The candidates that a cycle leaves, in their order.
    pub open spec fn left(self, candidates: Seq<GcCandidate>) -> Seq<GcCandidate>
        decreases candidates.len(),
    {
        if candidates.len() == 0 {
            Seq::empty()
        } else {
            let before = self.left(candidates.drop_last());
            if self.collected(candidates.drop_last()).len() < self.limit && self.collectable(
                candidates.last(),
            ) {
                before
            } else {
                before.push(candidates.last())
            }
        }
    }

    /// How many candidates are passed over only because somebody reads them.
    pub open spec fn skipped(self, candidates: Seq<GcCandidate>) -> nat
        decreases candidates.len(),
    {
        if candidates.len() == 0 {
            0
        } else {
            let last = candidates.last();
            self.skipped(candidates.drop_last()) + if self.collected(candidates.drop_last()).len()
                < self.limit && past_grace(last, self.now, self.grace_period) && readers_of(
                self.readers,
                last.version_id,
            ) > 0 {
                1nat
            } else {
                0
            }
        }
    }
}

/// The bytes that collected versions took.
pub open spec fn bytes_of(candidates: Seq<GcCandidate>) -> nat
    decreases candidates.len(),
{
    if candidates.len() == 0 {
        0
    } else {
        bytes_of(candidates.drop_last()) + (candidates.last().node_count * 200) as nat
    }
}

/// The versions of candidates.
pub open spec fn versions_of(candidates: Seq<GcCandidate>) -> Seq<u64> {
    Seq::new(candidates.len(), |i: int| candidates[i].version_id)
}

/// The readers of versions, and the versions that may be collected.
pub struct VersionGcRegistry {
    active_readers: DashMap<u64, u64>,
    gc_candidates: VecDeque<GcCandidate>,
    config: GcConfig,
    modifications_since_gc: u64,
    stats: GcStats,
}

impl VersionGcRegistry {
    /// How many readers each version has. A version without readers is not listed.
    pub closed spec fn readers(self) -> Map<u64, u64> {
        dash_entries(self.active_readers)
    }

    /// The versions that may be collected, the oldest first.
    pub closed spec fn candidates(self) -> Seq<GcCandidate> {
        self.gc_candidates@
    }

    /// How versions are collected.
    pub closed spec fn settings(self) -> GcConfig {
        self.config
    }

    /// The modifications since the last cycle, modulo 2^64.
    pub closed spec fn modifications(self) -> u64 {
        self.modifications_since_gc
    }

    /// What has been collected so far.
    pub closed spec fn statistics(self) -> GcStats {
        self.stats
    }

    /// Everything but the readers is as it was.
    pub open spec fn same_but_readers(self, before: Self) -> bool {
        &&& self.candidates() == before.candidates()
        &&& self.settings() == before.settings()
        &&& self.modifications() == before.modifications()
        &&& self.statistics() == before.statistics()
    }

    /// A registry without readers and candidates.
    pub fn new(config: GcConfig) -> (r: Self)
        ensures
            r.readers().dom() == Set::<u64>::empty(),
            r.candidates() == Seq::<GcCandidate>::empty(),
            r.settings() == config,
            r.modifications() == 0,
            r.statistics() == GcStats::zero(),
    {
        let r = VersionGcRegistry {
            active_readers: dash_new(),
            gc_candidates: VecDeque::new(),
            config,
            modifications_since_gc: 0,
            stats: GcStats::default(),
        };
        assert(r.candidates() =~= Seq::<GcCandidate>::empty());
        r
    }

    /// Takes note of a reader.
    pub fn add_reader(&mut self, version_id: u64)
        requires
            readers_of(old(self).readers(), version_id) < u64::MAX,
        ensures
            final(self).readers() == old(self).readers().insert(
                version_id,
                (readers_of(old(self).readers(), version_id) + 1) as u64,
            ),
            final(self).same_but_readers(*old(self)),
    {
        let count: u64 = match dash_get(&self.active_readers, version_id) {
            Some(count) => count,
            None => 0,
        };
        dash_insert(&mut self.active_readers, version_id, count + 1);
    }

    /// Takes note that a reader is done. A version without readers is not listed any
    /// more.
    pub fn remove_reader(&mut self, version_id: u64)
        ensures
            final(self).readers() == (if !old(self).readers().dom().contains(version_id) {
                old(self).readers()
            } else if old(self).readers()[version_id] <= 1 {
                old(self).readers().remove(version_id)
            } else {
                old(self).readers().insert(
                    version_id,
                    (old(self).readers()[version_id] - 1) as u64,
                )
            }),
            final(self).same_but_readers(*old(self)),
    {
        match dash_get(&self.active_readers, version_id) {
            Some(count) => {
                let left: u64 = count.saturating_sub(1);
                if left == 0 {
                    dash_remove(&mut self.active_readers, version_id);
                } else {
                    dash_insert(&mut self.active_readers, version_id, left);
                }
            },
            None => {},
        }
    }

    /// The number of readers of a version.
    pub fn reader_count(&self, version_id: u64) -> (r: u64)
        ensures
            r == readers_of(self.readers(), version_id),
    {
        match dash_get(&self.active_readers, version_id) {
            Some(count) => count,
            None => 0,
        }
    }

    /// Whether somebody reads a version.
    pub fn has_readers(&self, version_id: u64) -> (r: bool)
        ensures
            r == (readers_of(self.readers(), version_id) > 0),
    {
        self.reader_count(version_id) > 0
    }

    /// Takes note of a version that may be collected from `now` on.
    pub fn add_gc_candidate(&mut self, version_id: u64, root_ptr: u64, node_count: u64, now: u64)
        ensures
            final(self).candidates() == old(self).candidates().push(
                GcCandidate { version_id, root_ptr, eligible_since: now, node_count },
            ),
            final(self).readers() == old(self).readers(),
            final(self).settings() == old(self).settings(),
            final(self).modifications() == old(self).modifications(),
            final(self).statistics() == old(self).statistics(),
    {
        self.gc_candidates.push_back(
            GcCandidate { version_id, root_ptr, eligible_since: now, node_count },
        );
    }

    /// Takes note of a modification. Without one since the last cycle there is
    /// nothing to collect.
    pub fn record_modification(&mut self)
        ensures
            final(self).modifications() == wrapped(old(self).modifications() + 1),
            final(self).readers() == old(self).readers(),
            final(self).candidates() == old(self).candidates(),
            final(self).settings() == old(self).settings(),
            final(self).statistics() == old(self).statistics(),
    {
        self.modifications_since_gc = self.modifications_since_gc.wrapping_add(1);
    }

    /// The rules of a cycle.
    pub open spec fn rules(self, now: u64) -> CycleRules {
        let spare = self.candidates().len() - self.settings().min_retained_versions;
        CycleRules {
            readers: self.readers(),
            now,
            grace_period: self.settings().grace_period,
            limit: if spare < self.settings().max_gc_per_cycle {
                spare
            } else {
                self.settings().max_gc_per_cycle as int
            },
        }
    }

    /// A cycle would do nothing: nothing was modified, or there are no more
    /// candidates than are to be kept.
    pub open spec fn idle(self) -> bool {
        self.modifications() == 0 || self.candidates().len()
            <= self.settings().min_retained_versions
    }

    /// Collects the oldest versions that nobody reads and that have waited long
    /// enough, as many as the settings allow.
    pub fn run_gc_cycle_internal(&mut self, now: u64) -> (r: Vec<u64>)
        ensures
            final(self).readers() == old(self).readers(),
            final(self).settings() == old(self).settings(),
            old(self).idle() ==> {
                &&& r@.len() == 0
                &&& final(self).candidates() == old(self).candidates()
                &&& final(self).modifications() == old(self).modifications()
                &&& final(self).statistics() == old(self).statistics()
            },
            !old(self).idle() ==> {
                let rules = old(self).rules(now);
                let collected = rules.collected(old(self).candidates());
                let before = old(self).statistics();
                &&& r@ == versions_of(collected)
                &&& final(self).candidates() == rules.left(old(self).candidates())
                &&& final(self).modifications() == 0
                &&& final(self).statistics() == (GcStats {
                    cycles_run: wrapped(before.cycles_run + 1),
                    versions_collected: wrapped(before.versions_collected + collected.len()),
                    versions_skipped: wrapped(
                        before.versions_skipped + rules.skipped(old(self).candidates()),
                    ),
                    bytes_reclaimed: wrapped(before.bytes_reclaimed + bytes_of(collected)),
                    last_cycle_duration: before.last_cycle_duration,
                    pending_candidates: final(self).candidates().len() as usize,
                    versions_with_readers: old(self).readers().dom().len() as usize,
                })
            },
    {
        let ghost start = *self;
        let ghost queue = self.gc_candidates@;
        let ghost readers = self.readers();
        let mut collected: Vec<u64> = Vec::new();
        if self.modifications_since_gc == 0 {
            return collected;
        }
        let total: usize = self.gc_candidates.len();
        if total <= self.config.min_retained_versions {
            return collected;
        }
        let spare: usize = total - self.config.min_retained_versions;
        let limit: usize = if spare < self.config.max_gc_per_cycle {
            spare
        } else {
            self.config.max_gc_per_cycle
        };
        let grace_period: u64 = self.config.grace_period;
        let ghost rules = start.rules(now);
        let ghost before = self.stats;
        let mut remaining: VecDeque<GcCandidate> = VecDeque::new();
        let mut i: usize = 0;
        proof {
            assert(versions_of(rules.collected(queue.take(0))) =~= Seq::empty());
            assert(remaining@ =~= rules.left(queue.take(0)));
        }
        while i < total
            invariant
                total == queue.len(),
                i <= total,
                self.gc_candidates@ == queue,
                dash_entries(self.active_readers) == readers,
                rules == start.rules(now),
                rules.readers == readers,
                rules.grace_period == grace_period,
                rules.limit == limit,
                self.config == start.config,
                collected@ == versions_of(rules.collected(queue.take(i as int))),
                remaining@ == rules.left(queue.take(i as int)),
                self.stats == (GcStats {
                    versions_collected: wrapped(
                        before.versions_collected + rules.collected(queue.take(i as int)).len(),
                    ),
                    versions_skipped: wrapped(
                        before.versions_skipped + rules.skipped(queue.take(i as int)),
                    ),
                    bytes_reclaimed: wrapped(
                        before.bytes_reclaimed + bytes_of(rules.collected(queue.take(i as int))),
                    ),
                    ..before
                }),
            decreases total - i,
        {
            let candidate: GcCandidate = self.gc_candidates[i];
            let ghost shorter = queue.take(i as int);
            let ghost longer = queue.take(i + 1);
            let ghost earlier = rules.collected(shorter);
            proof {
                assert(longer.drop_last() =~= shorter);
                assert(longer.last() == candidate);
                assert(versions_of(earlier).len() == earlier.len());
            }
            i += 1;
            if collected.len() >= limit {
                remaining.push_back(candidate);
                continue ;
            }
            let waited: u64 = now.saturating_sub(candidate.eligible_since);
            if waited < grace_period {
                remaining.push_back(candidate);
                continue ;
            }
            if self.has_readers(candidate.version_id) {
                remaining.push_back(candidate);
                self.stats.versions_skipped = self.stats.versions_skipped.wrapping_add(1);
                continue ;
            }
            collected.push(candidate.version_id);
            self.stats.versions_collected = self.stats.versions_collected.wrapping_add(1);
            let bytes: u64 = candidate.node_count.wrapping_mul(BYTES_PER_NODE);
            self.stats.bytes_reclaimed = self.stats.bytes_reclaimed.wrapping_add(bytes);
            proof {
                let now_collected = rules.collected(longer);
                assert(now_collected == earlier.push(candidate));
                assert(now_collected.drop_last() =~= earlier);
                assert(collected@ =~= versions_of(now_collected));
                lemma_wrapped_bytes(
                    before.bytes_reclaimed as int,
                    bytes_of(earlier) as int,
                    candidate.node_count as int,
                );
            }
        }
        assert(queue.take(i as int) =~= queue);
        self.gc_candidates = remaining;
        self.modifications_since_gc = 0;
        self.stats.cycles_run = self.stats.cycles_run.wrapping_add(1);
        self.stats.pending_candidates = self.gc_candidates.len();
        self.stats.versions_with_readers = dash_len(&self.active_readers);
        collected
    }

    /// Takes note of how long a cycle took.
    pub fn record_cycle_duration(&mut self, duration: u64)
        ensures
            final(self).statistics() == (GcStats {
                last_cycle_duration: duration,
                ..old(self).statistics()
            }),
            final(self).readers() == old(self).readers(),
            final(self).candidates() == old(self).candidates(),
            final(self).settings() == old(self).settings(),
            final(self).modifications() == old(self).modifications(),
    {
        self.stats.last_cycle_duration = duration;
    }

    /// Runs a cycle, and logs the collected versions if there are any. Gives back the
    /// versions, and the LSN and frame of the log record.
    pub fn run_gc_cycle(&mut self, now: u64, wal: &mut WalWriter) -> (r: (
        Vec<u64>,
        Option<(Lsn, Vec<u8>)>,
    ))
        requires
            old(wal).next_lsn < Lsn::MAX,
            old(self).candidates().len() * 8 + 25 <= usize::MAX,
        ensures
            final(self).readers() == old(self).readers(),
            final(self).settings() == old(self).settings(),
            final(self).modifications() == (if old(self).idle() {
                old(self).modifications()
            } else {
                0
            }),
            final(self).statistics() == (if old(self).idle() {
                old(self).statistics()
            } else {
                let rules = old(self).rules(now);
                let collected = rules.collected(old(self).candidates());
                let before = old(self).statistics();
                GcStats {
                    cycles_run: wrapped(before.cycles_run + 1),
                    versions_collected: wrapped(before.versions_collected + collected.len()),
                    versions_skipped: wrapped(
                        before.versions_skipped + rules.skipped(old(self).candidates()),
                    ),
                    bytes_reclaimed: wrapped(before.bytes_reclaimed + bytes_of(collected)),
                    last_cycle_duration: before.last_cycle_duration,
                    pending_candidates: final(self).candidates().len() as usize,
                    versions_with_readers: old(self).readers().dom().len() as usize,
                }
            }),
            r.0@ == (if old(self).idle() {
                Seq::<u64>::empty()
            } else {
                versions_of(old(self).rules(now).collected(old(self).candidates()))
            }),
            final(self).candidates() == (if old(self).idle() {
                old(self).candidates()
            } else {
                old(self).rules(now).left(old(self).candidates())
            }),
            match r.1 {
                Some((lsn, bytes)) => {
                    &&& r.0@.len() > 0
                    &&& lsn == old(wal).next_lsn
                    &&& bytes@ == frame(lsn, 8, crate::wal::record::version_list(r.0@))
                    &&& *final(wal) == (WalWriter {
                        next_lsn: (old(wal).next_lsn + 1) as u64,
                        ..*old(wal)
                    })
                },
                None => r.0@.len() == 0 && *final(wal) == *old(wal),
            },
    {
        let ghost candidates = self.candidates();
        let ghost rules = self.rules(now);
        let collected = self.run_gc_cycle_internal(now);
        if collected.len() == 0 {
            assert(collected@ =~= Seq::empty());
            return (collected, None);
        }
        let version_ids: Vec<u64> = crate::registry::copy_units(&collected);
        proof {
            lemma_collected_len(rules, candidates);
            crate::wal::record::lemma_version_list_len(version_ids@);
        }
        let record = WalRecord::VersionGc { version_ids };
        let logged = wal.append(&record);
        (collected, Some(logged))
    }

    /// What has been collected so far.
    pub fn stats(&self) -> (r: GcStats)
        ensures
            r == self.statistics(),
    {
        self.stats
    }

    /// The number of candidates.
    pub fn pending_count(&self) -> (r: usize)
        ensures
            r == self.candidates().len(),
    {
        self.gc_candidates.len()
    }

    /// The versions of the candidates, the oldest first.
    pub fn pending_versions(&self) -> (r: Vec<u64>)
        ensures
            r@ == versions_of(self.candidates()),
    {
        let mut r: Vec<u64> = Vec::with_capacity(self.gc_candidates.len());
        let mut i: usize = 0;
        while i < self.gc_candidates.len()
            invariant
                i <= self.gc_candidates@.len(),
                r@.len() == i,
                forall|k: int| 0 <= k < i ==> #[trigger] r@[k] == self.gc_candidates@[k].version_id,
            decreases self.gc_candidates@.len() - i,
        {
            r.push(self.gc_candidates[i].version_id);
            i += 1;
        }
        assert(r@ =~= versions_of(self.candidates()));
        r
    }

    /// Forgets the candidates.
    pub fn clear_candidates(&mut self)
        ensures
            final(self).candidates() == Seq::<GcCandidate>::empty(),
            final(self).readers() == old(self).readers(),
            final(self).settings() == old(self).settings(),
            final(self).modifications() == old(self).modifications(),
            final(self).statistics() == old(self).statistics(),
    {
        self.gc_candidates.clear();
        assert(self.candidates() =~= Seq::<GcCandidate>::empty());
    }
}

/// Adding up modulo 2^64.
proof fn lemma_wrapped_bytes(start: int, sum: int, nodes: int)
    requires
        start >= 0,
        sum >= 0,
        nodes >= 0,
    ensures
        wrapped(wrapped(start + sum) + wrapped(nodes * 200)) == wrapped(start + (sum + nodes * 200)),
{
    let m = 0x1_0000_0000_0000_0000int;
    vstd::arithmetic::div_mod::lemma_add_mod_noop(start + sum, nodes * 200, m);
}

/// A cycle collects no more than there is.
proof fn lemma_collected_len(rules: CycleRules, candidates: Seq<GcCandidate>)
    ensures
        rules.collected(candidates).len() + rules.left(candidates).len() == candidates.len(),
        rules.limit >= 0 ==> rules.collected(candidates).len() <= rules.limit,
    decreases candidates.len(),
{
    if candidates.len() > 0 {
        lemma_collected_len(rules, candidates.drop_last());
    }
}

/// A version that somebody reads is not collected, and neither is one that has not
/// waited long enough.
pub proof fn collected_versions_have_no_readers(
    rules: CycleRules,
    candidates: Seq<GcCandidate>,
    i: int,
)
    requires
        0 <= i < rules.collected(candidates).len(),
    ensures
        readers_of(rules.readers, rules.collected(candidates)[i].version_id) == 0,
        past_grace(rules.collected(candidates)[i], rules.now, rules.grace_period),
        candidates.contains(rules.collected(candidates)[i]),
    decreases candidates.len(),
{
    let shorter = candidates.drop_last();
    let before = rules.collected(shorter);
    if i < before.len() {
        collected_versions_have_no_readers(rules, shorter, i);
        let found = before[i];
        assert(rules.collected(candidates)[i] == found);
        let k = choose|k: int| 0 <= k < shorter.len() && shorter[k] == found;
        assert(candidates[k] == found);
    } else {
        assert(candidates[candidates.len() - 1] == candidates.last());
    }
}

/// A cycle keeps as many candidates as the settings ask for, and collects no more
/// than they allow; no candidate is lost.
pub proof fn cycle_respects_retention(registry: VersionGcRegistry, now: u64)
    requires
        !registry.idle(),
    ensures
        ({
            let rules = registry.rules(now);
            let collected = rules.collected(registry.candidates());
            let left = rules.left(registry.candidates());
            &&& collected.len() <= registry.settings().max_gc_per_cycle
            &&& left.len() >= registry.settings().min_retained_versions
            &&& collected.len() + left.len() == registry.candidates().len()
        }),
{
    lemma_collected_len(registry.rules(now), registry.candidates());
}

/// A reader that comes and goes leaves the readers of every version as they were.
pub proof fn reader_comes_and_goes(readers: Map<u64, u64>, version_id: u64, other: u64)
    requires
        readers_of(readers, version_id) < u64::MAX,
    ensures
        ({
            let during = readers.insert(version_id, (readers_of(readers, version_id) + 1) as u64);
            let after = if during[version_id] <= 1 {
                during.remove(version_id)
            } else {
                during.insert(version_id, (during[version_id] - 1) as u64)
            };
            &&& readers_of(during, version_id) > 0
            &&& readers_of(after, other) == readers_of(readers, other)
        }),
{
}

/// A reader of one version. It must be released.
pub struct ReaderGuard {
    version_id: u64,
}

impl ReaderGuard {
    /// The version that is read.
    pub closed spec fn version(self) -> u64 {
        self.version_id
    }

    /// Takes note of a reader.
    pub fn new(version_id: u64, registry: &mut VersionGcRegistry) -> (r: Self)
        requires
            readers_of(old(registry).readers(), version_id) < u64::MAX,
        ensures
            r.version() == version_id,
            final(registry).readers() == old(registry).readers().insert(
                version_id,
                (readers_of(old(registry).readers(), version_id) + 1) as u64,
            ),
            final(registry).same_but_readers(*old(registry)),
    {
        registry.add_reader(version_id);
        ReaderGuard { version_id }
    }

    /// The version that is read.
    pub fn version_id(&self) -> (r: u64)
        ensures
            r == self.version(),
    {
        self.version_id
    }

    /// Takes note that the reader is done.
    pub fn release(self, registry: &mut VersionGcRegistry)
        ensures
            final(registry).readers() == (if !old(registry).readers().dom().contains(
                self.version(),
            ) {
                old(registry).readers()
            } else if old(registry).readers()[self.version()] <= 1 {
                old(registry).readers().remove(self.version())
            } else {
                old(registry).readers().insert(
                    self.version(),
                    (old(registry).readers()[self.version()] - 1) as u64,
                )
            }),
            final(registry).same_but_readers(*old(registry)),
    {
        registry.remove_reader(self.version_id);
    }
}

/// What reached the worker.
#[derive(Clone, Copy, Debug, PartialEq, Eq, Structural)]
pub enum GcWorkerEvent {
    /// It is to stop.
    Shutdown,
    /// It is to run a cycle.
    RunCycle,
    /// There is a candidate.
    AddCandidate(GcCandidate),
    /// Nothing came; the last cycle was `since_cycle` ago.
    Timeout { since_cycle: u64 },
    /// Nothing can come any more.
    Disconnected,
}

/// What the worker is to do.
#[derive(Clone, Copy, Debug, PartialEq, Eq, Structural)]
pub enum GcWorkerAction {
    /// Stop.
    Stop,
    /// Run a cycle.
    RunCycle,
    /// Keep a candidate.
    Keep(GcCandidate),
    /// Wait on.
    Wait,
}

/// What the worker is to do about an event. After it, the worker stops if the
/// registry is being closed.
pub fn gc_worker_step(event: GcWorkerEvent, interval: u64) -> (r: GcWorkerAction)
    ensures
        r == match event {
            GcWorkerEvent::Shutdown => GcWorkerAction::Stop,
            GcWorkerEvent::Disconnected => GcWorkerAction::Stop,
            GcWorkerEvent::RunCycle => GcWorkerAction::RunCycle,
            GcWorkerEvent::AddCandidate(candidate) => GcWorkerAction::Keep(candidate),
            GcWorkerEvent::Timeout { since_cycle } => if since_cycle >= interval {
                GcWorkerAction::RunCycle
            } else {
                GcWorkerAction::Wait
            },
        },
{
    match event {
        GcWorkerEvent::Shutdown => GcWorkerAction::Stop,
        GcWorkerEvent::Disconnected => GcWorkerAction::Stop,
        GcWorkerEvent::RunCycle => GcWorkerAction::RunCycle,
        GcWorkerEvent::AddCandidate(candidate) => GcWorkerAction::Keep(candidate),
        GcWorkerEvent::Timeout { since_cycle } => if since_cycle >= interval {
            GcWorkerAction::RunCycle
        } else {
            GcWorkerAction::Wait
        },
    }
}

} // verus!
