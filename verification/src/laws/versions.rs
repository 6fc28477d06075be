//! Readers of versions, and the collection of versions that nobody reads.

use vstd::prelude::*;
use crate::version_gc::{
    bytes_of, gc_worker_step, past_grace, readers_of, versions_of, wrapped, CycleRules,
    GcCandidate, GcConfig, GcStats, GcWorkerAction, GcWorkerEvent, ReaderGuard, VersionGcRegistry,
};

verus! {

/// A call on a registry.
pub enum GcCall {
    AddReader(u64),
    RemoveReader(u64),
    AddCandidate { version_id: u64, root_ptr: u64, node_count: u64, now: u64 },
    Modify,
    Cycle { now: u64 },
    Duration(u64),
    Clear,
}

/// The call was made on the registry.
pub open spec fn made(registry: &mut VersionGcRegistry, call: GcCall) -> bool {
    match call {
        GcCall::AddReader(v) => call_ensures(VersionGcRegistry::add_reader, (registry, v), ()),
        GcCall::RemoveReader(v) => call_ensures(
            VersionGcRegistry::remove_reader,
            (registry, v),
            (),
        ),
        GcCall::AddCandidate { version_id, root_ptr, node_count, now } => call_ensures(
            VersionGcRegistry::add_gc_candidate,
            (registry, version_id, root_ptr, node_count, now),
            (),
        ),
        GcCall::Modify => call_ensures(VersionGcRegistry::record_modification, (registry,), ()),
        GcCall::Cycle { now } => exists|collected: Vec<u64>| #[trigger]
            call_ensures(VersionGcRegistry::run_gc_cycle_internal, (registry, now), collected),
        GcCall::Duration(d) => call_ensures(
            VersionGcRegistry::record_cycle_duration,
            (registry, d),
            (),
        ),
        GcCall::Clear => call_ensures(VersionGcRegistry::clear_candidates, (registry,), ()),
    }
}

/// How often a call was made.
pub open spec fn times(calls: Seq<GcCall>, call: GcCall) -> nat {
    calls.to_multiset().count(call)
}

/// The calls of a sequence of calls on registries.
pub open spec fn calls_of<'a>(steps: Seq<(&'a mut VersionGcRegistry, GcCall)>) -> Seq<GcCall> {
    Seq::new(steps.len(), |i: int| steps[i].1)
}

/// One more call counts once.
proof fn lemma_times_push(calls: Seq<GcCall>, call: GcCall, other: GcCall)
    ensures
        times(calls.push(call), other) == times(calls, other) + if call == other {
            1nat
        } else {
            0
        },
{
    broadcast use vstd::seq_lib::group_to_multiset_ensures;

}

/// Readers are counted exactly: after any calls on a new registry, in which no reader
/// of a version was taken back before it was added, the number of its readers is the
/// number of those that were added less those that were taken back.
pub proof fn readers_are_counted<'a>(
    config: GcConfig,
    start: VersionGcRegistry,
    steps: Seq<(&'a mut VersionGcRegistry, GcCall)>,
    end: VersionGcRegistry,
    v: u64,
    n: u64,
)
    requires
        call_ensures(VersionGcRegistry::new, (config,), start),
        forall|i: int| 0 <= i < steps.len() ==> made(#[trigger] steps[i].0, steps[i].1),
        forall|i: int| 0 <= i < steps.len() - 1 ==> *final(#[trigger] steps[i].0) == *steps[i + 1].0,
        steps.len() > 0 ==> *steps[0].0 == start && *final(steps[steps.len() - 1].0) == end,
        steps.len() == 0 ==> end == start,
        forall|i: int|
            0 <= i <= steps.len() ==> times(
                #[trigger] calls_of(steps).take(i),
                GcCall::RemoveReader(v),
            ) <= times(calls_of(steps).take(i), GcCall::AddReader(v)) < u64::MAX,
        call_ensures(VersionGcRegistry::reader_count, (&end, v), n),
    ensures
        n == times(calls_of(steps), GcCall::AddReader(v)) - times(
            calls_of(steps),
            GcCall::RemoveReader(v),
        ),
{
    let calls = calls_of(steps);
    lemma_readers(start, steps, end, v, steps.len());
    assert(calls.take(steps.len() as int) =~= calls);
}

/// The state of the readers after some calls.
proof fn lemma_readers<'a>(
    start: VersionGcRegistry,
    steps: Seq<(&'a mut VersionGcRegistry, GcCall)>,
    end: VersionGcRegistry,
    v: u64,
    k: nat,
)
    requires
        start.readers().dom() == Set::<u64>::empty(),
        forall|i: int| 0 <= i < steps.len() ==> made(#[trigger] steps[i].0, steps[i].1),
        forall|i: int| 0 <= i < steps.len() - 1 ==> *final(#[trigger] steps[i].0) == *steps[i + 1].0,
        steps.len() > 0 ==> *steps[0].0 == start && *final(steps[steps.len() - 1].0) == end,
        steps.len() == 0 ==> end == start,
        forall|i: int|
            0 <= i <= steps.len() ==> times(
                #[trigger] calls_of(steps).take(i),
                GcCall::RemoveReader(v),
            ) <= times(calls_of(steps).take(i), GcCall::AddReader(v)) < u64::MAX,
        k <= steps.len(),
    ensures
        ({
            let here = if k < steps.len() {
                *steps[k as int].0
            } else {
                end
            };
            let calls = calls_of(steps).take(k as int);
            readers_of(here.readers(), v) == times(calls, GcCall::AddReader(v)) - times(
                calls,
                GcCall::RemoveReader(v),
            )
        }),
    decreases k,
{
    let calls = calls_of(steps);
    if k == 0 {
        broadcast use vstd::seq_lib::group_to_multiset_ensures;

        assert(calls.take(0) =~= Seq::empty());
    } else {
        let m = k - 1;
        lemma_readers(start, steps, end, v, m as nat);
        let (registry, call) = steps[m];
        assert(made(steps[m].0, steps[m].1));
        assert(calls.take(k as int) =~= calls.take(m).push(call));
        lemma_times_push(calls.take(m), call, GcCall::AddReader(v));
        lemma_times_push(calls.take(m), call, GcCall::RemoveReader(v));
        assert(times(calls.take(m), GcCall::RemoveReader(v)) <= times(
            calls.take(m),
            GcCall::AddReader(v),
        ));
        assert(times(calls.take(k as int), GcCall::AddReader(v)) < u64::MAX);
        assert(*final(steps[m].0) == if k < steps.len() {
            *steps[k as int].0
        } else {
            end
        });
    }
}

/// Some of the positions of a list, in order.
pub open spec fn picks(p: Seq<int>, len: nat) -> bool {
    &&& forall|i: int| 0 <= i < p.len() ==> 0 <= #[trigger] p[i] < len
    &&& forall|i: int, j: int| 0 <= i < j < p.len() ==> #[trigger] p[i] < #[trigger] p[j]
}

/// A candidate has waited as long as it must.
pub open spec fn waited(candidate: GcCandidate, now: u64, grace_period: u64) -> bool {
    grace_period == 0 || candidate.eligible_since + grace_period <= now
}

/// A version has so many readers.
pub open spec fn has_count(registry: VersionGcRegistry, version_id: u64, n: u64) -> bool {
    forall|k: u64| #[trigger]
        call_ensures(VersionGcRegistry::reader_count, (&registry, version_id), k) ==> k == n
}

/// Somebody reads a version.
pub open spec fn is_read(registry: VersionGcRegistry, version_id: u64) -> bool {
    forall|k: u64| #[trigger]
        call_ensures(VersionGcRegistry::reader_count, (&registry, version_id), k) ==> k > 0
}

/// A difference modulo 2^64.
pub open spec fn grew_by(before: u64, after: u64, by: int) -> bool {
    (after - before - by) % 0x1_0000_0000_0000_0000 == 0
}

/// A sum.
pub open spec fn sum(numbers: Seq<int>) -> int {
    numbers.fold_left(0, |a: int, b: int| a + b)
}

/// The positions that a cycle picks, and those that it leaves.
proof fn lemma_picks(rules: CycleRules, c: Seq<GcCandidate>) -> (r: (Seq<int>, Seq<int>))
    requires
        rules.limit >= 0,
    ensures
        ({
            let (p, q) = r;
            let collected = rules.collected(c);
            let left = rules.left(c);
            &&& picks(p, c.len())
            &&& picks(q, c.len())
            &&& collected.len() == p.len() <= rules.limit
            &&& left.len() == q.len()
            &&& forall|i: int| 0 <= i < p.len() ==> #[trigger] collected[i] == c[p[i]]
            &&& forall|i: int| 0 <= i < q.len() ==> #[trigger] left[i] == c[q[i]]
            &&& forall|i: int| 0 <= i < p.len() ==> rules.collectable(#[trigger] collected[i])
            &&& forall|j: int| 0 <= j < c.len() ==> (p.contains(j) <==> !#[trigger] q.contains(j))
            &&& forall|j: int|
                0 <= j < c.len() && rules.collectable(#[trigger] c[j]) && !p.contains(j) ==> p.len()
                    == rules.limit && (p.len() > 0 ==> p.last() < j)
            &&& rules.skipped(c) == passed_over(rules, c, p).len()
            &&& passed_over(rules, c, p).finite()
            &&& bytes_of(collected) == sum(taken(c, p))
        }),
    decreases c.len(),
{
    if c.len() == 0 {
        let p = Seq::<int>::empty();
        assert(passed_over(rules, c, p) =~= Set::empty());
        assert(taken(c, p) =~= Seq::empty());
        (p, p)
    } else {
        let shorter = c.drop_last();
        let last = c.len() - 1;
        let (p, q) = lemma_picks(rules, shorter);
        let candidate = c.last();
        assert(c[last] == candidate);
        assert forall|j: int| 0 <= j < last implies #[trigger] c[j] == shorter[j] by {}
        assert(taken(c, p) =~= taken(shorter, p));
        assert(passed_over(rules, shorter, p) =~= passed_over(rules, c, p).remove(last)) by {
            assert forall|j: int| #[trigger]
                passed_over(rules, shorter, p).contains(j) == passed_over(rules, c, p).remove(
                    last,
                ).contains(j) by {}
        }
        let room = rules.collected(shorter).len() < rules.limit;
        if room && rules.collectable(candidate) {
            let more = p.push(last);
            assert(more.last() == last);
            assert forall|j: int| 0 <= j < c.len() implies (more.contains(j)
                <==> !#[trigger] q.contains(j)) by {
                if j < last {
                    if p.contains(j) {
                        let i = choose|i: int| 0 <= i < p.len() && p[i] == j;
                        assert(more[i] == j);
                    }
                    if more.contains(j) {
                        let i = choose|i: int| 0 <= i < more.len() && more[i] == j;
                        assert(p[i] == j);
                    }
                } else {
                    assert(more[p.len() as int] == last);
                    if q.contains(last) {
                        let i = choose|i: int| 0 <= i < q.len() && q[i] == last;
                        assert(q[i] < shorter.len());
                    }
                }
            }
            assert(passed_over(rules, c, more) =~= passed_over(rules, shorter, p)) by {
                assert forall|j: int| #[trigger]
                    passed_over(rules, c, more).contains(j) == passed_over(
                        rules,
                        shorter,
                        p,
                    ).contains(j) by {
                    if 0 <= j < last {
                        assert(c[j] == shorter[j]);
                    }
                }
            }
            assert forall|j: int|
                0 <= j < c.len() && rules.collectable(#[trigger] c[j])
                    && !more.contains(j) implies more.len() == rules.limit && (more.len() > 0
                ==> more.last() < j) by {
                assert(more[p.len() as int] == last);
                if j < last {
                    assert(!p.contains(j)) by {
                        if p.contains(j) {
                            let i = choose|i: int| 0 <= i < p.len() && p[i] == j;
                            assert(more[i] == j);
                        }
                    }
                    assert(rules.collectable(shorter[j]));
                }
            }
            assert(taken(c, more) =~= taken(c, p).push(candidate.node_count * 200));
            assert(taken(c, more).drop_last() =~= taken(c, p));
            let collected = rules.collected(c);
            assert(collected.drop_last() =~= rules.collected(shorter));
            (more, q)
        } else {
            let more = q.push(last);
            assert forall|j: int| 0 <= j < c.len() implies (p.contains(j)
                <==> !#[trigger] more.contains(j)) by {
                if j < last {
                    if q.contains(j) {
                        let i = choose|i: int| 0 <= i < q.len() && q[i] == j;
                        assert(more[i] == j);
                    }
                    if more.contains(j) {
                        let i = choose|i: int| 0 <= i < more.len() && more[i] == j;
                        assert(q[i] == j);
                    }
                } else {
                    assert(more[q.len() as int] == last);
                    if p.contains(last) {
                        let i = choose|i: int| 0 <= i < p.len() && p[i] == last;
                        assert(p[i] < shorter.len());
                    }
                }
            }
            assert forall|j: int|
                0 <= j < c.len() && rules.collectable(#[trigger] c[j])
                    && !p.contains(j) implies p.len() == rules.limit && (p.len() > 0 ==> p.last()
                < j) by {
                if j < last {
                    assert(rules.collectable(shorter[j]));
                } else if p.len() > 0 {
                    assert(p[p.len() - 1] < shorter.len());
                }
            }
            if p.len() > 0 {
                assert(p[p.len() - 1] < shorter.len());
            }
            if passed_over(rules, c, p).contains(last) {
                assert(passed_over(rules, c, p) =~= passed_over(rules, shorter, p).insert(last));
            } else {
                assert(passed_over(rules, c, p) =~= passed_over(rules, shorter, p));
            }
            (p, more)
        }
    }
}

/// The positions of the candidates that were passed over because somebody reads them,
/// while more could be picked.
pub open spec fn passed_over(rules: CycleRules, c: Seq<GcCandidate>, p: Seq<int>) -> Set<int> {
    Set::new(
        |j: int|
            0 <= j < c.len() && past_grace(c[j], rules.now, rules.grace_period) && readers_of(
                rules.readers,
                c[j].version_id,
            ) > 0 && (p.len() < rules.limit || (p.len() > 0 && j < p.last())),
    )
}

/// The estimated bytes of the picked candidates.
pub open spec fn taken(c: Seq<GcCandidate>, p: Seq<int>) -> Seq<int> {
    Seq::new(p.len(), |i: int| c[p[i]].node_count * 200)
}

/// The positions of the candidates that have waited long enough and were passed over
/// because somebody reads them, while more could be collected.
pub open spec fn skipped_at(
    before: VersionGcRegistry,
    now: u64,
    p: Seq<int>,
    most: int,
    spare: int,
) -> Set<int> {
    let c = before.candidates();
    Set::new(
        |j: int|
            0 <= j < c.len() && waited(c[j], now, before.settings().grace_period)
                && before.readers().dom().contains(c[j].version_id)
                && before.readers()[c[j].version_id] > 0 && ((p.len() < most && p.len() < spare)
                || (p.len() > 0 && j < p.last())),
    )
}

/// A cycle collected the candidates at the positions `p` and left those at `q`.
pub open spec fn collected_at(
    before: VersionGcRegistry,
    after: VersionGcRegistry,
    now: u64,
    collected: Seq<u64>,
    p: Seq<int>,
    q: Seq<int>,
) -> bool {
    let c = before.candidates();
    let grace = before.settings().grace_period;
    let spare = c.len() - before.settings().min_retained_versions;
    let most = before.settings().max_gc_per_cycle as int;
    let (was, is) = (before.statistics(), after.statistics());
    &&& picks(p, c.len())
    &&& picks(q, c.len())
    &&& forall|j: int|
        0 <= j < c.len() ==> (p.contains(j) <==> !#[trigger] q.contains(j))
    &&& collected.len() == p.len() <= most
    &&& p.len() <= spare
    &&& forall|i: int|
        0 <= i < p.len() ==> {
            let candidate = #[trigger] c[p[i]];
            &&& collected[i] == candidate.version_id
            &&& waited(candidate, now, grace)
            &&& has_count(before, candidate.version_id, 0)
        }
    &&& forall|j: int|
        0 <= j < c.len() && !p.contains(j) && waited(#[trigger] c[j], now, grace)
            && !is_read(before, c[j].version_id) ==> (p.len() == most || p.len()
            == spare) && (p.len() > 0 ==> p.last() < j)
    &&& after.candidates().len() == q.len()
    &&& forall|i: int|
        0 <= i < q.len() ==> #[trigger] after.candidates()[i] == c[q[i]]
    &&& grew_by(was.cycles_run, is.cycles_run, 1)
    &&& grew_by(
        was.versions_collected,
        is.versions_collected,
        p.len() as int,
    )
    &&& grew_by(was.bytes_reclaimed, is.bytes_reclaimed, sum(taken(c, p)))
    &&& forall|k: usize| #[trigger]
        call_ensures(VersionGcRegistry::pending_count, (&after,), k) ==> is.pending_candidates == k
    &&& is.versions_with_readers == before.readers().dom().len() as usize
    &&& grew_by(
        was.versions_skipped,
        is.versions_skipped,
        skipped_at(before, now, p, most, spare).len() as int,
    )
    &&& is.last_cycle_duration == was.last_cycle_duration
}

/// What a cycle collects: of the candidates that have waited long enough and that
/// nobody reads, the oldest, and all of them unless it has collected as many as it may:
/// no more than the settings allow, and not so many that fewer are left than are to be
/// kept. The others stay, in their order. It counts what it did.
pub proof fn a_cycle_collects_the_oldest_unread(
    registry: &mut VersionGcRegistry,
    before: VersionGcRegistry,
    after: VersionGcRegistry,
    now: u64,
    collected: Vec<u64>,
)
    requires
        *registry == before,
        *final(registry) == after,
        call_ensures(VersionGcRegistry::run_gc_cycle_internal, (registry, now), collected),
        before.modifications() != 0,
        before.candidates().len() > before.settings().min_retained_versions,
    ensures
        exists|p: Seq<int>, q: Seq<int>| #[trigger]
            collected_at(before, after, now, collected@, p, q),
        after.modifications() == 0,
        after.settings() == before.settings(),
        forall|v: u64, n: u64, k: u64|
            #[trigger] call_ensures(VersionGcRegistry::reader_count, (&before, v), n)
                && #[trigger] call_ensures(
                VersionGcRegistry::reader_count,
                (&after, v),
                k,
            ) ==> n == k,
{
    let c = before.candidates();
    let rules = before.rules(now);
    let (p, q) = lemma_picks(rules, c);
    let was = before.statistics();
    assert(versions_of(rules.collected(c)).len() == p.len());
    assert forall|i: int| 0 <= i < p.len() implies {
        let candidate = #[trigger] c[p[i]];
        &&& collected@[i] == candidate.version_id
        &&& waited(candidate, now, rules.grace_period)
        &&& has_count(before, candidate.version_id, 0)
    } by {
        assert(rules.collected(c)[i] == c[p[i]]);
        assert(rules.collectable(rules.collected(c)[i]));
    }
    assert forall|j: int|
        0 <= j < c.len() && !p.contains(j) && waited(#[trigger] c[j], now, rules.grace_period)
            && !is_read(before, c[j].version_id) implies p.len() == rules.limit && (p.len() > 0
        ==> p.last() < j) by {
        assert(rules.collectable(c[j]));
    }
    assert(skipped_at(
        before,
        now,
        p,
        before.settings().max_gc_per_cycle as int,
        c.len() - before.settings().min_retained_versions,
    ) =~= passed_over(rules, c, p));
    lemma_grew(was.versions_skipped, rules.skipped(c) as int);
    lemma_grew(was.cycles_run, 1);
    lemma_grew(was.versions_collected, p.len() as int);
    lemma_grew(was.bytes_reclaimed, bytes_of(rules.collected(c)) as int);
    assert(collected_at(before, after, now, collected@, p, q));
}

/// Adding modulo 2^64.
proof fn lemma_grew(before: u64, by: int)
    requires
        by >= 0,
    ensures
        grew_by(before, wrapped(before + by), by),
{
    let m = 0x1_0000_0000_0000_0000int;
    let total = before + by;
    vstd::arithmetic::div_mod::lemma_fundamental_div_mod(total, m);
    let d = total / m;
    assert(wrapped(total) - before - by == -(m * d));
    assert((-(m * d)) % m == 0) by {
        vstd::arithmetic::div_mod::lemma_mod_multiples_basic(-d, m);
        assert((-d) * m == -(m * d)) by (nonlinear_arith);
    }
}

/// A cycle does nothing if nothing was modified since the last one, or if no more
/// candidates are there than are to be kept.
pub proof fn an_idle_cycle_does_nothing(
    registry: &mut VersionGcRegistry,
    before: VersionGcRegistry,
    after: VersionGcRegistry,
    now: u64,
    collected: Vec<u64>,
)
    requires
        *registry == before,
        *final(registry) == after,
        call_ensures(VersionGcRegistry::run_gc_cycle_internal, (registry, now), collected),
        before.modifications() == 0 || before.candidates().len()
            <= before.settings().min_retained_versions,
    ensures
        collected@.len() == 0,
        after.candidates() == before.candidates(),
        after.readers() == before.readers(),
        after.settings() == before.settings(),
        after.modifications() == before.modifications(),
        after.statistics() == before.statistics(),
{
}

/// A version that somebody reads is not collected, whatever calls came before: the
/// readers that were added and not taken back keep it.
pub proof fn a_read_version_is_not_collected<'a>(
    config: GcConfig,
    start: VersionGcRegistry,
    steps: Seq<(&'a mut VersionGcRegistry, GcCall)>,
    end: VersionGcRegistry,
    cycle: &mut VersionGcRegistry,
    now: u64,
    collected: Vec<u64>,
    v: u64,
)
    requires
        call_ensures(VersionGcRegistry::new, (config,), start),
        forall|i: int| 0 <= i < steps.len() ==> made(#[trigger] steps[i].0, steps[i].1),
        forall|i: int| 0 <= i < steps.len() - 1 ==> *final(#[trigger] steps[i].0) == *steps[i + 1].0,
        steps.len() > 0 ==> *steps[0].0 == start && *final(steps[steps.len() - 1].0) == end,
        steps.len() == 0 ==> end == start,
        forall|i: int|
            0 <= i <= steps.len() ==> times(
                #[trigger] calls_of(steps).take(i),
                GcCall::RemoveReader(v),
            ) <= times(calls_of(steps).take(i), GcCall::AddReader(v)) < u64::MAX,
        *cycle == end,
        call_ensures(VersionGcRegistry::run_gc_cycle_internal, (cycle, now), collected),
        collected@.contains(v),
    ensures
        times(calls_of(steps), GcCall::AddReader(v)) == times(
            calls_of(steps),
            GcCall::RemoveReader(v),
        ),
{
    let calls = calls_of(steps);
    lemma_readers(start, steps, end, v, steps.len());
    assert(calls.take(steps.len() as int) =~= calls);
    let rules = end.rules(now);
    let i = choose|i: int| 0 <= i < collected@.len() && collected@[i] == v;
    crate::version_gc::collected_versions_have_no_readers(rules, end.candidates(), i);
}

/// What a new registry is: without readers, candidates, modifications and statistics,
/// with the settings that it was given.
pub proof fn a_new_registry_is_empty(
    config: GcConfig,
    registry: VersionGcRegistry,
    v: u64,
    n: u64,
    pending: usize,
    stats: GcStats,
)
    requires
        call_ensures(VersionGcRegistry::new, (config,), registry),
        call_ensures(VersionGcRegistry::reader_count, (&registry, v), n),
        call_ensures(VersionGcRegistry::pending_count, (&registry,), pending),
        call_ensures(VersionGcRegistry::stats, (&registry,), stats),
    ensures
        n == 0,
        pending == 0,
        registry.candidates().len() == 0,
        registry.settings() == config,
        registry.modifications() == 0,
        stats == registry.statistics(),
        stats.cycles_run == 0,
        stats.versions_collected == 0,
        stats.versions_skipped == 0,
        stats.bytes_reclaimed == 0,
        stats.last_cycle_duration == 0,
        stats.pending_candidates == 0,
        stats.versions_with_readers == 0,
{
}

/// A candidate waits behind all that were there: it may be collected from the time on
/// that it was given, and nothing else changes.
pub proof fn a_candidate_waits_last(
    registry: &mut VersionGcRegistry,
    before: VersionGcRegistry,
    after: VersionGcRegistry,
    version_id: u64,
    root_ptr: u64,
    node_count: u64,
    now: u64,
    listed: Vec<u64>,
    then: Vec<u64>,
)
    requires
        *registry == before,
        *final(registry) == after,
        call_ensures(
            VersionGcRegistry::add_gc_candidate,
            (registry, version_id, root_ptr, node_count, now),
            (),
        ),
        call_ensures(VersionGcRegistry::pending_versions, (&before,), listed),
        call_ensures(VersionGcRegistry::pending_versions, (&after,), then),
    ensures
        then@ == listed@.push(version_id),
        listed@.len() == before.candidates().len(),
        forall|i: int|
            0 <= i < listed@.len() ==> #[trigger] listed@[i] == before.candidates()[i].version_id,
        forall|i: int|
            0 <= i < listed@.len() ==> #[trigger] after.candidates()[i] == before.candidates()[i],
        after.candidates().last().version_id == version_id,
        after.candidates().last().root_ptr == root_ptr,
        after.candidates().last().node_count == node_count,
        after.candidates().last().eligible_since == now,
        after.readers() == before.readers(),
        after.settings() == before.settings(),
        after.modifications() == before.modifications(),
        after.statistics() == before.statistics(),
{
    assert(then@ =~= listed@.push(version_id));
}

/// A modification counts once, and changes nothing else.
pub proof fn a_modification_counts_once(
    registry: &mut VersionGcRegistry,
    before: VersionGcRegistry,
    after: VersionGcRegistry,
)
    requires
        *registry == before,
        *final(registry) == after,
        call_ensures(VersionGcRegistry::record_modification, (registry,), ()),
    ensures
        grew_by(before.modifications(), after.modifications(), 1),
        before.modifications() < u64::MAX ==> after.modifications() == before.modifications() + 1,
        after.candidates() == before.candidates(),
        after.readers() == before.readers(),
        after.settings() == before.settings(),
        after.statistics() == before.statistics(),
{
    lemma_grew(before.modifications(), 1);
}

/// Forgetting the candidates keeps everything else, and how long a cycle took is what
/// is reported of it.
pub proof fn clearing_and_timing_change_one_thing(
    cleared: &mut VersionGcRegistry,
    timed: &mut VersionGcRegistry,
    before: VersionGcRegistry,
    empty: VersionGcRegistry,
    after: VersionGcRegistry,
    duration: u64,
    pending: usize,
    stats: GcStats,
)
    requires
        *cleared == before,
        *final(cleared) == empty,
        call_ensures(VersionGcRegistry::clear_candidates, (cleared,), ()),
        *timed == before,
        *final(timed) == after,
        call_ensures(VersionGcRegistry::record_cycle_duration, (timed, duration), ()),
        call_ensures(VersionGcRegistry::pending_count, (&empty,), pending),
        call_ensures(VersionGcRegistry::stats, (&after,), stats),
    ensures
        pending == 0,
        empty.candidates().len() == 0,
        empty.readers() == before.readers(),
        empty.settings() == before.settings(),
        empty.modifications() == before.modifications(),
        empty.statistics() == before.statistics(),
        stats.last_cycle_duration == duration,
        stats == (GcStats {
            last_cycle_duration: stats.last_cycle_duration,
            ..before.statistics()
        }),
        after.candidates() == before.candidates(),
        after.readers() == before.readers(),
        after.settings() == before.settings(),
        after.modifications() == before.modifications(),
{
}

/// A reader that is held counts as one more reader of its version, and of no other;
/// when it is released, the counts are what they were.
pub proof fn a_held_reader_counts_until_released(
    taken: &mut VersionGcRegistry,
    released: &mut VersionGcRegistry,
    before: VersionGcRegistry,
    during: VersionGcRegistry,
    after: VersionGcRegistry,
    guard: ReaderGuard,
    version_id: u64,
    read: u64,
    v: u64,
    a: u64,
    b: u64,
    c: u64,
    some: bool,
    n: u64,
)
    requires
        call_ensures(VersionGcRegistry::reader_count, (&before, version_id), n),
        n < u64::MAX,
        *taken == before,
        *final(taken) == during,
        *released == during,
        *final(released) == after,
        call_ensures(ReaderGuard::new, (version_id, taken), guard),
        call_ensures(ReaderGuard::version_id, (&guard,), read),
        call_ensures(ReaderGuard::release, (guard, released), ()),
        call_ensures(VersionGcRegistry::reader_count, (&before, v), a),
        call_ensures(VersionGcRegistry::reader_count, (&during, v), b),
        call_ensures(VersionGcRegistry::reader_count, (&after, v), c),
        call_ensures(VersionGcRegistry::has_readers, (&during, v), some),
    ensures
        read == version_id,
        v == version_id ==> b == a + 1,
        v != version_id ==> b == a,
        c == a,
        some <==> b > 0,
        during.candidates() == before.candidates(),
        after.candidates() == before.candidates(),
        after.statistics() == before.statistics(),
        after.settings() == before.settings(),
        after.modifications() == before.modifications(),
{
}

/// What a worker does about an event: it stops when it is told to or when nothing can
/// come any more, keeps each candidate as it came, and runs a cycle when it is told to
/// or when the interval has passed; a longer wait never makes it wait on.
pub proof fn a_worker_stops_keeps_and_runs(
    event: GcWorkerEvent,
    interval: u64,
    action: GcWorkerAction,
    later: u64,
    then: GcWorkerAction,
)
    requires
        call_ensures(gc_worker_step, (event, interval), action),
        call_ensures(
            gc_worker_step,
            (GcWorkerEvent::Timeout { since_cycle: later }, interval),
            then,
        ),
    ensures
        action == GcWorkerAction::Stop <==> event is Shutdown || event is Disconnected,
        action is Keep <==> event is AddCandidate,
        event matches GcWorkerEvent::AddCandidate(candidate) ==> action->Keep_0 == candidate,
        event is RunCycle ==> action == GcWorkerAction::RunCycle,
        event matches GcWorkerEvent::Timeout { since_cycle } ==> {
            &&& action == GcWorkerAction::RunCycle <==> interval <= since_cycle
            &&& action == GcWorkerAction::RunCycle || action == GcWorkerAction::Wait
            &&& since_cycle <= later && action == GcWorkerAction::RunCycle ==> then
                == GcWorkerAction::RunCycle
        },
{
}

/// By default there is a cycle each second, five versions are kept, and a version waits
/// five seconds; with many versions there are two cycles each second, ten are kept, and a
/// version waits two. Short times are a tenth of a second, two are kept, and no thread
/// runs. Each cycle collects ten, fifty or five.
pub proof fn settings_are_made_as_named(usual: GcConfig, many: GcConfig, short: GcConfig)
    requires
        call_ensures(GcConfig::default, (), usual),
        call_ensures(GcConfig::high_throughput, (), many),
        call_ensures(GcConfig::for_testing, (), short),
    ensures
        usual.gc_interval == 1_000_000_000 && usual.grace_period == 5 * usual.gc_interval,
        usual.min_retained_versions == 5 && usual.max_retained_versions == 100,
        usual.max_gc_per_cycle == 10 && usual.background_gc,
        2 * many.gc_interval == usual.gc_interval && many.grace_period == 2 * usual.gc_interval,
        many.min_retained_versions == 10 && many.max_retained_versions == 1000,
        many.max_gc_per_cycle == 50 && many.background_gc,
        10 * short.gc_interval == usual.gc_interval && short.grace_period == short.gc_interval,
        short.min_retained_versions == 2 && short.max_retained_versions == 10,
        short.max_gc_per_cycle == 5 && !short.background_gc,
{
}

} // verus!
