//! The durable frontier: a record is durable when it and all before it are.

use vstd::prelude::*;
use crate::wal::frontier::{frontier_is_the_unbroken_run, run_of, SegmentFrontier, WaitVerdict};
use crate::wal::writer::WalWriter;
use crate::wal::Lsn;

verus! {

/// What came of the publication of a record.
pub struct Publication {
    pub lsn: Lsn,
    pub published: bool,
}

/// The frontier is told what came of a publication.
pub open spec fn told(frontier: &mut SegmentFrontier, what: Publication) -> bool {
    &&& what.lsn < Lsn::MAX
    &&& if what.published {
        call_ensures(SegmentFrontier::mark_segment_durable, (frontier, what.lsn), ())
    } else {
        call_ensures(SegmentFrontier::mark_segment_failed, (frontier, what.lsn), ())
    }
}

/// A record was published.
pub open spec fn was_published(all: Seq<Publication>, lsn: Lsn) -> bool {
    exists|i: int| 0 <= i < all.len() && #[trigger] all[i] == (Publication { lsn, published: true })
}

/// A record failed to be published.
pub open spec fn has_failed(all: Seq<Publication>, lsn: Lsn) -> bool {
    exists|i: int| 0 <= i < all.len() && #[trigger] all[i] == (Publication { lsn, published: false })
}

/// What a writer that waits for a record is told, after some publications on a log that
/// was durable up to an LSN: that it is durable exactly if that record and every one
/// between was published; that a record failed exactly if it is not durable and the one
/// that is named is the lowest that failed, not above it; and to wait otherwise.
pub open spec fn rightly_told(
    base: Lsn,
    all: Seq<Publication>,
    lsn: Lsn,
    verdict: WaitVerdict,
) -> bool {
    let durable = forall|k: Lsn| base < k && k <= lsn ==> #[trigger] was_published(all, k);
    &&& verdict == WaitVerdict::Durable <==> durable
    &&& verdict matches WaitVerdict::Failed(failed) ==> failed <= lsn && has_failed(all, failed)
        && forall|k: Lsn| #[trigger] has_failed(all, k) ==> failed <= k
    &&& verdict == WaitVerdict::Wait <==> !durable && forall|k: Lsn| #[trigger]
        has_failed(all, k) ==> lsn < k
}

/// The publications that were reported.
pub open spec fn reported<'a>(steps: Seq<(&'a mut SegmentFrontier, Publication)>) -> Seq<
    Publication,
> {
    Seq::new(steps.len(), |i: int| steps[i].1)
}

/// After any publications, in any order, a writer that waits for a record is told
/// rightly.
pub proof fn a_record_is_durable_with_all_before_it<'a>(
    base: Lsn,
    start: SegmentFrontier,
    steps: Seq<(&'a mut SegmentFrontier, Publication)>,
    end: SegmentFrontier,
    lsn: Lsn,
    verdict: WaitVerdict,
)
    requires
        base < Lsn::MAX,
        lsn < Lsn::MAX,
        call_ensures(SegmentFrontier::new, (base,), start),
        forall|i: int| 0 <= i < steps.len() ==> told(#[trigger] steps[i].0, steps[i].1),
        forall|i: int| 0 <= i < steps.len() - 1 ==> *final(#[trigger] steps[i].0) == *steps[i + 1].0,
        steps.len() > 0 ==> *steps[0].0 == start && *final(steps[steps.len() - 1].0) == end,
        steps.len() == 0 ==> end == start,
        call_ensures(SegmentFrontier::wait_for_segment_durable_lsn, (&end, lsn), verdict),
    ensures
        rightly_told(base, reported(steps), lsn, verdict),
{
    lemma_keeps(base, start, steps, end, steps.len());
    assert(reported(steps).take(steps.len() as int) =~= reported(steps));
    lemma_rightly_told(base, reported(steps), end, lsn, verdict);
}

/// The LSNs that were published.
spec fn published_set(all: Seq<Publication>) -> Set<Lsn>
    decreases all.len(),
{
    if all.len() == 0 {
        Set::empty()
    } else if all.last().published {
        published_set(all.drop_last()).insert(all.last().lsn)
    } else {
        published_set(all.drop_last())
    }
}

/// The lowest LSN that failed.
spec fn lowest_failed(all: Seq<Publication>) -> Lsn
    decreases all.len(),
{
    if all.len() == 0 {
        Lsn::MAX
    } else if !all.last().published && all.last().lsn < lowest_failed(all.drop_last()) {
        all.last().lsn
    } else {
        lowest_failed(all.drop_last())
    }
}

/// The frontier has taken note of some publications.
spec fn keeps(frontier: SegmentFrontier, base: Lsn, all: Seq<Publication>) -> bool {
    &&& frontier.tracks(base, published_set(all))
    &&& frontier.failed_lsn == lowest_failed(all)
}

/// What was published is in the set of it, and what failed is not below the lowest.
proof fn lemma_sets(all: Seq<Publication>)
    ensures
        forall|k: Lsn| #[trigger] published_set(all).contains(k) <==> was_published(all, k),
        forall|k: Lsn| #[trigger] has_failed(all, k) ==> lowest_failed(all) <= k,
        lowest_failed(all) < Lsn::MAX ==> has_failed(all, lowest_failed(all)),
    decreases all.len(),
{
    if all.len() > 0 {
        let fewer = all.drop_last();
        lemma_sets(fewer);
        let last = all.last();
        let m = all.len() - 1;
        assert(all[m] == last);
        assert forall|k: Lsn| #[trigger] published_set(all).contains(k) <==> was_published(
            all,
            k,
        ) by {
            assert(published_set(fewer).contains(k) <==> was_published(fewer, k));
            if last.published && last.lsn == k {
                assert(all[m] == (Publication { lsn: k, published: true }));
            }
            if was_published(fewer, k) {
                let i = choose|i: int|
                    0 <= i < fewer.len() && #[trigger] fewer[i] == (Publication {
                        lsn: k,
                        published: true,
                    });
                assert(all[i] == fewer[i]);
            }
            if was_published(all, k) {
                let i = choose|i: int|
                    0 <= i < all.len() && #[trigger] all[i] == (Publication {
                        lsn: k,
                        published: true,
                    });
                if i < m {
                    assert(fewer[i] == all[i]);
                }
            }
        }
        assert forall|k: Lsn| #[trigger] has_failed(all, k) implies lowest_failed(all) <= k by {
            let i = choose|i: int|
                0 <= i < all.len() && #[trigger] all[i] == (Publication {
                    lsn: k,
                    published: false,
                });
            if i < m {
                assert(fewer[i] == all[i]);
                assert(has_failed(fewer, k));
            }
        }
        if lowest_failed(fewer) < Lsn::MAX {
            let k = lowest_failed(fewer);
            let i = choose|i: int|
                0 <= i < fewer.len() && #[trigger] fewer[i] == (Publication {
                    lsn: k,
                    published: false,
                });
            assert(all[i] == fewer[i]);
        }
    }
}

/// What a writer is told by a frontier that has taken note of all publications.
proof fn lemma_rightly_told(
    base: Lsn,
    all: Seq<Publication>,
    frontier: SegmentFrontier,
    lsn: Lsn,
    verdict: WaitVerdict,
)
    requires
        keeps(frontier, base, all),
        lsn < Lsn::MAX,
        verdict == (if frontier.durable_lsn >= lsn {
            WaitVerdict::Durable
        } else if frontier.failed_lsn <= lsn {
            WaitVerdict::Failed(frontier.failed_lsn)
        } else {
            WaitVerdict::Wait
        }),
    ensures
        rightly_told(base, all, lsn, verdict),
{
    lemma_sets(all);
    let marked = published_set(all);
    if base <= lsn {
        frontier_is_the_unbroken_run(frontier, base, marked, lsn);
    }
    if run_of(marked, base, lsn) {
        assert forall|k: Lsn| base < k && k <= lsn implies #[trigger] was_published(all, k) by {
            assert(marked.contains(k));
        }
    }
    if forall|k: Lsn| base < k && k <= lsn ==> #[trigger] was_published(all, k) {
        assert forall|k: Lsn| base < k && k <= lsn implies #[trigger] marked.contains(k) by {
            assert(was_published(all, k));
        }
        assert(run_of(marked, base, lsn));
    }
}

/// The frontier takes note of each publication.
proof fn lemma_keeps<'a>(
    base: Lsn,
    start: SegmentFrontier,
    steps: Seq<(&'a mut SegmentFrontier, Publication)>,
    end: SegmentFrontier,
    k: nat,
)
    requires
        base < Lsn::MAX,
        keeps(start, base, Seq::empty()),
        forall|i: int| 0 <= i < steps.len() ==> told(#[trigger] steps[i].0, steps[i].1),
        forall|i: int| 0 <= i < steps.len() - 1 ==> *final(#[trigger] steps[i].0) == *steps[i + 1].0,
        steps.len() > 0 ==> *steps[0].0 == start && *final(steps[steps.len() - 1].0) == end,
        steps.len() == 0 ==> end == start,
        k <= steps.len(),
    ensures
        keeps(
            if k < steps.len() {
                *steps[k as int].0
            } else {
                end
            },
            base,
            reported(steps).take(k as int),
        ),
    decreases k,
{
    let all = reported(steps);
    if k == 0 {
        assert(all.take(0) =~= Seq::empty());
    } else {
        let m = k - 1;
        lemma_keeps(base, start, steps, end, m as nat);
        assert(told(steps[m].0, steps[m].1));
        let more = all.take(k as int);
        assert(more.drop_last() =~= all.take(m));
        assert(more.last() == steps[m].1);
        let before = *steps[m].0;
        let after = *final(steps[m].0);
        assert(after == if k < steps.len() {
            *steps[k as int].0
        } else {
            end
        });
        assert(before.tracks(base, published_set(all.take(m))));
        if !before.pending@.contains(Lsn::MAX) && !steps[m].1.published {
            assert(after.tracks(base, published_set(more)));
        }
    }
}

/// The writer of a log is told what came of a publication, and answers whoever waits.
pub open spec fn finished(writer: &mut WalWriter, what: Publication, verdict: WaitVerdict) -> bool {
    &&& what.lsn < Lsn::MAX
    &&& call_ensures(
        WalWriter::finish_record_segment,
        (writer, what.lsn, what.published),
        verdict,
    )
}

/// The publications that a writer was told of.
pub open spec fn finished_all<'a>(
    steps: Seq<(&'a mut WalWriter, Publication, WaitVerdict)>,
) -> Seq<Publication> {
    Seq::new(steps.len(), |i: int| steps[i].1)
}

/// After any publications on a log that was opened, in any order, the writer of each
/// record is told rightly, and nothing but the frontier changes.
pub proof fn each_writer_is_told_rightly<'a>(
    base: Lsn,
    start: WalWriter,
    steps: Seq<(&'a mut WalWriter, Publication, WaitVerdict)>,
    end: WalWriter,
)
    requires
        base < Lsn::MAX,
        start.frontier.durable_lsn == base,
        start.frontier.pending@ == Set::<Lsn>::empty(),
        start.frontier.failed_lsn == Lsn::MAX,
        forall|i: int|
            0 <= i < steps.len() ==> finished(#[trigger] steps[i].0, steps[i].1, steps[i].2),
        forall|i: int| 0 <= i < steps.len() - 1 ==> *final(#[trigger] steps[i].0) == *steps[i + 1].0,
        steps.len() > 0 ==> *steps[0].0 == start && *final(steps[steps.len() - 1].0) == end,
        steps.len() == 0 ==> end == start,
    ensures
        forall|i: int|
            0 <= i < steps.len() ==> rightly_told(
                base,
                #[trigger] finished_all(steps).take(i + 1),
                finished_all(steps)[i].lsn,
                steps[i].2,
            ),
        end.next_lsn == start.next_lsn,
        end.synced_lsn == start.synced_lsn,
        end.segment_next_offset == start.segment_next_offset,
        end.header == start.header,
{
    assert forall|i: int| 0 <= i < steps.len() implies rightly_told(
        base,
        #[trigger] finished_all(steps).take(i + 1),
        finished_all(steps)[i].lsn,
        steps[i].2,
    ) by {
        lemma_finished(base, start, steps, end, (i + 1) as nat);
        assert(finished(steps[i].0, steps[i].1, steps[i].2));
        lemma_finished(base, start, steps, end, i as nat);
        let after = *final(steps[i].0);
        assert(after == if i + 1 < steps.len() {
            *steps[i + 1].0
        } else {
            end
        });
        assert(steps[i].0.frontier.tracks(base, published_set(finished_all(steps).take(i))));
        lemma_rightly_told(
            base,
            finished_all(steps).take(i + 1),
            after.frontier,
            steps[i].1.lsn,
            steps[i].2,
        );
    }
    lemma_finished(base, start, steps, end, steps.len());
}

/// The frontier of a writer takes note of each publication.
proof fn lemma_finished<'a>(
    base: Lsn,
    start: WalWriter,
    steps: Seq<(&'a mut WalWriter, Publication, WaitVerdict)>,
    end: WalWriter,
    k: nat,
)
    requires
        base < Lsn::MAX,
        start.frontier.durable_lsn == base,
        start.frontier.pending@ == Set::<Lsn>::empty(),
        start.frontier.failed_lsn == Lsn::MAX,
        forall|i: int|
            0 <= i < steps.len() ==> finished(#[trigger] steps[i].0, steps[i].1, steps[i].2),
        forall|i: int| 0 <= i < steps.len() - 1 ==> *final(#[trigger] steps[i].0) == *steps[i + 1].0,
        steps.len() > 0 ==> *steps[0].0 == start && *final(steps[steps.len() - 1].0) == end,
        steps.len() == 0 ==> end == start,
        k <= steps.len(),
    ensures
        ({
            let here = if k < steps.len() {
                *steps[k as int].0
            } else {
                end
            };
            &&& keeps(here.frontier, base, finished_all(steps).take(k as int))
            &&& here.next_lsn == start.next_lsn
            &&& here.synced_lsn == start.synced_lsn
            &&& here.segment_next_offset == start.segment_next_offset
            &&& here.header == start.header
        }),
    decreases k,
{
    let all = finished_all(steps);
    if k == 0 {
        assert(all.take(0) =~= Seq::empty());
    } else {
        let m = k - 1;
        lemma_finished(base, start, steps, end, m as nat);
        assert(finished(steps[m].0, steps[m].1, steps[m].2));
        let more = all.take(k as int);
        assert(more.drop_last() =~= all.take(m));
        assert(more.last() == steps[m].1);
        let before = steps[m].0.frontier;
        let after = *final(steps[m].0);
        assert(after == if k < steps.len() {
            *steps[k as int].0
        } else {
            end
        });
        assert(before.tracks(base, published_set(all.take(m))));
    }
}

/// The frontier rises to what is known to be durable and no further, and never falls.
pub proof fn a_frontier_is_raised(
    frontier: &mut SegmentFrontier,
    before: SegmentFrontier,
    after: SegmentFrontier,
    low: Lsn,
    lsn: Lsn,
    was: WaitVerdict,
    is: WaitVerdict,
)
    requires
        *frontier == before,
        *final(frontier) == after,
        call_ensures(SegmentFrontier::raise, (frontier, low), ()),
        call_ensures(SegmentFrontier::wait_for_segment_durable_lsn, (&before, lsn), was),
        call_ensures(SegmentFrontier::wait_for_segment_durable_lsn, (&after, lsn), is),
    ensures
        is == WaitVerdict::Durable <==> was == WaitVerdict::Durable || lsn <= low,
        lsn > low ==> is == was,
{
}

} // verus!
