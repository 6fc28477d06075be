//! The contiguous durable frontier: records may become durable in any order, but
//! only an unbroken run of them counts.

use std::collections::BTreeSet;
use vstd::prelude::*;
use super::Lsn;

verus! {

broadcast use {vstd::std_specs::btree::group_btree_axioms, vstd::laws_cmp::group_laws_cmp};

/// The highest LSN up to which every record is durable, the durable LSNs above a
/// gap, and the lowest LSN whose record could not be published.
pub struct SegmentFrontier {
    pub durable_lsn: Lsn,
    pub pending: BTreeSet<Lsn>,
    pub failed_lsn: Lsn,
}

/// What a writer that waits for its record finds.
#[derive(Clone, Copy, Debug, PartialEq, Eq, Structural)]
pub enum WaitVerdict {
    /// Every record up to it is durable.
    Durable,
    /// The record with this LSN, not above the awaited one, could not be published.
    Failed(Lsn),
    /// An earlier record is still under way.
    Wait,
}

/// Every LSN above `low` and up to `high` is in a set.
pub open spec fn run_of(set: Set<Lsn>, low: Lsn, high: Lsn) -> bool {
    forall|k: Lsn| low < k && k <= high ==> #[trigger] set.contains(k)
}

impl SegmentFrontier {
    /// The LSNs above `base` that were marked durable are those of `marked`: the
    /// frontier is where their unbroken run ends.
    pub open spec fn tracks(self, base: Lsn, marked: Set<Lsn>) -> bool {
        &&& base <= self.durable_lsn < Lsn::MAX
        &&& run_of(marked, base, self.durable_lsn)
        &&& !self.pending@.contains((self.durable_lsn + 1) as Lsn)
        &&& forall|k: Lsn| #[trigger]
            self.pending@.contains(k) ==> marked.contains(k) && k < Lsn::MAX
        &&& forall|k: Lsn| #[trigger]
            marked.contains(k) ==> k <= self.durable_lsn || self.pending@.contains(k)
    }

    /// A frontier above which nothing is durable.
    pub fn new(durable_lsn: Lsn) -> (r: Self)
        ensures
            r.durable_lsn == durable_lsn,
            r.pending@ == Set::<Lsn>::empty(),
            r.failed_lsn == Lsn::MAX,
            durable_lsn < Lsn::MAX ==> r.tracks(durable_lsn, Set::empty()),
    {
        SegmentFrontier { durable_lsn, pending: BTreeSet::new(), failed_lsn: Lsn::MAX }
    }

    /// Takes note that a record is durable, and moves the frontier over the run that
    /// this completes.
    pub fn mark_segment_durable(&mut self, lsn: Lsn)
        requires
            lsn < Lsn::MAX,
            old(self).durable_lsn < Lsn::MAX,
            !old(self).pending@.contains(Lsn::MAX),
        ensures
            final(self).failed_lsn == old(self).failed_lsn,
            old(self).durable_lsn <= final(self).durable_lsn < Lsn::MAX,
            run_of(
                old(self).pending@.insert(lsn),
                old(self).durable_lsn,
                final(self).durable_lsn,
            ),
            !old(self).pending@.insert(lsn).contains((final(self).durable_lsn + 1) as Lsn),
            forall|k: Lsn| #[trigger]
                final(self).pending@.contains(k) == (old(self).pending@.insert(lsn).contains(k)
                    && !(old(self).durable_lsn < k && k <= final(self).durable_lsn)),
            forall|base: Lsn, marked: Set<Lsn>| #[trigger]
                old(self).tracks(base, marked) ==> final(self).tracks(base, marked.insert(lsn)),
    {
        let ghost before = *self;
        let ghost all = self.pending@.insert(lsn);
        self.pending.insert(lsn);
        let mut next: u64 = self.durable_lsn + 1;
        while self.pending.contains(&next)
            invariant
                all == before.pending@.insert(lsn),
                !all.contains(Lsn::MAX),
                self.failed_lsn == before.failed_lsn,
                before.durable_lsn <= self.durable_lsn < Lsn::MAX,
                next == self.durable_lsn + 1,
                run_of(all, before.durable_lsn, self.durable_lsn),
                forall|k: Lsn| #[trigger]
                    self.pending@.contains(k) == (all.contains(k) && !(before.durable_lsn < k && k
                        <= self.durable_lsn)),
            decreases Lsn::MAX - next,
        {
            let _ = self.pending.remove(&next);
            self.durable_lsn = next;
            next = next + 1;
        }
        proof {
            assert forall|base: Lsn, marked: Set<Lsn>| #[trigger]
                before.tracks(base, marked) implies self.tracks(base, marked.insert(lsn)) by {
                let more = marked.insert(lsn);
                assert forall|k: Lsn| base < k && k <= self.durable_lsn implies #[trigger] more.contains(
                    k,
                ) by {
                    if k <= before.durable_lsn {
                        assert(marked.contains(k));
                    } else {
                        assert(all.contains(k));
                    }
                }
                assert forall|k: Lsn| #[trigger] self.pending@.contains(k) implies more.contains(k)
                    && k < Lsn::MAX by {
                    assert(all.contains(k));
                }
                assert forall|k: Lsn| #[trigger] more.contains(k) implies k <= self.durable_lsn
                    || self.pending@.contains(k) by {
                    if marked.contains(k) {
                        assert(k <= before.durable_lsn || before.pending@.contains(k));
                    }
                    assert(k <= before.durable_lsn || all.contains(k));
                }
            }
        }
    }

    /// Takes note that a record could not be published.
    pub fn mark_segment_failed(&mut self, lsn: Lsn)
        ensures
            final(self).durable_lsn == old(self).durable_lsn,
            final(self).pending == old(self).pending,
            final(self).failed_lsn == (if lsn < old(self).failed_lsn {
                lsn
            } else {
                old(self).failed_lsn
            }),
    {
        if lsn < self.failed_lsn {
            self.failed_lsn = lsn;
        }
    }

    /// What a writer that waits for a record is to do. Durability comes first: a
    /// failure matters only to records that are not covered.
    pub fn wait_for_segment_durable_lsn(&self, lsn: Lsn) -> (r: WaitVerdict)
        ensures
            r == (if self.durable_lsn >= lsn {
                WaitVerdict::Durable
            } else if self.failed_lsn <= lsn {
                WaitVerdict::Failed(self.failed_lsn)
            } else {
                WaitVerdict::Wait
            }),
    {
        if self.durable_lsn >= lsn {
            WaitVerdict::Durable
        } else if self.failed_lsn <= lsn {
            WaitVerdict::Failed(self.failed_lsn)
        } else {
            WaitVerdict::Wait
        }
    }

    /// Moves the frontier up to records that are known to be durable.
    pub fn raise(&mut self, min_lsn: Lsn)
        ensures
            final(self).pending == old(self).pending,
            final(self).failed_lsn == old(self).failed_lsn,
            final(self).durable_lsn == (if old(self).durable_lsn < min_lsn {
                min_lsn
            } else {
                old(self).durable_lsn
            }),
    {
        if self.durable_lsn < min_lsn {
            self.durable_lsn = min_lsn;
        }
    }
}

/// An LSN is reported durable exactly if every LSN from the base up to it was marked
/// durable.
pub proof fn frontier_is_the_unbroken_run(
    frontier: SegmentFrontier,
    base: Lsn,
    marked: Set<Lsn>,
    lsn: Lsn,
)
    requires
        frontier.tracks(base, marked),
        base <= lsn,
    ensures
        lsn <= frontier.durable_lsn <==> run_of(marked, base, lsn),
{
    if lsn > frontier.durable_lsn && run_of(marked, base, lsn) {
        let next = (frontier.durable_lsn + 1) as Lsn;
        assert(marked.contains(next));
        assert(next <= frontier.durable_lsn || frontier.pending@.contains(next));
    }
    if lsn <= frontier.durable_lsn {
        assert forall|k: Lsn| base < k && k <= lsn implies #[trigger] marked.contains(k) by {}
    }
}

} // verus!
