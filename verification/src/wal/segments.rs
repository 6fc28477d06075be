//! Archived parts of the log: their order, and which of them may go.

use vstd::prelude::*;
use crate::text::join;
use super::Lsn;

verus! {

/// The place of a segment in the order of first LSNs. A segment whose first LSN
/// cannot be read comes last.
pub open spec fn segment_rank(first_lsn: Option<Lsn>) -> int {
    match first_lsn {
        Some(lsn) => lsn as int,
        None => Lsn::MAX + 1,
    }
}

/// A segment comes before another: by first LSN, and by position among equals.
pub open spec fn segment_before(first_lsns: Seq<Option<Lsn>>, a: usize, b: usize) -> bool {
    let x = segment_rank(first_lsns[a as int]);
    let y = segment_rank(first_lsns[b as int]);
    x < y || (x == y && a < b)
}

/// Positions that are in order.
pub open spec fn in_segment_order(first_lsns: Seq<Option<Lsn>>, order: Seq<usize>) -> bool {
    forall|i: int, j: int|
        0 <= i < j < order.len() ==> segment_before(
            first_lsns,
            #[trigger] order[i],
            #[trigger] order[j],
        )
}

/// Whether a segment comes before another.
fn comes_before(first_lsns: &Vec<Option<Lsn>>, a: usize, b: usize) -> (r: bool)
    requires
        a < first_lsns@.len(),
        b < first_lsns@.len(),
    ensures
        r == segment_before(first_lsns@, a, b),
{
    match (first_lsns[a], first_lsns[b]) {
        (Some(x), Some(y)) => x < y || (x == y && a < b),
        (Some(_), None) => true,
        (None, Some(_)) => false,
        (None, None) => a < b,
    }
}

/// The positions of segments in the order of their first LSNs. Segments with equal
/// first LSNs, and those without one at the end, keep their order.
pub fn sort_segments_by_first_lsn(first_lsns: &Vec<Option<Lsn>>) -> (r: Vec<usize>)
    ensures
        r@.len() == first_lsns@.len(),
        r@.no_duplicates(),
        forall|i: int| 0 <= i < r@.len() ==> #[trigger] r@[i] < first_lsns@.len(),
        in_segment_order(first_lsns@, r@),
{
    let mut order: Vec<usize> = Vec::with_capacity(first_lsns.len());
    let mut next: usize = 0;
    while next < first_lsns.len()
        invariant
            next <= first_lsns@.len(),
            order@.len() == next,
            order@.no_duplicates(),
            forall|i: int| 0 <= i < order@.len() ==> #[trigger] order@[i] < next,
            in_segment_order(first_lsns@, order@),
        decreases first_lsns@.len() - next,
    {
        let ghost before = order@;
        let mut slot: usize = order.len();
        while slot > 0 && comes_before(first_lsns, next, order[slot - 1])
            invariant
                next < first_lsns@.len(),
                order@ == before,
                slot <= before.len(),
                before.len() == next,
                forall|i: int| 0 <= i < before.len() ==> #[trigger] before[i] < next,
                forall|i: int|
                    slot <= i < before.len() ==> segment_before(
                        first_lsns@,
                        next,
                        #[trigger] before[i],
                    ),
            decreases slot,
        {
            slot -= 1;
        }
        order.insert(slot, next);
        proof {
            let after = order@;
            assert forall|i: int| 0 <= i < after.len() implies #[trigger] after[i] == (if i < slot {
                before[i]
            } else if i == slot {
                next
            } else {
                before[i - 1]
            }) by {}
            assert(slot > 0 ==> segment_before(first_lsns@, before[slot - 1], next));
            assert forall|i: int, j: int| 0 <= i < j < after.len() implies segment_before(
                first_lsns@,
                #[trigger] after[i],
                #[trigger] after[j],
            ) by {
                if j == slot {
                    if i < slot - 1 {
                        assert(segment_before(first_lsns@, before[i], before[slot - 1]));
                    }
                } else if i == slot {
                    assert(segment_before(first_lsns@, next, before[j - 1]));
                }
            }
            assert forall|i: int, j: int| 0 <= i < j < after.len() implies after[i] != after[j] by {
                assert(segment_before(first_lsns@, after[i], after[j]));
            }
        }
        next += 1;
    }
    order
}

/// The sum of the sizes from a position on.
pub open spec fn sizes_from(sizes: Seq<u64>, i: int) -> nat
    decreases sizes.len() - i,
{
    if 0 <= i < sizes.len() {
        sizes[i] as nat + sizes_from(sizes, i + 1)
    } else {
        0
    }
}

/// A segment whose first record the checkpoint covers.
pub open spec fn subsumed(first_lsn: Option<Lsn>, checkpoint_lsn: Lsn) -> bool {
    checkpoint_lsn > 0 && (first_lsn matches Some(lsn) && lsn <= checkpoint_lsn)
}

/// A segment, the oldest that is left, must go: it is not the last one, the
/// checkpoint covers it, and there are too many segments or too many bytes.
pub open spec fn must_go(
    first_lsns: Seq<Option<Lsn>>,
    sizes: Seq<u64>,
    max_segments: usize,
    max_archive_bytes: u64,
    checkpoint_lsn: Lsn,
    i: int,
) -> bool {
    &&& sizes.len() - i > 1
    &&& subsumed(first_lsns[i], checkpoint_lsn)
    &&& sizes.len() - i > max_segments || sizes_from(sizes, i) > max_archive_bytes
}

/// The oldest segments, up to a position, must go one after another.
pub open spec fn all_must_go(
    first_lsns: Seq<Option<Lsn>>,
    sizes: Seq<u64>,
    max_segments: usize,
    max_archive_bytes: u64,
    checkpoint_lsn: Lsn,
    end: int,
) -> bool {
    forall|i: int|
        0 <= i < end ==> #[trigger] must_go(
            first_lsns,
            sizes,
            max_segments,
            max_archive_bytes,
            checkpoint_lsn,
            i,
        )
}

/// How many of the oldest segments are to be removed. Segments are given in the
/// order of their first LSNs.
pub fn prune_segments_if_needed(
    first_lsns: &Vec<Option<Lsn>>,
    sizes: &Vec<u64>,
    max_segments: usize,
    max_archive_bytes: u64,
    checkpoint_lsn: Lsn,
) -> (r: usize)
    requires
        first_lsns@.len() == sizes@.len(),
        sizes_from(sizes@, 0) <= u64::MAX,
    ensures
        r <= sizes@.len(),
        forall|i: int|
            0 <= i < r ==> #[trigger] must_go(
                first_lsns@,
                sizes@,
                max_segments,
                max_archive_bytes,
                checkpoint_lsn,
                i,
            ),
        all_must_go(
            first_lsns@,
            sizes@,
            max_segments,
            max_archive_bytes,
            checkpoint_lsn,
            r as int,
        ),
        r < sizes@.len() ==> !must_go(
            first_lsns@,
            sizes@,
            max_segments,
            max_archive_bytes,
            checkpoint_lsn,
            r as int,
        ),
{
    let count: usize = sizes.len();
    let mut current: u64 = 0;
    let mut left: usize = count;
    proof {
        lemma_sizes_monotone(sizes@, count as int);
    }
    while left > 0
        invariant
            count == sizes@.len(),
            left <= count,
            sizes_from(sizes@, 0) <= u64::MAX,
            current == sizes_from(sizes@, left as int),
        decreases left,
    {
        left -= 1;
        proof {
            lemma_sizes_monotone(sizes@, left as int);
        }
        current = current + sizes[left];
    }
    let mut i: usize = 0;
    while i < count
        invariant
            count == sizes@.len() == first_lsns@.len(),
            i <= count,
            current == sizes_from(sizes@, i as int),
            forall|k: int|
                0 <= k < i ==> #[trigger] must_go(
                    first_lsns@,
                    sizes@,
                    max_segments,
                    max_archive_bytes,
                    checkpoint_lsn,
                    k,
                ),
        decreases count - i,
    {
        let remaining: usize = count - i;
        if remaining <= 1 {
            return i;
        }
        let covered: bool = checkpoint_lsn > 0 && match first_lsns[i] {
            Some(lsn) => lsn <= checkpoint_lsn,
            None => false,
        };
        if !covered {
            return i;
        }
        if !(remaining > max_segments || current > max_archive_bytes) {
            return i;
        }
        assert(must_go(
            first_lsns@,
            sizes@,
            max_segments,
            max_archive_bytes,
            checkpoint_lsn,
            i as int,
        ));
        current = current - sizes[i];
        i += 1;
    }
    i
}

/// A part of the sizes is no more than all of them.
proof fn lemma_sizes_monotone(sizes: Seq<u64>, i: int)
    requires
        0 <= i <= sizes.len(),
    ensures
        sizes_from(sizes, i) <= sizes_from(sizes, 0),
    decreases i,
{
    if i > 0 {
        lemma_sizes_monotone(sizes, i - 1);
    }
}

/// Only segments that the checkpoint covers are removed, and never all of them. If
/// nothing is known to be covered, nothing is removed.
pub proof fn pruning_keeps_what_is_not_covered(
    first_lsns: Seq<Option<Lsn>>,
    sizes: Seq<u64>,
    max_segments: usize,
    max_archive_bytes: u64,
    checkpoint_lsn: Lsn,
    removed: int,
)
    requires
        first_lsns.len() == sizes.len(),
        0 <= removed <= sizes.len(),
        forall|i: int|
            0 <= i < removed ==> #[trigger] must_go(
                first_lsns,
                sizes,
                max_segments,
                max_archive_bytes,
                checkpoint_lsn,
                i,
            ),
    ensures
        forall|i: int|
            0 <= i < removed ==> subsumed(#[trigger] first_lsns[i], checkpoint_lsn),
        sizes.len() > 0 ==> removed < sizes.len(),
        checkpoint_lsn == 0 ==> removed == 0,
{
    assert forall|i: int| 0 <= i < removed implies subsumed(
        #[trigger] first_lsns[i],
        checkpoint_lsn,
    ) by {
        assert(must_go(
            first_lsns,
            sizes,
            max_segments,
            max_archive_bytes,
            checkpoint_lsn,
            i,
        ));
    }
    if removed > 0 {
        assert(must_go(
            first_lsns,
            sizes,
            max_segments,
            max_archive_bytes,
            checkpoint_lsn,
            removed - 1,
        ));
    }
}

/// The largest of some LSNs.
pub fn max_lsn_in_segments(lsns: &[Lsn]) -> (r: Option<Lsn>)
    ensures
        match r {
            Some(largest) => {
                &&& lsns@.contains(largest)
                &&& forall|i: int| 0 <= i < lsns@.len() ==> #[trigger] lsns@[i] <= largest
            },
            None => lsns@.len() == 0,
        },
{
    let mut largest: Option<Lsn> = None;
    let mut i: usize = 0;
    while i < lsns.len()
        invariant
            i <= lsns@.len(),
            match largest {
                Some(lsn) => {
                    &&& lsns@.contains(lsn)
                    &&& forall|k: int| 0 <= k < i ==> #[trigger] lsns@[k] <= lsn
                },
                None => i == 0,
            },
        decreases lsns@.len() - i,
    {
        let lsn: Lsn = lsns[i];
        assert(lsns@[i as int] == lsn);
        largest = match largest {
            Some(before) => if before >= lsn {
                Some(before)
            } else {
                Some(lsn)
            },
            None => Some(lsn),
        };
        i += 1;
    }
    largest
}

/// The extension of the directory beside a log file that holds its record segments.
pub fn record_segment_extension(extension: Option<&str>) -> (r: String)
    ensures
        r@ == match extension {
            Some(extension) => extension@ + ".d"@,
            None => "wal.d"@,
        },
{
    match extension {
        Some(extension) => join(extension, ".d"),
        None => "wal.d".to_owned(),
    }
}

} // verus!
