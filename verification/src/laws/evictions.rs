//! Evictions under a published root: what is reported to have left memory is what was
//! published.

use vstd::prelude::*;
use crate::eviction::CompactEvictionBatch;
use crate::key_encoding::KeyEncoding;
use crate::overlay::atomic_ptr::{AtomicNodePtr, PreparedBoundRootTransition};
use crate::overlay::fault::{
    rounds_ended, totals_of, EvictionRound, ExactEvictionOutcome, OverlayEvictable,
};
use crate::value::DictionaryValue;

verus! {

/// What a round is reported to have taken out of memory is exactly what was published
/// with it: the numbers of a publication, whatever they are, and nothing without one.
pub proof fn what_was_published_is_reported(
    outcome: Option<ExactEvictionOutcome>,
    reported: (usize, usize),
    nodes: usize,
    bytes: usize,
)
    requires
        call_ensures(totals_of, (outcome,), reported),
    ensures
        outcome == Some(ExactEvictionOutcome::Committed(nodes, bytes)) ==> reported.0 == nodes
            && reported.1 == bytes,
        !(outcome matches Some(ExactEvictionOutcome::Committed(_, _))) ==> reported.0 == 0
            && reported.1 == 0,
{
}

/// An eviction whose last round was published with some numbers of nodes and bytes
/// reports exactly these numbers, and one whose last round was not published reports
/// none. It tries again exactly after a round that lost against another publication, as
/// often as it may.
pub proof fn the_last_round_decides<K: KeyEncoding, V>(
    rounds: Seq<EvictionRound<K, V>>,
    retries: usize,
    vanished: bool,
    reported: (usize, usize),
    nodes: usize,
    bytes: usize,
)
    requires
        rounds_ended(rounds, retries, vanished, reported),
    ensures
        rounds.len() > 0 && rounds.last().outcome.0 == Some(
            ExactEvictionOutcome::Committed(nodes, bytes),
        ) ==> reported.0 == nodes && reported.1 == bytes,
        rounds.len() == 0 || !(rounds.last().outcome.0 matches Some(
            ExactEvictionOutcome::Committed(_, _),
        )) ==> reported.0 == 0 && reported.1 == 0,
        forall|i: int|
            0 <= i < rounds.len() - 1 ==> !((#[trigger] rounds[i]).outcome.0 matches Some(
                ExactEvictionOutcome::Committed(_, _),
            )),
        rounds.len() <= retries + 1,
        forall|i: int|
            0 <= i < rounds.len() - 1 ==> (#[trigger] rounds[i]).outcome.0 == Some(
                ExactEvictionOutcome::RootAdvanced,
            ),
        !vanished && rounds.len() > 0 && rounds.last().outcome.0 == Some(
            ExactEvictionOutcome::RootAdvanced,
        ) ==> rounds.len() == retries + 1,
        !vanished ==> rounds.len() > 0,
{
}

/// The publication of an eviction gave these numbers.
pub open spec fn published<K: KeyEncoding, V: DictionaryValue, T: OverlayEvictable<K, V>>(
    trie: &T,
    nodes: usize,
    bytes: usize,
) -> bool {
    exists|slot: &AtomicNodePtr<K, V>, transition: PreparedBoundRootTransition<K, V>| #[trigger]
        call_ensures(
            T::commit_overlay_eviction,
            (trie, slot, transition),
            ExactEvictionOutcome::Committed(nodes, bytes),
        )
}

/// An eviction that reports that something has left memory was published with exactly
/// the numbers that it reports.
pub proof fn an_eviction_reports_its_publication<
    K: KeyEncoding,
    V: DictionaryValue,
    T: OverlayEvictable<K, V>,
>(trie: &T, batch: &CompactEvictionBatch<K::Unit>, retries: usize, reported: (usize, usize))
    requires
        batch.wf(),
        call_ensures(T::evict_overlay_batch, (trie, batch, retries), reported),
        reported.0 != 0 || reported.1 != 0,
    ensures
        published::<K, V, T>(trie, reported.0, reported.1),
        batch.candidates@.len() > 0,
{
}

} // verus!
