//! The plan of an eviction whose candidates all lie on one path.

use vstd::prelude::*;
use crate::eviction::{topology_path, CompactEvictionBatch, RegistryPathId, TopologyEntry};
use crate::fx::{fx_entries, fx_get, fx_insert, fx_new};
use crate::key_encoding::KeyEncoding;
use super::evict::ChainWalkFrame;

verus! {

/// Whether a registered path is another one or one of its ancestors.
pub open spec fn ancestor_or_self<U>(entries: Seq<TopologyEntry<U>>, a: int, o: int) -> bool
    decreases o,
{
    if o <= 0 || o > entries.len() {
        false
    } else {
        o == a || (entries[o - 1].parent.ordinal < o && ancestor_or_self(
            entries,
            a,
            entries[o - 1].parent.ordinal as int,
        ))
    }
}

/// Candidate `d` is the deepest, the others are registered on its ancestors, and
/// no two are equally deep.
pub open spec fn chain_through<U: Copy>(batch: CompactEvictionBatch<U>, d: int) -> bool {
    &&& 0 <= d < batch.candidates@.len()
    &&& forall|c: int|
        0 <= c < batch.candidates@.len() ==> {
            &&& 0 < (#[trigger] batch.candidates@[c]).depth <= batch.candidates@[d].depth
            &&& ancestor_or_self(
                batch.topology.entries@,
                batch.candidates@[c].path_id.ordinal as int,
                batch.candidates@[d].path_id.ordinal as int,
            )
        }
    &&& forall|a: int, b: int|
        0 <= a < b < batch.candidates@.len() ==> (#[trigger] batch.candidates@[a]).depth != (
        #[trigger] batch.candidates@[b]).depth
}

/// No candidate lies at a depth.
pub open spec fn none_at_depth<U: Copy>(batch: CompactEvictionBatch<U>, depth: int) -> bool {
    forall|c: int| 0 <= c < batch.candidates@.len() ==> (#[trigger] batch.candidates@[c]).depth != depth
}

/// A single-path plan: the path of the deepest candidate, with each candidate
/// marked at its depth.
pub open spec fn chain_plans<U: Copy>(
    frames: Seq<ChainWalkFrame<U>>,
    batch: CompactEvictionBatch<U>,
    d: int,
) -> bool {
    &&& frames.len() == batch.path(d).len()
    &&& forall|j: int| 0 <= j < frames.len() ==> (#[trigger] frames[j]).edge == batch.path(d)[j]
    &&& forall|j: int|
        0 <= j < frames.len() ==> match (#[trigger] frames[j]).selected_candidate {
            Some(c) => c < batch.candidates@.len() && batch.candidates@[c as int].depth == j + 1,
            None => none_at_depth(batch, j + 1),
        }
}

/// The path of an ancestor is no longer than the path of its descendant.
pub proof fn lemma_ancestor_depth<U>(entries: Seq<TopologyEntry<U>>, a: int, o: int)
    requires
        ancestor_or_self(entries, a, o),
    ensures
        topology_path(entries, a).is_prefix_of(topology_path(entries, o)),
    decreases o,
{
    if o != a {
        let p = entries[o - 1].parent.ordinal as int;
        lemma_ancestor_depth(entries, a, p);
        assert(topology_path(entries, p).is_prefix_of(topology_path(entries, o)));
        let x = topology_path(entries, a);
        let z = topology_path(entries, o);
        assert(x =~= z.take(x.len() as int));
    }
}

/// The index of a deepest candidate.
fn deepest_candidate<U: Copy>(batch: &CompactEvictionBatch<U>) -> (r: Option<usize>)
    ensures
        match r {
            Some(d) => d < batch.candidates@.len() && forall|c: int|
                0 <= c < batch.candidates@.len() ==> (#[trigger] batch.candidates@[c]).depth
                    <= batch.candidates@[d as int].depth,
            None => batch.candidates@.len() == 0,
        },
{
    if batch.candidates.len() == 0 {
        return None;
    }
    let mut best: usize = 0;
    let mut i: usize = 1;
    while i < batch.candidates.len()
        invariant
            best < i <= batch.candidates@.len(),
            forall|c: int|
                0 <= c < i ==> (#[trigger] batch.candidates@[c]).depth
                    <= batch.candidates@[best as int].depth,
        decreases batch.candidates@.len() - i,
    {
        if batch.candidates[i].depth >= batch.candidates[best].depth {
            best = i;
        }
        i += 1;
    }
    Some(best)
}

/// The candidates by the ordinal of their path, or `None` when two share one.
fn candidates_by_path<U: Copy>(batch: &CompactEvictionBatch<U>) -> (r: Option<
    rustc_hash::FxHashMap<u128, usize>,
>)
    ensures
        match r {
            Some(map) => {
                &&& forall|c: int|
                    0 <= c < batch.candidates@.len() ==> {
                        let o = (#[trigger] batch.candidates@[c]).path_id.ordinal as u128;
                        fx_entries(map).dom().contains(o) && fx_entries(map)[o] == c
                    }
                &&& forall|o: u128| #[trigger]
                    fx_entries(map).dom().contains(o) ==> fx_entries(map)[o]
                        < batch.candidates@.len()
                        && batch.candidates@[fx_entries(map)[o] as int].path_id.ordinal as u128
                        == o
            },
            None => exists|a: int, b: int|
                0 <= a < b < batch.candidates@.len() && (#[trigger] batch.candidates@[a]).path_id
                    == (#[trigger] batch.candidates@[b]).path_id,
        },
{
    let mut map = fx_new();
    let mut i: usize = 0;
    while i < batch.candidates.len()
        invariant
            i <= batch.candidates@.len(),
            forall|c: int|
                0 <= c < i ==> {
                    let o = (#[trigger] batch.candidates@[c]).path_id.ordinal as u128;
                    fx_entries(map).dom().contains(o) && fx_entries(map)[o] == c
                },
            forall|o: u128| #[trigger]
                fx_entries(map).dom().contains(o) ==> fx_entries(map)[o] < i
                    && batch.candidates@[fx_entries(map)[o] as int].path_id.ordinal as u128 == o,
        decreases batch.candidates@.len() - i,
    {
        let o: u128 = batch.candidates[i].path_id.ordinal as u128;
        match fx_get(&map, o) {
            Some(other) => {
                assert(batch.candidates@[other as int].path_id == batch.candidates@[i as int].path_id);
                return None;
            },
            None => {},
        }
        fx_insert(&mut map, o, i);
        i += 1;
    }
    Some(map)
}

/// What the climb along the ancestors of the deepest candidate has marked.
#[verifier::opaque]
spec fn climbed<U: Copy>(
    batch: CompactEvictionBatch<U>,
    d: int,
    frames: Seq<ChainWalkFrame<U>>,
    found: Seq<bool>,
    cursor: int,
) -> bool {
    let entries = batch.topology.entries@;
    &&& found.len() == batch.candidates@.len()
    &&& frames.len() == batch.path(d).len()
    &&& forall|j: int| 0 <= j < frames.len() ==> (#[trigger] frames[j]).edge == batch.path(d)[j]
    &&& forall|c: int|
        0 <= c < found.len() ==> (ancestor_or_self(
            entries,
            (#[trigger] batch.candidates@[c]).path_id.ordinal as int,
            batch.candidates@[d].path_id.ordinal as int,
        ) <==> found[c] || ancestor_or_self(
            entries,
            batch.candidates@[c].path_id.ordinal as int,
            cursor,
        ))
    &&& forall|c: int|
        0 <= c < found.len() && #[trigger] found[c] ==> {
            &&& 0 < batch.candidates@[c].depth <= frames.len()
            &&& frames[batch.candidates@[c].depth - 1].selected_candidate == Some(c as usize)
        }
    &&& forall|j: int|
        0 <= j < frames.len() ==> match (#[trigger] frames[j]).selected_candidate {
            Some(c) => c < found.len() && found[c as int] && batch.candidates@[c as int].depth == j
                + 1,
            None => true,
        }
}

/// Moving to the parent when no candidate is registered at the cursor.
proof fn lemma_climb_past<U: Copy>(
    batch: CompactEvictionBatch<U>,
    d: int,
    frames: Seq<ChainWalkFrame<U>>,
    found: Seq<bool>,
    cursor: int,
)
    requires
        batch.topology.wf(),
        climbed(batch, d, frames, found, cursor),
        0 < cursor <= batch.topology.entries@.len(),
        forall|c: int|
            0 <= c < batch.candidates@.len() && (
            #[trigger] batch.candidates@[c]).path_id.ordinal == cursor ==> found[c],
    ensures
        climbed(
            batch,
            d,
            frames,
            found,
            batch.topology.entries@[cursor - 1].parent.ordinal as int,
        ),
{
    reveal(climbed);
    let entries = batch.topology.entries@;
    let parent = entries[cursor - 1].parent.ordinal as int;
    assert(parent <= cursor - 1);
    assert forall|c: int| 0 <= c < found.len() implies (ancestor_or_self(
        entries,
        (#[trigger] batch.candidates@[c]).path_id.ordinal as int,
        batch.candidates@[d].path_id.ordinal as int,
    ) <==> found[c] || ancestor_or_self(
        entries,
        batch.candidates@[c].path_id.ordinal as int,
        parent,
    )) by {
        let a = batch.candidates@[c].path_id.ordinal as int;
        if a != cursor {
            assert(ancestor_or_self(entries, a, cursor) == ancestor_or_self(entries, a, parent));
        }
    }
}

/// Marking the candidate that is registered at the cursor.
proof fn lemma_climb_mark<U: Copy>(
    batch: CompactEvictionBatch<U>,
    d: int,
    before: Seq<ChainWalkFrame<U>>,
    after: Seq<ChainWalkFrame<U>>,
    found: Seq<bool>,
    cursor: int,
    c: usize,
)
    requires
        climbed(batch, d, before, found, cursor),
        0 < cursor <= batch.topology.entries@.len(),
        c < batch.candidates@.len(),
        batch.candidates@[c as int].path_id.ordinal == cursor,
        !found[c as int],
        0 < batch.candidates@[c as int].depth <= before.len(),
        before[batch.candidates@[c as int].depth - 1].selected_candidate is None,
        after.len() == before.len(),
        forall|j: int| 0 <= j < before.len() ==> (#[trigger] after[j]).edge == before[j].edge,
        forall|j: int|
            0 <= j < before.len() ==> (#[trigger] after[j]).selected_candidate == (if j
                == batch.candidates@[c as int].depth - 1 {
                Some(c)
            } else {
                before[j].selected_candidate
            }),
    ensures
        climbed(batch, d, after, found.update(c as int, true), cursor),
{
    reveal(climbed);
    let entries = batch.topology.entries@;
    let next = found.update(c as int, true);
    assert(ancestor_or_self(entries, cursor, cursor));
    assert forall|x: int| 0 <= x < next.len() && #[trigger] next[x] implies {
        &&& 0 < batch.candidates@[x].depth <= after.len()
        &&& after[batch.candidates@[x].depth - 1].selected_candidate == Some(x as usize)
    } by {
        if x != c {
            assert(found[x]);
            assert(before[batch.candidates@[x].depth - 1].selected_candidate == Some(x as usize));
        }
    }
    assert forall|j: int| 0 <= j < after.len() implies match (
    #[trigger] after[j]).selected_candidate {
        Some(x) => x < next.len() && next[x as int] && batch.candidates@[x as int].depth == j + 1,
        None => true,
    } by {
        assert(before[j].selected_candidate is Some ==> found[before[j].selected_candidate->0 as int]);
    }
    assert forall|x: int| 0 <= x < next.len() implies (ancestor_or_self(
        entries,
        (#[trigger] batch.candidates@[x]).path_id.ordinal as int,
        batch.candidates@[d].path_id.ordinal as int,
    ) <==> next[x] || ancestor_or_self(
        entries,
        batch.candidates@[x].path_id.ordinal as int,
        cursor,
    )) by {
        assert(found[x] || x == c || next[x] == found[x]);
    }
}

/// The single-path plan of a batch, or `None` when its candidates do not all lie on
/// one line of registered paths.
pub fn build_chain_plan<K: KeyEncoding>(batch: &CompactEvictionBatch<K::Unit>) -> (r: Option<
    Vec<ChainWalkFrame<K::Unit>>,
>)
    requires
        batch.wf(),
    ensures
        match r {
            Some(frames) => exists|d: int| #[trigger]
                chain_through(*batch, d) && chain_plans(frames@, *batch, d),
            None => forall|d: int| !#[trigger] chain_through(*batch, d),
        },
{
    let d: usize = match deepest_candidate(batch) {
        Some(d) => d,
        None => {
            return None;
        },
    };
    let ghost entries = batch.topology.entries@;
    proof {
        lemma_chain_deepest(*batch, d as int);
    }
    let id: RegistryPathId = batch.candidates[d].path_id;
    if id.ordinal == 0 {
        return None;
    }
    let path = match batch.topology.materialize(id) {
        Some(path) => path,
        None => {
            return None;
        },
    };
    let map = match candidates_by_path(batch) {
        Some(map) => map,
        None => {
            proof {
                lemma_duplicates_no_chain(*batch);
            }
            return None;
        },
    };
    let mut frames: Vec<ChainWalkFrame<K::Unit>> = Vec::new();
    let mut i: usize = 0;
    while i < path.len()
        invariant
            i <= path@.len(),
            frames@.len() == i,
            forall|j: int| 0 <= j < i ==> (#[trigger] frames@[j]).edge == path@[j],
            forall|j: int| 0 <= j < i ==> (#[trigger] frames@[j]).selected_candidate is None,
        decreases path@.len() - i,
    {
        frames.push(ChainWalkFrame { edge: path[i], selected_candidate: None });
        i += 1;
    }
    let mut found: Vec<bool> = Vec::new();
    let mut c: usize = 0;
    while c < batch.candidates.len()
        invariant
            c <= batch.candidates@.len(),
            found@.len() == c,
            forall|x: int| 0 <= x < c ==> !#[trigger] found@[x],
        decreases batch.candidates@.len() - c,
    {
        found.push(false);
        c += 1;
    }
    let mut cursor: usize = id.ordinal;
    assert(climbed(*batch, d as int, frames@, found@, cursor as int)) by {
        reveal(climbed);
    }
    while cursor > 0
        invariant
            batch.wf(),
            d < batch.candidates@.len(),
            cursor <= entries.len(),
            entries == batch.topology.entries@,
            forall|c: int|
                0 <= c < batch.candidates@.len() ==> {
                    let o = (#[trigger] batch.candidates@[c]).path_id.ordinal as u128;
                    fx_entries(map).dom().contains(o) && fx_entries(map)[o] == c
                },
            forall|o: u128| #[trigger]
                fx_entries(map).dom().contains(o) ==> fx_entries(map)[o] < batch.candidates@.len()
                    && batch.candidates@[fx_entries(map)[o] as int].path_id.ordinal as u128 == o,
            forall|x: int|
                0 <= x < batch.candidates@.len() ==> (#[trigger] batch.candidates@[x]).depth
                    <= batch.candidates@[d as int].depth,
            climbed(*batch, d as int, frames@, found@, cursor as int),
            frames@.len() == batch.path(d as int).len(),
            found@.len() == batch.candidates@.len(),
            forall|x: int|
                0 <= x < found@.len() && #[trigger] found@[x] ==> batch.candidates@[x].path_id.ordinal
                    > cursor,
            forall|x: int| #[trigger] chain_through(*batch, x) ==> x == d,
        decreases cursor,
    {
        match fx_get(&map, cursor as u128) {
            Some(c) => {
                let depth: usize = batch.candidates[c].depth;
                let ghost before = frames@;
                if depth == 0 || depth > frames.len() {
                    proof {
                        if chain_through(*batch, d as int) {
                            lemma_chain_valid(*batch, d as int);
                            assert(batch.candidates@[c as int].depth > 0);
                        }
                    }
                    return None;
                }
                if frames[depth - 1].selected_candidate.is_some() {
                    proof {
                        reveal(climbed);
                        let other = frames@[depth - 1].selected_candidate->0 as int;
                        assert(batch.candidates@[other].depth == depth);
                        assert(found@[other]);
                        assert(other != c);
                    }
                    return None;
                }
                proof {
                    assert(batch.candidates@[c as int].path_id.ordinal == cursor);
                }
                let ghost flags = found@;
                assert(!flags[c as int]);
                frames[depth - 1].selected_candidate = Some(c);
                found.set(c, true);
                proof {
                    lemma_climb_mark(
                        *batch,
                        d as int,
                        before,
                        frames@,
                        flags,
                        cursor as int,
                        c,
                    );
                }
            },
            None => {},
        }
        proof {
            assert forall|x: int|
                0 <= x < batch.candidates@.len() && (
                #[trigger] batch.candidates@[x]).path_id.ordinal == cursor implies found@[x] by {
                assert(fx_entries(map).dom().contains(cursor as u128));
            }
            lemma_climb_past(*batch, d as int, frames@, found@, cursor as int);
            assert(entries[cursor - 1].parent.ordinal <= cursor - 1);
        }
        cursor = batch.topology.entries[cursor - 1].parent.ordinal;
    }
    let mut x: usize = 0;
    while x < found.len()
        invariant
            x <= found@.len(),
            found@.len() == batch.candidates@.len(),
            d < batch.candidates@.len(),
            entries == batch.topology.entries@,
            climbed(*batch, d as int, frames@, found@, 0),
            forall|y: int| 0 <= y < x ==> #[trigger] found@[y],
            forall|y: int| #[trigger] chain_through(*batch, y) ==> y == d,
        decreases found@.len() - x,
    {
        if !found[x] {
            proof {
                reveal(climbed);
                if chain_through(*batch, d as int) {
                    assert(ancestor_or_self(
                        entries,
                        batch.candidates@[x as int].path_id.ordinal as int,
                        batch.candidates@[d as int].path_id.ordinal as int,
                    ));
                }
            }
            return None;
        }
        x += 1;
    }
    proof {
        lemma_climb_done(*batch, d as int, frames@, found@);
    }
    Some(frames)
}

/// Only a deepest candidate can be the end of the line.
proof fn lemma_chain_deepest<U: Copy>(batch: CompactEvictionBatch<U>, d: int)
    requires
        0 <= d < batch.candidates@.len(),
        forall|c: int|
            0 <= c < batch.candidates@.len() ==> (#[trigger] batch.candidates@[c]).depth
                <= batch.candidates@[d].depth,
    ensures
        forall|x: int| #[trigger] chain_through(batch, x) ==> x == d,
        batch.candidates@[d].path_id.ordinal == 0 || batch.candidates@[d].path_id.ordinal
            > batch.topology.entries@.len() ==> !chain_through(batch, d),
{
    assert forall|x: int| #[trigger] chain_through(batch, x) implies x == d by {
        assert(batch.candidates@[d].depth <= batch.candidates@[x].depth);
        if x < d {
            assert(batch.candidates@[x].depth != batch.candidates@[d].depth);
        } else if d < x {
            assert(batch.candidates@[d].depth != batch.candidates@[x].depth);
        }
    }
    if chain_through(batch, d) {
        assert(batch.candidates@[d].depth > 0);
    }
}

/// Two candidates of one path are equally deep.
proof fn lemma_duplicates_no_chain<U: Copy>(batch: CompactEvictionBatch<U>)
    requires
        batch.wf(),
        exists|a: int, b: int|
            0 <= a < b < batch.candidates@.len() && (#[trigger] batch.candidates@[a]).path_id == (
            #[trigger] batch.candidates@[b]).path_id,
    ensures
        forall|x: int| !#[trigger] chain_through(batch, x),
{
    let (a, b) = choose|a: int, b: int|
        0 <= a < b < batch.candidates@.len() && (#[trigger] batch.candidates@[a]).path_id == (
        #[trigger] batch.candidates@[b]).path_id;
    assert forall|x: int| !#[trigger] chain_through(batch, x) by {
        if chain_through(batch, x) {
            lemma_chain_valid(batch, x);
            assert(batch.valid(a) && batch.valid(b));
        }
    }
}

/// Candidates on a line are registered.
proof fn lemma_chain_valid<U: Copy>(batch: CompactEvictionBatch<U>, d: int)
    requires
        batch.wf(),
        chain_through(batch, d),
    ensures
        forall|c: int|
            0 <= c < batch.candidates@.len() ==> #[trigger] batch.valid(c)
                && batch.candidates@[c].depth <= batch.path(d).len(),
{
    assert forall|c: int| 0 <= c < batch.candidates@.len() implies #[trigger] batch.valid(c)
        && batch.candidates@[c].depth <= batch.path(d).len() by {
        assert(batch.candidates@[c].depth > 0);
        lemma_ancestor_range(
            batch.topology.entries@,
            batch.candidates@[c].path_id.ordinal as int,
            batch.candidates@[d].path_id.ordinal as int,
        );
        lemma_ancestor_depth(
            batch.topology.entries@,
            batch.candidates@[c].path_id.ordinal as int,
            batch.candidates@[d].path_id.ordinal as int,
        );
    }
}

/// Ancestors are registered.
proof fn lemma_ancestor_range<U>(entries: Seq<TopologyEntry<U>>, a: int, o: int)
    requires
        ancestor_or_self(entries, a, o),
    ensures
        0 < a <= entries.len(),
    decreases o,
{
    if o != a {
        lemma_ancestor_range(entries, a, entries[o - 1].parent.ordinal as int);
    }
}

/// Every candidate was found on the line.
proof fn lemma_climb_done<U: Copy>(
    batch: CompactEvictionBatch<U>,
    d: int,
    frames: Seq<ChainWalkFrame<U>>,
    found: Seq<bool>,
)
    requires
        0 <= d < batch.candidates@.len(),
        forall|c: int|
            0 <= c < batch.candidates@.len() ==> (#[trigger] batch.candidates@[c]).depth
                <= batch.candidates@[d].depth,
        climbed(batch, d, frames, found, 0),
        forall|y: int| 0 <= y < found.len() ==> #[trigger] found[y],
    ensures
        chain_through(batch, d),
        chain_plans(frames, batch, d),
{
    reveal(climbed);
    assert(batch.candidates.len() == batch.candidates@.len());
    assert forall|c: int| 0 <= c < batch.candidates@.len() implies {
        &&& 0 < (#[trigger] batch.candidates@[c]).depth <= batch.candidates@[d].depth
        &&& ancestor_or_self(
            batch.topology.entries@,
            batch.candidates@[c].path_id.ordinal as int,
            batch.candidates@[d].path_id.ordinal as int,
        )
    } by {
        assert(found[c]);
    }
    assert forall|a: int, b: int| 0 <= a < b < batch.candidates@.len() implies (
    #[trigger] batch.candidates@[a]).depth != (#[trigger] batch.candidates@[b]).depth by {
        assert(found[a] && found[b]);
    }
    assert forall|j: int| 0 <= j < frames.len() implies match (
    #[trigger] frames[j]).selected_candidate {
        Some(c) => c < batch.candidates@.len() && batch.candidates@[c as int].depth == j + 1,
        None => none_at_depth(batch, j + 1),
    } by {
        if frames[j].selected_candidate is None {
            assert forall|c: int| 0 <= c < batch.candidates@.len() implies (
            #[trigger] batch.candidates@[c]).depth != j + 1 by {
                assert(found[c]);
            }
        }
    }
}

} // verus!
