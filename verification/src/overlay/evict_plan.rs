//! The trie of all paths that one eviction selects.

use rustc_hash::FxHashMap;
use vstd::prelude::*;
use crate::eviction::{
    chain_units, topology_path, CompactEvictionBatch, RegistryPathId, TopologyEntry,
};
use crate::fx::{fx_entries, fx_get, fx_insert, fx_new};
use crate::key_encoding::KeyEncoding;

verus! {

/// One node of an eviction plan: the trie of all selected paths. Node zero is the
/// root; a parent precedes its children.
pub struct BatchPlanNode<U> {
    pub edge: Option<U>,
    pub parent: usize,
    pub children: Vec<usize>,
    pub selected_candidate: Option<usize>,
}

/// The units from the root of a plan to one of its nodes.
pub open spec fn plan_path<U>(plan: Seq<BatchPlanNode<U>>, i: int) -> Seq<U>
    decreases i,
{
    if i <= 0 || i >= plan.len() || plan[i].parent >= i {
        Seq::empty()
    } else {
        plan_path(plan, plan[i].parent as int).push(plan[i].edge->0)
    }
}

/// A plan is a trie: parents precede children, siblings have distinct edges, and
/// the child lists hold exactly the children, in order.
#[verifier::opaque]
pub open spec fn plan_wf<U>(plan: Seq<BatchPlanNode<U>>) -> bool {
    &&& plan.len() >= 1
    &&& plan[0].edge is None
    &&& forall|i: int|
        1 <= i < plan.len() ==> (#[trigger] plan[i]).parent < i && plan[i].edge is Some
            && plan[plan[i].parent as int].children@.contains(i as usize)
    &&& forall|i: int, j: int|
        1 <= i < j < plan.len() && (#[trigger] plan[i]).parent == (#[trigger] plan[j]).parent
            ==> plan[i].edge != plan[j].edge
    &&& forall|p: int, k: int|
        0 <= p < plan.len() && 0 <= k < plan[p].children@.len() ==> {
            let c = #[trigger] plan[p].children@[k];
            p < c < plan.len() && plan[c as int].parent == p
        }
    &&& forall|p: int, k: int, l: int|
        0 <= p < plan.len() && 0 <= k < l < plan[p].children@.len() ==> (
        #[trigger] plan[p].children@[k]) < (#[trigger] plan[p].children@[l])
}

/// `after` is `before` with more nodes, none of which is selected.
pub open spec fn plan_grows<U>(before: Seq<BatchPlanNode<U>>, after: Seq<BatchPlanNode<U>>) -> bool {
    &&& before.len() <= after.len()
    &&& forall|i: int|
        0 <= i < before.len() ==> (#[trigger] after[i]).edge == before[i].edge && after[i].parent
            == before[i].parent && after[i].selected_candidate == before[i].selected_candidate
    &&& forall|i: int|
        before.len() <= i < after.len() ==> (#[trigger] after[i]).selected_candidate is None
}

/// The index key of an edge.
pub open spec fn edge_key(endpoint: int, rank: u64) -> int {
    endpoint * 0x1_0000_0000_0000_0000 + rank
}

/// The index finds exactly the edges of the plan.
#[verifier::opaque]
spec fn edges_indexed<K: KeyEncoding>(
    plan: Seq<BatchPlanNode<K::Unit>>,
    index: Map<u128, usize>,
) -> bool {
    &&& forall|i: int|
        1 <= i < plan.len() ==> {
            let key = edge_key((#[trigger] plan[i]).parent as int, K::rank(plan[i].edge->0)) as u128;
            index.dom().contains(key) && index[key] == i
        }
    &&& forall|e: usize, u: K::Unit|
        index.dom().contains(#[trigger] edge_key(e as int, K::rank(u)) as u128) ==> {
            let i = index[edge_key(e as int, K::rank(u)) as u128] as int;
            1 <= i < plan.len() && plan[i].parent == e && plan[i].edge == Some(u)
        }
}

/// Paths depend on edges and parents only.
proof fn lemma_plan_path_stable<U>(
    before: Seq<BatchPlanNode<U>>,
    after: Seq<BatchPlanNode<U>>,
    i: int,
)
    requires
        i < before.len() <= after.len(),
        forall|j: int|
            0 <= j < before.len() ==> (#[trigger] after[j]).edge == before[j].edge
                && after[j].parent == before[j].parent,
    ensures
        plan_path(before, i) == plan_path(after, i),
    decreases i,
{
    if 0 < i {
        assert(after[i].edge == before[i].edge);
        if before[i].parent < i {
            lemma_plan_path_stable(before, after, before[i].parent as int);
        }
    }
}

/// Distinct nodes of a plan have distinct paths.
pub proof fn plan_paths_are_distinct<U>(plan: Seq<BatchPlanNode<U>>, i: int, j: int)
    requires
        plan_wf(plan),
        0 <= i < plan.len(),
        0 <= j < plan.len(),
        plan_path(plan, i) == plan_path(plan, j),
    ensures
        i == j,
    decreases i,
{
    reveal(plan_wf);
    if i == 0 {
        if j > 0 {
            assert(plan[j].parent < j);
            assert(plan_path(plan, j).len() > 0);
        }
    } else {
        assert(plan[i].parent < i);
        assert(plan_path(plan, i).len() > 0);
        assert(j > 0);
        assert(plan[j].parent < j);
        let up_i = plan_path(plan, plan[i].parent as int);
        let up_j = plan_path(plan, plan[j].parent as int);
        assert(up_i =~= plan_path(plan, i).drop_last());
        assert(up_j =~= plan_path(plan, j).drop_last());
        assert(plan_path(plan, i).last() == plan[i].edge->0);
        assert(plan_path(plan, j).last() == plan[j].edge->0);
        plan_paths_are_distinct(plan, plan[i].parent as int, plan[j].parent as int);
        if i < j {
            assert(plan[i].edge != plan[j].edge);
        } else if j < i {
            assert(plan[j].edge != plan[i].edge);
        }
    }
}

/// `after` is `before` with one new child of `endpoint`.
spec fn plan_pushed<U>(
    before: Seq<BatchPlanNode<U>>,
    after: Seq<BatchPlanNode<U>>,
    endpoint: usize,
    unit: U,
) -> bool {
    &&& endpoint < before.len() < usize::MAX
    &&& after.len() == before.len() + 1
    &&& forall|i: int| 0 <= i < before.len() && i != endpoint ==> #[trigger] after[i] == before[i]
    &&& after[endpoint as int].edge == before[endpoint as int].edge
    &&& after[endpoint as int].parent == before[endpoint as int].parent
    &&& after[endpoint as int].selected_candidate == before[endpoint as int].selected_candidate
    &&& after[endpoint as int].children@ == before[endpoint as int].children@.push(
        before.len() as usize,
    )
    &&& after[before.len() as int].edge == Some(unit)
    &&& after[before.len() as int].parent == endpoint
    &&& after[before.len() as int].children@.len() == 0
    &&& after[before.len() as int].selected_candidate is None
}

/// A new child under a new edge keeps a plan well formed.
proof fn lemma_plan_push_wf<K: KeyEncoding>(
    before: Seq<BatchPlanNode<K::Unit>>,
    after: Seq<BatchPlanNode<K::Unit>>,
    endpoint: usize,
    unit: K::Unit,
    entries: Map<u128, usize>,
)
    requires
        plan_wf(before),
        plan_pushed(before, after, endpoint, unit),
        edges_indexed::<K>(before, entries),
        !entries.dom().contains(edge_key(endpoint as int, K::rank(unit)) as u128),
    ensures
        plan_wf(after),
{
    reveal(plan_wf);
    reveal(edges_indexed);
    let child = before.len() as usize;
    assert forall|i: int| 0 <= i < before.len() implies (#[trigger] after[i]).edge == before[i].edge
        && after[i].parent == before[i].parent by {
        if i != endpoint {
            assert(after[i] == before[i]);
        }
    }
    assert forall|p: int, k: int| 0 <= p < before.len() && 0 <= k < before[p].children@.len() implies (
    #[trigger] after[p].children@[k]) == before[p].children@[k] by {
        if p != endpoint {
            assert(after[p] == before[p]);
        }
    }
    assert forall|i: int| 1 <= i < after.len() implies (#[trigger] after[i]).parent < i
        && after[i].edge is Some && after[after[i].parent as int].children@.contains(i as usize) by {
        if i < before.len() {
            assert(before[i].parent < i);
            let p = before[i].parent as int;
            let list = before[p].children@;
            let k = choose|k: int| 0 <= k < list.len() && list[k] == i as usize;
            assert(after[p].children@[k] == i as usize);
        } else {
            let list = after[endpoint as int].children@;
            assert(list[list.len() - 1] == child);
        }
    }
    assert forall|i: int, j: int|
        1 <= i < j < after.len() && (#[trigger] after[i]).parent == (#[trigger] after[j]).parent implies after[i].edge
        != after[j].edge by {
        assert(before[i].edge is Some);
        if j < before.len() {
            assert(before[i].edge != before[j].edge);
        } else if before[i].edge == Some(unit) {
            assert(entries.dom().contains(
                edge_key(before[i].parent as int, K::rank(before[i].edge->0)) as u128,
            ));
        }
    }
    assert forall|p: int, k: int| 0 <= p < after.len() && 0 <= k < after[p].children@.len() implies {
        let c = #[trigger] after[p].children@[k];
        p < c < after.len() && after[c as int].parent == p
    } by {
        if p < before.len() {
            if p != endpoint {
                assert(after[p] == before[p]);
            }
            if k < before[p].children@.len() {
                let c = before[p].children@[k];
                assert(after[p].children@[k] == c);
                assert(before[c as int].parent == p);
            }
        }
    }
    assert forall|p: int, k: int, l: int|
        0 <= p < after.len() && 0 <= k < l < after[p].children@.len() implies (
    #[trigger] after[p].children@[k]) < (#[trigger] after[p].children@[l]) by {
        if p < before.len() {
            if p != endpoint {
                assert(after[p] == before[p]);
            }
            assert(after[p].children@[k] == before[p].children@[k]);
            if l < before[p].children@.len() {
                assert(after[p].children@[l] == before[p].children@[l]);
            } else {
                assert(before[p].children@[k] < before.len());
            }
        }
    }
}

/// An index key determines its edge.
proof fn lemma_edge_key_injective(e: usize, r: u64, f: usize, q: u64)
    requires
        edge_key(e as int, r) as u128 == edge_key(f as int, q) as u128,
    ensures
        e == f && r == q,
{
    assert(edge_key(e as int, r) <= u128::MAX);
    assert(edge_key(f as int, q) <= u128::MAX);
}

/// Indexing the new edge keeps the index exact.
proof fn lemma_plan_push_index<K: KeyEncoding>(
    before: Seq<BatchPlanNode<K::Unit>>,
    after: Seq<BatchPlanNode<K::Unit>>,
    endpoint: usize,
    unit: K::Unit,
    entries: Map<u128, usize>,
)
    requires
        plan_pushed(before, after, endpoint, unit),
        edges_indexed::<K>(before, entries),
        !entries.dom().contains(edge_key(endpoint as int, K::rank(unit)) as u128),
    ensures
        edges_indexed::<K>(
            after,
            entries.insert(
                edge_key(endpoint as int, K::rank(unit)) as u128,
                before.len() as usize,
            ),
        ),
{
    reveal(edges_indexed);
    let key = edge_key(endpoint as int, K::rank(unit)) as u128;
    let entries_after = entries.insert(key, before.len() as usize);
    assert forall|i: int| 0 <= i < before.len() implies (#[trigger] after[i]).edge == before[i].edge
        && after[i].parent == before[i].parent by {
        if i != endpoint {
            assert(after[i] == before[i]);
        }
    }
    assert forall|i: int| 1 <= i < after.len() implies {
        let k = edge_key((#[trigger] after[i]).parent as int, K::rank(after[i].edge->0)) as u128;
        entries_after.dom().contains(k) && entries_after[k] == i
    } by {
        if i < before.len() {
            let k = edge_key(before[i].parent as int, K::rank(before[i].edge->0)) as u128;
            assert(entries.dom().contains(k) && entries[k] == i);
        }
    }
    assert forall|e: usize, u: K::Unit|
        entries_after.dom().contains(#[trigger] edge_key(e as int, K::rank(u)) as u128) implies {
        let i = entries_after[edge_key(e as int, K::rank(u)) as u128] as int;
        1 <= i < after.len() && after[i].parent == e && after[i].edge == Some(u)
    } by {
        let k = edge_key(e as int, K::rank(u)) as u128;
        if k == key {
            lemma_edge_key_injective(e, K::rank(u), endpoint, K::rank(unit));
            K::rank_injective(u, unit);
        } else {
            assert(entries.dom().contains(k));
            let i = entries[k] as int;
            assert(before[i].parent == e && before[i].edge == Some(u));
            assert(after[i].edge == before[i].edge);
        }
    }
}

/// The node that `unit` leads to from `endpoint`, made if there is none.
fn plan_step<K: KeyEncoding>(
    plan: &mut Vec<BatchPlanNode<K::Unit>>,
    index: &mut FxHashMap<u128, usize>,
    endpoint: usize,
    unit: K::Unit,
) -> (r: usize)
    requires
        plan_wf(old(plan)@),
        edges_indexed::<K>(old(plan)@, fx_entries(*old(index))),
        endpoint < old(plan)@.len(),
        old(plan)@.len() < usize::MAX,
    ensures
        plan_wf(final(plan)@),
        edges_indexed::<K>(final(plan)@, fx_entries(*final(index))),
        plan_grows(old(plan)@, final(plan)@),
        final(plan)@.len() <= old(plan)@.len() + 1,
        r < final(plan)@.len(),
        final(plan)@.len() > old(plan)@.len() ==> r == old(plan)@.len(),
        plan_path(final(plan)@, r as int) == plan_path(old(plan)@, endpoint as int).push(unit),
{
    let rank: u64 = K::unit_rank(unit);
    let key: u128 = (endpoint as u128) * 0x1_0000_0000_0000_0000u128 + (rank as u128);
    assert(key == edge_key(endpoint as int, K::rank(unit)));
    let ghost before = plan@;
    match fx_get(index, key) {
        Some(existing) => {
            proof {
                reveal(plan_wf);
                reveal(edges_indexed);
                assert(fx_entries(*index).dom().contains(
                    edge_key(endpoint as int, K::rank(unit)) as u128,
                ));
                assert(plan@[existing as int].parent == endpoint);
            }
            existing
        },
        None => {
            let child: usize = plan.len();
            let ghost entries = fx_entries(*index);
            plan.push(
                BatchPlanNode {
                    edge: Some(unit),
                    parent: endpoint,
                    children: Vec::new(),
                    selected_candidate: None,
                },
            );
            plan[endpoint].children.push(child);
            fx_insert(index, key, child);
            proof {
                let after = plan@;
                assert forall|i: int| 0 <= i < before.len() && i != endpoint implies #[trigger] after[i]
                    == before[i] by {}
                lemma_plan_push_wf::<K>(before, after, endpoint, unit, entries);
                lemma_plan_push_index::<K>(before, after, endpoint, unit, entries);
                lemma_plan_path_stable(before, after, endpoint as int);
            }
            child
        },
    }
}

/// The number of units on the paths of the first `n` candidates.
pub open spec fn batch_units<U: Copy>(batch: CompactEvictionBatch<U>, n: nat) -> nat
    decreases n,
{
    if n == 0 {
        0
    } else {
        batch_units(batch, (n - 1) as nat) + batch.path(n - 1).len()
    }
}

/// Two candidates name one path.
pub open spec fn aliased<U: Copy>(batch: CompactEvictionBatch<U>, a: int, b: int) -> bool {
    &&& 0 <= a < b < batch.candidates@.len()
    &&& batch.path(a) == batch.path(b)
}

/// A candidate off the topology, or two candidates of one path.
pub open spec fn batch_rejected<U: Copy>(batch: CompactEvictionBatch<U>) -> bool {
    ||| exists|c: int| 0 <= c < batch.candidates@.len() && !#[trigger] batch.valid(c)
    ||| exists|a: int, b: int| #[trigger] aliased(batch, a, b)
}

/// Some node of a plan is marked with a candidate.
pub open spec fn marked<U>(plan: Seq<BatchPlanNode<U>>, c: int) -> bool {
    exists|i: int| 0 <= i < plan.len() && (#[trigger] plan[i]).selected_candidate == Some(c as usize)
}

/// The marks of a plan: each of the first `n` candidates is selected at the node
/// of its path, and nothing else is.
#[verifier::opaque]
pub open spec fn plan_marks<U: Copy>(
    plan: Seq<BatchPlanNode<U>>,
    batch: CompactEvictionBatch<U>,
    n: int,
) -> bool {
    &&& forall|i: int|
        0 <= i < plan.len() ==> match (#[trigger] plan[i]).selected_candidate {
            Some(c) => c < n && plan_path(plan, i) == batch.path(c as int),
            None => true,
        }
    &&& forall|c: int| 0 <= c < n ==> #[trigger] marked(plan, c) && batch.valid(c)
}

/// A path leads along the path of one of the first `n` candidates.
pub open spec fn on_candidate_path<U: Copy>(
    path: Seq<U>,
    batch: CompactEvictionBatch<U>,
    n: int,
) -> bool {
    exists|c: int| 0 <= c < n && path.is_prefix_of(#[trigger] batch.path(c))
}

/// Every node of a plan lies on the path of one of the first `n` candidates.
#[verifier::opaque]
pub open spec fn plan_covered<U: Copy>(
    plan: Seq<BatchPlanNode<U>>,
    batch: CompactEvictionBatch<U>,
    n: int,
) -> bool {
    forall|i: int|
        1 <= i < plan.len() ==> #[trigger] on_candidate_path(plan_path(plan, i), batch, n)
}

/// A plan for a batch: the trie of the candidates' paths, with each candidate
/// marked at the end of its path.
pub open spec fn plans<U: Copy>(plan: Seq<BatchPlanNode<U>>, batch: CompactEvictionBatch<U>) -> bool {
    &&& plan_wf(plan)
    &&& plan_marks(plan, batch, batch.candidates@.len() as int)
    &&& plan_covered(plan, batch, batch.candidates@.len() as int)
}

/// The endpoints that were found so far are right.
#[verifier::opaque]
spec fn endpoints_known<U>(
    plan: Seq<BatchPlanNode<U>>,
    entries: Seq<TopologyEntry<U>>,
    known: Map<u128, usize>,
) -> bool {
    forall|o: usize|
        #[trigger] known.dom().contains(o as u128) ==> {
            &&& known[o as u128] < plan.len()
            &&& plan_path(plan, known[o as u128] as int) == topology_path(entries, o as int)
        }
}

/// Growing a plan keeps what is known of it.
proof fn lemma_plan_grows<U: Copy>(
    before: Seq<BatchPlanNode<U>>,
    after: Seq<BatchPlanNode<U>>,
    batch: CompactEvictionBatch<U>,
    known: Map<u128, usize>,
    n: int,
)
    requires
        plan_grows(before, after),
        plan_marks(before, batch, n),
        endpoints_known(before, batch.topology.entries@, known),
    ensures
        plan_marks(after, batch, n),
        endpoints_known(after, batch.topology.entries@, known),
        forall|i: int| 0 <= i < before.len() ==> #[trigger] plan_path(after, i) == plan_path(before, i),
{
    reveal(plan_marks);
    reveal(endpoints_known);
    assert forall|i: int| 0 <= i < before.len() implies #[trigger] plan_path(after, i) == plan_path(
        before,
        i,
    ) by {
        lemma_plan_path_stable(before, after, i);
    }
    assert forall|i: int| 0 <= i < after.len() implies match (#[trigger] after[i]).selected_candidate {
        Some(c) => c < n && plan_path(after, i) == batch.path(c as int),
        None => true,
    } by {
        if i < before.len() {
            assert(after[i].selected_candidate == before[i].selected_candidate);
            assert(plan_path(after, i) == plan_path(before, i));
        }
    }
    assert forall|c: int| 0 <= c < n implies #[trigger] marked(after, c) && batch.valid(c) by {
        assert(marked(before, c));
        let i = choose|i: int|
            0 <= i < before.len() && (#[trigger] before[i]).selected_candidate == Some(c as usize);
        assert(after[i].selected_candidate == before[i].selected_candidate);
    }
}

/// What holds of a plan under construction.
spec fn plan_state<K: KeyEncoding>(
    plan: Seq<BatchPlanNode<K::Unit>>,
    index: Map<u128, usize>,
    known: Map<u128, usize>,
    batch: CompactEvictionBatch<K::Unit>,
    selected: int,
    covered: int,
) -> bool {
    &&& plan_wf(plan)
    &&& plan.len() >= 1
    &&& edges_indexed::<K>(plan, index)
    &&& endpoints_known(plan, batch.topology.entries@, known)
    &&& plan_marks(plan, batch, selected)
    &&& plan_covered(plan, batch, covered)
}

/// A chain of registered paths, listed from the deepest up, below a path.
spec fn chain_below<U>(entries: Seq<TopologyEntry<U>>, top: Seq<U>, chain: Seq<usize>) -> bool {
    forall|k: int|
        0 <= k < chain.len() ==> {
            &&& 0 < #[trigger] chain[k] <= entries.len()
            &&& topology_path(entries, chain[k] as int) == top + chain_units(entries, chain.skip(k))
        }
}

/// Climbing one step.
proof fn lemma_chain_climb<U>(
    entries: Seq<TopologyEntry<U>>,
    ordinal: usize,
    chain: Seq<usize>,
    goal: Seq<U>,
)
    requires
        0 < ordinal <= entries.len(),
        entries[ordinal - 1].parent.ordinal < ordinal,
        chain_below(entries, topology_path(entries, ordinal as int), chain),
        goal == topology_path(entries, ordinal as int) + chain_units(entries, chain),
    ensures
        ({
            let up = topology_path(entries, entries[ordinal - 1].parent.ordinal as int);
            &&& chain_below(entries, up, chain.push(ordinal))
            &&& goal == up + chain_units(entries, chain.push(ordinal))
        }),
{
    assert(chain_units(entries, Seq::<usize>::empty()) == Seq::<U>::empty());
    let up = topology_path(entries, entries[ordinal - 1].parent.ordinal as int);
    let longer = chain.push(ordinal);
    assert(longer.drop_last() =~= chain);
    assert(goal =~= up + chain_units(entries, longer));
    assert forall|k: int| 0 <= k < longer.len() implies {
        &&& 0 < #[trigger] longer[k] <= entries.len()
        &&& topology_path(entries, longer[k] as int) == up + chain_units(entries, longer.skip(k))
    } by {
        let tail = longer.skip(k);
        assert(tail.last() == ordinal);
        if k < chain.len() {
            assert(longer[k] == chain[k]);
            assert(tail.drop_last() =~= chain.skip(k));
            assert(topology_path(entries, longer[k] as int) =~= up + chain_units(entries, tail));
        } else {
            assert(tail.drop_last() =~= Seq::<usize>::empty());
            assert(topology_path(entries, longer[k] as int) =~= up + chain_units(entries, tail));
        }
    }
}

/// Descending one step.
proof fn lemma_chain_descend<U>(
    entries: Seq<TopologyEntry<U>>,
    top: Seq<U>,
    chain: Seq<usize>,
    goal: Seq<U>,
)
    requires
        chain.len() > 0,
        chain_below(entries, top, chain),
        goal == top + chain_units(entries, chain),
    ensures
        ({
            let down = top + entries[chain.last() - 1].segment@;
            &&& chain_below(entries, down, chain.drop_last())
            &&& goal == down + chain_units(entries, chain.drop_last())
            &&& down == topology_path(entries, chain.last() as int)
            &&& 0 < chain.last() <= entries.len()
            &&& chain_units(entries, chain).len() == entries[chain.last() - 1].segment@.len()
                + chain_units(entries, chain.drop_last()).len()
        }),
{
    assert(chain_units(entries, Seq::<usize>::empty()) == Seq::<U>::empty());
    let down = top + entries[chain.last() - 1].segment@;
    let shorter = chain.drop_last();
    assert(goal =~= down + chain_units(entries, shorter));
    assert forall|k: int| 0 <= k < shorter.len() implies {
        &&& 0 < #[trigger] shorter[k] <= entries.len()
        &&& topology_path(entries, shorter[k] as int) == down + chain_units(
            entries,
            shorter.skip(k),
        )
    } by {
        assert(chain[k] == shorter[k]);
        let tail = chain.skip(k);
        assert(tail.last() == chain.last());
        assert(tail.drop_last() =~= shorter.skip(k));
        assert(top + chain_units(entries, tail) =~= down + chain_units(entries, shorter.skip(k)));
    }
    let last = chain.len() - 1;
    assert(chain[last] == chain.last());
    assert(chain.skip(last).drop_last() =~= Seq::<usize>::empty());
    assert(chain_units(entries, chain.skip(last)) =~= entries[chain.last() - 1].segment@);
}

/// One more unit of a candidate's path.
fn plan_extend<K: KeyEncoding>(
    plan: &mut Vec<BatchPlanNode<K::Unit>>,
    index: &mut FxHashMap<u128, usize>,
    known: &FxHashMap<u128, usize>,
    batch: &CompactEvictionBatch<K::Unit>,
    candidate: usize,
    endpoint: usize,
    unit: K::Unit,
) -> (r: usize)
    requires
        plan_state::<K>(
            old(plan)@,
            fx_entries(*old(index)),
            fx_entries(*known),
            *batch,
            candidate as int,
            candidate + 1,
        ),
        endpoint < old(plan)@.len() < usize::MAX,
        plan_path(old(plan)@, endpoint as int).push(unit).is_prefix_of(batch.path(candidate as int)),
    ensures
        plan_state::<K>(
            final(plan)@,
            fx_entries(*final(index)),
            fx_entries(*known),
            *batch,
            candidate as int,
            candidate + 1,
        ),
        r < final(plan)@.len() <= old(plan)@.len() + 1,
        plan_path(final(plan)@, r as int) == plan_path(old(plan)@, endpoint as int).push(unit),
{
    let ghost before = plan@;
    let r: usize = plan_step::<K>(plan, index, endpoint, unit);
    proof {
        lemma_plan_grows(before, plan@, *batch, fx_entries(*known), candidate as int);
        assert(plan_covered(plan@, *batch, candidate + 1)) by {
            reveal(plan_covered);
            assert forall|j: int| 1 <= j < plan@.len() implies #[trigger] on_candidate_path(
                plan_path(plan@, j),
                *batch,
                candidate + 1,
            ) by {
                if j < before.len() {
                    assert(plan_path(plan@, j) == plan_path(before, j));
                    assert(on_candidate_path(plan_path(before, j), *batch, candidate + 1));
                } else {
                    assert(j == r);
                    assert(plan_path(plan@, j).is_prefix_of(batch.path(candidate as int)));
                }
            }
        }
    }
    r
}

/// The endpoint of a registered path: climbs to the nearest ancestor whose
/// endpoint is known and adds the missing nodes below it.
fn plan_endpoint<K: KeyEncoding>(
    plan: &mut Vec<BatchPlanNode<K::Unit>>,
    index: &mut FxHashMap<u128, usize>,
    known: &mut FxHashMap<u128, usize>,
    batch: &CompactEvictionBatch<K::Unit>,
    candidate: usize,
) -> (r: Option<usize>)
    requires
        batch.wf(),
        candidate < batch.candidates@.len(),
        batch.valid(candidate as int),
        plan_state::<K>(
            old(plan)@,
            fx_entries(*old(index)),
            fx_entries(*old(known)),
            *batch,
            candidate as int,
            candidate as int,
        ),
    ensures
        match r {
            Some(endpoint) => {
                &&& plan_state::<K>(
                    final(plan)@,
                    fx_entries(*final(index)),
                    fx_entries(*final(known)),
                    *batch,
                    candidate as int,
                    candidate + 1,
                )
                &&& endpoint < final(plan)@.len()
                &&& plan_path(final(plan)@, endpoint as int) == batch.path(candidate as int)
                &&& final(plan)@.len() <= old(plan)@.len() + batch.path(candidate as int).len()
            },
            None => old(plan)@.len() + batch.path(candidate as int).len() >= usize::MAX,
        },
{
    let ghost entries = batch.topology.entries@;
    let ghost goal = batch.path(candidate as int);
    let ghost start_len = plan@.len();
    let mut chain: Vec<usize> = Vec::new();
    let mut ordinal: usize = batch.candidates[candidate].path_id.ordinal;
    let mut endpoint: usize = 0;
    assert(topology_path(entries, ordinal as int) + chain_units(entries, chain@) =~= goal);
    loop
        invariant_except_break
            ordinal <= entries.len(),
            endpoint == 0,
            goal == topology_path(entries, ordinal as int) + chain_units(entries, chain@),
            chain_below(entries, topology_path(entries, ordinal as int), chain@),
        invariant
            batch.topology.wf(),
            entries == batch.topology.entries@,
            plan@.len() >= 1,
            endpoints_known(plan@, entries, fx_entries(*known)),
        ensures
            endpoint < plan@.len(),
            goal == plan_path(plan@, endpoint as int) + chain_units(entries, chain@),
            chain_below(entries, plan_path(plan@, endpoint as int), chain@),
        decreases ordinal,
    {
        if ordinal == 0 {
            break;
        }
        match fx_get(known, ordinal as u128) {
            Some(found) => {
                proof {
                    reveal(endpoints_known);
                    assert(fx_entries(*known).dom().contains(ordinal as u128));
                }
                endpoint = found;
                break;
            },
            None => {},
        }
        proof {
            assert(entries[ordinal - 1].parent.ordinal <= ordinal - 1);
            lemma_chain_climb(entries, ordinal, chain@, goal);
        }
        chain.push(ordinal);
        ordinal = batch.topology.entries[ordinal - 1].parent.ordinal;
    }
    proof {
        assert(plan_covered(plan@, *batch, candidate + 1)) by {
            reveal(plan_covered);
            assert forall|j: int| 1 <= j < plan@.len() implies #[trigger] on_candidate_path(
                plan_path(plan@, j),
                *batch,
                candidate + 1,
            ) by {
                assert(on_candidate_path(plan_path(plan@, j), *batch, candidate as int));
            }
        }
    }
    while chain.len() > 0
        invariant
            entries == batch.topology.entries@,
            goal == batch.path(candidate as int),
            start_len == old(plan)@.len(),
            plan_state::<K>(
                plan@,
                fx_entries(*index),
                fx_entries(*known),
                *batch,
                candidate as int,
                candidate + 1,
            ),
            endpoint < plan@.len(),
            plan@.len() + chain_units(entries, chain@).len() <= start_len + goal.len(),
            goal == plan_path(plan@, endpoint as int) + chain_units(entries, chain@),
            chain_below(entries, plan_path(plan@, endpoint as int), chain@),
        decreases chain@.len(),
    {
        let ghost top_path = plan_path(plan@, endpoint as int);
        proof {
            lemma_chain_descend(entries, top_path, chain@, goal);
        }
        let ghost before = chain@;
        let top: usize = match chain.pop() {
            Some(top) => top,
            None => 0,
        };
        assert(chain@ =~= before.drop_last());
        let segment = &batch.topology.entries[top - 1].segment;
        let mut i: usize = 0;
        while i < segment.len()
            invariant
                i <= segment@.len(),
                goal == batch.path(candidate as int),
                start_len == old(plan)@.len(),
                plan_state::<K>(
                    plan@,
                    fx_entries(*index),
                    fx_entries(*known),
                    *batch,
                    candidate as int,
                    candidate + 1,
                ),
                endpoint < plan@.len(),
                plan_path(plan@, endpoint as int) =~= top_path + segment@.take(i as int),
                goal == top_path + segment@ + chain_units(entries, chain@),
                plan@.len() + (segment@.len() - i) + chain_units(entries, chain@).len() <= start_len
                    + goal.len(),
            decreases segment@.len() - i,
        {
            if plan.len() == usize::MAX {
                return None;
            }
            let unit = segment[i];
            proof {
                assert(segment@.take(i + 1) =~= segment@.take(i as int).push(unit));
                assert(plan_path(plan@, endpoint as int).push(unit) =~= goal.take(
                    top_path.len() + i + 1,
                ));
                assert(plan_path(plan@, endpoint as int).push(unit).is_prefix_of(goal));
            }
            endpoint = plan_extend::<K>(plan, index, known, batch, candidate, endpoint, unit);
            i += 1;
        }
        assert(segment@.take(i as int) =~= segment@);
        assert(plan_path(plan@, endpoint as int) =~= topology_path(entries, top as int));
        let ghost known_before = fx_entries(*known);
        fx_insert(known, top as u128, endpoint);
        proof {
            assert(endpoints_known(plan@, entries, fx_entries(*known))) by {
                reveal(endpoints_known);
                assert forall|o: usize| #[trigger]
                    fx_entries(*known).dom().contains(o as u128) implies {
                    &&& fx_entries(*known)[o as u128] < plan@.len()
                    &&& plan_path(plan@, fx_entries(*known)[o as u128] as int) == topology_path(
                        entries,
                        o as int,
                    )
                } by {
                    if o != top {
                        assert(known_before.dom().contains(o as u128));
                    }
                }
            }
        }
    }
    assert(chain_units(entries, chain@) =~= Seq::empty());
    assert(plan_path(plan@, endpoint as int) =~= goal);
    Some(endpoint)
}

/// The trie of all selected paths, or `None` when a candidate is off the topology,
/// when two candidates name one path, or when the trie would not fit in memory's
/// address range.
pub fn build_batch_plan<K: KeyEncoding>(batch: &CompactEvictionBatch<K::Unit>) -> (r: Option<
    Vec<BatchPlanNode<K::Unit>>,
>)
    requires
        batch.wf(),
    ensures
        match r {
            Some(plan) => !batch_rejected(*batch) && plans(plan@, *batch) && plan@[0].edge is None,
            None => batch_rejected(*batch) || batch_units(*batch, batch.candidates@.len()) + 1
                >= usize::MAX,
        },
{
    let mut plan: Vec<BatchPlanNode<K::Unit>> = Vec::new();
    plan.push(
        BatchPlanNode {
            edge: None,
            parent: 0,
            children: Vec::new(),
            selected_candidate: None,
        },
    );
    let mut index = fx_new();
    let mut known = fx_new();
    proof {
        reveal(plan_wf);
        reveal(edges_indexed);
        reveal(endpoints_known);
        reveal(plan_marks);
        reveal(plan_covered);
    }
    let mut candidate: usize = 0;
    while candidate < batch.candidates.len()
        invariant
            batch.wf(),
            candidate <= batch.candidates@.len(),
            plan_state::<K>(
                plan@,
                fx_entries(index),
                fx_entries(known),
                *batch,
                candidate as int,
                candidate as int,
            ),
            plan@.len() <= 1 + batch_units(*batch, candidate as nat),
        decreases batch.candidates@.len() - candidate,
    {
        let id: RegistryPathId = batch.candidates[candidate].path_id;
        if id.ordinal == 0 || id.ordinal > batch.topology.len() {
            assert(!batch.valid(candidate as int));
            return None;
        }
        proof {
            lemma_batch_units_monotone(*batch, candidate + 1, batch.candidates@.len());
        }
        match plan_endpoint::<K>(&mut plan, &mut index, &mut known, batch, candidate) {
            Some(endpoint) => {
                let ghost before = plan@;
                if plan[endpoint].selected_candidate.is_some() {
                    proof {
                        reveal(plan_marks);
                        let other = before[endpoint as int].selected_candidate->0;
                        assert(aliased(*batch, other as int, candidate as int));
                    }
                    return None;
                }
                plan[endpoint].selected_candidate = Some(candidate);
                proof {
                    lemma_plan_mark_wf(before, plan@, endpoint as int);
                    lemma_plan_mark(
                        before,
                        plan@,
                        *batch,
                        fx_entries(known),
                        endpoint as int,
                        candidate,
                    );
                    lemma_index_mark::<K>(before, plan@, fx_entries(index));
                }
            },
            None => {
                return None;
            },
        }
        candidate += 1;
    }
    proof {
        lemma_plan_accepts(plan@, *batch);
    }
    Some(plan)
}

/// A batch with a plan is not rejected.
proof fn lemma_plan_accepts<U: Copy>(plan: Seq<BatchPlanNode<U>>, batch: CompactEvictionBatch<U>)
    requires
        plan_wf(plan),
        plan_marks(plan, batch, batch.candidates@.len() as int),
    ensures
        !batch_rejected(batch),
{
    reveal(plan_marks);
    let n = batch.candidates@.len() as int;
    assert(batch.candidates.len() == n);
    assert forall|c: int| 0 <= c < n implies #[trigger] batch.valid(c) by {
        assert(marked(plan, c));
    }
    assert forall|a: int, b: int| !#[trigger] aliased(batch, a, b) by {
        if aliased(batch, a, b) {
            assert(marked(plan, a) && marked(plan, b));
            let i = choose|i: int|
                0 <= i < plan.len() && (#[trigger] plan[i]).selected_candidate == Some(a as usize);
            let j = choose|i: int|
                0 <= i < plan.len() && (#[trigger] plan[i]).selected_candidate == Some(b as usize);
            plan_paths_are_distinct(plan, i, j);
        }
    }
}

/// More candidates have more units.
proof fn lemma_batch_units_monotone<U: Copy>(batch: CompactEvictionBatch<U>, a: int, b: nat)
    requires
        0 <= a <= b,
    ensures
        batch_units(batch, a as nat) <= batch_units(batch, b),
    decreases b,
{
    if a < b {
        lemma_batch_units_monotone(batch, a, (b - 1) as nat);
    }
}

/// Marking a node keeps the index exact.
proof fn lemma_index_mark<K: KeyEncoding>(
    before: Seq<BatchPlanNode<K::Unit>>,
    after: Seq<BatchPlanNode<K::Unit>>,
    index: Map<u128, usize>,
)
    requires
        edges_indexed::<K>(before, index),
        before.len() == after.len(),
        forall|i: int|
            0 <= i < before.len() ==> (#[trigger] after[i]).edge == before[i].edge
                && after[i].parent == before[i].parent,
    ensures
        edges_indexed::<K>(after, index),
{
    reveal(edges_indexed);
    assert forall|i: int| 1 <= i < after.len() implies {
        let key = edge_key((#[trigger] after[i]).parent as int, K::rank(after[i].edge->0)) as u128;
        index.dom().contains(key) && index[key] == i
    } by {
        let key = edge_key((#[trigger] before[i]).parent as int, K::rank(before[i].edge->0)) as u128;
        assert(index.dom().contains(key));
    }
}

/// Only the mark of one node differs.
spec fn plan_remarked<U>(
    before: Seq<BatchPlanNode<U>>,
    after: Seq<BatchPlanNode<U>>,
    endpoint: int,
) -> bool {
    &&& 0 <= endpoint < before.len()
    &&& after.len() == before.len()
    &&& forall|i: int|
        0 <= i < before.len() ==> (#[trigger] after[i]).edge == before[i].edge && after[i].parent
            == before[i].parent && after[i].children == before[i].children
    &&& forall|i: int|
        0 <= i < before.len() && i != endpoint ==> (#[trigger] after[i]).selected_candidate
            == before[i].selected_candidate
}

/// Marks do not matter to the shape of a plan.
proof fn lemma_plan_mark_wf<U>(
    before: Seq<BatchPlanNode<U>>,
    after: Seq<BatchPlanNode<U>>,
    endpoint: int,
)
    requires
        plan_wf(before),
        plan_remarked(before, after, endpoint),
    ensures
        plan_wf(after),
{
    reveal(plan_wf);
    assert forall|i: int| 1 <= i < after.len() implies (#[trigger] after[i]).parent < i
        && after[i].edge is Some && after[after[i].parent as int].children@.contains(i as usize) by {
        assert(before[i].parent < i);
        assert(after[before[i].parent as int].children == before[before[i].parent as int].children);
    }
    assert forall|i: int, j: int|
        1 <= i < j < after.len() && (#[trigger] after[i]).parent == (#[trigger] after[j]).parent implies after[i].edge
        != after[j].edge by {
        assert(before[i].edge != before[j].edge);
    }
    assert forall|p: int, k: int| 0 <= p < after.len() && 0 <= k < after[p].children@.len() implies {
        let c = #[trigger] after[p].children@[k];
        p < c < after.len() && after[c as int].parent == p
    } by {
        assert(after[p].children == before[p].children);
        let c = before[p].children@[k];
        assert(before[c as int].parent == p);
    }
    assert forall|p: int, k: int, l: int|
        0 <= p < after.len() && 0 <= k < l < after[p].children@.len() implies (
    #[trigger] after[p].children@[k]) < (#[trigger] after[p].children@[l]) by {
        assert(after[p].children == before[p].children);
        assert(before[p].children@[k] < before[p].children@[l]);
    }
}

/// Marking the endpoint of a candidate.
proof fn lemma_plan_mark<U: Copy>(
    before: Seq<BatchPlanNode<U>>,
    after: Seq<BatchPlanNode<U>>,
    batch: CompactEvictionBatch<U>,
    known: Map<u128, usize>,
    endpoint: int,
    candidate: usize,
)
    requires
        candidate < batch.candidates@.len(),
        batch.valid(candidate as int),
        plan_marks(before, batch, candidate as int),
        plan_covered(before, batch, candidate + 1),
        endpoints_known(before, batch.topology.entries@, known),
        plan_remarked(before, after, endpoint),
        plan_path(before, endpoint) == batch.path(candidate as int),
        before[endpoint].selected_candidate is None,
        after[endpoint].selected_candidate == Some(candidate),
    ensures
        plan_marks(after, batch, candidate + 1),
        plan_covered(after, batch, candidate + 1),
        endpoints_known(after, batch.topology.entries@, known),
{
    reveal(plan_marks);
    reveal(plan_covered);
    reveal(endpoints_known);
    assert forall|i: int| 0 <= i < before.len() implies #[trigger] plan_path(after, i) == plan_path(
        before,
        i,
    ) by {
        lemma_plan_path_stable(before, after, i);
    }
    assert forall|i: int| 0 <= i < after.len() implies match (#[trigger] after[i]).selected_candidate {
        Some(c) => c < candidate + 1 && plan_path(after, i) == batch.path(c as int),
        None => true,
    } by {
        assert(plan_path(after, i) == plan_path(before, i));
        if i != endpoint {
            assert(after[i].selected_candidate == before[i].selected_candidate);
        }
    }
    assert forall|c: int| 0 <= c < candidate + 1 implies #[trigger] marked(after, c) && batch.valid(
        c,
    ) by {
        if c == candidate {
            assert(after[endpoint].selected_candidate == Some(c as usize));
        } else {
            assert(marked(before, c));
            let i = choose|i: int|
                0 <= i < before.len() && (#[trigger] before[i]).selected_candidate == Some(
                    c as usize,
                );
            assert(after[i].selected_candidate == before[i].selected_candidate);
        }
    }
    assert forall|i: int| 1 <= i < after.len() implies #[trigger] on_candidate_path(
        plan_path(after, i),
        batch,
        candidate + 1,
    ) by {
        assert(on_candidate_path(plan_path(before, i), batch, candidate + 1));
    }
}

/// The children of a plan node come after it and have edges.
pub proof fn lemma_plan_child<U>(plan: Seq<BatchPlanNode<U>>, i: int, k: int)
    requires
        plan_wf(plan),
        0 <= i < plan.len(),
        0 <= k < plan[i].children@.len(),
    ensures
        i < plan[i].children@[k] < plan.len(),
        plan[plan[i].children@[k] as int].parent == i,
        plan[plan[i].children@[k] as int].edge is Some,
{
    reveal(plan_wf);
    let c = plan[i].children@[k] as int;
    assert(plan[c].edge is Some);
}

/// Siblings in a plan have distinct edges.
pub proof fn lemma_plan_siblings<U>(plan: Seq<BatchPlanNode<U>>, i: int, k: int, l: int)
    requires
        plan_wf(plan),
        0 <= i < plan.len(),
        0 <= k < l < plan[i].children@.len(),
    ensures
        plan[plan[i].children@[k] as int].edge != plan[plan[i].children@[l] as int].edge,
{
    reveal(plan_wf);
    let a = plan[i].children@[k] as int;
    let b = plan[i].children@[l] as int;
    assert(a < b);
    assert(plan[a].parent == i && plan[b].parent == i);
}

/// A plan for a batch is a trie whose marks name candidates.
pub proof fn lemma_plan_in_range<U: Copy>(
    plan: Seq<BatchPlanNode<U>>,
    batch: CompactEvictionBatch<U>,
)
    requires
        plans(plan, batch),
    ensures
        plan_wf(plan),
        plan.len() >= 1,
        forall|i: int|
            0 <= i < plan.len() ==> match (#[trigger] plan[i]).selected_candidate {
                Some(c) => c < batch.candidates@.len(),
                None => true,
            },
{
    reveal(plan_wf);
    reveal(plan_marks);
}

} // verus!
