//! Published roots: what a revision holds, and what becomes of it.

use std::sync::Arc;
use vstd::prelude::*;
use crate::key_encoding::KeyEncoding;
use crate::overlay::atomic_ptr::{
    address_or_zero, cas_verdict, count_of, counted_root, fresh_revision, held_revision,
    init_verdict, root_of, semantic_successor, AtomicNodePtr, CasVerdict, DeferredDurableStamp,
    PreparedBoundRootTransition, PreparedRootBinding, PreparedRootDetachment, PublishedRoot,
    RootRevision,
};
use crate::overlay::node::OverlayNode;
use crate::overlay::residency::{
    cleared_path_hashes, cleared_paths, known_hashes, EvictionBinding, PackedResidencyDelta,
    PreparedPackedResidency, PublishedRegistryCatalog, ResidencyHelpOutcome, RootEvictionRevision,
};
use crate::value::DictionaryValue;

verus! {

/// A rewrite publishes the new root with as many terms as were added to or taken from
/// those before, bound to no registry. It is refused exactly if there would be fewer than
/// none or more than can be counted. Taking back what was added leads to the number of
/// terms before.
pub proof fn a_rewrite_counts_its_terms<K: KeyEncoding, V>(
    current: PublishedRoot<K, V>,
    new: Arc<OverlayNode<K, V>>,
    delta: isize,
    next: Option<PublishedRoot<K, V>>,
    back: Option<PublishedRoot<K, V>>,
)
    requires
        call_ensures(semantic_successor::<K, V>, (&current, new, delta), next),
        isize::MIN < delta,
        next matches Some(n) ==> call_ensures(
            semantic_successor::<K, V>,
            (&n, new, (0 - delta) as isize),
            back,
        ),
    ensures
        next is Some <==> 0 <= current.term_count + delta <= usize::MAX,
        next matches Some(n) ==> n.node == new && n.eviction is None && n.term_count
            - current.term_count == delta,
        next is Some ==> back is Some && back->0.term_count == current.term_count,
{
}

/// A root that was published with a number of terms is found with that number, and an
/// empty slot is found without a root and without terms.
pub proof fn a_published_root_is_found<K: KeyEncoding, V>(
    node: Arc<OverlayNode<K, V>>,
    count: usize,
    fresh: PublishedRoot<K, V>,
    content: Option<Arc<PublishedRoot<K, V>>>,
    held: Option<RootRevision<K, V>>,
    counted: Option<(Arc<OverlayNode<K, V>>, usize)>,
    root: Option<Arc<OverlayNode<K, V>>>,
    terms: usize,
    address: u64,
)
    requires
        call_ensures(fresh_revision::<K, V>, (node, count), fresh),
        content matches Some(published) ==> *published == fresh,
        call_ensures(held_revision::<K, V>, (content,), held),
        call_ensures(counted_root::<K, V>, (&held,), counted),
        call_ensures(root_of::<K, V>, (&held,), root),
        call_ensures(count_of::<K, V>, (&held,), terms),
        call_ensures(address_or_zero::<K, V>, (&root,), address),
    ensures
        fresh.eviction is None,
        content is Some ==> held is Some && counted == Some((node, count)) && root == Some(node)
            && terms == count,
        content is None ==> held is None && counted is None && root is None && terms == 0,
        held matches Some(revision) ==> Some(revision.published) == content,
        address == 0 <==> root is None,
{
}

/// What the handle of a revision tells is what was published.
pub proof fn a_revision_tells_what_was_published<K: KeyEncoding, V>(
    revision: RootRevision<K, V>,
    other: RootRevision<K, V>,
    alias: RootRevision<K, V>,
    node: &Arc<OverlayNode<K, V>>,
    count: usize,
    state: Option<&RootEvictionRevision>,
    binding: Option<EvictionBinding>,
    same: bool,
)
    requires
        call_ensures(RootRevision::<K, V>::alias, (&revision,), alias),
        call_ensures(RootRevision::<K, V>::node, (&revision,), node),
        call_ensures(RootRevision::<K, V>::term_count, (&revision,), count),
        call_ensures(RootRevision::<K, V>::eviction_revision, (&revision,), state),
        call_ensures(RootRevision::<K, V>::eviction_binding, (&revision,), binding),
        call_ensures(RootRevision::<K, V>::same_revision, (&revision, &other), same),
    ensures
        alias == revision,
        *node == revision.published.node,
        count == revision.published.term_count,
        state is Some <==> revision.published.eviction is Some,
        binding is Some <==> state is Some,
        state matches Some(s) ==> *s == *revision.published.eviction->0 && forall|
            b: EvictionBinding,
        | #[trigger]
            call_ensures(RootEvictionRevision::binding, (s,), b) ==> binding == Some(b),
        same ==> revision == other,
{
}

/// A first root is published exactly if the slot was empty; otherwise the root that it
/// held is handed back. A compare-and-swap is won only on the expected revision, and what
/// the slot held is handed back either way.
pub proof fn a_slot_tells_what_it_held<K: KeyEncoding, V>(
    previous: Option<Arc<PublishedRoot<K, V>>>,
    expected: RootRevision<K, V>,
    first: Result<(), Arc<OverlayNode<K, V>>>,
    verdict: CasVerdict<K, V>,
)
    requires
        call_ensures(init_verdict::<K, V>, (previous,), first),
        call_ensures(cas_verdict::<K, V>, (&expected, previous), verdict),
    ensures
        first is Ok <==> previous is None,
        first matches Err(node) ==> node == previous->0.node,
        verdict is Empty <==> previous is None,
        verdict matches CasVerdict::Won(revision) ==> revision == expected
            && revision.published == previous->0,
        verdict matches CasVerdict::Lost(revision) ==> revision.published == previous->0,
{
}

/// What leaves memory with a replacement and what stays make up what was there, in nodes
/// and in bytes. There is no such number exactly if more of either is there afterwards,
/// or if one of the two roots is bound to no registry.
pub proof fn what_leaves_and_what_stays_add_up<K: KeyEncoding, V>(
    transition: PreparedBoundRootTransition<K, V>,
    left: Option<(usize, usize)>,
    was: (usize, usize),
    stays: (usize, usize),
)
    requires
        call_ensures(PreparedBoundRootTransition::<K, V>::evicted_totals, (&transition,), left),
        transition.expected.published.eviction matches Some(before) ==> call_ensures(
            RootEvictionRevision::resident_totals,
            (&*before,),
            was,
        ),
        transition.next.eviction matches Some(after) ==> call_ensures(
            RootEvictionRevision::resident_totals,
            (&*after,),
            stays,
        ),
    ensures
        left is Some <==> transition.expected.published.eviction is Some
            && transition.next.eviction is Some && stays.0 <= was.0 && stays.1 <= was.1,
        left matches Some((nodes, bytes)) ==> nodes + stays.0 == was.0 && bytes + stays.1 == was.1,
{
}

/// A replacement with a residency change is prepared only for a root that is bound, and
/// only if the change was prepared against its present state. It publishes the new root
/// with the same number of terms and with the totals of the change.
pub proof fn an_exact_replacement_carries_its_change<K: KeyEncoding, V: DictionaryValue>(
    expected: RootRevision<K, V>,
    new: Arc<OverlayNode<K, V>>,
    change: PreparedPackedResidency,
    prepared: Option<PreparedBoundRootTransition<K, V>>,
    binding: Option<EvictionBinding>,
)
    requires
        expected.wf(),
        new.wf(),
        call_ensures(
            AtomicNodePtr::<K, V>::prepare_exact_root_transition,
            (&expected, new, change),
            prepared,
        ),
        prepared matches Some(t) ==> call_ensures(
            PreparedBoundRootTransition::<K, V>::binding,
            (&t,),
            binding,
        ),
    ensures
        prepared is Some ==> expected.published.eviction is Some && change.predecessor_ordinal
            == expected.published.eviction->0.ordinal,
        prepared is None && expected.published.eviction is Some && change.predecessor_ordinal
            == expected.published.eviction->0.ordinal ==> change.catalog.binding.told(
            expected.published.eviction->0.catalog.binding,
            false,
        ),
        prepared matches Some(t) ==> {
            &&& t.expected == expected
            &&& t.next.node == new
            &&& t.next.term_count == expected.published.term_count
            &&& binding == Some(change.catalog.binding)
            &&& forall|state: &RootEvictionRevision| #[trigger]
                call_ensures(
                    PreparedBoundRootTransition::<K, V>::next_eviction_revision,
                    (&t,),
                    state,
                ) ==> state.ordinal == change.target_ordinal && state.predecessor_ordinal
                    == change.predecessor_ordinal && state.resident_nodes == change.resident_nodes
                    && state.resident_serialized_bytes == change.resident_serialized_bytes
                    && state.delta == change.delta && state.catalog == change.catalog
        },
{
}

/// A replacement that changes nothing about residency is prepared only for a bound root
/// whose state was helped to completion. It has the same number of terms, the same
/// registry, state and totals, and nothing to carry out.
pub proof fn a_settled_replacement_keeps_the_state<
    K: KeyEncoding,
    V: DictionaryValue,
    H: Fn(&RootEvictionRevision) -> ResidencyHelpOutcome,
>(
    expected: RootRevision<K, V>,
    required: EvictionBinding,
    help: H,
    new: Arc<OverlayNode<K, V>>,
    prepared: Option<PreparedBoundRootTransition<K, V>>,
)
    requires
        expected.wf(),
        new.wf(),
        expected.published.eviction matches Some(e) ==> call_requires(help, (&*e,)),
        call_ensures(
            AtomicNodePtr::<K, V>::prepare_bound_root_transition::<H>,
            (&expected, &required, help, new),
            prepared,
        ),
    ensures
        prepared is Some ==> expected.published.eviction is Some && call_ensures(
            help,
            (&*expected.published.eviction->0,),
            ResidencyHelpOutcome::Complete,
        ),
        prepared matches Some(t) ==> {
            let before = *expected.published.eviction->0;
            let after = *t.next.eviction->0;
            &&& t.expected == expected
            &&& t.next.node == new
            &&& t.next.term_count == expected.published.term_count
            &&& t.next.eviction is Some
            &&& after.catalog == before.catalog
            &&& after.ordinal == before.ordinal
            &&& after.predecessor_ordinal == before.ordinal
            &&& after.resident_nodes == before.resident_nodes
            &&& after.resident_serialized_bytes == before.resident_serialized_bytes
            &&& after.delta is Unchanged
        },
{
}

/// Binding a root to a registry and releasing it keep the root and its number of terms.
/// A bound root starts with the totals that were given, in the first state, with nothing
/// to carry out; a released one is bound to no registry.
pub proof fn binding_and_releasing_keep_the_root<K: KeyEncoding, V: DictionaryValue>(
    expected: RootRevision<K, V>,
    catalog: Arc<PublishedRegistryCatalog>,
    nodes: usize,
    bytes: usize,
    bound: PreparedRootBinding<K, V>,
    binding: Option<EvictionBinding>,
    released: PreparedRootDetachment<K, V>,
)
    requires
        call_ensures(
            AtomicNodePtr::<K, V>::prepare_checkpoint_binding,
            (&expected, catalog, nodes, bytes),
            bound,
        ),
        call_ensures(PreparedRootBinding::<K, V>::binding, (&bound,), binding),
        call_ensures(
            AtomicNodePtr::<K, V>::prepare_retirement_detachment,
            (&expected,),
            released,
        ),
    ensures
        bound.expected == expected,
        bound.next.node == expected.published.node,
        bound.next.term_count == expected.published.term_count,
        bound.next.eviction is Some,
        binding == Some(catalog.binding),
        bound.next.eviction->0.resident_nodes == nodes,
        bound.next.eviction->0.resident_serialized_bytes == bytes,
        bound.next.eviction->0.ordinal == 0,
        bound.next.eviction->0.delta is Unchanged,
        released.expected == expected,
        released.next.node == expected.published.node,
        released.next.term_count == expected.published.term_count,
        released.next.eviction is None,
{
}

/// The states of a root: one right after a checkpoint has the totals that were given, one
/// that changes nothing keeps them, and one after a change has those of the change.
pub proof fn states_follow_one_another(
    catalog: Arc<PublishedRegistryCatalog>,
    nodes: usize,
    bytes: usize,
    first: RootEvictionRevision,
    first_totals: (usize, usize),
    settled: RootEvictionRevision,
    settled_totals: (usize, usize),
    change: PreparedPackedResidency,
    next: Option<RootEvictionRevision>,
)
    requires
        call_ensures(RootEvictionRevision::initial, (catalog, nodes, bytes), first),
        call_ensures(RootEvictionRevision::resident_totals, (&first,), first_totals),
        call_ensures(RootEvictionRevision::settled_successor, (&first,), settled),
        call_ensures(RootEvictionRevision::resident_totals, (&settled,), settled_totals),
        call_ensures(RootEvictionRevision::try_exact_successor, (&settled, change), next),
    ensures
        first_totals == (nodes, bytes),
        settled_totals == first_totals,
        first.catalog == catalog,
        settled.catalog == catalog,
        settled.ordinal == first.ordinal,
        next is Some ==> change.predecessor_ordinal == first.ordinal,
        next is None && change.predecessor_ordinal == first.ordinal ==> change.catalog.binding.told(
            catalog.binding,
            false,
        ),
        next matches Some(n) ==> n.ordinal == change.target_ordinal && n.catalog == change.catalog
            && n.delta == change.delta && forall|totals: (usize, usize)| #[trigger]
            call_ensures(RootEvictionRevision::resident_totals, (&n,), totals) ==> totals == (
                change.resident_nodes,
                change.resident_serialized_bytes,
            ),
{
}

/// The hashes of cleared paths are complete exactly if the catalog knows every one of
/// them. They are then listed one for one in the order of the paths; in any case each
/// path that is known has its hash listed, and nothing else is.
pub proof fn cleared_paths_have_their_hashes(
    revision: RootEvictionRevision,
    hashes: Vec<u64>,
    complete: bool,
    i: int,
)
    requires
        call_ensures(cleared_path_hashes, (&revision,), (hashes, complete)),
    ensures
        !(revision.delta is Cleared) ==> hashes@.len() == 0 && complete,
        revision.delta matches PackedResidencyDelta::Cleared(paths) ==> {
            let known = revision.catalog.path_hashes@;
            &&& complete <==> forall|k: int|
                0 <= k < paths@.len() ==> (#[trigger] paths@[k]) < known.len()
            &&& complete ==> hashes@.len() == paths@.len()
            &&& complete && 0 <= i < paths@.len() ==> hashes@[i] == known[paths@[i] as int]
            &&& 0 <= i < paths@.len() && paths@[i] < known.len() ==> hashes@.contains(
                known[paths@[i] as int],
            )
            &&& 0 <= i < hashes@.len() ==> exists|k: int|
                0 <= k < paths@.len() && (#[trigger] paths@[k]) < known.len() && hashes@[i]
                    == known[paths@[k] as int]
            &&& hashes@.len() <= paths@.len()
        },
{
    if revision.delta is Cleared {
        lemma_known_hashes(revision.catalog.path_hashes@, cleared_paths(revision.delta), i);
    }
}

/// What the hashes of known paths are.
proof fn lemma_known_hashes(known: Seq<u64>, paths: Seq<usize>, i: int)
    ensures
        ({
            let hashes = known_hashes(known, paths);
            let complete = forall|k: int| 0 <= k < paths.len() ==> (#[trigger] paths[k]) < known.len();
            &&& complete ==> hashes.len() == paths.len()
            &&& complete && 0 <= i < paths.len() ==> hashes[i] == known[paths[i] as int]
            &&& 0 <= i < paths.len() && paths[i] < known.len() ==> hashes.contains(
                known[paths[i] as int],
            )
            &&& 0 <= i < hashes.len() ==> exists|k: int|
                0 <= k < paths.len() && (#[trigger] paths[k]) < known.len() && hashes[i]
                    == known[paths[k] as int]
            &&& hashes.len() <= paths.len()
        }),
    decreases paths.len(),
{
    if paths.len() > 0 {
        let fewer = paths.drop_last();
        let m = paths.len() - 1;
        lemma_known_hashes(known, fewer, i);
        let hashes = known_hashes(known, paths);
        let before = known_hashes(known, fewer);
        assert(paths[m] == paths.last());
        if forall|k: int| 0 <= k < paths.len() ==> (#[trigger] paths[k]) < known.len() {
            assert forall|k: int| 0 <= k < fewer.len() implies (#[trigger] fewer[k]) < known.len() by {
                assert(paths[k] < known.len());
            }
        }
        if 0 <= i < m && paths[i] < known.len() {
            assert(fewer[i] == paths[i]);
            let j = choose|j: int| 0 <= j < before.len() && before[j] == known[paths[i] as int];
            assert(hashes[j] == before[j]);
        }
        if i == m && paths[m] < known.len() {
            assert(hashes[before.len() as int] == known[paths[m] as int]);
        }
        if 0 <= i < before.len() {
            let k = choose|k: int|
                0 <= k < fewer.len() && (#[trigger] fewer[k]) < known.len() && before[i]
                    == known[fewer[k] as int];
            assert(paths[k] == fewer[k]);
            assert(hashes[i] == before[i]);
        }
    }
}

/// A stamp that was put off gives its node the stamp, and changes nothing else: the
/// node is as if it had been stamped at once.
pub proof fn a_stamp_can_be_put_off<K: KeyEncoding, V: DictionaryValue>(
    node: Arc<OverlayNode<K, V>>,
    raw: u64,
    stamp: DeferredDurableStamp<K, V>,
    later: OverlayNode<K, V>,
    at_once: OverlayNode<K, V>,
    found: u64,
)
    requires
        call_ensures(DeferredDurableStamp::<K, V>::new, (node, raw), stamp),
        call_ensures(DeferredDurableStamp::<K, V>::apply, (&stamp,), later),
        call_ensures(OverlayNode::<K, V>::with_durable_stamp, (&*node, raw), at_once),
        call_ensures(OverlayNode::<K, V>::durable_stamp, (&later,), found),
    ensures
        later@ == at_once@,
        found == raw,
{
}

/// A residency state is handed out exactly if helping it has completed.
pub proof fn a_state_is_handed_out_when_helped<
    K: KeyEncoding,
    V,
    H: Fn(&RootEvictionRevision) -> ResidencyHelpOutcome,
>(revision: RootRevision<K, V>, help: H, state: Option<&RootEvictionRevision>)
    requires
        revision.published.eviction matches Some(e) ==> call_requires(help, (&*e,)),
        call_ensures(
            RootRevision::<K, V>::help_eviction_revision::<H>,
            (&revision, help),
            state,
        ),
    ensures
        state is Some ==> revision.published.eviction is Some && *state->0
            == *revision.published.eviction->0 && call_ensures(
            help,
            (&*revision.published.eviction->0,),
            ResidencyHelpOutcome::Complete,
        ),
        state is None && revision.published.eviction is Some ==> call_ensures(
            help,
            (&*revision.published.eviction->0,),
            ResidencyHelpOutcome::Stale,
        ),
{
}

/// An exchange that counts terms is refused with the revision itself if the count would
/// leave its range, and what an exchange hands back when it succeeds is what it expected.
pub proof fn an_exchange_hands_back_what_it_expected<K: KeyEncoding, V: DictionaryValue>(
    slot: AtomicNodePtr<K, V>,
    expected: RootRevision<K, V>,
    new: Arc<OverlayNode<K, V>>,
    delta: isize,
    outcome: Result<RootRevision<K, V>, Option<RootRevision<K, V>>>,
    root: Arc<OverlayNode<K, V>>,
    plain: Result<Arc<OverlayNode<K, V>>, Arc<OverlayNode<K, V>>>,
)
    requires
        expected.wf(),
        new.wf(),
        call_ensures(
            AtomicNodePtr::<K, V>::compare_exchange_revision_counted,
            (&slot, &expected, new, delta),
            outcome,
        ),
        call_ensures(AtomicNodePtr::<K, V>::compare_exchange, (&slot, &root, new), plain),
    ensures
        outcome matches Ok(previous) ==> previous == expected,
        !(0 <= expected.published.term_count + delta <= usize::MAX) ==> (outcome matches Err(
            Some(actual),
        ) && actual == expected),
        plain matches Ok(previous) ==> previous == root,
{
}

/// A slot is made with a root and its number of terms, with none of them, or with a root
/// without terms, as it was asked for.
pub proof fn a_slot_is_made_as_asked<K: KeyEncoding, V: DictionaryValue>(
    node: Arc<OverlayNode<K, V>>,
    count: usize,
    counted: AtomicNodePtr<K, V>,
    plain: AtomicNodePtr<K, V>,
    empty: AtomicNodePtr<K, V>,
)
    requires
        node.wf(),
        call_ensures(AtomicNodePtr::<K, V>::new_with_term_count, (node, count), counted),
        call_ensures(AtomicNodePtr::<K, V>::new, (node,), plain),
        call_ensures(AtomicNodePtr::<K, V>::null, (), empty),
    ensures
        exists|content: Arc<PublishedRoot<K, V>>| #[trigger]
            counted.made_with(Some(content)) && content.node == node && content.term_count
                == count && content.eviction is None,
        exists|content: Arc<PublishedRoot<K, V>>| #[trigger]
            plain.made_with(Some(content)) && content.node == node && content.term_count == 0
                && content.eviction is None,
        empty.made_with(None),
{
    let a = choose|revision: Arc<PublishedRoot<K, V>>| #[trigger]
        crate::overlay::atomic_ptr::is_fresh(revision, node, count) && counted.made_with(
            Some(revision),
        );
    assert(counted.made_with(Some(a)));
    let b = choose|revision: Arc<PublishedRoot<K, V>>| #[trigger]
        crate::overlay::atomic_ptr::is_fresh(revision, node, 0) && plain.made_with(Some(revision));
    assert(plain.made_with(Some(b)));
}

/// What a slot is read to hold is told by every observer: whether there is a root, which
/// one, and with how many terms.
pub proof fn a_slot_is_read_as_it_is<K: KeyEncoding, V: DictionaryValue>(
    slot: AtomicNodePtr<K, V>,
    none: bool,
    root: Option<Arc<OverlayNode<K, V>>>,
    counted: Option<(Arc<OverlayNode<K, V>>, usize)>,
    revision: Option<RootRevision<K, V>>,
    terms: usize,
    raw: u64,
)
    requires
        call_ensures(AtomicNodePtr::<K, V>::is_null, (&slot,), none),
        call_ensures(AtomicNodePtr::<K, V>::load, (&slot,), root),
        call_ensures(AtomicNodePtr::<K, V>::load_with_term_count, (&slot,), counted),
        call_ensures(AtomicNodePtr::<K, V>::load_revision, (&slot,), revision),
        call_ensures(AtomicNodePtr::<K, V>::term_count, (&slot,), terms),
        call_ensures(AtomicNodePtr::<K, V>::as_raw, (&slot,), raw),
    ensures
        none ==> slot.read(None),
        !none ==> exists|content: Arc<PublishedRoot<K, V>>| #[trigger] slot.read(Some(content)),
        root is None ==> slot.read(None),
        root matches Some(node) ==> exists|content: Arc<PublishedRoot<K, V>>| #[trigger]
            slot.read(Some(content)) && content.node == node,
        counted is None ==> slot.read(None),
        counted matches Some((node, n)) ==> exists|content: Arc<PublishedRoot<K, V>>| #[trigger]
            slot.read(Some(content)) && content.node == node && content.term_count == n,
        revision is None ==> slot.read(None),
        revision matches Some(r) ==> slot.read(Some(r.published)),
        terms > 0 ==> exists|content: Arc<PublishedRoot<K, V>>| #[trigger]
            slot.read(Some(content)) && content.term_count == terms,
        raw == 0 ==> slot.read(None),
        raw != 0 ==> exists|content: Arc<PublishedRoot<K, V>>| #[trigger]
            slot.read(Some(content)) && crate::shared::told_address(content.node, raw),
{
    let a = choose|content: Option<Arc<PublishedRoot<K, V>>>| #[trigger]
        slot.read(content) && none == (content is None);
    if !none {
        assert(slot.read(Some(a->0)));
    }
    let b = choose|content: Option<Arc<PublishedRoot<K, V>>>| #[trigger]
        slot.read(content) && root == crate::overlay::atomic_ptr::content_root(content);
    if root is Some {
        assert(slot.read(Some(b->0)));
    }
    let c = choose|content: Option<Arc<PublishedRoot<K, V>>>| #[trigger]
        slot.read(content) && counted == match content {
            Some(published) => Some((published.node, published.term_count)),
            None => None,
        };
    if counted is Some {
        assert(slot.read(Some(c->0)));
    }
    let d = choose|content: Option<Arc<PublishedRoot<K, V>>>| #[trigger]
        slot.read(content) && terms == crate::overlay::atomic_ptr::content_count(content);
    if terms > 0 {
        assert(slot.read(Some(d->0)));
    }
    let e = choose|content: Option<Arc<PublishedRoot<K, V>>>| #[trigger]
        slot.read(content) && match content {
            Some(published) => raw != 0 && crate::shared::told_address(published.node, raw),
            None => raw == 0,
        };
    if raw != 0 {
        assert(slot.read(Some(e->0)));
    }
}

/// Storing a root keeps the number of terms that the slot was read to have, and storing
/// both puts both; either way the root is bound to no registry. A slot that is emptied
/// hands back the root that it held.
pub proof fn a_root_is_stored_with_its_terms<K: KeyEncoding, V: DictionaryValue>(
    slot: AtomicNodePtr<K, V>,
    node: Arc<OverlayNode<K, V>>,
    count: usize,
    taken: Option<Arc<OverlayNode<K, V>>>,
)
    requires
        node.wf(),
        call_ensures(AtomicNodePtr::<K, V>::store, (&slot, node), ()),
        call_ensures(AtomicNodePtr::<K, V>::store_with_term_count, (&slot, node, count), ()),
        call_ensures(AtomicNodePtr::<K, V>::take, (&slot,), taken),
    ensures
        exists|before: Option<Arc<PublishedRoot<K, V>>>, content: Arc<PublishedRoot<K, V>>|
            #[trigger] slot.read(before) && #[trigger] slot.stored(Some(content)) && content.node
                == node && content.eviction is None && content.term_count == (if before is Some {
                before->0.term_count
            } else {
                0
            }),
        exists|content: Arc<PublishedRoot<K, V>>| #[trigger]
            slot.stored(Some(content)) && content.node == node && content.term_count == count
                && content.eviction is None,
        taken is None ==> slot.swapped(None, None),
        taken matches Some(root) ==> exists|content: Arc<PublishedRoot<K, V>>| #[trigger]
            slot.swapped(None, Some(content)) && content.node == root,
{
    let (before, content) = choose|
        content: Option<Arc<PublishedRoot<K, V>>>,
        revision: Arc<PublishedRoot<K, V>>,
    |
        #[trigger] slot.read(content) && #[trigger] crate::overlay::atomic_ptr::is_fresh(
            revision,
            node,
            crate::overlay::atomic_ptr::content_count(content),
        ) && slot.stored(Some(revision));
    assert(slot.read(before) && slot.stored(Some(content)));
    let other = choose|revision: Arc<PublishedRoot<K, V>>| #[trigger]
        crate::overlay::atomic_ptr::is_fresh(revision, node, count) && slot.stored(Some(revision));
    assert(slot.stored(Some(other)));
    let held = choose|content: Option<Arc<PublishedRoot<K, V>>>| #[trigger]
        slot.swapped(None, content) && taken == crate::overlay::atomic_ptr::content_root(content);
    if taken is Some {
        assert(slot.swapped(None, Some(held->0)));
    }
}

/// A root was exchanged for another: the slot held a revision with the one and took a
/// revision with the other, with as many terms more or fewer, bound to no registry.
pub open spec fn exchanged_root<K: KeyEncoding, V>(
    slot: AtomicNodePtr<K, V>,
    expected: Arc<OverlayNode<K, V>>,
    new: Arc<OverlayNode<K, V>>,
    delta: isize,
) -> bool {
    exists|current: Arc<PublishedRoot<K, V>>, next: Arc<PublishedRoot<K, V>>|
        {
            &&& #[trigger] slot.exchanged(Some(current), Some(next), Some(current))
            &&& current.node == expected
            &&& next.node == new
            &&& next.term_count == current.term_count + delta
            &&& next.eviction is None
        }
}

/// An exchange of roots that succeeds has put the new root in the place of the expected
/// one, with the terms counted; a plain one counts none.
pub proof fn an_exchange_puts_the_new_root<K: KeyEncoding, V: DictionaryValue>(
    slot: AtomicNodePtr<K, V>,
    expected: Arc<OverlayNode<K, V>>,
    new: Arc<OverlayNode<K, V>>,
    delta: isize,
    counted: Result<Arc<OverlayNode<K, V>>, Arc<OverlayNode<K, V>>>,
    plain: Result<Arc<OverlayNode<K, V>>, Arc<OverlayNode<K, V>>>,
    weak: Result<Arc<OverlayNode<K, V>>, Arc<OverlayNode<K, V>>>,
)
    requires
        new.wf(),
        call_ensures(
            AtomicNodePtr::<K, V>::compare_exchange_counted,
            (&slot, &expected, new, delta),
            counted,
        ),
        call_ensures(AtomicNodePtr::<K, V>::compare_exchange, (&slot, &expected, new), plain),
        call_ensures(AtomicNodePtr::<K, V>::compare_exchange_weak, (&slot, &expected, new), weak),
    ensures
        counted is Ok ==> counted->Ok_0 == expected && exchanged_root(slot, expected, new, delta),
        plain is Ok ==> plain->Ok_0 == expected && exchanged_root(slot, expected, new, 0),
        weak is Ok ==> weak->Ok_0 == expected && exchanged_root(slot, expected, new, 0),
{
    if counted is Ok {
        lemma_exchanged(slot, expected, new, delta, counted);
    }
    if plain is Ok {
        lemma_exchanged(slot, expected, new, 0, plain);
    }
    if weak is Ok {
        lemma_exchanged(slot, expected, new, 0, weak);
    }
}

/// What an exchange that succeeded has done.
proof fn lemma_exchanged<K: KeyEncoding, V: DictionaryValue>(
    slot: AtomicNodePtr<K, V>,
    expected: Arc<OverlayNode<K, V>>,
    new: Arc<OverlayNode<K, V>>,
    delta: isize,
    r: Result<Arc<OverlayNode<K, V>>, Arc<OverlayNode<K, V>>>,
)
    requires
        slot.tried_counted(expected, new, delta, r),
        r is Ok,
    ensures
        exchanged_root(slot, expected, new, delta),
{
    let content = choose|content: Option<Arc<PublishedRoot<K, V>>>| #[trigger]
        slot.read(content) && match content {
            None => r matches Err(node) && node.wf() && node@
                == crate::overlay::node::Tree::<K::Unit, V>::empty(),
            Some(current) => exists|same: bool| #[trigger]
                crate::shared::told_same(current.node, expected, same) && if same {
                    current.node == expected && exists|
                        outcome: Result<RootRevision<K, V>, Option<RootRevision<K, V>>>,
                    | #[trigger]
                        slot.tried_rewrite(current, new, delta, outcome)
                            && crate::overlay::atomic_ptr::outcome_root(outcome, r)
                } else {
                    r == Err::<Arc<OverlayNode<K, V>>, Arc<OverlayNode<K, V>>>(current.node)
                },
        };
    let current = content->0;
    let outcome = choose|outcome: Result<RootRevision<K, V>, Option<RootRevision<K, V>>>| #[trigger]
        slot.tried_rewrite(current, new, delta, outcome)
            && crate::overlay::atomic_ptr::outcome_root(outcome, r);
    let count = current.term_count + delta;
    assert(outcome is Ok);
    assert(0 <= count <= usize::MAX);
    let next = choose|next: Arc<PublishedRoot<K, V>>| #[trigger]
        crate::overlay::atomic_ptr::is_fresh(next, new, count as usize) && slot.tried_exchange(
            current,
            next,
            outcome,
        );
    lemma_held(slot, current, next, outcome);
}

/// An exchange of revisions that succeeded found the expected one.
proof fn lemma_held<K: KeyEncoding, V: DictionaryValue>(
    slot: AtomicNodePtr<K, V>,
    expected: Arc<PublishedRoot<K, V>>,
    next: Arc<PublishedRoot<K, V>>,
    outcome: Result<RootRevision<K, V>, Option<RootRevision<K, V>>>,
)
    requires
        slot.tried_exchange(expected, next, outcome),
        outcome is Ok,
    ensures
        slot.exchanged(Some(expected), Some(next), Some(expected)),
{
    let previous = choose|previous: Option<Arc<PublishedRoot<K, V>>>| #[trigger]
        slot.exchanged(Some(expected), Some(next), previous)
            && crate::overlay::atomic_ptr::exchange_outcome(expected, previous, outcome);
    assert(previous == Some(expected));
}

/// A first root is put into an empty slot with its number of terms; a slot that is not
/// empty hands back the root that it holds.
pub proof fn a_first_root_is_put_into_an_empty_slot<K: KeyEncoding, V: DictionaryValue>(
    slot: AtomicNodePtr<K, V>,
    new: Arc<OverlayNode<K, V>>,
    count: usize,
    result: Result<(), Arc<OverlayNode<K, V>>>,
    plain: Result<(), Arc<OverlayNode<K, V>>>,
)
    requires
        new.wf(),
        call_ensures(
            AtomicNodePtr::<K, V>::try_init_with_term_count,
            (&slot, new, count),
            result,
        ),
        call_ensures(AtomicNodePtr::<K, V>::try_init, (&slot, new), plain),
    ensures
        tried_first(slot, new, count, result),
        tried_first(slot, new, 0, plain),
{
    lemma_first(slot, new, count, result);
    lemma_first(slot, new, 0, plain);
}

/// What a first publication has tried and found.
pub open spec fn tried_first<K: KeyEncoding, V>(
    slot: AtomicNodePtr<K, V>,
    new: Arc<OverlayNode<K, V>>,
    count: usize,
    result: Result<(), Arc<OverlayNode<K, V>>>,
) -> bool {
    exists|next: Arc<PublishedRoot<K, V>>, held: Option<Arc<PublishedRoot<K, V>>>|
        {
            &&& #[trigger] slot.exchanged(None, Some(next), held)
            &&& next.node == new
            &&& next.term_count == count
            &&& next.eviction is None
            &&& result is Ok <==> held is None
            &&& result is Err ==> result->Err_0 == held->0.node
        }
}

/// What a first publication has done.
proof fn lemma_first<K: KeyEncoding, V: DictionaryValue>(
    slot: AtomicNodePtr<K, V>,
    new: Arc<OverlayNode<K, V>>,
    count: usize,
    result: Result<(), Arc<OverlayNode<K, V>>>,
)
    requires
        slot.tried_init(new, count, result),
    ensures
        tried_first(slot, new, count, result),
{
    let (next, held) = choose|
        revision: Arc<PublishedRoot<K, V>>,
        previous: Option<Arc<PublishedRoot<K, V>>>,
    |
        #[trigger] crate::overlay::atomic_ptr::is_fresh(revision, new, count)
            && #[trigger] slot.exchanged(None, Some(revision), previous) && result
            == match previous {
            Some(published) => Err::<(), Arc<OverlayNode<K, V>>>(published.node),
            None => Ok(()),
        };
    assert(slot.exchanged(None, Some(next), held));
}

/// A binding, a release and a replacement that are published have put what was prepared in
/// the place of what was expected, and hand that back; a replacement is then helped.
pub proof fn what_was_prepared_is_published<
    K: KeyEncoding,
    V: DictionaryValue,
    H: Fn(&RootEvictionRevision) -> ResidencyHelpOutcome,
>(
    slot: AtomicNodePtr<K, V>,
    binding: PreparedRootBinding<K, V>,
    release: PreparedRootDetachment<K, V>,
    replacement: PreparedBoundRootTransition<K, V>,
    help: H,
    bound: Result<RootRevision<K, V>, Option<RootRevision<K, V>>>,
    released: Result<RootRevision<K, V>, Option<RootRevision<K, V>>>,
    replaced: Result<RootRevision<K, V>, Option<RootRevision<K, V>>>,
)
    requires
        binding.next.node.wf(),
        release.next.node.wf(),
        replacement.wf(),
        call_requires(help, (&*replacement.next.eviction->0,)),
        call_ensures(
            AtomicNodePtr::<K, V>::publish_checkpoint_binding,
            (&slot, &binding),
            bound,
        ),
        call_ensures(
            AtomicNodePtr::<K, V>::publish_retirement_detachment,
            (&slot, &release),
            released,
        ),
        call_ensures(
            AtomicNodePtr::<K, V>::publish_bound_root_transition::<H>,
            (&slot, &replacement, help),
            replaced,
        ),
    ensures
        bound is Ok ==> bound->Ok_0 == binding.expected && slot.exchanged(
            Some(binding.expected.published),
            Some(binding.next),
            Some(binding.expected.published),
        ),
        released is Ok ==> released->Ok_0 == release.expected && slot.exchanged(
            Some(release.expected.published),
            Some(release.next),
            Some(release.expected.published),
        ),
        replaced is Ok ==> replaced->Ok_0 == replacement.expected && slot.exchanged(
            Some(replacement.expected.published),
            Some(replacement.next),
            Some(replacement.expected.published),
        ) && exists|outcome: ResidencyHelpOutcome| #[trigger]
            call_ensures(help, (&*replacement.next.eviction->0,), outcome),
{
    if bound is Ok {
        lemma_held(slot, binding.expected.published, binding.next, bound);
    }
    if released is Ok {
        lemma_held(slot, release.expected.published, release.next, released);
    }
    if replaced is Ok {
        lemma_held(slot, replacement.expected.published, replacement.next, replaced);
    }
}

/// A copy of a slot is made with the root and the number of terms that the slot was read to
/// have, bound to no registry, or empty if it was read to be.
pub proof fn a_copied_slot_holds_the_same_root<K: KeyEncoding, V: DictionaryValue>(
    slot: AtomicNodePtr<K, V>,
    copy: AtomicNodePtr<K, V>,
)
    requires
        call_ensures(AtomicNodePtr::<K, V>::clone, (&slot,), copy),
    ensures
        (slot.read(None) && copy.made_with(None)) || exists|
            content: Arc<PublishedRoot<K, V>>,
            made: Arc<PublishedRoot<K, V>>,
        |
            #[trigger] slot.read(Some(content)) && #[trigger] copy.made_with(Some(made))
                && made.node == content.node && made.term_count == content.term_count
                && made.eviction is None,
{
    let content = choose|content: Option<Arc<PublishedRoot<K, V>>>| #[trigger]
        slot.read(content) && match content {
            Some(published) => exists|revision: Arc<PublishedRoot<K, V>>| #[trigger]
                crate::overlay::atomic_ptr::is_fresh(
                    revision,
                    published.node,
                    published.term_count,
                ) && copy.made_with(Some(revision)),
            None => copy.made_with(None),
        };
    if let Some(published) = content {
        let made = choose|revision: Arc<PublishedRoot<K, V>>| #[trigger]
            crate::overlay::atomic_ptr::is_fresh(
                revision,
                published.node,
                published.term_count,
            ) && copy.made_with(Some(revision));
        assert(slot.read(Some(published)) && copy.made_with(Some(made)));
    }
}

/// The catalog of a registry without paths knows its binding and no hashes, and another
/// handle of a binding is the same one.
pub proof fn an_empty_catalog_knows_its_binding(
    binding: EvictionBinding,
    alias: EvictionBinding,
    catalog: PublishedRegistryCatalog,
)
    requires
        call_ensures(EvictionBinding::alias, (&binding,), alias),
        call_ensures(PublishedRegistryCatalog::empty_for_binding, (binding,), catalog),
    ensures
        alias == binding,
        catalog.binding == binding,
        catalog.path_hashes@.len() == 0,
{
}

} // verus!
