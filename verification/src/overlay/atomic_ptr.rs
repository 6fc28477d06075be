//! The published root: an atomic slot for a root, its cardinality and its
//! residency state.

use std::sync::Arc;
use arc_swap::ArcSwapOption;
use vstd::prelude::*;
use crate::key_encoding::KeyEncoding;
use crate::shared::{handle_address, same_handle, share, told_address, told_same};
use crate::value::DictionaryValue;
use super::node::{OverlayNode, Tree};
use super::residency::{
    EvictionBinding, PackedResidencyDelta, PreparedPackedResidency, PublishedRegistryCatalog,
    ResidencyHelpOutcome, RootEvictionRevision,
};

verus! {

/// One published revision: a root, its number of terms, and its residency state.
/// They are published together, so no reader sees one without the others.
pub struct PublishedRoot<K: KeyEncoding, V> {
    pub node: Arc<OverlayNode<K, V>>,
    pub term_count: usize,
    pub eviction: Option<Arc<RootEvictionRevision>>,
}

/// A handle to one published revision. Two publications of one node are two
/// revisions.
pub struct RootRevision<K: KeyEncoding, V> {
    pub published: Arc<PublishedRoot<K, V>>,
}

impl<K: KeyEncoding, V> RootRevision<K, V> {
    /// The root is well formed.
    pub open spec fn wf(self) -> bool {
        self.published.node.wf()
    }

    /// Another handle to the revision.
    pub fn alias(&self) -> (r: Self)
        ensures
            r == *self,
    {
        RootRevision { published: share(&self.published) }
    }

    /// The root.
    pub fn node(&self) -> (r: &Arc<OverlayNode<K, V>>)
        ensures
            *r == self.published.node,
    {
        &self.published.node
    }

    /// The number of terms under the root.
    pub fn term_count(&self) -> (r: usize)
        ensures
            r == self.published.term_count,
    {
        self.published.term_count
    }

    /// The residency state of the root.
    pub fn eviction_revision(&self) -> (r: Option<&RootEvictionRevision>)
        ensures
            match r {
                Some(revision) => self.published.eviction matches Some(e) && *e == *revision,
                None => self.published.eviction is None,
            },
    {
        match &self.published.eviction {
            Some(revision) => Some(&**revision),
            None => None,
        }
    }

    /// An answer to whether a residency change was prepared against the registry that
    /// the root is bound to, and against its present state.
    pub open spec fn told_fit(self, change: PreparedPackedResidency, fit: bool) -> bool {
        match self.published.eviction {
            Some(eviction) => if change.predecessor_ordinal == eviction.ordinal {
                change.catalog.binding.told(eviction.catalog.binding, fit)
            } else {
                !fit
            },
            None => !fit,
        }
    }

    /// The registry that the root is bound to.
    pub fn eviction_binding(&self) -> (r: Option<EvictionBinding>)
        ensures
            r == match self.published.eviction {
                Some(revision) => Some(revision.catalog.binding),
                None => None,
            },
    {
        match &self.published.eviction {
            Some(revision) => Some(revision.binding()),
            None => None,
        }
    }

    /// Whether two handles name one revision. A positive answer makes them equal.
    pub fn same_revision(&self, other: &Self) -> (r: bool)
        ensures
            r ==> *self == *other,
            told_same(self.published, other.published, r),
    {
        same_handle(&self.published, &other.published)
    }

    /// The residency state, once helping it has completed. `help` carries out the change
    /// that led to a state, as far as that is still to be done.
    pub fn help_eviction_revision<H: Fn(&RootEvictionRevision) -> ResidencyHelpOutcome>(
        &self,
        help: H,
    ) -> (r: Option<&RootEvictionRevision>)
        requires
            self.published.eviction matches Some(e) ==> call_requires(help, (&*e,)),
        ensures
            match self.published.eviction {
                Some(e) => exists|outcome: ResidencyHelpOutcome| #[trigger]
                    call_ensures(help, (&*e,), outcome) && match outcome {
                        ResidencyHelpOutcome::Complete => r matches Some(state) && *state == *e,
                        ResidencyHelpOutcome::Stale => r is None,
                    },
                None => r is None,
            },
    {
        match self.eviction_revision() {
            Some(revision) => {
                let outcome = help(revision);
                assert(call_ensures(help, (revision,), outcome));
                match outcome {
                    ResidencyHelpOutcome::Complete => Some(revision),
                    ResidencyHelpOutcome::Stale => None,
                }
            },
            None => None,
        }
    }
}

/// `arc_swap::ArcSwapOption`: an atomic slot for a shared revision. Other threads
/// may replace its content at any time, so nothing is said about which revision a
/// read finds; every revision that went in has a well-formed root, so every one
/// that comes out has.
#[verifier::external_body]
#[verifier::reject_recursive_types(K)]
#[verifier::reject_recursive_types(V)]
pub struct RootCell<K: KeyEncoding, V> {
    ptr: ArcSwapOption<PublishedRoot<K, V>>,
}

/// `ArcSwapOption::new`: a slot that holds a revision or nothing.
#[verifier::external_body]
fn cell_new<K: KeyEncoding, V>(content: Option<Arc<PublishedRoot<K, V>>>) -> RootCell<K, V>
    requires
        content matches Some(revision) ==> revision.node.wf(),
{
    RootCell { ptr: ArcSwapOption::new(content) }
}

/// `ArcSwapAny::load_full`: the revision that the slot holds at some moment.
#[verifier::external_body]
fn cell_load<K: KeyEncoding, V>(cell: &RootCell<K, V>) -> (r: Option<Arc<PublishedRoot<K, V>>>)
    ensures
        r matches Some(revision) ==> revision.node.wf(),
{
    cell.ptr.load_full()
}

/// `ArcSwapAny::store`: replaces whatever the slot holds.
#[verifier::external_body]
fn cell_store<K: KeyEncoding, V>(cell: &RootCell<K, V>, content: Option<Arc<PublishedRoot<K, V>>>)
    requires
        content matches Some(revision) ==> revision.node.wf(),
{
    cell.ptr.store(content)
}

/// `ArcSwapAny::swap`: replaces whatever the slot holds and hands it back.
#[verifier::external_body]
fn cell_swap<K: KeyEncoding, V>(
    cell: &RootCell<K, V>,
    content: Option<Arc<PublishedRoot<K, V>>>,
) -> (r: Option<Arc<PublishedRoot<K, V>>>)
    requires
        content matches Some(revision) ==> revision.node.wf(),
    ensures
        r matches Some(revision) ==> revision.node.wf(),
{
    cell.ptr.swap(content)
}

/// `ArcSwapAny::compare_and_swap`: replaces what the slot holds if it is the very
/// allocation `current`, and hands back what it held before. The exchange took
/// place exactly when that is the allocation `current`.
#[verifier::external_body]
fn cell_compare_and_swap<K: KeyEncoding, V>(
    cell: &RootCell<K, V>,
    current: &Option<Arc<PublishedRoot<K, V>>>,
    new: Option<Arc<PublishedRoot<K, V>>>,
) -> (r: Option<Arc<PublishedRoot<K, V>>>)
    requires
        new matches Some(revision) ==> revision.node.wf(),
    ensures
        r matches Some(revision) ==> revision.node.wf(),
{
    arc_swap::Guard::into_inner(cell.ptr.compare_and_swap(current, new))
}

/// The revision that a semantic rewrite publishes: a new root, an adjusted number
/// of terms, and no binding to any registry. `None` when the number of terms would
/// leave its range.
pub fn semantic_successor<K: KeyEncoding, V>(
    current: &PublishedRoot<K, V>,
    new: Arc<OverlayNode<K, V>>,
    term_count_delta: isize,
) -> (r: Option<PublishedRoot<K, V>>)
    ensures
        match r {
            Some(next) => {
                &&& next.node == new
                &&& next.term_count == current.term_count + term_count_delta
                &&& next.eviction is None
            },
            None => current.term_count + term_count_delta < 0 || current.term_count
                + term_count_delta > usize::MAX,
        },
{
    match current.term_count.checked_add_signed(term_count_delta) {
        Some(term_count) => Some(PublishedRoot { node: new, term_count, eviction: None }),
        None => None,
    }
}

/// The revision that a root and its number of terms are first published as: bound to
/// no registry.
pub fn fresh_revision<K: KeyEncoding, V>(node: Arc<OverlayNode<K, V>>, term_count: usize) -> (r:
    PublishedRoot<K, V>)
    ensures
        r == (PublishedRoot { node, term_count, eviction: None }),
{
    PublishedRoot { node, term_count, eviction: None }
}

/// A handle to what a slot held.
pub fn held_revision<K: KeyEncoding, V>(content: Option<Arc<PublishedRoot<K, V>>>) -> (r: Option<
    RootRevision<K, V>,
>)
    ensures
        r == match content {
            Some(published) => Some(RootRevision { published }),
            None => None,
        },
{
    match content {
        Some(published) => Some(RootRevision { published }),
        None => None,
    }
}

/// The root of a revision and its number of terms, if there is a revision.
pub fn counted_root<K: KeyEncoding, V>(revision: &Option<RootRevision<K, V>>) -> (r: Option<
    (Arc<OverlayNode<K, V>>, usize),
>)
    ensures
        r == match *revision {
            Some(revision) => Some((revision.published.node, revision.published.term_count)),
            None => None,
        },
{
    match revision {
        Some(revision) => Some((share(revision.node()), revision.term_count())),
        None => None,
    }
}

/// The root of a revision, if there is a revision.
pub fn root_of<K: KeyEncoding, V>(revision: &Option<RootRevision<K, V>>) -> (r: Option<
    Arc<OverlayNode<K, V>>,
>)
    ensures
        r == match *revision {
            Some(revision) => Some(revision.published.node),
            None => None,
        },
{
    match revision {
        Some(revision) => Some(share(revision.node())),
        None => None,
    }
}

/// The number of terms of a revision. An empty slot has none.
pub fn count_of<K: KeyEncoding, V>(revision: &Option<RootRevision<K, V>>) -> (r: usize)
    ensures
        r == match *revision {
            Some(revision) => revision.published.term_count,
            None => 0,
        },
{
    match revision {
        Some(revision) => revision.term_count(),
        None => 0,
    }
}

/// The address of a root, or zero for none and for none alone.
pub fn address_or_zero<K: KeyEncoding, V>(root: &Option<Arc<OverlayNode<K, V>>>) -> (r: u64)
    ensures
        match *root {
            Some(node) => r != 0 && told_address(node, r),
            None => r == 0,
        },
{
    match root {
        Some(node) => handle_address(node),
        None => 0,
    }
}

/// How a first publication ended, given what the slot held before it: an empty slot
/// took the root, any other keeps the one it has.
pub fn init_verdict<K: KeyEncoding, V>(previous: Option<Arc<PublishedRoot<K, V>>>) -> (r: Result<
    (),
    Arc<OverlayNode<K, V>>,
>)
    ensures
        r == match previous {
            Some(published) => Err::<(), Arc<OverlayNode<K, V>>>(published.node),
            None => Ok(()),
        },
{
    match previous {
        None => Ok(()),
        Some(previous) => Err(share(&previous.node)),
    }
}

/// How a compare-and-swap ended, given what the slot held before it.
pub enum CasVerdict<K: KeyEncoding, V> {
    /// The slot held the expected revision, which has been replaced.
    Won(RootRevision<K, V>),
    /// The slot held another revision.
    Lost(RootRevision<K, V>),
    /// The slot was empty.
    Empty,
}

/// Reads the outcome of a compare-and-swap off what the slot held before it.
pub fn cas_verdict<K: KeyEncoding, V>(
    expected: &RootRevision<K, V>,
    previous: Option<Arc<PublishedRoot<K, V>>>,
) -> (r: CasVerdict<K, V>)
    ensures
        match previous {
            Some(actual) => exists|same: bool| #[trigger]
                told_same(actual, expected.published, same) && if same {
                    actual == expected.published && r == CasVerdict::<K, V>::Won(
                        RootRevision { published: actual },
                    )
                } else {
                    r == CasVerdict::<K, V>::Lost(RootRevision { published: actual })
                },
            None => r == CasVerdict::<K, V>::Empty,
        },
{
    match previous {
        Some(actual) => {
            if same_handle(&actual, &expected.published) {
                CasVerdict::Won(RootRevision { published: actual })
            } else {
                CasVerdict::Lost(RootRevision { published: actual })
            }
        },
        None => CasVerdict::Empty,
    }
}

/// An atomic slot for the published root.
#[verifier::reject_recursive_types(K)]
#[verifier::reject_recursive_types(V)]
pub struct AtomicNodePtr<K: KeyEncoding, V> {
    pub cell: RootCell<K, V>,
}

/// A prepared binding of an unchanged root to a registry.
pub struct PreparedRootBinding<K: KeyEncoding, V> {
    pub expected: RootRevision<K, V>,
    pub next: Arc<PublishedRoot<K, V>>,
}

/// A prepared release of an unchanged root from its registry.
pub struct PreparedRootDetachment<K: KeyEncoding, V> {
    pub expected: RootRevision<K, V>,
    pub next: Arc<PublishedRoot<K, V>>,
}

/// A prepared replacement of a root that stays bound to its registry.
pub struct PreparedBoundRootTransition<K: KeyEncoding, V> {
    pub expected: RootRevision<K, V>,
    pub next: Arc<PublishedRoot<K, V>>,
}

impl<K: KeyEncoding, V> PreparedRootBinding<K, V> {
    /// The registry that the root will be bound to.
    pub fn binding(&self) -> (r: Option<EvictionBinding>)
        ensures
            r == match self.next.eviction {
                Some(revision) => Some(revision.catalog.binding),
                None => None,
            },
    {
        match &self.next.eviction {
            Some(revision) => Some(revision.binding()),
            None => None,
        }
    }
}

impl<K: KeyEncoding, V> PreparedBoundRootTransition<K, V> {
    /// The replacement stays bound to the registry of the root it replaces.
    pub open spec fn wf(self) -> bool {
        &&& self.next.node.wf()
        &&& self.expected.wf()
        &&& self.expected.published.eviction is Some
        &&& self.next.eviction is Some
        &&& self.next.eviction->0.catalog == self.expected.published.eviction->0.catalog
            || self.next.eviction->0.catalog.binding.told(
            self.expected.published.eviction->0.catalog.binding,
            true,
        )
        &&& self.next.term_count == self.expected.published.term_count
    }

    /// The registry that the root is bound to.
    pub fn binding(&self) -> (r: Option<EvictionBinding>)
        ensures
            r == match self.next.eviction {
                Some(revision) => Some(revision.catalog.binding),
                None => None,
            },
    {
        match &self.next.eviction {
            Some(revision) => Some(revision.binding()),
            None => None,
        }
    }

    /// The residency state of the replacement.
    pub fn next_eviction_revision(&self) -> (r: &RootEvictionRevision)
        requires
            self.next.eviction is Some,
        ensures
            *r == *self.next.eviction->0,
    {
        match &self.next.eviction {
            Some(revision) => &**revision,
            None => vstd::pervasive::unreached(),
        }
    }

    /// The nodes and bytes that leave memory with the replacement. `None` when
    /// memory grows instead, as it does for a load.
    pub fn evicted_totals(&self) -> (r: Option<(usize, usize)>)
        ensures
            match (self.expected.published.eviction, self.next.eviction) {
                (Some(before), Some(after)) => match r {
                    Some((nodes, bytes)) => {
                        &&& nodes == before.resident_nodes - after.resident_nodes
                        &&& bytes == before.resident_serialized_bytes
                            - after.resident_serialized_bytes
                    },
                    None => before.resident_nodes < after.resident_nodes
                        || before.resident_serialized_bytes < after.resident_serialized_bytes,
                },
                _ => r is None,
            },
    {
        match (&self.expected.published.eviction, &self.next.eviction) {
            (Some(before), Some(after)) => {
                if before.resident_nodes < after.resident_nodes || before.resident_serialized_bytes
                    < after.resident_serialized_bytes {
                    None
                } else {
                    Some(
                        (
                            before.resident_nodes - after.resident_nodes,
                            before.resident_serialized_bytes - after.resident_serialized_bytes,
                        ),
                    )
                }
            },
            _ => None,
        }
    }
}

/// A durable stamp that was decided during serialization.
pub struct DeferredDurableStamp<K: KeyEncoding, V> {
    pub node: Arc<OverlayNode<K, V>>,
    pub raw: u64,
}

impl<K: KeyEncoding, V: DictionaryValue> DeferredDurableStamp<K, V> {
    /// The stamp `raw` for a node.
    pub fn new(node: Arc<OverlayNode<K, V>>, raw: u64) -> (r: Self)
        ensures
            r.node == node,
            r.raw == raw,
    {
        DeferredDurableStamp { node, raw }
    }

    /// The stamped node.
    pub fn apply(&self) -> (r: OverlayNode<K, V>)
        ensures
            self.node.wf() ==> r.wf(),
            r@ == (super::node::Tree { stamp: self.raw, ..self.node@ }),
    {
        self.node.with_durable_stamp(self.raw)
    }
}

impl<K: KeyEncoding, V> AtomicNodePtr<K, V> {
    /// The slot was made with this content.
    pub closed spec fn made_with(self, content: Option<Arc<PublishedRoot<K, V>>>) -> bool {
        call_ensures(cell_new::<K, V>, (content,), self.cell)
    }

    /// The slot was read, and this is what it held.
    pub closed spec fn read(self, content: Option<Arc<PublishedRoot<K, V>>>) -> bool {
        call_ensures(cell_load::<K, V>, (&self.cell,), content)
    }

    /// This content was put into the slot.
    pub closed spec fn stored(self, content: Option<Arc<PublishedRoot<K, V>>>) -> bool {
        call_ensures(cell_store::<K, V>, (&self.cell, content), ())
    }

    /// This content was put into the slot, and `previous` is what it held.
    pub closed spec fn swapped(
        self,
        content: Option<Arc<PublishedRoot<K, V>>>,
        previous: Option<Arc<PublishedRoot<K, V>>>,
    ) -> bool {
        call_ensures(cell_swap::<K, V>, (&self.cell, content), previous)
    }

    /// The exchange of `current` for `content` was tried, and `previous` is what the
    /// slot held.
    pub closed spec fn exchanged(
        self,
        current: Option<Arc<PublishedRoot<K, V>>>,
        content: Option<Arc<PublishedRoot<K, V>>>,
        previous: Option<Arc<PublishedRoot<K, V>>>,
    ) -> bool {
        call_ensures(cell_compare_and_swap::<K, V>, (&self.cell, &current, content), previous)
    }
}

impl<K: KeyEncoding, V> AtomicNodePtr<K, V> {
    /// A first publication was tried: it succeeded if the slot was empty, and gave back
    /// the root that the slot held otherwise.
    pub open spec fn tried_init(
        self,
        node: Arc<OverlayNode<K, V>>,
        term_count: usize,
        r: Result<(), Arc<OverlayNode<K, V>>>,
    ) -> bool {
        exists|revision: Arc<PublishedRoot<K, V>>, previous: Option<Arc<PublishedRoot<K, V>>>|
            #[trigger] is_fresh(revision, node, term_count) && #[trigger] self.exchanged(
                None,
                Some(revision),
                previous,
            ) && r == match previous {
                Some(published) => Err::<(), Arc<OverlayNode<K, V>>>(published.node),
                None => Ok(()),
            }
    }
}

/// The outcome of an exchange, given what the slot held before it: it took place if
/// that was told to be the expected revision, and is handed back in any case.
pub open spec fn exchange_outcome<K: KeyEncoding, V>(
    expected: Arc<PublishedRoot<K, V>>,
    previous: Option<Arc<PublishedRoot<K, V>>>,
    r: Result<RootRevision<K, V>, Option<RootRevision<K, V>>>,
) -> bool {
    match previous {
        Some(actual) => exists|same: bool| #[trigger]
            told_same(actual, expected, same) && if same {
                actual == expected && r == Ok::<RootRevision<K, V>, Option<RootRevision<K, V>>>(
                    RootRevision { published: actual },
                )
            } else {
                r == Err::<RootRevision<K, V>, Option<RootRevision<K, V>>>(
                    Some(RootRevision { published: actual }),
                )
            },
        None => r == Err::<RootRevision<K, V>, Option<RootRevision<K, V>>>(None),
    }
}

/// The root that the outcome of an exchange hands back: an empty one for an empty slot.
pub open spec fn outcome_root<K: KeyEncoding, V>(
    outcome: Result<RootRevision<K, V>, Option<RootRevision<K, V>>>,
    r: Result<Arc<OverlayNode<K, V>>, Arc<OverlayNode<K, V>>>,
) -> bool {
    match outcome {
        Ok(previous) => r == Ok::<Arc<OverlayNode<K, V>>, Arc<OverlayNode<K, V>>>(
            previous.published.node,
        ),
        Err(Some(actual)) => r == Err::<Arc<OverlayNode<K, V>>, Arc<OverlayNode<K, V>>>(
            actual.published.node,
        ),
        Err(None) => r matches Err(node) && node.wf() && node@ == Tree::<K::Unit, V>::empty(),
    }
}

impl<K: KeyEncoding, V> AtomicNodePtr<K, V> {
    /// The exchange of one revision for another was tried, and ended as the content of
    /// the slot says.
    pub open spec fn tried_exchange(
        self,
        expected: Arc<PublishedRoot<K, V>>,
        next: Arc<PublishedRoot<K, V>>,
        r: Result<RootRevision<K, V>, Option<RootRevision<K, V>>>,
    ) -> bool {
        exists|previous: Option<Arc<PublishedRoot<K, V>>>| #[trigger]
            self.exchanged(Some(expected), Some(next), previous) && exchange_outcome(
                expected,
                previous,
                r,
            )
    }

    /// A semantic rewrite of a revision was tried: the exchange for a fresh revision of
    /// the new root with the adjusted number of terms. A number that leaves its range
    /// is refused with the revision itself, and the slot is left alone.
    pub open spec fn tried_rewrite(
        self,
        expected: Arc<PublishedRoot<K, V>>,
        new: Arc<OverlayNode<K, V>>,
        term_count_delta: isize,
        r: Result<RootRevision<K, V>, Option<RootRevision<K, V>>>,
    ) -> bool {
        let count = expected.term_count + term_count_delta;
        if 0 <= count <= usize::MAX {
            exists|next: Arc<PublishedRoot<K, V>>| #[trigger]
                is_fresh(next, new, count as usize) && self.tried_exchange(expected, next, r)
        } else {
            r == Err::<RootRevision<K, V>, Option<RootRevision<K, V>>>(
                Some(RootRevision { published: expected }),
            )
        }
    }

    /// A rewrite of a root was tried: the slot was read; if it held the very root, the
    /// rewrite of the revision that was read was tried. What the slot held is handed
    /// back, an empty root for an empty slot.
    pub open spec fn tried_counted(
        self,
        expected: Arc<OverlayNode<K, V>>,
        new: Arc<OverlayNode<K, V>>,
        term_count_delta: isize,
        r: Result<Arc<OverlayNode<K, V>>, Arc<OverlayNode<K, V>>>,
    ) -> bool {
        exists|content: Option<Arc<PublishedRoot<K, V>>>| #[trigger]
            self.read(content) && match content {
                None => r matches Err(node) && node.wf() && node@ == Tree::<K::Unit, V>::empty(),
                Some(current) => exists|same: bool| #[trigger]
                    told_same(current.node, expected, same) && if same {
                        current.node == expected && exists|
                            outcome: Result<RootRevision<K, V>, Option<RootRevision<K, V>>>,
                        | #[trigger]
                            self.tried_rewrite(current, new, term_count_delta, outcome)
                                && outcome_root(outcome, r)
                    } else {
                        r == Err::<Arc<OverlayNode<K, V>>, Arc<OverlayNode<K, V>>>(current.node)
                    },
            }
    }
}

/// The root of what a slot held.
pub open spec fn content_root<K: KeyEncoding, V>(content: Option<Arc<PublishedRoot<K, V>>>) -> Option<
    Arc<OverlayNode<K, V>>,
> {
    match content {
        Some(published) => Some(published.node),
        None => None,
    }
}

/// The number of terms of what a slot held.
pub open spec fn content_count<K: KeyEncoding, V>(
    content: Option<Arc<PublishedRoot<K, V>>>,
) -> usize {
    match content {
        Some(published) => published.term_count,
        None => 0,
    }
}

/// A first publication of a root and its number of terms.
pub open spec fn is_fresh<K: KeyEncoding, V>(
    revision: Arc<PublishedRoot<K, V>>,
    node: Arc<OverlayNode<K, V>>,
    term_count: usize,
) -> bool {
    *revision == (PublishedRoot { node, term_count, eviction: None })
}

impl<K: KeyEncoding, V: DictionaryValue> AtomicNodePtr<K, V> {
    /// A slot that holds a root without terms.
    pub fn new(node: Arc<OverlayNode<K, V>>) -> (r: Self)
        requires
            node.wf(),
        ensures
            exists|revision: Arc<PublishedRoot<K, V>>| #[trigger]
                is_fresh(revision, node, 0) && r.made_with(Some(revision)),
    {
        Self::new_with_term_count(node, 0)
    }

    /// A slot that holds a root with a number of terms.
    pub fn new_with_term_count(node: Arc<OverlayNode<K, V>>, term_count: usize) -> (r: Self)
        requires
            node.wf(),
        ensures
            exists|revision: Arc<PublishedRoot<K, V>>| #[trigger]
                is_fresh(revision, node, term_count) && r.made_with(Some(revision)),
    {
        let revision = Arc::new(fresh_revision(node, term_count));
        assert(is_fresh(revision, node, term_count));
        AtomicNodePtr { cell: cell_new(Some(revision)) }
    }

    /// An empty slot.
    pub fn null() -> (r: Self)
        ensures
            r.made_with(None),
    {
        AtomicNodePtr { cell: cell_new(None) }
    }

    /// Whether the slot is empty.
    pub fn is_null(&self) -> (r: bool)
        ensures
            exists|content: Option<Arc<PublishedRoot<K, V>>>| #[trigger]
                self.read(content) && r == (content is None),
    {
        self.load_revision().is_none()
    }

    /// The published root.
    pub fn load(&self) -> (r: Option<Arc<OverlayNode<K, V>>>)
        ensures
            exists|content: Option<Arc<PublishedRoot<K, V>>>| #[trigger]
                self.read(content) && r == content_root(content),
            r matches Some(node) ==> node.wf(),
    {
        root_of(&self.load_revision())
    }

    /// The published root and its number of terms, from one revision.
    pub fn load_with_term_count(&self) -> (r: Option<(Arc<OverlayNode<K, V>>, usize)>)
        ensures
            exists|content: Option<Arc<PublishedRoot<K, V>>>| #[trigger]
                self.read(content) && r == match content {
                    Some(published) => Some((published.node, published.term_count)),
                    None => None,
                },
            r matches Some((node, _)) ==> node.wf(),
    {
        counted_root(&self.load_revision())
    }

    /// The published revision.
    pub fn load_revision(&self) -> (r: Option<RootRevision<K, V>>)
        ensures
            self.read(
                match r {
                    Some(revision) => Some(revision.published),
                    None => None,
                },
            ),
            r matches Some(revision) ==> revision.wf(),
    {
        held_revision(cell_load(&self.cell))
    }

    /// The number of terms under the published root, or zero.
    pub fn term_count(&self) -> (r: usize)
        ensures
            exists|content: Option<Arc<PublishedRoot<K, V>>>| #[trigger]
                self.read(content) && r == content_count(content),
    {
        count_of(&self.load_revision())
    }

    /// Replaces the published root and keeps the number of terms.
    pub fn store(&self, node: Arc<OverlayNode<K, V>>)
        requires
            node.wf(),
        ensures
            exists|content: Option<Arc<PublishedRoot<K, V>>>, revision: Arc<PublishedRoot<K, V>>|
                #[trigger] self.read(content) && #[trigger] is_fresh(
                    revision,
                    node,
                    content_count(content),
                ) && self.stored(Some(revision)),
    {
        let term_count: usize = self.term_count();
        self.store_with_term_count(node, term_count);
    }

    /// Replaces the published root and its number of terms.
    pub fn store_with_term_count(&self, node: Arc<OverlayNode<K, V>>, term_count: usize)
        requires
            node.wf(),
        ensures
            exists|revision: Arc<PublishedRoot<K, V>>| #[trigger]
                is_fresh(revision, node, term_count) && self.stored(Some(revision)),
    {
        let revision = Arc::new(fresh_revision(node, term_count));
        assert(is_fresh(revision, node, term_count));
        cell_store(&self.cell, Some(revision));
    }

    /// Empties the slot and hands the root back.
    pub fn take(&self) -> (r: Option<Arc<OverlayNode<K, V>>>)
        ensures
            exists|content: Option<Arc<PublishedRoot<K, V>>>| #[trigger]
                self.swapped(None, content) && r == content_root(content),
            r matches Some(node) ==> node.wf(),
    {
        let content = cell_swap(&self.cell, None);
        assert(self.swapped(None, content));
        root_of(&held_revision(content))
    }

    /// Replaces the root `expected` by `new`, if it is published.
    pub fn compare_exchange(
        &self,
        expected: &Arc<OverlayNode<K, V>>,
        new: Arc<OverlayNode<K, V>>,
    ) -> (r: Result<Arc<OverlayNode<K, V>>, Arc<OverlayNode<K, V>>>)
        requires
            new.wf(),
        ensures
            match r {
                Ok(node) => node == *expected,
                Err(node) => node.wf(),
            },
            self.tried_counted(*expected, new, 0, r),
    {
        self.compare_exchange_counted(expected, new, 0)
    }

    /// Replaces the root `expected` by `new`, if it is published, and adjusts the
    /// number of terms in the same step. Otherwise hands back the root that is
    /// published, or an empty one if none is. An adjustment that would take the
    /// number of terms out of its range is refused like a lost race.
    pub fn compare_exchange_counted(
        &self,
        expected: &Arc<OverlayNode<K, V>>,
        new: Arc<OverlayNode<K, V>>,
        term_count_delta: isize,
    ) -> (r: Result<Arc<OverlayNode<K, V>>, Arc<OverlayNode<K, V>>>)
        requires
            new.wf(),
        ensures
            match r {
                Ok(node) => node == *expected,
                Err(node) => node.wf(),
            },
            self.tried_counted(*expected, new, term_count_delta, r),
    {
        let current: RootRevision<K, V> = match self.load_revision() {
            Some(current) => current,
            None => {
                return Err(Arc::new(OverlayNode::new()));
            },
        };
        assert(self.read(Some(current.published)));
        let same: bool = same_handle(current.node(), expected);
        assert(told_same(current.published.node, *expected, same));
        if !same {
            return Err(share(current.node()));
        }
        let outcome = self.compare_exchange_revision_counted(&current, new, term_count_delta);
        assert(self.tried_rewrite(current.published, new, term_count_delta, outcome));
        match outcome {
            Ok(previous) => Ok(share(previous.node())),
            Err(Some(actual)) => Err(share(actual.node())),
            Err(None) => Err(Arc::new(OverlayNode::new())),
        }
    }

    /// [`Self::compare_exchange`], which never fails without a reason.
    pub fn compare_exchange_weak(
        &self,
        expected: &Arc<OverlayNode<K, V>>,
        new: Arc<OverlayNode<K, V>>,
    ) -> (r: Result<Arc<OverlayNode<K, V>>, Arc<OverlayNode<K, V>>>)
        requires
            new.wf(),
        ensures
            match r {
                Ok(node) => node == *expected,
                Err(node) => node.wf(),
            },
            self.tried_counted(*expected, new, 0, r),
    {
        self.compare_exchange(expected, new)
    }

    /// Publishes a semantic rewrite of one exact revision. The successor is bound
    /// to no registry.
    pub fn compare_exchange_revision_counted(
        &self,
        expected: &RootRevision<K, V>,
        new: Arc<OverlayNode<K, V>>,
        term_count_delta: isize,
    ) -> (r: Result<RootRevision<K, V>, Option<RootRevision<K, V>>>)
        requires
            expected.wf(),
            new.wf(),
        ensures
            match r {
                Ok(previous) => previous == *expected && 0 <= expected.published.term_count
                    + term_count_delta <= usize::MAX,
                Err(Some(actual)) => actual.wf(),
                Err(None) => true,
            },
            self.tried_rewrite(expected.published, new, term_count_delta, r),
    {
        match semantic_successor(&expected.published, new, term_count_delta) {
            Some(next) => {
                let next = Arc::new(next);
                let r = self.compare_exchange_revision(expected, next);
                proof {
                    let count = expected.published.term_count + term_count_delta;
                    assert(0 <= count <= usize::MAX);
                    assert(is_fresh(next, new, count as usize));
                    assert(self.tried_exchange(expected.published, next, r));
                }
                r
            },
            None => Err(Some(expected.alias())),
        }
    }

    /// Publishes `new` in place of one exact revision.
    fn compare_exchange_revision(
        &self,
        expected: &RootRevision<K, V>,
        new: Arc<PublishedRoot<K, V>>,
    ) -> (r: Result<RootRevision<K, V>, Option<RootRevision<K, V>>>)
        requires
            new.node.wf(),
        ensures
            match r {
                Ok(previous) => previous == *expected,
                Err(Some(actual)) => actual.wf(),
                Err(None) => true,
            },
            self.tried_exchange(expected.published, new, r),
    {
        let wanted: Option<Arc<PublishedRoot<K, V>>> = Some(share(&expected.published));
        let previous = cell_compare_and_swap(&self.cell, &wanted, Some(new));
        assert(self.exchanged(Some(expected.published), Some(new), previous));
        match cas_verdict(expected, previous) {
            CasVerdict::Won(revision) => Ok(revision),
            CasVerdict::Lost(revision) => Err(Some(revision)),
            CasVerdict::Empty => Err(None),
        }
    }

    /// Prepares a replacement that stays bound to the registry `required_binding`.
    /// `None` when the root is bound to another registry or to none, or when
    /// helping its residency state did not complete.
    pub fn prepare_bound_root_transition<H: Fn(&RootEvictionRevision) -> ResidencyHelpOutcome>(
        expected: &RootRevision<K, V>,
        required_binding: &EvictionBinding,
        help: H,
        new: Arc<OverlayNode<K, V>>,
    ) -> (r: Option<PreparedBoundRootTransition<K, V>>)
        requires
            expected.wf(),
            new.wf(),
            expected.published.eviction matches Some(e) ==> call_requires(help, (&*e,)),
        ensures
            match expected.published.eviction {
                Some(eviction) => (eviction.catalog.binding.told(*required_binding, false)
                    && r is None) || exists|outcome: ResidencyHelpOutcome| #[trigger]
                    call_ensures(help, (&*eviction,), outcome)
                        && eviction.catalog.binding.told(*required_binding, true) && if outcome
                        == ResidencyHelpOutcome::Complete {
                        &&& r matches Some(prepared)
                        &&& prepared.wf()
                        &&& prepared.expected == *expected
                        &&& *prepared.next == (PublishedRoot {
                            node: new,
                            term_count: expected.published.term_count,
                            eviction: Some(Arc::new(eviction.settled())),
                        })
                    } else {
                        r is None
                    },
                None => r is None,
            },
    {
        match &expected.published.eviction {
            Some(eviction) => {
                let same: bool = eviction.binding().same_publication(required_binding);
                assert(eviction.catalog.binding.told(*required_binding, same));
                if !same {
                    return None;
                }
                let outcome = help(&**eviction);
                assert(call_ensures(help, (&**eviction,), outcome));
                match outcome {
                    ResidencyHelpOutcome::Stale => {
                        return None;
                    },
                    ResidencyHelpOutcome::Complete => {},
                }
                Some(
                    PreparedBoundRootTransition {
                        expected: expected.alias(),
                        next: Arc::new(
                            PublishedRoot {
                                node: new,
                                term_count: expected.term_count(),
                                eviction: Some(Arc::new(eviction.settled_successor())),
                            },
                        ),
                    },
                )
            },
            None => None,
        }
    }

    /// Prepares a replacement together with its residency change. `None` when the
    /// root is bound to no registry, or when the change was prepared against
    /// another registry or another state of it.
    pub fn prepare_exact_root_transition(
        expected: &RootRevision<K, V>,
        new: Arc<OverlayNode<K, V>>,
        prepared: PreparedPackedResidency,
    ) -> (r: Option<PreparedBoundRootTransition<K, V>>)
        requires
            expected.wf(),
            new.wf(),
        ensures
            expected.told_fit(prepared, r is Some),
            r matches Some(transition) ==> {
                &&& transition.wf()
                &&& transition.expected == *expected
                &&& *transition.next == (PublishedRoot {
                    node: new,
                    term_count: expected.published.term_count,
                    eviction: Some(Arc::new(RootEvictionRevision::after(prepared))),
                })
            },
    {
        match &expected.published.eviction {
            Some(eviction) => match eviction.try_exact_successor(prepared) {
                Some(successor) => Some(
                    PreparedBoundRootTransition {
                        expected: expected.alias(),
                        next: Arc::new(
                            PublishedRoot {
                                node: new,
                                term_count: expected.term_count(),
                                eviction: Some(Arc::new(successor)),
                            },
                        ),
                    },
                ),
                None => None,
            },
            None => None,
        }
    }

    /// Publishes a prepared replacement, and helps its residency state once it is
    /// published.
    pub fn publish_bound_root_transition<H: Fn(&RootEvictionRevision) -> ResidencyHelpOutcome>(
        &self,
        prepared: &PreparedBoundRootTransition<K, V>,
        help: H,
    ) -> (r: Result<RootRevision<K, V>, Option<RootRevision<K, V>>>)
        requires
            prepared.wf(),
            call_requires(help, (&*prepared.next.eviction->0,)),
        ensures
            r is Ok ==> exists|outcome: ResidencyHelpOutcome| #[trigger]
                call_ensures(help, (&*prepared.next.eviction->0,), outcome),
            match r {
                Ok(previous) => previous == prepared.expected,
                Err(Some(actual)) => actual.wf(),
                Err(None) => true,
            },
            self.tried_exchange(prepared.expected.published, prepared.next, r),
    {
        let published = self.compare_exchange_revision(&prepared.expected, share(&prepared.next));
        if published.is_ok() {
            let next = prepared.next_eviction_revision();
            let outcome = help(next);
            assert(call_ensures(help, (next,), outcome));
        }
        published
    }

    /// Prepares the binding of an unchanged root to the registry of a checkpoint.
    pub fn prepare_checkpoint_binding(
        expected: &RootRevision<K, V>,
        catalog: Arc<PublishedRegistryCatalog>,
        resident_nodes: usize,
        resident_serialized_bytes: usize,
    ) -> (r: PreparedRootBinding<K, V>)
        ensures
            r.expected == *expected,
            r.next.node == expected.published.node,
            r.next.term_count == expected.published.term_count,
            r.next.eviction matches Some(e) && *e == (RootEvictionRevision {
                catalog,
                predecessor_ordinal: 0,
                ordinal: 0,
                resident_nodes,
                resident_serialized_bytes,
                delta: PackedResidencyDelta::Unchanged,
            }),
    {
        PreparedRootBinding {
            expected: expected.alias(),
            next: Arc::new(
                PublishedRoot {
                    node: share(expected.node()),
                    term_count: expected.term_count(),
                    eviction: Some(
                        Arc::new(
                            RootEvictionRevision::initial(
                                catalog,
                                resident_nodes,
                                resident_serialized_bytes,
                            ),
                        ),
                    ),
                },
            ),
        }
    }

    /// Publishes a prepared binding.
    pub fn publish_checkpoint_binding(
        &self,
        prepared: &PreparedRootBinding<K, V>,
    ) -> (r: Result<RootRevision<K, V>, Option<RootRevision<K, V>>>)
        requires
            prepared.next.node.wf(),
        ensures
            match r {
                Ok(previous) => previous == prepared.expected,
                Err(Some(actual)) => actual.wf(),
                Err(None) => true,
            },
            self.tried_exchange(prepared.expected.published, prepared.next, r),
    {
        self.compare_exchange_revision(&prepared.expected, share(&prepared.next))
    }

    /// Prepares the release of an unchanged root from its registry.
    pub fn prepare_retirement_detachment(expected: &RootRevision<K, V>) -> (r:
        PreparedRootDetachment<K, V>)
        ensures
            r.expected == *expected,
            r.next.node == expected.published.node,
            r.next.term_count == expected.published.term_count,
            r.next.eviction is None,
    {
        PreparedRootDetachment {
            expected: expected.alias(),
            next: Arc::new(
                PublishedRoot {
                    node: share(expected.node()),
                    term_count: expected.term_count(),
                    eviction: None,
                },
            ),
        }
    }

    /// Publishes a prepared release.
    pub fn publish_retirement_detachment(
        &self,
        prepared: &PreparedRootDetachment<K, V>,
    ) -> (r: Result<RootRevision<K, V>, Option<RootRevision<K, V>>>)
        requires
            prepared.next.node.wf(),
        ensures
            match r {
                Ok(previous) => previous == prepared.expected,
                Err(Some(actual)) => actual.wf(),
                Err(None) => true,
            },
            self.tried_exchange(prepared.expected.published, prepared.next, r),
    {
        self.compare_exchange_revision(&prepared.expected, share(&prepared.next))
    }

    /// Publishes a first root, if the slot is empty. Otherwise hands back the root
    /// that is published.
    pub fn try_init(&self, new: Arc<OverlayNode<K, V>>) -> (r: Result<(), Arc<OverlayNode<K, V>>>)
        requires
            new.wf(),
        ensures
            self.tried_init(new, 0, r),
            r matches Err(node) ==> node.wf(),
    {
        self.try_init_with_term_count(new, 0)
    }

    /// Publishes a first root and its number of terms, if the slot is empty.
    pub fn try_init_with_term_count(&self, new: Arc<OverlayNode<K, V>>, term_count: usize) -> (r:
        Result<(), Arc<OverlayNode<K, V>>>)
        requires
            new.wf(),
        ensures
            self.tried_init(new, term_count, r),
            r matches Err(node) ==> node.wf(),
    {
        let revision = Arc::new(fresh_revision(new, term_count));
        assert(is_fresh(revision, new, term_count));
        let previous = cell_compare_and_swap(&self.cell, &None, Some(revision));
        assert(self.exchanged(None, Some(revision), previous));
        init_verdict(previous)
    }

    /// The address of the published root, or zero when the slot is empty.
    pub fn as_raw(&self) -> (r: u64)
        ensures
            exists|content: Option<Arc<PublishedRoot<K, V>>>| #[trigger]
                self.read(content) && match content {
                    Some(published) => r != 0 && told_address(published.node, r),
                    None => r == 0,
                },
    {
        address_or_zero(&self.load())
    }
}

impl<K: KeyEncoding, V: DictionaryValue> Clone for AtomicNodePtr<K, V> {
    fn clone(&self) -> (r: Self)
        ensures
            exists|content: Option<Arc<PublishedRoot<K, V>>>| #[trigger]
                self.read(content) && match content {
                    Some(published) => exists|revision: Arc<PublishedRoot<K, V>>| #[trigger]
                        is_fresh(revision, published.node, published.term_count) && r.made_with(
                            Some(revision),
                        ),
                    None => r.made_with(None),
                },
    {
        match self.load_with_term_count() {
            Some((node, term_count)) => Self::new_with_term_count(node, term_count),
            None => Self::null(),
        }
    }
}

impl<K: KeyEncoding, V: DictionaryValue> Default for AtomicNodePtr<K, V> {
    fn default() -> (r: Self)
        ensures
            r.made_with(None),
    {
        Self::null()
    }
}

} // verus!
