//! Which registrations a serialization asks for: each record that was written is
//! registered once, in the order of writing, at the path of the node that it stores.

use vstd::prelude::*;
use crate::key_encoding::KeyEncoding;
use crate::swizzled_ptr::SwizzledPtr;
use super::model::{at, lemma_at_concat};
use super::node::{Branch, Child, Tree};
use super::serialize_chain::{chain_node, chain_ok, lemma_chain_part};
use super::serialize_frame::Frame;
use super::serialize_ledger::{lemma_slot_kid, Facts};
use super::serialize_model::{lemma_chain_at, RecordView};
use super::serialize_trace::Log;

verus! {

/// Records that were asked to be registered, in order, with their paths.
pub type Asked<U> = Seq<(SwizzledPtr, Seq<U>)>;

/// Since `first`, each record that was written was asked to be registered, in order,
/// at the path of a node below the root; or none, if paths are not registered.
#[verifier::opaque]
pub open spec fn registrations<U, V>(
    registers: bool,
    root: Tree<U, V>,
    first: (Log<U, V>, Asked<U>),
    log: Log<U, V>,
    asked: Asked<U>,
) -> bool {
    if registers {
        &&& first.0.len() <= log.len()
        &&& asked.len() - first.1.len() == log.len() - first.0.len()
        &&& forall|i: int| 0 <= i < first.1.len() ==> #[trigger] asked[i] == first.1[i]
        &&& forall|i: int|
            first.1.len() <= i < asked.len() ==> {
                &&& (#[trigger] asked[i]).0 == log[i - first.1.len() + first.0.len()].0
                &&& asked[i].1 == log[i - first.1.len() + first.0.len()].2
                &&& at(root, asked[i].1) is Some
            }
    } else {
        asked == first.1
    }
}

/// The node at the path of a registration is stored at its record.
pub open spec fn asked_known<U, V>(
    root: Tree<U, V>,
    facts: Facts<U, V>,
    entry: (SwizzledPtr, Seq<U>),
) -> bool {
    at(root, entry.1) matches Some(node) && facts.contains((entry.0, node))
}

/// What was asked from an index on agrees with what is known: the node at each path is
/// stored at the record.
#[verifier::opaque]
pub open spec fn asked_of<U, V>(
    from: nat,
    asked: Asked<U>,
    root: Tree<U, V>,
    facts: Facts<U, V>,
) -> bool {
    forall|i: int|
        from <= i < asked.len() ==> asked_known(root, facts, #[trigger] asked[i])
}

/// What is asked with one more record.
pub open spec fn asked_more<U>(
    registers: bool,
    asked: Asked<U>,
    ptr: SwizzledPtr,
    path: Seq<U>,
) -> Asked<U> {
    if registers {
        asked.push((ptr, path))
    } else {
        asked
    }
}

/// Nothing was written yet.
pub proof fn lemma_registrations_start<U, V>(
    registers: bool,
    root: Tree<U, V>,
    log: Log<U, V>,
    asked: Asked<U>,
    facts: Facts<U, V>,
)
    ensures
        registrations(registers, root, (log, asked), log, asked),
        asked_of(asked.len(), asked, root, facts),
{
    reveal(registrations);
    reveal(asked_of);
}

/// One more record.
pub proof fn lemma_registrations_push<U, V>(
    registers: bool,
    root: Tree<U, V>,
    first: (Log<U, V>, Asked<U>),
    log: Log<U, V>,
    asked: Asked<U>,
    ptr: SwizzledPtr,
    record: RecordView<U, V>,
    path: Seq<U>,
)
    requires
        registrations(registers, root, first, log, asked),
        at(root, path) is Some,
    ensures
        registrations(
            registers,
            root,
            first,
            log.push((ptr, record, path)),
            asked_more(registers, asked, ptr, path),
        ),
{
    reveal(registrations);
    if registers {
        let longer = log.push((ptr, record, path));
        let more = asked.push((ptr, path));
        assert forall|i: int| 0 <= i < first.1.len() implies #[trigger] more[i] == first.1[i] by {
            assert(more[i] == asked[i]);
        }
        assert forall|i: int| first.1.len() <= i < more.len() implies (#[trigger] more[i]).0
            == longer[i - first.1.len() + first.0.len()].0 && more[i].1 == longer[i
            - first.1.len() + first.0.len()].2 && at(root, more[i].1) is Some by {
            if i < asked.len() {
                assert(more[i] == asked[i]);
                let j = i - first.1.len() + first.0.len();
                assert(longer[j] == log[j]);
            }
        }
    }
}

/// One more record, of a node that is known to be stored at it.
pub proof fn lemma_asked_push<U, V>(
    registers: bool,
    from: nat,
    asked: Asked<U>,
    root: Tree<U, V>,
    facts: Facts<U, V>,
    ptr: SwizzledPtr,
    path: Seq<U>,
    node: Tree<U, V>,
)
    requires
        asked_of(from, asked, root, facts),
        at(root, path) == Some(node),
    ensures
        asked_of(
            from,
            asked_more(registers, asked, ptr, path),
            root,
            facts.insert((ptr, node)),
        ),
{
    reveal(asked_of);
    let more = asked_more(registers, asked, ptr, path);
    assert forall|i: int| from <= i < more.len() implies asked_known(
        root,
        facts.insert((ptr, node)),
        #[trigger] more[i],
    ) by {
        if i < asked.len() {
            assert(more[i] == asked[i]);
            assert(asked_known(root, facts, asked[i]));
        }
    }
}

/// More is known.
pub proof fn lemma_asked_grow<U, V>(
    from: nat,
    asked: Asked<U>,
    root: Tree<U, V>,
    facts: Facts<U, V>,
    more: Facts<U, V>,
)
    requires
        asked_of(from, asked, root, facts),
        facts.subset_of(more),
    ensures
        asked_of(from, asked, root, more),
{
    reveal(asked_of);
    assert forall|i: int| from <= i < asked.len() implies asked_known(
        root,
        more,
        #[trigger] asked[i],
    ) by {
        assert(asked_known(root, facts, asked[i]));
    }
}

impl<K: KeyEncoding, V> Frame<K, V> {
    /// The path of a frame leads to its node, by way of the head of its chain.
    pub open spec fn placed(self, root: Tree<K::Unit, V>) -> bool {
        &&& at(root, self.full@) == Some(self.node@)
        &&& self.chain_prefix@.len() > 0 ==> {
            &&& at(root, self.full@.take(self.base_depth + 1)) == Some(self.head()@)
            &&& self.full@.skip(self.base_depth + 1) == self.chain_prefix@
        }
    }
}

/// The path of a child of a placed frame.
pub proof fn lemma_slot_at<K: KeyEncoding, V>(
    root: Tree<K::Unit, V>,
    parent: Frame<K, V>,
    slot: int,
)
    requires
        parent.ok(),
        parent.placed(root),
        0 <= slot < parent.slots@.len(),
    ensures
        parent.slots@[slot].1 matches Child::InMem(node) ==> at(
            root,
            parent.full@.push(parent.slots@[slot].0),
        ) == Some(node@),
{
    let unit = parent.slots@[slot].0;
    let node = *parent.node;
    lemma_slot_kid(node, parent.slots@, slot);
    if let Child::InMem(child) = parent.slots@[slot].1 {
        let step = seq![unit];
        assert(step.drop_first() =~= Seq::empty());
        assert(at(node@, step) == Some(child@)) by {
            assert(super::model::kid(node@, unit) == Some(Branch::<K::Unit, V>::InMem(child@)));
            assert(at(child@, Seq::<K::Unit>::empty()) == Some(child@));
        }
        assert(parent.full@.push(unit) =~= parent.full@ + step);
        lemma_at_concat(root, parent.full@, step);
    }
}

/// The path of a frame for a child at a path.
pub proof fn lemma_placed<K: KeyEncoding, V>(
    root: Tree<K::Unit, V>,
    top: Seq<K::Unit>,
    below: Frame<K, V>,
)
    requires
        at(root, top) == Some(below.head()@),
        below.ok(),
        below.base_depth + 1 == top.len(),
        below.full@ == top + below.chain_prefix@,
    ensures
        below.placed(root),
{
    let units = below.chain_prefix@;
    reveal(chain_ok);
    lemma_chain_part(below.live_spine@, units, below.node, 0, units.len() as int);
    assert(units.subrange(0, units.len() as int) =~= units);
    assert(chain_node(below.live_spine@, below.node, units.len() as int) == below.node);
    lemma_chain_at(below.head()@, units, below.node@);
    lemma_at_concat(root, top, units);
    assert(below.full@.take(below.base_depth + 1) =~= top);
    assert(below.full@.skip(below.base_depth + 1) =~= units);
}

/// The path of a position on the chain of a placed frame.
pub proof fn lemma_placed_chain<K: KeyEncoding, V>(
    root: Tree<K::Unit, V>,
    frame: Frame<K, V>,
    position: int,
)
    requires
        frame.ok(),
        frame.placed(root),
        0 <= position < frame.chain_prefix@.len(),
    ensures
        at(root, frame.full@.take(frame.base_depth + 1 + position)) == Some(
            chain_node(frame.live_spine@, frame.node, position)@,
        ),
{
    let units = frame.chain_prefix@;
    let part = units.subrange(0, position);
    let top = frame.full@.take(frame.base_depth + 1);
    lemma_chain_part(frame.live_spine@, units, frame.node, 0, position);
    lemma_chain_at(frame.head()@, part, chain_node(frame.live_spine@, frame.node, position)@);
    lemma_at_concat(root, top, part);
    assert(frame.full@.take(frame.base_depth + 1 + position) =~= top + part) by {
        assert forall|j: int| 0 <= j < position implies frame.full@[frame.base_depth + 1 + j]
            == part[j] by {
            assert(frame.full@.skip(frame.base_depth + 1)[j] == units[j]);
        }
    }
}

} // verus!
