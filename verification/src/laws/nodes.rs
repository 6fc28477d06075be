//! Nodes: a copy differs from what it was copied from in what was asked for and in
//! nothing else.

use std::sync::Arc;
use vstd::prelude::*;
use crate::error::TrieResult;
use crate::key_encoding::KeyEncoding;
use crate::overlay::node::{
    branches, lemma_kid_count, lemma_slot, put_all, Branch, Child, OverlayNode,
};
use crate::swizzled_ptr::SwizzledPtr;
use crate::value::DictionaryValue;

verus! {

/// What the observers of a node tell apart from its children.
pub struct Traits<V> {
    pub is_final: bool,
    pub has_value: bool,
    pub value: Option<V>,
    pub version: u64,
    pub stamp: u64,
}

/// The observers of a node tell this of it.
pub open spec fn tells<K: KeyEncoding, V: DictionaryValue>(
    node: OverlayNode<K, V>,
    traits: Traits<V>,
) -> bool {
    &&& call_ensures(OverlayNode::<K, V>::is_final, (&node,), traits.is_final)
    &&& call_ensures(OverlayNode::<K, V>::has_value, (&node,), traits.has_value)
    &&& call_ensures(OverlayNode::<K, V>::get_value, (&node,), traits.value)
    &&& call_ensures(OverlayNode::<K, V>::version, (&node,), traits.version)
    &&& call_ensures(OverlayNode::<K, V>::durable_stamp, (&node,), traits.stamp)
}

/// One more modification, modulo 2^64.
pub open spec fn advanced(version: u64, steps: int) -> int {
    (version + steps) % 0x1_0000_0000_0000_0000
}

/// Two answers to the question for a child are the same.
pub open spec fn same_child<K: KeyEncoding, V>(
    a: Option<&Child<K, V>>,
    b: Option<&Child<K, V>>,
) -> bool {
    match (a, b) {
        (Some(a), Some(b)) => a.branch() == b.branch(),
        (None, None) => true,
        _ => false,
    }
}

/// A node that was just made has no term, no value, no children, no stamp, and was never
/// modified.
pub proof fn a_new_node_is_bare<K: KeyEncoding, V: DictionaryValue>(
    node: OverlayNode<K, V>,
    traits: Traits<V>,
    unit: K::Unit,
    found: Option<&Child<K, V>>,
    children: usize,
)
    requires
        call_ensures(OverlayNode::<K, V>::new, (), node),
        tells(node, traits),
        call_ensures(OverlayNode::<K, V>::find_child, (&node, unit), found),
        call_ensures(OverlayNode::<K, V>::num_children, (&node,), children),
    ensures
        !traits.is_final,
        !traits.has_value,
        traits.value is None,
        traits.version == 0,
        traits.stamp == 0,
        found is None,
        children == 0,
{
    lemma_kid_count(node);
}

/// A copy with another child has that child under its edge, every other child and all
/// else as it was, is modified once more, and has lost its stamp.
pub proof fn a_child_is_put_under_its_edge<K: KeyEncoding, V: DictionaryValue>(
    node: OverlayNode<K, V>,
    unit: K::Unit,
    child: Child<K, V>,
    copy: OverlayNode<K, V>,
    before: Traits<V>,
    after: Traits<V>,
    probe: K::Unit,
    found: Option<&Child<K, V>>,
    now_found: Option<&Child<K, V>>,
    was: Option<&Child<K, V>>,
    children: usize,
    now_children: usize,
)
    requires
        node.wf(),
        child matches Child::InMem(inner) ==> inner.wf(),
        call_ensures(OverlayNode::<K, V>::with_child, (&node, unit, child), copy),
        tells(node, before),
        tells(copy, after),
        call_ensures(OverlayNode::<K, V>::find_child, (&node, probe), found),
        call_ensures(OverlayNode::<K, V>::find_child, (&copy, probe), now_found),
        call_ensures(OverlayNode::<K, V>::find_child, (&node, unit), was),
        call_ensures(OverlayNode::<K, V>::num_children, (&node,), children),
        call_ensures(OverlayNode::<K, V>::num_children, (&copy,), now_children),
    ensures
        probe == unit ==> now_found is Some && now_found->0.branch() == child.branch(),
        probe != unit ==> same_child(found, now_found),
        now_children == children + if was is Some {
            0int
        } else {
            1
        },
        after.is_final == before.is_final,
        after.value == before.value,
        after.has_value == before.has_value,
        after.version as int == advanced(before.version, 1),
        after.stamp == 0,
{
    lemma_kid_count(node);
    lemma_kid_count(copy);
}

/// A copy keeps all children, and all else but what was asked for: its finality, its
/// value or its stamp. The first two modify it once more and lose the stamp; the last
/// does not modify it.
pub proof fn a_copy_changes_what_was_asked_for<K: KeyEncoding, V: DictionaryValue>(
    node: OverlayNode<K, V>,
    given: V,
    raw: u64,
    fin: OverlayNode<K, V>,
    non: OverlayNode<K, V>,
    valued: OverlayNode<K, V>,
    stamped: OverlayNode<K, V>,
    before: Traits<V>,
    of_fin: Traits<V>,
    of_non: Traits<V>,
    of_valued: Traits<V>,
    of_stamped: Traits<V>,
    probe: K::Unit,
    found: Option<&Child<K, V>>,
)
    requires
        node.wf(),
        call_ensures(OverlayNode::<K, V>::as_final, (&node,), fin),
        call_ensures(OverlayNode::<K, V>::as_non_final, (&node,), non),
        call_ensures(OverlayNode::<K, V>::with_value, (&node, given), valued),
        call_ensures(OverlayNode::<K, V>::with_durable_stamp, (&node, raw), stamped),
        tells(node, before),
        tells(fin, of_fin),
        tells(non, of_non),
        tells(valued, of_valued),
        tells(stamped, of_stamped),
        call_ensures(OverlayNode::<K, V>::find_child, (&node, probe), found),
    ensures
        before.has_value <==> before.value is Some,
        of_fin == (Traits {
            is_final: true,
            version: advanced(before.version, 1) as u64,
            stamp: 0,
            ..before
        }),
        of_non == (Traits {
            is_final: false,
            version: advanced(before.version, 1) as u64,
            stamp: 0,
            ..before
        }),
        of_valued == (Traits {
            has_value: true,
            value: Some(given),
            version: advanced(before.version, 1) as u64,
            stamp: 0,
            ..before
        }),
        of_stamped == (Traits { stamp: raw, ..before }),
        forall|f: Option<&Child<K, V>>|
            call_ensures(OverlayNode::<K, V>::find_child, (&fin, probe), f) ==> same_child(
                found,
                f,
            ),
        forall|f: Option<&Child<K, V>>|
            call_ensures(OverlayNode::<K, V>::find_child, (&non, probe), f) ==> same_child(
                found,
                f,
            ),
        forall|f: Option<&Child<K, V>>|
            call_ensures(OverlayNode::<K, V>::find_child, (&valued, probe), f) ==> same_child(
                found,
                f,
            ),
        forall|f: Option<&Child<K, V>>|
            call_ensures(OverlayNode::<K, V>::find_child, (&stamped, probe), f) ==> same_child(
                found,
                f,
            ),
{
}

/// An edge was replaced last by a child.
pub open spec fn last_given<K: KeyEncoding, V>(
    replacements: Seq<(K::Unit, Child<K, V>)>,
    unit: K::Unit,
    i: int,
) -> bool {
    &&& 0 <= i < replacements.len()
    &&& replacements[i].0 == unit
    &&& forall|j: int| i < j < replacements.len() ==> (#[trigger] replacements[j]).0 != unit
}

/// Replacing children succeeds exactly if every edge that is named has a child. Each of
/// these then leads to the child that was given for it last, every other edge to what it
/// led to; finality and value stay, the modifications are counted, the stamp is lost.
pub proof fn children_are_replaced_under_their_edges<K: KeyEncoding, V: DictionaryValue>(
    node: OverlayNode<K, V>,
    replacements: Vec<(K::Unit, Child<K, V>)>,
    steps: usize,
    result: TrieResult<OverlayNode<K, V>>,
    before: Traits<V>,
    probe: K::Unit,
    found: Option<&Child<K, V>>,
)
    requires
        node.wf(),
        forall|i: int|
            0 <= i < replacements@.len() ==> match #[trigger] replacements@[i].1 {
                Child::InMem(inner) => inner.wf(),
                Child::OnDisk(_) => true,
            },
        call_ensures(
            OverlayNode::<K, V>::try_with_child_replacements,
            (&node, replacements, steps),
            result,
        ),
        tells(node, before),
        call_ensures(OverlayNode::<K, V>::find_child, (&node, probe), found),
    ensures
        result is Err ==> result->Err_0 is InternalError,
        result is Ok && found is None ==> forall|i: int| !last_given(replacements@, probe, i),
        result matches Ok(copy) ==> {
            &&& forall|after: Traits<V>| #[trigger]
                tells(copy, after) ==> after.is_final == before.is_final && after.value
                    == before.value && after.version as int == advanced(
                    before.version,
                    steps as int,
                ) && after.stamp == 0
            &&& forall|f: Option<&Child<K, V>>, i: int|
                #[trigger] call_ensures(OverlayNode::<K, V>::find_child, (&copy, probe), f)
                    && #[trigger] last_given(replacements@, probe, i) ==> f is Some
                    && f->0.branch() == replacements@[i].1.branch()
            &&& forall|f: Option<&Child<K, V>>|
                call_ensures(OverlayNode::<K, V>::find_child, (&copy, probe), f) && (forall|i: int|
                    !#[trigger] last_given(replacements@, probe, i)) ==> same_child(found, f)
        },
{
    lemma_put_all(node@.kids, branches(replacements@), probe);
    let list = replacements@;
    assert forall|i: int| #[trigger] last_given(list, probe, i) implies last_of(
        branches(list),
        probe,
        i,
    ) by {
        assert forall|j: int| i < j < list.len() implies (#[trigger] branches(list)[j]).0 != probe by {
            assert(list[j].0 != probe);
        }
    }
    if forall|i: int| !#[trigger] last_given(list, probe, i) {
        assert forall|i: int| 0 <= i < list.len() implies (#[trigger] branches(list)[i]).0
            != probe by {
            if list[i].0 == probe {
                lemma_some_last(list, probe, i);
            }
        }
    }
    if result is Ok && found is None {
        assert forall|i: int| !last_given(list, probe, i) by {
            if last_given(list, probe, i) {
                assert(node@.kids.dom().contains(list[i].0));
            }
        }
    }
}

/// An edge that is named is named last somewhere.
proof fn lemma_some_last<K: KeyEncoding, V>(
    list: Seq<(K::Unit, Child<K, V>)>,
    unit: K::Unit,
    i: int,
)
    requires
        0 <= i < list.len(),
        list[i].0 == unit,
    ensures
        exists|j: int| last_given(list, unit, j),
    decreases list.len() - i,
{
    if last_given(list, unit, i) {
    } else {
        let j = choose|j: int| i < j < list.len() && (#[trigger] list[j]).0 == unit;
        lemma_some_last(list, unit, j);
    }
}

/// An edge was replaced last by a branch.
spec fn last_of<U, V>(list: Seq<(U, Branch<U, V>)>, unit: U, i: int) -> bool {
    &&& 0 <= i < list.len()
    &&& list[i].0 == unit
    &&& forall|j: int| i < j < list.len() ==> (#[trigger] list[j]).0 != unit
}

/// What a list of replacements makes of an edge.
proof fn lemma_put_all<U, V>(
    kids: Map<U, Branch<U, V>>,
    list: Seq<(U, Branch<U, V>)>,
    unit: U,
)
    ensures
        forall|i: int| #[trigger] last_of(list, unit, i) ==> put_all(kids, list).dom().contains(
            unit,
        ) && put_all(kids, list)[unit] == list[i].1,
        (forall|i: int| 0 <= i < list.len() ==> (#[trigger] list[i]).0 != unit) ==> put_all(
            kids,
            list,
        ).dom().contains(unit) == kids.dom().contains(unit) && (kids.dom().contains(unit)
            ==> put_all(kids, list)[unit] == kids[unit]),
    decreases list.len(),
{
    if list.len() > 0 {
        let fewer = list.drop_last();
        lemma_put_all(kids, fewer, unit);
        let m = list.len() - 1;
        assert forall|i: int| #[trigger] last_of(list, unit, i) implies put_all(
            kids,
            list,
        ).dom().contains(unit) && put_all(kids, list)[unit] == list[i].1 by {
            if i < m {
                assert(list[m].0 != unit);
                assert forall|j: int| i < j < fewer.len() implies (#[trigger] fewer[j]).0 != unit by {
                    assert(list[j].0 != unit);
                }
                assert(last_of(fewer, unit, i));
            }
        }
        if forall|i: int| 0 <= i < list.len() ==> (#[trigger] list[i]).0 != unit {
            assert(list[m].0 != unit);
            assert forall|i: int| 0 <= i < fewer.len() implies (#[trigger] fewer[i]).0 != unit by {
                assert(list[i].0 != unit);
            }
        }
    }
}

/// The children are listed by the rank of their edges, each once, and each is the one
/// that its edge leads to.
pub proof fn children_are_listed_in_order<K: KeyEncoding, V: DictionaryValue>(
    node: OverlayNode<K, V>,
    i: usize,
    j: usize,
    first: Option<(K::Unit, &Child<K, V>)>,
    second: Option<(K::Unit, &Child<K, V>)>,
    children: usize,
    unit: K::Unit,
    found: Option<&Child<K, V>>,
)
    requires
        node.wf(),
        i < j,
        call_ensures(OverlayNode::<K, V>::child_at, (&node, i), first),
        call_ensures(OverlayNode::<K, V>::child_at, (&node, j), second),
        call_ensures(OverlayNode::<K, V>::num_children, (&node,), children),
        call_ensures(OverlayNode::<K, V>::find_child, (&node, unit), found),
    ensures
        first is Some <==> i < children,
        second is Some <==> j < children,
        second is Some ==> forall|a: u64, b: u64|
            call_ensures(K::unit_rank, ((first->0).0,), a) && call_ensures(
                K::unit_rank,
                ((second->0).0,),
                b,
            ) ==> a < b,
        first is Some && (first->0).0 == unit ==> found is Some && found->0.branch()
            == (first->0).1.branch(),
        found is Some ==> exists|k: int|
            0 <= k < children && (#[trigger] node.children@[k]).0 == unit,
{
    lemma_kid_count(node);
    if first is Some {
        lemma_slot(node, i as int);
    }
}

/// A child is in memory or durable, never both, and another handle leads to the same.
pub proof fn a_child_is_one_or_the_other<K: KeyEncoding, V>(
    child: Child<K, V>,
    resident: Option<&Arc<OverlayNode<K, V>>>,
    durable: Option<&SwizzledPtr>,
    other: Child<K, V>,
)
    requires
        call_ensures(Child::<K, V>::as_in_mem, (&child,), resident),
        call_ensures(Child::<K, V>::as_on_disk, (&child,), durable),
        call_ensures(Child::<K, V>::alias, (&child,), other),
    ensures
        resident is Some <==> durable is None,
        resident matches Some(node) ==> child == Child::<K, V>::InMem(*node),
        durable matches Some(ptr) ==> child == Child::<K, V>::OnDisk(*ptr),
        other == child,
{
}

} // verus!
