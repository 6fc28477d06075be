//! What tries are built from and kept in: lists of terms, stamps, records in memory, the
//! frames of a walk, and lists of indices.

use smallvec::CollectionAllocErr;
use std::sync::Arc;
use vstd::prelude::*;
use crate::error::{CollectionAllocationError, TrieResult};
use crate::key_encoding::KeyEncoding;
use crate::laws::tries::finds;
use crate::overlay::atomic_ptr::DeferredDurableStamp;
use crate::overlay::f5_build::{build_overlay_root_from_terms, listed_term};
use crate::overlay::faulter::{loaded, MemoryRecords, OverlayFaulter};
use crate::overlay::indices::InlineIndices;
use crate::overlay::model::at;
use crate::overlay::node::{lemma_slot, Child, OverlayNode};
use crate::overlay::stamping::{stamp_nodes, stamped, stamped_root, stamping_keeps_terms};
use crate::overlay::{
    try_push_overlay_path_spine, OverlayNodeHandle, OverlayPathFrame, OverlayPathSpine,
    INLINE_OVERLAY_DEPTH,
};
use crate::swizzled_ptr::SwizzledPtr;
use crate::value::DictionaryValue;

verus! {

/// An entry of a list of terms is for a key.
pub open spec fn is_for<U, V>(terms: Seq<(Vec<U>, Option<V>)>, i: int, key: Seq<U>) -> bool {
    0 <= i < terms.len() && terms[i].0@ == key
}

/// An entry gives the key its value: it has one, and no later entry for the key has.
pub open spec fn decides<U, V>(terms: Seq<(Vec<U>, Option<V>)>, i: int, key: Seq<U>) -> bool {
    &&& is_for(terms, i, key)
    &&& terms[i].1 is Some
    &&& forall|j: int| i < j < terms.len() && #[trigger] is_for(terms, j, key) ==> terms[j].1
        is None
}

/// A trie that is built from a list of terms holds exactly the listed keys. A key has the
/// value of the last entry for it that has one, and none if no entry has; only the empty
/// key can also have what was given for it apart.
pub proof fn a_trie_holds_the_listed_terms<K: KeyEncoding, V: DictionaryValue>(
    terms: Vec<(Vec<K::Unit>, Option<V>)>,
    empty_term: Option<Option<V>>,
    root: Arc<OverlayNode<K, V>>,
    key: &[K::Unit],
    found: Option<Option<V>>,
)
    requires
        call_ensures(build_overlay_root_from_terms::<K, V>, (terms, empty_term), root),
        finds(root, key, found),
    ensures
        found is Some <==> (exists|i: int| is_for(terms@, i, key@)) || (key@.len() == 0
            && empty_term is Some),
        forall|i: int| #[trigger] decides(terms@, i, key@) ==> found == Some(terms@[i].1),
        (forall|i: int| !#[trigger] decides(terms@, i, key@)) && found is Some ==> found == Some(
            if key@.len() == 0 && empty_term is Some {
                empty_term->0
            } else {
                None
            },
        ),
{
    assert(crate::overlay::cas_walk::remaining_key(key@, 0) =~= key@);
    assert(crate::overlay::model::term(root@, key@) == listed_term(terms@, empty_term, key@));
    lemma_listed(terms@, empty_term, key@);
}

/// What a list of terms says of a key.
proof fn lemma_listed<U, V>(
    terms: Seq<(Vec<U>, Option<V>)>,
    empty_term: Option<Option<V>>,
    key: Seq<U>,
)
    ensures
        listed_term(terms, empty_term, key) is Some <==> (exists|i: int| is_for(terms, i, key)) || (
        key.len() == 0 && empty_term is Some),
        forall|i: int| #[trigger]
            decides(terms, i, key) ==> listed_term(terms, empty_term, key) == Some(terms[i].1),
        (forall|i: int| !#[trigger] decides(terms, i, key)) && listed_term(terms, empty_term, key)
            is Some ==> listed_term(terms, empty_term, key) == Some(
            if key.len() == 0 && empty_term is Some {
                empty_term->0
            } else {
                None
            },
        ),
    decreases terms.len(),
{
    if terms.len() > 0 {
        let fewer = terms.drop_last();
        lemma_listed(fewer, empty_term, key);
        let m = terms.len() - 1;
        assert(terms[m] == terms.last());
        assert forall|i: int| 0 <= i < m implies #[trigger] is_for(terms, i, key) == is_for(
            fewer,
            i,
            key,
        ) by {
            assert(terms[i] == fewer[i]);
        }
        if exists|i: int| is_for(fewer, i, key) {
            let i = choose|i: int| is_for(fewer, i, key);
            assert(is_for(terms, i, key));
        }
        if exists|i: int| is_for(terms, i, key) {
            let i = choose|i: int| is_for(terms, i, key);
            if i < m {
                assert(is_for(fewer, i, key));
            } else {
                assert(is_for(terms, m, key));
            }
        }
        if terms.last().0@ == key {
            assert(is_for(terms, m, key));
        }
        if terms.last().0@ == key && terms.last().1 is Some {
            assert(decides(terms, m, key));
            assert forall|i: int| #[trigger] decides(terms, i, key) implies i == m by {
                assert(is_for(terms, m, key));
            }
        } else {
            assert forall|i: int| #[trigger] decides(terms, i, key) implies decides(
                fewer,
                i,
                key,
            ) by {
                if i == m {
                    assert(terms[i] == terms.last());
                }
                assert(is_for(fewer, i, key));
                assert(terms[i] == fewer[i]);
                assert forall|j: int| i < j < fewer.len() && #[trigger] is_for(
                    fewer,
                    j,
                    key,
                ) implies fewer[j].1 is None by {
                    assert(is_for(terms, j, key));
                    assert(terms[j] == fewer[j]);
                }
            }
            assert forall|i: int| #[trigger] decides(fewer, i, key) implies decides(
                terms,
                i,
                key,
            ) by {
                assert(is_for(terms, i, key));
                assert(terms[i] == fewer[i]);
                assert forall|j: int| i < j < terms.len() && #[trigger] is_for(
                    terms,
                    j,
                    key,
                ) implies terms[j].1 is None by {
                    if j < m {
                        assert(is_for(fewer, j, key));
                        assert(terms[j] == fewer[j]);
                    }
                }
            }
        }
    }
}

/// Every node of a trie that is built from a list was modified once for being a term, once
/// for its value and once for each child, modulo 2^64; it has no stamp, and it stands on
/// the way to a listed key.
pub proof fn built_nodes_count_how_they_were_made<K: KeyEncoding, V: DictionaryValue>(
    terms: Vec<(Vec<K::Unit>, Option<V>)>,
    empty_term: Option<Option<V>>,
    root: Arc<OverlayNode<K, V>>,
    path: Seq<K::Unit>,
    node: Arc<OverlayNode<K, V>>,
    is_final: bool,
    has_value: bool,
    children: usize,
    version: u64,
    stamp: u64,
)
    requires
        call_ensures(build_overlay_root_from_terms::<K, V>, (terms, empty_term), root),
        at(root@, path) == Some(node@),
        node.wf(),
        call_ensures(OverlayNode::<K, V>::is_final, (&*node,), is_final),
        call_ensures(OverlayNode::<K, V>::has_value, (&*node,), has_value),
        call_ensures(OverlayNode::<K, V>::num_children, (&*node,), children),
        call_ensures(OverlayNode::<K, V>::version, (&*node,), version),
        call_ensures(OverlayNode::<K, V>::durable_stamp, (&*node,), stamp),
    ensures
        version as int == (children + (if is_final {
            1int
        } else {
            0
        }) + (if has_value {
            1int
        } else {
            0
        })) % 0x1_0000_0000_0000_0000,
        stamp == 0,
        path.len() == 0 || exists|i: int|
            0 <= i < terms@.len() && path.is_prefix_of((#[trigger] terms@[i]).0@),
{
    assert(match at(root@, path) {
        Some(n) => crate::overlay::f5_build::listed_prefix(terms@, path)
            && crate::overlay::f5_build::fresh_node(n),
        None => !crate::overlay::f5_build::listed_prefix(terms@, path),
    });
}

/// Applying stamps keeps every node at its path, with its finality, value and version. The
/// stamp of a node is the one that it had, or one that was given for an equal node.
pub proof fn stamps_are_put_on_their_nodes<K: KeyEncoding, V: DictionaryValue>(
    root: Arc<OverlayNode<K, V>>,
    stamps: Vec<DeferredDurableStamp<K, V>>,
    after: Arc<OverlayNode<K, V>>,
    path: Seq<K::Unit>,
)
    requires
        root.wf(),
        call_ensures(stamped_root::<K, V>, (&root, &stamps), after),
    ensures
        at(root@, path) is Some <==> at(after@, path) is Some,
        at(root@, path) is Some ==> ({
            let x = at(root@, path)->0;
            let y = at(after@, path)->0;
            &&& x.is_final == y.is_final
            &&& x.value == y.value
            &&& x.version == y.version
            &&& y.stamp == x.stamp || exists|i: int|
                0 <= i < stamps@.len() && (#[trigger] stamps@[i]).node@ == x && stamps@[i].raw
                    == y.stamp
        }),
        stamps@.len() == 0 && at(root@, path) is Some ==> at(after@, path)->0.stamp == at(
            root@,
            path,
        )->0.stamp,
{
    let index = choose|index: Map<u64, usize>|
        crate::overlay::graph_policy::index_told(stamp_nodes(stamps@), index) && #[trigger] stamped(
            stamps@,
            index,
            root,
            after,
        );
    stamping_keeps_terms(stamps@, index, root, after, path);
    if at(root@, path) is Some {
        lemma_stamps(stamps@, index, root, after, path);
    }
}

/// A node keeps its stamp for a reason: no stamp is for the address that it was told to
/// have, or the one that is was told to be for another node.
pub open spec fn kept_its_stamp<K: KeyEncoding, V>(
    stamps: Seq<DeferredDurableStamp<K, V>>,
    node: Arc<OverlayNode<K, V>>,
    index: Map<u64, usize>,
) -> bool {
    exists|address: u64| #[trigger]
        crate::shared::told_address(node, address) && (!index.dom().contains(address)
            || crate::shared::told_same(stamps[index[address] as int].node, node, false))
}

/// The root gets the stamp that was given for it, where one was told to be for it, and
/// keeps its own only where none was.
pub proof fn a_root_is_stamped_if_a_stamp_is_for_it<K: KeyEncoding, V: DictionaryValue>(
    root: Arc<OverlayNode<K, V>>,
    stamps: Vec<DeferredDurableStamp<K, V>>,
    after: Arc<OverlayNode<K, V>>,
    stamp: u64,
)
    requires
        root.wf(),
        call_ensures(stamped_root::<K, V>, (&root, &stamps), after),
        call_ensures(OverlayNode::<K, V>::durable_stamp, (&*after,), stamp),
    ensures
        exists|index: Map<u64, usize>| #[trigger]
            crate::overlay::graph_policy::index_told(stamp_nodes(stamps@), index) && ((exists|
                i: int,
            |
                0 <= i < stamps@.len() && (#[trigger] stamps@[i]).raw == stamp
                    && crate::shared::told_same(stamps@[i].node, root, true)) || (stamp
                == root.stamp && kept_its_stamp(stamps@, root, index))),
{
    let index = choose|index: Map<u64, usize>|
        crate::overlay::graph_policy::index_told(stamp_nodes(stamps@), index) && #[trigger] stamped(
            stamps@,
            index,
            root,
            after,
        );
    let (address, position) = choose|address: u64, position: Option<usize>|
        crate::shared::told_address(root, address)
            && #[trigger] crate::overlay::graph_policy::indexed_entry(
            stamp_nodes(stamps@),
            index,
            address,
            root,
            position,
        ) && after.stamp == (match position {
            Some(i) => stamps@[i as int].raw,
            None => root.stamp,
        });
    if index.dom().contains(address) {
        let i = index[address];
        assert(i < stamp_nodes(stamps@).len());
        assert(stamp_nodes(stamps@)[i as int] == stamps@[i as int].node);
        let same = choose|same: bool| #[trigger]
            crate::shared::told_same(stamp_nodes(stamps@)[i as int], root, same) && position == (
            if same {
                Some(i)
            } else {
                None
            }) && (same ==> stamp_nodes(stamps@)[i as int] == root);
        if same {
            assert(stamps@[i as int].raw == stamp);
        } else {
            assert(kept_its_stamp(stamps@, root, index));
        }
    } else {
        assert(kept_its_stamp(stamps@, root, index));
    }
}

/// What the stamps of nodes are once stamps were applied.
proof fn lemma_stamps<K: KeyEncoding, V>(
    stamps: Seq<DeferredDurableStamp<K, V>>,
    index: Map<u64, usize>,
    before: Arc<OverlayNode<K, V>>,
    after: Arc<OverlayNode<K, V>>,
    path: Seq<K::Unit>,
)
    requires
        before.wf(),
        after.wf(),
        stamped(stamps, index, before, after),
        at(before@, path) is Some,
        at(after@, path) is Some,
    ensures
        ({
            let x = at(before@, path)->0;
            let y = at(after@, path)->0;
            y.stamp == x.stamp || exists|i: int|
                0 <= i < stamps.len() && (#[trigger] stamps[i]).node@ == x && stamps[i].raw
                    == y.stamp
        }),
    decreases path.len(),
{
    if path.len() == 0 {
        let (address, position) = choose|address: u64, position: Option<usize>|
            crate::shared::told_address(before, address)
                && #[trigger] crate::overlay::graph_policy::indexed_entry(
                stamp_nodes(stamps),
                index,
                address,
                before,
                position,
            ) && after.stamp == (match position {
                Some(i) => stamps[i as int].raw,
                None => before.stamp,
            });
        if let Some(i) = position {
            assert(stamp_nodes(stamps)[i as int] == stamps[i as int].node);
            assert(stamps[i as int].node@ == before@);
        }
    } else {
        let content = *before;
        let copy = *after;
        assert(crate::overlay::node::has_unit(content.children@, path[0]));
        let t = crate::overlay::node::unit_slot(content.children@, path[0]);
        lemma_slot(content, t);
        assert(content.children@[t].0 == copy.children@[t].0);
        lemma_slot(copy, t);
        if let Child::InMem(child) = content.children@[t].1 {
            let other = copy.children@[t].1->InMem_0;
            assert(match copy.children@[t].1 {
                Child::InMem(inner) => inner.wf(),
                Child::OnDisk(_) => true,
            });
            assert(match content.children@[t].1 {
                Child::InMem(inner) => inner.wf(),
                Child::OnDisk(_) => true,
            });
            lemma_stamps(stamps, index, child, other, path.drop_first());
        }
    }
}

/// A record that was put in memory is loaded from its pointer unless the pointer had one
/// before; nothing else changes, and a pointer without a record is loaded from in vain.
pub proof fn a_record_in_memory_is_loaded<K: KeyEncoding, V>(
    records: MemoryRecords<K, V>,
    ptr: SwizzledPtr,
    node: Arc<OverlayNode<K, V>>,
    more: MemoryRecords<K, V>,
    probe: SwizzledPtr,
    before: TrieResult<Arc<OverlayNode<K, V>>>,
    after: TrieResult<Arc<OverlayNode<K, V>>>,
    silent: Option<Arc<OverlayNode<K, V>>>,
    none: MemoryRecords<K, V>,
    in_vain: TrieResult<Arc<OverlayNode<K, V>>>,
)
    requires
        node.wf(),
        call_ensures(MemoryRecords::<K, V>::with_record, (records, ptr, node), more),
        call_ensures(MemoryRecords::<K, V>::try_fault_overlay_slot, (&records, &probe), before),
        call_ensures(MemoryRecords::<K, V>::try_fault_overlay_slot, (&more, &probe), after),
        call_ensures(loaded::<K, V>, (after,), silent),
        call_ensures(MemoryRecords::<K, V>::new, (), none),
        call_ensures(MemoryRecords::<K, V>::try_fault_overlay_slot, (&none, &probe), in_vain),
    ensures
        in_vain is Err,
        after is Ok <==> before is Ok || probe == ptr,
        before is Ok ==> after->Ok_0@ == before->Ok_0@,
        before is Err && probe == ptr ==> after->Ok_0@ == node@,
        silent is Some <==> after is Ok,
        silent is Some ==> silent->0 == after->Ok_0,
{
    assert(none.record(probe) is None);
    assert(more.record(probe) == (if probe == ptr && records.record(probe) is None {
        Some(node@)
    } else {
        records.record(probe)
    }));
}

/// A frame that is pushed stands behind those before it. It is refused only if there is no
/// room, and then nothing changes; a spine that must not outgrow its inline frames never
/// does, and one that has done so has room for the whole walk.
pub proof fn frames_are_kept_in_order<'root, K: KeyEncoding, V>(
    spine: &mut OverlayPathSpine<'root, K, V>,
    before: OverlayPathSpine<'root, K, V>,
    after: OverlayPathSpine<'root, K, V>,
    frame: OverlayPathFrame<'root, K, V>,
    most: usize,
    result: Result<(), CollectionAllocationError>,
    len: usize,
    room: usize,
    now_len: usize,
    now_room: usize,
    spilled: bool,
)
    requires
        before.wf(),
        *spine == before,
        *final(spine) == after,
        frame.node.spec_node().wf(),
        before.frames@.len() == before.room ==> most > before.room,
        call_ensures(try_push_overlay_path_spine::<K, V>, (spine, frame, most), result),
        call_ensures(OverlayPathSpine::<'root, K, V>::len, (&before,), len),
        call_ensures(OverlayPathSpine::<'root, K, V>::capacity, (&before,), room),
        call_ensures(OverlayPathSpine::<'root, K, V>::len, (&after,), now_len),
        call_ensures(OverlayPathSpine::<'root, K, V>::capacity, (&after,), now_room),
        call_ensures(OverlayPathSpine::<'root, K, V>::spilled, (&after,), spilled),
    ensures
        result is Ok ==> now_len == len + 1 && after.frames@ == before.frames@.push(frame),
        result is Err ==> now_len == len && now_room == room && after.frames@ == before.frames@,
        len < room ==> result is Ok && now_room == room,
        len == room && result is Ok ==> now_room == most,
        len == room && before.spill_refused ==> result matches Err(
            CollectionAllocationError::CapacityOverflow,
        ),
        now_len <= now_room,
        spilled <==> now_room > INLINE_OVERLAY_DEPTH,
        after.spill_refused == before.spill_refused,
{
}

/// A new spine has no frames and room for those that are kept inline; it may outgrow them
/// exactly if it was made so.
pub proof fn a_new_spine_has_inline_room<'root, K: KeyEncoding, V>(
    may: bool,
    either: OverlayPathSpine<'root, K, V>,
    free: OverlayPathSpine<'root, K, V>,
    bound: OverlayPathSpine<'root, K, V>,
    len: usize,
    room: usize,
)
    requires
        call_ensures(OverlayPathSpine::<'root, K, V>::empty, (may,), either),
        call_ensures(OverlayPathSpine::<'root, K, V>::new, (), free),
        call_ensures(OverlayPathSpine::<'root, K, V>::without_spill, (), bound),
        call_ensures(OverlayPathSpine::<'root, K, V>::len, (&either,), len),
        call_ensures(OverlayPathSpine::<'root, K, V>::capacity, (&either,), room),
    ensures
        len == 0,
        room == INLINE_OVERLAY_DEPTH,
        either.spill_refused <==> !may,
        !free.spill_refused && free.frames@.len() == 0 && free.room == room,
        bound.spill_refused && bound.frames@.len() == 0 && bound.room == room,
{
}

/// A handle gives the node that it retains, borrowed or owned.
pub proof fn a_handle_gives_its_node<'root, K: KeyEncoding, V>(
    borrowed: &'root Arc<OverlayNode<K, V>>,
    owned: Arc<OverlayNode<K, V>>,
    of_borrowed: Arc<OverlayNode<K, V>>,
    of_owned: Arc<OverlayNode<K, V>>,
)
    requires
        call_ensures(
            OverlayNodeHandle::<'root, K, V>::into_arc,
            (OverlayNodeHandle::Borrowed(borrowed),),
            of_borrowed,
        ),
        call_ensures(
            OverlayNodeHandle::<'root, K, V>::into_arc,
            (OverlayNodeHandle::Owned(owned),),
            of_owned,
        ),
    ensures
        *of_borrowed == **borrowed,
        *of_owned == *owned,
{
}

/// An index that is pushed is found behind those before it, and a list that is cleared or
/// was just made holds none.
pub proof fn indices_are_kept_in_order(
    pushed: &mut InlineIndices,
    cleared: &mut InlineIndices,
    before: InlineIndices,
    after: InlineIndices,
    none: InlineIndices,
    index: usize,
    len: usize,
    probe: usize,
    found: Option<usize>,
    now_found: Option<usize>,
    room: Result<InlineIndices, CollectionAllocErr>,
    count: usize,
)
    requires
        *pushed == before,
        *cleared == before,
        *final(pushed) == after,
        *final(cleared) == none,
        call_ensures(InlineIndices::push, (pushed, index), ()),
        call_ensures(InlineIndices::clear, (cleared,), ()),
        call_ensures(InlineIndices::len, (&before,), len),
        call_ensures(InlineIndices::get, (&before, probe), found),
        call_ensures(InlineIndices::get, (&after, probe), now_found),
        call_ensures(InlineIndices::with_room, (count,), room),
    ensures
        found is Some <==> probe < len,
        now_found == if probe == len {
            Some(index)
        } else {
            found
        },
        forall|n: usize| #[trigger]
            call_ensures(InlineIndices::len, (&after,), n) ==> n == len + 1,
        forall|n: usize| #[trigger] call_ensures(InlineIndices::len, (&none,), n) ==> n == 0,
        forall|e: bool| #[trigger] call_ensures(InlineIndices::is_empty, (&before,), e) ==> (e
            <==> len == 0),
        room matches Ok(list) ==> forall|n: usize| #[trigger]
            call_ensures(InlineIndices::len, (&list,), n) ==> n == 0,
        count <= 1 ==> room is Ok,
        forall|list: InlineIndices, n: usize|
            #[trigger] call_ensures(InlineIndices::new, (), list) && #[trigger] call_ensures(
                InlineIndices::len,
                (&list,),
                n,
            ) ==> n == 0,
{
}

} // verus!
