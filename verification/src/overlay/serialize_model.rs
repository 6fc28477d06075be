//! What path-compressed records mean: the terms that a record stores together
//! with the records it points to.

use vstd::prelude::*;
use crate::swizzled_ptr::SwizzledPtr;
use super::model::{at, kid};
use super::node::{Branch, Tree};

verus! {

/// The content of one record: a compressed prefix, the finality and value of the
/// node at its end, and that node's edges.
#[verifier::ext_equal]
pub struct RecordView<U, V> {
    pub prefix: Seq<U>,
    pub is_final: bool,
    pub value: Option<V>,
    pub kids: Seq<(U, SwizzledPtr)>,
}

/// All durable records.
pub type Store<U, V> = Map<SwizzledPtr, RecordView<U, V>>;

/// The record that an edge leads to.
pub open spec fn kid_ptr<U>(kids: Seq<(U, SwizzledPtr)>, unit: U) -> Option<SwizzledPtr> {
    if exists|i: int| 0 <= i < kids.len() && (#[trigger] kids[i]).0 == unit {
        Some(kids[choose|i: int| 0 <= i < kids.len() && (#[trigger] kids[i]).0 == unit].1)
    } else {
        None
    }
}

/// What is stored under a key in the records from `ptr` on.
pub open spec fn record_term<U, V>(store: Store<U, V>, ptr: SwizzledPtr, key: Seq<U>) -> Option<
    Option<V>,
>
    decreases key.len(),
{
    if !store.dom().contains(ptr) || !store[ptr].prefix.is_prefix_of(key) {
        None
    } else {
        let rest = key.skip(store[ptr].prefix.len() as int);
        if rest.len() == 0 {
            if store[ptr].is_final {
                Some(store[ptr].value)
            } else {
                None
            }
        } else {
            match kid_ptr(store[ptr].kids, rest[0]) {
                Some(child) => record_term(store, child, rest.drop_first()),
                None => None,
            }
        }
    }
}

/// What is stored under a key in a trie whose durable children are in the store.
pub open spec fn tree_term<U, V>(store: Store<U, V>, tree: Tree<U, V>, key: Seq<U>) -> Option<
    Option<V>,
>
    decreases key.len(),
{
    if key.len() == 0 {
        if tree.is_final {
            Some(tree.value)
        } else {
            None
        }
    } else {
        match kid(tree, key[0]) {
            Some(Branch::InMem(child)) => tree_term(store, child, key.drop_first()),
            Some(Branch::OnDisk(ptr)) => if ptr.raw != 0 {
                record_term(store, ptr, key.drop_first())
            } else {
                None
            },
            None => None,
        }
    }
}

/// The records from `ptr` on store exactly the terms of the trie.
#[verifier::opaque]
pub open spec fn stored<U, V>(store: Store<U, V>, ptr: SwizzledPtr, tree: Tree<U, V>) -> bool {
    forall|key: Seq<U>| #[trigger] record_term(store, ptr, key) == tree_term(store, tree, key)
}

/// No record points outside the store.
#[verifier::opaque]
pub open spec fn closed<U, V>(store: Store<U, V>) -> bool {
    forall|ptr: SwizzledPtr, i: int|
        store.dom().contains(ptr) && 0 <= i < store[ptr].kids.len() ==> store.dom().contains(
            (#[trigger] store[ptr].kids[i]).1,
        )
}

/// `after` holds every record of `before`.
#[verifier::opaque]
pub open spec fn grows<U, V>(before: Store<U, V>, after: Store<U, V>) -> bool {
    forall|ptr: SwizzledPtr| #[trigger]
        before.dom().contains(ptr) ==> after.dom().contains(ptr) && after[ptr] == before[ptr]
}

/// Every durable child of one node is in the store.
pub open spec fn node_refs_known<U, V>(store: Store<U, V>, node: Tree<U, V>) -> bool {
    forall|unit: U|
        match #[trigger] kid(node, unit) {
            Some(Branch::OnDisk(ptr)) => ptr.raw != 0 ==> store.dom().contains(ptr),
            _ => true,
        }
}

/// Every durable child of the trie is in the store.
#[verifier::opaque]
pub open spec fn refs_known<U, V>(store: Store<U, V>, tree: Tree<U, V>) -> bool {
    forall|path: Seq<U>|
        match #[trigger] at(tree, path) {
            Some(node) => node_refs_known(store, node),
            None => true,
        }
}

/// Every stamped node of the trie is stored by the record of its stamp.
#[verifier::opaque]
pub open spec fn stamps_known<U, V>(store: Store<U, V>, tree: Tree<U, V>) -> bool {
    forall|path: Seq<U>|
        match #[trigger] at(tree, path) {
            Some(node) => node.stamp != 0 ==> {
                let ptr = SwizzledPtr { raw: node.stamp };
                store.dom().contains(ptr) && stored(store, ptr, node)
            },
            None => true,
        }
}

/// A trie whose durable children and stamps are backed by the store.
pub open spec fn backed<U, V>(store: Store<U, V>, tree: Tree<U, V>) -> bool {
    refs_known(store, tree) && stamps_known(store, tree)
}

/// More records change nothing about the terms of a known record.
pub proof fn lemma_record_term_grows<U, V>(
    before: Store<U, V>,
    after: Store<U, V>,
    ptr: SwizzledPtr,
    key: Seq<U>,
)
    requires
        closed(before),
        grows(before, after),
        before.dom().contains(ptr),
    ensures
        record_term(after, ptr, key) == record_term(before, ptr, key),
    decreases key.len(),
{
    reveal(closed);
    reveal(grows);
    assert(after[ptr] == before[ptr]);
    if before[ptr].prefix.is_prefix_of(key) {
        let rest = key.skip(before[ptr].prefix.len() as int);
        if rest.len() > 0 {
            let kids = before[ptr].kids;
            if exists|i: int| 0 <= i < kids.len() && (#[trigger] kids[i]).0 == rest[0] {
                let i = choose|i: int| 0 <= i < kids.len() && (#[trigger] kids[i]).0 == rest[0];
                assert(before[ptr].kids[i] == kids[i]);
                lemma_record_term_grows(before, after, kids[i].1, rest.drop_first());
            }
        }
    }
}

/// A trie that is backed stays so for its resident children.
pub proof fn lemma_backed_child<U, V>(
    store: Store<U, V>,
    tree: Tree<U, V>,
    unit: U,
    child: Tree<U, V>,
)
    requires
        backed(store, tree),
        kid(tree, unit) == Some(Branch::InMem(child)),
    ensures
        backed(store, child),
{
    reveal(refs_known);
    reveal(stamps_known);
    assert forall|path: Seq<U>| #[trigger] at(child, path) == at(tree, seq![unit] + path) by {
        assert((seq![unit] + path).drop_first() =~= path);
    }
    assert forall|path: Seq<U>|
        match #[trigger] at(child, path) {
            Some(node) => node_refs_known(store, node),
            None => true,
        } by {
        assert(at(child, path) == at(tree, seq![unit] + path));
    }
    assert forall|path: Seq<U>|
        match #[trigger] at(child, path) {
            Some(node) => node.stamp != 0 ==> {
                let ptr = SwizzledPtr { raw: node.stamp };
                store.dom().contains(ptr) && stored(store, ptr, node)
            },
            None => true,
        } by {
        assert(at(child, path) == at(tree, seq![unit] + path));
    }
}

/// The durable children of the root itself are known.
pub proof fn lemma_backed_here<U, V>(store: Store<U, V>, tree: Tree<U, V>)
    requires
        backed(store, tree),
    ensures
        forall|unit: U|
            match #[trigger] kid(tree, unit) {
                Some(Branch::OnDisk(ptr)) => ptr.raw != 0 ==> store.dom().contains(ptr),
                _ => true,
            },
        tree.stamp != 0 ==> store.dom().contains(SwizzledPtr { raw: tree.stamp }) && stored(
            store,
            SwizzledPtr { raw: tree.stamp },
            tree,
        ),
{
    reveal(refs_known);
    reveal(stamps_known);
    assert(at(tree, Seq::<U>::empty()) == Some(tree));
}

/// More records change nothing about the terms of a backed trie.
pub proof fn lemma_tree_term_grows<U, V>(
    before: Store<U, V>,
    after: Store<U, V>,
    tree: Tree<U, V>,
    key: Seq<U>,
)
    requires
        closed(before),
        grows(before, after),
        backed(before, tree),
    ensures
        tree_term(after, tree, key) == tree_term(before, tree, key),
    decreases key.len(),
{
    lemma_backed_here(before, tree);
    if key.len() > 0 {
        match kid(tree, key[0]) {
            Some(Branch::InMem(child)) => {
                lemma_backed_child(before, tree, key[0], child);
                lemma_tree_term_grows(before, after, child, key.drop_first());
            },
            Some(Branch::OnDisk(ptr)) => {
                if ptr.raw != 0 {
                    lemma_record_term_grows(before, after, ptr, key.drop_first());
                }
            },
            None => {},
        }
    }
}

/// More records keep what is stored.
pub proof fn lemma_stored_grows<U, V>(
    before: Store<U, V>,
    after: Store<U, V>,
    ptr: SwizzledPtr,
    tree: Tree<U, V>,
)
    requires
        closed(before),
        grows(before, after),
        backed(before, tree),
        before.dom().contains(ptr),
        stored(before, ptr, tree),
    ensures
        after.dom().contains(ptr),
        stored(after, ptr, tree),
{
    reveal(stored);
    assert forall|key: Seq<U>| #[trigger] record_term(after, ptr, key) == tree_term(
        after,
        tree,
        key,
    ) by {
        lemma_record_term_grows(before, after, ptr, key);
        lemma_tree_term_grows(before, after, tree, key);
        assert(record_term(before, ptr, key) == tree_term(before, tree, key));
    }
    reveal(grows);
}

/// More records keep a trie backed.
pub proof fn lemma_backed_grows<U, V>(before: Store<U, V>, after: Store<U, V>, tree: Tree<U, V>)
    requires
        closed(before),
        grows(before, after),
        backed(before, tree),
    ensures
        backed(after, tree),
{
    reveal(refs_known);
    reveal(stamps_known);
    assert forall|path: Seq<U>|
        match #[trigger] at(tree, path) {
            Some(node) => node_refs_known(after, node),
            None => true,
        } by {
        reveal(grows);
        match at(tree, path) {
            Some(node) => {
                assert(node_refs_known(before, node));
            },
            None => {},
        }
    }
    assert forall|path: Seq<U>|
        match #[trigger] at(tree, path) {
            Some(node) => node.stamp != 0 ==> {
                let ptr = SwizzledPtr { raw: node.stamp };
                after.dom().contains(ptr) && stored(after, ptr, node)
            },
            None => true,
        } by {
        match at(tree, path) {
            Some(node) => {
                if node.stamp != 0 {
                    lemma_backed_at(before, tree, path, node);
                    lemma_stored_grows(before, after, SwizzledPtr { raw: node.stamp }, node);
                }
            },
            None => {},
        }
    }
}

/// A trie that is backed stays so for every resident node.
pub proof fn lemma_backed_at<U, V>(
    store: Store<U, V>,
    tree: Tree<U, V>,
    path: Seq<U>,
    node: Tree<U, V>,
)
    requires
        backed(store, tree),
        at(tree, path) == Some(node),
    ensures
        backed(store, node),
    decreases path.len(),
{
    if path.len() > 0 {
        let child = kid(tree, path[0])->0->InMem_0;
        lemma_backed_child(store, tree, path[0], child);
        lemma_backed_at(store, child, path.drop_first(), node);
    }
}

/// Growth adds up.
pub proof fn lemma_grows_trans<U, V>(a: Store<U, V>, b: Store<U, V>, c: Store<U, V>)
    requires
        grows(a, b),
        grows(b, c),
    ensures
        grows(a, c),
{
    reveal(grows);
    assert forall|ptr: SwizzledPtr| #[trigger] a.dom().contains(ptr) implies c.dom().contains(ptr)
        && c[ptr] == a[ptr] by {
        assert(b.dom().contains(ptr));
    }
}

/// A new record that points into the store.
pub proof fn lemma_insert_record<U, V>(
    store: Store<U, V>,
    ptr: SwizzledPtr,
    record: RecordView<U, V>,
)
    requires
        closed(store),
        !store.dom().contains(ptr),
        forall|i: int|
            0 <= i < record.kids.len() ==> store.dom().contains((#[trigger] record.kids[i]).1),
    ensures
        closed(store.insert(ptr, record)),
        grows(store, store.insert(ptr, record)),
{
    reveal(closed);
    reveal(grows);
    let after = store.insert(ptr, record);
    assert forall|p: SwizzledPtr, i: int|
        after.dom().contains(p) && 0 <= i < after[p].kids.len() implies after.dom().contains(
        (#[trigger] after[p].kids[i]).1,
    ) by {
        if p == ptr {
            assert(after[p].kids[i] == record.kids[i]);
        } else {
            assert(after[p].kids[i] == store[p].kids[i]);
        }
    }
}

/// A chain of nodes with one resident child each, which are neither final nor
/// valued: `units` are the edges from `start` to `end`.
pub open spec fn unary_chain<U, V>(start: Tree<U, V>, units: Seq<U>, end: Tree<U, V>) -> bool
    decreases units.len(),
{
    if units.len() == 0 {
        start == end
    } else {
        &&& !start.is_final
        &&& start.value is None
        &&& start.kids.dom() == Set::empty().insert(units[0])
        &&& start.kids[units[0]] is InMem
        &&& unary_chain(start.kids[units[0]]->InMem_0, units.drop_first(), end)
    }
}

/// A chain stores what its end does, under its edges.
pub proof fn lemma_chain_terms<U, V>(
    store: Store<U, V>,
    start: Tree<U, V>,
    units: Seq<U>,
    end: Tree<U, V>,
    key: Seq<U>,
)
    requires
        unary_chain(start, units, end),
    ensures
        tree_term(store, start, key) == (if units.is_prefix_of(key) {
            tree_term(store, end, key.skip(units.len() as int))
        } else {
            None
        }),
    decreases units.len(),
{
    if units.len() == 0 {
        assert(key.skip(0) =~= key);
    } else if key.len() > 0 {
        let next = start.kids[units[0]]->InMem_0;
        let rest = units.drop_first();
        if key[0] == units[0] {
            lemma_chain_terms(store, next, rest, end, key.drop_first());
            assert(rest.is_prefix_of(key.drop_first()) == units.is_prefix_of(key)) by {
                if rest.is_prefix_of(key.drop_first()) {
                    assert(units =~= key.take(units.len() as int)) by {
                        assert forall|i: int| 0 <= i < units.len() implies units[i] == key[i] by {
                            if i > 0 {
                                assert(rest[i - 1] == key.drop_first().take(rest.len() as int)[i - 1]);
                            }
                        }
                    }
                }
                if units.is_prefix_of(key) {
                    assert(rest =~= key.drop_first().take(rest.len() as int)) by {
                        assert forall|i: int| 0 <= i < rest.len() implies rest[i] == key.drop_first()[i] by {
                            assert(units[i + 1] == key.take(units.len() as int)[i + 1]);
                        }
                    }
                }
            }
            if units.is_prefix_of(key) {
                assert(key.drop_first().skip(rest.len() as int) =~= key.skip(units.len() as int));
            }
        } else {
            assert(!start.kids.dom().contains(key[0]));
            if units.is_prefix_of(key) {
                assert(units[0] == key.take(units.len() as int)[0]);
            }
        }
    } else {
        assert(!units.is_prefix_of(key));
    }
}

/// A chain ends at a resident node below its start.
pub proof fn lemma_chain_at<U, V>(start: Tree<U, V>, units: Seq<U>, end: Tree<U, V>)
    requires
        unary_chain(start, units, end),
    ensures
        at(start, units) == Some(end),
    decreases units.len(),
{
    if units.len() > 0 {
        lemma_chain_at(start.kids[units[0]]->InMem_0, units.drop_first(), end);
    }
}

/// The record of one chunk of a chain: the units before its last edge are its
/// prefix.
pub open spec fn chunk_record<U, V>(units: Seq<U>, child: SwizzledPtr) -> RecordView<U, V> {
    RecordView {
        prefix: units.drop_last(),
        is_final: false,
        value: None,
        kids: seq![(units.last(), child)],
    }
}

/// A chunk record stores what its child does, under its units.
pub proof fn lemma_chunk_terms<U, V>(
    store: Store<U, V>,
    ptr: SwizzledPtr,
    units: Seq<U>,
    child: SwizzledPtr,
    key: Seq<U>,
)
    requires
        units.len() > 0,
        store.dom().contains(ptr),
        store[ptr] == chunk_record::<U, V>(units, child),
    ensures
        record_term(store, ptr, key) == (if units.is_prefix_of(key) {
            record_term(store, child, key.skip(units.len() as int))
        } else {
            None
        }),
{
    let prefix = units.drop_last();
    let kids = store[ptr].kids;
    assert(kids[0].0 == units.last());
    if prefix.is_prefix_of(key) {
        let rest = key.skip(prefix.len() as int);
        if rest.len() > 0 {
            if rest[0] == units.last() {
                assert(units =~= key.take(units.len() as int)) by {
                    assert forall|i: int| 0 <= i < units.len() implies units[i] == key[i] by {
                        if i < prefix.len() {
                            assert(prefix[i] == key.take(prefix.len() as int)[i]);
                        }
                    }
                }
                assert(rest.drop_first() =~= key.skip(units.len() as int));
                let i = choose|i: int| 0 <= i < kids.len() && (#[trigger] kids[i]).0 == rest[0];
                assert(i == 0);
            } else {
                if units.is_prefix_of(key) {
                    assert(units[units.len() - 1] == key.take(units.len() as int)[units.len() - 1]);
                }
                if exists|i: int| 0 <= i < kids.len() && (#[trigger] kids[i]).0 == rest[0] {
                    assert(kids[0].0 == rest[0]);
                }
            }
        }
    } else if units.is_prefix_of(key) {
        assert(prefix =~= key.take(prefix.len() as int)) by {
            assert forall|i: int| 0 <= i < prefix.len() implies prefix[i] == key[i] by {
                assert(units[i] == key.take(units.len() as int)[i]);
            }
        }
    }
}

} // verus!
