//! Walks and path copies over immutable nodes.

use std::sync::Arc;
use vstd::prelude::*;
use crate::error::{no_room, PersistentARTrieError, TrieResult};
use crate::key_encoding::KeyEncoding;
use crate::shared::share;
use crate::swizzled_ptr::SwizzledPtr;
use crate::text::{decimal, join, number};
use crate::value::DictionaryValue;
use super::model::{
    at, fresh_spine, full_kid, full_term, kid, lemma_fresh_spine_leaf, lemma_fresh_spine_others,
    term, unwound, Records,
};
use super::node::{Branch, Child, OverlayNode, Tree};
use super::{
    try_push_overlay_path_spine, OverlayNodeHandle, OverlayPathFrame, OverlayPathSpine,
    INLINE_OVERLAY_DEPTH,
};

verus! {

/// The outcome of resolving one edge.
pub enum ChildResolution<'root, K: KeyEncoding, V> {
    /// The child is resident.
    InMem(OverlayNodeHandle<'root, K, V>),
    /// The child was durable and has been loaded.
    Faulted(Arc<OverlayNode<K, V>>),
    /// The child is durable and could not be loaded.
    FaultFailed(Box<PersistentARTrieError>),
    /// The slot holds no child that this walk may enter.
    Null,
    /// There is no slot for the edge.
    Absent,
}

/// Whether a walk loads durable children.
#[derive(Clone, Copy, PartialEq, Eq, Structural)]
pub enum FaultMode {
    /// Load them.
    Fault,
    /// Leave them alone.
    NoFaultIn,
}

/// Every node that the loader can return is well formed.
pub open spec fn loader_ok<K: KeyEncoding, V, F: Fn(&SwizzledPtr) -> TrieResult<Arc<OverlayNode<K, V>>>>(
    fault_in: F,
) -> bool {
    &&& forall|p: &SwizzledPtr| #[trigger] call_requires(fault_in, (p,))
    &&& forall|p: &SwizzledPtr, n: Arc<OverlayNode<K, V>>| #[trigger]
        call_ensures(fault_in, (p,), Ok(n)) ==> n.wf()
}

/// The loader can return the node `tree` for the pointer.
pub open spec fn can_load<K: KeyEncoding, V, F: Fn(&SwizzledPtr) -> TrieResult<Arc<OverlayNode<K, V>>>>(
    fault_in: F,
    ptr: SwizzledPtr,
    tree: Tree<K::Unit, V>,
) -> bool {
    exists|n: Arc<OverlayNode<K, V>>| #[trigger] call_ensures(fault_in, (&ptr,), Ok(n)) && n@ == tree
}

/// Resolves one edge of a walk.
pub fn resolve_or_fault<'root, K, V, F>(
    node: &OverlayNodeHandle<'root, K, V>,
    unit: K::Unit,
    fault: FaultMode,
    fault_in: &F,
) -> (r: ChildResolution<'root, K, V>) where
    K: KeyEncoding,
    V: DictionaryValue,
    F: Fn(&SwizzledPtr) -> TrieResult<Arc<OverlayNode<K, V>>>,

    requires
        node.spec_node().wf(),
        loader_ok(*fault_in),
    ensures
        match r {
            ChildResolution::InMem(next) => {
                &&& next.spec_node().wf()
                &&& kid(node.spec_node()@, unit) == Some(Branch::InMem(next.spec_node()@))
                &&& node is Borrowed == next is Borrowed
            },
            ChildResolution::Faulted(next) => {
                &&& next.wf()
                &&& fault == FaultMode::Fault
                &&& kid(node.spec_node()@, unit) matches Some(Branch::OnDisk(ptr))
                &&& ptr.raw != 0
                &&& call_ensures(*fault_in, (&ptr,), Ok(next))
            },
            ChildResolution::FaultFailed(error) => {
                &&& fault == FaultMode::Fault
                &&& kid(node.spec_node()@, unit) matches Some(Branch::OnDisk(ptr))
                &&& ptr.raw != 0
                &&& call_ensures(*fault_in, (&ptr,), Err(*error))
            },
            ChildResolution::Null => {
                &&& kid(node.spec_node()@, unit) matches Some(Branch::OnDisk(ptr))
                &&& ptr.raw == 0 || fault == FaultMode::NoFaultIn
            },
            ChildResolution::Absent => kid(node.spec_node()@, unit) is None,
        },
{
    match node {
        OverlayNodeHandle::Borrowed(inner) => match inner.find_child(unit) {
            Some(Child::InMem(child)) => ChildResolution::InMem(OverlayNodeHandle::Borrowed(child)),
            Some(Child::OnDisk(ptr)) => resolve_durable(*ptr, fault, fault_in),
            None => ChildResolution::Absent,
        },
        OverlayNodeHandle::Owned(inner) => match inner.find_child(unit) {
            Some(Child::InMem(child)) => ChildResolution::InMem(
                OverlayNodeHandle::Owned(share(child)),
            ),
            Some(Child::OnDisk(ptr)) => resolve_durable(*ptr, fault, fault_in),
            None => ChildResolution::Absent,
        },
    }
}

/// Resolves a durable slot.
fn resolve_durable<'root, K, V, F>(ptr: SwizzledPtr, fault: FaultMode, fault_in: &F) -> (r:
    ChildResolution<'root, K, V>) where
    K: KeyEncoding,
    V: DictionaryValue,
    F: Fn(&SwizzledPtr) -> TrieResult<Arc<OverlayNode<K, V>>>,

    requires
        loader_ok(*fault_in),
    ensures
        match r {
            ChildResolution::Faulted(next) => {
                &&& next.wf()
                &&& fault == FaultMode::Fault
                &&& ptr.raw != 0
                &&& call_ensures(*fault_in, (&ptr,), Ok(next))
            },
            ChildResolution::FaultFailed(error) => {
                &&& fault == FaultMode::Fault
                &&& ptr.raw != 0
                &&& call_ensures(*fault_in, (&ptr,), Err(*error))
            },
            ChildResolution::Null => ptr.raw == 0 || fault == FaultMode::NoFaultIn,
            _ => false,
        },
{
    if ptr.is_null() {
        return ChildResolution::Null;
    }
    match fault {
        FaultMode::NoFaultIn => ChildResolution::Null,
        FaultMode::Fault => match fault_in(&ptr) {
            Ok(loaded) => ChildResolution::Faulted(loaded),
            Err(e) => ChildResolution::FaultFailed(Box::new(e)),
        },
    }
}


/// Where a walk over `key` from position `depth` starts: a depth beyond the key
/// leaves nothing to walk.
pub open spec fn remaining_key<U>(key: Seq<U>, depth: int) -> Seq<U> {
    if depth < key.len() {
        key.skip(depth)
    } else {
        Seq::empty()
    }
}

/// The resident node at the end of `key[depth..]`, whether or not it is final.
fn walk_resident<'a, K: KeyEncoding, V: DictionaryValue>(
    node: &'a Arc<OverlayNode<K, V>>,
    key: &[K::Unit],
    depth: usize,
) -> (r: Option<&'a Arc<OverlayNode<K, V>>>)
    requires
        node.wf(),
    ensures
        match r {
            Some(end) => end.wf() && at(node@, remaining_key(key@, depth as int)) == Some(end@),
            None => at(node@, remaining_key(key@, depth as int)) is None,
        },
{
    let mut current = node;
    let mut cursor: usize = depth;
    while cursor < key.len()
        invariant
            depth <= cursor,
            cursor <= key@.len() || cursor == depth,
            current.wf(),
            at(node@, remaining_key(key@, depth as int)) == at(
                current@,
                remaining_key(key@, cursor as int),
            ),
        decreases key@.len() - cursor,
    {
        let ghost rest = remaining_key(key@, cursor as int);
        assert(rest[0] == key@[cursor as int]);
        assert(rest.drop_first() =~= remaining_key(key@, cursor + 1));
        match current.find_child(key[cursor]) {
            Some(Child::InMem(child)) => {
                current = child;
            },
            _ => {
                return None;
            },
        }
        cursor += 1;
    }
    Some(current)
}

/// The final node at the end of `key[depth..]`, reached through resident
/// children only.
pub fn find_leaf_iterative<K: KeyEncoding, V: DictionaryValue>(
    node: &Arc<OverlayNode<K, V>>,
    key: &[K::Unit],
    depth: usize,
) -> (r: Option<Arc<OverlayNode<K, V>>>)
    requires
        node.wf(),
    ensures
        match r {
            Some(leaf) => {
                &&& leaf.wf()
                &&& leaf@.is_final
                &&& at(node@, remaining_key(key@, depth as int)) == Some(leaf@)
            },
            None => term(node@, remaining_key(key@, depth as int)) is None,
        },
{
    match walk_resident(node, key, depth) {
        Some(end) => if end.is_final() {
            Some(share(end))
        } else {
            None
        },
        None => None,
    }
}

/// Whether `key[depth..]` is a stored term of the resident part of the trie.
pub fn find_in_lockfree_trie<K: KeyEncoding, V: DictionaryValue>(
    node: &Arc<OverlayNode<K, V>>,
    key: &[K::Unit],
    depth: usize,
) -> (r: bool)
    requires
        node.wf(),
    ensures
        r == (term(node@, remaining_key(key@, depth as int)) is Some),
{
    match walk_resident(node, key, depth) {
        Some(end) => end.is_final(),
        None => false,
    }
}

/// A path of new nodes for `suffix` above `leaf`.
fn spine_above<K: KeyEncoding, V: DictionaryValue>(
    suffix: &[K::Unit],
    start: usize,
    leaf: Arc<OverlayNode<K, V>>,
) -> (r: Arc<OverlayNode<K, V>>)
    requires
        leaf.wf(),
        start <= suffix@.len(),
    ensures
        r.wf(),
        r@ == fresh_spine(suffix@.skip(start as int), leaf@),
{
    let ghost bottom = leaf@;
    let mut current = leaf;
    let mut i: usize = suffix.len();
    assert(suffix@.skip(i as int) =~= Seq::empty());
    while start < i
        invariant
            start <= i <= suffix@.len(),
            current.wf(),
            current@ == fresh_spine(suffix@.skip(i as int), bottom),
        decreases i,
    {
        i -= 1;
        let ghost rest = suffix@.skip(i as int);
        assert(rest.drop_first() =~= suffix@.skip(i + 1));
        current = Arc::new(OverlayNode::new().with_child(suffix[i], Child::InMem(current)));
    }
    current
}

/// Builds a new path for `suffix` whose leaf comes from `make_leaf`. Returns the
/// top of the path and the leaf.
pub fn create_spine<K, V, F>(suffix: &[K::Unit], make_leaf: F) -> (r: (
    Arc<OverlayNode<K, V>>,
    Arc<OverlayNode<K, V>>,
)) where K: KeyEncoding, V: DictionaryValue, F: FnOnce() -> Arc<OverlayNode<K, V>>
    requires
        call_requires(make_leaf, ()),
        forall|n: Arc<OverlayNode<K, V>>| #[trigger] call_ensures(make_leaf, (), n) ==> n.wf(),
    ensures
        call_ensures(make_leaf, (), r.1),
        r.0.wf(),
        r.1.wf(),
        r.0@ == fresh_spine(suffix@, r.1@),
{
    let leaf = make_leaf();
    let root = spine_above(suffix, 0, share(&leaf));
    assert(suffix@.skip(0) =~= suffix@);
    (root, leaf)
}

/// The ancestors that a spine records, as models.
pub open spec fn spine_ancestors<'root, K: KeyEncoding, V>(
    frames: Seq<OverlayPathFrame<'root, K, V>>,
) -> Seq<(Tree<K::Unit, V>, K::Unit)> {
    Seq::new(frames.len(), |i: int| (frames[i].node.spec_node()@, frames[i].unit))
}

/// Copies every recorded ancestor around `child`, from the deepest up.
pub fn unwind_spine<'root, K: KeyEncoding, V: DictionaryValue>(
    spine: OverlayPathSpine<'root, K, V>,
    child: Arc<OverlayNode<K, V>>,
) -> (r: Arc<OverlayNode<K, V>>)
    requires
        spine.wf(),
        child.wf(),
    ensures
        r.wf(),
        r@ == unwound(spine_ancestors(spine.frames@), child@),
{
    let ghost whole = unwound(spine_ancestors(spine.frames@), child@);
    let mut child = child;
    let mut i: usize = spine.frames.len();
    assert(spine.frames@.take(i as int) =~= spine.frames@);
    while 0 < i
        invariant
            i <= spine.frames@.len(),
            spine.wf(),
            child.wf(),
            unwound(spine_ancestors(spine.frames@.take(i as int)), child@) == whole,
        decreases i,
    {
        i -= 1;
        let frame = &spine.frames[i];
        proof {
            let deeper = spine_ancestors(spine.frames@.take(i + 1));
            assert(deeper.drop_last() =~= spine_ancestors(spine.frames@.take(i as int)));
            assert(deeper.last() == (frame.node.spec_node()@, frame.unit));
        }
        child = Arc::new(frame.node.node().with_child(frame.unit, Child::InMem(child)));
    }
    assert(spine_ancestors(spine.frames@.take(0)) =~= Seq::empty());
    child
}

/// One edge of a walk: the child is resident, or it is durable and the loader
/// returned it.
pub open spec fn enters<K: KeyEncoding, V, F: Fn(&SwizzledPtr) -> TrieResult<Arc<OverlayNode<K, V>>>>(
    fault_in: F,
    fault: FaultMode,
    parent: Tree<K::Unit, V>,
    unit: K::Unit,
    child: Tree<K::Unit, V>,
) -> bool {
    match kid(parent, unit) {
        Some(Branch::InMem(resident)) => resident == child,
        Some(Branch::OnDisk(ptr)) => ptr.raw != 0 && fault == FaultMode::Fault && can_load(
            fault_in,
            ptr,
            child,
        ),
        None => false,
    }
}

/// `new` is the path copy of `old` in which `key` is a term with `value`: the
/// nodes on the path are copied, durable ones as the loader returned them, a
/// missing rest of the path is made of new nodes, and nothing else changes.
pub open spec fn value_spine<
    K: KeyEncoding,
    V,
    F: Fn(&SwizzledPtr) -> TrieResult<Arc<OverlayNode<K, V>>>,
>(
    fault_in: F,
    fault: FaultMode,
    old: Tree<K::Unit, V>,
    key: Seq<K::Unit>,
    value: V,
    new: Tree<K::Unit, V>,
) -> bool
    decreases key.len(),
{
    if key.len() == 0 {
        new == old.finality(true).valued(value)
    } else {
        let sub = new.kids[key[0]]->InMem_0;
        &&& new == old.put(key[0], Branch::InMem(sub))
        &&& match kid(old, key[0]) {
            None => sub == fresh_spine(
                key.drop_first(),
                Tree::empty().finality(true).valued(value),
            ),
            Some(_) => exists|child: Tree<K::Unit, V>| #[trigger]
                enters(fault_in, fault, old, key[0], child) && value_spine(
                    fault_in,
                    fault,
                    child,
                    key.drop_first(),
                    value,
                    sub,
                ),
        }
    }
}

/// The walk along `key` ends with `error`: at a slot without a child it may
/// enter, or at a durable child that the loader refused.
pub open spec fn value_spine_error<
    K: KeyEncoding,
    V,
    F: Fn(&SwizzledPtr) -> TrieResult<Arc<OverlayNode<K, V>>>,
>(
    fault_in: F,
    fault: FaultMode,
    old: Tree<K::Unit, V>,
    key: Seq<K::Unit>,
    error: PersistentARTrieError,
) -> bool
    decreases key.len(),
{
    if key.len() == 0 {
        false
    } else {
        match kid(old, key[0]) {
            None => false,
            Some(branch) => {
                ||| branch matches Branch::OnDisk(ptr) && fault == FaultMode::NoFaultIn
                    && error is InternalError
                ||| branch matches Branch::OnDisk(ptr) && fault == FaultMode::Fault && ptr.raw == 0
                    && error is CorruptedFile
                ||| branch matches Branch::OnDisk(ptr) && fault == FaultMode::Fault && ptr.raw != 0
                    && call_ensures(fault_in, (&ptr,), Err(error))
                ||| exists|child: Tree<K::Unit, V>| #[trigger]
                    enters(fault_in, fault, old, key[0], child) && value_spine_error(
                        fault_in,
                        fault,
                        child,
                        key.drop_first(),
                        error,
                    )
            },
        }
    }
}

/// A walk along `key` enters so many nodes below the first.
pub open spec fn walks<K: KeyEncoding, V, F: Fn(&SwizzledPtr) -> TrieResult<Arc<OverlayNode<K, V>>>>(
    fault_in: F,
    fault: FaultMode,
    root: Tree<K::Unit, V>,
    key: Seq<K::Unit>,
    n: nat,
) -> bool {
    n <= key.len() && exists|ancestors: Seq<(Tree<K::Unit, V>, K::Unit)>, last: Tree<K::Unit, V>|
        #[trigger] entered(fault_in, fault, ancestors, last) && ancestors.len() == n && (n > 0
            ==> ancestors[0].0 == root) && forall|i: int|
            0 <= i < n ==> (#[trigger] ancestors[i]).1 == key[i]
}

/// The nodes that a walk along `key` has entered one after the other.
pub open spec fn entered<K: KeyEncoding, V, F: Fn(&SwizzledPtr) -> TrieResult<Arc<OverlayNode<K, V>>>>(
    fault_in: F,
    fault: FaultMode,
    ancestors: Seq<(Tree<K::Unit, V>, K::Unit)>,
    current: Tree<K::Unit, V>,
) -> bool {
    forall|i: int|
        0 <= i < ancestors.len() ==> enters(
            fault_in,
            fault,
            (#[trigger] ancestors[i]).0,
            ancestors[i].1,
            if i + 1 < ancestors.len() {
                ancestors[i + 1].0
            } else {
                current
            },
        )
}

/// A path copy below the deepest entered node makes a path copy of the first.
proof fn lemma_unwound_spine<
    K: KeyEncoding,
    V,
    F: Fn(&SwizzledPtr) -> TrieResult<Arc<OverlayNode<K, V>>>,
>(
    fault_in: F,
    fault: FaultMode,
    ancestors: Seq<(Tree<K::Unit, V>, K::Unit)>,
    current: Tree<K::Unit, V>,
    rest: Seq<K::Unit>,
    value: V,
    new: Tree<K::Unit, V>,
    root: Tree<K::Unit, V>,
    key: Seq<K::Unit>,
)
    requires
        entered(fault_in, fault, ancestors, current),
        root == (if ancestors.len() > 0 {
            ancestors[0].0
        } else {
            current
        }),
        key == Seq::new(ancestors.len(), |i: int| ancestors[i].1) + rest,
        value_spine(fault_in, fault, current, rest, value, new),
    ensures
        value_spine(fault_in, fault, root, key, value, unwound(ancestors, new)),
    decreases ancestors.len(),
{
    if ancestors.len() == 0 {
        assert(key =~= rest);
    } else {
        let (parent, unit) = ancestors.last();
        let up = parent.put(unit, Branch::InMem(new));
        let above = ancestors.drop_last();
        let longer = seq![unit] + rest;
        assert(longer.drop_first() =~= rest);
        assert(enters(fault_in, fault, parent, unit, current)) by {
            assert(ancestors[ancestors.len() - 1].0 == parent);
        }
        assert(up.kids[unit]->InMem_0 == new);
        assert(value_spine(fault_in, fault, parent, longer, value, up));
        assert(entered(fault_in, fault, above, parent)) by {
            assert forall|i: int| 0 <= i < above.len() implies enters(
                fault_in,
                fault,
                (#[trigger] above[i]).0,
                above[i].1,
                if i + 1 < above.len() {
                    above[i + 1].0
                } else {
                    parent
                },
            ) by {
                assert(ancestors[i] == above[i]);
            }
        }
        assert(key =~= Seq::new(above.len(), |i: int| above[i].1) + longer);
        lemma_unwound_spine(fault_in, fault, above, parent, longer, value, up, root, key);
    }
}

/// An error below the deepest entered node is an error of the walk.
proof fn lemma_unwound_error<
    K: KeyEncoding,
    V,
    F: Fn(&SwizzledPtr) -> TrieResult<Arc<OverlayNode<K, V>>>,
>(
    fault_in: F,
    fault: FaultMode,
    ancestors: Seq<(Tree<K::Unit, V>, K::Unit)>,
    current: Tree<K::Unit, V>,
    rest: Seq<K::Unit>,
    error: PersistentARTrieError,
    root: Tree<K::Unit, V>,
    key: Seq<K::Unit>,
)
    requires
        entered(fault_in, fault, ancestors, current),
        root == (if ancestors.len() > 0 {
            ancestors[0].0
        } else {
            current
        }),
        key == Seq::new(ancestors.len(), |i: int| ancestors[i].1) + rest,
        value_spine_error(fault_in, fault, current, rest, error),
    ensures
        value_spine_error(fault_in, fault, root, key, error),
    decreases ancestors.len(),
{
    if ancestors.len() == 0 {
        assert(key =~= rest);
    } else {
        let (parent, unit) = ancestors.last();
        let above = ancestors.drop_last();
        let longer = seq![unit] + rest;
        assert(longer.drop_first() =~= rest);
        assert(enters(fault_in, fault, parent, unit, current)) by {
            assert(ancestors[ancestors.len() - 1].0 == parent);
        }
        assert(value_spine_error(fault_in, fault, parent, longer, error));
        assert(entered(fault_in, fault, above, parent)) by {
            assert forall|i: int| 0 <= i < above.len() implies enters(
                fault_in,
                fault,
                (#[trigger] above[i]).0,
                above[i].1,
                if i + 1 < above.len() {
                    above[i + 1].0
                } else {
                    parent
                },
            ) by {
                assert(ancestors[i] == above[i]);
            }
        }
        assert(key =~= Seq::new(above.len(), |i: int| above[i].1) + longer);
        lemma_unwound_error(fault_in, fault, above, parent, longer, error, root, key);
    }
}

/// Records one more entered node.
proof fn lemma_entered_push<
    K: KeyEncoding,
    V,
    F: Fn(&SwizzledPtr) -> TrieResult<Arc<OverlayNode<K, V>>>,
>(
    fault_in: F,
    fault: FaultMode,
    ancestors: Seq<(Tree<K::Unit, V>, K::Unit)>,
    current: Tree<K::Unit, V>,
    unit: K::Unit,
    next: Tree<K::Unit, V>,
)
    requires
        entered(fault_in, fault, ancestors, current),
        enters(fault_in, fault, current, unit, next),
    ensures
        entered(fault_in, fault, ancestors.push((current, unit)), next),
{
    let longer = ancestors.push((current, unit));
    assert forall|i: int| 0 <= i < longer.len() implies enters(
        fault_in,
        fault,
        (#[trigger] longer[i]).0,
        longer[i].1,
        if i + 1 < longer.len() {
            longer[i + 1].0
        } else {
            next
        },
    ) by {
        if i < ancestors.len() {
            assert(ancestors[i] == longer[i]);
        }
    }
}

/// The message for a walk that starts behind the end of its key.
pub open spec fn spec_depth_message(depth: int, length: int) -> Seq<char> {
    "valued overlay path depth "@ + decimal(depth as nat) + " exceeds key length "@ + decimal(
        length as nat,
    )
}

/// The message for a walk that starts behind the end of its key.
fn depth_message(depth: usize, length: usize) -> (r: String)
    ensures
        r@ == spec_depth_message(depth as int, length as int),
{
    let a = join("valued overlay path depth ", number(depth as u64).as_str());
    let b = join(a.as_str(), " exceeds key length ");
    join(b.as_str(), number(length as u64).as_str())
}

/// The path copy of `node` in which `key[depth..]` is a term with `value`.
pub fn build_value_spine<K, V, F>(
    node: &Arc<OverlayNode<K, V>>,
    key: &[K::Unit],
    depth: usize,
    value: V,
    fault: FaultMode,
    fault_in: F,
) -> (r: TrieResult<Arc<OverlayNode<K, V>>>) where
    K: KeyEncoding,
    V: DictionaryValue,
    F: Fn(&SwizzledPtr) -> TrieResult<Arc<OverlayNode<K, V>>>,

    requires
        node.wf(),
        loader_ok(fault_in),
    ensures
        depth > key@.len() ==> (r matches Err(PersistentARTrieError::InternalError { message })
            && message@ == spec_depth_message(depth as int, key@.len() as int)),
        depth <= key@.len() ==> match r {
            Ok(root) => root.wf() && value_spine(
                fault_in,
                fault,
                node@,
                key@.skip(depth as int),
                value,
                root@,
            ),
            Err(e) => {
                ||| no_room(e) && e->operation@ == "valued overlay path-copy spine"@
                    && e->requested_entries == key@.len() - depth && walks(
                    fault_in,
                    fault,
                    node@,
                    key@.skip(depth as int),
                    (INLINE_OVERLAY_DEPTH + 1) as nat,
                )
                ||| value_spine_error(fault_in, fault, node@, key@.skip(depth as int), e)
            },
        },
{
    build_value_spine_on(OverlayPathSpine::new(), node, key, depth, value, fault, fault_in)
}

/// [`build_value_spine`] on a given empty spine, which may be one that refuses to
/// grow beyond its inline frames.
pub fn build_value_spine_on<'root, K, V, F>(
    spine: OverlayPathSpine<'root, K, V>,
    node: &'root Arc<OverlayNode<K, V>>,
    key: &[K::Unit],
    depth: usize,
    value: V,
    fault: FaultMode,
    fault_in: F,
) -> (r: TrieResult<Arc<OverlayNode<K, V>>>) where
    K: KeyEncoding,
    V: DictionaryValue,
    F: Fn(&SwizzledPtr) -> TrieResult<Arc<OverlayNode<K, V>>>,

    requires
        spine.wf(),
        spine.frames@.len() == 0,
        node.wf(),
        loader_ok(fault_in),
    ensures
        depth > key@.len() ==> (r matches Err(PersistentARTrieError::InternalError { message })
            && message@ == spec_depth_message(depth as int, key@.len() as int)),
        depth <= key@.len() ==> match r {
            Ok(root) => root.wf() && value_spine(
                fault_in,
                fault,
                node@,
                key@.skip(depth as int),
                value,
                root@,
            ),
            Err(e) => {
                ||| spine.refuses(e, "valued overlay path-copy spine"@, key@.len() - depth) && walks(
                    fault_in,
                    fault,
                    node@,
                    key@.skip(depth as int),
                    (spine.room + 1) as nat,
                )
                ||| value_spine_error(fault_in, fault, node@, key@.skip(depth as int), e)
            },
        },
{
    if depth > key.len() {
        return Err(
            PersistentARTrieError::InternalError { message: depth_message(depth, key.len()) },
        );
    }
    let remaining: usize = key.len() - depth;
    let ghost goal = key@.skip(depth as int);
    let mut walk = spine;
    let mut current: OverlayNodeHandle<'root, K, V> = OverlayNodeHandle::Borrowed(node);
    let mut d: usize = depth;
    assert(spine_ancestors(walk.frames@) =~= Seq::empty());
    loop
        invariant
            depth <= d <= key@.len(),
            goal == key@.skip(depth as int),
            remaining == key@.len() - depth,
            walk.wf(),
            walk.frames@.len() == d - depth,
            walk.room == spine.room || walk.room == remaining,
            walk.spill_refused == spine.spill_refused,
            current.spec_node().wf(),
            loader_ok(fault_in),
            entered(fault_in, fault, spine_ancestors(walk.frames@), current.spec_node()@),
            walk.frames@.len() > 0 ==> walk.frames@[0].node.spec_node()@ == node@,
            walk.frames@.len() == 0 ==> current.spec_node()@ == node@,
            forall|i: int|
                0 <= i < walk.frames@.len() ==> (#[trigger] walk.frames@[i]).unit == goal[i],
        decreases key@.len() - d,
    {
        let ghost ancestors = spine_ancestors(walk.frames@);
        let ghost rest = key@.skip(d as int);
        let ghost here = current.spec_node()@;
        assert(goal =~= Seq::new(ancestors.len(), |i: int| ancestors[i].1) + rest);
        if d == key.len() {
            let leaf = Arc::new(current.node().as_final().with_value(value));
            let ghost bottom = leaf@;
            proof {
                lemma_unwound_spine(
                    fault_in,
                    fault,
                    ancestors,
                    here,
                    rest,
                    value,
                    bottom,
                    node@,
                    goal,
                );
            }
            return Ok(unwind_spine(walk, leaf));
        }
        let unit = key[d];
        assert(rest[0] == unit);
        assert(rest.drop_first() =~= key@.skip(d + 1));
        match resolve_or_fault(&current, unit, fault, &fault_in) {
            ChildResolution::InMem(next) => {
                proof {
                    lemma_entered_push(
                        fault_in,
                        fault,
                        ancestors,
                        here,
                        unit,
                        next.spec_node()@,
                    );
                }
                match try_push_overlay_path_spine(
                    &mut walk,
                    OverlayPathFrame { node: current, unit },
                    remaining,
                ) {
                    Ok(()) => {},
                    Err(source) => {
                        proof {
                            let longer = ancestors.push((here, unit));
                            assert(entered(fault_in, fault, longer, next.spec_node()@));
                            assert(walks(fault_in, fault, node@, goal, longer.len()));
                        }
                        return Err(
                            PersistentARTrieError::allocation_failed(
                                "valued overlay path-copy spine",
                                remaining,
                                source,
                            ),
                        );
                    },
                }
                assert(spine_ancestors(walk.frames@) =~= ancestors.push((here, unit)));
                current = next;
                d += 1;
            },
            ChildResolution::Faulted(next) => {
                proof {
                    let ptr = kid(here, unit)->0->OnDisk_0;
                    assert(call_ensures(fault_in, (&ptr,), Ok(next)));
                    assert(can_load(fault_in, ptr, next@));
                    lemma_entered_push(fault_in, fault, ancestors, here, unit, next@);
                }
                match try_push_overlay_path_spine(
                    &mut walk,
                    OverlayPathFrame { node: current, unit },
                    remaining,
                ) {
                    Ok(()) => {},
                    Err(source) => {
                        proof {
                            let longer = ancestors.push((here, unit));
                            assert(entered(fault_in, fault, longer, next@));
                            assert(walks(fault_in, fault, node@, goal, longer.len()));
                        }
                        return Err(
                            PersistentARTrieError::allocation_failed(
                                "valued overlay path-copy spine",
                                remaining,
                                source,
                            ),
                        );
                    },
                }
                assert(spine_ancestors(walk.frames@) =~= ancestors.push((here, unit)));
                current = OverlayNodeHandle::Owned(next);
                d += 1;
            },
            ChildResolution::FaultFailed(error) => {
                let e = *error;
                proof {
                    lemma_unwound_error(fault_in, fault, ancestors, here, rest, e, node@, goal);
                }
                return Err(e);
            },
            ChildResolution::Null => {
                let e = match fault {
                    FaultMode::NoFaultIn => PersistentARTrieError::internal(
                        "valued overlay path-copy encountered an evicted child while fault-in was disabled",
                    ),
                    FaultMode::Fault => PersistentARTrieError::corrupted(
                        "valued overlay path-copy encountered a null child edge",
                    ),
                };
                proof {
                    lemma_unwound_error(fault_in, fault, ancestors, here, rest, e, node@, goal);
                }
                return Err(e);
            },
            ChildResolution::Absent => {
                let leaf = Arc::new(OverlayNode::<K, V>::new().as_final().with_value(value));
                let sub = spine_above(key, d + 1, leaf);
                let ghost below = sub@;
                let copy = Arc::new(current.node().with_child(unit, Child::InMem(sub)));
                let ghost up = copy@;
                proof {
                    assert(up.kids[unit]->InMem_0 == below);
                    assert(value_spine(fault_in, fault, here, rest, value, up));
                    lemma_unwound_spine(
                        fault_in,
                        fault,
                        ancestors,
                        here,
                        rest,
                        value,
                        up,
                        node@,
                        goal,
                    );
                }
                return Ok(unwind_spine(walk, copy));
            },
        }
    }
}

/// No child on the path of `key` is durable.
pub open spec fn path_resident<U, V>(tree: Tree<U, V>, key: Seq<U>) -> bool
    decreases key.len(),
{
    key.len() > 0 ==> match kid(tree, key[0]) {
        None => true,
        Some(Branch::InMem(child)) => path_resident(child, key.drop_first()),
        Some(Branch::OnDisk(_)) => false,
    }
}

/// A value that was written under a key is read back under it.
pub proof fn value_spine_reads_back<
    K: KeyEncoding,
    V,
    F: Fn(&SwizzledPtr) -> TrieResult<Arc<OverlayNode<K, V>>>,
>(
    fault_in: F,
    fault: FaultMode,
    old: Tree<K::Unit, V>,
    key: Seq<K::Unit>,
    value: V,
    new: Tree<K::Unit, V>,
)
    requires
        value_spine(fault_in, fault, old, key, value, new),
    ensures
        term(new, key) == Some(Some(value)),
    decreases key.len(),
{
    if key.len() > 0 {
        let sub = new.kids[key[0]]->InMem_0;
        match kid(old, key[0]) {
            None => {
                lemma_fresh_spine_leaf(
                    key.drop_first(),
                    Tree::empty().finality(true).valued(value),
                );
            },
            Some(_) => {
                let child = choose|child: Tree<K::Unit, V>| #[trigger]
                    enters(fault_in, fault, old, key[0], child) && value_spine(
                        fault_in,
                        fault,
                        child,
                        key.drop_first(),
                        value,
                        sub,
                    );
                value_spine_reads_back(fault_in, fault, child, key.drop_first(), value, sub);
            },
        }
    }
}

/// Writing a value under one key keeps every other stored term, and stores no
/// other term as long as no durable child had to be loaded.
pub proof fn value_spine_keeps_other_terms<
    K: KeyEncoding,
    V,
    F: Fn(&SwizzledPtr) -> TrieResult<Arc<OverlayNode<K, V>>>,
>(
    fault_in: F,
    fault: FaultMode,
    old: Tree<K::Unit, V>,
    key: Seq<K::Unit>,
    value: V,
    new: Tree<K::Unit, V>,
    other: Seq<K::Unit>,
)
    requires
        value_spine(fault_in, fault, old, key, value, new),
        other != key,
    ensures
        term(old, other) is Some ==> term(new, other) == term(old, other),
        path_resident(old, key) ==> term(new, other) == term(old, other),
    decreases key.len(),
{
    if key.len() == 0 {
        if other.len() == 0 {
            assert(other =~= key);
        }
    } else if other.len() > 0 && other[0] == key[0] {
        let sub = new.kids[key[0]]->InMem_0;
        if other.drop_first() == key.drop_first() {
            assert(other =~= seq![other[0]] + other.drop_first());
            assert(key =~= seq![key[0]] + key.drop_first());
        }
        match kid(old, key[0]) {
            None => {
                lemma_fresh_spine_others(
                    key.drop_first(),
                    Tree::empty().finality(true).valued(value),
                    other.drop_first(),
                );
            },
            Some(_) => {
                let child = choose|child: Tree<K::Unit, V>| #[trigger]
                    enters(fault_in, fault, old, key[0], child) && value_spine(
                        fault_in,
                        fault,
                        child,
                        key.drop_first(),
                        value,
                        sub,
                    );
                value_spine_keeps_other_terms(
                    fault_in,
                    fault,
                    child,
                    key.drop_first(),
                    value,
                    sub,
                    other.drop_first(),
                );
            },
        }
    }
}

/// The loader returns what the records decode to.
pub open spec fn reads_records<
    K: KeyEncoding,
    V,
    F: Fn(&SwizzledPtr) -> TrieResult<Arc<OverlayNode<K, V>>>,
>(fault_in: F, records: Records<K::Unit, V>) -> bool {
    forall|p: &SwizzledPtr, n: Arc<OverlayNode<K, V>>| #[trigger]
        call_ensures(fault_in, (p,), Ok(n)) ==> n@ == records(*p)
}

/// Writing a value under a key stores it there and changes no other term, in
/// memory or in the records.
pub proof fn value_spine_stores_one_term<
    K: KeyEncoding,
    V,
    F: Fn(&SwizzledPtr) -> TrieResult<Arc<OverlayNode<K, V>>>,
>(
    records: Records<K::Unit, V>,
    fault_in: F,
    fault: FaultMode,
    old: Tree<K::Unit, V>,
    key: Seq<K::Unit>,
    value: V,
    new: Tree<K::Unit, V>,
    other: Seq<K::Unit>,
)
    requires
        reads_records(fault_in, records),
        value_spine(fault_in, fault, old, key, value, new),
    ensures
        full_term(records, new, other) == (if other == key {
            Some(Some(value))
        } else {
            full_term(records, old, other)
        }),
    decreases key.len(),
{
    if key.len() == 0 {
        if other.len() == 0 {
            assert(other =~= key);
        } else {
            assert(full_kid(records, new, other[0]) == full_kid(records, old, other[0]));
        }
    } else if other.len() > 0 && other[0] == key[0] {
        let sub = new.kids[key[0]]->InMem_0;
        let rest = key.drop_first();
        assert((other.drop_first() == rest) == (other == key)) by {
            assert(other =~= seq![other[0]] + other.drop_first());
            assert(key =~= seq![key[0]] + rest);
        }
        assert(full_kid(records, new, key[0]) == Some(sub));
        match kid(old, key[0]) {
            None => {
                let leaf = Tree::empty().finality(true).valued(value);
                lemma_full_fresh_spine(records, rest, leaf, other.drop_first());
            },
            Some(_) => {
                let child = choose|child: Tree<K::Unit, V>| #[trigger]
                    enters(fault_in, fault, old, key[0], child) && value_spine(
                        fault_in,
                        fault,
                        child,
                        rest,
                        value,
                        sub,
                    );
                assert(full_kid(records, old, key[0]) == Some(child));
                value_spine_stores_one_term(
                    records,
                    fault_in,
                    fault,
                    child,
                    rest,
                    value,
                    sub,
                    other.drop_first(),
                );
            },
        }
    } else if other.len() > 0 {
        assert(full_kid(records, new, other[0]) == full_kid(records, old, other[0]));
    }
}

/// What a fresh spine stores.
proof fn lemma_full_fresh_spine<U, V>(
    records: Records<U, V>,
    suffix: Seq<U>,
    leaf: Tree<U, V>,
    key: Seq<U>,
)
    requires
        leaf.kids == Map::<U, Branch<U, V>>::empty(),
        leaf.is_final,
    ensures
        full_term(records, fresh_spine(suffix, leaf), key) == (if key == suffix {
            Some(leaf.value)
        } else {
            None
        }),
    decreases suffix.len(),
{
    if suffix.len() == 0 {
        if key.len() == 0 {
            assert(key =~= suffix);
        }
    } else if key.len() > 0 && key[0] == suffix[0] {
        assert((key.drop_first() == suffix.drop_first()) == (key == suffix)) by {
            assert(key =~= seq![key[0]] + key.drop_first());
            assert(suffix =~= seq![suffix[0]] + suffix.drop_first());
        }
        lemma_full_fresh_spine(records, suffix.drop_first(), leaf, key.drop_first());
    }
}

} // verus!
