//! Adding one path to a trie, and visiting all of them, without recursion.

use std::sync::Arc;
use vstd::prelude::*;
use crate::key_encoding::KeyEncoding;
use crate::shared::share;
use crate::value::DictionaryValue;
use super::model::{
    at, fresh_spine, kid, lemma_fresh_spine_leaf, lemma_fresh_spine_others, term, unwound,
};
use super::node::{Branch, Child, OverlayNode, Tree};

verus! {

/// The trie with one more term. The path to it is copied; a durable child on the
/// way is replaced.
pub open spec fn inserted<U, V>(tree: Tree<U, V>, units: Seq<U>) -> Tree<U, V>
    decreases units.len(),
{
    if units.len() == 0 {
        tree.finality(true)
    } else {
        let rest = units.drop_first();
        let child = match kid(tree, units[0]) {
            Some(Branch::InMem(child)) => inserted(child, rest),
            _ => fresh_spine(rest, Tree::empty().finality(true)),
        };
        tree.put(units[0], Branch::InMem(child))
    }
}

/// The ancestors of a path copy.
spec fn ancestors<K: KeyEncoding, V>(spine: Seq<(Arc<OverlayNode<K, V>>, K::Unit)>) -> Seq<
    (Tree<K::Unit, V>, K::Unit),
> {
    Seq::new(spine.len(), |i: int| (spine[i].0@, spine[i].1))
}

/// Adds one term by copying the path to it.
pub fn insert_path<K: KeyEncoding, V: DictionaryValue>(
    root: Arc<OverlayNode<K, V>>,
    units: &[K::Unit],
) -> (r: Arc<OverlayNode<K, V>>)
    requires
        root.wf(),
    ensures
        r.wf(),
        r@ == inserted(root@, units@),
{
    let ghost goal = inserted(root@, units@);
    let mut spine: Vec<(Arc<OverlayNode<K, V>>, K::Unit)> = Vec::new();
    let mut current = root;
    let mut depth: usize = 0;
    let mut missing: bool = false;
    proof {
        assert(units@.skip(0) =~= units@);
        assert(ancestors(spine@) =~= Seq::empty());
    }
    while depth < units.len() && !missing
        invariant
            depth <= units@.len(),
            current.wf(),
            forall|i: int| 0 <= i < spine@.len() ==> (#[trigger] spine@[i]).0.wf(),
            missing ==> goal == unwound(
                ancestors(spine@),
                fresh_spine(units@.skip(depth as int), Tree::empty().finality(true)),
            ),
            !missing ==> goal == unwound(
                ancestors(spine@),
                inserted(current@, units@.skip(depth as int)),
            ),
        decreases units@.len() - depth, (if missing { 0int } else { 1 }),
    {
        let unit: K::Unit = units[depth];
        let ghost before = ancestors(spine@);
        let ghost here = current@;
        let ghost rest = units@.skip(depth as int);
        spine.push((share(&current), unit));
        proof {
            assert(rest[0] == unit);
            assert(rest.drop_first() =~= units@.skip(depth + 1));
            assert(ancestors(spine@).drop_last() =~= before);
            assert(ancestors(spine@).last() == (here, unit));
        }
        let next: Option<Arc<OverlayNode<K, V>>> = match current.find_child(unit) {
            Some(Child::InMem(child)) => Some(share(child)),
            _ => None,
        };
        depth += 1;
        match next {
            Some(child) => {
                current = child;
            },
            None => {
                missing = true;
            },
        }
    }
    let mut replacement: Arc<OverlayNode<K, V>> = if missing {
        let ghost leaf = Tree::<K::Unit, V>::empty().finality(true);
        let fresh: OverlayNode<K, V> = OverlayNode::new();
        let mut tail = Arc::new(fresh.as_final());
        let mut i: usize = units.len();
        assert(units@.skip(i as int) =~= Seq::empty());
        while i > depth
            invariant
                depth <= i <= units@.len(),
                leaf == Tree::<K::Unit, V>::empty().finality(true),
                tail.wf(),
                tail@ == fresh_spine(units@.skip(i as int), leaf),
            decreases i,
        {
            i -= 1;
            let above: OverlayNode<K, V> = OverlayNode::new();
            tail = Arc::new(above.with_child(units[i], Child::InMem(tail)));
            proof {
                let rest = units@.skip(i as int);
                assert(rest[0] == units@[i as int]);
                assert(rest.drop_first() =~= units@.skip(i + 1));
            }
        }
        tail
    } else {
        assert(units@.skip(depth as int) =~= Seq::empty());
        Arc::new(current.as_final())
    };
    while spine.len() > 0
        invariant
            replacement.wf(),
            forall|i: int| 0 <= i < spine@.len() ==> (#[trigger] spine@[i]).0.wf(),
            goal == unwound(ancestors(spine@), replacement@),
        decreases spine@.len(),
    {
        let ghost before = spine@;
        match spine.pop() {
            Some((parent, unit)) => {
                proof {
                    assert(before.last() == (parent, unit));
                    assert(before[before.len() - 1].0.wf());
                    assert(ancestors(before).drop_last() =~= ancestors(spine@));
                    assert(ancestors(before).last() == (parent@, unit));
                }
                replacement = Arc::new(parent.with_child(unit, Child::InMem(replacement)));
            },
            None => {},
        }
    }
    proof {
        assert(ancestors(spine@) =~= Seq::empty());
    }
    replacement
}

/// A term that was added is there, and keeps the value it had.
pub proof fn inserted_path_is_a_term<U, V>(tree: Tree<U, V>, units: Seq<U>)
    ensures
        term(inserted(tree, units), units) == Some(
            match at(tree, units) {
                Some(node) => node.value,
                None => None,
            },
        ),
    decreases units.len(),
{
    if units.len() > 0 {
        let rest = units.drop_first();
        match kid(tree, units[0]) {
            Some(Branch::InMem(child)) => {
                inserted_path_is_a_term(child, rest);
            },
            _ => {
                lemma_fresh_spine_leaf(rest, Tree::<U, V>::empty().finality(true));
            },
        }
    }
}

/// Adding a term changes nothing about any other key.
pub proof fn inserted_path_keeps_other_terms<U, V>(tree: Tree<U, V>, units: Seq<U>, key: Seq<U>)
    requires
        key != units,
    ensures
        term(inserted(tree, units), key) == term(tree, key),
    decreases units.len(),
{
    if units.len() == 0 {
        assert(key.len() > 0) by {
            if key.len() == 0 {
                assert(key =~= units);
            }
        }
    } else if key.len() > 0 && key[0] == units[0] {
        let rest = units.drop_first();
        let below = key.drop_first();
        assert(below != rest) by {
            if below == rest {
                assert(key =~= seq![key[0]] + below);
                assert(units =~= seq![units[0]] + rest);
            }
        }
        match kid(tree, units[0]) {
            Some(Branch::InMem(child)) => {
                inserted_path_keeps_other_terms(child, rest, below);
            },
            _ => {
                lemma_fresh_spine_others(rest, Tree::<U, V>::empty().finality(true), below);
            },
        }
    }
}

/// The nodes of a trie with their paths, parents before children and children in
/// the order of their edges. Durable children are not followed.
pub open spec fn preorder<K: KeyEncoding, V>(node: OverlayNode<K, V>, path: Seq<K::Unit>) -> Seq<
    (Seq<K::Unit>, Tree<K::Unit, V>),
>
    decreases node, node.children@.len() + 1,
{
    seq![(path, node@)] + preorder_from(node, 0, path)
}

/// The nodes below the child slots from `slot` on.
pub open spec fn preorder_from<K: KeyEncoding, V>(
    node: OverlayNode<K, V>,
    slot: nat,
    path: Seq<K::Unit>,
) -> Seq<(Seq<K::Unit>, Tree<K::Unit, V>)>
    decreases node, node.children@.len() - slot,
{
    if slot >= node.children@.len() {
        Seq::empty()
    } else {
        (match node.children@[slot as int].1 {
            Child::InMem(child) => preorder(*child, path.push(node.children@[slot as int].0)),
            Child::OnDisk(_) => Seq::empty(),
        }) + preorder_from(node, slot + 1, path)
    }
}

/// The node behind a handle.
spec fn content_of<K: KeyEncoding, V>(node: Arc<OverlayNode<K, V>>) -> OverlayNode<K, V> {
    *node
}

/// What is done at each node of a visit.
pub trait PathVisitor<K: KeyEncoding, V>: Sized {
    /// The nodes that have been visited, with their paths.
    spec fn seen(&self) -> Seq<(Seq<K::Unit>, Tree<K::Unit, V>)>;

    /// What the visitor has made of them is right.
    spec fn valid(&self) -> bool;

    /// Visits a node.
    fn visit(&mut self, path: &[K::Unit], node: &Arc<OverlayNode<K, V>>)
        requires
            old(self).valid(),
        ensures
            final(self).valid(),
            final(self).seen() == old(self).seen().push((path@, node@)),
    ;
}

/// A node that is yet to be visited.
struct Pending<K: KeyEncoding, V> {
    node: Arc<OverlayNode<K, V>>,
    parent_len: usize,
    incoming: Option<K::Unit>,
    path: Ghost<Seq<K::Unit>>,
}

/// The order in which pending nodes are visited.
spec fn pending_order<K: KeyEncoding, V>(pending: Seq<Pending<K, V>>) -> Seq<
    (Seq<K::Unit>, Tree<K::Unit, V>),
>
    decreases pending.len(),
{
    if pending.len() == 0 {
        Seq::empty()
    } else {
        preorder(*pending.last().node, pending.last().path@) + pending_order(pending.drop_last())
    }
}

/// The steps that pending nodes take.
spec fn pending_steps<K: KeyEncoding, V>(pending: Seq<Pending<K, V>>) -> nat
    decreases pending.len(),
{
    if pending.len() == 0 {
        0
    } else {
        pending.last().node.steps() + pending_steps(pending.drop_last())
    }
}

/// The path of a pending node is a part of the current path and one unit.
spec fn pending_ok<K: KeyEncoding, V>(
    pending: Seq<Pending<K, V>>,
    path: Seq<K::Unit>,
    k: int,
) -> bool {
    let entry = pending[k];
    &&& entry.parent_len <= path.len()
    &&& entry.path@ == match entry.incoming {
        Some(unit) => path.take(entry.parent_len as int).push(unit),
        None => path.take(entry.parent_len as int),
    }
}

/// Visits every resident node below a root, parents before children. The path is
/// given back as it was.
pub fn visit_paths<K: KeyEncoding, V: DictionaryValue, Visitor: PathVisitor<K, V>>(
    root: &Arc<OverlayNode<K, V>>,
    path: &mut Vec<K::Unit>,
    visitor: &mut Visitor,
)
    requires
        old(visitor).valid(),
    ensures
        final(visitor).valid(),
        final(path)@ == old(path)@,
        final(visitor).seen() == old(visitor).seen() + preorder(**root, old(path)@),
{
    let ghost start = path@;
    let initial: usize = path.len();
    let ghost goal = visitor.seen() + preorder(content_of(*root), path@);
    let mut pending: Vec<Pending<K, V>> = Vec::new();
    pending.push(
        Pending { node: share(root), parent_len: initial, incoming: None, path: Ghost(path@) },
    );
    proof {
        assert(path@.take(initial as int) =~= path@);
        let first = pending@.last();
        assert(first.path@ == path@);
        assert(pending@.drop_last() =~= Seq::empty());
        assert(pending_order(pending@.drop_last()) =~= Seq::empty());
        assert(pending_order(pending@) =~= preorder(*first.node, path@));
    }
    while pending.len() > 0
        invariant
            initial == start.len(),
            path@.len() >= initial,
            path@.take(initial as int) == start,
            forall|k: int| 0 <= k < pending@.len() ==> #[trigger] pending_ok(pending@, path@, k),
            forall|k: int, l: int|
                0 <= k < l < pending@.len() ==> (#[trigger] pending@[k]).parent_len <= (
                #[trigger] pending@[l]).parent_len,
            forall|k: int|
                0 <= k < pending@.len() ==> (#[trigger] pending@[k]).parent_len >= initial,
            visitor.valid(),
            visitor.seen() + pending_order(pending@) == goal,
        decreases pending_steps(pending@),
    {
        let ghost stack = pending@;
        let ghost here = path@;
        let entry = match pending.pop() {
            Some(entry) => entry,
            None => {
                return ;
            },
        };
        let ghost rest = pending@;
        proof {
            assert(stack.last() == entry);
            assert(rest =~= stack.drop_last());
            assert(pending_ok(stack, here, stack.len() - 1));
            assert(stack[stack.len() - 1] == entry);
        }
        path.truncate(entry.parent_len);
        match entry.incoming {
            Some(unit) => {
                path.push(unit);
            },
            None => {},
        }
        let ghost full = path@;
        proof {
            assert(full == entry.path@);
            assert(full.take(initial as int) =~= start);
            assert forall|k: int| 0 <= k < rest.len() implies #[trigger] pending_ok(
                rest,
                full,
                k,
            ) && rest[k].parent_len <= entry.parent_len by {
                assert(pending_ok(stack, here, k));
                assert(rest[k] == stack[k]);
                assert(full.take(rest[k].parent_len as int) =~= here.take(
                    rest[k].parent_len as int,
                ));
            }
        }
        let ghost before = visitor.seen();
        visitor.visit(path.as_slice(), &entry.node);
        let child_len: usize = path.len();
        let node = entry.node;
        let ghost content = content_of(node);
        let mut s: usize = node.children.len();
        proof {
            assert(pending_order(rest) =~= preorder_from(content, s as nat, full) + pending_order(
                rest,
            ));
        }
        while s > 0
            invariant
                initial == start.len(),
                path@ == full,
                child_len == full.len(),
                initial <= child_len,
                content == *node,
                s <= content.children@.len(),
                forall|k: int|
                    0 <= k < pending@.len() ==> #[trigger] pending_ok(pending@, full, k),
                forall|k: int, l: int|
                    0 <= k < l < pending@.len() ==> (#[trigger] pending@[k]).parent_len <= (
                    #[trigger] pending@[l]).parent_len,
                forall|k: int|
                    0 <= k < pending@.len() ==> (#[trigger] pending@[k]).parent_len >= initial,
                pending_order(pending@) == preorder_from(content, s as nat, full) + pending_order(
                    rest,
                ),
                pending_steps(pending@) + content.kids_steps(s as nat) <= content.kids_steps(
                    content.children@.len(),
                ) + pending_steps(rest),
            decreases s,
        {
            s -= 1;
            let ghost waiting = pending@;
            proof {
                assert(content.kids_steps((s + 1) as nat) == content.kids_steps(s as nat)
                    + match content.children@[s as int].1 {
                    Child::InMem(child) => child.steps(),
                    Child::OnDisk(_) => 1,
                });
            }
            match &node.children[s].1 {
                Child::InMem(child) => {
                    let edge: K::Unit = node.children[s].0;
                    pending.push(
                        Pending {
                            node: share(child),
                            parent_len: child_len,
                            incoming: Some(edge),
                            path: Ghost(full.push(edge)),
                        },
                    );
                    proof {
                        let longer = pending@;
                        assert(longer.drop_last() =~= waiting);
                        assert(full.take(child_len as int) =~= full);
                        assert forall|k: int| 0 <= k < longer.len() implies #[trigger] pending_ok(
                            longer,
                            full,
                            k,
                        ) by {
                            if k < waiting.len() {
                                assert(pending_ok(waiting, full, k));
                                assert(longer[k] == waiting[k]);
                            }
                        }
                        assert forall|k: int, l: int| 0 <= k < l < longer.len() implies (
                        #[trigger] longer[k]).parent_len <= (#[trigger] longer[l]).parent_len by {
                            assert(longer[k] == waiting[k]);
                            assert(pending_ok(waiting, full, k));
                            if l < waiting.len() {
                                assert(longer[l] == waiting[l]);
                            }
                        }
                        assert forall|k: int| 0 <= k < longer.len() implies (
                        #[trigger] longer[k]).parent_len >= initial by {
                            if k < waiting.len() {
                                assert(longer[k] == waiting[k]);
                            }
                        }
                        assert(pending_order(longer) =~= preorder_from(content, s as nat, full)
                            + pending_order(rest));
                    }
                },
                Child::OnDisk(_) => {
                    assert(preorder_from(content, s as nat, full) =~= preorder_from(
                        content,
                        (s + 1) as nat,
                        full,
                    ));
                },
            }
        }
        proof {
            assert(visitor.seen() + pending_order(pending@) =~= before + (preorder(content, full)
                + pending_order(rest)));
            assert(pending_order(stack) == preorder(content, full) + pending_order(rest));
            assert(content.kids_steps(0) == 0);
        }
    }
    path.truncate(initial);
    proof {
        assert(visitor.seen() + pending_order(pending@) =~= visitor.seen());
    }
}

/// Counts what a visit meets.
#[verifier::reject_recursive_types(V)]
pub struct PathCensus<K: KeyEncoding, V> {
    /// The length of the longest path.
    pub deepest: usize,
    /// The number of terms, at most the largest machine word.
    pub finals: usize,
    pub seen: Ghost<Seq<(Seq<K::Unit>, Tree<K::Unit, V>)>>,
}

/// The length of the longest path of a visit.
pub open spec fn deepest_of<U, V>(seen: Seq<(Seq<U>, Tree<U, V>)>) -> nat
    decreases seen.len(),
{
    if seen.len() == 0 {
        0
    } else {
        let before = deepest_of(seen.drop_last());
        if seen.last().0.len() > before {
            seen.last().0.len()
        } else {
            before
        }
    }
}

/// The number of terms of a visit.
pub open spec fn finals_of<U, V>(seen: Seq<(Seq<U>, Tree<U, V>)>) -> nat
    decreases seen.len(),
{
    if seen.len() == 0 {
        0
    } else {
        finals_of(seen.drop_last()) + if seen.last().1.is_final {
            1nat
        } else {
            0
        }
    }
}

impl<K: KeyEncoding, V> PathCensus<K, V> {
    /// The counts are those of what has been seen.
    pub open spec fn wf(self) -> bool {
        &&& self.deepest == deepest_of(self.seen@)
        &&& self.finals == (if finals_of(self.seen@) > usize::MAX {
            usize::MAX as nat
        } else {
            finals_of(self.seen@)
        })
    }

    /// Nothing has been seen.
    pub fn new() -> (r: Self)
        ensures
            r.wf(),
            r.seen@.len() == 0,
    {
        PathCensus { deepest: 0, finals: 0, seen: Ghost(Seq::empty()) }
    }
}

impl<K: KeyEncoding, V: DictionaryValue> PathVisitor<K, V> for PathCensus<K, V> {
    open spec fn seen(&self) -> Seq<(Seq<K::Unit>, Tree<K::Unit, V>)> {
        self.seen@
    }

    open spec fn valid(&self) -> bool {
        self.wf()
    }

    fn visit(&mut self, path: &[K::Unit], node: &Arc<OverlayNode<K, V>>) {
        let ghost before = self.seen@;
        if path.len() > self.deepest {
            self.deepest = path.len();
        }
        if node.is_final() {
            self.finals = self.finals.saturating_add(1);
        }
        self.seen = Ghost(before.push((path@, node@)));
        proof {
            assert(self.seen@.drop_last() =~= before);
        }
    }
}

} // verus!
