//! Questions that the model of a trie answers: which node a path leads to, and
//! which terms are stored.

use vstd::prelude::*;
use crate::swizzled_ptr::SwizzledPtr;
use super::node::{Branch, Tree};

verus! {

/// The branch that an edge leads to.
pub open spec fn kid<U, V>(tree: Tree<U, V>, unit: U) -> Option<Branch<U, V>> {
    if tree.kids.dom().contains(unit) {
        Some(tree.kids[unit])
    } else {
        None
    }
}

/// The resident node at the end of a path.
pub open spec fn at<U, V>(tree: Tree<U, V>, path: Seq<U>) -> Option<Tree<U, V>>
    decreases path.len(),
{
    if path.len() == 0 {
        Some(tree)
    } else {
        match kid(tree, path[0]) {
            Some(Branch::InMem(child)) => at(child, path.drop_first()),
            _ => None,
        }
    }
}

/// What is stored under a key in the resident part of a trie: nothing, or a term
/// with or without a value.
pub open spec fn term<U, V>(tree: Tree<U, V>, key: Seq<U>) -> Option<Option<V>> {
    match at(tree, key) {
        Some(node) => if node.is_final {
            Some(node.value)
        } else {
            None
        },
        None => None,
    }
}

/// A path of new nodes that ends in `leaf`.
pub open spec fn fresh_spine<U, V>(suffix: Seq<U>, leaf: Tree<U, V>) -> Tree<U, V>
    decreases suffix.len(),
{
    if suffix.len() == 0 {
        leaf
    } else {
        Tree::empty().put(suffix[0], Branch::InMem(fresh_spine(suffix.drop_first(), leaf)))
    }
}

/// The root of a path copy: every listed ancestor, from the deepest up, is copied
/// around the new child.
pub open spec fn unwound<U, V>(ancestors: Seq<(Tree<U, V>, U)>, child: Tree<U, V>) -> Tree<U, V>
    decreases ancestors.len(),
{
    if ancestors.len() == 0 {
        child
    } else {
        let (parent, unit) = ancestors.last();
        unwound(ancestors.drop_last(), parent.put(unit, Branch::InMem(child)))
    }
}

/// Walking a path is walking its first part and then the rest.
pub proof fn lemma_at_concat<U, V>(tree: Tree<U, V>, a: Seq<U>, b: Seq<U>)
    ensures
        at(tree, a + b) == match at(tree, a) {
            Some(node) => at(node, b),
            None => None,
        },
    decreases a.len(),
{
    if a.len() == 0 {
        assert(a + b =~= b);
    } else {
        assert((a + b).drop_first() =~= a.drop_first() + b);
        match kid(tree, a[0]) {
            Some(Branch::InMem(child)) => lemma_at_concat(child, a.drop_first(), b),
            _ => {},
        }
    }
}

/// The path of a fresh spine leads to its leaf.
pub proof fn lemma_fresh_spine_leaf<U, V>(suffix: Seq<U>, leaf: Tree<U, V>)
    ensures
        at(fresh_spine(suffix, leaf), suffix) == Some(leaf),
    decreases suffix.len(),
{
    if suffix.len() > 0 {
        lemma_fresh_spine_leaf(suffix.drop_first(), leaf);
    }
}

/// A fresh spine over a leaf without children stores no term but the leaf's.
pub proof fn lemma_fresh_spine_others<U, V>(suffix: Seq<U>, leaf: Tree<U, V>, key: Seq<U>)
    requires
        leaf.kids == Map::<U, Branch<U, V>>::empty(),
        key != suffix,
    ensures
        term(fresh_spine(suffix, leaf), key) is None,
    decreases suffix.len(),
{
    if suffix.len() == 0 {
        if key.len() == 0 {
            assert(key =~= suffix);
        }
    } else if key.len() > 0 && key[0] == suffix[0] {
        if key.drop_first() == suffix.drop_first() {
            assert(key =~= seq![key[0]] + key.drop_first());
            assert(suffix =~= seq![suffix[0]] + suffix.drop_first());
        }
        lemma_fresh_spine_others(suffix.drop_first(), leaf, key.drop_first());
    }
}

/// What the durable records decode to.
pub type Records<U, V> = spec_fn(SwizzledPtr) -> Tree<U, V>;

/// The child that an edge leads to, resident or durable.
pub open spec fn full_kid<U, V>(records: Records<U, V>, tree: Tree<U, V>, unit: U) -> Option<
    Tree<U, V>,
> {
    match kid(tree, unit) {
        Some(Branch::InMem(child)) => Some(child),
        Some(Branch::OnDisk(ptr)) => if ptr.raw != 0 {
            Some(records(ptr))
        } else {
            None
        },
        None => None,
    }
}

/// The node at the end of a path, whether its way is resident or durable.
pub open spec fn full_at<U, V>(records: Records<U, V>, tree: Tree<U, V>, path: Seq<U>) -> Option<
    Tree<U, V>,
>
    decreases path.len(),
{
    if path.len() == 0 {
        Some(tree)
    } else {
        match full_kid(records, tree, path[0]) {
            Some(child) => full_at(records, child, path.drop_first()),
            None => None,
        }
    }
}

/// What is stored under a key, in memory or in durable records.
pub open spec fn full_term<U, V>(records: Records<U, V>, tree: Tree<U, V>, key: Seq<U>) -> Option<
    Option<V>,
> {
    match full_at(records, tree, key) {
        Some(node) => if node.is_final {
            Some(node.value)
        } else {
            None
        },
        None => None,
    }
}

/// Two tries store the same terms.
pub open spec fn same_terms<U, V>(records: Records<U, V>, a: Tree<U, V>, b: Tree<U, V>) -> bool {
    forall|key: Seq<U>| #[trigger] full_term(records, a, key) == full_term(records, b, key)
}

/// Every resident node that carries a durable stamp stores what its record does.
pub open spec fn stamps_hold<U, V>(records: Records<U, V>, tree: Tree<U, V>) -> bool {
    forall|path: Seq<U>|
        match #[trigger] at(tree, path) {
            Some(node) => node.stamp != 0 ==> same_terms(
                records,
                records(SwizzledPtr { raw: node.stamp }),
                node,
            ),
            None => true,
        }
}

/// What is resident is also found by a walk that loads.
pub proof fn lemma_at_full<U, V>(records: Records<U, V>, tree: Tree<U, V>, path: Seq<U>)
    ensures
        at(tree, path) is Some ==> full_at(records, tree, path) == at(tree, path),
    decreases path.len(),
{
    if path.len() > 0 {
        match kid(tree, path[0]) {
            Some(Branch::InMem(child)) => lemma_at_full(records, child, path.drop_first()),
            _ => {},
        }
    }
}

/// Stamps hold below a resident child.
pub proof fn lemma_stamps_child<U, V>(
    records: Records<U, V>,
    tree: Tree<U, V>,
    unit: U,
    child: Tree<U, V>,
)
    requires
        stamps_hold(records, tree),
        kid(tree, unit) == Some(Branch::InMem(child)),
    ensures
        stamps_hold(records, child),
{
    assert forall|path: Seq<U>|
        match #[trigger] at(child, path) {
            Some(node) => node.stamp != 0 ==> same_terms(
                records,
                records(SwizzledPtr { raw: node.stamp }),
                node,
            ),
            None => true,
        } by {
        let longer = seq![unit] + path;
        assert(longer.drop_first() =~= path);
        assert(at(tree, longer) == at(child, path));
    }
}

/// Replacing children by children that store the same terms changes no term.
pub proof fn lemma_same_kids<U, V>(records: Records<U, V>, a: Tree<U, V>, b: Tree<U, V>)
    requires
        a.is_final == b.is_final,
        a.value == b.value,
        forall|unit: U|
            match (#[trigger] full_kid(records, a, unit), full_kid(records, b, unit)) {
                (Some(x), Some(y)) => same_terms(records, x, y),
                (None, None) => true,
                _ => false,
            },
    ensures
        same_terms(records, a, b),
{
    assert forall|key: Seq<U>| #[trigger] full_term(records, a, key) == full_term(records, b, key) by {
        if key.len() > 0 {
            match (full_kid(records, a, key[0]), full_kid(records, b, key[0])) {
                (Some(x), Some(y)) => {
                    assert(full_term(records, x, key.drop_first()) == full_term(
                        records,
                        y,
                        key.drop_first(),
                    ));
                },
                _ => {},
            }
        }
    }
}

/// A path copy around a child that stores the same terms changes no term.
pub proof fn lemma_unwound_same<U, V>(
    records: Records<U, V>,
    ancestors: Seq<(Tree<U, V>, U)>,
    old: Tree<U, V>,
    new: Tree<U, V>,
)
    requires
        same_terms(records, old, new),
        forall|i: int|
            0 <= i < ancestors.len() ==> full_kid(
                records,
                (#[trigger] ancestors[i]).0,
                ancestors[i].1,
            ) == Some(next_ancestor(ancestors, old, i)),
    ensures
        same_terms(
            records,
            if ancestors.len() > 0 {
                ancestors[0].0
            } else {
                old
            },
            unwound(ancestors, new),
        ),
    decreases ancestors.len(),
{
    if ancestors.len() > 0 {
        let (parent, unit) = ancestors.last();
        let up = parent.put(unit, Branch::InMem(new));
        let above = ancestors.drop_last();
        assert(full_kid(records, ancestors[ancestors.len() - 1].0, unit) == Some(old));
        assert forall|u: U|
            match (#[trigger] full_kid(records, parent, u), full_kid(records, up, u)) {
                (Some(x), Some(y)) => same_terms(records, x, y),
                (None, None) => true,
                _ => false,
            } by {
            if u == unit {
                assert(kid(up, u) == Some(Branch::InMem(new)));
            } else {
                assert(kid(up, u) == kid(parent, u));
            }
        }
        lemma_same_kids(records, parent, up);
        assert forall|i: int| 0 <= i < above.len() implies full_kid(
            records,
            (#[trigger] above[i]).0,
            above[i].1,
        ) == Some(next_ancestor(above, parent, i)) by {
            assert(ancestors[i] == above[i]);
            assert(next_ancestor(above, parent, i) == next_ancestor(ancestors, old, i));
        }
        lemma_unwound_same(records, above, parent, up);
    }
}

/// The node below ancestor `i` of a path that ends at `end`.
pub open spec fn next_ancestor<U, V>(
    ancestors: Seq<(Tree<U, V>, U)>,
    end: Tree<U, V>,
    i: int,
) -> Tree<U, V> {
    if i + 1 < ancestors.len() {
        ancestors[i + 1].0
    } else {
        end
    }
}

} // verus!
