//! What reading a trie in batches lists.

use vstd::prelude::*;
use crate::cursor_iter::{
    after, batch, batches_continue_each_other, paths_increase, terms_are_in_order,
    valued_terms,
};
use crate::key_encoding::{ByteKey, KeyEncoding};
use crate::overlay::model::{at, kid, lemma_at_concat};
use crate::overlay::node::{lemma_slot, Branch, Child, OverlayNode, Tree};
use crate::overlay::paths::{preorder, preorder_from};

verus! {

/// A node is where an entry of a visit says.
pub open spec fn found<U, V>(tree: Tree<U, V>, path: Seq<U>, entry: (Seq<U>, Tree<U, V>)) -> bool {
    &&& path.is_prefix_of(entry.0)
    &&& at(tree, entry.0.skip(path.len() as int)) == Some(entry.1)
}

/// A term with its value.
pub open spec fn valued_at<U, V>(tree: Tree<U, V>, path: Seq<U>, value: V) -> bool {
    at(tree, path) matches Some(node) && node.is_final && node.value == Some(value)
}

/// What is visited is there.
proof fn lemma_visit_found<K: KeyEncoding, V>(node: OverlayNode<K, V>, path: Seq<K::Unit>)
    requires
        node.wf(),
    ensures
        forall|i: int|
            0 <= i < preorder(node, path).len() ==> found(
                node@,
                path,
                #[trigger] preorder(node, path)[i],
            ),
    decreases node, node.children@.len() + 1,
{
    lemma_kids_found(node, 0, path);
    let rest = preorder_from(node, 0, path);
    let all = preorder(node, path);
    assert forall|i: int| 0 <= i < all.len() implies found(node@, path, #[trigger] all[i]) by {
        if i == 0 {
            assert(path.skip(path.len() as int) =~= Seq::empty());
        } else {
            assert(all[i] == rest[i - 1]);
        }
    }
}

/// What is visited below the children from a slot on is there.
proof fn lemma_kids_found<K: KeyEncoding, V>(
    node: OverlayNode<K, V>,
    slot: nat,
    path: Seq<K::Unit>,
)
    requires
        node.wf(),
    ensures
        forall|i: int|
            0 <= i < preorder_from(node, slot, path).len() ==> found(
                node@,
                path,
                #[trigger] preorder_from(node, slot, path)[i],
            ),
    decreases node, node.children@.len() - slot,
{
    if slot < node.children@.len() {
        lemma_kids_found(node, slot + 1, path);
        lemma_slot(node, slot as int);
        let (unit, child) = node.children@[slot as int];
        let rest = preorder_from(node, slot + 1, path);
        let all = preorder_from(node, slot, path);
        match child {
            Child::InMem(below) => {
                let content = *below;
                let longer = path.push(unit);
                lemma_visit_found(content, longer);
                let here = preorder(content, longer);
                assert(all =~= here + rest);
                assert forall|i: int| 0 <= i < all.len() implies found(
                    node@,
                    path,
                    #[trigger] all[i],
                ) by {
                    if i < here.len() {
                        assert(all[i] == here[i]);
                        let full = here[i].0;
                        assert(found(content@, longer, here[i]));
                        assert(path =~= full.take(path.len() as int)) by {
                            assert(longer =~= full.take(longer.len() as int));
                            assert forall|j: int| 0 <= j < path.len() implies path[j]
                                == full[j] by {
                                assert(longer[j] == full.take(longer.len() as int)[j]);
                            }
                        }
                        assert(full[path.len() as int] == unit) by {
                            assert(longer[path.len() as int] == full[path.len() as int]);
                        }
                        let suffix = full.skip(path.len() as int);
                        assert(suffix.drop_first() =~= full.skip(longer.len() as int));
                        assert(kid(node@, unit) == Some(Branch::InMem(content@)));
                    } else {
                        assert(all[i] == rest[i - here.len()]);
                    }
                }
            },
            Child::OnDisk(_) => {
                assert(all =~= rest);
            },
        }
    }
}

/// What is visited below one child is visited below all.
proof fn lemma_kid_visited<K: KeyEncoding, V>(
    node: OverlayNode<K, V>,
    slot: nat,
    t: int,
    path: Seq<K::Unit>,
    entry: (Seq<K::Unit>, Tree<K::Unit, V>),
)
    requires
        slot <= t < node.children@.len(),
        node.children@[t].1 matches Child::InMem(child) && preorder(
            *child,
            path.push(node.children@[t].0),
        ).contains(entry),
    ensures
        preorder_from(node, slot, path).contains(entry),
    decreases t - slot,
{
    let (unit, child) = node.children@[slot as int];
    let here = match child {
        Child::InMem(below) => {
            let content = *below;
            preorder(content, path.push(unit))
        },
        Child::OnDisk(_) => Seq::empty(),
    };
    let rest = preorder_from(node, slot + 1, path);
    let all = preorder_from(node, slot, path);
    assert(all =~= here + rest);
    if slot < t {
        lemma_kid_visited(node, slot + 1, t, path, entry);
        let i = choose|i: int| 0 <= i < rest.len() && rest[i] == entry;
        assert(all[here.len() + i] == entry);
    } else {
        let i = choose|i: int| 0 <= i < here.len() && here[i] == entry;
        assert(all[i] == entry);
    }
}

/// What is there is visited.
proof fn lemma_visit_lists<K: KeyEncoding, V>(
    node: OverlayNode<K, V>,
    path: Seq<K::Unit>,
    suffix: Seq<K::Unit>,
)
    requires
        node.wf(),
        at(node@, suffix) is Some,
    ensures
        preorder(node, path).contains((path + suffix, at(node@, suffix)->0)),
    decreases suffix.len(),
{
    let all = preorder(node, path);
    let rest = preorder_from(node, 0, path);
    if suffix.len() == 0 {
        assert(path + suffix =~= path);
        assert(all[0] == (path, node@));
    } else {
        let t = choose|t: int|
            0 <= t < node.children@.len() && #[trigger] node.children@[t].0 == suffix[0];
        lemma_slot(node, t);
        let child = *node.children@[t].1->InMem_0;
        let entry = (path + suffix, at(node@, suffix)->0);
        lemma_visit_lists(child, path.push(suffix[0]), suffix.drop_first());
        assert(path.push(suffix[0]) + suffix.drop_first() =~= path + suffix);
        lemma_kid_visited(node, 0, t, path, entry);
        let i = choose|i: int| 0 <= i < rest.len() && rest[i] == entry;
        assert(all[i + 1] == entry);
    }
}

/// The terms with values of a visit are the final nodes with values.
proof fn lemma_valued_terms<V>(seen: Seq<(Seq<u8>, Tree<u8, V>)>, term: Seq<u8>, value: V)
    ensures
        valued_terms(seen).contains((term, value)) == exists|i: int|
            0 <= i < seen.len() && (#[trigger] seen[i]).0 == term && seen[i].1.is_final
                && seen[i].1.value == Some(value),
    decreases seen.len(),
{
    if seen.len() > 0 {
        let shorter = seen.drop_last();
        lemma_valued_terms(shorter, term, value);
        let before = valued_terms(shorter);
        let all = valued_terms(seen);
        let last = seen.len() - 1;
        assert(seen[last] == seen.last());
        if all.contains((term, value)) {
            let i = choose|i: int| 0 <= i < all.len() && all[i] == (term, value);
            if i < before.len() {
                assert(before[i] == all[i]);
                assert(before.contains((term, value)));
                let k = choose|k: int|
                    0 <= k < shorter.len() && (#[trigger] shorter[k]).0 == term
                        && shorter[k].1.is_final && shorter[k].1.value == Some(value);
                assert(seen[k] == shorter[k]);
            } else {
                assert(seen[last].0 == term);
            }
        }
        if exists|i: int|
            0 <= i < seen.len() && (#[trigger] seen[i]).0 == term && seen[i].1.is_final
                && seen[i].1.value == Some(value) {
            let k = choose|k: int|
                0 <= k < seen.len() && (#[trigger] seen[k]).0 == term && seen[k].1.is_final
                    && seen[k].1.value == Some(value);
            if k < last {
                assert(shorter[k] == seen[k]);
                let i = choose|i: int| 0 <= i < before.len() && before[i] == (term, value);
                assert(all[i] == before[i]);
            } else {
                assert(all[before.len() as int] == (term, value));
            }
        }
    }
}

/// The terms with values of a trie that start with a prefix are exactly the final
/// nodes with values at such paths.
pub proof fn every_valued_term_is_visited<V>(
    root: Tree<u8, V>,
    node: OverlayNode<ByteKey, V>,
    prefix: Seq<u8>,
    term: Seq<u8>,
    value: V,
)
    requires
        node.wf(),
        at(root, prefix) == Some(node@),
    ensures
        valued_terms(preorder(node, prefix)).contains((term, value)) == (prefix.is_prefix_of(term)
            && valued_at(root, term, value)),
{
    let seen = preorder(node, prefix);
    lemma_valued_terms(seen, term, value);
    lemma_visit_found(node, prefix);
    if valued_terms(seen).contains((term, value)) {
        let i = choose|i: int|
            0 <= i < seen.len() && (#[trigger] seen[i]).0 == term && seen[i].1.is_final
                && seen[i].1.value == Some(value);
        assert(found(node@, prefix, seen[i]));
        let suffix = term.skip(prefix.len() as int);
        lemma_at_concat(root, prefix, suffix);
        assert(prefix + suffix =~= term);
    }
    if prefix.is_prefix_of(term) && valued_at(root, term, value) {
        let suffix = term.skip(prefix.len() as int);
        assert(prefix + suffix =~= term);
        lemma_at_concat(root, prefix, suffix);
        lemma_visit_lists(node, prefix, suffix);
        let i = choose|i: int| 0 <= i < seen.len() && seen[i] == (term, at(node@, suffix)->0);
        assert(seen[i].0 == term);
    }
}

/// Batches of `limit` terms, each from the last term of the one before, joined until
/// one is empty or so many were read.
pub open spec fn joined_batches<V>(
    terms: Seq<(Seq<u8>, V)>,
    cursor: Option<Seq<u8>>,
    limit: nat,
    rounds: nat,
) -> Seq<(Seq<u8>, V)>
    decreases rounds,
{
    let page = batch(terms, cursor, limit);
    if rounds == 0 || page.len() == 0 {
        Seq::empty()
    } else {
        page + joined_batches(terms, Some(page.last().0), limit, (rounds - 1) as nat)
    }
}

/// No more terms come after a cursor than there are, and without one all do.
proof fn lemma_after_len<V>(terms: Seq<(Seq<u8>, V)>, cursor: Option<Seq<u8>>)
    ensures
        after(terms, cursor).len() <= terms.len(),
        cursor is None ==> after(terms, cursor) == terms,
    decreases terms.len(),
{
    if terms.len() > 0 {
        lemma_after_len(terms.drop_last(), cursor);
        assert(terms =~= terms.drop_last().push(terms.last()));
    } else {
        assert(terms =~= Seq::empty());
    }
}

/// Joined batches are what comes after the cursor.
proof fn lemma_joined<V>(
    terms: Seq<(Seq<u8>, V)>,
    cursor: Option<Seq<u8>>,
    limit: nat,
    rounds: nat,
)
    requires
        paths_increase(terms),
        limit > 0,
        rounds >= after(terms, cursor).len(),
    ensures
        joined_batches(terms, cursor, limit, rounds) == after(terms, cursor),
    decreases rounds,
{
    let all = after(terms, cursor);
    let page = batch(terms, cursor, limit);
    if page.len() == 0 {
        assert(all =~= Seq::empty());
    } else {
        let first = page.len();
        let mark = Some(page.last().0);
        assert(batch(terms, cursor, first) =~= page);
        lemma_after_len(terms, mark);
        lemma_after_len(terms, cursor);
        batches_continue_each_other(terms, cursor, first, terms.len());
        assert(batch(terms, mark, terms.len()) == after(terms, mark));
        assert(batch(terms, cursor, first + terms.len()) == all);
        assert(page + after(terms, mark) == all);
        lemma_joined(terms, mark, limit, (rounds - 1) as nat);
    }
}

/// Reading batch after batch lists every term with a value that starts with the
/// prefix exactly once, in lexicographic order, and nothing else.
pub proof fn batches_list_every_valued_term_once<V>(
    root: Tree<u8, V>,
    node: OverlayNode<ByteKey, V>,
    prefix: Seq<u8>,
    limit: nat,
    rounds: nat,
)
    requires
        node.wf(),
        at(root, prefix) == Some(node@),
        limit > 0,
        rounds >= valued_terms(preorder(node, prefix)).len(),
    ensures
        paths_increase(
            joined_batches(valued_terms(preorder(node, prefix)), None, limit, rounds),
        ),
        forall|term: Seq<u8>, value: V| #[trigger]
            joined_batches(valued_terms(preorder(node, prefix)), None, limit, rounds).contains(
                (term, value),
            ) == (prefix.is_prefix_of(term) && valued_at(root, term, value)),
{
    let terms = valued_terms(preorder(node, prefix));
    terms_are_in_order(node, prefix);
    lemma_after_len(terms, None);
    lemma_joined(terms, None, limit, rounds);
    assert forall|term: Seq<u8>, value: V| #[trigger] terms.contains((term, value)) == (
    prefix.is_prefix_of(term) && valued_at(root, term, value)) by {
        every_valued_term_is_visited(root, node, prefix, term, value);
    }
}

} // verus!
