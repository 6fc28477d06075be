//! Reading terms in batches, in lexicographic order.

use std::sync::Arc;
use vstd::prelude::*;
use crate::byte_order::{bytes_gt, lex_less, lex_order_is_total, lex_order_is_transitive};
use crate::key_encoding::{ByteKey, KeyEncoding};
use crate::overlay::model::at;
use crate::overlay::node::{lemma_slot, Child, OverlayNode, Tree};
use crate::overlay::paths::{preorder, preorder_from, visit_paths, PathVisitor};
use crate::shared::share;
use crate::value::DictionaryValue;

verus! {

/// A term with its value, and the arena it lies in, if that is known.
pub struct PrefixTermWithValueAndArena<V> {
    pub term: Vec<u8>,
    pub value: V,
    pub arena_id: Option<u32>,
}

/// The terms with values of a visit.
pub open spec fn valued_terms<V>(seen: Seq<(Seq<u8>, Tree<u8, V>)>) -> Seq<(Seq<u8>, V)>
    decreases seen.len(),
{
    if seen.len() == 0 {
        Seq::empty()
    } else {
        let before = valued_terms(seen.drop_last());
        let (path, node) = seen.last();
        if node.is_final && node.value is Some {
            before.push((path, node.value->0))
        } else {
            before
        }
    }
}

/// A term comes after a cursor.
pub open spec fn past(cursor: Option<Seq<u8>>, term: Seq<u8>) -> bool {
    match cursor {
        Some(cursor) => lex_less(cursor, term),
        None => true,
    }
}

/// The terms that come after a cursor.
pub open spec fn after<V>(terms: Seq<(Seq<u8>, V)>, cursor: Option<Seq<u8>>) -> Seq<(Seq<u8>, V)>
    decreases terms.len(),
{
    if terms.len() == 0 {
        Seq::empty()
    } else {
        let before = after(terms.drop_last(), cursor);
        if past(cursor, terms.last().0) {
            before.push(terms.last())
        } else {
            before
        }
    }
}

/// The first terms that come after a cursor, as many as asked for.
pub open spec fn batch<V>(
    terms: Seq<(Seq<u8>, V)>,
    cursor: Option<Seq<u8>>,
    limit: nat,
) -> Seq<(Seq<u8>, V)> {
    let all = after(terms, cursor);
    if all.len() <= limit {
        all
    } else {
        all.take(limit as int)
    }
}

/// What a list of terms stands for.
pub open spec fn term_views<V>(terms: Seq<(Vec<u8>, V)>) -> Seq<(Seq<u8>, V)> {
    Seq::new(terms.len(), |i: int| (terms[i].0@, terms[i].1))
}

/// What a batch stands for.
pub open spec fn entry_views<V>(entries: Seq<PrefixTermWithValueAndArena<V>>) -> Seq<(Seq<u8>, V)> {
    Seq::new(entries.len(), |i: int| (entries[i].term@, entries[i].value))
}

/// Collects terms with values.
#[verifier::reject_recursive_types(V)]
pub struct TermCollector<V> {
    pub terms: Vec<(Vec<u8>, V)>,
    pub seen: Ghost<Seq<(Seq<u8>, Tree<u8, V>)>>,
}

impl<V> TermCollector<V> {
    /// The terms are those of what has been seen.
    pub open spec fn wf(self) -> bool {
        term_views(self.terms@) == valued_terms(self.seen@)
    }
}

impl<V: DictionaryValue> PathVisitor<ByteKey, V> for TermCollector<V> {
    open spec fn seen(&self) -> Seq<(Seq<u8>, Tree<u8, V>)> {
        self.seen@
    }

    open spec fn valid(&self) -> bool {
        self.wf()
    }

    fn visit(&mut self, path: &[u8], node: &Arc<OverlayNode<ByteKey, V>>) {
        let ghost before = *self;
        if node.is_final() {
            match node.get_value() {
                Some(value) => {
                    self.terms.push((vstd::slice::slice_to_vec(path), value));
                },
                None => {},
            }
        }
        self.seen = Ghost(before.seen@.push((path@, node@)));
        proof {
            assert(self.seen@.drop_last() =~= before.seen@);
            assert(term_views(self.terms@) =~= valued_terms(self.seen@));
        }
    }
}

/// The resident node at the end of a path.
fn resident_node<V: DictionaryValue>(root: &Arc<OverlayNode<ByteKey, V>>, path: &[u8]) -> (r: Option<
    Arc<OverlayNode<ByteKey, V>>,
>)
    requires
        root.wf(),
    ensures
        match r {
            Some(node) => node.wf() && at(root@, path@) == Some(node@),
            None => at(root@, path@) is None,
        },
{
    let mut current = share(root);
    let mut depth: usize = 0;
    assert(path@.skip(0) =~= path@);
    while depth < path.len()
        invariant
            depth <= path@.len(),
            current.wf(),
            at(current@, path@.skip(depth as int)) == at(root@, path@),
        decreases path@.len() - depth,
    {
        proof {
            let rest = path@.skip(depth as int);
            assert(rest[0] == path@[depth as int]);
            assert(rest.drop_first() =~= path@.skip(depth + 1));
        }
        let next: Arc<OverlayNode<ByteKey, V>> = match current.find_child(path[depth]) {
            Some(Child::InMem(child)) => share(child),
            _ => {
                return None;
            },
        };
        current = next;
        depth += 1;
    }
    assert(path@.skip(depth as int) =~= Seq::empty());
    Some(current)
}

/// A node of the model is the model of a node.
proof fn lemma_node_at<V>(root: OverlayNode<ByteKey, V>, path: Seq<u8>)
    requires
        root.wf(),
        at(root@, path) is Some,
    ensures
        exists|node: OverlayNode<ByteKey, V>|
            node.wf() && Some(#[trigger] node@) == at(root@, path),
    decreases path.len(),
{
    if path.len() > 0 {
        let t = choose|t: int|
            0 <= t < root.children@.len() && #[trigger] root.children@[t].0 == path[0];
        lemma_slot(root, t);
        let child = *root.children@[t].1->InMem_0;
        lemma_node_at(child, path.drop_first());
    } else {
        assert(root.wf() && Some(root@) == at(root@, path));
    }
}

/// The terms with values that start with a prefix, in lexicographic order. Durable
/// parts of the trie are not loaded.
pub fn overlay_iter_prefix_with_values<V: DictionaryValue>(
    root: &Arc<OverlayNode<ByteKey, V>>,
    prefix: &[u8],
) -> (r: Vec<(Vec<u8>, V)>)
    requires
        root.wf(),
    ensures
        at(root@, prefix@) is None ==> r@.len() == 0,
        at(root@, prefix@) is Some ==> exists|node: OverlayNode<ByteKey, V>|
            {
                &&& node.wf()
                &&& Some(node@) == at(root@, prefix@)
                &&& term_views(r@) == valued_terms(#[trigger] preorder(node, prefix@))
            },
{
    match resident_node(root, prefix) {
        Some(node) => {
            let mut collector: TermCollector<V> = TermCollector {
                terms: Vec::new(),
                seen: Ghost(Seq::empty()),
            };
            assert(term_views(collector.terms@) =~= valued_terms(collector.seen@));
            let mut path: Vec<u8> = vstd::slice::slice_to_vec(prefix);
            visit_paths(&node, &mut path, &mut collector);
            proof {
                let content = *node;
                assert(Seq::empty() + preorder(content, prefix@) =~= preorder(content, prefix@));
            }
            collector.terms
        },
        None => Vec::new(),
    }
}

/// The first terms of a list that come after a cursor, as many as asked for.
pub fn select_from_cursor<V: DictionaryValue>(
    terms: Vec<(Vec<u8>, V)>,
    cursor: Option<&[u8]>,
    limit: usize,
) -> (r: Vec<PrefixTermWithValueAndArena<V>>)
    ensures
        entry_views(r@) == batch(
            term_views(terms@),
            match cursor {
                Some(cursor) => Some(cursor@),
                None => None,
            },
            limit as nat,
        ),
        forall|i: int| 0 <= i < r@.len() ==> (#[trigger] r@[i]).arena_id is None,
{
    let ghost views = term_views(terms@);
    let ghost mark: Option<Seq<u8>> = match cursor {
        Some(cursor) => Some(cursor@),
        None => None,
    };
    let mut entries: Vec<PrefixTermWithValueAndArena<V>> = Vec::new();
    let mut i: usize = 0;
    proof {
        assert(entry_views(entries@) =~= after(views.take(0), mark));
    }
    while i < terms.len() && entries.len() < limit
        invariant
            i <= terms@.len(),
            entries@.len() <= limit,
            views == term_views(terms@),
            mark == (match cursor {
                Some(cursor) => Some(cursor@),
                None => None,
            }),
            entry_views(entries@) == after(views.take(i as int), mark),
            forall|k: int| 0 <= k < entries@.len() ==> (#[trigger] entries@[k]).arena_id is None,
        decreases terms@.len() - i,
    {
        let entry = &terms[i];
        let wanted: bool = match cursor {
            Some(cursor) => bytes_gt(entry.0.as_slice(), cursor),
            None => true,
        };
        let ghost before = entries@;
        proof {
            let longer = views.take(i + 1);
            assert(longer.drop_last() =~= views.take(i as int));
            assert(longer.last() == (entry.0@, entry.1));
        }
        if wanted {
            entries.push(
                PrefixTermWithValueAndArena {
                    term: crate::registry::copy_units(&entry.0),
                    value: entry.1.duplicate(),
                    arena_id: None,
                },
            );
            assert(entry_views(entries@) =~= entry_views(before).push((entry.0@, entry.1)));
        }
        i += 1;
    }
    proof {
        if i == terms@.len() {
            assert(views.take(i as int) =~= views);
        } else {
            lemma_after_grows(views, mark, i as int);
            assert(entry_views(entries@).len() == limit);
            assert(after(views, mark).take(limit as int) =~= entry_views(entries@));
        }
    }
    entries
}

/// More terms come after what fewer terms give.
proof fn lemma_after_grows<V>(terms: Seq<(Seq<u8>, V)>, cursor: Option<Seq<u8>>, n: int)
    requires
        0 <= n <= terms.len(),
    ensures
        after(terms.take(n), cursor).len() <= after(terms, cursor).len(),
        after(terms, cursor).take(after(terms.take(n), cursor).len() as int) == after(
            terms.take(n),
            cursor,
        ),
    decreases terms.len() - n,
{
    let part = after(terms.take(n), cursor);
    if n == terms.len() {
        assert(terms.take(n) =~= terms);
        assert(part.take(part.len() as int) =~= part);
    } else {
        lemma_after_grows(terms, cursor, n + 1);
        let more = after(terms.take(n + 1), cursor);
        assert(terms.take(n + 1).drop_last() =~= terms.take(n));
        assert(after(terms, cursor).take(part.len() as int) =~= more.take(part.len() as int));
        assert(more.take(part.len() as int) =~= part);
    }
}

/// The terms of a trie that start with a prefix and come after a cursor, the first
/// ones in lexicographic order, as many as asked for.
pub fn iter_prefix_from_cursor<V: DictionaryValue>(
    root: &Arc<OverlayNode<ByteKey, V>>,
    prefix: &[u8],
    cursor: Option<&[u8]>,
    limit: usize,
) -> (r: Vec<PrefixTermWithValueAndArena<V>>)
    requires
        root.wf(),
    ensures
        at(root@, prefix@) is None ==> r@.len() == 0,
        at(root@, prefix@) is Some ==> exists|node: OverlayNode<ByteKey, V>|
            {
                &&& node.wf()
                &&& Some(node@) == at(root@, prefix@)
                &&& entry_views(r@) == batch(
                    valued_terms(#[trigger] preorder(node, prefix@)),
                    match cursor {
                        Some(cursor) => Some(cursor@),
                        None => None,
                    },
                    limit as nat,
                )
            },
        forall|i: int| 0 <= i < r@.len() ==> (#[trigger] r@[i]).arena_id is None,
{
    if limit == 0 {
        let none: Vec<PrefixTermWithValueAndArena<V>> = Vec::new();
        proof {
            if at(root@, prefix@) is Some {
                let content = **root;
                lemma_node_at(content, prefix@);
                let node = choose|node: OverlayNode<ByteKey, V>|
                    node.wf() && Some(#[trigger] node@) == at(root@, prefix@);
                let mark: Option<Seq<u8>> = match cursor {
                    Some(cursor) => Some(cursor@),
                    None => None,
                };
                let all = valued_terms(preorder(node, prefix@));
                assert(batch(all, mark, 0) =~= Seq::empty());
                assert(entry_views(none@) =~= batch(all, mark, 0));
            }
        }
        return none;
    }
    let terms = overlay_iter_prefix_with_values(root, prefix);
    proof {
        if at(root@, prefix@) is None {
            assert(term_views(terms@) =~= Seq::empty());
        }
    }
    let r = select_from_cursor(terms, cursor, limit);
    proof {
        if at(root@, prefix@) is None {
            assert(entry_views(r@).len() == r@.len());
        }
    }
    r
}

/// Paths that strictly increase.
pub open spec fn paths_increase<T>(entries: Seq<(Seq<u8>, T)>) -> bool {
    forall|i: int, j: int|
        0 <= i < j < entries.len() ==> lex_less(
            (#[trigger] entries[i]).0,
            (#[trigger] entries[j]).0,
        )
}

/// The byte where two paths first differ decides.
proof fn lemma_lex_at(a: Seq<u8>, b: Seq<u8>, k: int)
    requires
        0 <= k < b.len(),
        k <= a.len(),
        a.take(k) == b.take(k),
        k == a.len() || a[k] < b[k],
    ensures
        lex_less(a, b),
    decreases k,
{
    if k > 0 {
        let x = a.drop_first();
        let y = b.drop_first();
        assert(a[0] == a.take(k)[0]);
        assert(b[0] == b.take(k)[0]);
        assert(x.take(k - 1) =~= y.take(k - 1)) by {
            assert forall|i: int| 0 <= i < k - 1 implies x[i] == y[i] by {
                assert(a.take(k)[i + 1] == b.take(k)[i + 1]);
                assert(a.take(k)[i + 1] == a[i + 1]);
                assert(b.take(k)[i + 1] == b[i + 1]);
                assert(x[i] == a[i + 1]);
                assert(y[i] == b[i + 1]);
            }
        }
        lemma_lex_at(x, y, k - 1);
    }
}

/// A path goes on from another with a byte that is not below a bound.
spec fn goes_on(path: Seq<u8>, bound: u8, longer: Seq<u8>) -> bool {
    &&& longer.len() > path.len()
    &&& longer.take(path.len() as int) == path
    &&& longer[path.len() as int] >= bound
}

/// Nodes are visited in the lexicographic order of their paths, and every path starts
/// with that of the first.
pub proof fn visits_are_in_order<V>(node: OverlayNode<ByteKey, V>, path: Seq<u8>)
    requires
        node.wf(),
    ensures
        paths_increase(preorder(node, path)),
        forall|i: int|
            0 <= i < preorder(node, path).len() ==> path.is_prefix_of(
                (#[trigger] preorder(node, path)[i]).0,
            ),
    decreases node, node.children@.len() + 1,
{
    lemma_kids_in_order(node, 0, path);
    let first = seq![(path, node@)];
    let rest = preorder_from(node, 0, path);
    let all = preorder(node, path);
    assert(all == first + rest);
    assert forall|i: int| 0 <= i < all.len() implies path.is_prefix_of((#[trigger] all[i]).0) by {
        if i == 0 {
            assert(path =~= path.take(path.len() as int));
        } else {
            assert(all[i] == rest[i - 1]);
            assert(goes_on(path, 0, rest[i - 1].0));
            assert(path.is_prefix_of(rest[i - 1].0));
        }
    }
    assert forall|i: int, j: int| 0 <= i < j < all.len() implies lex_less(
        (#[trigger] all[i]).0,
        (#[trigger] all[j]).0,
    ) by {
        assert(all[j] == rest[j - 1]);
        if i == 0 {
            assert(goes_on(path, 0, rest[j - 1].0));
            assert(path.take(path.len() as int) =~= path);
            lemma_lex_at(path, rest[j - 1].0, path.len() as int);
        } else {
            assert(all[i] == rest[i - 1]);
        }
    }
}

/// The nodes below the children from a slot on, in order.
proof fn lemma_kids_in_order<V>(node: OverlayNode<ByteKey, V>, slot: nat, path: Seq<u8>)
    requires
        node.wf(),
    ensures
        paths_increase(preorder_from(node, slot, path)),
        forall|i: int|
            0 <= i < preorder_from(node, slot, path).len() ==> goes_on(
                path,
                if slot < node.children@.len() {
                    node.children@[slot as int].0
                } else {
                    0
                },
                (#[trigger] preorder_from(node, slot, path)[i]).0,
            ),
    decreases node, node.children@.len() - slot,
{
    if slot < node.children@.len() {
        let (unit, child) = node.children@[slot as int];
        let rest = preorder_from(node, slot + 1, path);
        lemma_kids_in_order(node, slot + 1, path);
        let here = match child {
            Child::InMem(below) => {
                let content = *below;
                preorder(content, path.push(unit))
            },
            Child::OnDisk(_) => Seq::empty(),
        };
        let all = preorder_from(node, slot, path);
        assert(all == here + rest);
        match child {
            Child::InMem(below) => {
                let content = *below;
                visits_are_in_order(content, path.push(unit));
            },
            Child::OnDisk(_) => {},
        }
        assert forall|i: int| 0 <= i < here.len() implies {
            let longer = (#[trigger] here[i]).0;
            &&& longer.len() > path.len()
            &&& longer.take(path.len() as int) == path
            &&& longer[path.len() as int] == unit
        } by {
            let longer = here[i].0;
            let start = path.push(unit);
            assert(start.is_prefix_of(longer));
            assert(longer.take(start.len() as int) == start);
            assert(longer.take(path.len() as int) =~= start.take(path.len() as int));
            assert(start.take(path.len() as int) =~= path);
            assert(longer[path.len() as int] == longer.take(start.len() as int)[path.len() as int]);
        }
        assert forall|j: int| 0 <= j < rest.len() implies {
            let longer = (#[trigger] rest[j]).0;
            &&& longer.len() > path.len()
            &&& longer.take(path.len() as int) == path
            &&& longer[path.len() as int] > unit
        } by {
            assert(slot + 1 < node.children@.len());
            assert(goes_on(path, node.children@[slot as int + 1].0, rest[j].0));
            assert(ByteKey::rank(node.children@[slot as int].0) < ByteKey::rank(
                node.children@[slot as int + 1].0,
            ));
        }
        assert forall|i: int| 0 <= i < all.len() implies goes_on(
            path,
            unit,
            (#[trigger] all[i]).0,
        ) by {
            if i < here.len() {
                assert(all[i] == here[i]);
            } else {
                assert(all[i] == rest[i - here.len()]);
            }
        }
        assert forall|i: int, j: int| 0 <= i < j < all.len() implies lex_less(
            (#[trigger] all[i]).0,
            (#[trigger] all[j]).0,
        ) by {
            if i < here.len() && j < here.len() {
                assert(all[i] == here[i] && all[j] == here[j]);
            } else if i < here.len() {
                assert(all[i] == here[i] && all[j] == rest[j - here.len()]);
                lemma_lex_at(all[i].0, all[j].0, path.len() as int);
            } else {
                assert(all[i] == rest[i - here.len()] && all[j] == rest[j - here.len()]);
            }
        }
    }
}

/// Terms with values come in the lexicographic order of a visit.
pub proof fn terms_are_in_order<V>(node: OverlayNode<ByteKey, V>, path: Seq<u8>)
    requires
        node.wf(),
    ensures
        paths_increase(valued_terms(preorder(node, path))),
{
    visits_are_in_order(node, path);
    lemma_valued_in_order(preorder(node, path));
}

/// A part of what is in order is in order.
proof fn lemma_valued_in_order<V>(seen: Seq<(Seq<u8>, Tree<u8, V>)>)
    requires
        paths_increase(seen),
    ensures
        paths_increase(valued_terms(seen)),
        forall|i: int|
            0 <= i < valued_terms(seen).len() ==> exists|k: int|
                0 <= k < seen.len() && (#[trigger] valued_terms(seen)[i]).0 == (
                #[trigger] seen[k]).0,
    decreases seen.len(),
{
    if seen.len() > 0 {
        let shorter = seen.drop_last();
        assert forall|i: int, j: int| 0 <= i < j < shorter.len() implies lex_less(
            (#[trigger] shorter[i]).0,
            (#[trigger] shorter[j]).0,
        ) by {
            assert(shorter[i] == seen[i] && shorter[j] == seen[j]);
        }
        lemma_valued_in_order(shorter);
        let before = valued_terms(shorter);
        let all = valued_terms(seen);
        let last = seen.len() - 1;
        assert forall|i: int| 0 <= i < all.len() implies exists|k: int|
            0 <= k < seen.len() && (#[trigger] all[i]).0 == (#[trigger] seen[k]).0 by {
            if i < before.len() {
                let k = choose|k: int|
                    0 <= k < shorter.len() && (#[trigger] before[i]).0 == (#[trigger] shorter[k]).0;
                assert(all[i] == before[i]);
                assert(seen[k] == shorter[k]);
            } else {
                assert(all[i].0 == seen[last].0);
            }
        }
        assert forall|i: int, j: int| 0 <= i < j < all.len() implies lex_less(
            (#[trigger] all[i]).0,
            (#[trigger] all[j]).0,
        ) by {
            assert(all[i] == before[i]);
            if j < before.len() {
                assert(all[j] == before[j]);
            } else {
                let k = choose|k: int|
                    0 <= k < shorter.len() && (#[trigger] before[i]).0 == (#[trigger] shorter[k]).0;
                assert(seen[k] == shorter[k]);
                assert(lex_less(seen[k].0, seen[last].0));
            }
        }
    }
}

/// What comes after a cursor in a list that is in order is the rest of the list.
proof fn lemma_after_is_rest<V>(terms: Seq<(Seq<u8>, V)>, cursor: Option<Seq<u8>>, k: int)
    requires
        paths_increase(terms),
        0 <= k <= terms.len(),
        forall|i: int| 0 <= i < k ==> !past(cursor, (#[trigger] terms[i]).0),
        forall|i: int| k <= i < terms.len() ==> past(cursor, (#[trigger] terms[i]).0),
    ensures
        after(terms, cursor) == terms.skip(k),
    decreases terms.len(),
{
    if terms.len() == 0 {
        assert(terms.skip(k) =~= Seq::empty());
    } else {
        let shorter = terms.drop_last();
        let last = terms.len() - 1;
        assert(terms[last] == terms.last());
        assert forall|i: int, j: int| 0 <= i < j < shorter.len() implies lex_less(
            (#[trigger] shorter[i]).0,
            (#[trigger] shorter[j]).0,
        ) by {
            assert(shorter[i] == terms[i] && shorter[j] == terms[j]);
        }
        let m = if k <= last {
            k
        } else {
            last
        };
        assert forall|i: int| 0 <= i < m implies !past(cursor, (#[trigger] shorter[i]).0) by {
            assert(shorter[i] == terms[i]);
        }
        assert forall|i: int| m <= i < shorter.len() implies past(
            cursor,
            (#[trigger] shorter[i]).0,
        ) by {
            assert(shorter[i] == terms[i]);
        }
        lemma_after_is_rest(shorter, cursor, m);
        if k <= last {
            assert(shorter.skip(k).push(terms.last()) =~= terms.skip(k));
        } else {
            assert(shorter.skip(m) =~= Seq::empty());
            assert(terms.skip(k) =~= Seq::empty());
        }
    }
}

/// Reading on from the last term of a batch gives the terms that follow it: two
/// batches together are one batch of both sizes, without gap or repetition.
pub proof fn batches_continue_each_other<V>(
    terms: Seq<(Seq<u8>, V)>,
    cursor: Option<Seq<u8>>,
    first: nat,
    second: nat,
)
    requires
        paths_increase(terms),
        0 < first <= after(terms, cursor).len(),
    ensures
        batch(terms, cursor, first) + batch(
            terms,
            Some(batch(terms, cursor, first).last().0),
            second,
        ) == batch(terms, cursor, first + second),
{
    let k = split_point(terms, cursor, terms.len() as int);
    lemma_split_point(terms, cursor, terms.len() as int);
    lemma_after_is_rest(terms, cursor, k);
    let all = terms.skip(k);
    let head = batch(terms, cursor, first);
    assert(head =~= all.take(first as int));
    let mark = head.last().0;
    let m = k + first;
    assert(head.last() == terms[m - 1]);
    assert forall|i: int| 0 <= i < m implies !past(Some(mark), (#[trigger] terms[i]).0) by {
        if i < m - 1 {
            assert(lex_less(terms[i].0, terms[m - 1].0));
        }
        lex_order_is_total(mark, terms[i].0);
    }
    assert forall|i: int| m <= i < terms.len() implies past(Some(mark), (#[trigger] terms[i]).0) by {
        assert(lex_less(terms[m - 1].0, terms[i].0));
    }
    lemma_after_is_rest(terms, Some(mark), m);
    assert(head + batch(terms, Some(mark), second) =~= batch(terms, cursor, first + second));
}

/// How many of the first `n` terms do not come after a cursor.
spec fn split_point<V>(terms: Seq<(Seq<u8>, V)>, cursor: Option<Seq<u8>>, n: int) -> int
    decreases n,
{
    if n <= 0 || n > terms.len() {
        0
    } else if past(cursor, terms[n - 1].0) {
        split_point(terms, cursor, n - 1)
    } else {
        n
    }
}

/// Terms before the split do not come after the cursor, and those behind it do.
proof fn lemma_split_point<V>(terms: Seq<(Seq<u8>, V)>, cursor: Option<Seq<u8>>, n: int)
    requires
        paths_increase(terms),
        0 <= n <= terms.len(),
    ensures
        0 <= split_point(terms, cursor, n) <= n,
        forall|i: int|
            0 <= i < split_point(terms, cursor, n) ==> !past(cursor, (#[trigger] terms[i]).0),
        forall|i: int|
            split_point(terms, cursor, n) <= i < n ==> past(cursor, (#[trigger] terms[i]).0),
    decreases n,
{
    if n > 0 {
        if past(cursor, terms[n - 1].0) {
            lemma_split_point(terms, cursor, n - 1);
        } else {
            assert forall|i: int| 0 <= i < n implies !past(cursor, (#[trigger] terms[i]).0) by {
                if i < n - 1 && past(cursor, terms[i].0) {
                    lex_order_is_transitive(cursor->0, terms[i].0, terms[n - 1].0);
                }
            }
        }
    }
}

} // verus!
