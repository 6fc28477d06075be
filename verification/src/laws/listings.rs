//! Listings of terms by prefix: everything that is found is listed, in order, and reading
//! on from a term gives what follows it.

use std::sync::Arc;
use vstd::prelude::*;
use crate::byte_order::{bytes_gt, lex_less, lex_order_is_total, lex_order_is_transitive};
use crate::cursor_iter::{
    after, batch, entry_views, iter_prefix_from_cursor, overlay_iter_prefix_with_values, past,
    paths_increase, select_from_cursor, term_views, terms_are_in_order, valued_terms,
    PrefixTermWithValueAndArena,
};
use crate::cursor_laws::every_valued_term_is_visited;
use crate::key_encoding::ByteKey;
use crate::laws::tries::finds;
use crate::overlay::model::{at, lemma_at_concat};
use crate::overlay::node::OverlayNode;
use crate::overlay::paths::preorder;
use crate::value::DictionaryValue;

verus! {

/// A list has a term with a value.
pub open spec fn lists<V>(list: Seq<(Vec<u8>, V)>, term: Seq<u8>, value: V) -> bool {
    exists|i: int| 0 <= i < list.len() && (#[trigger] list[i]).0@ == term && list[i].1 == value
}

/// A term with a value is listed under a prefix exactly if it begins with the prefix and
/// is found with that value; terms are listed in their order, each once.
pub proof fn a_listing_holds_what_is_found<V: DictionaryValue>(
    root: Arc<OverlayNode<ByteKey, V>>,
    prefix: &[u8],
    list: Vec<(Vec<u8>, V)>,
    term: &[u8],
    found: Option<Option<V>>,
    value: V,
    i: int,
    j: int,
    x: &[u8],
    y: &[u8],
    greater: bool,
)
    requires
        root.wf(),
        call_ensures(overlay_iter_prefix_with_values::<V>, (&root, prefix), list),
        finds(root, term, found),
        0 <= i < j < list@.len() ==> x@ == list@[i].0@ && y@ == list@[j].0@ && call_ensures(
            bytes_gt,
            (y, x),
            greater,
        ),
    ensures
        lists(list@, term@, value) <==> prefix@.is_prefix_of(term@) && found == Some(Some(value)),
        0 <= i < j < list@.len() ==> greater,
{
    assert(crate::overlay::cas_walk::remaining_key(term@, 0) =~= term@);
    if at(root@, prefix@) is Some {
        let node = choose|node: OverlayNode<ByteKey, V>|
            {
                &&& node.wf()
                &&& Some(node@) == at(root@, prefix@)
                &&& term_views(list@) == valued_terms(#[trigger] preorder(node, prefix@))
            };
        every_valued_term_is_visited(root@, node, prefix@, term@, value);
        terms_are_in_order(node, prefix@);
        let views = term_views(list@);
        if lists(list@, term@, value) {
            let k = choose|k: int|
                0 <= k < list@.len() && (#[trigger] list@[k]).0@ == term@ && list@[k].1 == value;
            assert(views[k] == (term@, value));
        }
        if views.contains((term@, value)) {
            let k = choose|k: int| 0 <= k < views.len() && views[k] == (term@, value);
            assert(list@[k].0@ == term@);
        }
        if 0 <= i < j < list@.len() {
            assert(lex_less(views[i].0, views[j].0));
        }
    } else if prefix@.is_prefix_of(term@) {
        lemma_at_concat(root@, prefix@, term@.skip(prefix@.len() as int));
        assert(prefix@ + term@.skip(prefix@.len() as int) =~= term@);
    }
}

/// A term comes after where a reading left off, if it did.
pub open spec fn comes_after(term: Seq<u8>, cursor: Option<&[u8]>) -> bool {
    cursor matches Some(c) ==> forall|t: &[u8], r: bool|
        t@ == term && #[trigger] call_ensures(bytes_gt, (t, c), r) ==> r
}

/// A part of a listing is what the whole listing holds from some position on: nothing
/// before that position comes after the cursor, everything from it on does, and as many
/// terms are there as were asked for or as are left.
pub proof fn a_part_goes_on_from_its_cursor<V: DictionaryValue>(
    root: Arc<OverlayNode<ByteKey, V>>,
    prefix: &[u8],
    cursor: Option<&[u8]>,
    limit: usize,
    list: Vec<(Vec<u8>, V)>,
    part: Vec<PrefixTermWithValueAndArena<V>>,
)
    requires
        root.wf(),
        call_ensures(overlay_iter_prefix_with_values::<V>, (&root, prefix), list),
        call_ensures(iter_prefix_from_cursor::<V>, (&root, prefix, cursor, limit), part),
    ensures
        exists|k: int| #[trigger] goes_on(list@, cursor, limit, part@, k),
{
    if at(root@, prefix@) is Some {
        let node = choose|node: OverlayNode<ByteKey, V>|
            {
                &&& node.wf()
                &&& Some(node@) == at(root@, prefix@)
                &&& term_views(list@) == valued_terms(#[trigger] preorder(node, prefix@))
            };
        let other = choose|node: OverlayNode<ByteKey, V>|
            {
                &&& node.wf()
                &&& Some(node@) == at(root@, prefix@)
                &&& entry_views(part@) == batch(
                    valued_terms(#[trigger] preorder(node, prefix@)),
                    match cursor {
                        Some(cursor) => Some(cursor@),
                        None => None,
                    },
                    limit as nat,
                )
            };
        lemma_same_listing(root@, node, other, prefix@);
        terms_are_in_order(node, prefix@);
        lemma_part(list@, cursor, limit, part@);
    } else {
        assert(goes_on(list@, cursor, limit, part@, 0));
    }
}

/// A part of a list, from a position on.
pub open spec fn goes_on<V>(
    list: Seq<(Vec<u8>, V)>,
    cursor: Option<&[u8]>,
    limit: usize,
    part: Seq<PrefixTermWithValueAndArena<V>>,
    k: int,
) -> bool {
    &&& 0 <= k <= list.len()
    &&& part.len() == if list.len() - k <= limit {
        list.len() - k
    } else {
        limit as int
    }
    &&& forall|i: int|
        0 <= i < part.len() ==> (#[trigger] part[i]).term@ == list[k + i].0@ && part[i].value
            == list[k + i].1 && part[i].arena_id is None
    &&& k > 0 ==> cursor is Some
    &&& forall|i: int| 0 <= i < k ==> !past(Some(cursor->0@), (#[trigger] list[i]).0@)
    &&& forall|i: int| k <= i < list.len() ==> comes_after((#[trigger] list[i]).0@, cursor)
}

/// Two lists in order that hold the same terms and values are the same list.
proof fn lemma_same_listing<V>(
    root: crate::overlay::node::Tree<u8, V>,
    a: OverlayNode<ByteKey, V>,
    b: OverlayNode<ByteKey, V>,
    prefix: Seq<u8>,
)
    requires
        a.wf(),
        b.wf(),
        at(root, prefix) == Some(a@),
        at(root, prefix) == Some(b@),
    ensures
        valued_terms(preorder(a, prefix)) == valued_terms(preorder(b, prefix)),
{
    let x = valued_terms(preorder(a, prefix));
    let y = valued_terms(preorder(b, prefix));
    terms_are_in_order(a, prefix);
    terms_are_in_order(b, prefix);
    assert forall|e: (Seq<u8>, V)| x.contains(e) == y.contains(e) by {
        every_valued_term_is_visited(root, a, prefix, e.0, e.1);
        every_valued_term_is_visited(root, b, prefix, e.0, e.1);
    }
    lemma_same_in_order(x, y);
}

/// Lists in order with the same entries are the same.
proof fn lemma_same_in_order<V>(x: Seq<(Seq<u8>, V)>, y: Seq<(Seq<u8>, V)>)
    requires
        paths_increase(x),
        paths_increase(y),
        forall|e: (Seq<u8>, V)| x.contains(e) == y.contains(e),
    ensures
        x == y,
    decreases x.len(),
{
    if x.len() == 0 {
        if y.len() > 0 {
            assert(y.contains(y[0]));
            assert(x.contains(y[0]));
        }
        assert(x =~= y);
    } else {
        assert(x.contains(x.last()));
        assert(y.len() > 0);
        let m = x.len() - 1;
        let n = y.len() - 1;
        assert(y.contains(y[n]));
        assert(x.contains(y[n]));
        let i = choose|i: int| 0 <= i < y.len() && y[i] == x[m];
        let j = choose|j: int| 0 <= j < x.len() && x[j] == y[n];
        if i < n {
            assert(lex_less(y[i].0, y[n].0));
            if j < m {
                assert(lex_less(x[j].0, x[m].0));
            }
            lex_order_is_total(x[m].0, y[n].0);
        }
        assert(x.last() == y.last());
        let p = x.drop_last();
        let q = y.drop_last();
        assert forall|a: int, b: int| 0 <= a < b < p.len() implies lex_less(
            (#[trigger] p[a]).0,
            (#[trigger] p[b]).0,
        ) by {
            assert(lex_less(x[a].0, x[b].0));
        }
        assert forall|a: int, b: int| 0 <= a < b < q.len() implies lex_less(
            (#[trigger] q[a]).0,
            (#[trigger] q[b]).0,
        ) by {
            assert(lex_less(y[a].0, y[b].0));
        }
        assert forall|e: (Seq<u8>, V)| p.contains(e) == q.contains(e) by {
            if p.contains(e) {
                let a = choose|a: int| 0 <= a < p.len() && p[a] == e;
                assert(x[a] == e);
                assert(x.contains(e));
                assert(lex_less(x[a].0, x[m].0));
                lex_order_is_total(x[a].0, x[m].0);
                let b = choose|b: int| 0 <= b < y.len() && y[b] == e;
                assert(b < n);
                assert(q[b] == e);
            }
            if q.contains(e) {
                let a = choose|a: int| 0 <= a < q.len() && q[a] == e;
                assert(y[a] == e);
                assert(y.contains(e));
                assert(lex_less(y[a].0, y[n].0));
                lex_order_is_total(y[a].0, y[n].0);
                let b = choose|b: int| 0 <= b < x.len() && x[b] == e;
                assert(b < m);
                assert(p[b] == e);
            }
        }
        lemma_same_in_order(p, q);
        assert(x =~= p.push(x.last()));
        assert(y =~= q.push(y.last()));
    }
}

/// What comes after a cursor in a list in order is its rest from some position on.
proof fn lemma_rest<V>(terms: Seq<(Seq<u8>, V)>, cursor: Option<Seq<u8>>) -> (k: int)
    requires
        paths_increase(terms),
    ensures
        0 <= k <= terms.len(),
        after(terms, cursor) == terms.skip(k),
        forall|i: int| 0 <= i < k ==> !past(cursor, (#[trigger] terms[i]).0),
        forall|i: int| k <= i < terms.len() ==> past(cursor, (#[trigger] terms[i]).0),
    decreases terms.len(),
{
    if terms.len() == 0 {
        assert(after(terms, cursor) =~= terms.skip(0));
        0
    } else {
        let fewer = terms.drop_last();
        let m = terms.len() - 1;
        assert forall|a: int, b: int| 0 <= a < b < fewer.len() implies lex_less(
            (#[trigger] fewer[a]).0,
            (#[trigger] fewer[b]).0,
        ) by {
            assert(lex_less(terms[a].0, terms[b].0));
        }
        let k = lemma_rest(fewer, cursor);
        assert forall|i: int| 0 <= i < m implies terms[i] == #[trigger] fewer[i] by {}
        if past(cursor, terms[m].0) {
            assert(after(terms, cursor) =~= terms.skip(k));
            assert forall|i: int| 0 <= i < k implies !past(cursor, (#[trigger] terms[i]).0) by {
                assert(fewer[i] == terms[i]);
            }
            assert forall|i: int| k <= i < terms.len() implies past(
                cursor,
                (#[trigger] terms[i]).0,
            ) by {
                if i < m {
                    assert(fewer[i] == terms[i]);
                }
            }
            k
        } else {
            assert forall|i: int| 0 <= i < m implies !past(cursor, (#[trigger] terms[i]).0) by {
                if past(cursor, terms[i].0) {
                    lex_order_is_transitive(cursor->0, terms[i].0, terms[m].0);
                }
            }
            if k < m {
                assert(past(cursor, fewer[k].0));
                assert(fewer[k] == terms[k]);
            }
            assert(after(terms, cursor) =~= terms.skip(m + 1));
            m + 1
        }
    }
}

/// A batch is a part of a list in order.
proof fn lemma_part<V>(
    list: Seq<(Vec<u8>, V)>,
    cursor: Option<&[u8]>,
    limit: usize,
    part: Seq<PrefixTermWithValueAndArena<V>>,
)
    requires
        paths_increase(term_views(list)),
        entry_views(part) == batch(
            term_views(list),
            match cursor {
                Some(cursor) => Some(cursor@),
                None => None,
            },
            limit as nat,
        ),
        forall|i: int| 0 <= i < part.len() ==> (#[trigger] part[i]).arena_id is None,
    ensures
        exists|k: int| #[trigger] goes_on(list, cursor, limit, part, k),
{
    let mark = match cursor {
        Some(cursor) => Some(cursor@),
        None => None,
    };
    let views = term_views(list);
    let k = lemma_rest(views, mark);
    assert(entry_views(part).len() == part.len());
    assert(views.len() == list.len());
    assert(views.skip(k).len() == list.len() - k);
    assert(part.len() == if list.len() - k <= limit {
        list.len() - k
    } else {
        limit as int
    });
    assert forall|i: int| 0 <= i < part.len() implies (#[trigger] part[i]).term@ == list[k + i].0@
        && part[i].value == list[k + i].1 && part[i].arena_id is None by {
        assert(entry_views(part)[i] == views[k + i]);
        assert(views[k + i] == (list[k + i].0@, list[k + i].1));
    }
    if k > 0 {
        assert(!past(mark, views[0].0));
    }
    assert forall|i: int| 0 <= i < k implies !past(
        Some(cursor->0@),
        (#[trigger] list[i]).0@,
    ) by {
        assert(!past(mark, views[i].0));
    }
    assert forall|i: int| k <= i < list.len() implies comes_after(
        (#[trigger] list[i]).0@,
        cursor,
    ) by {
        assert(past(mark, views[i].0));
        if let Some(c) = cursor {
            lex_order_is_total(c@, list[i].0@);
        }
    }
    assert(goes_on(list, cursor, limit, part, k));
}

/// Terms are selected from any list in its order: with room for all of them, exactly
/// those that come after the cursor; with less, the first of these.
pub proof fn a_selection_takes_what_comes_after<V: DictionaryValue>(
    terms: Vec<(Vec<u8>, V)>,
    cursor: Option<&[u8]>,
    limit: usize,
    room: usize,
    some: Vec<PrefixTermWithValueAndArena<V>>,
    all: Vec<PrefixTermWithValueAndArena<V>>,
    i: int,
)
    requires
        room >= terms@.len(),
        call_ensures(select_from_cursor::<V>, (terms, cursor, limit), some),
        call_ensures(select_from_cursor::<V>, (terms, cursor, room), all),
    ensures
        some@.len() == if all@.len() <= limit {
            all@.len() as int
        } else {
            limit as int
        },
        0 <= i < some@.len() ==> some@[i].term@ == all@[i].term@ && some@[i].value == all@[i].value,
        0 <= i < all@.len() ==> comes_after(all@[i].term@, cursor) && exists|k: int|
            0 <= k < terms@.len() && (#[trigger] terms@[k]).0@ == all@[i].term@ && terms@[k].1
                == all@[i].value,
        0 <= i < terms@.len() && (cursor matches Some(c) ==> past(Some(c@), terms@[i].0@))
            ==> exists|k: int|
            0 <= k < all@.len() && (#[trigger] all@[k]).term@ == terms@[i].0@ && all@[k].value
                == terms@[i].1,
        cursor is None ==> all@.len() == terms@.len(),
{
    let mark = match cursor {
        Some(cursor) => Some(cursor@),
        None => None,
    };
    let views = term_views(terms@);
    lemma_after(views, mark, i);
    let kept = after(views, mark);
    assert(entry_views(all@).len() == all@.len());
    assert(entry_views(some@).len() == some@.len());
    assert(entry_views(all@) == kept);
    if 0 <= i < some@.len() {
        assert(entry_views(some@)[i] == kept[i]);
        assert(entry_views(all@)[i] == kept[i]);
    }
    if 0 <= i < all@.len() {
        assert(entry_views(all@)[i] == kept[i]);
        let k = choose|k: int|
            0 <= k < views.len() && #[trigger] views[k] == kept[i] && past(mark, views[k].0);
        assert(terms@[k].0@ == all@[i].term@);
        if let Some(c) = cursor {
            lex_order_is_total(c@, all@[i].term@);
        }
    }
    if 0 <= i < terms@.len() && past(mark, views[i].0) {
        let k = choose|k: int| 0 <= k < kept.len() && #[trigger] kept[k] == views[i];
        assert(entry_views(all@)[k] == kept[k]);
        assert(all@[k].term@ == terms@[i].0@);
    }
}

/// What is kept of a list.
proof fn lemma_after<V>(terms: Seq<(Seq<u8>, V)>, mark: Option<Seq<u8>>, i: int)
    ensures
        after(terms, mark).len() <= terms.len(),
        mark is None ==> after(terms, mark) == terms,
        0 <= i < after(terms, mark).len() ==> exists|k: int|
            0 <= k < terms.len() && #[trigger] terms[k] == after(terms, mark)[i] && past(
                mark,
                terms[k].0,
            ),
        0 <= i < terms.len() && past(mark, terms[i].0) ==> exists|k: int|
            0 <= k < after(terms, mark).len() && #[trigger] after(terms, mark)[k] == terms[i],
    decreases terms.len(),
{
    if terms.len() == 0 {
        assert(after(terms, mark) =~= terms);
    } else {
        let fewer = terms.drop_last();
        let m = terms.len() - 1;
        lemma_after(fewer, mark, i);
        let before = after(fewer, mark);
        let kept = after(terms, mark);
        if mark is None {
            assert(kept =~= terms);
        }
        if 0 <= i < before.len() {
            let k = choose|k: int|
                0 <= k < fewer.len() && #[trigger] fewer[k] == before[i] && past(mark, fewer[k].0);
            assert(terms[k] == fewer[k]);
            assert(kept[i] == before[i]);
        } else if 0 <= i < kept.len() {
            assert(kept[i] == terms[m]);
        }
        if 0 <= i < m && past(mark, terms[i].0) {
            assert(fewer[i] == terms[i]);
            let k = choose|k: int| 0 <= k < before.len() && #[trigger] before[k] == fewer[i];
            assert(kept[k] == before[k]);
        } else if i == m && past(mark, terms[m].0) {
            assert(kept[before.len() as int] == terms[m]);
        }
    }
}

} // verus!
