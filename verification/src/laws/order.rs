//! The order of byte strings, and the maps and sets that are built on it.

use std::cmp::Ordering;
use vstd::prelude::*;
use crate::byte_order::{
    bytes_gt, bytes_le, lex_less, lex_order_is_total, lex_order_is_transitive, simd_cmp_bytes,
};
use crate::number_set::NumberSet;
use crate::path_map::PathMap;

verus! {

/// A byte string comes before another at a position: they agree up to it, and there the
/// first one ends or has the smaller byte.
pub open spec fn before_at(a: Seq<u8>, b: Seq<u8>, at: int) -> bool {
    &&& 0 <= at < b.len()
    &&& at <= a.len()
    &&& forall|i: int| 0 <= i < at ==> #[trigger] a[i] == b[i]
    &&& at == a.len() || a[at] < b[at]
}

/// Two byte strings are equal exactly if they have the same bytes; one is less exactly if
/// at the first position where they differ it ends or has the smaller byte; and whatever
/// is less one way round is greater the other way round.
pub proof fn bytes_are_ordered_by_their_first_difference(
    a: &[u8],
    b: &[u8],
    forward: Ordering,
    backward: Ordering,
    le: bool,
    gt: bool,
)
    requires
        call_ensures(simd_cmp_bytes, (a, b), forward),
        call_ensures(simd_cmp_bytes, (b, a), backward),
        call_ensures(bytes_le, (a, b), le),
        call_ensures(bytes_gt, (a, b), gt),
    ensures
        forward == Ordering::Equal <==> a@ == b@,
        forward == Ordering::Less <==> exists|at: int| before_at(a@, b@, at),
        forward == Ordering::Greater <==> exists|at: int| before_at(b@, a@, at),
        forward == Ordering::Equal <==> backward == Ordering::Equal,
        forward == Ordering::Less <==> backward == Ordering::Greater,
        forward == Ordering::Greater <==> backward == Ordering::Less,
        le <==> forward != Ordering::Greater,
        gt <==> forward == Ordering::Greater,
{
    lex_order_is_total(a@, b@);
    lemma_before_at(a@, b@);
    lemma_before_at(b@, a@);
}

/// The order is transitive.
pub proof fn the_order_of_bytes_is_transitive(a: &[u8], b: &[u8], c: &[u8], ab: bool, bc: bool, ac: bool)
    requires
        call_ensures(bytes_gt, (a, b), ab),
        call_ensures(bytes_gt, (b, c), bc),
        call_ensures(bytes_gt, (a, c), ac),
    ensures
        ab && bc ==> ac,
{
    if ab && bc {
        lex_order_is_transitive(c@, b@, a@);
    }
}

/// The order is decided at one position.
proof fn lemma_before_at(a: Seq<u8>, b: Seq<u8>)
    ensures
        lex_less(a, b) <==> exists|at: int| before_at(a, b, at),
    decreases a.len(),
{
    if a.len() > 0 && b.len() > 0 {
        let x = a.drop_first();
        let y = b.drop_first();
        lemma_before_at(x, y);
        if a[0] < b[0] {
            assert(before_at(a, b, 0));
        } else if a[0] == b[0] {
            if lex_less(x, y) {
                let at = choose|at: int| before_at(x, y, at);
                assert forall|i: int| 0 <= i < at + 1 implies #[trigger] a[i] == b[i] by {
                    if i > 0 {
                        assert(x[i - 1] == y[i - 1]);
                    }
                }
                assert(before_at(a, b, at + 1));
            }
            if exists|at: int| before_at(a, b, at) {
                let at = choose|at: int| before_at(a, b, at);
                assert(at != 0);
                assert forall|i: int| 0 <= i < at - 1 implies #[trigger] x[i] == y[i] by {
                    assert(a[i + 1] == b[i + 1]);
                }
                assert(before_at(x, y, at - 1));
            }
        } else {
            assert forall|at: int| !before_at(a, b, at) by {
                if at > 0 && before_at(a, b, at) {
                    assert(a[0] == b[0]);
                }
            }
        }
    } else if b.len() > 0 {
        assert(before_at(a, b, 0));
    }
}

/// A path that is given a value has it, a path that is removed has none, and every other
/// path has what it had. A map that is made or cleared holds nothing.
pub proof fn a_map_holds_what_was_put<T: Copy>(
    put: &mut PathMap<T>,
    taken: &mut PathMap<T>,
    cleared: &mut PathMap<T>,
    before: PathMap<T>,
    put_after: PathMap<T>,
    taken_after: PathMap<T>,
    cleared_after: PathMap<T>,
    path: &[u8],
    value: T,
    probe: &[u8],
    had: Option<T>,
    fresh: PathMap<T>,
)
    requires
        before.wf(),
        *put == before,
        *taken == before,
        *cleared == before,
        *final(put) == put_after,
        *final(taken) == taken_after,
        *final(cleared) == cleared_after,
        call_ensures(PathMap::<T>::insert, (put, path, value), ()),
        call_ensures(PathMap::<T>::remove, (taken, path), ()),
        call_ensures(PathMap::<T>::clear, (cleared,), ()),
        call_ensures(PathMap::<T>::get, (&before, probe), had),
        call_ensures(PathMap::<T>::new, (), fresh),
    ensures
        forall|r: Option<T>|
            call_ensures(PathMap::<T>::get, (&put_after, probe), r) ==> r == if probe@ == path@ {
                Some(value)
            } else {
                had
            },
        forall|r: Option<T>|
            call_ensures(PathMap::<T>::get, (&taken_after, probe), r) ==> r == if probe@ == path@ {
                None
            } else {
                had
            },
        forall|r: Option<T>|
            call_ensures(PathMap::<T>::get, (&cleared_after, probe), r) ==> r is None,
        forall|r: Option<T>| call_ensures(PathMap::<T>::get, (&fresh, probe), r) ==> r is None,
        forall|r: bool|
            call_ensures(PathMap::<T>::contains, (&before, probe), r) ==> (r <==> had is Some),
        forall|r: bool|
            call_ensures(PathMap::<T>::is_empty, (&before,), r) ==> (r ==> had is None),
        forall|r: bool| call_ensures(PathMap::<T>::is_empty, (&put_after,), r) ==> !r,
        forall|r: bool| call_ensures(PathMap::<T>::is_empty, (&cleared_after,), r) ==> r,
        forall|r: bool| call_ensures(PathMap::<T>::is_empty, (&fresh,), r) ==> r,
{
    assert(put_after@.dom().contains(path@));
}

/// A number that is put is in the set, one that is removed is not, and every other
/// number is there if it was. Two sets are joined, and a copy holds the same. The list
/// of a set holds its numbers, once each, and is as long as the set is large.
pub proof fn a_set_holds_what_was_put(
    put: &mut NumberSet,
    taken: &mut NumberSet,
    joined: &mut NumberSet,
    before: NumberSet,
    put_after: NumberSet,
    taken_after: NumberSet,
    joined_after: NumberSet,
    other: NumberSet,
    copy: NumberSet,
    fresh: NumberSet,
    n: u32,
    probe: u32,
    has: bool,
    other_has: bool,
    list: Vec<u32>,
    len: usize,
)
    requires
        before.wf(),
        other.wf(),
        *put == before,
        *taken == before,
        *joined == before,
        *final(put) == put_after,
        *final(taken) == taken_after,
        *final(joined) == joined_after,
        call_ensures(NumberSet::insert, (put, n), ()),
        call_ensures(NumberSet::remove, (taken, n), ()),
        call_ensures(NumberSet::extend, (joined, &other), ()),
        call_ensures(NumberSet::duplicate, (&before,), copy),
        call_ensures(NumberSet::new, (), fresh),
        call_ensures(NumberSet::contains, (&before, probe), has),
        call_ensures(NumberSet::contains, (&other, probe), other_has),
        call_ensures(NumberSet::to_vec, (&before,), list),
        call_ensures(NumberSet::len, (&before,), len),
    ensures
        forall|r: bool|
            call_ensures(NumberSet::contains, (&put_after, probe), r) ==> (r <==> has || probe
                == n),
        forall|r: bool|
            call_ensures(NumberSet::contains, (&taken_after, probe), r) ==> (r <==> has && probe
                != n),
        forall|r: bool|
            call_ensures(NumberSet::contains, (&joined_after, probe), r) ==> (r <==> has
                || other_has),
        forall|r: bool|
            call_ensures(NumberSet::contains, (&copy, probe), r) ==> (r <==> has),
        forall|r: bool| call_ensures(NumberSet::contains, (&fresh, probe), r) ==> !r,
        list@.no_duplicates(),
        list@.contains(probe) <==> has,
        len == list@.len(),
{
    assert(list@.to_set().contains(probe) <==> list@.contains(probe));
}

} // verus!
