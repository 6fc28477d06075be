//! Short lists of indices, held in place while they have one element.

use smallvec::{CollectionAllocErr, SmallVec};
use vstd::prelude::*;

verus! {

/// Indices in order, held in a `smallvec::SmallVec` with room for one in place.
#[verifier::external_body]
pub struct InlineIndices {
    inner: SmallVec<[usize; 1]>,
}

/// The indices that a list holds.
pub uninterp spec fn inline_indices(list: InlineIndices) -> Seq<usize>;

/// `SmallVec::new`: a list without indices.
#[verifier::external_body]
fn smallvec_new() -> (r: InlineIndices)
    ensures
        inline_indices(r) == Seq::<usize>::empty(),
{
    InlineIndices { inner: SmallVec::new() }
}

/// `SmallVec::clear`: removes every index.
#[verifier::external_body]
fn smallvec_clear(list: &mut InlineIndices)
    ensures
        inline_indices(*final(list)) == Seq::<usize>::empty(),
{
    list.inner.clear();
}

/// `SmallVec::push`: appends an index.
#[verifier::external_body]
fn smallvec_push(list: &mut InlineIndices, index: usize)
    ensures
        inline_indices(*final(list)) == inline_indices(*old(list)).push(index),
{
    list.inner.push(index);
}

/// `SmallVec::len`: the number of indices.
#[verifier::external_body]
fn smallvec_len(list: &InlineIndices) -> (r: usize)
    ensures
        r == inline_indices(*list).len(),
{
    list.inner.len()
}

/// `SmallVec::get`, through the slice that it dereferences to: the index at a
/// position.
#[verifier::external_body]
fn smallvec_get(list: &InlineIndices, position: usize) -> (r: usize)
    requires
        position < inline_indices(*list).len(),
    ensures
        r == inline_indices(*list)[position as int],
{
    list.inner[position]
}

/// `SmallVec::try_reserve_exact`: makes room for more indices, or says why there is
/// none. The indices stay. What fits in place always has room.
#[verifier::external_body]
fn smallvec_try_reserve_exact(list: &mut InlineIndices, additional: usize) -> (r: Result<
    (),
    CollectionAllocErr,
>)
    ensures
        inline_indices(*final(list)) == inline_indices(*old(list)),
        inline_indices(*old(list)).len() + additional <= 1 ==> r is Ok,
{
    list.inner.try_reserve_exact(additional)
}

/// `SmallVec::try_reserve`: makes room for more indices, perhaps for some beyond
/// those, or says why there is none. The indices stay. What fits in place always has
/// room.
#[verifier::external_body]
fn smallvec_try_reserve(list: &mut InlineIndices, additional: usize) -> (r: Result<
    (),
    CollectionAllocErr,
>)
    ensures
        inline_indices(*final(list)) == inline_indices(*old(list)),
        inline_indices(*old(list)).len() + additional <= 1 ==> r is Ok,
{
    list.inner.try_reserve(additional)
}

/// The candidates that one eviction replaced, in the order of their replacement.
pub type SuccessfulCandidateIndices = InlineIndices;

impl View for InlineIndices {
    type V = Seq<usize>;

    open spec fn view(&self) -> Seq<usize> {
        inline_indices(*self)
    }
}

impl InlineIndices {
    /// A list without indices.
    pub fn new() -> (r: Self)
        ensures
            r@ == Seq::<usize>::empty(),
    {
        smallvec_new()
    }

    /// Removes every index.
    pub fn clear(&mut self)
        ensures
            final(self)@ == Seq::<usize>::empty(),
    {
        smallvec_clear(self);
    }

    /// Appends an index.
    pub fn push(&mut self, index: usize)
        ensures
            final(self)@ == old(self)@.push(index),
    {
        smallvec_push(self, index);
    }

    /// Makes room for more indices.
    pub fn try_reserve_exact(&mut self, additional: usize) -> (r: Result<(), CollectionAllocErr>)
        ensures
            final(self)@ == old(self)@,
            old(self)@.len() + additional <= 1 ==> r is Ok,
    {
        smallvec_try_reserve_exact(self, additional)
    }

    /// A list without indices that has room for some, or why there is no room.
    pub fn with_room(count: usize) -> (r: Result<Self, CollectionAllocErr>)
        ensures
            match r {
                Ok(list) => list@ == Seq::<usize>::empty(),
                Err(_) => count > 1,
            },
    {
        let mut list = smallvec_new();
        match smallvec_try_reserve(&mut list, count) {
            Ok(()) => Ok(list),
            Err(source) => Err(source),
        }
    }

    /// The number of indices.
    pub fn len(&self) -> (r: usize)
        ensures
            r == self@.len(),
    {
        smallvec_len(self)
    }

    /// Whether there is no index.
    pub fn is_empty(&self) -> (r: bool)
        ensures
            r == (self@.len() == 0),
    {
        smallvec_len(self) == 0
    }

    /// The index at a position.
    pub fn get(&self, position: usize) -> (r: Option<usize>)
        ensures
            r == (if position < self@.len() {
                Some(self@[position as int])
            } else {
                None
            }),
    {
        if position < smallvec_len(self) {
            Some(smallvec_get(self, position))
        } else {
            None
        }
    }
}

} // verus!
