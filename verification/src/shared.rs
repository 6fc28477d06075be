//! The operations of [`std::sync::Arc`] that the overlay needs besides
//! construction and dereference.

use std::sync::Arc;
use vstd::prelude::*;

verus! {

/// `Arc::clone`: another handle to the same allocation, hence to an equal value.
#[verifier::external_body]
pub(crate) fn share<T>(handle: &Arc<T>) -> (r: Arc<T>)
    ensures
        r == *handle,
{
    Arc::clone(handle)
}

/// `Arc::ptr_eq`: whether two handles name one allocation. One allocation holds
/// one value, so a positive answer makes the two values equal; a negative answer
/// says nothing about them.
#[verifier::external_body]
fn same_allocation<T>(a: &Arc<T>, b: &Arc<T>) -> (r: bool)
    ensures
        r ==> *a == *b,
{
    Arc::ptr_eq(a, b)
}

/// Two handles were compared, and this is what came back.
pub closed spec fn told_same<T>(a: Arc<T>, b: Arc<T>, r: bool) -> bool {
    call_ensures(same_allocation::<T>, (&a, &b), r)
}

/// The address of an allocation was asked for, and this is what came back.
pub closed spec fn told_address<T>(handle: Arc<T>, r: u64) -> bool {
    call_ensures(address_of::<T>, (&handle,), r)
}

/// Whether two handles name one allocation, as it was told.
pub fn same_handle<T>(a: &Arc<T>, b: &Arc<T>) -> (r: bool)
    ensures
        told_same(*a, *b, r),
        r ==> *a == *b,
{
    same_allocation(a, b)
}

/// The address of an allocation, as it was told.
pub fn handle_address<T>(handle: &Arc<T>) -> (r: u64)
    ensures
        told_address(*handle, r),
        r != 0,
{
    address_of(handle)
}

/// `Arc::into_inner`: the value itself when this was its last handle.
#[verifier::external_body]
pub(crate) fn unshare<T>(handle: Arc<T>) -> (r: Option<T>)
    ensures
        r matches Some(v) ==> v == *handle,
{
    Arc::into_inner(handle)
}

/// `Arc::as_ptr`: the address of an allocation, which is never zero.
#[verifier::external_body]
fn address_of<T>(handle: &Arc<T>) -> (r: u64)
    ensures
        r != 0,
{
    Arc::as_ptr(handle) as usize as u64
}

} // verus!
