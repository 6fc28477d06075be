//! Values that a trie can hold.

use std::sync::Arc;
use vstd::prelude::*;
use crate::shared::share;

verus! {

/// A value that path-copying can duplicate without changing it.
///
/// Any type can be stored behind an [`Arc`], whose duplicate is another handle.
pub trait DictionaryValue: Sized {
    /// An equal copy of the value.
    fn duplicate(&self) -> (r: Self)
        ensures
            r == *self,
    ;
}

impl DictionaryValue for () {
    fn duplicate(&self) -> (r: Self) {
        ()
    }
}

impl DictionaryValue for bool {
    fn duplicate(&self) -> (r: Self) {
        *self
    }
}

impl DictionaryValue for u32 {
    fn duplicate(&self) -> (r: Self) {
        *self
    }
}

impl DictionaryValue for u64 {
    fn duplicate(&self) -> (r: Self) {
        *self
    }
}

impl DictionaryValue for i32 {
    fn duplicate(&self) -> (r: Self) {
        *self
    }
}

impl DictionaryValue for i64 {
    fn duplicate(&self) -> (r: Self) {
        *self
    }
}

impl<T> DictionaryValue for Arc<T> {
    fn duplicate(&self) -> (r: Self) {
        share(self)
    }
}

/// An equal copy of an optional value.
pub fn duplicate_option<V: DictionaryValue>(value: &Option<V>) -> (r: Option<V>)
    ensures
        r == *value,
{
    match value {
        Some(v) => Some(v.duplicate()),
        None => None,
    }
}

} // verus!
