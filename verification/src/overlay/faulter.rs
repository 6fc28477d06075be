//! Loading durable children back into memory.

use std::sync::Arc;
use vstd::prelude::*;
use crate::error::{PersistentARTrieError, TrieResult};
use crate::key_encoding::KeyEncoding;
use crate::shared::share;
use crate::swizzled_ptr::SwizzledPtr;
use super::model::Records;
use super::node::{OverlayNode, Tree};

verus! {

/// A store that loads durable children. A durable record never changes, so each
/// successful load of one pointer yields the same node; a load may fail.
pub trait OverlayFaulter<K: KeyEncoding, V>: Sized {
    /// What the durable records decode to. A store that does not say decodes them to
    /// some trees.
    open spec fn records(&self) -> Records<K::Unit, V> {
        arbitrary()
    }

    /// Loads the record that a pointer names, or says why it could not.
    fn try_fault_overlay_slot(&self, slot: &SwizzledPtr) -> (r: TrieResult<
        Arc<OverlayNode<K, V>>,
    >)
        ensures
            r matches Ok(node) ==> node.wf() && node@ == (self.records())(*slot),
    ;

    /// Loads the record that a pointer names: what [`Self::try_fault_overlay_slot`]
    /// gives, without the reason of a failure.
    fn fault_overlay_slot(&self, slot: &SwizzledPtr) -> (r: Option<Arc<OverlayNode<K, V>>>)
        ensures
            r matches Some(node) ==> node.wf() && node@ == (self.records())(*slot),
            exists|outcome: TrieResult<Arc<OverlayNode<K, V>>>|
                #[trigger] call_ensures(Self::try_fault_overlay_slot, (self, slot), outcome) && r
                    == match outcome {
                    Ok(node) => Some(node),
                    Err(_) => None,
                },
    {
        let outcome = self.try_fault_overlay_slot(slot);
        assert(call_ensures(Self::try_fault_overlay_slot, (self, slot), outcome));
        loaded(outcome)
    }
}

/// What came of a load, without the reason of a failure.
pub fn loaded<K: KeyEncoding, V>(outcome: TrieResult<Arc<OverlayNode<K, V>>>) -> (r: Option<
    Arc<OverlayNode<K, V>>,
>)
    ensures
        r == match outcome {
            Ok(node) => Some(node),
            Err(_) => None,
        },
{
    match outcome {
        Ok(node) => Some(node),
        Err(_) => None,
    }
}

/// Records held in memory.
pub struct MemoryRecords<K: KeyEncoding, V> {
    entries: Vec<(SwizzledPtr, Arc<OverlayNode<K, V>>)>,
}

/// The first record of a pointer.
spec fn first_record<K: KeyEncoding, V>(
    entries: Seq<(SwizzledPtr, Arc<OverlayNode<K, V>>)>,
    ptr: SwizzledPtr,
) -> Option<Arc<OverlayNode<K, V>>>
    decreases entries.len(),
{
    if entries.len() == 0 {
        None
    } else if entries[0].0 == ptr {
        Some(entries[0].1)
    } else {
        first_record(entries.drop_first(), ptr)
    }
}

/// Every record is a well-formed node.
#[verifier::type_invariant]
spec fn records_wf<K: KeyEncoding, V>(records: MemoryRecords<K, V>) -> bool {
    forall|i: int| 0 <= i < records.entries@.len() ==> (#[trigger] records.entries@[i]).1.wf()
}

impl<K: KeyEncoding, V> MemoryRecords<K, V> {
    /// The record of a pointer, if there is one.
    pub closed spec fn record(self, ptr: SwizzledPtr) -> Option<Tree<K::Unit, V>> {
        match first_record(self.entries@, ptr) {
            Some(node) => Some(node@),
            None => None,
        }
    }

    /// No records.
    pub fn new() -> (r: Self)
        ensures
            forall|ptr: SwizzledPtr| (#[trigger] r.record(ptr)) is None,
    {
        MemoryRecords { entries: Vec::new() }
    }

    /// The records with one more, unless the pointer has one already.
    pub fn with_record(self, ptr: SwizzledPtr, node: Arc<OverlayNode<K, V>>) -> (r: Self)
        requires
            node.wf(),
        ensures
            forall|p: SwizzledPtr| #[trigger]
                r.record(p) == (if p == ptr && self.record(p) is None {
                    Some(node@)
                } else {
                    self.record(p)
                }),
    {
        proof {
            use_type_invariant(&self);
        }
        let mut entries = self.entries;
        let ghost before = entries@;
        entries.push((ptr, node));
        proof {
            assert forall|p: SwizzledPtr| #[trigger] first_record(entries@, p) == (if p == ptr
                && first_record(before, p) is None {
                Some(node)
            } else {
                first_record(before, p)
            }) by {
                lemma_first_record_push(before, (ptr, node), p);
            }
            assert forall|i: int| 0 <= i < entries@.len() implies (#[trigger] entries@[i]).1.wf() by {
                if i < before.len() {
                    assert(entries@[i] == before[i]);
                }
            }
        }
        MemoryRecords { entries }
    }
}

/// A later entry matters only where there was none.
proof fn lemma_first_record_push<K: KeyEncoding, V>(
    entries: Seq<(SwizzledPtr, Arc<OverlayNode<K, V>>)>,
    entry: (SwizzledPtr, Arc<OverlayNode<K, V>>),
    ptr: SwizzledPtr,
)
    ensures
        first_record(entries.push(entry), ptr) == (if ptr == entry.0 && first_record(entries, ptr)
            is None {
            Some(entry.1)
        } else {
            first_record(entries, ptr)
        }),
    decreases entries.len(),
{
    reveal_with_fuel(first_record, 2);
    if entries.len() > 0 {
        assert(entries.push(entry).drop_first() =~= entries.drop_first().push(entry));
        lemma_first_record_push(entries.drop_first(), entry, ptr);
    } else {
        assert(entries.push(entry).drop_first() =~= entries);
    }
}

/// A record that the first `i` entries do not hold is among the rest.
proof fn lemma_first_record_skip<K: KeyEncoding, V>(
    entries: Seq<(SwizzledPtr, Arc<OverlayNode<K, V>>)>,
    ptr: SwizzledPtr,
    i: int,
)
    requires
        0 <= i <= entries.len(),
        forall|k: int| 0 <= k < i ==> (#[trigger] entries[k]).0 != ptr,
    ensures
        first_record(entries, ptr) == first_record(entries.skip(i), ptr),
    decreases i,
{
    if i > 0 {
        assert(entries[0].0 != ptr);
        let rest = entries.drop_first();
        assert forall|k: int| 0 <= k < i - 1 implies (#[trigger] rest[k]).0 != ptr by {
            assert(rest[k] == entries[k + 1]);
        }
        lemma_first_record_skip(rest, ptr, i - 1);
        assert(rest.skip(i - 1) =~= entries.skip(i));
    } else {
        assert(entries.skip(0) =~= entries);
    }
}

impl<K: KeyEncoding, V> OverlayFaulter<K, V> for MemoryRecords<K, V> {
    open spec fn records(&self) -> Records<K::Unit, V> {
        |ptr: SwizzledPtr|
            match self.record(ptr) {
                Some(tree) => tree,
                None => Tree::empty(),
            }
    }

    fn try_fault_overlay_slot(&self, slot: &SwizzledPtr) -> (r: TrieResult<
        Arc<OverlayNode<K, V>>,
    >)
        ensures
            r is Ok == self.record(*slot) is Some,
    {
        proof {
            use_type_invariant(self);
        }
        let mut i: usize = 0;
        while i < self.entries.len()
            invariant
                records_wf(*self),
                i <= self.entries@.len(),
                forall|k: int| 0 <= k < i ==> (#[trigger] self.entries@[k]).0 != *slot,
            decreases self.entries@.len() - i,
        {
            let entry = &self.entries[i];
            if entry.0.to_raw() == slot.to_raw() {
                proof {
                    lemma_first_record_skip(self.entries@, *slot, i as int);
                    assert(self.entries@.skip(i as int)[0] == self.entries@[i as int]);
                }
                return Ok(share(&entry.1));
            }
            i += 1;
        }
        proof {
            lemma_first_record_skip(self.entries@, *slot, i as int);
        }
        Err(PersistentARTrieError::corrupted("no record for this pointer"))
    }
}

} // verus!
