//! Which stamps a serialization leaves: each record that was written has one, and a
//! stamped node may keep its record.

use vstd::prelude::*;
use crate::key_encoding::KeyEncoding;
use crate::swizzled_ptr::SwizzledPtr;
use super::atomic_ptr::DeferredDurableStamp;
use super::node::OverlayNode;
use super::serialize_model::{grows, Store};

verus! {

/// The stamps from `first` on name the records that `base` lacks, each once.
#[verifier::opaque]
pub open spec fn stamps_match<K: KeyEncoding, V>(
    base: Store<K::Unit, V>,
    first: int,
    store: Store<K::Unit, V>,
    stamps: Seq<DeferredDurableStamp<K, V>>,
) -> bool {
    &&& first <= stamps.len()
    &&& forall|i: int|
        first <= i < stamps.len() ==> {
            let ptr = SwizzledPtr { raw: (#[trigger] stamps[i]).raw };
            store.dom().contains(ptr) && !base.dom().contains(ptr)
        }
    &&& forall|ptr: SwizzledPtr| #[trigger]
        store.dom().contains(ptr) && !base.dom().contains(ptr) ==> exists|i: int|
            first <= i < stamps.len() && (#[trigger] stamps[i]).raw == ptr.raw
    &&& forall|i: int, j: int|
        first <= i < j < stamps.len() ==> (#[trigger] stamps[i]).raw != (#[trigger] stamps[j]).raw
}

/// What a serialization does to the stamps: nothing, unless they count.
pub open spec fn stamps_kept<K: KeyEncoding, V>(
    reuse: bool,
    base: Store<K::Unit, V>,
    first: Seq<DeferredDurableStamp<K, V>>,
    store: Store<K::Unit, V>,
    stamps: Seq<DeferredDurableStamp<K, V>>,
) -> bool {
    if reuse {
        stamps_match(base, first.len() as int, store, stamps)
    } else {
        stamps == first
    }
}

/// Nothing is written yet.
pub proof fn lemma_stamps_start<K: KeyEncoding, V>(
    reuse: bool,
    base: Store<K::Unit, V>,
    first: Seq<DeferredDurableStamp<K, V>>,
)
    ensures
        stamps_kept(reuse, base, first, base, first),
{
    reveal(stamps_match);
}

/// A record is written and stamped.
pub proof fn lemma_stamps_written<K: KeyEncoding, V>(
    base: Store<K::Unit, V>,
    first: Seq<DeferredDurableStamp<K, V>>,
    before: Store<K::Unit, V>,
    stamps: Seq<DeferredDurableStamp<K, V>>,
    after: Store<K::Unit, V>,
    ptr: SwizzledPtr,
    stamp: DeferredDurableStamp<K, V>,
)
    requires
        stamps_kept(true, base, first, before, stamps),
        grows(base, before),
        !before.dom().contains(ptr),
        after.dom() == before.dom().insert(ptr),
        stamp.raw == ptr.raw,
    ensures
        stamps_kept(true, base, first, after, stamps.push(stamp)),
{
    reveal(stamps_match);
    reveal(grows);
    let longer = stamps.push(stamp);
    let n = first.len() as int;
    assert forall|i: int| n <= i < longer.len() implies {
        let p = SwizzledPtr { raw: (#[trigger] longer[i]).raw };
        after.dom().contains(p) && !base.dom().contains(p)
    } by {
        if i < stamps.len() {
            assert(longer[i] == stamps[i]);
        } else {
            assert(SwizzledPtr { raw: longer[i].raw } == ptr);
        }
    }
    assert forall|p: SwizzledPtr| #[trigger]
        after.dom().contains(p) && !base.dom().contains(p) implies exists|i: int|
        n <= i < longer.len() && (#[trigger] longer[i]).raw == p.raw by {
        if p == ptr {
            assert(longer[stamps.len() as int].raw == p.raw);
        } else {
            assert(before.dom().contains(p));
            let i = choose|i: int| n <= i < stamps.len() && (#[trigger] stamps[i]).raw == p.raw;
            assert(longer[i] == stamps[i]);
        }
    }
    assert forall|i: int, j: int| n <= i < j < longer.len() implies (#[trigger] longer[i]).raw != (
    #[trigger] longer[j]).raw by {
        assert(longer[i] == stamps[i]);
        if j < stamps.len() {
            assert(longer[j] == stamps[j]);
        } else {
            assert(before.dom().contains(SwizzledPtr { raw: stamps[i].raw }));
        }
    }
}

/// A stamped node that keeps the record of its stamp.
pub open spec fn kept<K: KeyEncoding, V>(
    node: OverlayNode<K, V>,
    ptr: SwizzledPtr,
    reuse: bool,
) -> bool {
    reuse && node.stamp != 0 && ptr.raw == node.stamp
}

} // verus!
