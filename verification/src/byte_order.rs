//! The lexicographic order of byte strings.

use std::cmp::Ordering;
use vstd::prelude::*;

verus! {

/// A byte string comes before another: it is a proper part of it from the front, or
/// has the smaller byte where they first differ.
pub open spec fn lex_less(a: Seq<u8>, b: Seq<u8>) -> bool
    decreases a.len(),
{
    if b.len() == 0 {
        false
    } else if a.len() == 0 {
        true
    } else {
        a[0] < b[0] || (a[0] == b[0] && lex_less(a.drop_first(), b.drop_first()))
    }
}

/// Where two byte strings first differ, or one of them ends.
pub open spec fn first_difference(a: Seq<u8>, b: Seq<u8>, at: int) -> bool {
    &&& 0 <= at <= a.len()
    &&& at <= b.len()
    &&& forall|i: int| 0 <= i < at ==> #[trigger] a[i] == b[i]
    &&& at < a.len() && at < b.len() ==> a[at] != b[at]
}

/// The first difference decides.
proof fn lemma_first_difference(a: Seq<u8>, b: Seq<u8>, at: int)
    requires
        first_difference(a, b, at),
    ensures
        lex_less(a, b) == (at < b.len() && (at == a.len() || a[at] < b[at])),
        (a == b) == (at == a.len() && at == b.len()),
    decreases at,
{
    if at > 0 {
        let x = a.drop_first();
        let y = b.drop_first();
        assert(a[0] == b[0]);
        assert forall|i: int| 0 <= i < at - 1 implies #[trigger] x[i] == y[i] by {
            assert(a[i + 1] == b[i + 1]);
        }
        lemma_first_difference(x, y, at - 1);
        assert(a =~= seq![a[0]] + x);
        assert(b =~= seq![b[0]] + y);
    } else if a.len() == 0 && b.len() == 0 {
        assert(a =~= b);
    }
}

/// Where two byte strings first differ, or one of them ends. Sixteen bytes are
/// looked at together.
fn difference(a: &[u8], b: &[u8]) -> (r: usize)
    ensures
        first_difference(a@, b@, r as int),
        lex_less(a@, b@) == (r < b@.len() && (r == a@.len() || a@[r as int] < b@[r as int])),
        (a@ == b@) == (r == a@.len() && r == b@.len()),
{
    let shorter: usize = if a.len() < b.len() {
        a.len()
    } else {
        b.len()
    };
    let mut offset: usize = 0;
    while shorter - offset >= 16 && same_block(a, b, offset)
        invariant
            offset <= shorter,
            shorter <= a@.len(),
            shorter <= b@.len(),
            forall|i: int| 0 <= i < offset ==> #[trigger] a@[i] == b@[i],
        decreases shorter - offset,
    {
        offset += 16;
    }
    while offset < shorter && a[offset] == b[offset]
        invariant
            offset <= shorter,
            shorter <= a@.len(),
            shorter <= b@.len(),
            forall|i: int| 0 <= i < offset ==> #[trigger] a@[i] == b@[i],
        decreases shorter - offset,
    {
        offset += 1;
    }
    proof {
        lemma_first_difference(a@, b@, offset as int);
    }
    offset
}

/// Whether sixteen bytes agree.
fn same_block(a: &[u8], b: &[u8], offset: usize) -> (r: bool)
    requires
        offset + 16 <= a@.len(),
        offset + 16 <= b@.len(),
    ensures
        r == (forall|i: int| offset <= i < offset + 16 ==> #[trigger] a@[i] == b@[i]),
{
    let size: usize = a.len();
    let mut i: usize = 0;
    while i < 16
        invariant
            i <= 16,
            size == a@.len(),
            offset + 16 <= size,
            offset + 16 <= b@.len(),
            forall|k: int| offset <= k < offset + i ==> #[trigger] a@[k] == b@[k],
        decreases 16 - i,
    {
        if a[offset + i] != b[offset + i] {
            assert(a@[offset + i] != b@[offset + i]);
            return false;
        }
        i += 1;
    }
    true
}

/// How two byte strings compare.
pub fn simd_cmp_bytes(a: &[u8], b: &[u8]) -> (r: Ordering)
    ensures
        r == (if a@ == b@ {
            Ordering::Equal
        } else if lex_less(a@, b@) {
            Ordering::Less
        } else {
            Ordering::Greater
        }),
{
    let offset: usize = difference(a, b);
    if offset == a.len() {
        if offset == b.len() {
            Ordering::Equal
        } else {
            Ordering::Less
        }
    } else if offset == b.len() {
        Ordering::Greater
    } else if a[offset] < b[offset] {
        Ordering::Less
    } else {
        Ordering::Greater
    }
}

/// Whether a byte string is equal to another or comes before it.
pub fn bytes_le(a: &[u8], b: &[u8]) -> (r: bool)
    ensures
        r == (a@ == b@ || lex_less(a@, b@)),
{
    match simd_cmp_bytes(a, b) {
        Ordering::Less => true,
        Ordering::Equal => true,
        Ordering::Greater => false,
    }
}

/// Whether a byte string comes after another.
pub fn bytes_gt(a: &[u8], b: &[u8]) -> (r: bool)
    ensures
        r == !(a@ == b@ || lex_less(a@, b@)),
        r == lex_less(b@, a@),
{
    proof {
        lex_order_is_total(a@, b@);
    }
    match simd_cmp_bytes(a, b) {
        Ordering::Less => false,
        Ordering::Equal => false,
        Ordering::Greater => true,
    }
}

/// Of two byte strings exactly one holds: the first comes before the second, they
/// are equal, or the second comes before the first.
pub proof fn lex_order_is_total(a: Seq<u8>, b: Seq<u8>)
    ensures
        lex_less(a, b) || a == b || lex_less(b, a),
        !(lex_less(a, b) && a == b),
        !(lex_less(a, b) && lex_less(b, a)),
        !(a == b && lex_less(b, a)),
    decreases a.len(),
{
    if a.len() > 0 && b.len() > 0 {
        let x = a.drop_first();
        let y = b.drop_first();
        lex_order_is_total(x, y);
        assert(a =~= seq![a[0]] + x);
        assert(b =~= seq![b[0]] + y);
    } else if a.len() == 0 && b.len() == 0 {
        assert(a =~= b);
    }
}

/// What comes before something that comes before a third comes before the third.
pub proof fn lex_order_is_transitive(a: Seq<u8>, b: Seq<u8>, c: Seq<u8>)
    requires
        lex_less(a, b),
        lex_less(b, c),
    ensures
        lex_less(a, c),
    decreases a.len(),
{
    if a.len() > 0 && b.len() > 0 && c.len() > 0 {
        if a[0] == b[0] && b[0] == c[0] {
            lex_order_is_transitive(a.drop_first(), b.drop_first(), c.drop_first());
        }
    }
}

} // verus!
