//! Text that is put together from parts.

use vstd::prelude::*;
use vstd::string::StringExecFns;

verus! {

/// One text after the other.
pub(crate) fn join(first: &str, second: &str) -> (r: String)
    ensures
        r@ == first@ + second@,
{
    let mut r: String = first.to_owned();
    r.append(second);
    r
}

/// The decimal digits of a number.
pub open spec fn decimal(n: nat) -> Seq<char>
    decreases n,
{
    if n < 10 {
        seq![(48 + n) as char]
    } else {
        decimal(n / 10).push((48 + n % 10) as char)
    }
}

/// `u64::to_string`: the decimal digits of a number.
#[verifier::external_body]
pub(crate) fn number(n: u64) -> (r: String)
    ensures
        r@ == decimal(n as nat),
{
    n.to_string()
}

} // verus!
