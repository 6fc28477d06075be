//! Key units: what one edge of a trie is labelled with.

use vstd::prelude::*;

verus! {

/// A key encoding: the unit type of the edges, its order, and the number of
/// units that one on-disk record can carry as a compressed prefix.
pub trait KeyEncoding: Sized {
    /// The label of one edge.
    type Unit: Copy;

    /// What callers spell keys with.
    type Token: Copy;

    /// The position of a unit in the edge order.
    spec fn rank(unit: Self::Unit) -> u64;

    /// The longest compressed prefix of one on-disk record.
    spec fn max_prefix_len() -> nat;

    /// The label that a token stands for.
    spec fn token_unit(token: Self::Token) -> Self::Unit;

    /// Distinct tokens stand for distinct labels.
    proof fn token_injective(a: Self::Token, b: Self::Token)
        requires
            Self::token_unit(a) == Self::token_unit(b),
        ensures
            a == b,
    ;

    /// The label that a token stands for.
    fn token_to_unit(token: Self::Token) -> (r: Self::Unit)
        ensures
            r == Self::token_unit(token),
    ;

    /// The token that stands for a label, if there is one.
    fn unit_to_token(unit: Self::Unit) -> (r: Option<Self::Token>)
        ensures
            match r {
                Some(token) => Self::token_unit(token) == unit,
                None => forall|other: Self::Token| #[trigger] Self::token_unit(other) != unit,
            },
    ;

    /// Distinct units have distinct positions.
    proof fn rank_injective(a: Self::Unit, b: Self::Unit)
        requires
            Self::rank(a) == Self::rank(b),
        ensures
            a == b,
    ;

    /// The position of a unit, as a machine word.
    fn unit_rank(unit: Self::Unit) -> (r: u64)
        ensures
            r == Self::rank(unit),
    ;

    /// The longest compressed prefix of one on-disk record.
    fn prefix_limit() -> (r: usize)
        ensures
            r == Self::max_prefix_len(),
    ;
}

/// Byte keys.
pub struct ByteKey;

/// Keys made of Unicode code points.
pub struct CharKey;

/// Keys made of 64-bit tokens.
pub struct U64Key;

impl KeyEncoding for ByteKey {
    type Unit = u8;

    type Token = u8;

    open spec fn token_unit(token: u8) -> u8 {
        token
    }

    proof fn token_injective(a: u8, b: u8) {
    }

    fn token_to_unit(token: u8) -> (r: u8) {
        token
    }

    fn unit_to_token(unit: u8) -> (r: Option<u8>) {
        proof {
            assert(Self::token_unit(unit) == unit);
        }
        Some(unit)
    }

    open spec fn rank(unit: u8) -> u64 {
        unit as u64
    }

    open spec fn max_prefix_len() -> nat {
        12
    }

    proof fn rank_injective(a: u8, b: u8) {
    }

    fn unit_rank(unit: u8) -> (r: u64) {
        unit as u64
    }

    fn prefix_limit() -> (r: usize) {
        12
    }
}

impl KeyEncoding for CharKey {
    type Unit = u32;

    type Token = char;

    open spec fn token_unit(token: char) -> u32 {
        token as u32
    }

    proof fn token_injective(a: char, b: char) {
        lemma_char(a);
        lemma_char(b);
    }

    fn token_to_unit(token: char) -> (r: u32) {
        token as u32
    }

    fn unit_to_token(unit: u32) -> (r: Option<char>) {
        proof {
            assert forall|token: char| #[trigger] Self::token_unit(token) == unit implies is_scalar_value(
                unit,
            ) by {
                lemma_char(token);
            }
        }
        char_from_u32(unit)
    }

    open spec fn rank(unit: u32) -> u64 {
        unit as u64
    }

    open spec fn max_prefix_len() -> nat {
        6
    }

    proof fn rank_injective(a: u32, b: u32) {
    }

    fn unit_rank(unit: u32) -> (r: u64) {
        unit as u64
    }

    fn prefix_limit() -> (r: usize) {
        6
    }
}

impl KeyEncoding for U64Key {
    type Unit = u64;

    type Token = u64;

    open spec fn token_unit(token: u64) -> u64 {
        token
    }

    proof fn token_injective(a: u64, b: u64) {
    }

    fn token_to_unit(token: u64) -> (r: u64) {
        token
    }

    fn unit_to_token(unit: u64) -> (r: Option<u64>) {
        proof {
            assert(Self::token_unit(unit) == unit);
        }
        Some(unit)
    }

    open spec fn rank(unit: u64) -> u64 {
        unit as u64
    }

    open spec fn max_prefix_len() -> nat {
        6
    }

    proof fn rank_injective(a: u64, b: u64) {
    }

    fn unit_rank(unit: u64) -> (r: u64) {
        unit
    }

    fn prefix_limit() -> (r: usize) {
        6
    }
}

/// Every character has a code point.
proof fn lemma_char(c: char)
    ensures
        c as u32 as int == c as int,
        is_scalar_value(c as u32),
{
    assert(0 <= c as int <= 0x10_ffff);
}

/// A number that is a Unicode scalar value.
pub open spec fn is_scalar_value(number: u32) -> bool {
    number < 0xd800 || (0xe000 <= number && number <= 0x10_ffff)
}

/// `char::from_u32`: the character with a code point, for the numbers that are
/// Unicode scalar values and for no others.
#[verifier::external_body]
fn char_from_u32(number: u32) -> (r: Option<char>)
    ensures
        match r {
            Some(character) => is_scalar_value(number) && character as u32 == number,
            None => !is_scalar_value(number),
        },
{
    char::from_u32(number)
}

/// Whether two units are the same edge.
pub fn same_unit<K: KeyEncoding>(a: K::Unit, b: K::Unit) -> (r: bool)
    ensures
        r == (a == b),
{
    let r: bool = K::unit_rank(a) == K::unit_rank(b);
    proof {
        if r {
            K::rank_injective(a, b);
        }
    }
    r
}

} // verus!
