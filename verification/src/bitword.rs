//! The 256-bit word that backs a byte set, and what is taken on trust about it.
//!
//! The arithmetic of [`U256`] lives in another crate and is not verified
//! here.  Each function below makes one call into it and states, over
//! [`bit_set`], what that call is relied upon to do.

use primitive_types::U256;
use vstd::prelude::*;

verus! {

/// `U256` is carried through as it is: nothing inside it is looked at.
#[verifier::external_type_specification]
#[verifier::external_body]
pub struct ExU256(U256);

/// The positions of the bits that are set in a word; position 0 is the
/// least significant bit.
pub uninterp spec fn bit_set(w: U256) -> Set<u8>;

/// `U256::zero()`: the word with no bit set.
#[verifier::external_body]
pub(crate) fn word_zero() -> (w: U256)
    ensures
        bit_set(w) == Set::<u8>::empty(),
{
    U256::zero()
}

/// `U256::one()`: the word whose only set bit is bit 0.
#[verifier::external_body]
pub(crate) fn word_one() -> (w: U256)
    ensures
        bit_set(w) == Set::<u8>::empty().insert(0u8),
{
    U256::one()
}

/// `<<` on `U256` with a `u8` amount: every set bit moves up by `n`
/// positions, and bits that would pass position 255 are dropped.
#[verifier::external_body]
pub(crate) fn word_shl(w: U256, n: u8) -> (r: U256)
    ensures
        bit_set(r) == Set::<u8>::new(|b: u8| b >= n && bit_set(w).contains((b - n) as u8)),
{
    w << n
}

/// `|` on `U256`: a bit is set in the result when it is set in either operand.
#[verifier::external_body]
pub(crate) fn word_or(a: U256, b: U256) -> (r: U256)
    ensures
        bit_set(r) == bit_set(a).union(bit_set(b)),
{
    a | b
}

/// `&` on `U256`: a bit is set in the result when it is set in both operands.
#[verifier::external_body]
pub(crate) fn word_and(a: U256, b: U256) -> (r: U256)
    ensures
        bit_set(r) == bit_set(a).intersect(bit_set(b)),
{
    a & b
}

/// `==` on `U256`: two words are equal exactly when the same bits are set.
#[verifier::external_body]
pub(crate) fn word_eq(a: &U256, b: &U256) -> (r: bool)
    ensures
        r == (bit_set(*a) == bit_set(*b)),
{
    a == b
}

} // verus!
