//! Arbitrary-precision integers, used by the power operation on assets.
//! The arithmetic itself is done by the `num_bigint` crate; each call the
//! library makes is declared here with the contract the crate's source shows.
use vstd::prelude::*;
use crate::asset::trunc_div;
use num_bigint::BigInt;
use num_traits::ToPrimitive;
use vstd::arithmetic::power::pow;

verus! {

#[verifier::external_type_specification]
#[verifier::external_body]
pub struct ExBigInt(BigInt);

/// The mathematical integer a `BigInt` holds.
pub uninterp spec fn big_int_value(v: &BigInt) -> int;

/// Relies on num_bigint's `From<i64>` impl: the constructed value equals the
/// argument.
#[verifier::external_body]
pub(crate) fn big_from_i64(v: i64) -> (r: BigInt)
    ensures
        big_int_value(&r) == v as int,
{
    BigInt::from(v)
}

/// Relies on num_bigint's `Mul` impl: the result is the exact product.
#[verifier::external_body]
pub(crate) fn big_mul(a: &BigInt, b: &BigInt) -> (r: BigInt)
    ensures
        big_int_value(&r) == big_int_value(a) * big_int_value(b),
{
    a * b
}

/// Relies on num_bigint's `Div` impl, which returns the quotient of
/// `div_rem`: division truncates toward zero.
#[verifier::external_body]
pub(crate) fn big_div(a: &BigInt, b: &BigInt) -> (r: BigInt)
    requires
        big_int_value(b) != 0,
    ensures
        big_int_value(&r) == trunc_div(big_int_value(a), big_int_value(b)),
{
    a / b
}

/// Relies on num_bigint's `ToPrimitive::to_i64`: the value is returned
/// exactly when it fits a 64-bit signed integer.
#[verifier::external_body]
pub(crate) fn big_to_i64(v: &BigInt) -> (r: Option<i64>)
    ensures
        r is Some <==> i64::MIN <= big_int_value(v) <= i64::MAX,
        r is Some ==> r == Some((big_int_value(v) as i64)),
{
    v.to_i64()
}

/// Ten raised to the given power, as a big integer.
pub(crate) fn big_pow10(k: u16) -> (r: BigInt)
    ensures
        big_int_value(&r) == pow(10, k as nat),
{
    let mut r = big_from_i64(1);
    let ten = big_from_i64(10);
    let mut i: u16 = 0;
    proof {
        vstd::arithmetic::power::lemma_pow0(10);
    }
    while i < k
        invariant
            i <= k,
            big_int_value(&ten) == 10,
            big_int_value(&r) == pow(10, i as nat),
        decreases k - i,
    {
        r = big_mul(&r, &ten);
        i += 1;
        proof {
            vstd::arithmetic::power::lemma_pow1(10);
            vstd::arithmetic::power::lemma_pow_adds(10, (i - 1) as nat, 1);
        }
    }
    r
}

} // verus!
