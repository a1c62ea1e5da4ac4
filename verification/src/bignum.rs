//! Arbitrary-precision integers for the range arithmetic.
//!
//! The library keeps a big integer as plain values (a sign flag and its
//! base-2^32 magnitude, least significant digit first, the layout that
//! `num_bigint` itself uses) and hands every arithmetic operation to
//! `num_bigint::BigInt`.
use num_bigint::{BigInt, Sign};
use num_traits::ToPrimitive;
use vstd::prelude::*;
use vstd::std_specs::cmp::PartialEqSpecImpl;

verus! {

/// The value of a little-endian sequence of base-2^32 digits.
pub open spec fn digits_value(digits: Seq<u32>) -> nat
    decreases digits.len(),
{
    if digits.len() == 0 {
        0
    } else {
        digits[0] as nat + 0x1_0000_0000nat * digits_value(digits.drop_first())
    }
}

/// The quotient of `a` by a positive `b`, truncated toward zero.
pub open spec fn trunc_div(a: int, b: int) -> int {
    if a >= 0 {
        a / b
    } else {
        -((-a) / b)
    }
}

/// The remainder left by `trunc_div`: it has the sign of `a`.
pub open spec fn trunc_rem(a: int, b: int) -> int {
    if a >= 0 {
        a % b
    } else {
        -((-a) % b)
    }
}

/// A signed integer of any size: `magnitude` holds base-2^32 digits, least
/// significant first; `negative` gives the sign (a zero magnitude is zero
/// whatever the flag says). Two of them are equal when their values are.
#[derive(Debug, Eq)]
pub struct BigNum {
    pub negative: bool,
    pub magnitude: Vec<u32>,
}

impl View for BigNum {
    type V = int;

    open spec fn view(&self) -> int {
        if self.negative {
            -(digits_value(self.magnitude@) as int)
        } else {
            digits_value(self.magnitude@) as int
        }
    }
}

impl PartialEq for BigNum {
    fn eq(&self, other: &Self) -> (r: bool) {
        !big_gt(self, other) && !big_gt(other, self)
    }
}

impl PartialEqSpecImpl for BigNum {
    open spec fn obeys_eq_spec() -> bool {
        true
    }

    open spec fn eq_spec(&self, other: &Self) -> bool {
        self@ == other@
    }
}

impl Clone for BigNum {
    fn clone(&self) -> (r: Self)
        ensures
            r@ == self@,
    {
        let magnitude = self.magnitude.clone();
        assert(magnitude@ =~= self.magnitude@);
        BigNum { negative: self.negative, magnitude }
    }
}

/// `BigInt::from(usize)`: the big integer whose value is `x`.
#[verifier::external_body]
pub(crate) fn big_from_usize(x: usize) -> (r: BigNum)
    ensures
        r@ == x as int,
{
    let (sign, magnitude) = BigInt::from(x).to_u32_digits();
    BigNum { negative: sign == Sign::Minus, magnitude }
}

/// `&BigInt + &BigInt`: exact sum.
#[verifier::external_body]
pub(crate) fn big_add(a: &BigNum, b: &BigNum) -> (r: BigNum)
    ensures
        r@ == a@ + b@,
{
    let x = BigInt::from_slice(if a.negative { Sign::Minus } else { Sign::Plus }, &a.magnitude);
    let y = BigInt::from_slice(if b.negative { Sign::Minus } else { Sign::Plus }, &b.magnitude);
    let (sign, magnitude) = (&x + &y).to_u32_digits();
    BigNum { negative: sign == Sign::Minus, magnitude }
}

/// `&BigInt - &BigInt`: exact difference.
#[verifier::external_body]
pub(crate) fn big_sub(a: &BigNum, b: &BigNum) -> (r: BigNum)
    ensures
        r@ == a@ - b@,
{
    let x = BigInt::from_slice(if a.negative { Sign::Minus } else { Sign::Plus }, &a.magnitude);
    let y = BigInt::from_slice(if b.negative { Sign::Minus } else { Sign::Plus }, &b.magnitude);
    let (sign, magnitude) = (&x - &y).to_u32_digits();
    BigNum { negative: sign == Sign::Minus, magnitude }
}

/// `&BigInt * &BigInt`: exact product.
#[verifier::external_body]
pub(crate) fn big_mul(a: &BigNum, b: &BigNum) -> (r: BigNum)
    ensures
        r@ == a@ * b@,
{
    let x = BigInt::from_slice(if a.negative { Sign::Minus } else { Sign::Plus }, &a.magnitude);
    let y = BigInt::from_slice(if b.negative { Sign::Minus } else { Sign::Plus }, &b.magnitude);
    let (sign, magnitude) = (&x * &y).to_u32_digits();
    BigNum { negative: sign == Sign::Minus, magnitude }
}

/// `&BigInt / &BigInt`: the quotient truncated toward zero (`num_bigint`
/// divides the magnitudes and gives the quotient the dividend's sign when the
/// divisor is positive). Division by zero panics, so a zero divisor is
/// excluded; a negative divisor is not needed here and left out.
#[verifier::external_body]
pub(crate) fn big_div(a: &BigNum, b: &BigNum) -> (r: BigNum)
    requires
        b@ > 0,
    ensures
        r@ == trunc_div(a@, b@),
{
    let x = BigInt::from_slice(if a.negative { Sign::Minus } else { Sign::Plus }, &a.magnitude);
    let y = BigInt::from_slice(if b.negative { Sign::Minus } else { Sign::Plus }, &b.magnitude);
    let (sign, magnitude) = (&x / &y).to_u32_digits();
    BigNum { negative: sign == Sign::Minus, magnitude }
}

/// `&BigInt % &BigInt`: the remainder of the truncating division, which takes
/// the dividend's sign. A zero divisor panics and is excluded; a negative
/// divisor is not needed here and left out.
#[verifier::external_body]
pub(crate) fn big_rem(a: &BigNum, b: &BigNum) -> (r: BigNum)
    requires
        b@ > 0,
    ensures
        r@ == trunc_rem(a@, b@),
{
    let x = BigInt::from_slice(if a.negative { Sign::Minus } else { Sign::Plus }, &a.magnitude);
    let y = BigInt::from_slice(if b.negative { Sign::Minus } else { Sign::Plus }, &b.magnitude);
    let (sign, magnitude) = (&x % &y).to_u32_digits();
    BigNum { negative: sign == Sign::Minus, magnitude }
}

/// `BigInt > BigInt` (its `PartialOrd`): numeric comparison.
#[verifier::external_body]
pub(crate) fn big_gt(a: &BigNum, b: &BigNum) -> (r: bool)
    ensures
        r == (a@ > b@),
{
    let x = BigInt::from_slice(if a.negative { Sign::Minus } else { Sign::Plus }, &a.magnitude);
    let y = BigInt::from_slice(if b.negative { Sign::Minus } else { Sign::Plus }, &b.magnitude);
    x > y
}

/// `ToPrimitive::to_usize` on a `BigInt`: `Some` of the value exactly when it
/// fits in a `usize`, `None` otherwise.
#[verifier::external_body]
pub(crate) fn big_to_usize(a: &BigNum) -> (r: Option<usize>)
    ensures
        0 <= a@ <= usize::MAX ==> r == Some(a@ as usize),
        !(0 <= a@ <= usize::MAX) ==> r is None,
{
    let x = BigInt::from_slice(if a.negative { Sign::Minus } else { Sign::Plus }, &a.magnitude);
    x.to_usize()
}

} // verus!
