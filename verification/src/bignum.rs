//! Arbitrary-precision integers held as plain bytes.
//!
//! A [`BigNum`] is the little-endian two's-complement byte image of an integer.
//! Every arithmetic step is computed by `num_bigint`; the functions here convert
//! bytes to a `BigInt`, make the one call, and convert the result back. Their
//! contracts state the integer each result denotes.

use num_bigint::BigInt;
use num_integer::Integer;
use num_traits::Num;
use vstd::arithmetic::power::pow;
use vstd::prelude::*;

verus! {

/// The unsigned value of little-endian bytes.
pub open spec fn unsigned_value(s: Seq<u8>) -> nat
    decreases s.len(),
{
    if s.len() == 0 {
        0
    } else {
        s[0] as nat + 256 * unsigned_value(s.drop_first())
    }
}

/// The integer denoted by little-endian two's-complement bytes.
pub open spec fn signed_value(s: Seq<u8>) -> int {
    if s.len() == 0 {
        0
    } else if s.last() >= 128 {
        unsigned_value(s) - pow(256, s.len())
    } else {
        unsigned_value(s) as int
    }
}

/// The digit a character denotes in bases up to 36 (`0-9`, `a-z`, `A-Z`), or
/// 36 for any other character.
pub open spec fn digit_of(c: char) -> nat {
    if '0' <= c && c <= '9' {
        (c as nat - '0' as nat) as nat
    } else if 'a' <= c && c <= 'z' {
        (c as nat - 'a' as nat + 10) as nat
    } else if 'A' <= c && c <= 'Z' {
        (c as nat - 'A' as nat + 10) as nat
    } else {
        36
    }
}

/// The value of a big-endian digit string in `radix`.
pub open spec fn digits_value(s: Seq<char>, radix: nat) -> nat
    decreases s.len(),
{
    if s.len() == 0 {
        0
    } else {
        digits_value(s.drop_last(), radix) * radix + digit_of(s.last())
    }
}

/// Whether every character of `s` is a digit of `radix`.
pub open spec fn all_digits(s: Seq<char>, radix: nat) -> bool {
    forall|i: int| 0 <= i < s.len() ==> #[trigger] digit_of(s[i]) < radix
}

/// An integer of any size.
#[derive(Debug)]
pub struct BigNum {
    bytes: Vec<u8>,
}

impl View for BigNum {
    type V = int;

    closed spec fn view(&self) -> int {
        signed_value(self.bytes@)
    }
}

impl BigNum {
    /// The integer `n`.
    pub fn from_i64(n: i64) -> (r: BigNum)
        ensures
            r@ == n as int,
    {
        big_from_i64(n)
    }
}

impl Clone for BigNum {
    fn clone(&self) -> (r: Self)
        ensures
            r@ == self@,
    {
        let b = self.bytes.clone();
        assert(b@ =~= self.bytes@);
        BigNum { bytes: b }
    }
}

/// `BigInt::from(i64)`: the integer `n`.
#[verifier::external_body]
pub(crate) fn big_from_i64(n: i64) -> (r: BigNum)
    ensures
        r@ == n as int,
{
    BigNum { bytes: BigInt::from(n).to_signed_bytes_le() }
}

/// `BigInt + BigInt`: the exact sum.
#[verifier::external_body]
pub(crate) fn big_add(a: &BigNum, b: &BigNum) -> (r: BigNum)
    ensures
        r@ == a@ + b@,
{
    let x = BigInt::from_signed_bytes_le(&a.bytes) + BigInt::from_signed_bytes_le(&b.bytes);
    BigNum { bytes: x.to_signed_bytes_le() }
}

/// `BigInt - BigInt`: the exact difference.
#[verifier::external_body]
pub(crate) fn big_sub(a: &BigNum, b: &BigNum) -> (r: BigNum)
    ensures
        r@ == a@ - b@,
{
    let x = BigInt::from_signed_bytes_le(&a.bytes) - BigInt::from_signed_bytes_le(&b.bytes);
    BigNum { bytes: x.to_signed_bytes_le() }
}

/// `BigInt * BigInt`: the exact product.
#[verifier::external_body]
pub(crate) fn big_mul(a: &BigNum, b: &BigNum) -> (r: BigNum)
    ensures
        r@ == a@ * b@,
{
    let x = BigInt::from_signed_bytes_le(&a.bytes) * BigInt::from_signed_bytes_le(&b.bytes);
    BigNum { bytes: x.to_signed_bytes_le() }
}

/// `-BigInt`: the negation.
#[verifier::external_body]
pub(crate) fn big_neg(a: &BigNum) -> (r: BigNum)
    ensures
        r@ == -a@,
{
    let x = -BigInt::from_signed_bytes_le(&a.bytes);
    BigNum { bytes: x.to_signed_bytes_le() }
}

/// `Integer::div_floor`: the quotient rounded toward negative infinity, which
/// for a positive divisor is the Euclidean quotient.
#[verifier::external_body]
pub(crate) fn big_div_floor(a: &BigNum, b: &BigNum) -> (r: BigNum)
    requires
        b@ > 0,
    ensures
        r@ == a@ / b@,
{
    let x = BigInt::from_signed_bytes_le(&a.bytes).div_floor(&BigInt::from_signed_bytes_le(&b.bytes));
    BigNum { bytes: x.to_signed_bytes_le() }
}

/// `Integer::gcd`: the non-negative greatest common divisor (zero exactly when
/// both operands are zero).
#[verifier::external_body]
pub(crate) fn big_gcd(a: &BigNum, b: &BigNum) -> (r: BigNum)
    ensures
        r@ >= 0,
        r@ == 0 <==> (a@ == 0 && b@ == 0),
        r@ > 0 ==> a@ % r@ == 0 && b@ % r@ == 0,
        forall|d: int| d > 0 && a@ % d == 0 && b@ % d == 0 ==> #[trigger] (r@ % d) == 0,
{
    let x = BigInt::from_signed_bytes_le(&a.bytes).gcd(&BigInt::from_signed_bytes_le(&b.bytes));
    BigNum { bytes: x.to_signed_bytes_le() }
}

/// `Integer::lcm`: the non-negative least common multiple — zero when either
/// operand is zero; otherwise a positive common multiple that divides every
/// common multiple.
#[verifier::external_body]
pub(crate) fn big_lcm(a: &BigNum, b: &BigNum) -> (r: BigNum)
    ensures
        r@ >= 0,
        r@ == 0 <==> (a@ == 0 || b@ == 0),
        a@ > 0 && b@ > 0 ==> r@ % a@ == 0 && r@ % b@ == 0,
        a@ > 0 && b@ > 0 ==> forall|m: int| m % a@ == 0 && m % b@ == 0 ==> #[trigger] (m % r@) == 0,
{
    let x = BigInt::from_signed_bytes_le(&a.bytes).lcm(&BigInt::from_signed_bytes_le(&b.bytes));
    BigNum { bytes: x.to_signed_bytes_le() }
}

/// `Integer::mod_floor`: the remainder of floored division, which for a
/// positive divisor lies in `0..b`. The function panics on a zero divisor,
/// which `requires` leaves out.
#[verifier::external_body]
pub(crate) fn big_mod_floor(a: &BigNum, b: &BigNum) -> (r: BigNum)
    requires
        b@ > 0,
    ensures
        r@ == a@ % b@,
{
    let x = BigInt::from_signed_bytes_le(&a.bytes).mod_floor(&BigInt::from_signed_bytes_le(&b.bytes));
    BigNum { bytes: x.to_signed_bytes_le() }
}

/// `BigInt::to_u32_digits`, first digit: the least significant 32-bit digit
/// of the magnitude, or `None` for zero, whose digit list is empty.
#[verifier::external_body]
pub(crate) fn big_low_u32_digit(a: &BigNum) -> (r: Option<u32>)
    ensures
        r == if a@ == 0 {
            None::<u32>
        } else {
            Some(((if a@ < 0 { -a@ } else { a@ }) % 0x1_0000_0000) as u32)
        },
{
    BigInt::from_signed_bytes_le(&a.bytes).to_u32_digits().1.first().copied()
}

/// `BigInt == BigInt`.
#[verifier::external_body]
pub(crate) fn big_eq(a: &BigNum, b: &BigNum) -> (r: bool)
    ensures
        r == (a@ == b@),
{
    BigInt::from_signed_bytes_le(&a.bytes) == BigInt::from_signed_bytes_le(&b.bytes)
}

/// `BigInt < BigInt`.
#[verifier::external_body]
pub(crate) fn big_lt(a: &BigNum, b: &BigNum) -> (r: bool)
    ensures
        r == (a@ < b@),
{
    BigInt::from_signed_bytes_le(&a.bytes) < BigInt::from_signed_bytes_le(&b.bytes)
}

/// `Num::from_str_radix`: the value of a non-empty string of digits of
/// `radix`. The function panics on a radix outside `2..=36`, and fails on an
/// empty string or a non-digit, which `requires` leaves out.
#[verifier::external_body]
pub(crate) fn big_from_radix_digits(digits: &Vec<char>, radix: u32) -> (r: BigNum)
    requires
        2 <= radix <= 36,
        digits@.len() > 0,
        all_digits(digits@, radix as nat),
    ensures
        r@ == digits_value(digits@, radix as nat),
{
    let s: String = digits.iter().collect();
    BigNum { bytes: BigInt::from_str_radix(&s, radix).unwrap().to_signed_bytes_le() }
}

/// `num_traits::pow`: `base` raised to `exp`.
#[verifier::external_body]
pub(crate) fn big_pow(base: &BigNum, exp: usize) -> (r: BigNum)
    ensures
        r@ == pow(base@, exp as nat),
{
    let x = num_traits::pow(BigInt::from_signed_bytes_le(&base.bytes), exp);
    BigNum { bytes: x.to_signed_bytes_le() }
}

} // verus!
