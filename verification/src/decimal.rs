//! Natural numbers of any size, held as decimal digits. The arithmetic is
//! done by the big integers of `num`; what is proved here is what is made of
//! the digits.

use num::bigint::Sign;
use num::BigInt;
use vstd::prelude::*;

verus! {

/// No digit is above 9.
pub open spec fn are_digits(d: Seq<u8>) -> bool {
    forall|i: int| 0 <= i < d.len() ==> #[trigger] d[i] <= 9
}

/// The number that the digits spell, most significant first. No digits
/// spell 0.
pub open spec fn decimal_value(d: Seq<u8>) -> nat
    decreases d.len(),
{
    if d.len() == 0 {
        0
    } else {
        decimal_value(d.drop_last()) * 10 + d.last() as nat
    }
}

/// The digits of a positive number, most significant first, without a
/// leading 0; no digits for 0.
pub open spec fn leading_digits(v: nat) -> Seq<u8>
    decreases v,
{
    if v == 0 {
        Seq::empty()
    } else {
        leading_digits(v / 10).push((v % 10) as u8)
    }
}

/// The numeral of `v`: its digits without a leading 0, and the one digit 0
/// for 0.
pub open spec fn numeral_of(v: nat) -> Seq<u8> {
    if v == 0 {
        seq![0u8]
    } else {
        leading_digits(v)
    }
}

/// The sum of the decimal digits of `v`.
pub open spec fn digit_sum_of(v: nat) -> nat
    decreases v,
{
    if v == 0 {
        0
    } else {
        digit_sum_of(v / 10) + v % 10
    }
}

/// The sum of the digits.
pub open spec fn digits_total(d: Seq<u8>) -> nat
    decreases d.len(),
{
    if d.len() == 0 {
        0
    } else {
        digits_total(d.drop_last()) + d.last() as nat
    }
}

/// The digits of a number sum up to the digit sum of the number, whether or
/// not zeros lead them.
pub proof fn lemma_digits_total(d: Seq<u8>)
    requires
        are_digits(d),
    ensures
        digits_total(d) == digit_sum_of(decimal_value(d)),
    decreases d.len(),
{
    if d.len() > 0 {
        let front = d.drop_last();
        assert(are_digits(front)) by {
            assert forall|i: int| 0 <= i < front.len() implies #[trigger] front[i] <= 9 by {
                assert(front[i] == d[i]);
            }
        }
        lemma_digits_total(front);
        assert(d[d.len() - 1] <= 9);
    }
}

/// A numeral has at least one digit, none above 9, and spells its number.
pub proof fn lemma_numeral_of(v: nat)
    ensures
        numeral_of(v).len() >= 1,
        are_digits(numeral_of(v)),
        decimal_value(numeral_of(v)) == v,
{
    lemma_leading_digits(v);
    if v == 0 {
        let zero = seq![0u8];
        assert(zero.drop_last() =~= Seq::<u8>::empty());
        assert(decimal_value(zero.drop_last()) == 0);
        assert(decimal_value(zero) == 0);
    }
}

/// The leading digits of a number spell the number.
proof fn lemma_leading_digits(v: nat)
    ensures
        are_digits(leading_digits(v)),
        decimal_value(leading_digits(v)) == v,
        v >= 1 ==> leading_digits(v).len() >= 1,
    decreases v,
{
    if v > 0 {
        lemma_leading_digits(v / 10);
        let front = leading_digits(v / 10);
        let all = leading_digits(v);
        assert(all.drop_last() =~= front);
        assert forall|i: int| 0 <= i < all.len() implies #[trigger] all[i] <= 9 by {
            if i < front.len() {
                assert(all[i] == front[i]);
            }
        }
    }
}

/// The digits up to a place spell no more than all the digits do.
pub proof fn lemma_decimal_value_grows(d: Seq<u8>, k: int)
    requires
        0 <= k <= d.len(),
    ensures
        decimal_value(d.take(k)) <= decimal_value(d),
    decreases d.len() - k,
{
    if k < d.len() {
        lemma_decimal_value_grows(d, k + 1);
        assert(d.take(k + 1).drop_last() =~= d.take(k));
    } else {
        assert(d.take(k) =~= d);
    }
}

/// The numeral of the sum of two numbers given by their digits. The digits
/// are read by `BigInt::from_radix_be` of `num`, which takes any digits
/// below the radix, most significant first, and takes no digits for 0; the
/// numbers are added as `BigInt`; and the sum is written by
/// `BigInt::to_radix_be`, which gives the digits of a number without a
/// leading 0, and the one digit 0 for 0.
#[verifier::external_body]
pub(crate) fn add_digits(a: &Vec<u8>, b: &Vec<u8>) -> (sum: Vec<u8>)
    requires
        are_digits(a@),
        are_digits(b@),
    ensures
        sum@ == numeral_of(decimal_value(a@) + decimal_value(b@)),
{
    let x = BigInt::from_radix_be(Sign::Plus, a, 10).unwrap();
    let y = BigInt::from_radix_be(Sign::Plus, b, 10).unwrap();
    (x + y).to_radix_be(10).1
}

/// The numeral of the product of a number given by its digits and a machine
/// integer: read by `BigInt::from_radix_be` of `num`, multiplied as
/// `BigInt` with `BigInt::from(factor)`, and written by
/// `BigInt::to_radix_be`.
#[verifier::external_body]
pub(crate) fn multiply_digits(a: &Vec<u8>, factor: usize) -> (product: Vec<u8>)
    requires
        are_digits(a@),
    ensures
        product@ == numeral_of(decimal_value(a@) * factor as nat),
{
    let x = BigInt::from_radix_be(Sign::Plus, a, 10).unwrap();
    (x * BigInt::from(factor)).to_radix_be(10).1
}

/// The numeral of `base` to the power `exp`: `num::pow::pow` raises
/// `BigInt::from(base)` to the power by repeated squaring, and
/// `BigInt::to_radix_be` writes the result.
#[verifier::external_body]
pub(crate) fn power_digits(base: usize, exp: usize) -> (power: Vec<u8>)
    ensures
        power@ == numeral_of(vstd::arithmetic::power::pow(base as int, exp as nat) as nat),
{
    num::pow::pow(BigInt::from(base), exp).to_radix_be(10).1
}

/// The sum of the digits, or `None` where it does not fit in a `usize`.
pub fn digit_sum(digits: &Vec<u8>) -> (r: Option<usize>)
    ensures
        match r {
            Some(sum) => sum == digits_total(digits@),
            None => digits_total(digits@) > usize::MAX,
        },
{
    let mut sum: usize = 0;
    let mut i: usize = 0;
    assert(digits@.take(0) =~= Seq::<u8>::empty());
    while i < digits.len()
        invariant
            i <= digits.len(),
            sum == digits_total(digits@.take(i as int)),
        decreases digits.len() - i,
    {
        proof {
            assert(digits@.take(i + 1).drop_last() =~= digits@.take(i as int));
            lemma_digits_total_grows(digits@, i + 1);
        }
        sum = match sum.checked_add(digits[i] as usize) {
            Some(more) => more,
            None => {
                return None;
            },
        };
        i += 1;
    }
    assert(digits@.take(digits.len() as int) =~= digits@);
    Some(sum)
}

/// The digits up to a place sum up to no more than all the digits do.
proof fn lemma_digits_total_grows(d: Seq<u8>, k: int)
    requires
        0 <= k <= d.len(),
    ensures
        digits_total(d.take(k)) <= digits_total(d),
    decreases d.len() - k,
{
    if k < d.len() {
        lemma_digits_total_grows(d, k + 1);
        assert(d.take(k + 1).drop_last() =~= d.take(k));
    } else {
        assert(d.take(k) =~= d);
    }
}

/// What the first `count` digits spell, or `None` where there are fewer
/// digits or the number does not fit in a `usize`.
pub fn leading_value(digits: &Vec<u8>, count: usize) -> (r: Option<usize>)
    ensures
        match r {
            Some(v) => count <= digits.len() && v == decimal_value(digits@.take(count as int)),
            None => count > digits.len() || decimal_value(digits@.take(count as int)) > usize::MAX,
        },
{
    if count > digits.len() {
        return None;
    }
    let mut value: usize = 0;
    let mut i: usize = 0;
    assert(digits@.take(0) =~= Seq::<u8>::empty());
    while i < count
        invariant
            i <= count <= digits.len(),
            value == decimal_value(digits@.take(i as int)),
        decreases count - i,
    {
        proof {
            assert(digits@.take(i + 1).drop_last() =~= digits@.take(i as int));
            lemma_decimal_value_grows(digits@.take(count as int), i + 1);
            assert(digits@.take(count as int).take(i + 1) =~= digits@.take(i + 1));
        }
        let shifted = match value.checked_mul(10) {
            Some(shifted) => shifted,
            None => {
                return None;
            },
        };
        value = match shifted.checked_add(digits[i] as usize) {
            Some(more) => more,
            None => {
                return None;
            },
        };
        i += 1;
    }
    Some(value)
}

} // verus!
