//! Splitting a number into decimal digits, most significant first.
//!
//! A number is split into a fixed count of digits. Every place but the
//! leading one holds a true decimal digit; the leading place holds the whole
//! quotient that is left, so a number with too many digits shows as a leading
//! "digit" above 9 and nothing is cut off.

use crate::digits::as_numbers;
use vstd::arithmetic::div_mod::{
    lemma_basic_div, lemma_breakdown, lemma_div_denominator, lemma_div_is_ordered_by_denominator,
    lemma_fundamental_div_mod, lemma_fundamental_div_mod_converse, lemma_small_mod,
};
use vstd::arithmetic::power::pow;
use vstd::prelude::*;

verus! {

/// Ten to the power `exp`: the value of the decimal place number `exp`,
/// counted from the right and from zero.
pub open spec fn place_value(exp: nat) -> nat
    decreases exp,
{
    if exp == 0 {
        1
    } else {
        10 * place_value((exp - 1) as nat)
    }
}

/// The digit at position `k`, counted from the left and from zero, when
/// `value` is split into `size` digits. Position 0 holds the whole quotient
/// by its place value; every other position holds that quotient modulo ten.
pub open spec fn digit_at(value: nat, size: nat, k: int) -> nat {
    let quotient = value / place_value((size - 1 - k) as nat);
    if k == 0 {
        quotient
    } else {
        quotient % 10
    }
}

/// `value` split into `size` digits, most significant first.
pub open spec fn digits_of(value: nat, size: nat) -> Seq<nat> {
    Seq::new(size, |k: int| digit_at(value, size, k))
}

/// The split as bytes: what `num_to_digits` returns where the split fits in
/// bytes.
pub open spec fn byte_digits(value: nat, size: nat) -> Seq<u8> {
    Seq::new(size, |k: int| digit_at(value, size, k) as u8)
}

/// The leading digit of the split fits in a byte, so that the whole split
/// can be held in bytes.
pub open spec fn splits_into_bytes(value: nat, size: nat) -> bool {
    size > 0 ==> digit_at(value, size, 0) <= u8::MAX
}

/// Every digit of the split is a decimal digit.
pub open spec fn proper_digits(value: nat, size: nat) -> bool {
    forall|k: int| 0 <= k < size ==> #[trigger] digit_at(value, size, k) <= 9
}

/// The number that a row of digits stands for, most significant digit first.
/// A leading element above 9 counts with its full value.
pub open spec fn number_of(digits: Seq<nat>) -> nat
    decreases digits.len(),
{
    if digits.len() == 0 {
        0
    } else {
        number_of(digits.drop_last()) * 10 + digits.last()
    }
}

/// `num::pow`, for `u16`: the base raised to `exp` by repeated squaring. The
/// outside function multiplies without checking; no product that it forms is
/// above the result, so it neither panics nor wraps as long as the result
/// fits in sixteen bits.
#[verifier::external_body]
fn int_power(base: u16, exp: usize) -> (power: u16)
    requires
        pow(base as int, exp as nat) <= u16::MAX,
    ensures
        power == pow(base as int, exp as nat),
{
    num::pow(base, exp)
}

/// Tells whether `num`, split into `size` digits, can be held in bytes: what
/// `num_to_digits` asks of the number.
pub fn fits_in_bytes(num: u16, size: usize) -> (fits: bool)
    ensures
        fits == splits_into_bytes(num as nat, size as nat),
{
    if size == 0 {
        return true;
    }
    if size >= 4 {
        proof {
            lemma_long_splits_fit(num as nat, size as nat);
        }
        return true;
    }
    proof {
        lemma_small_place_values();
        lemma_place_value_is_power((size - 1) as nat);
    }
    num / int_power(10, size - 1) <= 255
}

/// Splits `num` into `size` digits, most significant first: the digit of each
/// place is the quotient by its place value, and the remainder goes on to the
/// next lower place. A number shorter than `size` digits gets leading zeros;
/// one that is longer shows as a leading digit above 9. That leading digit
/// must fit in a byte, which `fits_in_bytes` tells; with four digits or more
/// it always does. No vector is longer than `isize::MAX`, so `size` must not
/// be either.
pub fn num_to_digits(num: u16, size: usize) -> (digits: Vec<u8>)
    requires
        splits_into_bytes(num as nat, size as nat),
        size <= isize::MAX,
    ensures
        as_numbers(digits@) == digits_of(num as nat, size as nat),
        digits@ == byte_digits(num as nat, size as nat),
{
    let mut rest: u16 = num;
    let mut digits: Vec<u8> = vec![0u8; size];
    let mut k: usize = 0;
    while k < size
        invariant
            k <= size,
            digits.len() == size,
            splits_into_bytes(num as nat, size as nat),
            rest as nat == if k == 0 {
                num as nat
            } else {
                num as nat % place_value((size - k) as nat)
            },
            forall|j: int| 0 <= j < k ==> digits[j] as nat == digit_at(num as nat, size as nat, j),
            forall|j: int| k <= j < size ==> digits[j] == 0,
        decreases size - k,
    {
        let exp: usize = size - 1 - k;
        proof {
            lemma_small_place_values();
            lemma_place_value_is_power(exp as nat);
            lemma_digit_of_remainder(num as nat, exp as nat);
        }
        if exp < 5 {
            proof {
                lemma_place_value_grows(exp as nat, 4);
            }
            let denom: u16 = int_power(10, exp);
            let quotient: u16 = rest / denom;
            digits[k] = quotient as u8;
            rest = rest % denom;
        } else {
            // The place is worth more than any number of sixteen bits: its
            // digit is the zero that is there, and the rest stays as it is.
            proof {
                lemma_place_value_grows(5, exp as nat);
                lemma_place_value_grows(5, (exp + 1) as nat);
                lemma_basic_div(num as int, place_value(exp as nat) as int);
                lemma_small_mod(num as nat, place_value(exp as nat));
                lemma_small_mod(num as nat, place_value((exp + 1) as nat));
            }
        }
        k = k + 1;
    }
    digits
}

/// `place_value` is the power of ten of vstd.
pub proof fn lemma_place_value_is_power(exp: nat)
    ensures
        place_value(exp) == pow(10, exp),
        place_value(exp) > 0,
    decreases exp,
{
    reveal(pow);
    if exp > 0 {
        lemma_place_value_is_power((exp - 1) as nat);
    }
}

/// Place values grow with the place.
pub proof fn lemma_place_value_grows(low: nat, high: nat)
    requires
        low <= high,
    ensures
        0 < place_value(low) <= place_value(high),
    decreases high,
{
    lemma_place_value_is_power(low);
    if low < high {
        lemma_place_value_grows(low, (high - 1) as nat);
    }
}

/// The first place values, written out.
proof fn lemma_small_place_values()
    ensures
        place_value(0) == 1,
        place_value(1) == 10,
        place_value(2) == 100,
        place_value(3) == 1000,
        place_value(4) == 10000,
        place_value(5) == 100000,
{
    reveal_with_fuel(place_value, 6);
}

/// The quotient by the value of the lowest place is the number itself.
proof fn lemma_units_place(value: nat)
    ensures
        value / place_value(0) == value,
{
    let unit = place_value(0);
    assert(value / unit == value) by (nonlinear_arith)
        requires
            unit == 1,
    ;
}

/// Taking the remainder by the next higher place value leaves the digit of
/// this place and all lower ones as they are.
proof fn lemma_digit_of_remainder(value: nat, exp: nat)
    ensures
        (value % place_value(exp + 1)) / place_value(exp) == (value / place_value(exp)) % 10,
        (value % place_value(exp + 1)) % place_value(exp) == value % place_value(exp),
{
    let p = place_value(exp) as int;
    let v = value as int;
    lemma_place_value_is_power(exp);
    lemma_breakdown(v, p, 10);
    let digit = (v / p) % 10;
    let low = v % p;
    assert(v % (p * 10) == digit * p + low) by (nonlinear_arith)
        requires
            v % (p * 10) == p * digit + low,
    ;
    lemma_fundamental_div_mod_converse(v % (p * 10), p, digit, low);
}

/// Where the split fits in bytes, its bytes hold the digits unchanged.
pub proof fn lemma_byte_digits_are_digits(value: nat, size: nat)
    requires
        splits_into_bytes(value, size),
    ensures
        as_numbers(byte_digits(value, size)) == digits_of(value, size),
{
    assert(as_numbers(byte_digits(value, size)) =~= digits_of(value, size));
}

/// Split into four digits or more, a sixteen-bit number always fits in bytes.
pub proof fn lemma_long_splits_fit(value: nat, size: nat)
    requires
        value <= u16::MAX,
        size >= 4,
    ensures
        splits_into_bytes(value, size),
{
    lemma_small_place_values();
    lemma_place_value_grows(3, (size - 1) as nat);
    lemma_div_is_ordered_by_denominator(value as int, 1000, place_value((size - 1) as nat) as int);
}

/// Splitting loses nothing: the digits of a split into one digit or more
/// stand for the number that was split.
pub proof fn lemma_split_recovers_value(value: nat, size: nat)
    requires
        size >= 1,
    ensures
        number_of(digits_of(value, size)) == value,
    decreases size,
{
    let digits = digits_of(value, size);
    if size == 1 {
        assert(number_of(digits.drop_last()) == 0);
        lemma_units_place(value);
    } else {
        let shorter = digits_of(value / 10, (size - 1) as nat);
        assert(digits.drop_last() =~= shorter) by {
            assert forall|k: int| 0 <= k < size - 1 implies digits[k] == shorter[k] by {
                let exp = (size - 2 - k) as nat;
                lemma_place_value_is_power(exp);
                lemma_div_denominator(value as int, 10, place_value(exp) as int);
            }
        }
        lemma_split_recovers_value(value / 10, (size - 1) as nat);
        lemma_units_place(value);
        lemma_fundamental_div_mod(value as int, 10);
    }
}

/// Split into seven digits or more, a sixteen-bit number starts with two
/// zeros: its digits are decimal, but not distinct.
pub proof fn lemma_long_splits_repeat_zero(value: nat, size: nat)
    requires
        value <= u16::MAX,
        size >= 7,
    ensures
        proper_digits(value, size),
        !digits_of(value, size).no_duplicates(),
{
    lemma_small_place_values();
    lemma_place_value_grows(5, (size - 1) as nat);
    lemma_place_value_grows(5, (size - 2) as nat);
    lemma_basic_div(value as int, place_value((size - 1) as nat) as int);
    lemma_basic_div(value as int, place_value((size - 2) as nat) as int);
    let digits = digits_of(value, size);
    assert(digits[0] == 0 && digits[1] == 0);
}

/// A number has too many digits for the split exactly when the split shows
/// it: some digit is above 9 if and only if the number is `10^size` or more.
pub proof fn lemma_overlong_shows(value: nat, size: nat)
    requires
        size >= 1,
    ensures
        proper_digits(value, size) <==> value < place_value(size),
{
    let p = place_value((size - 1) as nat) as int;
    let v = value as int;
    let leading = v / p;
    lemma_place_value_is_power((size - 1) as nat);
    lemma_fundamental_div_mod(v, p);
    assert(digit_at(value, size, 0) == leading);
    if leading <= 9 {
        assert(p * leading <= p * 9) by (nonlinear_arith)
            requires
                0 <= leading <= 9,
                0 < p,
        ;
        assert(proper_digits(value, size));
    } else {
        assert(p * leading >= p * 10) by (nonlinear_arith)
            requires
                leading >= 10,
                0 < p,
        ;
    }
}

} // verus!
