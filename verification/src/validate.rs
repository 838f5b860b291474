//! Checking a guess: every element a decimal digit, and none of them twice.

use crate::digits::{all_decimal, as_numbers, lemma_as_numbers_distinct};
use crate::split::{
    byte_digits, digit_at, digits_of, fits_in_bytes, lemma_long_splits_repeat_zero, num_to_digits,
    proper_digits,
};
use vstd::prelude::*;

verus! {

/// Why a row of digits is no valid guess.
#[derive(Clone, Copy, Debug, PartialEq, Eq, Structural)]
pub enum ValidationError {
    /// Some element is above 9: the number had too many digits.
    MalformedNumber,
    /// Every element is a decimal digit, but one of them occurs twice.
    NonUniqueDigits,
}

/// Tells whether no digit occurs twice in `guess`. An empty row and a row of
/// one digit have no repeated digit.
pub fn is_unique_digits(guess: &[u8]) -> (unique: bool)
    ensures
        unique == guess@.no_duplicates(),
{
    let len: usize = guess.len();
    let mut i: usize = 0;
    while i < len
        invariant
            i <= len,
            len == guess.len(),
            forall|a: int, b: int| 0 <= a < i && a < b < len ==> guess[a] != guess[b],
        decreases len - i,
    {
        let mut j: usize = i + 1;
        while j < len
            invariant
                i < j <= len,
                len == guess.len(),
                forall|b: int| i < b < j ==> guess[i as int] != guess[b],
            decreases len - j,
        {
            if guess[i] == guess[j] {
                return false;
            }
            j = j + 1;
        }
        i = i + 1;
    }
    true
}

/// Checks a guess: first that every element is a decimal digit, then that no
/// digit occurs twice. The first check that fails names the error.
pub fn validate(digits: &[u8]) -> (res: Result<(), ValidationError>)
    ensures
        match res {
            Ok(_) => all_decimal(digits@) && digits@.no_duplicates(),
            Err(ValidationError::MalformedNumber) => !all_decimal(digits@),
            Err(ValidationError::NonUniqueDigits) => all_decimal(digits@)
                && !digits@.no_duplicates(),
        },
{
    let mut i: usize = 0;
    while i < digits.len()
        invariant
            i <= digits.len(),
            forall|k: int| 0 <= k < i ==> #[trigger] digits[k] <= 9,
        decreases digits.len() - i,
    {
        if digits[i] > 9 {
            return Err(ValidationError::MalformedNumber);
        }
        i = i + 1;
    }
    if !is_unique_digits(digits) {
        return Err(ValidationError::NonUniqueDigits);
    }
    Ok(())
}

/// Splits `num` into `size` digits and checks them: the digits of a valid
/// guess, or the first reason why `num` is none. Every number and size is
/// taken: a split of seven digits or more starts with two zeros and is not
/// made, and a split that does not fit in bytes has a digit above 9.
pub fn guess_digits(num: u16, size: usize) -> (res: Result<Vec<u8>, ValidationError>)
    ensures
        match res {
            Ok(digits) => {
                &&& as_numbers(digits@) == digits_of(num as nat, size as nat)
                &&& digits@ == byte_digits(num as nat, size as nat)
                &&& all_decimal(digits@)
                &&& digits@.no_duplicates()
            },
            Err(ValidationError::MalformedNumber) => !proper_digits(num as nat, size as nat),
            Err(ValidationError::NonUniqueDigits) => {
                &&& proper_digits(num as nat, size as nat)
                &&& !digits_of(num as nat, size as nat).no_duplicates()
            },
        },
        res is Ok <==> proper_digits(num as nat, size as nat) && digits_of(
            num as nat,
            size as nat,
        ).no_duplicates(),
{
    if size >= 7 {
        proof {
            lemma_long_splits_repeat_zero(num as nat, size as nat);
        }
        return Err(ValidationError::NonUniqueDigits);
    }
    if !fits_in_bytes(num, size) {
        assert(digit_at(num as nat, size as nat, 0) > 9);
        return Err(ValidationError::MalformedNumber);
    }
    let digits = num_to_digits(num, size);
    proof {
        lemma_as_numbers_distinct(digits@);
        let numbers = as_numbers(digits@);
        if all_decimal(digits@) {
            assert forall|k: int| 0 <= k < size implies #[trigger] digit_at(
                num as nat,
                size as nat,
                k,
            ) <= 9 by {
                assert(numbers[k] == digits@[k] as nat);
            }
        }
    }
    match validate(digits.as_slice()) {
        Ok(_) => Ok(digits),
        Err(e) => Err(e),
    }
}

} // verus!
