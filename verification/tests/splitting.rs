use bulls_and_cows::split::{fits_in_bytes, num_to_digits};
use bulls_and_cows::validate::{guess_digits, is_unique_digits, validate, ValidationError};

#[test]
fn four_digits_split_in_order() {
    assert_eq!(num_to_digits(1234, 4), vec![1u8, 2, 3, 4]);
    assert_eq!(num_to_digits(9876, 4), vec![9u8, 8, 7, 6]);
    assert_eq!(num_to_digits(1023, 4), vec![1u8, 0, 2, 3]);
}

#[test]
fn short_numbers_get_leading_zeros() {
    assert_eq!(num_to_digits(12, 4), vec![0u8, 0, 1, 2]);
    assert_eq!(num_to_digits(0, 4), vec![0u8, 0, 0, 0]);
    assert_eq!(num_to_digits(123, 4), vec![0u8, 1, 2, 3]);
}

#[test]
fn long_numbers_show_in_the_leading_digit() {
    assert_eq!(num_to_digits(12345, 4), vec![12u8, 3, 4, 5]);
    assert_eq!(num_to_digits(10000, 4), vec![10u8, 0, 0, 0]);
    assert_eq!(num_to_digits(65535, 4), vec![65u8, 5, 3, 5]);
    assert_eq!(num_to_digits(255, 1), vec![255u8]);
    assert_eq!(num_to_digits(2559, 2), vec![255u8, 9]);
}

#[test]
fn other_sizes_split_too() {
    assert_eq!(num_to_digits(7, 1), vec![7u8]);
    assert_eq!(num_to_digits(42, 2), vec![4u8, 2]);
    assert_eq!(num_to_digits(907, 3), vec![9u8, 0, 7]);
    assert_eq!(num_to_digits(65535, 5), vec![6u8, 5, 5, 3, 5]);
    assert_eq!(num_to_digits(12345, 6), vec![0u8, 1, 2, 3, 4, 5]);
    assert_eq!(num_to_digits(65535, 8), vec![0u8, 0, 0, 6, 5, 5, 3, 5]);
    assert_eq!(num_to_digits(77, 0), Vec::<u8>::new());
}

#[test]
fn leading_digit_must_fit_in_a_byte() {
    assert!(fits_in_bytes(255, 1));
    assert!(!fits_in_bytes(256, 1));
    assert!(fits_in_bytes(2559, 2));
    assert!(!fits_in_bytes(2560, 2));
    assert!(fits_in_bytes(25599, 3));
    assert!(!fits_in_bytes(25600, 3));
    assert!(fits_in_bytes(65535, 4));
    assert!(fits_in_bytes(65535, 5));
    assert!(fits_in_bytes(65535, 20));
    assert!(fits_in_bytes(65535, 0));
}

#[test]
fn unique_digits_are_told_from_repeated_ones() {
    assert!(is_unique_digits(&[1, 2, 3, 4]));
    assert!(!is_unique_digits(&[1, 1, 2, 3]));
    assert!(!is_unique_digits(&[1, 2, 3, 1]));
    assert!(!is_unique_digits(&[0, 5, 5]));
    assert!(is_unique_digits(&[7]));
    assert!(is_unique_digits(&[]));
}

#[test]
fn validate_accepts_distinct_digits() {
    assert_eq!(validate(&[1, 2, 3, 4]), Ok(()));
    assert_eq!(validate(&[0, 9]), Ok(()));
    assert_eq!(validate(&[]), Ok(()));
}

#[test]
fn validate_rejects_a_digit_above_nine() {
    assert_eq!(validate(&[12, 3, 4, 5]), Err(ValidationError::MalformedNumber));
    assert_eq!(validate(&[1, 2, 3, 10]), Err(ValidationError::MalformedNumber));
}

#[test]
fn validate_rejects_a_repeated_digit() {
    assert_eq!(validate(&[1, 1, 2, 3]), Err(ValidationError::NonUniqueDigits));
}

#[test]
fn validate_checks_the_range_first() {
    assert_eq!(validate(&[10, 10, 2, 3]), Err(ValidationError::MalformedNumber));
    assert_eq!(validate(&[1, 1, 2, 30]), Err(ValidationError::MalformedNumber));
}

#[test]
fn number_above_four_digits_is_malformed() {
    assert_eq!(guess_digits(10000, 4), Err(ValidationError::MalformedNumber));
    assert_eq!(guess_digits(12345, 4), Err(ValidationError::MalformedNumber));
    assert_eq!(guess_digits(65535, 4), Err(ValidationError::MalformedNumber));
    assert_eq!(guess_digits(9876, 4), Ok(vec![9u8, 8, 7, 6]));
    assert_eq!(validate(&num_to_digits(12345, 4)), Err(ValidationError::MalformedNumber));
}

#[test]
fn number_with_repeated_digit_is_not_unique() {
    assert_eq!(guess_digits(1123, 4), Err(ValidationError::NonUniqueDigits));
    assert_eq!(guess_digits(9999, 4), Err(ValidationError::NonUniqueDigits));
    // Two leading zeros repeat the zero.
    assert_eq!(guess_digits(12, 4), Err(ValidationError::NonUniqueDigits));
    assert_eq!(validate(&num_to_digits(1123, 4)), Err(ValidationError::NonUniqueDigits));
}

#[test]
fn guess_digits_takes_every_number_and_size() {
    assert_eq!(guess_digits(123, 4), Ok(vec![0u8, 1, 2, 3]));
    assert_eq!(guess_digits(300, 1), Err(ValidationError::MalformedNumber));
    assert_eq!(guess_digits(2560, 2), Err(ValidationError::MalformedNumber));
    assert_eq!(guess_digits(25600, 3), Err(ValidationError::MalformedNumber));
    assert_eq!(guess_digits(5, 1), Ok(vec![5u8]));
    assert_eq!(guess_digits(12345, 6), Ok(vec![0u8, 1, 2, 3, 4, 5]));
    assert_eq!(guess_digits(123, 7), Err(ValidationError::NonUniqueDigits));
    assert_eq!(guess_digits(65535, 7), Err(ValidationError::NonUniqueDigits));
    assert_eq!(guess_digits(5, usize::MAX), Err(ValidationError::NonUniqueDigits));
    assert_eq!(guess_digits(65432, 6), Ok(vec![0u8, 6, 5, 4, 3, 2]));
    assert_eq!(guess_digits(0, 0), Ok(Vec::<u8>::new()));
    assert_eq!(guess_digits(65535, 5), Err(ValidationError::NonUniqueDigits));
    assert_eq!(guess_digits(60000, 4), Err(ValidationError::MalformedNumber));
}

#[test]
fn every_four_digit_number_splits_into_its_digits() {
    for n in 0u16..10000 {
        let digits = num_to_digits(n, 4);
        assert_eq!(digits.len(), 4);
        let mut value: u32 = 0;
        for d in digits.iter() {
            assert!(*d <= 9);
            value = value * 10 + *d as u32;
        }
        assert_eq!(value, n as u32);
    }
}
