use bulls_and_cows::secret::{digits_from_draws, gen_unique_rand_digits, GenerateError};
use bulls_and_cows::validate::validate;

#[test]
fn draws_select_the_secret() {
    assert_eq!(digits_from_draws(&[3, 5, 2, 9]), Ok(vec![3u8, 5, 2, 9]));
    assert_eq!(digits_from_draws(&[0, 1, 2, 3]), Ok(vec![0u8, 1, 2, 3]));
    assert_eq!(digits_from_draws(&[9, 9, 9]), Ok(vec![9u8, 0, 1]));
    assert_eq!(digits_from_draws(&[1, 1, 3, 3]), Ok(vec![1u8, 0, 3, 2]));
    assert_eq!(digits_from_draws(&[5]), Ok(vec![5u8]));
    assert_eq!(digits_from_draws(&[]), Ok(Vec::<u8>::new()));
}

#[test]
fn nine_draws_fill_nine_places() {
    assert_eq!(
        digits_from_draws(&[9, 8, 7, 6, 5, 5, 6, 7, 8]),
        Ok(vec![9u8, 8, 7, 6, 5, 4, 3, 2, 1])
    );
}

#[test]
fn ten_draws_are_refused() {
    assert_eq!(
        digits_from_draws(&[0, 1, 2, 3, 4, 5, 6, 7, 8, 9]),
        Err(GenerateError::InvalidArgument)
    );
    assert_eq!(digits_from_draws(&[9; 12]), Err(GenerateError::InvalidArgument));
}

#[test]
fn draw_outside_its_range_is_refused() {
    assert_eq!(digits_from_draws(&[0, 0]), Err(GenerateError::DrawOutOfRange));
    assert_eq!(digits_from_draws(&[10]), Err(GenerateError::DrawOutOfRange));
    assert_eq!(digits_from_draws(&[3, 4, 1]), Err(GenerateError::DrawOutOfRange));
}

#[test]
fn generated_digits_are_distinct_decimal_digits() {
    for n in 0usize..10 {
        for _ in 0..50 {
            let secret = gen_unique_rand_digits(n).unwrap();
            assert_eq!(secret.len(), n);
            assert_eq!(validate(&secret), Ok(()));
            for (i, a) in secret.iter().enumerate() {
                assert!(*a <= 9);
                for b in secret[i + 1..].iter() {
                    assert_ne!(a, b);
                }
            }
        }
    }
}

#[test]
fn ten_digits_or_more_are_refused() {
    assert_eq!(gen_unique_rand_digits(10), Err(GenerateError::InvalidArgument));
    assert_eq!(gen_unique_rand_digits(11), Err(GenerateError::InvalidArgument));
    assert_eq!(gen_unique_rand_digits(usize::MAX), Err(GenerateError::InvalidArgument));
}

#[test]
fn generated_secrets_vary() {
    // Draws that always came back as the lowest place would only ever deal 0 1 2 3.
    let mut other = false;
    for _ in 0..200 {
        if gen_unique_rand_digits(4).unwrap() != vec![0u8, 1, 2, 3] {
            other = true;
        }
    }
    assert!(other);
}

#[test]
fn every_digit_can_lead_a_secret() {
    let mut seen = [false; 10];
    for _ in 0..2000 {
        let secret = gen_unique_rand_digits(1).unwrap();
        seen[secret[0] as usize] = true;
    }
    assert_eq!(seen, [true; 10]);
}
