use bulls_and_cows::entry::read_entry;

#[test]
fn plain_number_is_read() {
    assert_eq!(read_entry("1234"), Some(1234));
    assert_eq!(read_entry("0"), Some(0));
    assert_eq!(read_entry("65535"), Some(65535));
}

#[test]
fn white_space_around_the_number_is_ignored() {
    assert_eq!(read_entry("1234\n"), Some(1234));
    assert_eq!(read_entry("  1234 \r\n"), Some(1234));
    assert_eq!(read_entry("\t42"), Some(42));
}

#[test]
fn leading_zeros_and_plus_sign_are_taken() {
    assert_eq!(read_entry("0012"), Some(12));
    assert_eq!(read_entry("+7"), Some(7));
    assert_eq!(read_entry("0000000000000000000001"), Some(1));
}

#[test]
fn text_that_is_no_number_is_refused() {
    assert_eq!(read_entry(""), None);
    assert_eq!(read_entry("   \n"), None);
    assert_eq!(read_entry("abcd"), None);
    assert_eq!(read_entry("12a4"), None);
    assert_eq!(read_entry("12 34"), None);
    assert_eq!(read_entry("-1"), None);
    assert_eq!(read_entry("+"), None);
    assert_eq!(read_entry("++1"), None);
    assert_eq!(read_entry("1_000"), None);
    assert_eq!(read_entry("12.5"), None);
}

#[test]
fn number_above_sixteen_bits_is_refused() {
    assert_eq!(read_entry("65536"), None);
    assert_eq!(read_entry("100000"), None);
    assert_eq!(read_entry("99999999999999999999"), None);
}
