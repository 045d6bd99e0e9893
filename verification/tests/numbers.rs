use telemetry_export::text::{decimal_text, thousandths_text};

#[test]
fn counts_are_written_in_decimal() {
    assert_eq!(decimal_text(0), "0");
    assert_eq!(decimal_text(7), "7");
    assert_eq!(decimal_text(10), "10");
    assert_eq!(decimal_text(12_345), "12345");
    assert_eq!(decimal_text(18_446_744_073_709_551_616), "18446744073709551616");
    assert_eq!(decimal_text(u128::MAX), u128::MAX.to_string());
}

#[test]
fn thousandths_are_written_with_three_decimals() {
    assert_eq!(thousandths_text(false, 0), "0.000");
    assert_eq!(thousandths_text(false, 5), "0.005");
    assert_eq!(thousandths_text(false, 50), "0.050");
    assert_eq!(thousandths_text(false, 999), "0.999");
    assert_eq!(thousandths_text(false, 1_000), "1.000");
    assert_eq!(thousandths_text(false, 201_243), "201.243");
    assert_eq!(thousandths_text(false, u64::MAX), "18446744073709551.615");
}

#[test]
fn the_sign_is_written_whatever_the_count() {
    assert_eq!(thousandths_text(true, 0), "-0.000");
    assert_eq!(thousandths_text(true, 1_500), "-1.500");
}
