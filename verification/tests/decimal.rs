use t_square::decimal::{decimal_string, push_nat};

#[test]
fn whole_numbers_have_no_point() {
    assert_eq!(decimal_string(0, 0), "0");
    assert_eq!(decimal_string(25, 0), "25");
    assert_eq!(decimal_string(100, 2), "25");
    assert_eq!(decimal_string(0, 63), "0");
    assert_eq!(decimal_string(1 << 40, 40), "1");
    assert_eq!(decimal_string(i64::MAX, 0), "9223372036854775807");
}

#[test]
fn fractions_are_written_exactly() {
    assert_eq!(decimal_string(25, 1), "12.5");
    assert_eq!(decimal_string(50, 2), "12.5");
    assert_eq!(decimal_string(25, 2), "6.25");
    assert_eq!(decimal_string(1, 1), "0.5");
    assert_eq!(decimal_string(1, 3), "0.125");
    assert_eq!(decimal_string(3, 4), "0.1875");
    assert_eq!(decimal_string(1, 10), "0.0009765625");
    assert_eq!(decimal_string(1300, 4), "81.25");
}

#[test]
fn negative_numbers_carry_a_sign() {
    assert_eq!(decimal_string(-25, 1), "-12.5");
    assert_eq!(decimal_string(-1, 0), "-1");
    assert_eq!(decimal_string(-1, 2), "-0.25");
    assert_eq!(decimal_string(i64::MIN, 0), "-9223372036854775808");
    assert_eq!(decimal_string(i64::MIN, 63), "-1");
}

#[test]
fn the_smallest_fraction_has_sixty_three_places() {
    let text = decimal_string(1, 63);
    assert_eq!(
        text,
        "0.000000000000000000108420217248550443400745280086994171142578125"
    );
    assert_eq!(text.len(), 2 + 63);
}

#[test]
fn the_largest_fraction_is_exact() {
    assert_eq!(
        decimal_string(i64::MAX, 63),
        "0.999999999999999999891579782751449556599254719913005828857421875"
    );
}

#[test]
fn short_fractions_agree_with_floating_point_display() {
    for frac_bits in 0..=12u32 {
        for mantissa in -300..=300i64 {
            let expected = format!("{}", mantissa as f64 / (1u64 << frac_bits) as f64);
            assert_eq!(decimal_string(mantissa, frac_bits), expected);
        }
    }
}

#[test]
fn decimal_text_reads_back_as_the_same_number() {
    for frac_bits in [0u32, 1, 5, 20, 40] {
        for mantissa in [-1_000_003i64, -17, 1, 3, 12345, 99_999_999] {
            let text = decimal_string(mantissa, frac_bits);
            let read: f64 = text.parse().unwrap();
            assert_eq!(read, mantissa as f64 / (1u64 << frac_bits) as f64);
        }
    }
}

#[test]
fn push_nat_appends_the_digits() {
    let mut text = String::from("n=");
    push_nat(&mut text, 0);
    assert_eq!(text, "n=0");
    push_nat(&mut text, 10);
    assert_eq!(text, "n=010");
    push_nat(&mut text, 907);
    assert_eq!(text, "n=010907");
    let mut large = String::new();
    push_nat(&mut large, u64::MAX);
    assert_eq!(large, "18446744073709551615");
}
