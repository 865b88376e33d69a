use rustzilla::decimal::{
    fraction_carry, is_whole, only_digits, read_exponent, spells_word, Decimal, Number,
    EXPONENT_LIMIT,
};
use rustzilla::duration::{decode_duration_seconds, PIXELS_PER_SPAN, SECONDS_PER_SPAN};

fn number(text: &str) -> Number {
    Number::parse(text).unwrap()
}

fn px(text: &str) -> Decimal {
    match number(text) {
        Number::Finite(decimal) => decimal,
        other => panic!("{:?} is not finite: {:?}", text, other),
    }
}

fn finite(negative: bool, whole: u64, leading_zeros: u64, digits: &str) -> Number {
    Number::Finite(Decimal { negative, whole, leading_zeros, digits: digits.chars().collect() })
}

fn chars(text: &str) -> Vec<char> {
    text.chars().collect()
}

#[test]
fn one_hour_is_58_pixels() {
    assert_eq!(decode_duration_seconds(&px("58.0")), 3600);
    assert_eq!(decode_duration_seconds(&px("29.0")), 1800);
}

#[test]
fn float_widths_decode_like_their_decimal_text() {
    for (width, expected) in [
        (58.0f64, 3600i128),
        (29.0, 1800),
        (14.5, 900),
        (116.0, 7200),
        (10.0, 621),
        (1.8125, 113),
        (0.0080556, 1),
    ] {
        let text = format!("{:?}", width);
        assert_eq!(decode_duration_seconds(&px(&text)), expected);
        assert_eq!((width * 3600.0 / 58.0).round() as i128, expected);
    }
}

#[test]
fn fractional_widths_round_to_the_nearest_second() {
    assert_eq!(decode_duration_seconds(&px("14.5")), 900);
    assert_eq!(decode_duration_seconds(&px("1")), 62);
    assert_eq!(decode_duration_seconds(&px("0.5")), 31);
    assert_eq!(decode_duration_seconds(&px("0.1")), 6);
    assert_eq!(decode_duration_seconds(&px("57.99")), 3599);
    assert_eq!(decode_duration_seconds(&px("57.995")), 3600);
    assert_eq!(decode_duration_seconds(&px("0.008055")), 0);
    assert_eq!(decode_duration_seconds(&px("0.008056")), 1);
}

#[test]
fn every_digit_of_the_width_counts() {
    // Half a second is 0.0080555... pixels, with fives without end.
    assert_eq!(decode_duration_seconds(&px("0.0080555")), 0);
    assert_eq!(decode_duration_seconds(&px("0.0080556")), 1);
    assert_eq!(decode_duration_seconds(&px("0.008055555555555555555555555555555555")), 0);
    assert_eq!(decode_duration_seconds(&px("0.008055555555555555555555555555555556")), 1);
    assert_eq!(decode_duration_seconds(&px("58.008055555555555555555555555555555555")), 3600);
    assert_eq!(decode_duration_seconds(&px("58.008055555555555555555555555555555556")), 3601);
    assert_eq!(decode_duration_seconds(&px("-0.008055555555555555555555555555555556")), -1);
    assert_eq!(decode_duration_seconds(&px("8055555555555555555555555555555556e-36")), 1);
    assert_eq!(decode_duration_seconds(&px("8055555555555555555555555555555555e-36")), 0);
}

#[test]
fn halves_round_away_from_zero() {
    // 0.0725 px is 4.5 s, 0.2175 px is 13.5 s, 1.8125 px is 112.5 s.
    assert_eq!(decode_duration_seconds(&px("0.0725")), 5);
    assert_eq!(decode_duration_seconds(&px("-0.0725")), -5);
    assert_eq!(decode_duration_seconds(&px("0.2175")), 14);
    assert_eq!(decode_duration_seconds(&px("-0.2175")), -14);
    assert_eq!(decode_duration_seconds(&px("1.8125")), 113);
    assert_eq!(decode_duration_seconds(&px("0.07249999999999999999999999")), 4);
    assert_eq!(decode_duration_seconds(&px("0.07250000000000000000000000")), 5);
    assert_eq!(decode_duration_seconds(&px("725e-4")), 5);
}

#[test]
fn zero_and_negative_widths_decode_without_complaint() {
    assert_eq!(decode_duration_seconds(&px("0")), 0);
    assert_eq!(decode_duration_seconds(&px("-0.0")), 0);
    assert_eq!(decode_duration_seconds(&px("-58")), -3600);
    assert_eq!(decode_duration_seconds(&px("-14.5")), -900);
    assert_eq!(decode_duration_seconds(&px("-0.008056")), -1);
}

#[test]
fn scale_is_the_named_one() {
    assert_eq!((SECONDS_PER_SPAN, PIXELS_PER_SPAN), (3600, 58));
    assert_eq!(decode_duration_seconds(&px("58")), SECONDS_PER_SPAN as i128);
}

#[test]
fn largest_widths_decode() {
    assert_eq!(
        decode_duration_seconds(&px("18446744073709551615")),
        (18_446_744_073_709_551_615i128 * 7200 + 58) / 116
    );
    assert_eq!(
        decode_duration_seconds(&px("-18446744073709551615.999999999")),
        -((18_446_744_073_709_551_615i128 * 7200 + 7199 + 58) / 116)
    );
}

#[test]
fn numbers_keep_all_their_digits() {
    assert_eq!(number("58.0"), finite(false, 58, 0, "0"));
    assert_eq!(number("29"), finite(false, 29, 0, ""));
    assert_eq!(number(".5"), finite(false, 0, 0, "5"));
    assert_eq!(number("5."), finite(false, 5, 0, ""));
    assert_eq!(number("+3"), finite(false, 3, 0, ""));
    assert_eq!(number("-1.25"), finite(true, 1, 0, "25"));
    assert_eq!(number("007.100"), finite(false, 7, 0, "100"));
    assert_eq!(number("-0"), finite(true, 0, 0, ""));
    assert_eq!(number("1.2345678"), finite(false, 1, 0, "2345678"));
    assert_eq!(
        number("0.123456789012345678901234567890"),
        finite(false, 0, 0, "123456789012345678901234567890")
    );
}

#[test]
fn exponent_moves_the_point() {
    assert_eq!(number("1e3"), finite(false, 1000, 0, ""));
    assert_eq!(number("1E3"), finite(false, 1000, 0, ""));
    assert_eq!(number("1e+3"), finite(false, 1000, 0, ""));
    assert_eq!(number("1.5e1"), finite(false, 15, 0, ""));
    assert_eq!(number("1.25e1"), finite(false, 12, 0, "5"));
    assert_eq!(number("1.25e2"), finite(false, 125, 0, ""));
    assert_eq!(number("1.25e0"), finite(false, 1, 0, "25"));
    assert_eq!(number("1.25e-0"), finite(false, 1, 0, "25"));
    assert_eq!(number("15e-1"), finite(false, 1, 0, "5"));
    assert_eq!(number("15e-2"), finite(false, 0, 0, "15"));
    assert_eq!(number("15e-4"), finite(false, 0, 2, "15"));
    assert_eq!(number("-1.5e-3"), finite(true, 0, 2, "15"));
    assert_eq!(number(".5e1"), finite(false, 5, 0, ""));
    assert_eq!(number("5.e1"), finite(false, 50, 0, ""));
    assert_eq!(number("0e5"), finite(false, 0, 0, ""));
    assert_eq!(number("1e0007"), finite(false, 10_000_000, 0, ""));
}

#[test]
fn whole_part_beyond_the_machine_is_infinite() {
    assert_eq!(number("18446744073709551615"), finite(false, u64::MAX, 0, ""));
    assert_eq!(number("18446744073709551616"), Number::Infinite { negative: false });
    assert_eq!(number("-18446744073709551616.5"), Number::Infinite { negative: true });
    assert_eq!(number("1e19"), finite(false, 10_000_000_000_000_000_000, 0, ""));
    assert_eq!(number("2e19"), Number::Infinite { negative: false });
    assert_eq!(number("1e20"), Number::Infinite { negative: false });
    assert_eq!(number("-1e400"), Number::Infinite { negative: true });
    assert_eq!(number("0.00001e400"), Number::Infinite { negative: false });
    assert_eq!(number("1e99999999999999999999999999"), Number::Infinite { negative: false });
    assert_eq!(number("0e99999999999999999999999999"), finite(false, 0, 0, ""));
    assert_eq!(number("0.000e99999999999999999999999999"), finite(false, 0, 0, ""));
}

#[test]
fn tiny_numbers_stay_finite() {
    assert_eq!(number("1e-30"), finite(false, 0, 29, "1"));
    assert_eq!(decode_duration_seconds(&px("1e-30")), 0);
    let tiny = number("12.5e-99999999999999999999999999");
    assert_eq!(tiny, finite(false, 0, EXPONENT_LIMIT - 2, "125"));
    assert_eq!(decode_duration_seconds(&px("12.5e-99999999999999999999999999")), 0);
    assert_eq!(px("-1e-9223372036854775807").whole_clamped(), 0);
}

#[test]
fn special_words_are_read() {
    for text in ["inf", "INF", "Inf", "+inf", "infinity", "Infinity", "+INFINITY", "iNfInItY"] {
        assert_eq!(number(text), Number::Infinite { negative: false }, "{:?}", text);
    }
    for text in ["-inf", "-Infinity", "-INF"] {
        assert_eq!(number(text), Number::Infinite { negative: true }, "{:?}", text);
    }
    for text in ["nan", "NaN", "NAN", "+nan", "-nan"] {
        assert_eq!(number(text), Number::NotANumber, "{:?}", text);
    }
}

#[test]
fn the_same_texts_are_numbers_as_for_floats() {
    let texts = [
        "", ".", "+", "-", "+.", "-.", "e", "e5", "E5", ".e5", "1e", "1e+", "1e-", "1e1.5", "1e5e5",
        "1.2.3", "--1", "+-1", "-+1", "1 ", " 1", "1,5", "0x10", "1_000", "1e 5", "1 e5", "abc",
        "in", "infinit", "infinityy", "nane", "na", "i", "+", "in f", "1inf", "inf1", "nan1",
        "0", "1", "+1", "-1", "1.", ".1", "1.0", "-1.0", "+1.0", "1e5", "1E5", "1e+5", "1e-5",
        "1.e5", ".1e5", "1.5e-3", "-0", "-0.0", "00012", "12.3400", "1e0", "1e00", "1e-0",
        "inf", "+inf", "-inf", "infinity", "-infinity", "nan", "+nan", "-nan", "NaN", "INF",
        "58.0", "32400", "14.5", "0.0080556", "1e3", "1e400", "1e-400", "123456789012345678901234",
        "0.000000000000000000000000000001", "5e", "5.5.5e1", "1e--5", "1e+-5", "\u{663}", "1\u{663}",
    ];
    for text in texts {
        assert_eq!(Number::parse(text).is_some(), text.parse::<f64>().is_ok(), "{:?}", text);
    }
}

#[test]
fn finite_numbers_agree_with_floats() {
    for text in ["0", "58.0", "14.5", "1e3", "1.5e-3", "32400.75", "-7.25", "12e2", "0.001e3"] {
        let float: f64 = text.parse().unwrap();
        let decimal = px(text);
        let fraction: f64 = format!("0.{}{}", "0".repeat(decimal.leading_zeros as usize),
            decimal.digits.iter().collect::<String>()).parse().unwrap();
        let value = decimal.whole as f64 + fraction;
        assert_eq!(if decimal.negative { -value } else { value }, float, "{:?}", text);
    }
}

#[test]
fn whole_seconds_drop_the_fraction_and_stay_in_range() {
    assert_eq!(px("32400.75").whole_clamped(), 32_400);
    assert_eq!(px("0.999999999999999999999").whole_clamped(), 0);
    assert_eq!(px("-0.5").whole_clamped(), 0);
    assert_eq!(px("-7").whole_clamped(), 0);
    assert_eq!(px("4294967295.5").whole_clamped(), u32::MAX);
    assert_eq!(px("4294967296").whole_clamped(), u32::MAX);
    assert_eq!(px("4294967294.9").whole_clamped(), u32::MAX - 1);
    assert_eq!(px("1e3").whole_clamped(), 1000);
    assert_eq!(px("1e19").whole_clamped(), u32::MAX);
}

#[test]
fn sums_drop_the_fraction_toward_zero() {
    assert_eq!(px("10.9").plus_clamped(5), 15);
    assert_eq!(px("10.9").plus_clamped(-10), 0);
    assert_eq!(px("10.9").plus_clamped(-11), 0);
    assert_eq!(px("10").plus_clamped(-9), 1);
    assert_eq!(px("-10.5").plus_clamped(12), 1);
    assert_eq!(px("-10.0").plus_clamped(12), 2);
    assert_eq!(px("-10.5").plus_clamped(11), 0);
    assert_eq!(px("-10.5").plus_clamped(10), 0);
    assert_eq!(px("-0.000000000000000000001").plus_clamped(3600), 3599);
    assert_eq!(px("-0").plus_clamped(3600), 3600);
    assert_eq!(px("4294967290").plus_clamped(5), u32::MAX);
    assert_eq!(px("4294967290").plus_clamped(6), u32::MAX);
    assert_eq!(px("4294967290").plus_clamped(4), u32::MAX - 1);
    assert_eq!(px("1").plus_clamped(i128::MAX), u32::MAX);
    assert_eq!(px("-1").plus_clamped(i128::MIN), 0);
}

#[test]
fn carry_is_the_whole_part_of_the_product() {
    let decimal = |text: &str| px(text);
    assert_eq!(fraction_carry(&decimal("0.5"), 7200), 3600);
    assert_eq!(fraction_carry(&decimal("0.25"), 7200), 1800);
    assert_eq!(fraction_carry(&decimal("0.999"), 7200), 7192);
    assert_eq!(fraction_carry(&decimal("7"), 7200), 0);
    assert_eq!(fraction_carry(&decimal("0.0001388"), 7200), 0);
    assert_eq!(fraction_carry(&decimal("0.0001389"), 7200), 1);
    assert_eq!(fraction_carry(&decimal("1389e-7"), 7200), 1);
    assert_eq!(fraction_carry(&decimal("0.99999999999999999999"), u32::MAX), u32::MAX as u64 - 1);
    assert_eq!(fraction_carry(&decimal("0.5"), 0), 0);
    assert_eq!(fraction_carry(&decimal("0.5"), 1), 0);
    assert_eq!(fraction_carry(&decimal("0.5"), 3), 1);
}

#[test]
fn is_whole_looks_at_every_digit() {
    assert!(is_whole(&px("5")));
    assert!(is_whole(&px("5.000000000000000000000")));
    assert!(!is_whole(&px("5.000000000000000000001")));
    assert!(!is_whole(&px("1e-25")));
    assert!(is_whole(&px("0e-25")));
}

#[test]
fn exponents_are_read_up_to_the_limit() {
    assert_eq!(read_exponent(&chars("5")), Some((false, 5)));
    assert_eq!(read_exponent(&chars("+5")), Some((false, 5)));
    assert_eq!(read_exponent(&chars("-5")), Some((true, 5)));
    assert_eq!(read_exponent(&chars("-0")), Some((true, 0)));
    assert_eq!(read_exponent(&chars("9223372036854775807")), Some((false, EXPONENT_LIMIT)));
    assert_eq!(read_exponent(&chars("9223372036854775808")), Some((false, EXPONENT_LIMIT)));
    assert_eq!(read_exponent(&chars("-99999999999999999999999")), Some((true, EXPONENT_LIMIT)));
    assert_eq!(read_exponent(&chars("")), None);
    assert_eq!(read_exponent(&chars("+")), None);
    assert_eq!(read_exponent(&chars("1.5")), None);
    assert_eq!(read_exponent(&chars("--1")), None);
}

#[test]
fn words_are_spelled_in_either_case() {
    assert!(spells_word(&chars("NaN"), "nan", "NAN"));
    assert!(!spells_word(&chars("na"), "nan", "NAN"));
    assert!(!spells_word(&chars("nan "), "nan", "NAN"));
    assert!(!spells_word(&chars("man"), "nan", "NAN"));
    assert!(spells_word(&chars(""), "", ""));
    assert!(only_digits(&chars("0123456789")));
    assert!(only_digits(&chars("")));
    assert!(!only_digits(&chars("12a")));
}
