use dicom_volume::decimal::{parse_decimal, parse_decimal_list, Decimal};
use dicom_volume::element::tag_string;
use dicom_volume::text::{parse_i32, parse_u16, trim_blanks};

#[test]
fn integer_strings_read_like_rust_integers() {
    assert_eq!(parse_i32("42"), Some(42));
    assert_eq!(parse_i32("-7"), Some(-7));
    assert_eq!(parse_i32("+15"), Some(15));
    assert_eq!(parse_i32("2147483647"), Some(i32::MAX));
    assert_eq!(parse_i32("-2147483648"), Some(i32::MIN));
    assert_eq!(parse_i32("2147483648"), None);
    assert_eq!(parse_i32(""), None);
    assert_eq!(parse_i32("-"), None);
    assert_eq!(parse_i32(" 5"), None);
    assert_eq!(parse_i32("5a"), None);
    assert_eq!(parse_i32("99999999999999999999"), None);
}

#[test]
fn unsigned_short_strings() {
    assert_eq!(parse_u16("16"), Some(16));
    assert_eq!(parse_u16("65535"), Some(65535));
    assert_eq!(parse_u16("65536"), None);
    assert_eq!(parse_u16("-1"), None);
}

#[test]
fn blanks_are_trimmed_on_both_sides() {
    assert_eq!(trim_blanks("  a b \t"), "a b");
    assert_eq!(trim_blanks("   "), "");
    assert_eq!(trim_blanks("x"), "x");
}

#[test]
fn decimal_strings_read_to_millionths() {
    assert_eq!(parse_decimal("2.5"), Some(Decimal { micros: 2_500_000 }));
    assert_eq!(parse_decimal(" -12.5 "), Some(Decimal { micros: -12_500_000 }));
    assert_eq!(parse_decimal("0.48828125"), Some(Decimal { micros: 488_281 }));
    assert_eq!(parse_decimal(".5"), Some(Decimal { micros: 500_000 }));
    assert_eq!(parse_decimal("7."), Some(Decimal { micros: 7_000_000 }));
    assert_eq!(parse_decimal("+3"), Some(Decimal { micros: 3_000_000 }));
    assert_eq!(parse_decimal("."), None);
    assert_eq!(parse_decimal(""), None);
    assert_eq!(parse_decimal("1.2.3"), None);
    assert_eq!(parse_decimal("abc"), None);
    assert_eq!(parse_decimal("10000000"), Some(Decimal { micros: 10_000_000_000_000 }));
    assert_eq!(parse_decimal("10000001"), None);
}

#[test]
fn decimal_lists_keep_the_components_that_read() {
    let v = parse_decimal_list("-125.5\\0\\ 30.25").unwrap();
    assert_eq!(
        v,
        vec![
            Decimal { micros: -125_500_000 },
            Decimal { micros: 0 },
            Decimal { micros: 30_250_000 }
        ]
    );
    let w = parse_decimal_list("1\\x\\2").unwrap();
    assert_eq!(w, vec![Decimal { micros: 1_000_000 }, Decimal { micros: 2_000_000 }]);
    assert_eq!(parse_decimal_list("x\\y"), None);
    assert_eq!(parse_decimal_list(""), None);
}

#[test]
fn tags_are_eight_upper_case_hex_digits() {
    assert_eq!(tag_string(0x0010, 0x0010), "00100010");
    assert_eq!(tag_string(0x7FE0, 0x0010), "7FE00010");
    assert_eq!(tag_string(0x0008, 0x103E), "0008103E");
    assert_eq!(tag_string(0xABCD, 0xEF01), "ABCDEF01");
}

#[test]
fn decimal_strings_with_exponents() {
    assert_eq!(parse_decimal("1.5E+02"), Some(Decimal { micros: 150_000_000 }));
    assert_eq!(parse_decimal("2.5e-1"), Some(Decimal { micros: 250_000 }));
    assert_eq!(parse_decimal("-1E3"), Some(Decimal { micros: -1_000_000_000 }));
    assert_eq!(parse_decimal("1e-7"), Some(Decimal { micros: 0 }));
    assert_eq!(parse_decimal("0.0001234E2"), Some(Decimal { micros: 12_340 }));
    assert_eq!(parse_decimal("0E+999999999999999999999999"), Some(Decimal { micros: 0 }));
    assert_eq!(parse_decimal("1E+8"), None);
    assert_eq!(parse_decimal("1E+99999999999999999999999"), None);
    assert_eq!(parse_decimal("1e"), None);
    assert_eq!(parse_decimal("e5"), None);
    assert_eq!(parse_decimal("1.2.3e1"), None);
    assert_eq!(parse_decimal("1e2.5"), None);
    let v = parse_decimal_list("1.0E+00\\-2.5E-01").unwrap();
    assert_eq!(v, vec![Decimal { micros: 1_000_000 }, Decimal { micros: -250_000 }]);
}
