use kachet::money::{add, checked_add, parse, parse_gnc_fraction, parse_or_overflow, MoneyError};
use kachet::text::IntErrorKind;

#[test]
fn roundtrip() {
    assert_eq!(kachet::money::format(-45654, 100).unwrap(), "-456.54");
    assert_eq!(kachet::money::format(0, 100).unwrap(), "0.00");
    assert_eq!(kachet::money::format(5, 100).unwrap(), "0.05");
    assert_eq!(parse("456.54", 100).unwrap(), (45654, 100));
    assert_eq!(parse("-1,234.5", 100).unwrap(), (-123450, 100));
    assert_eq!(parse("7", 100).unwrap(), (700, 100));
    assert!(parse("1.234", 100).is_err());
}

#[test]
fn rational_add() {
    assert_eq!(add((1, 100), (1, 10)), (11, 100));
    assert_eq!(add((5, 100), (-5, 100)), (0, 100));
}

#[test]
fn format_whole_and_odd_denominators() {
    assert_eq!(kachet::money::format(1234, 1).unwrap(), "1234");
    assert_eq!(kachet::money::format(-7, 1000).unwrap(), "-0.007");
    assert_eq!(kachet::money::format(3, 0).unwrap(), "3/0");
    assert_eq!(kachet::money::format(-3, -4).unwrap(), "-3/-4");
    assert_eq!(kachet::money::format(1, 3), None);
    assert_eq!(kachet::money::format(i128::MIN, 1).unwrap(), "-170141183460469231731687303715884105728");
}

#[test]
fn format_then_parse_gives_back_the_amount() {
    for (num, frac) in [(0i64, 1i64), (-45654, 100), (123456789, 1000), (-5, 10), (i64::MAX, 100)] {
        let s = kachet::money::format(num as i128, frac as i128).unwrap();
        assert_eq!(parse(&s, frac).unwrap(), (num, frac));
    }
}

#[test]
fn parse_errors() {
    assert!(matches!(parse(" , $ ", 100), Err(MoneyError::EmptyAmount)));
    assert!(matches!(parse("1", 30), Err(MoneyError::BadFraction(30))));
    match parse("$1,2.345", 100) {
        Err(MoneyError::TooManyDecimals { amount, scale }) => {
            assert_eq!(amount, "12.345");
            assert_eq!(scale, 2);
        }
        _ => panic!("expected too many decimals"),
    }
    assert!(matches!(parse("1x", 100), Err(MoneyError::InvalidNumber(IntErrorKind::InvalidDigit))));
    assert!(matches!(parse("99999999999999999", 100), Err(MoneyError::Overflow)));
    assert_eq!(parse("+3.1", 100).unwrap(), (310, 100));
    assert_eq!(parse("-.5", 10).unwrap(), (-5, 10));
}

#[test]
fn parse_negating_the_smallest_amount_overflows() {
    assert!(matches!(parse_or_overflow("-4611686018427387904", -2), Err(MoneyError::Overflow)));
    assert_eq!(parse_or_overflow("12.5", 10).unwrap(), (125, 10));
}

#[test]
fn gnc_fractions() {
    assert_eq!(parse_gnc_fraction("44677/100").unwrap(), (44677, 100));
    assert_eq!(parse_gnc_fraction(" -3 / 7 ").unwrap(), (-3, 7));
    match parse_gnc_fraction("12") {
        Err(MoneyError::BadGncFraction(s)) => assert_eq!(s, "12"),
        _ => panic!("expected a bad fraction"),
    }
    assert!(matches!(parse_gnc_fraction("a/2"), Err(MoneyError::InvalidNumber(_))));
}

#[test]
fn checked_addition() {
    assert_eq!(checked_add((1, 100), (1, 10)), Some((11, 100)));
    assert_eq!(checked_add((1, 4), (1, 6)), Some((5, 12)));
    assert_eq!(checked_add((1, 0), (1, 2)), None);
    assert_eq!(checked_add((i128::MAX, 1), (1, 1)), None);
}

#[test]
fn addition_is_exact_and_commutes_in_value() {
    let (a, b) = ((1i128, 4i128), (1i128, 6i128));
    let x = add(a, b);
    let y = add(b, a);
    // 1/4 + 1/6 = 5/12
    assert_eq!(x.0 * 12, 5 * x.1);
    assert_eq!(x.0 * y.1, y.0 * x.1);
    let z = add((3, 10), (-7, 100));
    assert_eq!(z, (23, 100));
}

#[test]
fn helpers_of_formatting() {
    assert_eq!(kachet::money::pow10_scale(1000), Some(3));
    assert_eq!(kachet::money::pow10_scale(1), Some(0));
    assert_eq!(kachet::money::pow10_scale(250), None);
    assert_eq!(kachet::money::gcd(12, -18), 6);
    assert_eq!(kachet::money::gcd(0, 0), 1);
}

#[test]
fn gnc_fractions_read_back_unreduced() {
    for (n, d) in [(-7i64, 100i64), (50, 100), (i64::MIN, -1), (i64::MAX, 3), (0, 0)] {
        let text = format!("{}/{}", n, d);
        assert_eq!(parse_gnc_fraction(&text).unwrap(), (n, d));
    }
    assert!(matches!(parse_gnc_fraction("12"), Err(MoneyError::BadGncFraction(_))));
    assert!(parse_gnc_fraction("").is_err());
}

#[test]
fn the_fraction_part_is_digits_only() {
    assert!(matches!(parse("1.-5", 100), Err(MoneyError::InvalidNumber(IntErrorKind::InvalidDigit))));
    assert!(matches!(parse("1.+5", 100), Err(MoneyError::InvalidNumber(IntErrorKind::InvalidDigit))));
    assert!(parse("1.x", 100).is_err());
    assert_eq!(parse("-1.05", 100).unwrap(), (-105, 100));
}
