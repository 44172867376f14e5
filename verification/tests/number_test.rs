use bonsai::number::{F32, F64};
use bonsai::text;

fn f(x: f32) -> F32 {
    F32 { bits: x.to_bits() }
}

fn d(x: f64) -> F64 {
    F64 { bits: x.to_bits() }
}

const SINGLES: [f32; 16] = [
    0.0,
    -0.0,
    1.0,
    -1.0,
    0.1,
    1e-45,
    -1e-45,
    1.1754942e-38,
    1.1754944e-38,
    f32::MAX,
    f32::MIN,
    f32::INFINITY,
    f32::NEG_INFINITY,
    f32::NAN,
    2147483648.0,
    -7.9,
];

#[test]
fn comparisons_are_those_of_numbers() {
    for a in SINGLES {
        assert_eq!(f(a).is_nan(), a.is_nan());
        assert_eq!(f(a).is_finite(), a.is_finite());
        assert_eq!(f(a).to_i32(), a as i32, "{a}");
        for b in SINGLES {
            assert_eq!(f(a).lt(f(b)), a < b, "{a} {b}");
            assert_eq!(f(a).le(f(b)), a <= b, "{a} {b}");
            assert_eq!(f(a).equals(f(b)), a == b, "{a} {b}");
            assert_eq!(d(a as f64).lt(d(b as f64)), a < b, "{a} {b}");
            assert_eq!(d(a as f64).le(d(b as f64)), a <= b, "{a} {b}");
        }
    }
}

#[test]
fn widening_keeps_the_value() {
    for a in SINGLES {
        if !a.is_nan() {
            assert_eq!(f(a).widen(), d(a as f64), "{a}");
            assert_eq!(f(a).widen().narrow(), f(a), "{a}");
        } else {
            assert!(f(a).widen().is_nan());
            assert!(d(f64::NAN).narrow().is_nan());
        }
    }
}

#[test]
fn narrowing_rounds_to_the_nearest() {
    for x in [
        0.1,
        1.0 / 3.0,
        -1e-46,
        7e-46,
        7.006492321624085e-46,
        1e39,
        -1e39,
        3.4028235677973366e38,
        3.4028235677973362e38,
        16777217.0,
        16777219.0,
        1.1754943e-38,
        5e-324,
        f64::MAX,
        f64::NEG_INFINITY,
    ] {
        assert_eq!(d(x).narrow(), f(x as f32), "{x}");
    }
}

#[test]
fn texts_are_taken_apart() {
    assert_eq!(text::trim("\u{a0} a b\t\n"), "a b");
    assert_eq!(text::first_word("  binary sigmoid:1"), "binary");
    assert_eq!(text::first_word("  "), "");
    assert_eq!(text::split("a,,b,", ','), vec!["a", "", "b", ""]);
    assert_eq!(text::to_lines("a\r\nb\n\nc"), vec!["a", "b", "", "c"]);
    assert_eq!(text::to_lines("a\n"), vec!["a"]);
    assert!(text::starts_with("ground_truth", "ground"));
    assert!(!text::starts_with("gr", "ground"));
}

#[test]
fn numbers_are_read_and_written() {
    assert_eq!(text::parse_unsigned("+042", 100), Some(42));
    assert_eq!(text::parse_unsigned("101", 100), None);
    assert_eq!(text::parse_unsigned("18446744073709551615", u64::MAX), Some(u64::MAX));
    assert_eq!(text::parse_unsigned("18446744073709551616", u64::MAX), None);
    assert_eq!(text::parse_unsigned("-1", 100), None);
    assert_eq!(text::parse_unsigned("", 100), None);
    assert_eq!(text::parse_unsigned("+", 100), None);
    let mut out = String::new();
    text::push_decimal(&mut out, u64::MAX);
    out.push(' ');
    text::push_signed(&mut out, i64::MIN);
    out.push(' ');
    text::push_hex(&mut out, 0xbeef);
    assert_eq!(out, "18446744073709551615 -9223372036854775808 000000000000beef");
}
