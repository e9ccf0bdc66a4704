use larql::metric::Metric;
use larql::text::{chars_of, comes_before, is_digit, is_white_space, push_decimal, push_digit};
use std::cmp::Ordering;

#[test]
fn white_space_and_digits_agree_with_std() {
    for c in '\0'..=char::MAX {
        assert_eq!(is_white_space(c), c.is_whitespace(), "{c:?}");
        assert_eq!(is_digit(c), c.is_ascii_digit(), "{c:?}");
    }
}

#[test]
fn string_order_agrees_with_std() {
    let texts = ["", "a", "aa", "ab", "b", "model-a", "model-b", "é", "z", "\u{ffff}", "\u{10000}"];
    for a in texts {
        for b in texts {
            assert_eq!(comes_before(a, b), a < b, "{a:?} {b:?}");
        }
    }
}

#[test]
fn decimals() {
    for n in [0u128, 7, 10, 99, 100, 1234567890, u128::MAX] {
        let mut s = String::from("n=");
        push_decimal(&mut s, n);
        assert_eq!(s, format!("n={n}"));
    }
    let mut s = String::new();
    for d in 0..10u8 {
        push_digit(&mut s, d);
    }
    assert_eq!(s, "0123456789");
    assert_eq!(chars_of("aé×"), vec!['a', 'é', '×']);
}

#[test]
fn metrics_compare_as_floats_do() {
    let values = [
        0.0f32,
        -0.0,
        1.0,
        -1.0,
        1.5,
        2.0,
        50.0,
        f32::MIN_POSITIVE,
        -f32::MIN_POSITIVE,
        f32::MAX,
        f32::MIN,
        f32::INFINITY,
        f32::NEG_INFINITY,
        f32::NAN,
        -f32::NAN,
        1e-45,
        -1e-45,
    ];
    for a in values {
        for b in values {
            let x = Metric { bits: a.to_bits() };
            let y = Metric { bits: b.to_bits() };
            assert_eq!(
                x.compare(y),
                a.partial_cmp(&b).unwrap_or(Ordering::Equal),
                "{a} {b}"
            );
            assert_eq!(x.exceeds(y), a > b, "{a} {b}");
        }
    }
}
