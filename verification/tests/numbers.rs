use metric_gauge::binary32::{
    clamp_percent, is_at_least_half, is_at_most, is_less, HALF, HUNDRED, SIXTY_SIX, THIRTY_THREE,
    ZERO,
};
use metric_gauge::text;

fn samples() -> Vec<f32> {
    vec![
        0.0,
        -0.0,
        f32::from_bits(1),
        -f32::from_bits(1),
        f32::MIN_POSITIVE,
        0.25,
        0.49999997,
        0.5,
        0.50000006,
        1.0,
        -1.0,
        32.999996,
        33.0,
        33.000004,
        66.0,
        99.99999,
        100.0,
        100.00001,
        -100.0,
        1.0e9,
        f32::MAX,
        f32::MIN,
        f32::INFINITY,
        f32::NEG_INFINITY,
        f32::NAN,
        f32::from_bits(0xffc0_0001),
        f32::from_bits(0x7f80_0001),
    ]
}

#[test]
fn named_encodings_are_those_of_their_numbers() {
    assert_eq!(f32::from_bits(ZERO), 0.0);
    assert_eq!(f32::from_bits(HALF), 0.5);
    assert_eq!(f32::from_bits(THIRTY_THREE), 33.0);
    assert_eq!(f32::from_bits(SIXTY_SIX), 66.0);
    assert_eq!(f32::from_bits(HUNDRED), 100.0);
}

#[test]
fn encodings_compare_like_their_numbers() {
    for a in samples() {
        for b in samples() {
            assert_eq!(is_less(a.to_bits(), b.to_bits()), a < b, "{} < {}", a, b);
            assert_eq!(is_at_most(a.to_bits(), b.to_bits()), a <= b, "{} <= {}", a, b);
        }
        assert_eq!(is_at_least_half(a.to_bits()), a >= 0.5, "{} >= 0.5", a);
    }
}

#[test]
fn clamping_agrees_with_float_clamp() {
    for a in samples() {
        assert_eq!(clamp_percent(a.to_bits()), a.clamp(0.0, 100.0).to_bits(), "{}", a);
    }
}

#[test]
fn clamping_keeps_within_bounds_and_is_stable() {
    for a in samples() {
        let c: u32 = clamp_percent(a.to_bits());
        let v = f32::from_bits(c);
        assert!(v.is_nan() || (0.0..=100.0).contains(&v));
        assert_eq!(v.is_nan(), a.is_nan());
        assert_eq!(clamp_percent(c), c);
    }
}

#[test]
fn white_space_is_that_of_unicode() {
    for u in 0u32..0x1_1000 {
        if let Some(c) = char::from_u32(u) {
            assert_eq!(text::white_space(c), c.is_whitespace(), "{:x}", u);
        }
    }
}

#[test]
fn trimming_agrees_with_str() {
    for s in ["", " ", "a", " a", "a ", "\t a b \r\n", "\u{a0}x\u{3000}", "  "] {
        assert_eq!(text::trim(s), s.trim());
        assert_eq!(text::first_word(s.trim()), s.split_whitespace().next().unwrap_or(""));
    }
    for s in ["", "\"", "\"\"", "\"a\"", "a\"b", "\"\"a", "b\""] {
        assert_eq!(text::strip_char(s, '"'), s.trim_matches('"'));
    }
}

#[test]
fn searching_agrees_with_str() {
    for s in ["", "a", "ab", "xaby", "äab", "aab", "b=a=b"] {
        for t in ["", "a", "ab", "b", "ä", "abc"] {
            assert_eq!(text::contains(s, t), s.contains(t), "{} in {}", t, s);
            assert_eq!(text::strip_prefix(s, t), s.strip_prefix(t));
            assert_eq!(text::same_text(s, t), s == t);
            assert_eq!(text::eq_ignoring_ascii_case(s, t), s.eq_ignore_ascii_case(t));
        }
        assert_eq!(text::before_char(s, 'b'), s.split('b').next().unwrap());
        assert_eq!(text::after_last_char(s, 'b'), s.rsplit('b').next().unwrap());
    }
    assert!(text::eq_ignoring_ascii_case("ConNection", "connection"));
    assert!(!text::eq_ignoring_ascii_case("Ä", "ä"));
}

#[test]
fn lines_agree_with_str() {
    for s in ["", "\n", "a", "a\n", "a\r\nb", "a\r\n\r\nb\r", "\r", "a\n\nb\n"] {
        let expected: Vec<&str> = s.lines().collect();
        assert_eq!(text::lines(s), expected, "{:?}", s);
    }
}

#[test]
fn unsigned_numbers_agree_with_std() {
    for s in [
        "", "+", "0", "+7", "-7", "12", "007", "1a", "ff", "FF", " 1", "18446744073709551615",
        "18446744073709551616",
    ] {
        assert_eq!(text::parse_unsigned(s, 10), s.parse::<usize>().ok(), "{}", s);
        assert_eq!(text::parse_unsigned(s, 16), usize::from_str_radix(s, 16).ok(), "{}", s);
    }
}
