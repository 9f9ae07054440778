use sturnus::double::{Double, INFINITY, ONE, SIGN};
use sturnus::text::{
    contains, decimal, is_white_space, parse_unsigned, same, split, split_once, starts_with,
    strip_prefix, trim, trim_end_matches,
};

fn double(x: f64) -> Double {
    Double::from_bits(x.to_bits())
}

#[test]
fn doubles_compare_as_doubles_do() {
    let samples = [
        0.0,
        -0.0,
        1.0,
        -1.0,
        0.3,
        0.1 + 0.2,
        f64::MIN_POSITIVE,
        5e-324,
        -5e-324,
        f64::MAX,
        f64::MIN,
        f64::INFINITY,
        f64::NEG_INFINITY,
        f64::NAN,
        -f64::NAN,
        1.0 + f64::EPSILON,
        1.0 - f64::EPSILON / 2.0,
    ];
    for a in samples {
        for b in samples {
            assert_eq!(double(a).less_than(double(b)), a < b, "{a} {b}");
        }
        assert_eq!(double(a).is_finite(), a.is_finite(), "{a}");
        assert_eq!(
            double(a).in_unit_interval(),
            (0.0..=1.0).contains(&a),
            "{a}"
        );
        assert_eq!(
            double(a).is_finite_and_nonnegative(),
            a.is_finite() && a >= 0.0,
            "{a}"
        );
    }
    assert_eq!(f64::from_bits(ONE), 1.0);
    assert_eq!(f64::from_bits(INFINITY), f64::INFINITY);
    assert_eq!((-0.0f64).to_bits(), SIGN);
    assert_eq!(Double::one(), double(1.0));
    assert_eq!(Double::zero(), double(0.0));
    assert_eq!(Double::infinity().to_bits(), INFINITY);
}

#[test]
fn white_space_is_that_of_unicode() {
    for c in '\0'..='\u{10ffff}' {
        assert_eq!(is_white_space(c), c.is_whitespace(), "{c:?}");
    }
}

#[test]
fn trimming() {
    for s in ["", " ", " a b ", "\u{2003}x\u{3000}", "x", "\u{200b} y"] {
        assert_eq!(trim(s), s.trim());
        assert_eq!(trim_end_matches(s, ' '), s.trim_end_matches(' '));
    }
    assert_eq!(trim_end_matches("a//b///", '/'), "a//b");
    assert_eq!(trim_end_matches("///", '/'), "");
}

#[test]
fn splitting() {
    for s in ["", "-", "a-b--c", "abc", "-a", "\u{e9}-\u{1f600}-"] {
        let expected: Vec<&str> = s.split('-').collect();
        assert_eq!(split(s, '-'), expected);
        assert_eq!(split_once(s, '-'), s.split_once('-'));
    }
}

#[test]
fn prefixes_and_pieces() {
    assert_eq!(strip_prefix("/v1/x", "/v1"), Some("/x"));
    assert_eq!(strip_prefix("/v", "/v1"), None);
    assert_eq!(strip_prefix("\u{e9}a", "\u{e9}"), Some("a"));
    assert!(starts_with("https://x", "https://"));
    assert!(!starts_with("http", "http://"));
    assert!(starts_with("x", ""));
    assert!(contains("a connection closed b", "connection closed"));
    assert!(!contains("connectio", "connection"));
    assert!(contains("", ""));
    assert!(contains("\u{e9}\u{e9}x", "\u{e9}x"));
    assert!(same("", ""));
    assert!(same("a\u{e9}", "a\u{e9}"));
    assert!(!same("a", "b"));
    assert!(!same("a", "ab"));
}

#[test]
fn numbers() {
    for n in [0, 7, 10, 99, 100, 4096, u64::MAX] {
        assert_eq!(decimal(n), n.to_string());
        assert_eq!(parse_unsigned(&decimal(n)), Some(n));
    }
    for s in [
        "",
        "+",
        "-1",
        "+5",
        "007",
        "18446744073709551615",
        "18446744073709551616",
        "99999999999999999999",
        "1 ",
        "max",
        "\u{661}",
        "++1",
    ] {
        assert_eq!(parse_unsigned(s), s.parse::<u64>().ok(), "{s}");
    }
}
