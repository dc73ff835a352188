use visual_novel_recommendation_engine::fixed::pow_transform;
use visual_novel_recommendation_engine::text::{
    parse_fixed, parse_uint, split_fields, split_on_char, str_eq, u64_to_string, v_label,
};

#[test]
fn split_on_char_keeps_empty_pieces() {
    let parts = split_on_char("a\t\tb", '\t');
    assert_eq!(parts, vec!["a".to_string(), "".to_string(), "b".to_string()]);
    assert_eq!(split_on_char("", '\t'), vec!["".to_string()]);
}

#[test]
fn split_fields_skips_whitespace_runs() {
    let parts = split_fields("  5  100\t80 2020-01-01\r");
    assert_eq!(
        parts,
        vec![
            "5".to_string(),
            "100".to_string(),
            "80".to_string(),
            "2020-01-01".to_string()
        ]
    );
    assert_eq!(split_fields("   "), Vec::<String>::new());
}

#[test]
fn parse_uint_accepts_digit_runs_only() {
    assert_eq!(parse_uint("123", 1_000_000_000), Some(123));
    assert_eq!(parse_uint("0", 1_000_000_000), Some(0));
    assert_eq!(parse_uint("", 1_000_000_000), None);
    assert_eq!(parse_uint("12a", 1_000_000_000), None);
    assert_eq!(parse_uint("-5", 1_000_000_000), None);
    assert_eq!(parse_uint("2000000000", 1_000_000_000), None);
}

#[test]
fn parse_fixed_reads_thousandths() {
    assert_eq!(parse_fixed("2.5"), Some(2_500));
    assert_eq!(parse_fixed("-1.25"), Some(-1_250));
    assert_eq!(parse_fixed("+3"), Some(3_000));
    assert_eq!(parse_fixed("0.0015"), Some(1));
    assert_eq!(parse_fixed("80"), Some(80_000));
    assert_eq!(parse_fixed("1."), Some(1_000));
}

#[test]
fn parse_fixed_rejects_malformed_fields() {
    assert_eq!(parse_fixed(""), None);
    assert_eq!(parse_fixed("."), None);
    assert_eq!(parse_fixed(".5"), None);
    assert_eq!(parse_fixed("1.2.3"), None);
    assert_eq!(parse_fixed("1e5"), None);
    assert_eq!(parse_fixed("abc"), None);
    assert_eq!(parse_fixed("2000000000"), None);
}

#[test]
fn pow_transform_keeps_the_sign() {
    // exponent 1 is the identity
    assert_eq!(pow_transform(80_000, 1), 80_000);
    assert_eq!(pow_transform(-80_000, 1), -80_000);
    // 2.0^2 = 4.0, and sign(x) * |x|^2 keeps the sign
    assert_eq!(pow_transform(2_000, 2), 4_000);
    assert_eq!(pow_transform(-2_000, 2), -4_000);
    // x^0 is 1.0 except at zero, where the sign factor wins
    assert_eq!(pow_transform(5_000, 0), 1_000);
    assert_eq!(pow_transform(0, 3), 0);
    // 2.5^2 = 6.25
    assert_eq!(pow_transform(2_500, 2), 6_250);
}

#[test]
fn pow_transform_saturates() {
    // 1e6^2 = 1e12 reals, far past the representable magnitude
    assert_eq!(
        pow_transform(1_000_000_000, 3),
        1_000_000_000_000
    );
}

#[test]
fn decimal_rendering() {
    assert_eq!(u64_to_string(0), "0");
    assert_eq!(u64_to_string(7), "7");
    assert_eq!(u64_to_string(1234), "1234");
    assert_eq!(u64_to_string(1000), "1000");
}

#[test]
fn labels_cover_negatives() {
    assert_eq!(v_label(42), "v42");
    assert_eq!(v_label(0), "v0");
    assert_eq!(v_label(-3), "v-3");
}

#[test]
fn str_eq_is_character_equality() {
    assert!(str_eq("en", "en"));
    assert!(!str_eq("en", "ja"));
    assert!(!str_eq("en", "eng"));
    assert!(str_eq("", ""));
}
