use word_math_guard::{
    analyze_at, analyze_message_with_trace, compute_repetition_density, compute_topic_drift,
    generate_hex_id, hex_id_of, parse_decimal, parse_weight, score_linear, tokenize, Fraction,
    WeightError, WordMathConfig, HALF, UNIT,
};

fn value(f: Fraction) -> f64 {
    f.num as f64 / f.den as f64
}

fn frac(num: u128, den: u128) -> Fraction {
    Fraction { num, den }
}

#[test]
fn test_repetition_density_empty() {
    let y = compute_repetition_density("");
    assert_eq!(value(y), 0.0);
}

#[test]
fn test_repetition_density_basic() {
    let y = compute_repetition_density("hello hello world");
    assert!((value(y) - 2.0 / 3.0).abs() < 1e-6);
}

#[test]
fn test_topic_drift_identical() {
    let z = compute_topic_drift("rust axum web server", "rust axum web server");
    assert!((value(z) - 0.0).abs() < 1e-6);
}

#[test]
fn test_topic_drift_disjoint() {
    let z = compute_topic_drift("rust", "banana apple");
    assert!((value(z) - 1.0).abs() < 1e-6);
}

#[test]
fn test_score_linear_bounds() {
    let cfg = WordMathConfig::default();
    let s1 = value(score_linear(frac(0, 1), frac(0, 1), cfg));
    let s2 = value(score_linear(frac(1, 1), frac(1, 1), cfg));
    assert!(s1 <= 1.0 && s1 >= 0.0);
    assert!(s2 <= 1.0 && s2 >= 0.0);
}

#[test]
fn repetition_empty_is_exact_zero() {
    assert_eq!(compute_repetition_density(""), frac(0, 1));
    assert_eq!(compute_repetition_density(" ,.! "), frac(0, 1));
}

#[test]
fn repetition_single_word_repeated() {
    assert_eq!(compute_repetition_density("w w w"), frac(3, 3));
}

#[test]
fn repetition_all_distinct() {
    assert_eq!(compute_repetition_density("a b c"), frac(1, 3));
}

#[test]
fn repetition_is_case_insensitive() {
    assert_eq!(compute_repetition_density("Hello HELLO world"), frac(2, 3));
}

#[test]
fn repetition_positive_and_at_most_one() {
    for text in ["x", "one two two three three three", "ÉCOLE école ecole"] {
        let y = compute_repetition_density(text);
        assert!(y.num > 0 && y.num <= y.den);
    }
}

#[test]
fn drift_identical_sets_in_other_order() {
    assert_eq!(compute_topic_drift("b a a", "A b").num, 0);
}

#[test]
fn drift_one_side_empty() {
    assert_eq!(compute_topic_drift("hello", ""), frac(1, 1));
    assert_eq!(compute_topic_drift("", "hello"), frac(1, 1));
}

#[test]
fn drift_both_empty() {
    assert_eq!(compute_topic_drift("", "?!"), frac(0, 1));
}

#[test]
fn drift_partial_overlap() {
    assert_eq!(compute_topic_drift("a b c", "b c d e"), frac(3, 5));
}

#[test]
fn drift_is_symmetric() {
    let pairs = [("a b c", "b c d e"), ("rust", "banana apple"), ("x y", "")];
    for (m, t) in pairs {
        assert_eq!(compute_topic_drift(m, t), compute_topic_drift(t, m));
    }
}

#[test]
fn score_within_unit_for_valid_inputs() {
    let cfg = WordMathConfig { alpha: 300_000_000, beta: 200_000_000, scale: 1_000_000_000 };
    for (y, z) in [(frac(0, 1), frac(1, 1)), (frac(2, 3), frac(1, 4)), (frac(1, 1), frac(1, 1))] {
        let s = score_linear(y, z, cfg);
        assert!(s.den > 0 && s.num <= s.den);
    }
}

#[test]
fn score_perfect_when_clean() {
    let cfg = WordMathConfig { alpha: 7, beta: 2, scale: 10 };
    assert_eq!(score_linear(frac(0, 4), frac(0, 9), cfg), frac(1, 1));
}

#[test]
fn score_zero_when_worst_with_halves() {
    let cfg = WordMathConfig::default();
    assert_eq!(score_linear(frac(1, 1), frac(1, 1), cfg), frac(0, 1));
}

#[test]
fn score_exact_value() {
    let cfg = WordMathConfig::default();
    let s = score_linear(frac(2, 3), frac(1, 3), cfg);
    assert_eq!(s.num * 2, s.den);
}

#[test]
fn score_clamped_above_with_negative_weight() {
    let cfg = WordMathConfig { alpha: -1, beta: 0, scale: 1 };
    assert_eq!(score_linear(frac(1, 2), frac(0, 1), cfg), frac(1, 1));
}

#[test]
fn default_config_is_halves() {
    let cfg = WordMathConfig::default();
    assert_eq!((cfg.alpha, cfg.beta, cfg.scale), (HALF, HALF, UNIT as u64));
}

#[test]
fn config_normalizes_large_overrides() {
    let cfg = WordMathConfig::from_env(Some("2.0"), Some("2.0"));
    assert_eq!(cfg.alpha * 2, cfg.scale as i64);
    assert_eq!(cfg.beta * 2, cfg.scale as i64);
}

#[test]
fn config_keeps_default_for_unreadable_override() {
    let cfg = WordMathConfig::from_env(Some("abc"), Some("0.25"));
    assert_eq!((cfg.alpha, cfg.beta, cfg.scale), (HALF, 250_000_000, UNIT as u64));
    let cfg = WordMathConfig::from_env(Some("0.1"), Some("1,5"));
    assert_eq!((cfg.alpha, cfg.beta, cfg.scale), (100_000_000, HALF, UNIT as u64));
}

#[test]
fn config_missing_overrides_are_default() {
    let cfg = WordMathConfig::from_env(None, None);
    assert_eq!(cfg, WordMathConfig::default());
}

#[test]
fn config_small_sum_untouched() {
    let cfg = WordMathConfig::from_env(Some("0.2"), Some("0.3"));
    assert_eq!((cfg.alpha, cfg.beta, cfg.scale), (200_000_000, 300_000_000, UNIT as u64));
}

#[test]
fn parse_weight_forms() {
    assert_eq!(parse_weight("0.5"), Ok(500_000_000));
    assert_eq!(parse_weight("+3"), Ok(3_000_000_000));
    assert_eq!(parse_weight("-1.25"), Ok(-1_250_000_000));
    assert_eq!(parse_weight(".5"), Ok(500_000_000));
    assert_eq!(parse_weight("2."), Ok(2_000_000_000));
    assert_eq!(parse_weight("0.1000000000"), Ok(100_000_000));
}

#[test]
fn parse_weight_rejects() {
    assert_eq!(parse_weight(""), Err(WeightError::NotANumber));
    assert_eq!(parse_weight("."), Err(WeightError::NotANumber));
    assert_eq!(parse_weight("-"), Err(WeightError::NotANumber));
    assert_eq!(parse_weight("1.2.3"), Err(WeightError::NotANumber));
    assert_eq!(parse_weight(" 1"), Err(WeightError::NotANumber));
    assert_eq!(parse_weight("NaN"), Err(WeightError::NotANumber));
    assert_eq!(parse_weight("inf"), Err(WeightError::NotANumber));
    assert_eq!(parse_weight("abc"), Err(WeightError::NotANumber));
    assert_eq!(parse_weight("1e"), Err(WeightError::NotANumber));
    assert_eq!(parse_weight("e5"), Err(WeightError::NotANumber));
    assert_eq!(parse_weight("1e+-2"), Err(WeightError::NotANumber));
}

#[test]
fn parse_weight_exponents() {
    assert_eq!(parse_weight("1e3"), Ok(1_000_000_000_000));
    assert_eq!(parse_weight("1e-3"), Ok(1_000_000));
    assert_eq!(parse_weight("2.5E+1"), Ok(25_000_000_000));
    assert_eq!(parse_weight("-.5e1"), Ok(-5_000_000_000));
    assert_eq!(parse_weight("1e-400"), Ok(0));
    assert_eq!(parse_weight("0e999999999999999999999999"), Ok(0));
}

#[test]
fn parse_weight_rounds_past_billionths() {
    assert_eq!(parse_weight("1.0000000001"), Ok(1_000_000_000));
    assert_eq!(parse_weight("0.0000000005"), Ok(1));
    assert_eq!(parse_weight("0.00000000049"), Ok(0));
    assert_eq!(parse_weight("0.3333333333333"), Ok(333_333_333));
    assert_eq!(parse_weight("-0.6666666666"), Ok(-666_666_667));
}

#[test]
fn parse_weight_beyond_range() {
    assert_eq!(parse_weight("1000000000"), Err(WeightError::TooLarge));
    assert_eq!(parse_weight("1e400"), Err(WeightError::TooLarge));
    assert_eq!(parse_weight("999999999.9999999999"), Err(WeightError::TooLarge));
    assert_eq!(parse_weight("999999999.999999999"), Ok(999_999_999_999_999_999));
}

#[test]
fn config_small_exponent_override_is_read() {
    let cfg = WordMathConfig::from_env(Some("1e-3"), None);
    assert_eq!((cfg.alpha, cfg.beta, cfg.scale), (1_000_000, HALF, UNIT as u64));
}

#[test]
fn config_large_exponent_override_keeps_ratio() {
    let cfg = WordMathConfig::from_env(Some("1e3"), None);
    assert_eq!(cfg.alpha, 2000 * cfg.beta);
    assert_eq!((cfg.alpha + cfg.beta) as u64, cfg.scale);
}

#[test]
fn tokenize_segments_and_lowercases() {
    let t = tokenize("Hello, WORLD! Élan can't");
    assert_eq!(t, vec!["hello".to_string(), "world".to_string(), "élan".to_string(), "can't".to_string()]);
}

#[test]
fn hex_id_exact_digits() {
    assert_eq!(hex_id_of(255), "00000000000000ff");
    assert_eq!(hex_id_of(0x0123_4567_89ab_cdef), "0123456789abcdef");
    assert_eq!(hex_id_of((1u128 << 64) + 1), "0000000000000001");
}

#[test]
fn trace_ids_are_fixed_width_hex() {
    let a = generate_hex_id();
    let b = generate_hex_id();
    for id in [&a, &b] {
        assert_eq!(id.len(), 16);
        assert!(id.chars().all(|c| c.is_ascii_digit() || ('a'..='f').contains(&c)));
    }
}

#[test]
fn hex_ids_of_different_readings_differ() {
    assert_ne!(hex_id_of(1_700_000_000_000_000_000), hex_id_of(1_700_000_000_000_000_001));
    assert_eq!(hex_id_of(u64::MAX as u128), "ffffffffffffffff");
}

#[test]
fn analyze_end_to_end() {
    let cfg = WordMathConfig::default();
    let (analysis, trace) = analyze_message_with_trace("hello hello world", "hello world greeting", cfg);
    assert_eq!(analysis.y_repetition, frac(2, 3));
    assert_eq!(analysis.z_drift, frac(1, 3));
    assert_eq!(analysis.score.num * 2, analysis.score.den);
    assert!((value(analysis.score) - 0.5).abs() < 1e-12);
    assert_eq!(trace.message_len, 17);
    assert_eq!(trace.topic_len, 20);
    assert_eq!(trace.hex_id.len(), 16);
}

#[test]
fn analyze_with_fixed_clock() {
    let cfg = WordMathConfig::default();
    let (_, trace) = analyze_at("héllo", "", cfg, 16);
    assert_eq!(trace.hex_id, "0000000000000010");
    assert_eq!(trace.message_len, 5);
    assert_eq!(trace.topic_len, 0);
}

#[test]
fn config_huge_override_is_honoured_and_normalized() {
    let cfg = WordMathConfig::from_env(Some("1e10"), None);
    assert_eq!(cfg.alpha, 10_000_000_000_000_000);
    assert_eq!(cfg.beta, 500_000);
    assert_eq!(cfg.alpha, 20_000_000_000 * cfg.beta);
    assert_eq!((cfg.alpha + cfg.beta) as u64, cfg.scale);
}

#[test]
fn config_huge_equal_overrides_are_halves() {
    let cfg = WordMathConfig::from_env(Some("3e300"), Some("3E+300"));
    assert_eq!(cfg.alpha, cfg.beta);
    assert_eq!((cfg.alpha * 2) as u64, cfg.scale);
}

#[test]
fn config_huge_override_beside_tiny_one() {
    let cfg = WordMathConfig::from_env(Some("0.001"), Some("1e400"));
    assert_eq!(cfg.alpha, 0);
    assert_eq!(cfg.beta as u64, cfg.scale);
}

#[test]
fn config_cancelling_huge_overrides_keep_scale_of_one_unit() {
    let cfg = WordMathConfig::from_env(Some("1e20"), Some("-1e20"));
    assert_eq!(cfg.alpha + cfg.beta, 0);
    assert_eq!(cfg.scale, 1);
}

#[test]
fn config_large_sub_billion_override_is_normalized() {
    let cfg = WordMathConfig::from_env(Some("123456789.5"), Some("0.5"));
    assert_eq!((cfg.alpha + cfg.beta) as u64, cfg.scale);
    assert_eq!(cfg.alpha, 12_345_678_950_000_000);
    assert_eq!(cfg.beta, 50_000_000);
}

#[test]
fn parse_decimal_parts() {
    let d = parse_decimal("-0012.50e3").unwrap();
    assert!(d.negative);
    assert_eq!(d.digits, vec!['0', '0', '1', '2', '5', '0']);
    assert_eq!(d.exp, 9 + 3 - 2);
    assert!(parse_decimal("1e").is_none());
    assert!(parse_decimal("1e99999").is_some());
}
