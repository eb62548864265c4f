use provence::score::Score;

fn score(x: f32) -> Score {
    Score { bits: x.to_bits() }
}

fn samples() -> Vec<f32> {
    vec![
        0.0,
        -0.0,
        1.0,
        -1.0,
        0.1,
        0.5,
        0.25,
        -0.25,
        1.0e-40,
        -1.0e-40,
        f32::MIN_POSITIVE,
        f32::MAX,
        f32::MIN,
        f32::INFINITY,
        f32::NEG_INFINITY,
        f32::NAN,
        -f32::NAN,
        f32::from_bits(0x7f80_0001),
    ]
}

#[test]
fn scores_compare_as_numbers_do() {
    for &a in samples().iter() {
        assert_eq!(score(a).not_a_number(), a.is_nan());
        for &b in samples().iter() {
            assert_eq!(score(a).exceeds(score(b)), a > b, "{} > {}", a, b);
        }
    }
}

#[test]
fn keys_order_the_numbers() {
    assert_eq!(score(0.0).order_key(), 0);
    assert_eq!(score(-0.0).order_key(), 0);
    assert_eq!(score(1.0).order_key(), 0x3f80_0000);
    assert_eq!(score(-1.0).order_key(), -0x3f80_0000);
    for &a in samples().iter() {
        for &b in samples().iter() {
            if !a.is_nan() && !b.is_nan() {
                assert_eq!(score(a).order_key() < score(b).order_key(), a < b);
            }
        }
    }
}

#[test]
fn named_scores() {
    assert_eq!(Score::zero(), score(0.0));
    assert_eq!(Score::one(), score(1.0));
    assert_eq!(Score { bits: provence::score::DEFAULT_THRESHOLD_BITS }, score(0.1));
}

#[test]
fn a_number_exceeds_lower_numbers_only() {
    assert!(score(0.6).exceeds(score(0.5)));
    assert!(!score(0.5).exceeds(score(0.6)));
    assert!(!score(0.5).exceeds(score(0.5)));
    let nan = score(f32::NAN);
    assert!(!nan.exceeds(score(0.5)));
    assert!(!score(0.5).exceeds(nan));
}
