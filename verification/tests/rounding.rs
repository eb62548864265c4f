use provence::error::SentenceError;
use provence::rounding::{
    check_coords, round_means, sentence_addends, sentence_rounding, SentenceRoundingMode,
};
use provence::score::Score;
use std::str::FromStr;

fn scores(values: &[f32]) -> Vec<Score> {
    values.iter().map(|x| Score { bits: x.to_bits() }).collect()
}

fn score(x: f32) -> Score {
    Score { bits: x.to_bits() }
}

fn mean(values: &Vec<Score>) -> Score {
    let mut sum = 0.0f32;
    for value in values {
        sum += f32::from_bits(value.bits);
    }
    score(sum / values.len() as f32)
}

fn round(
    predictions: &[f32],
    coords: &[(usize, usize)],
    threshold: f32,
    first: bool,
    mode: SentenceRoundingMode,
) -> Result<Vec<bool>, SentenceError> {
    sentence_rounding(&scores(predictions), coords, score(threshold), first, &mode, mean)
}

#[test]
fn mode_names() {
    assert_eq!(SentenceRoundingMode::DecisionAverage.to_string(), "decision_average");
    assert_eq!(SentenceRoundingMode::ProbabilityAverage.to_string(), "probability_average");
}

#[test]
fn names_lead_back_to_modes() {
    for mode in [SentenceRoundingMode::DecisionAverage, SentenceRoundingMode::ProbabilityAverage] {
        assert_eq!(SentenceRoundingMode::from_str(&mode.to_string()), Ok(mode));
        assert_eq!(mode.to_string().parse::<SentenceRoundingMode>(), Ok(mode));
    }
    assert_eq!(
        <SentenceRoundingMode as FromStr>::from_str("median"),
        Err("Invalid rounding mode: 'median'. Valid options are: probability_average, \
             decision_average"
            .to_string())
    );
    assert!(SentenceRoundingMode::from_str("Decision_average").is_err());
}

#[test]
fn a_sentence_is_kept_if_its_mean_exceeds_the_threshold() {
    let kept = round(
        &[0.9, 0.2, 0.4, 0.1],
        &[(0, 2), (2, 4)],
        0.5,
        false,
        SentenceRoundingMode::ProbabilityAverage,
    );
    assert_eq!(kept, Ok(vec![true, true, false, false]));
    // A mean equal to the threshold is not enough.
    let kept = round(&[0.5, 0.5], &[(0, 2)], 0.5, false, SentenceRoundingMode::ProbabilityAverage);
    assert_eq!(kept, Ok(vec![false, false]));
}

#[test]
fn the_modes_differ() {
    let predictions = [0.9, 0.9, 0.9, 0.0, 0.0, 0.0, 0.0];
    let coords = [(0, 7)];
    // The mean probability is about 0.386, the mean decision 3/7.
    assert_eq!(
        round(&predictions, &coords, 0.4, false, SentenceRoundingMode::ProbabilityAverage),
        Ok(vec![false; 7])
    );
    assert_eq!(
        round(&predictions, &coords, 0.4, false, SentenceRoundingMode::DecisionAverage),
        Ok(vec![true; 7])
    );
}

#[test]
fn the_first_sentence_is_kept_with_another() {
    let predictions = [0.0, 0.0, 0.8, 0.8];
    let coords = [(0, 2), (2, 4)];
    for mode in [SentenceRoundingMode::DecisionAverage, SentenceRoundingMode::ProbabilityAverage] {
        assert_eq!(round(&predictions, &coords, 0.5, true, mode), Ok(vec![true; 4]));
        assert_eq!(
            round(&predictions, &coords, 0.5, false, mode),
            Ok(vec![false, false, true, true])
        );
    }
}

#[test]
fn the_first_sentence_is_not_kept_alone() {
    let predictions = [0.3, 0.3, 0.2, 0.2];
    let coords = [(0, 2), (2, 4)];
    assert_eq!(
        round(&predictions, &coords, 0.5, true, SentenceRoundingMode::ProbabilityAverage),
        Ok(vec![false; 4])
    );
    // Its own mean can still keep it.
    assert_eq!(
        round(&predictions, &coords, 0.25, true, SentenceRoundingMode::ProbabilityAverage),
        Ok(vec![true, true, false, false])
    );
}

#[test]
fn scores_that_are_not_numbers_are_passed_over() {
    let nan = f32::NAN;
    assert_eq!(
        round(
            &[nan, 0.6, nan, nan],
            &[(0, 2), (2, 4)],
            0.5,
            false,
            SentenceRoundingMode::ProbabilityAverage
        ),
        Ok(vec![true, true, false, false])
    );
    let values = sentence_addends(
        &scores(&[0.2, nan, 0.7]),
        0,
        3,
        score(0.5),
        &SentenceRoundingMode::DecisionAverage,
    );
    assert_eq!(values, scores(&[0.0, 1.0]));
}

#[test]
fn a_sentence_without_numbers_has_the_mean_zero() {
    let predictions = [f32::NAN, f32::NAN];
    assert_eq!(
        round(&predictions, &[(0, 2)], -0.5, false, SentenceRoundingMode::DecisionAverage),
        Ok(vec![true, true])
    );
    assert_eq!(
        round(&predictions, &[(0, 2)], 0.0, false, SentenceRoundingMode::DecisionAverage),
        Ok(vec![false, false])
    );
}

#[test]
fn probabilities_are_added_as_they_are() {
    let values = sentence_addends(
        &scores(&[0.1, 0.2, 0.3, 0.4]),
        1,
        3,
        score(0.5),
        &SentenceRoundingMode::ProbabilityAverage,
    );
    assert_eq!(values, scores(&[0.2, 0.3]));
}

#[test]
fn tokens_outside_sentences_are_dropped() {
    assert_eq!(
        round(
            &[0.9, 0.9, 0.9, 0.9],
            &[(1, 2)],
            0.5,
            true,
            SentenceRoundingMode::ProbabilityAverage
        ),
        Ok(vec![false, true, false, false])
    );
}

#[test]
fn sentences_are_kept_whole() {
    let mask = round_means(7, &[(0, 3), (4, 6)], scores(&[0.2, 0.8]), score(0.5), false);
    assert_eq!(mask, vec![false, false, false, false, true, true, false]);
    let mask = round_means(7, &[(0, 3), (4, 6)], scores(&[0.2, 0.8]), score(0.5), true);
    assert_eq!(mask, vec![true, true, true, false, true, true, false]);
}

#[test]
fn the_first_sentence_is_kept_with_another_at_any_threshold() {
    let mask = round_means(2, &[(0, 1), (1, 2)], scores(&[0.0, 3.0]), score(1.0), true);
    assert_eq!(mask, vec![true, true]);
    assert_eq!(
        round(
            &[0.0, 3.0],
            &[(0, 1), (1, 2)],
            2.0,
            true,
            SentenceRoundingMode::ProbabilityAverage
        ),
        Ok(vec![true, true])
    );
}

#[test]
fn nothing_exceeds_what_is_not_a_number() {
    for first in [false, true] {
        assert_eq!(
            round(&[0.25], &[(0, 1)], f32::NAN, first, SentenceRoundingMode::ProbabilityAverage),
            Ok(vec![false])
        );
        assert_eq!(
            round(
                &[0.25, 0.75],
                &[(0, 1), (1, 2)],
                f32::NAN,
                first,
                SentenceRoundingMode::DecisionAverage
            ),
            Ok(vec![false, false])
        );
    }
    let mask = round_means(2, &[(0, 1), (1, 2)], scores(&[f32::NAN, 0.5]), score(0.6), true);
    assert_eq!(mask, vec![false, false]);
}

#[test]
fn a_higher_threshold_keeps_no_more() {
    let predictions = [0.9, 0.1, 0.35, 0.6, 0.5, 0.2, 0.05, f32::NAN, 0.8];
    let coords = [(0, 3), (3, 6), (6, 9)];
    for mode in [SentenceRoundingMode::DecisionAverage, SentenceRoundingMode::ProbabilityAverage] {
        for first in [false, true] {
            let mut before = vec![true; 9];
            for step in 0..21 {
                let kept = round(&predictions, &coords, step as f32 / 20.0, first, mode).unwrap();
                for (now, earlier) in kept.iter().zip(before.iter()) {
                    assert!(!*now || *earlier);
                }
                before = kept;
            }
            assert_eq!(before, vec![false; 9]);
        }
    }
}

#[test]
fn nothing_is_kept_below_the_threshold() {
    let mask = round_means(4, &[(0, 2), (2, 4)], scores(&[0.5, 0.4]), score(0.5), true);
    assert_eq!(mask, vec![false; 4]);
}

#[test]
fn coordinates_are_checked() {
    assert_eq!(
        round(&[0.5], &[], 0.5, true, SentenceRoundingMode::DecisionAverage),
        Err(SentenceError::NoSentences)
    );
    assert_eq!(
        round(&[0.5; 4], &[(0, 1), (2, 2)], 0.5, true, SentenceRoundingMode::DecisionAverage),
        Err(SentenceError::EmptySentence { start: 2, end: 2 })
    );
    assert_eq!(
        round(&[0.5; 4], &[(0, 5), (3, 2)], 0.5, true, SentenceRoundingMode::DecisionAverage),
        Err(SentenceError::PastLastToken { end: 5, n_tokens: 4 })
    );
    assert_eq!(check_coords(&[(0, 1), (1, 4)], 4), Ok(()));
}
