use provence::error::SentenceError;
use provence::pruning::{
    split_and_round_sentences, split_and_track, split_sentences_and_track_from_encoding,
};
use provence::rounding::SentenceRoundingMode;
use provence::score::Score;
use provence::sentences::SentenceSplitter;
use provence::spans::{map_ranges_to_token_coords, overlaps};

fn scores(values: &[f32]) -> Vec<Score> {
    values.iter().map(|x| Score { bits: x.to_bits() }).collect()
}

fn mean(values: &Vec<Score>) -> Score {
    let mut sum = 0.0f32;
    for value in values {
        sum += f32::from_bits(value.bits);
    }
    Score { bits: (sum / values.len() as f32).to_bits() }
}

#[test]
fn ranges_overlap_if_neither_ends_before_the_other_starts() {
    assert!(overlaps((2, 5), (4, 9)));
    assert!(overlaps((4, 9), (2, 5)));
    assert!(overlaps((2, 9), (4, 5)));
    assert!(!overlaps((2, 4), (4, 5)));
    assert!(!overlaps((4, 5), (2, 4)));
}

#[test]
fn sentences_are_found_among_the_tokens() {
    // A special token, two tokens of the question, a special token, then four of
    // the context, which starts at byte 10, and a special token.
    let offsets =
        [(0, 0), (0, 3), (3, 4), (0, 0), (10, 13), (13, 14), (15, 18), (18, 19), (0, 0)];
    let coords = map_ranges_to_token_coords(&offsets, &[(0, 4), (5, 9)], 10);
    assert_eq!(coords, vec![(4, 6), (6, 8)]);
}

#[test]
fn a_token_over_a_boundary_goes_to_the_first_sentence() {
    let offsets = [(0, 3), (3, 6), (6, 8)];
    assert_eq!(map_ranges_to_token_coords(&offsets, &[(0, 4), (5, 8)], 0), vec![(0, 2), (2, 3)]);
}

#[test]
fn sentences_without_tokens_have_no_coordinates() {
    let offsets = [(0, 4), (8, 10)];
    assert_eq!(
        map_ranges_to_token_coords(&offsets, &[(0, 4), (5, 7), (8, 10)], 0),
        vec![(0, 1), (1, 2)]
    );
    assert_eq!(map_ranges_to_token_coords(&[(0, 0)], &[(0, 4)], 0), Vec::new());
    assert_eq!(map_ranges_to_token_coords(&[], &[(0, 4)], 0), Vec::new());
}

#[test]
fn special_tokens_within_a_sentence_stay_inside() {
    let offsets = [(0, 2), (0, 0), (2, 4)];
    assert_eq!(map_ranges_to_token_coords(&offsets, &[(0, 4)], 0), vec![(0, 3)]);
}

#[test]
fn coordinates_are_in_order_and_touch_their_sentences() {
    let offsets = [(0, 1), (1, 4), (5, 6), (6, 9), (9, 10), (12, 15)];
    let ranges = [(0, 3), (5, 8), (9, 10), (12, 15)];
    let coords = map_ranges_to_token_coords(&offsets, &ranges, 0);
    assert_eq!(coords, vec![(0, 2), (2, 4), (4, 5), (5, 6)]);
    for (coord, range) in coords.iter().zip(ranges.iter()) {
        assert!(coord.0 < coord.1 && coord.1 <= offsets.len());
        assert!(overlaps(*range, offsets[coord.0]) && overlaps(*range, offsets[coord.1 - 1]));
    }
    for (i, offset) in offsets.iter().enumerate() {
        assert!(ranges.iter().any(|r| overlaps(*r, *offset)));
        assert!(coords.iter().any(|c| c.0 <= i && i < c.1));
    }
}

#[test]
fn sentences_are_tracked_in_an_encoding() {
    let context = "Mr. Smith ran.";
    let offsets = [(0, 1), (2, 7), (8, 10), (10, 11), (12, 17), (18, 21), (21, 22)];
    let (sentences, coords) =
        split_sentences_and_track_from_encoding(context, &offsets, 8).unwrap();
    assert_eq!(sentences, vec!["Mr.".to_string(), "Smith ran.".to_string()]);
    assert_eq!(coords, vec![(2, 4), (4, 7)]);
    let (sentences, coords) =
        split_and_track(context, &offsets, 8, SentenceSplitter::Punkt).unwrap();
    assert_eq!(sentences, vec!["Mr. Smith ran.".to_string()]);
    assert_eq!(coords, vec![(2, 7)]);
}

#[test]
fn the_sentences_of_a_context_are_rounded() {
    let context = "A b. C d.";
    let offsets = [(0, 1), (2, 7), (8, 9), (10, 11), (11, 12), (13, 14), (15, 16), (16, 17)];
    let predictions = scores(&[0.9, 0.9, 0.1, 0.1, 0.1, 0.7, 0.9, 0.8]);
    let threshold = Score { bits: 0.5f32.to_bits() };
    let mask = split_and_round_sentences(
        context,
        &offsets,
        8,
        &predictions,
        threshold,
        false,
        &SentenceRoundingMode::ProbabilityAverage,
        SentenceSplitter::Simple,
        mean,
    );
    assert_eq!(mask, Ok(vec![false, false, false, false, false, true, true, true]));
}

#[test]
fn a_context_without_tokens_cannot_be_rounded() {
    let mask = split_and_round_sentences(
        "",
        &[(0, 1)],
        8,
        &scores(&[0.9]),
        Score::zero(),
        true,
        &SentenceRoundingMode::DecisionAverage,
        SentenceSplitter::Simple,
        mean,
    );
    assert_eq!(mask, Err(SentenceError::NoSentences));
    // A prediction is missing for the last token.
    let mask = split_and_round_sentences(
        "Ab cd",
        &[(0, 2), (3, 5)],
        0,
        &scores(&[0.9]),
        Score::zero(),
        true,
        &SentenceRoundingMode::DecisionAverage,
        SentenceSplitter::Simple,
        mean,
    );
    assert_eq!(mask, Err(SentenceError::PastLastToken { end: 2, n_tokens: 1 }));
}

#[test]
fn only_the_text_of_a_context_must_be_addressed() {
    // Nothing is added to the offset where there is no sentence.
    let found = split_and_track(" \n", &[(0, 1)], usize::MAX, SentenceSplitter::Simple);
    assert_eq!(found, Ok((Vec::new(), Vec::new())));
    let found = split_and_track("ab  ", &[(0, 1)], usize::MAX - 2, SentenceSplitter::Simple);
    assert_eq!(found, Ok((vec!["ab".to_string()], Vec::new())));
}
