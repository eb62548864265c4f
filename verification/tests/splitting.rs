use provence::error::SentenceError;
use provence::sentences::{
    split_and_trim_sentences, split_and_trim_sentences_punkt, split_sentences, trim_range,
    trim_ranges, SentenceSplitter,
};

fn owned(list: &[&str]) -> Vec<String> {
    list.iter().map(|t| t.to_string()).collect()
}

#[test]
fn sentences_end_with_punctuation_before_white_space() {
    let (sentences, ranges) = split_and_trim_sentences("One. Two!  Three?\nFour").unwrap();
    assert_eq!(sentences, owned(&["One.", "Two!", "Three?", "Four"]));
    assert_eq!(ranges, vec![(0, 4), (5, 9), (11, 17), (18, 22)]);
}

#[test]
fn punctuation_within_a_word_ends_nothing() {
    let (sentences, ranges) = split_and_trim_sentences("Version 1.5 is out.").unwrap();
    assert_eq!(sentences, owned(&["Version 1.5 is out."]));
    assert_eq!(ranges, vec![(0, 19)]);
    // Only the last of several marks stands before white space.
    let (sentences, _) = split_and_trim_sentences("Really?! Yes...").unwrap();
    assert_eq!(sentences, owned(&["Really?!", "Yes..."]));
}

#[test]
fn blank_texts_have_no_sentences() {
    assert_eq!(split_and_trim_sentences("").unwrap(), (Vec::new(), Vec::new()));
    assert_eq!(split_and_trim_sentences(" \n\u{3000}").unwrap(), (Vec::new(), Vec::new()));
}

#[test]
fn ranges_are_bytes() {
    let text = "Béchamel is\u{a0}white.  漢字! ";
    let (sentences, ranges) = split_and_trim_sentences(text).unwrap();
    assert_eq!(sentences, owned(&["Béchamel is\u{a0}white.", "漢字!"]));
    for (sentence, range) in sentences.iter().zip(ranges.iter()) {
        assert_eq!(&text[range.0..range.1], sentence);
    }
    assert_eq!(ranges, vec![(0, 20), (22, 29)]);
}

#[test]
fn only_white_space_is_lost() {
    for text in ["a. b", " . . x ", "?!", "no end", "one.two. three\t", "\u{85}é! ü?"] {
        let (sentences, ranges) = split_and_trim_sentences(text).unwrap();
        let mut covered = vec![false; text.len()];
        let mut before = 0;
        for (sentence, range) in sentences.iter().zip(ranges.iter()) {
            assert!(before <= range.0 && range.0 < range.1);
            before = range.1;
            assert_eq!(sentence.trim(), sentence);
            for flag in covered[range.0..range.1].iter_mut() {
                *flag = true;
            }
        }
        for (i, c) in text.char_indices() {
            assert!(covered[i] || c.is_whitespace(), "{:?} at {}", text, i);
        }
    }
}

#[test]
fn ranges_are_trimmed() {
    assert_eq!(trim_range("  ab  ", 0, 6), Ok(Some(("ab".to_string(), (2, 4)))));
    assert_eq!(trim_range("x é y", 1, 5), Ok(Some(("é".to_string(), (2, 4)))));
    assert_eq!(trim_range("a   b", 1, 4), Ok(None));
    assert_eq!(trim_range("abc", 2, 2), Ok(None));
}

#[test]
fn ranges_that_do_not_fit_are_rejected() {
    assert_eq!(
        trim_range("abc", 2, 1),
        Err(SentenceError::InvalidRange { start: 2, end: 1, len: 3 })
    );
    assert_eq!(
        trim_range("abc", 0, 4),
        Err(SentenceError::InvalidRange { start: 0, end: 4, len: 3 })
    );
    assert_eq!(
        trim_range("aé", 0, 2),
        Err(SentenceError::NotOnCharBoundary { start: 0, end: 2 })
    );
    assert_eq!(
        trim_range("éa", 1, 3),
        Err(SentenceError::NotOnCharBoundary { start: 1, end: 3 })
    );
}

#[test]
fn pieces_are_trimmed_in_turn() {
    assert_eq!(
        trim_ranges("ab   cd ", &[(0, 3), (3, 5), (4, 8)]),
        Ok((owned(&["ab", "cd"]), vec![(0, 2), (5, 7)]))
    );
    assert_eq!(
        trim_ranges("ab", &[(0, 1), (1, 3), (2, 1)]),
        Err(SentenceError::InvalidRange { start: 1, end: 3, len: 2 })
    );
}

#[test]
fn punkt_knows_abbreviations() {
    let text = "  Mr. Smith came. He left. ";
    let (sentences, ranges) = split_and_trim_sentences_punkt(text).unwrap();
    assert_eq!(sentences, owned(&["Mr. Smith came.", "He left."]));
    for (sentence, range) in sentences.iter().zip(ranges.iter()) {
        assert_eq!(&text[range.0..range.1], sentence);
    }
    // The simple rule does not.
    let (simple, _) = split_and_trim_sentences(text).unwrap();
    assert_eq!(simple, owned(&["Mr.", "Smith came.", "He left."]));
}

#[test]
fn the_splitter_decides() {
    let text = "Mr. Smith came. He left.";
    assert_eq!(
        split_sentences(text, SentenceSplitter::Simple),
        split_and_trim_sentences(text)
    );
    assert_eq!(
        split_sentences(text, SentenceSplitter::Punkt),
        split_and_trim_sentences_punkt(text)
    );
}

#[test]
fn pieces_in_order_lose_only_white_space() {
    let text = " ab  cé . \n x ";
    let bounds = [(0, 4), (4, 9), (10, 14)];
    let (sentences, ranges) = trim_ranges(text, &bounds).unwrap();
    assert_eq!(sentences, owned(&["ab", "cé", "x"]));
    assert_eq!(ranges, vec![(1, 3), (5, 8), (13, 14)]);
    for pair in ranges.windows(2) {
        assert!(pair[0].1 <= pair[1].0);
    }
    for (i, c) in text.char_indices() {
        let in_bounds = bounds.iter().any(|b| b.0 <= i && i < b.1);
        if in_bounds && !c.is_whitespace() {
            assert_eq!(ranges.iter().filter(|r| r.0 <= i && i < r.1).count(), 1);
        }
    }
}
