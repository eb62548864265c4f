use provence::length::{
    split_warn, truncate_warn, LengthAction, LengthWarning, TextLabel, MAX_LEN_CHARS,
    MAX_LEN_CHARS_PART,
};

#[test]
fn limits() {
    assert_eq!(MAX_LEN_CHARS, 2048);
    assert_eq!(MAX_LEN_CHARS_PART, 1024);
}

#[test]
fn long_text_is_truncated_with_a_warning() {
    let mut warnings: Vec<LengthWarning> = Vec::new();
    let mut text = "é".repeat(30);
    truncate_warn(&mut text, TextLabel::Question(3), 25, &mut warnings);
    assert_eq!(text, "é".repeat(25));
    assert_eq!(
        warnings,
        vec![LengthWarning {
            label: TextLabel::Question(3),
            preview: "é".repeat(20),
            length: 30,
            max_len: 25,
            action: LengthAction::Truncating,
        }]
    );
}

#[test]
fn text_that_fits_is_left_alone() {
    let mut warnings: Vec<LengthWarning> = Vec::new();
    let mut text = "abc".to_string();
    truncate_warn(&mut text, TextLabel::Title(0), 3, &mut warnings);
    assert_eq!(text, "abc");
    assert_eq!(split_warn(&mut text, TextLabel::Context(0, 0), 3, &mut warnings), None);
    assert_eq!(text, "abc");
    assert!(warnings.is_empty());
}

#[test]
fn the_preview_of_a_short_text_is_the_text() {
    let mut warnings: Vec<LengthWarning> = Vec::new();
    let mut text = "abcd".to_string();
    truncate_warn(&mut text, TextLabel::ProcessInput, 0, &mut warnings);
    assert_eq!(text, "");
    assert_eq!(warnings[0].preview, "abcd");
    assert_eq!(warnings[0].length, 4);
    assert_eq!(warnings[0].label, TextLabel::ProcessInput);
}

#[test]
fn long_text_is_split_into_chunks() {
    let mut warnings: Vec<LengthWarning> = Vec::new();
    let mut text = "abcdefgh".to_string();
    let rest = split_warn(&mut text, TextLabel::Context(1, 2), 3, &mut warnings);
    assert_eq!(text, "abc");
    assert_eq!(rest, Some(vec!["def".to_string(), "gh".to_string()]));
    assert_eq!(warnings.len(), 1);
    assert_eq!(warnings[0].action, LengthAction::Splitting);
    assert_eq!(warnings[0].label, TextLabel::Context(1, 2));
    assert_eq!(warnings[0].length, 8);
    assert_eq!(warnings[0].max_len, 3);
}

#[test]
fn chunks_make_up_the_text_and_have_the_right_length() {
    for n in 0..40usize {
        let whole: String = "añb漢".chars().cycle().take(n).collect();
        let mut warnings: Vec<LengthWarning> = Vec::new();
        let mut text = whole.clone();
        let rest = split_warn(&mut text, TextLabel::Context(0, 0), 7, &mut warnings);
        assert_eq!(rest.is_some(), n > 7);
        let mut chunks = vec![text];
        chunks.extend(rest.unwrap_or_default());
        assert_eq!(chunks.concat(), whole);
        let last = chunks.len() - 1;
        for (i, chunk) in chunks.iter().enumerate() {
            let length = chunk.chars().count();
            assert!(length <= 7);
            assert!(i == last || length == 7);
            assert!(n == 0 || length > 0);
        }
    }
}

#[test]
fn a_text_of_twice_the_length_makes_two_chunks() {
    let mut warnings: Vec<LengthWarning> = Vec::new();
    let mut text = "abcdef".to_string();
    let rest = split_warn(&mut text, TextLabel::Context(0, 0), 3, &mut warnings);
    assert_eq!(rest, Some(vec!["def".to_string()]));
}

#[test]
fn an_empty_text_can_be_split_at_any_length() {
    let mut warnings: Vec<LengthWarning> = Vec::new();
    let mut text = String::new();
    assert_eq!(split_warn(&mut text, TextLabel::Context(0, 0), 0, &mut warnings), None);
    assert_eq!(text, "");
    assert!(warnings.is_empty());
}

#[test]
fn chunks_split_no_further() {
    let mut warnings: Vec<LengthWarning> = Vec::new();
    let mut text = "abcdefgh".to_string();
    let mut chunks = split_warn(&mut text, TextLabel::Context(0, 0), 3, &mut warnings).unwrap();
    chunks.push(text);
    for chunk in chunks {
        let mut again = chunk.clone();
        assert_eq!(split_warn(&mut again, TextLabel::Context(0, 0), 3, &mut warnings), None);
        assert_eq!(again, chunk);
    }
    assert_eq!(warnings.len(), 1);
}
