use provence::model::ProvenceModel;
use provence::text::{ascii_punct, byte_length, chars_of, same_text, utf8_width, white_space};
use provence::wording::tidy;

#[test]
fn character_classes_agree_with_std() {
    for c in '\0'..=char::MAX {
        assert_eq!(white_space(c), c.is_whitespace(), "{:?}", c);
        assert_eq!(ascii_punct(c), c.is_ascii_punctuation(), "{:?}", c);
        assert_eq!(utf8_width(c), c.len_utf8(), "{:?}", c);
    }
}

#[test]
fn texts_are_read_by_characters_and_bytes() {
    assert_eq!(chars_of("aé漢🦀"), vec!['a', 'é', '漢', '🦀']);
    assert_eq!(byte_length("aé漢🦀"), 10);
    assert_eq!(byte_length(""), 0);
    assert!(same_text("béchamel", "béchamel"));
    assert!(!same_text("béchamel", "bechamel"));
    assert!(!same_text("a", "ab"));
}

#[test]
fn questions_are_normalized() {
    assert_eq!(
        ProvenceModel::normalize_string("What goes on the bottom of Shepherd's pie?"),
        "what goes on the bottom of shepherds pie"
    );
    assert_eq!(ProvenceModel::normalize_string("  A\t,B \u{a0} c!\n"), "a b c");
    assert_eq!(ProvenceModel::normalize_string("?!."), "");
    assert_eq!(ProvenceModel::normalize_string(""), "");
    // Punctuation goes without leaving a gap, and only ASCII punctuation goes.
    assert_eq!(ProvenceModel::normalize_string("bread- crumbs, e.g."), "bread crumbs eg");
    assert_eq!(ProvenceModel::normalize_string("«Oui»"), "«oui»");
}

#[test]
fn lower_case_is_that_of_unicode() {
    assert_eq!(ProvenceModel::normalize_string("BÉCHAMEL ΟΔΟΣ"), "béchamel οδος");
    // One character may become two.
    assert_eq!(ProvenceModel::normalize_string("İ").chars().count(), 2);
}

#[test]
fn tidying_takes_lower_case_as_given() {
    assert_eq!(tidy("Ab,  cd"), "Ab cd");
    assert_eq!(tidy(" - a - "), "a");
}

#[test]
fn tidying_twice_is_tidying_once() {
    for text in ["Ab,  cd", " x. y! z? ", "a\u{2003}b\n\nc", "", "...", "one"] {
        let once = tidy(text);
        assert_eq!(tidy(&once), once);
        assert!(!once.starts_with(' ') && !once.ends_with(' ') && !once.contains("  "));
        assert!(!once.chars().any(|c| c.is_ascii_punctuation()));
        assert!(!once.chars().any(|c| c.is_whitespace() && c != ' '));
    }
}

#[test]
fn question_and_context_are_joined() {
    assert_eq!(ProvenceModel::apply_template("a b", "C d."), "a b [SEP] C d.");
    assert_eq!(ProvenceModel::apply_template("", ""), " [SEP] ");
}

#[test]
fn the_context_lies_at_its_offset() {
    let question = "qué";
    let context = "Él. 漢字.";
    let input = ProvenceModel::apply_template(question, context);
    let offset = byte_length(question) + 7;
    assert_eq!(&input[offset..], context);
    assert_eq!(&input[offset + 5..offset + 8], &context[5..8]);
}
