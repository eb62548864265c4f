use provence::error::RequestError;
use provence::length::{LengthAction, LengthWarning, TextLabel};
use provence::prepare::{prepare_process_params, OneOrMany};

fn owned(list: &[&str]) -> Vec<String> {
    list.iter().map(|t| t.to_string()).collect()
}

fn one<'a, T>(text: &'a str) -> OneOrMany<'a, T> {
    OneOrMany::One(text)
}

#[test]
fn single_texts_count_as_lists_of_one() {
    let mut warnings: Vec<LengthWarning> = Vec::new();
    let prepared =
        prepare_process_params(one("q"), one("c"), Some(one("t")), &mut warnings).unwrap();
    assert_eq!(prepared, (owned(&["q"]), vec![owned(&["c"])], Some(vec![owned(&["t"])])));
    assert!(warnings.is_empty());
}

#[test]
fn a_special_title_stands_for_none() {
    let mut warnings: Vec<LengthWarning> = Vec::new();
    let prepared =
        prepare_process_params(one("q"), one("c"), Some(one("first_sentence")), &mut warnings)
            .unwrap();
    assert_eq!(prepared.2, None);
    // In a list it is a title like any other.
    let titles = vec![owned(&["first_sentence"])];
    let prepared = prepare_process_params(
        one("q"),
        one("c"),
        Some(OneOrMany::Many(titles.clone())),
        &mut warnings,
    )
    .unwrap();
    assert_eq!(prepared.2, Some(titles));
}

#[test]
fn there_must_be_as_many_contexts_as_questions() {
    let mut warnings: Vec<LengthWarning> = Vec::new();
    let res = prepare_process_params(
        OneOrMany::Many(owned(&["", "b"])),
        one("c"),
        None,
        &mut warnings,
    );
    assert_eq!(res, Err(RequestError::QuestionsAndContextsDiffer));
}

#[test]
fn no_question_may_be_empty() {
    let mut warnings: Vec<LengthWarning> = Vec::new();
    let long = "x".repeat(1025);
    let res = prepare_process_params(
        OneOrMany::Many(vec![long, String::new(), String::new()]),
        OneOrMany::Many(vec![Vec::new(), Vec::new(), Vec::new()]),
        None,
        &mut warnings,
    );
    assert_eq!(res, Err(RequestError::EmptyQuestion(1)));
    // The questions before the empty one were looked at.
    assert_eq!(warnings.len(), 1);
    assert_eq!(warnings[0].label, TextLabel::Question(0));
}

#[test]
fn there_must_be_as_many_titles_as_questions() {
    let mut warnings: Vec<LengthWarning> = Vec::new();
    let res = prepare_process_params(
        one("q"),
        one("c"),
        Some(OneOrMany::Many(vec![owned(&["t"]), owned(&["u"])])),
        &mut warnings,
    );
    assert_eq!(res, Err(RequestError::TitlesAndQuestionsDiffer));
}

#[test]
fn each_list_of_titles_must_match() {
    let mut warnings: Vec<LengthWarning> = Vec::new();
    let res = prepare_process_params(
        OneOrMany::Many(owned(&["q", "r"])),
        OneOrMany::Many(vec![owned(&["c"]), owned(&["d", "e"])]),
        Some(OneOrMany::Many(vec![owned(&["t"]), owned(&["u"])])),
        &mut warnings,
    );
    assert_eq!(
        res,
        Err(RequestError::TitleListLength { list: 1, n_titles: 1, n_contexts: 2 })
    );
}

#[test]
fn long_contexts_are_split_and_keep_their_titles() {
    let mut warnings: Vec<LengthWarning> = Vec::new();
    let long: String = "abcdefghij".repeat(250);
    let prepared = prepare_process_params(
        OneOrMany::Many(owned(&["q"])),
        OneOrMany::Many(vec![vec!["short".to_string(), long.clone(), "end".to_string()]]),
        Some(OneOrMany::Many(vec![owned(&["one", "two", "three"])])),
        &mut warnings,
    )
    .unwrap();
    let contexts = &prepared.1[0];
    let titles = &prepared.2.as_ref().unwrap()[0];
    assert_eq!(contexts.len(), 5);
    assert_eq!(titles, &owned(&["one", "two", "two", "two", "three"]));
    assert_eq!(contexts[1].len(), 1024);
    assert_eq!(contexts[2].len(), 1024);
    assert_eq!(contexts[3].len(), 452);
    assert_eq!(contexts.concat(), format!("short{}end", long));
    assert_eq!(
        warnings,
        vec![LengthWarning {
            label: TextLabel::Context(0, 1),
            preview: "abcdefghijabcdefghij".to_string(),
            length: 2500,
            max_len: 1024,
            action: LengthAction::Splitting,
        }]
    );
}

#[test]
fn long_contexts_are_split_without_titles_too() {
    let mut warnings: Vec<LengthWarning> = Vec::new();
    let long = "é".repeat(1025);
    let prepared = prepare_process_params(one("q"), one(&long), None, &mut warnings).unwrap();
    assert_eq!(prepared.1, vec![vec!["é".repeat(1024), "é".to_string()]]);
    assert_eq!(prepared.2, None);
}

#[test]
fn long_questions_and_titles_are_truncated() {
    let mut warnings: Vec<LengthWarning> = Vec::new();
    let long = "y".repeat(2000);
    let prepared =
        prepare_process_params(one(&long), one("c"), Some(one(&long)), &mut warnings).unwrap();
    assert_eq!(prepared.0, vec!["y".repeat(1024)]);
    assert_eq!(prepared.2, Some(vec![vec!["y".repeat(1024)]]));
    let labels: Vec<TextLabel> = warnings.iter().map(|w| w.label).collect();
    assert_eq!(labels, vec![TextLabel::Question(0), TextLabel::Title(0)]);
}

#[test]
fn an_empty_request_is_accepted() {
    let mut warnings: Vec<LengthWarning> = Vec::new();
    let prepared = prepare_process_params(
        OneOrMany::Many(Vec::new()),
        OneOrMany::Many(Vec::new()),
        None,
        &mut warnings,
    )
    .unwrap();
    assert_eq!(prepared, (Vec::new(), Vec::new(), None));
}

#[test]
fn short_requests_are_unchanged() {
    let mut warnings: Vec<LengthWarning> = Vec::new();
    let questions = owned(&["first", "second"]);
    let contexts = vec![owned(&["a", ""]), owned(&["b"])];
    let prepared = prepare_process_params(
        OneOrMany::Many(questions.clone()),
        OneOrMany::Many(contexts.clone()),
        None,
        &mut warnings,
    )
    .unwrap();
    assert_eq!(prepared, (questions, contexts, None));
    assert!(warnings.is_empty());
}
