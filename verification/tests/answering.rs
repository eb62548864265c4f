use provence::batch::{arrange, with_title};
use provence::encoding::TokenEncoding;
use provence::error::{ProcessError, RequestError, SentenceError};
use provence::length::{LengthWarning, TextLabel};
use provence::model::ProvenceModel;
use provence::prepare::OneOrMany;
use provence::process::{
    answer, answer_question, build_input, calculate_compression_rate, tokens_to_keep, Network,
    NetworkOutput, ProcessedResult, Selection,
};
use provence::rounding::SentenceRoundingMode;
use provence::score::Score;
use provence::sentences::SentenceSplitter;
use tokenizers::Tokenizer;

const MODEL: ProvenceModel = ProvenceModel {
    rounding_mode: SentenceRoundingMode::ProbabilityAverage,
    splitter: SentenceSplitter::Simple,
};

/// Words and their ids; marks of punctuation are words of their own.
const TOKENIZER: &str = r#"{
  "version": "1.0",
  "truncation": null,
  "padding": null,
  "added_tokens": [
    {"id": 1, "content": "[SEP]", "single_word": false, "lstrip": false, "rstrip": false,
     "normalized": false, "special": true},
    {"id": 2, "content": "[CLS]", "single_word": false, "lstrip": false, "rstrip": false,
     "normalized": false, "special": true}
  ],
  "normalizer": null,
  "pre_tokenizer": {"type": "Whitespace"},
  "post_processor": {
    "type": "TemplateProcessing",
    "single": [{"SpecialToken": {"id": "[CLS]", "type_id": 0}}, {"Sequence": {"id": "A", "type_id": 0}}],
    "pair": [{"Sequence": {"id": "A", "type_id": 0}}, {"Sequence": {"id": "B", "type_id": 0}}],
    "special_tokens": {"[CLS]": {"id": "[CLS]", "ids": [2], "tokens": ["[CLS]"]}}
  },
  "decoder": null,
  "model": {
    "type": "WordLevel",
    "vocab": {"[UNK]": 0, "[SEP]": 1, "[CLS]": 2, ".": 3, "where": 4, "is": 5, "the": 6, "cat": 7,
              "The": 8, "sat": 9, "A": 10, "dog": 11, "ran": 12, "Pets": 13, "who": 14},
    "unk_token": "[UNK]"
  }
}"#;

fn tokenizer() -> Tokenizer {
    TOKENIZER.parse().unwrap()
}

fn score(x: f32) -> Score {
    Score { bits: x.to_bits() }
}

fn average(values: &Vec<Score>) -> Score {
    let mut sum = 0.0f32;
    for value in values {
        sum += f32::from_bits(value.bits);
    }
    score(sum / values.len() as f32)
}

fn rate(context: usize, pruned: usize) -> Score {
    score((1.0 - pruned as f32 / context as f32) * 100.0)
}

/// Cats are to be kept, dogs are not; the more cats, the higher the score.
fn likes_cats(ids: &Vec<u32>, mask: &Vec<u32>) -> Result<NetworkOutput, String> {
    assert_eq!(ids.len(), mask.len());
    let cats = ids.iter().filter(|id| **id == 7).count();
    Ok(NetworkOutput {
        ranking_scores: vec![score(cats as f32), score(99.0)],
        keep_probabilities: Ok(ids
            .iter()
            .map(|id| score(if *id == 7 || *id == 8 { 0.9 } else { 0.05 }))
            .collect()),
    })
}

fn selection(threshold: f32) -> Selection {
    MODEL.selection(score(threshold), false)
}

fn read_nothing(_text: &String) -> Result<TokenEncoding, String> {
    Err("unreadable".to_string())
}

/// One token for each word of the text.
fn read_words(text: &String) -> Result<TokenEncoding, String> {
    let mut encoding = TokenEncoding {
        ids: Vec::new(),
        attention_mask: Vec::new(),
        tokens: Vec::new(),
        offsets: Vec::new(),
    };
    let mut start = 0;
    for word in text.split(' ') {
        encoding.ids.push(word.len() as u32);
        encoding.attention_mask.push(1);
        encoding.tokens.push(word.to_string());
        encoding.offsets.push((start, start + word.len()));
        start += word.len() + 1;
    }
    Ok(encoding)
}

/// As many letters as the ids say.
fn write_letters(ids: &Vec<u32>) -> Result<String, String> {
    Ok(ids.iter().map(|id| "x".repeat(*id as usize)).collect::<Vec<String>>().join(" "))
}

fn write_nothing(_ids: &Vec<u32>) -> Result<String, String> {
    Err("unwritable".to_string())
}

fn keeps_long_words(ids: &Vec<u32>, _mask: &Vec<u32>) -> Result<NetworkOutput, String> {
    Ok(NetworkOutput {
        ranking_scores: vec![score(0.25)],
        keep_probabilities: Ok(ids.iter().map(|id| score(*id as f32 / 10.0)).collect()),
    })
}

fn run(
    encode: fn(&String) -> Result<TokenEncoding, String>,
    decode: fn(&Vec<u32>) -> Result<String, String>,
    forward: fn(&Vec<u32>, &Vec<u32>) -> Result<NetworkOutput, String>,
    question: &str,
    context: &str,
) -> Result<ProcessedResult, ProcessError> {
    let mut warnings: Vec<LengthWarning> = Vec::new();
    answer_question(
        encode,
        decode,
        Network { forward, average, rate },
        selection(0.55),
        question,
        context,
        question.len() + 7,
        &mut warnings,
    )
}

#[test]
fn a_context_is_pruned_to_its_sentences() {
    let result =
        run(read_words, write_letters, keeps_long_words, "who", "Gardeners. It is. Elephants!")
            .unwrap();
    assert_eq!(result.question, "who");
    assert_eq!(result.context, "Gardeners. It is. Elephants!");
    assert_eq!(result.pruned_context, "xxxxxxxxxx xxxxxxxxxx");
    assert_eq!(result.reranking_score, score(0.25));
    assert_eq!(result.compression_rate, score((1.0f32 - 21.0 / 28.0) * 100.0));
}

#[test]
fn each_step_can_fail() {
    let no_network = |_: &Vec<u32>, _: &Vec<u32>| Err("out of memory".to_string());
    let no_score = |ids: &Vec<u32>, mask: &Vec<u32>| {
        let mut output = keeps_long_words(ids, mask)?;
        output.ranking_scores.clear();
        output.keep_probabilities = Err("unread".to_string());
        Ok(output)
    };
    let no_probabilities = |ids: &Vec<u32>, mask: &Vec<u32>| {
        let mut output = keeps_long_words(ids, mask)?;
        output.keep_probabilities = Err("wrong shape".to_string());
        Ok(output)
    };
    let no_separator = |text: &String| {
        let mut encoding = read_words(text)?;
        encoding.tokens.clear();
        Ok(encoding)
    };
    assert_eq!(
        run(read_nothing, write_letters, keeps_long_words, "q", "A b.").unwrap_err(),
        ProcessError::Tokenization("unreadable".to_string())
    );
    assert_eq!(
        run(no_separator, write_letters, no_network, "q", "A b.").unwrap_err(),
        ProcessError::SeparatorMissing
    );
    assert_eq!(
        run(read_words, write_letters, no_network, "q", "A b.").unwrap_err(),
        ProcessError::Network("out of memory".to_string())
    );
    assert_eq!(
        run(read_words, write_letters, no_score, "q", "A b.").unwrap_err(),
        ProcessError::NoRankingScore
    );
    assert_eq!(
        run(read_words, write_letters, no_probabilities, "q", "A b.").unwrap_err(),
        ProcessError::KeepProbabilities("wrong shape".to_string())
    );
    assert_eq!(
        run(read_words, write_letters, keeps_long_words, "q", " ").unwrap_err(),
        ProcessError::Sentences(SentenceError::NoSentences)
    );
    assert_eq!(
        run(read_words, write_nothing, keeps_long_words, "q", "A b.").unwrap_err(),
        ProcessError::Decoding("unwritable".to_string())
    );
}

#[test]
fn tokens_are_kept_by_what_the_network_says() {
    let encoding = read_words(&"q [SEP] Ab. Cde.".to_string()).unwrap();
    let reply = Ok(NetworkOutput {
        ranking_scores: vec![score(3.5)],
        keep_probabilities: Ok(vec![score(1.0), score(1.0), score(0.2), score(0.8)]),
    });
    let kept = tokens_to_keep(selection(0.5), "Ab. Cde.", 8, &encoding, 1, reply, average);
    assert_eq!(kept, Ok((score(3.5), vec![4])));
}

#[test]
fn the_input_is_truncated() {
    let mut warnings: Vec<LengthWarning> = Vec::new();
    assert_eq!(build_input("q", "c", &mut warnings), "q [SEP] c");
    assert!(warnings.is_empty());
    let long = "é".repeat(3000);
    let input = build_input("q", &long, &mut warnings);
    assert_eq!(input, format!("q [SEP] {}", "é".repeat(2040)));
    assert_eq!(warnings.len(), 1);
    assert_eq!(warnings[0].label, TextLabel::ProcessInput);
    assert_eq!(warnings[0].length, 3008);
    assert_eq!(warnings[0].max_len, 2048);
}

#[test]
fn compression_is_counted_in_characters() {
    assert_eq!(calculate_compression_rate("éééé", "é", rate), score(75.0));
    assert_eq!(calculate_compression_rate("ab", "ab", rate), score(0.0));
    assert_eq!(calculate_compression_rate("", "abc", rate), score(0.0));
    assert_eq!(calculate_compression_rate("ab", "", rate), score(100.0));
}

#[test]
fn an_answer_carries_what_was_decoded() {
    let network = Network { forward: likes_cats, average, rate };
    let result = answer(network, "q", "abcd", score(2.0), Ok("ab".to_string())).unwrap();
    assert_eq!(result.question, "q");
    assert_eq!(result.context, "abcd");
    assert_eq!(result.pruned_context, "ab");
    assert_eq!(result.reranking_score, score(2.0));
    assert_eq!(result.compression_rate, score(50.0));
    assert_eq!(
        answer(network, "q", "abcd", score(2.0), Err("bad id".to_string())).unwrap_err(),
        ProcessError::Decoding("bad id".to_string())
    );
}

#[test]
fn a_tokenizer_reads_and_writes() {
    let mut warnings: Vec<LengthWarning> = Vec::new();
    let result = MODEL
        .process_question_context(
            &tokenizer(),
            Network { forward: likes_cats, average, rate },
            "where is the cat",
            "The cat sat. A dog ran.",
            16 + 7,
            score(0.3),
            false,
            &mut warnings,
        )
        .unwrap();
    assert_eq!(result.pruned_context, "The cat sat .");
    assert_eq!(result.reranking_score, score(2.0));
    assert_eq!(result.compression_rate, score((1.0f32 - 13.0 / 23.0) * 100.0));
    assert!(warnings.is_empty());
}

#[test]
fn a_truncated_input_may_lose_the_separator() {
    let mut warnings: Vec<LengthWarning> = Vec::new();
    let question = "cat ".repeat(600);
    let res = MODEL.process_question_context(
        &tokenizer(),
        Network { forward: likes_cats, average, rate },
        &question,
        "The cat sat.",
        question.len() + 7,
        score(0.3),
        false,
        &mut warnings,
    );
    assert_eq!(res.unwrap_err(), ProcessError::SeparatorMissing);
    assert_eq!(warnings.len(), 1);
}

fn owned(list: &[&str]) -> Vec<String> {
    list.iter().map(|t| t.to_string()).collect()
}

#[test]
fn requests_are_processed() {
    let mut warnings: Vec<LengthWarning> = Vec::new();
    let results = MODEL
        .process(
            &tokenizer(),
            Network { forward: likes_cats, average, rate },
            OneOrMany::Many(owned(&["Where is the cat?", "Who ran?"])),
            OneOrMany::Many(vec![
                owned(&["The cat sat. A dog ran.", "A dog ran. The cat sat."]),
                owned(&["A dog ran."]),
            ]),
            None,
            Some(score(0.3)),
            None,
            None,
            None,
            None,
            None,
            &mut warnings,
        )
        .unwrap();
    assert_eq!(
        results.pruned_context,
        vec![
            // The first sentence is kept with another.
            owned(&["The cat sat .", "A dog ran . The cat sat ."]),
            owned(&[""]),
        ]
    );
    assert_eq!(results.reranking_score, vec![vec![score(2.0), score(2.0)], vec![score(0.0)]]);
    assert_eq!(results.compression_rate[1], vec![score(100.0)]);
    assert!(warnings.is_empty());
}

#[test]
fn titles_come_before_contexts() {
    assert_eq!(with_title("Pets", "A dog ran."), "Pets A dog ran.");
    let mut warnings: Vec<LengthWarning> = Vec::new();
    let results = MODEL
        .process(
            &tokenizer(),
            Network { forward: likes_cats, average, rate },
            OneOrMany::One("where is the cat"),
            OneOrMany::One("The cat sat."),
            Some(OneOrMany::One("Pets")),
            Some(score(0.3)),
            Some(false),
            None,
            None,
            None,
            None,
            &mut warnings,
        )
        .unwrap();
    assert_eq!(results.pruned_context, vec![owned(&["Pets The cat sat ."])]);
}

#[test]
fn the_threshold_is_a_tenth_where_none_is_given() {
    let mut warnings: Vec<LengthWarning> = Vec::new();
    let above = |ids: &Vec<u32>, _: &Vec<u32>| -> Result<NetworkOutput, String> {
        Ok(NetworkOutput {
            ranking_scores: vec![score(1.0)],
            keep_probabilities: Ok(ids.iter().map(|_| score(0.125)).collect()),
        })
    };
    let at = |ids: &Vec<u32>, _: &Vec<u32>| -> Result<NetworkOutput, String> {
        Ok(NetworkOutput {
            ranking_scores: vec![score(1.0)],
            keep_probabilities: Ok(ids.iter().map(|_| score(0.0625)).collect()),
        })
    };
    let results = MODEL
        .process_with(
            read_words,
            write_letters,
            Network { forward: above, average, rate },
            OneOrMany::One("q"),
            OneOrMany::One("Ab cd."),
            None,
            None,
            None,
            None,
            None,
            &mut warnings,
        )
        .unwrap();
    assert_eq!(results.pruned_context, vec![owned(&["xx xxx"])]);
    let results = MODEL
        .process_with(
            read_words,
            write_letters,
            Network { forward: at, average, rate },
            OneOrMany::One("q"),
            OneOrMany::One("Ab cd."),
            None,
            None,
            None,
            None,
            None,
            &mut warnings,
        )
        .unwrap();
    assert_eq!(results.pruned_context, vec![owned(&[""])]);
}

#[test]
fn reordered_the_best_stay() {
    let contexts = owned(&[
        "A dog ran.",
        "The cat sat.",
        "A dog sat.",
        "cat cat.",
        "The cat ran.",
        "the dog.",
        "cat cat cat.",
    ]);
    let run = |reorder: Option<bool>, top_k: Option<usize>| {
        let mut warnings: Vec<LengthWarning> = Vec::new();
        MODEL
            .process(
                &tokenizer(),
                Network { forward: likes_cats, average, rate },
                OneOrMany::One("who"),
                OneOrMany::Many(vec![contexts.clone()]),
                None,
                Some(score(0.01)),
                None,
                None,
                reorder,
                top_k,
                None,
                &mut warnings,
            )
            .unwrap()
    };
    let as_they_come = run(None, Some(2));
    assert_eq!(as_they_come.pruned_context[0].len(), 7);
    assert_eq!(as_they_come.pruned_context[0][0], "A dog ran .");
    let best = run(Some(true), Some(3));
    assert_eq!(
        best.pruned_context,
        vec![owned(&["cat cat cat .", "cat cat .", "The cat sat ."])]
    );
    assert_eq!(best.reranking_score, vec![vec![score(3.0), score(2.0), score(1.0)]]);
    assert_eq!(best.compression_rate[0].len(), 3);
    // Five stay where nothing is said.
    let five = run(Some(true), None);
    assert_eq!(five.pruned_context[0].len(), 5);
    assert_eq!(five.pruned_context[0][3], "The cat ran .");
    assert_eq!(five.pruned_context[0][4], "A dog ran .");
    let none = run(Some(true), Some(0));
    assert_eq!(none.pruned_context, vec![Vec::<String>::new()]);
}

#[test]
fn results_can_be_arranged() {
    let result = |text: &str, s: f32| ProcessedResult {
        question: "q".to_string(),
        context: "c".to_string(),
        pruned_context: text.to_string(),
        reranking_score: score(s),
        compression_rate: score(s * 10.0),
    };
    let results = vec![result("a", 1.0), result("b", 3.0), result("c", 2.0)];
    assert_eq!(
        arrange(&results, false, 1),
        (owned(&["a", "b", "c"]), vec![score(1.0), score(3.0), score(2.0)],
         vec![score(10.0), score(30.0), score(20.0)])
    );
    assert_eq!(
        arrange(&results, true, 2),
        (owned(&["b", "c"]), vec![score(3.0), score(2.0)], vec![score(30.0), score(20.0)])
    );
    // What leaves is told by its place: the texts may be the same.
    let alike = vec![result("a", 1.0), result("a", 3.0), result("a", 2.0)];
    assert_eq!(
        arrange(&alike, true, 2),
        (owned(&["a", "a"]), vec![score(3.0), score(2.0)], vec![score(30.0), score(20.0)])
    );
    // What has no number for a score stays where it is.
    let unscored = vec![result("a", 1.0), result("b", f32::NAN), result("c", 3.0), result("d", 4.0)];
    assert_eq!(arrange(&unscored, true, 3).0, owned(&["a", "b", "d"]));
}

#[test]
fn a_request_stops_at_its_first_error() {
    let mut warnings: Vec<LengthWarning> = Vec::new();
    let res = MODEL.process_with(
        read_words,
        write_letters,
        Network { forward: keeps_long_words, average, rate },
        OneOrMany::Many(owned(&["q", "r"])),
        OneOrMany::Many(vec![owned(&["Ab.", " ", "Cd."]), owned(&["Ef."])]),
        None,
        None,
        None,
        None,
        None,
        &mut warnings,
    );
    assert_eq!(res.unwrap_err(), ProcessError::Sentences(SentenceError::NoSentences));
    let res = MODEL.process_with(
        read_words,
        write_letters,
        Network { forward: keeps_long_words, average, rate },
        OneOrMany::One(""),
        OneOrMany::One("Ab."),
        None,
        None,
        None,
        None,
        None,
        &mut warnings,
    );
    assert_eq!(res.unwrap_err(), ProcessError::Request(RequestError::EmptyQuestion(0)));
}

#[test]
fn results_match_the_request() {
    let mut warnings: Vec<LengthWarning> = Vec::new();
    let long = "Word. ".repeat(200);
    let results = MODEL
        .process_with(
            read_words,
            write_letters,
            Network { forward: keeps_long_words, average, rate },
            OneOrMany::Many(owned(&["q", "r", "s"])),
            OneOrMany::Many(vec![vec!["Ab.".to_string(), long], Vec::new(), owned(&["Cd."])]),
            None,
            None,
            None,
            None,
            None,
            &mut warnings,
        )
        .unwrap();
    // The long context makes two chunks, and the second question has none.
    let lengths: Vec<usize> = results.pruned_context.iter().map(|row| row.len()).collect();
    assert_eq!(lengths, vec![3, 0, 1]);
    for (row, (scores, rates)) in results
        .pruned_context
        .iter()
        .zip(results.reranking_score.iter().zip(results.compression_rate.iter()))
    {
        assert_eq!(row.len(), scores.len());
        assert_eq!(row.len(), rates.len());
    }
    assert_eq!(warnings.len(), 1);
}

#[test]
fn nothing_comes_of_nothing() {
    let mut warnings: Vec<LengthWarning> = Vec::new();
    let results = MODEL
        .process_with(
            read_nothing,
            write_nothing,
            Network { forward: likes_cats, average, rate },
            OneOrMany::Many(Vec::new()),
            OneOrMany::Many(Vec::new()),
            None,
            None,
            None,
            None,
            None,
            &mut warnings,
        )
        .unwrap();
    assert!(results.pruned_context.is_empty());
    assert!(results.reranking_score.is_empty());
    assert!(results.compression_rate.is_empty());
}

type Rows = (Vec<Vec<String>>, Vec<Vec<Score>>, Vec<Vec<Score>>);

fn ask(
    questions: &[&str],
    contexts: &[Vec<String>],
    titles: Option<Vec<Vec<String>>>,
    batch_size: Option<usize>,
    reorder: Option<bool>,
    top_k: Option<usize>,
    enable_warnings: Option<bool>,
) -> Rows {
    let mut warnings: Vec<LengthWarning> = Vec::new();
    let results = MODEL
        .process(
            &tokenizer(),
            Network { forward: likes_cats, average, rate },
            OneOrMany::Many(owned(questions)),
            OneOrMany::Many(contexts.to_vec()),
            titles.map(OneOrMany::Many),
            Some(score(0.3)),
            None,
            batch_size,
            reorder,
            top_k,
            enable_warnings,
            &mut warnings,
        )
        .unwrap();
    (results.pruned_context, results.reranking_score, results.compression_rate)
}

fn two_lists() -> Vec<Vec<String>> {
    vec![
        owned(&["The cat sat. A dog ran.", "A dog ran. The cat sat.", "cat cat."]),
        owned(&["A dog ran.", "The cat ran."]),
    ]
}

#[test]
fn a_request_has_one_outcome() {
    let questions = ["Where is the cat?", "Who ran?"];
    let expected = ask(&questions, &two_lists(), None, None, None, None, None);
    assert_eq!(
        ask(&questions, &two_lists(), None, Some(1), Some(false), Some(1), Some(false)),
        expected
    );
    let reordered = ask(&questions, &two_lists(), None, None, Some(true), Some(2), None);
    assert_eq!(
        ask(&questions, &two_lists(), None, Some(7), Some(true), Some(2), Some(false)),
        reordered
    );
}

#[test]
fn questions_are_answered_alone_as_among_others() {
    let questions = ["Where is the cat?", "Who ran?"];
    for reorder in [None, Some(true)] {
        let all = ask(&questions, &two_lists(), None, None, reorder, Some(2), None);
        for i in 0..2 {
            let alone =
                ask(&questions[i..i + 1], &two_lists()[i..i + 1], None, None, reorder, Some(2), None);
            assert_eq!(
                alone,
                (vec![all.0[i].clone()], vec![all.1[i].clone()], vec![all.2[i].clone()])
            );
        }
    }
}

#[test]
fn titles_stand_in_front() {
    let titles = vec![owned(&["Pets", "cat", "the"]), owned(&["who", ""])];
    let in_front: Vec<Vec<String>> = titles
        .iter()
        .zip(two_lists().iter())
        .map(|(t, c)| t.iter().zip(c.iter()).map(|(t, c)| format!("{} {}", t, c)).collect())
        .collect();
    let questions = ["Where is the cat?", "Who ran?"];
    assert_eq!(
        ask(&questions, &two_lists(), Some(titles), None, None, None, None),
        ask(&questions, &in_front, None, None, None, None, None)
    );
}

#[test]
fn only_the_normalised_question_matters() {
    let contexts = &two_lists()[..1];
    let expected = ask(&["where is the cat"], contexts, None, None, None, None, None);
    for question in ["Where is the cat?", "  WHERE   is\tthe... cat! ", "where, is, the, cat"] {
        assert_eq!(ask(&[question], contexts, None, None, None, None, None), expected);
    }
}

#[test]
fn settings_leave_the_score() {
    let question = "where is the cat";
    for (threshold, first, start) in [(0.3, false, 23), (0.9, true, 23), (0.01, true, 0)] {
        let mut warnings: Vec<LengthWarning> = Vec::new();
        let result = MODEL
            .process_question_context(
                &tokenizer(),
                Network { forward: likes_cats, average, rate },
                question,
                "The cat sat. A dog ran.",
                start,
                score(threshold),
                first,
                &mut warnings,
            )
            .unwrap();
        assert_eq!(result.reranking_score, score(2.0));
    }
}

#[test]
fn a_context_without_sentences_may_start_anywhere() {
    let mut warnings: Vec<LengthWarning> = Vec::new();
    let res = MODEL.process_question_context(
        &tokenizer(),
        Network { forward: likes_cats, average, rate },
        "who",
        "  ",
        usize::MAX,
        score(0.3),
        false,
        &mut warnings,
    );
    assert_eq!(res.unwrap_err(), ProcessError::Sentences(SentenceError::NoSentences));
}
