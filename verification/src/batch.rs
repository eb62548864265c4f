//! Answering questions with lists of contexts.

use crate::encoding::{
    can_decode, can_encode, codec_within, decode_ids, decoding_result, encode_input,
    encoding_result, function_codec, tokenizer_codec, Codec, TokenEncoding,
};
use crate::error::{ErrorView, ProcessError};
use crate::length::{warning_views, LengthWarning, WarningView};
use crate::model::ProvenceModel;
use crate::prepare::{
    given_contexts, given_questions, given_titles, law_accepted_requests,
    law_prepared_titles_match, lists, prepare_error, prepare_process_params, prepare_warnings,
    prepared_contexts, prepared_title_lists, prepared_titles, short_texts, title_lists,
    titles_match, Lists,
    MultipleContexts, MultipleQuestions, MultipleTitles, OneOrMany,
};
use crate::process::{
    answer_question, can_answer, codec_callable, input_warning, is_usable,
    law_results_come_of_these_steps, lemma_answer_within, Network, NetworkOutput, ProcessedResult, ResultView, Selection,
};
use crate::ranking::{
    all_numbers, law_best_come_first, law_ranked_is_a_ranking, lemma_ranked_len, rank, ranked,
};
use crate::score::{Score, DEFAULT_THRESHOLD_BITS};
use crate::sentences::texts;
use crate::text::byte_length;
use crate::wording::{
    context_offset, law_context_lies_at_its_offset, law_the_offset_of_the_context, normalized,
};
use tokenizers::Tokenizer;
use vstd::prelude::*;
use vstd::utf8::encode_utf8;

verus! {

/// How many contexts of a question stay after reordering where nothing is said.
pub const DEFAULT_TOP_K: usize = 5;

/// A context with its title in front.
pub open spec fn titled(title: Seq<char>, context: Seq<char>) -> Seq<char> {
    title + " "@ + context
}

/// The contexts of a question, each with its title in front if there are titles.
pub open spec fn titled_list(
    contexts: Seq<Seq<char>>,
    titles: Option<Seq<Seq<char>>>,
) -> Seq<Seq<char>> {
    match titles {
        Some(t) => Seq::new(contexts.len(), |k: int| titled(t[k], contexts[k])),
        None => contexts,
    }
}

/// Puts the title of a context in front of it.
pub fn with_title(title: &str, context: &str) -> (text: String)
    ensures
        text@ == titled(title@, context@),
{
    let mut text = title.to_owned();
    text.append(" ");
    text.append(context);
    text
}

/// The warnings about the inputs for the first `n` contexts of a question.
pub open spec fn input_warnings(
    question: Seq<char>,
    contexts: Seq<Seq<char>>,
    n: int,
) -> Seq<WarningView>
    decreases n,
{
    if n <= 0 {
        seq![]
    } else {
        input_warnings(question, contexts, n - 1) + input_warning(question, contexts[n - 1])
    }
}

/// Whether these can be the answers for the first contexts of a question.
pub open spec fn are_answers<
    F: Fn(&Vec<u32>, &Vec<u32>) -> Result<NetworkOutput, String>,
    A: Fn(&Vec<Score>) -> Score,
    R: Fn(usize, usize) -> Score,
>(
    codec: Codec,
    network: Network<F, A, R>,
    selection: Selection,
    question: Seq<char>,
    contexts: Seq<Seq<char>>,
    answers: Seq<ResultView>,
) -> bool {
    forall|k: int|
        0 <= k < answers.len() ==> can_answer(
            codec,
            network,
            selection,
            question,
            contexts[k],
            context_offset(question) as int,
            Ok(#[trigger] answers[k]),
        )
}

/// Whether answering stops with this error at the context with index `k`.
pub open spec fn fails_at<
    F: Fn(&Vec<u32>, &Vec<u32>) -> Result<NetworkOutput, String>,
    A: Fn(&Vec<Score>) -> Score,
    R: Fn(usize, usize) -> Score,
>(
    codec: Codec,
    network: Network<F, A, R>,
    selection: Selection,
    question: Seq<char>,
    contexts: Seq<Seq<char>>,
    k: int,
    e: ErrorView,
) -> bool {
    &&& 0 <= k < contexts.len()
    &&& exists|answers: Seq<ResultView>|
        answers.len() == k && #[trigger] are_answers(
            codec,
            network,
            selection,
            question,
            contexts,
            answers,
        )
    &&& can_answer(
        codec,
        network,
        selection,
        question,
        contexts[k],
        context_offset(question) as int,
        Err(e),
    )
}

/// Results for the contexts of a question, as sequences.
pub open spec fn result_views(results: Seq<ProcessedResult>) -> Seq<ResultView> {
    results.map_values(|r: ProcessedResult| r@)
}

/// Answers a question with each of its contexts, until one fails.
pub fn answer_contexts<
    E: Fn(&String) -> Result<TokenEncoding, String> + Copy,
    D: Fn(&Vec<u32>) -> Result<String, String> + Copy,
    F: Fn(&Vec<u32>, &Vec<u32>) -> Result<NetworkOutput, String> + Copy,
    A: Fn(&Vec<Score>) -> Score + Copy,
    R: Fn(usize, usize) -> Score + Copy,
>(
    encode: E,
    decode: D,
    network: Network<F, A, R>,
    selection: Selection,
    question: &str,
    contexts: &Vec<String>,
    warnings: &mut Vec<LengthWarning>,
) -> (res: Result<Vec<ProcessedResult>, ProcessError>)
    requires
        forall|k: int|
            0 <= k < contexts@.len() ==> codec_callable(
                encode,
                decode,
                network,
                selection,
                question@,
                #[trigger] texts(contexts@)[k],
                context_offset(question@) as int,
            ),
        network.callable(),
    ensures
        match res {
            Ok(results) => {
                &&& results@.len() == contexts@.len()
                &&& are_answers(
                    function_codec(encode, decode),
                    network,
                    selection,
                    question@,
                    texts(contexts@),
                    result_views(results@),
                )
                &&& warning_views(final(warnings)@) == warning_views(old(warnings)@)
                    + input_warnings(question@, texts(contexts@), contexts@.len() as int)
            },
            Err(e) => exists|k: int|
                (#[trigger] fails_at(
                    function_codec(encode, decode),
                    network,
                    selection,
                    question@,
                    texts(contexts@),
                    k,
                    e@,
                )) && warning_views(final(warnings)@) == warning_views(old(warnings)@)
                    + input_warnings(question@, texts(contexts@), k + 1),
        },
{
    let ghost codec = function_codec(encode, decode);
    let ghost q = question@;
    let ghost c = texts(contexts@);
    let ghost w = warning_views(warnings@);
    // The context starts where the input for an empty context ends.
    let with_nothing = ProvenceModel::apply_template(question, "");
    proof {
        reveal_strlit("");
        law_context_lies_at_its_offset(question@, ""@, 0, 0);
        assert(""@ == Seq::<char>::empty());
    }
    let context_start_offset = byte_length(with_nothing.as_str());
    assert(context_start_offset == context_offset(q));
    let mut results: Vec<ProcessedResult> = Vec::with_capacity(contexts.len());
    let mut i: usize = 0;
    assert(w + input_warnings(q, c, 0) == w);
    while i < contexts.len()
        invariant
            forall|k: int|
                0 <= k < contexts@.len() ==> codec_callable(
                    encode,
                    decode,
                    network,
                    selection,
                    question@,
                    #[trigger] texts(contexts@)[k],
                    context_offset(question@) as int,
                ),
            network.callable(),
            codec == function_codec(encode, decode),
            q == question@,
            c == texts(contexts@),
            w == warning_views(old(warnings)@),
            context_start_offset == context_offset(q),
            i <= contexts@.len(),
            results@.len() == i,
            are_answers(codec, network, selection, q, c, result_views(results@)),
            warning_views(warnings@) == w + input_warnings(q, c, i as int),
        decreases contexts@.len() - i,
    {
        assert(c[i as int] == contexts@[i as int]@);
        let res = answer_question(
            encode,
            decode,
            network,
            selection,
            question,
            contexts[i].as_str(),
            context_start_offset,
            warnings,
        );
        assert(w + input_warnings(q, c, i + 1) == w + input_warnings(q, c, i as int)
            + input_warning(q, c[i as int]));
        match res {
            Ok(result) => {
                let ghost before = result_views(results@);
                results.push(result);
                proof {
                    let after = result_views(results@);
                    assert(after == before.push(result@));
                    assert forall|k: int| 0 <= k < after.len() implies can_answer(
                        codec,
                        network,
                        selection,
                        q,
                        c[k],
                        context_offset(q) as int,
                        Ok(#[trigger] after[k]),
                    ) by {
                        if k < before.len() {
                            assert(after[k] == before[k]);
                        }
                    }
                }
            },
            Err(e) => {
                proof {
                    assert(result_views(results@).len() == i);
                    assert(fails_at(codec, network, selection, q, c, i as int, e@));
                }
                return Err(e);
            },
        }
        i += 1;
    }
    Ok(results)
}

/// Puts the titles of the contexts in front of them, if there are titles.
fn with_titles(contexts: &Vec<String>, titles: Option<&Vec<String>>) -> (list: Vec<String>)
    requires
        titles matches Some(t) ==> t@.len() == contexts@.len(),
    ensures
        texts(list@) == titled_list(
            texts(contexts@),
            match titles {
                Some(t) => Some(texts(t@)),
                None => None,
            },
        ),
{
    let ghost c = texts(contexts@);
    let ghost t: Option<Seq<Seq<char>>> = match titles {
        Some(t) => Some(texts(t@)),
        None => None,
    };
    let mut list: Vec<String> = Vec::with_capacity(contexts.len());
    let mut i: usize = 0;
    while i < contexts.len()
        invariant
            titles matches Some(t) ==> t@.len() == contexts@.len(),
            c == texts(contexts@),
            t == match titles {
                Some(t) => Some(texts(t@)),
                None => None,
            },
            i <= contexts@.len(),
            texts(list@) == titled_list(c, t).take(i as int),
        decreases contexts@.len() - i,
    {
        let text = match titles {
            Some(titles) => with_title(titles[i].as_str(), contexts[i].as_str()),
            None => contexts[i].clone(),
        };
        proof {
            let all = titled_list(c, t);
            assert(all.take(i + 1) == all.take(i as int).push(all[i as int]));
            assert(c[i as int] == contexts@[i as int]@);
            assert(texts(list@.push(text)) == texts(list@).push(text@));
        }
        list.push(text);
        i += 1;
    }
    assert(titled_list(c, t).take(i as int) == titled_list(c, t));
    list
}

/// What a question gets: for each context that stays what is left of it, its
/// ranking score and its compression rate.
pub struct Row {
    pub contexts: Seq<Seq<char>>,
    pub scores: Seq<Score>,
    pub rates: Seq<Score>,
}

/// The answers as a row.
pub open spec fn row_of(answers: Seq<ResultView>) -> Row {
    Row {
        contexts: answers.map_values(|a: ResultView| a.pruned_context),
        scores: ranking_scores(answers),
        rates: answers.map_values(|a: ResultView| a.compression_rate),
    }
}

/// The ranking scores of the answers.
pub open spec fn ranking_scores(answers: Seq<ResultView>) -> Seq<Score> {
    answers.map_values(|a: ResultView| a.reranking_score)
}

/// The first `top_k` answers in the given order, or all.
pub open spec fn best(answers: Seq<ResultView>, order: Seq<usize>, top_k: nat) -> Seq<ResultView> {
    Seq::new(
        if order.len() > top_k {
            top_k
        } else {
            order.len()
        },
        |j: int| answers[order[j] as int],
    )
}

/// Whether the answers are arranged as this row: as they come or, if they are to
/// be reordered, the best `top_k` of them in the order of their scores.
pub open spec fn is_row(answers: Seq<ResultView>, reorder: bool, top_k: nat, row: Row) -> bool {
    row == row_of(
        if reorder {
            best(answers, ranked(ranking_scores(answers)), top_k)
        } else {
            answers
        },
    )
}

/// The row that three lists make up.
pub open spec fn row_view(row: (Vec<String>, Vec<Score>, Vec<Score>)) -> Row {
    Row { contexts: texts(row.0@), scores: row.1@, rates: row.2@ }
}

/// The results with the given indices, as three lists.
fn pick(results: &Vec<ProcessedResult>, order: &Vec<usize>, n: usize) -> (row: (
    Vec<String>,
    Vec<Score>,
    Vec<Score>,
))
    requires
        n <= order@.len(),
        forall|j: int| 0 <= j < order@.len() ==> (#[trigger] order@[j]) < results@.len(),
    ensures
        row_view(row) == row_of(
            Seq::new(n as nat, |j: int| result_views(results@)[order@[j] as int]),
        ),
{
    let ghost picked = Seq::new(n as nat, |j: int| result_views(results@)[order@[j] as int]);
    let mut contexts: Vec<String> = Vec::with_capacity(n);
    let mut scores: Vec<Score> = Vec::with_capacity(n);
    let mut rates: Vec<Score> = Vec::with_capacity(n);
    let mut j: usize = 0;
    while j < n
        invariant
            picked == Seq::new(n as nat, |j: int| result_views(results@)[order@[j] as int]),
            j <= n <= order@.len(),
            forall|j: int| 0 <= j < order@.len() ==> (#[trigger] order@[j]) < results@.len(),
            texts(contexts@) == row_of(picked).contexts.take(j as int),
            scores@ == row_of(picked).scores.take(j as int),
            rates@ == row_of(picked).rates.take(j as int),
        decreases n - j,
    {
        let k = order[j];
        let result = &results[k];
        let context = result.pruned_context.clone();
        proof {
            let row = row_of(picked);
            assert(picked[j as int] == results@[k as int]@);
            assert(row.contexts.take(j + 1) == row.contexts.take(j as int).push(context@));
            assert(row.scores.take(j + 1) == row.scores.take(j as int).push(
                result.reranking_score,
            ));
            assert(row.rates.take(j + 1) == row.rates.take(j as int).push(
                result.compression_rate,
            ));
            assert(texts(contexts@.push(context)) == texts(contexts@).push(context@));
        }
        contexts.push(context);
        scores.push(result.reranking_score);
        rates.push(result.compression_rate);
        j += 1;
    }
    proof {
        let row = row_of(picked);
        assert(row.contexts.take(j as int) == row.contexts);
        assert(row.scores.take(j as int) == row.scores);
        assert(row.rates.take(j as int) == row.rates);
    }
    (contexts, scores, rates)
}

/// Arranges the results for a question: as they come or, if they are to be
/// reordered, the best `top_k` in the order of their scores.
pub fn arrange(results: &Vec<ProcessedResult>, reorder: bool, top_k: usize) -> (row: (
    Vec<String>,
    Vec<Score>,
    Vec<Score>,
))
    ensures
        is_row(result_views(results@), reorder, top_k as nat, row_view(row)),
{
    let ghost answers = result_views(results@);
    let n = results.len();
    let mut scores: Vec<Score> = Vec::with_capacity(n);
    let mut as_they_come: Vec<usize> = Vec::with_capacity(n);
    let mut i: usize = 0;
    while i < n
        invariant
            n == results@.len(),
            answers == result_views(results@),
            i <= n,
            scores@ == ranking_scores(answers).take(i as int),
            as_they_come@ == Seq::new(i as nat, |j: int| j as usize),
        decreases n - i,
    {
        proof {
            let all = ranking_scores(answers);
            assert(all.take(i + 1) == all.take(i as int).push(all[i as int]));
        }
        scores.push(results[i].reranking_score);
        as_they_come.push(i);
        i += 1;
        assert(as_they_come@ =~= Seq::new(i as nat, |j: int| j as usize));
    }
    assert(scores@ == ranking_scores(answers));
    if reorder {
        let order = rank(&scores);
        let count = if n > top_k {
            top_k
        } else {
            n
        };
        let row = pick(results, &order, count);
        proof {
            assert(Seq::new(count as nat, |j: int| answers[order@[j] as int]) == best(
                answers,
                order@,
                top_k as nat,
            ));
        }
        row
    } else {
        let row = pick(results, &as_they_come, n);
        assert(Seq::new(n as nat, |j: int| answers[as_they_come@[j] as int]) == answers);
        row
    }
}

/// What is left of the contexts, list by list, with the ranking scores and the
/// compression rates.
#[derive(Clone, Debug)]
pub struct ProcessedResults {
    pub pruned_context: MultipleContexts,
    pub reranking_score: Vec<Vec<Score>>,
    pub compression_rate: Vec<Vec<Score>>,
}

impl ProcessedResults {
    /// Whether there are as many lists of each kind.
    pub open spec fn wf(self) -> bool {
        self.pruned_context@.len() == self.reranking_score@.len() == self.compression_rate@.len()
    }
}

impl View for ProcessedResults {
    type V = Seq<Row>;

    open spec fn view(&self) -> Seq<Row> {
        Seq::new(
            self.pruned_context@.len(),
            |i: int|
                Row {
                    contexts: texts(self.pruned_context@[i]@),
                    scores: self.reranking_score@[i]@,
                    rates: self.compression_rate@[i]@,
                },
        )
    }
}

/// The questions, normalised.
pub open spec fn normalized_questions(questions: Seq<Seq<char>>) -> Seq<Seq<char>> {
    questions.map_values(|q: Seq<char>| normalized(q))
}

/// The titles for one question, if there are titles.
pub open spec fn titles_at(titles: Option<Lists>, i: int) -> Option<Seq<Seq<char>>> {
    match titles {
        Some(t) => Some(t[i]),
        None => None,
    }
}

/// The contexts of all questions, each with its title in front if there are
/// titles.
pub open spec fn titled_contexts(contexts: Lists, titles: Option<Lists>) -> Lists {
    Seq::new(contexts.len(), |i: int| titled_list(contexts[i], titles_at(titles, i)))
}

/// How results are arranged.
pub struct Arrangement {
    pub reorder: bool,
    pub top_k: nat,
}

/// Whether a question and its contexts can lead to this row.
pub open spec fn leads_to_row<
    F: Fn(&Vec<u32>, &Vec<u32>) -> Result<NetworkOutput, String>,
    A: Fn(&Vec<Score>) -> Score,
    R: Fn(usize, usize) -> Score,
>(
    codec: Codec,
    network: Network<F, A, R>,
    selection: Selection,
    arrangement: Arrangement,
    question: Seq<char>,
    contexts: Seq<Seq<char>>,
    row: Row,
) -> bool {
    exists|answers: Seq<ResultView>|
        answers.len() == contexts.len() && #[trigger] are_answers(
            codec,
            network,
            selection,
            question,
            contexts,
            answers,
        ) && is_row(answers, arrangement.reorder, arrangement.top_k, row)
}

/// Whether the first questions and their contexts can lead to these rows.
pub open spec fn lead_to_rows<
    F: Fn(&Vec<u32>, &Vec<u32>) -> Result<NetworkOutput, String>,
    A: Fn(&Vec<Score>) -> Score,
    R: Fn(usize, usize) -> Score,
>(
    codec: Codec,
    network: Network<F, A, R>,
    selection: Selection,
    arrangement: Arrangement,
    questions: Seq<Seq<char>>,
    contexts: Lists,
    rows: Seq<Row>,
) -> bool {
    forall|i: int|
        0 <= i < rows.len() ==> leads_to_row(
            codec,
            network,
            selection,
            arrangement,
            questions[i],
            contexts[i],
            #[trigger] rows[i],
        )
}

/// The warnings about the inputs for the contexts of the first `n` questions.
pub open spec fn all_input_warnings(
    questions: Seq<Seq<char>>,
    contexts: Lists,
    n: int,
) -> Seq<WarningView>
    decreases n,
{
    if n <= 0 {
        seq![]
    } else {
        all_input_warnings(questions, contexts, n - 1) + input_warnings(
            questions[n - 1],
            contexts[n - 1],
            contexts[n - 1].len() as int,
        )
    }
}

/// Whether normalised questions and their contexts can lead to this, with these
/// warnings about inputs: a row for each question, or the error at which
/// answering stops.
pub open spec fn lead_to<
    F: Fn(&Vec<u32>, &Vec<u32>) -> Result<NetworkOutput, String>,
    A: Fn(&Vec<Score>) -> Score,
    R: Fn(usize, usize) -> Score,
>(
    codec: Codec,
    network: Network<F, A, R>,
    selection: Selection,
    arrangement: Arrangement,
    questions: Seq<Seq<char>>,
    contexts: Lists,
    outcome: Result<Seq<Row>, ErrorView>,
    warned: Seq<WarningView>,
) -> bool {
    match outcome {
        Ok(rows) => {
            &&& rows.len() == questions.len()
            &&& lead_to_rows(codec, network, selection, arrangement, questions, contexts, rows)
            &&& warned == all_input_warnings(questions, contexts, questions.len() as int)
        },
        Err(e) => exists|rows: Seq<Row>, k: int|
            {
                let i = rows.len() as int;
                &&& i < questions.len()
                &&& #[trigger] lead_to_rows(
                    codec,
                    network,
                    selection,
                    arrangement,
                    questions,
                    contexts,
                    rows,
                )
                &&& #[trigger] fails_at(
                    codec,
                    network,
                    selection,
                    questions[rows.len() as int],
                    contexts[rows.len() as int],
                    k,
                    e,
                )
                &&& warned == all_input_warnings(questions, contexts, i) + input_warnings(
                    questions[i],
                    contexts[i],
                    k + 1,
                )
            },
    }
}

/// The rows of results, or an error.
pub open spec fn results_view(res: Result<ProcessedResults, ProcessError>) -> Result<
    Seq<Row>,
    ErrorView,
> {
    match res {
        Ok(results) => Ok(results@),
        Err(e) => Err(e@),
    }
}

/// Whether two functions can be called on the input for every normalised
/// question with each of its contexts, and on what can be kept of it.
pub open spec fn functions_fit<
    E: Fn(&String) -> Result<TokenEncoding, String>,
    D: Fn(&Vec<u32>) -> Result<String, String>,
    F: Fn(&Vec<u32>, &Vec<u32>) -> Result<NetworkOutput, String>,
    A: Fn(&Vec<Score>) -> Score,
    R: Fn(usize, usize) -> Score,
>(
    encode: E,
    decode: D,
    network: Network<F, A, R>,
    selection: Selection,
    questions: Seq<Seq<char>>,
    contexts: Lists,
) -> bool {
    forall|i: int, k: int|
        0 <= i < contexts.len() && 0 <= k < contexts[i].len() ==> codec_callable(
            encode,
            decode,
            network,
            selection,
            questions[i],
            #[trigger] contexts[i][k],
            context_offset(questions[i]) as int,
        )
}

/// Whether a tokenizer can encode the input for every normalised question with
/// each of its contexts, and decode what can be kept of it.
pub open spec fn tokenizer_fits<
    F: Fn(&Vec<u32>, &Vec<u32>) -> Result<NetworkOutput, String>,
    A: Fn(&Vec<Score>) -> Score,
    R: Fn(usize, usize) -> Score,
>(
    tokenizer: &Tokenizer,
    network: Network<F, A, R>,
    selection: Selection,
    questions: Seq<Seq<char>>,
    contexts: Lists,
) -> bool {
    forall|i: int, k: int|
        0 <= i < contexts.len() && 0 <= k < contexts[i].len() ==> is_usable(
            tokenizer,
            network,
            selection,
            questions[i],
            #[trigger] contexts[i][k],
            context_offset(questions[i]) as int,
        )
}

/// Answers each question with each of its contexts, until one fails.
fn answer_all<
    E: Fn(&String) -> Result<TokenEncoding, String> + Copy,
    D: Fn(&Vec<u32>) -> Result<String, String> + Copy,
    F: Fn(&Vec<u32>, &Vec<u32>) -> Result<NetworkOutput, String> + Copy,
    A: Fn(&Vec<Score>) -> Score + Copy,
    R: Fn(usize, usize) -> Score + Copy,
>(
    encode: E,
    decode: D,
    network: Network<F, A, R>,
    selection: Selection,
    reorder: bool,
    top_k: usize,
    questions: &Vec<String>,
    contexts: &MultipleContexts,
    titles: &Option<MultipleTitles>,
    warnings: &mut Vec<LengthWarning>,
) -> (res: Result<ProcessedResults, ProcessError>)
    requires
        functions_fit(
            encode,
            decode,
            network,
            selection,
            normalized_questions(texts(questions@)),
            titled_contexts(lists(contexts@), title_lists(*titles)),
        ),
        network.callable(),
        questions@.len() == contexts@.len(),
        title_lists(*titles) matches Some(t) ==> titles_match(t, lists(contexts@)),
    ensures
        res matches Ok(results) ==> results.wf(),
        exists|warned: Seq<WarningView>|
            warning_views(final(warnings)@) == warning_views(old(warnings)@) + warned
                && #[trigger] lead_to(
                function_codec(encode, decode),
                network,
                selection,
                Arrangement { reorder, top_k: top_k as nat },
                normalized_questions(texts(questions@)),
                titled_contexts(lists(contexts@), title_lists(*titles)),
                results_view(res),
                warned,
            ),
{
    let ghost codec = function_codec(encode, decode);
    let ghost arrangement = Arrangement { reorder, top_k: top_k as nat };
    let ghost q = normalized_questions(texts(questions@));
    let ghost t = title_lists(*titles);
    let ghost c = titled_contexts(lists(contexts@), t);
    let ghost w = warning_views(warnings@);
    let ghost mut rows: Seq<Row> = seq![];
    let mut results = ProcessedResults {
        pruned_context: Vec::with_capacity(questions.len()),
        reranking_score: Vec::with_capacity(questions.len()),
        compression_rate: Vec::with_capacity(questions.len()),
    };
    let mut i: usize = 0;
    assert(w + all_input_warnings(q, c, 0) == w);
    assert(results@ == rows);
    while i < questions.len()
        invariant
            functions_fit(encode, decode, network, selection, q, c),
            network.callable(),
            questions@.len() == contexts@.len(),
            t == title_lists(*titles),
            t matches Some(t) ==> titles_match(t, lists(contexts@)),
            codec == function_codec(encode, decode),
            arrangement == (Arrangement { reorder, top_k: top_k as nat }),
            q == normalized_questions(texts(questions@)),
            c == titled_contexts(lists(contexts@), t),
            w == warning_views(old(warnings)@),
            i <= questions@.len(),
            rows.len() == i,
            results.wf(),
            results@ == rows,
            lead_to_rows(codec, network, selection, arrangement, q, c, rows),
            warning_views(warnings@) == w + all_input_warnings(q, c, i as int),
        decreases questions@.len() - i,
    {
        let question = ProvenceModel::normalize_string(questions[i].as_str());
        assert(question@ == q[i as int]);
        let question_titles = match titles {
            Some(titles) => {
                proof {
                    assert((t->0)[i as int].len() == lists(contexts@)[i as int].len());
                    assert((t->0)[i as int] == texts(titles@[i as int]@));
                }
                Some(&titles[i])
            },
            None => None,
        };
        let list = with_titles(&contexts[i], question_titles);
        proof {
            assert(texts(list@) == c[i as int]);
            assert forall|k: int| 0 <= k < list@.len() implies codec_callable(
                encode,
                decode,
                network,
                selection,
                question@,
                #[trigger] texts(list@)[k],
                context_offset(question@) as int,
            ) by {
                assert(texts(list@)[k] == c[i as int][k]);
            }
        }
        let answered = answer_contexts(
            encode,
            decode,
            network,
            selection,
            question.as_str(),
            &list,
            warnings,
        );
        match answered {
            Ok(answers) => {
                let (row_contexts, row_scores, row_rates) = arrange(&answers, reorder, top_k);
                let ghost row = row_view((row_contexts, row_scores, row_rates));
                let ghost before = results;
                results.pruned_context.push(row_contexts);
                results.reranking_score.push(row_scores);
                results.compression_rate.push(row_rates);
                proof {
                    let views = result_views(answers@);
                    assert(views.len() == c[i as int].len());
                    assert(leads_to_row(
                        codec,
                        network,
                        selection,
                        arrangement,
                        q[i as int],
                        c[i as int],
                        row,
                    ));
                    assert(results@ =~= rows.push(row)) by {
                        assert forall|j: int| 0 <= j < i implies #[trigger] results@[j]
                            == rows[j] by {
                            assert(before@[j] == rows[j]);
                        }
                    }
                    rows = rows.push(row);
                    assert(w + all_input_warnings(q, c, i + 1) == w + all_input_warnings(
                        q,
                        c,
                        i as int,
                    ) + input_warnings(q[i as int], c[i as int], c[i as int].len() as int));
                }
            },
            Err(e) => {
                proof {
                    let k = choose|k: int|
                        (#[trigger] fails_at(
                            codec,
                            network,
                            selection,
                            q[i as int],
                            c[i as int],
                            k,
                            e@,
                        )) && warning_views(warnings@) == w + all_input_warnings(q, c, i as int)
                            + input_warnings(q[i as int], c[i as int], k + 1);
                    let warned = all_input_warnings(q, c, i as int) + input_warnings(
                        q[i as int],
                        c[i as int],
                        k + 1,
                    );
                    assert(warning_views(warnings@) == w + warned);
                    assert(lead_to_rows(codec, network, selection, arrangement, q, c, rows));
                    assert(fails_at(
                        codec,
                        network,
                        selection,
                        q[rows.len() as int],
                        c[rows.len() as int],
                        k,
                        e@,
                    ));
                    assert(lead_to(
                        codec,
                        network,
                        selection,
                        arrangement,
                        q,
                        c,
                        Err(e@),
                        warned,
                    ));
                }
                return Err(e);
            },
        }
        i += 1;
    }
    proof {
        assert(lead_to(
            codec,
            network,
            selection,
            arrangement,
            q,
            c,
            Ok(rows),
            all_input_warnings(q, c, i as int),
        ));
    }
    Ok(results)
}

/// The threshold that applies: 0.1 where none is given.
pub open spec fn chosen_threshold(threshold: Option<Score>) -> Score {
    match threshold {
        Some(t) => t,
        None => Score { bits: DEFAULT_THRESHOLD_BITS },
    }
}

/// Whether the first sentence is always selected: so unless said otherwise.
pub open spec fn chosen_first(always_select_first: Option<bool>) -> bool {
    always_select_first matches Some(b) ==> b
}

/// How results are arranged: as they come unless said otherwise, and the best
/// five if nothing is said of how many.
pub open spec fn chosen_arrangement(reorder: Option<bool>, top_k: Option<usize>) -> Arrangement {
    Arrangement {
        reorder: reorder matches Some(b) && b,
        top_k: match top_k {
            Some(k) => k as nat,
            None => DEFAULT_TOP_K as nat,
        },
    }
}

/// The contexts of a request that are put into inputs: split, and each with its
/// title in front if there are titles.
pub open spec fn request_contexts(contexts: Lists, titles: Option<Lists>) -> Lists {
    titled_contexts(prepared_contexts(contexts), prepared_title_lists(titles, contexts))
}

/// Whether a request can lead to this, with these warnings.
pub open spec fn can_process<
    F: Fn(&Vec<u32>, &Vec<u32>) -> Result<NetworkOutput, String>,
    A: Fn(&Vec<Score>) -> Score,
    R: Fn(usize, usize) -> Score,
>(
    codec: Codec,
    network: Network<F, A, R>,
    selection: Selection,
    arrangement: Arrangement,
    questions: Seq<Seq<char>>,
    contexts: Lists,
    titles: Option<Lists>,
    outcome: Result<Seq<Row>, ErrorView>,
    warned: Seq<WarningView>,
) -> bool {
    match prepare_error(questions, contexts, titles) {
        Some(e) => {
            &&& outcome == Err::<Seq<Row>, ErrorView>(ErrorView::Request(e))
            &&& warned == prepare_warnings(questions, contexts, titles)
        },
        None => exists|about_inputs: Seq<WarningView>|
            warned == prepare_warnings(questions, contexts, titles) + about_inputs
                && #[trigger] lead_to(
                codec,
                network,
                selection,
                arrangement,
                normalized_questions(short_texts(questions)),
                request_contexts(contexts, titles),
                outcome,
                about_inputs,
            ),
    }
}

impl ProvenceModel {
    /// Answers each question with each of its contexts; with any functions that
    /// encode an input and decode tokens.
    pub fn process_with<
        E: Fn(&String) -> Result<TokenEncoding, String> + Copy,
        D: Fn(&Vec<u32>) -> Result<String, String> + Copy,
        F: Fn(&Vec<u32>, &Vec<u32>) -> Result<NetworkOutput, String> + Copy,
        A: Fn(&Vec<Score>) -> Score + Copy,
        R: Fn(usize, usize) -> Score + Copy,
    >(
        &self,
        encode: E,
        decode: D,
        network: Network<F, A, R>,
        question: OneOrMany<MultipleQuestions>,
        context: OneOrMany<MultipleContexts>,
        title: Option<OneOrMany<MultipleTitles>>,
        threshold: Option<Score>,
        always_select_first: Option<bool>,
        reorder: Option<bool>,
        top_k: Option<usize>,
        warnings: &mut Vec<LengthWarning>,
    ) -> (res: Result<ProcessedResults, ProcessError>)
        requires
            prepare_error(
                given_questions(question),
                given_contexts(context),
                given_titles(title),
            ) is None ==> functions_fit(
                encode,
                decode,
                network,
                self.spec_selection(
                    chosen_threshold(threshold),
                    chosen_first(always_select_first),
                ),
                normalized_questions(short_texts(given_questions(question))),
                request_contexts(given_contexts(context), given_titles(title)),
            ),
            network.callable(),
        ensures
            res matches Ok(results) ==> results.wf(),
            exists|warned: Seq<WarningView>|
                warning_views(final(warnings)@) == warning_views(old(warnings)@) + warned
                    && #[trigger] can_process(
                    function_codec(encode, decode),
                    network,
                    self.spec_selection(
                        chosen_threshold(threshold),
                        chosen_first(always_select_first),
                    ),
                    chosen_arrangement(reorder, top_k),
                    given_questions(question),
                    given_contexts(context),
                    given_titles(title),
                    results_view(res),
                    warned,
                ),
    {
        let ghost codec = function_codec(encode, decode);
        let ghost arrangement = chosen_arrangement(reorder, top_k);
        let ghost q = given_questions(question);
        let ghost c = given_contexts(context);
        let ghost t = given_titles(title);
        let ghost w = warning_views(warnings@);
        let ghost about_request = prepare_warnings(q, c, t);
        let threshold = match threshold {
            Some(threshold) => threshold,
            None => Score { bits: DEFAULT_THRESHOLD_BITS },
        };
        let always_select_first = match always_select_first {
            Some(always_select_first) => always_select_first,
            None => true,
        };
        let reorder = match reorder {
            Some(reorder) => reorder,
            None => false,
        };
        let top_k = match top_k {
            Some(top_k) => top_k,
            None => DEFAULT_TOP_K,
        };
        let selection = self.selection(threshold, always_select_first);
        let (questions, contexts, titles) = match prepare_process_params(
            question,
            context,
            title,
            warnings,
        ) {
            Ok(prepared) => prepared,
            Err(e) => {
                proof {
                    assert(can_process(
                        codec,
                        network,
                        selection,
                        arrangement,
                        q,
                        c,
                        t,
                        Err(ErrorView::Request(e)),
                        about_request,
                    ));
                }
                return Err(ProcessError::Request(e));
            },
        };
        proof {
            law_accepted_requests(q, c, t);
            if t is Some {
                law_prepared_titles_match(t->0, c);
            }
            assert(questions@.len() == texts(questions@).len());
            assert(contexts@.len() == lists(contexts@).len());
        }
        let res = answer_all(
            encode,
            decode,
            network,
            selection,
            reorder,
            top_k,
            &questions,
            &contexts,
            &titles,
            warnings,
        );
        proof {
            let about_inputs = choose|about_inputs: Seq<WarningView>|
                warning_views(warnings@) == w + about_request + about_inputs && #[trigger] lead_to(
                    codec,
                    network,
                    selection,
                    arrangement,
                    normalized_questions(texts(questions@)),
                    titled_contexts(lists(contexts@), title_lists(titles)),
                    results_view(res),
                    about_inputs,
                );
            assert(warning_views(warnings@) == w + (about_request + about_inputs));
            assert(can_process(
                codec,
                network,
                selection,
                arrangement,
                q,
                c,
                t,
                results_view(res),
                about_request + about_inputs,
            ));
        }
        res
    }
}

/// What can be answers can be with a codec that can come to more.
proof fn lemma_answers_within<
    F: Fn(&Vec<u32>, &Vec<u32>) -> Result<NetworkOutput, String>,
    A: Fn(&Vec<Score>) -> Score,
    R: Fn(usize, usize) -> Score,
>(
    a: Codec,
    b: Codec,
    network: Network<F, A, R>,
    selection: Selection,
    question: Seq<char>,
    contexts: Seq<Seq<char>>,
    answers: Seq<ResultView>,
)
    requires
        codec_within(a, b),
        are_answers(a, network, selection, question, contexts, answers),
    ensures
        are_answers(b, network, selection, question, contexts, answers),
{
    let start = context_offset(question) as int;
    assert forall|k: int| 0 <= k < answers.len() implies can_answer(
        b,
        network,
        selection,
        question,
        contexts[k],
        start,
        Ok(#[trigger] answers[k]),
    ) by {
        lemma_answer_within(
            a,
            b,
            network,
            selection,
            question,
            contexts[k],
            start,
            Ok(answers[k]),
        );
    }
}

/// What can fail can fail with a codec that can come to more.
proof fn lemma_failure_within<
    F: Fn(&Vec<u32>, &Vec<u32>) -> Result<NetworkOutput, String>,
    A: Fn(&Vec<Score>) -> Score,
    R: Fn(usize, usize) -> Score,
>(
    a: Codec,
    b: Codec,
    network: Network<F, A, R>,
    selection: Selection,
    question: Seq<char>,
    contexts: Seq<Seq<char>>,
    k: int,
    e: ErrorView,
)
    requires
        codec_within(a, b),
        fails_at(a, network, selection, question, contexts, k, e),
    ensures
        fails_at(b, network, selection, question, contexts, k, e),
{
    let answers = choose|answers: Seq<ResultView>|
        answers.len() == k && #[trigger] are_answers(
            a,
            network,
            selection,
            question,
            contexts,
            answers,
        );
    lemma_answers_within(a, b, network, selection, question, contexts, answers);
    lemma_answer_within(
        a,
        b,
        network,
        selection,
        question,
        contexts[k],
        context_offset(question) as int,
        Err(e),
    );
}

/// What can be rows can be with a codec that can come to more.
proof fn lemma_rows_within<
    F: Fn(&Vec<u32>, &Vec<u32>) -> Result<NetworkOutput, String>,
    A: Fn(&Vec<Score>) -> Score,
    R: Fn(usize, usize) -> Score,
>(
    a: Codec,
    b: Codec,
    network: Network<F, A, R>,
    selection: Selection,
    arrangement: Arrangement,
    questions: Seq<Seq<char>>,
    contexts: Lists,
    rows: Seq<Row>,
)
    requires
        codec_within(a, b),
        lead_to_rows(a, network, selection, arrangement, questions, contexts, rows),
    ensures
        lead_to_rows(b, network, selection, arrangement, questions, contexts, rows),
{
    assert forall|i: int| 0 <= i < rows.len() implies leads_to_row(
        b,
        network,
        selection,
        arrangement,
        questions[i],
        contexts[i],
        #[trigger] rows[i],
    ) by {
        assert(leads_to_row(
            a,
            network,
            selection,
            arrangement,
            questions[i],
            contexts[i],
            rows[i],
        ));
        let answers = choose|answers: Seq<ResultView>|
            answers.len() == contexts[i].len() && #[trigger] are_answers(
                a,
                network,
                selection,
                questions[i],
                contexts[i],
                answers,
            ) && is_row(answers, arrangement.reorder, arrangement.top_k, rows[i]);
        lemma_answers_within(a, b, network, selection, questions[i], contexts[i], answers);
    }
}

/// What questions can lead to, they can lead to with a codec that can come to
/// more.
proof fn lemma_lead_to_within<
    F: Fn(&Vec<u32>, &Vec<u32>) -> Result<NetworkOutput, String>,
    A: Fn(&Vec<Score>) -> Score,
    R: Fn(usize, usize) -> Score,
>(
    a: Codec,
    b: Codec,
    network: Network<F, A, R>,
    selection: Selection,
    arrangement: Arrangement,
    questions: Seq<Seq<char>>,
    contexts: Lists,
    outcome: Result<Seq<Row>, ErrorView>,
    warned: Seq<WarningView>,
)
    requires
        codec_within(a, b),
        lead_to(a, network, selection, arrangement, questions, contexts, outcome, warned),
    ensures
        lead_to(b, network, selection, arrangement, questions, contexts, outcome, warned),
{
    match outcome {
        Ok(rows) => {
            lemma_rows_within(
                a,
                b,
                network,
                selection,
                arrangement,
                questions,
                contexts,
                rows,
            );
        },
        Err(e) => {
            let (rows, k) = choose|rows: Seq<Row>, k: int|
                {
                    let i = rows.len() as int;
                    &&& i < questions.len()
                    &&& #[trigger] lead_to_rows(
                        a,
                        network,
                        selection,
                        arrangement,
                        questions,
                        contexts,
                        rows,
                    )
                    &&& #[trigger] fails_at(
                        a,
                        network,
                        selection,
                        questions[rows.len() as int],
                        contexts[rows.len() as int],
                        k,
                        e,
                    )
                    &&& warned == all_input_warnings(questions, contexts, i) + input_warnings(
                        questions[i],
                        contexts[i],
                        k + 1,
                    )
                };
            let i = rows.len() as int;
            lemma_rows_within(
                a,
                b,
                network,
                selection,
                arrangement,
                questions,
                contexts,
                rows,
            );
            lemma_failure_within(a, b, network, selection, questions[i], contexts[i], k, e);
        },
    }
}

/// What a request can lead to, it can lead to with a codec that can come to more.
proof fn lemma_process_within<
    F: Fn(&Vec<u32>, &Vec<u32>) -> Result<NetworkOutput, String>,
    A: Fn(&Vec<Score>) -> Score,
    R: Fn(usize, usize) -> Score,
>(
    a: Codec,
    b: Codec,
    network: Network<F, A, R>,
    selection: Selection,
    arrangement: Arrangement,
    questions: Seq<Seq<char>>,
    contexts: Lists,
    titles: Option<Lists>,
    outcome: Result<Seq<Row>, ErrorView>,
    warned: Seq<WarningView>,
)
    requires
        codec_within(a, b),
        can_process(
            a,
            network,
            selection,
            arrangement,
            questions,
            contexts,
            titles,
            outcome,
            warned,
        ),
    ensures
        can_process(
            b,
            network,
            selection,
            arrangement,
            questions,
            contexts,
            titles,
            outcome,
            warned,
        ),
{
    if prepare_error(questions, contexts, titles) is None {
        let q = normalized_questions(short_texts(questions));
        let c = request_contexts(contexts, titles);
        let about_inputs = choose|about_inputs: Seq<WarningView>|
            warned == prepare_warnings(questions, contexts, titles) + about_inputs
                && #[trigger] lead_to(
                a,
                network,
                selection,
                arrangement,
                q,
                c,
                outcome,
                about_inputs,
            );
        lemma_lead_to_within(
            a,
            b,
            network,
            selection,
            arrangement,
            q,
            c,
            outcome,
            about_inputs,
        );
    }
}

impl ProvenceModel {
    /// Answers each question with each of its contexts: prunes every context to
    /// the sentences that help to answer the question, and scores how well it
    /// does.
    ///
    /// A single question, context or title counts as a list of one, and the
    /// title `first_sentence` as none. Where nothing is said, the threshold is
    /// 0.1, the first sentence is kept with any other, and the contexts stay in
    /// their order; reordered, the best five stay. `_batch_size` and
    /// `_enable_warnings` have no effect.
    pub fn process<
        F: Fn(&Vec<u32>, &Vec<u32>) -> Result<NetworkOutput, String> + Copy,
        A: Fn(&Vec<Score>) -> Score + Copy,
        R: Fn(usize, usize) -> Score + Copy,
    >(
        &self,
        tokenizer: &Tokenizer,
        network: Network<F, A, R>,
        question: OneOrMany<MultipleQuestions>,
        context: OneOrMany<MultipleContexts>,
        title: Option<OneOrMany<MultipleTitles>>,
        threshold: Option<Score>,
        always_select_first: Option<bool>,
        _batch_size: Option<usize>,
        reorder: Option<bool>,
        top_k: Option<usize>,
        _enable_warnings: Option<bool>,
        warnings: &mut Vec<LengthWarning>,
    ) -> (res: Result<ProcessedResults, ProcessError>)
        requires
            prepare_error(
                given_questions(question),
                given_contexts(context),
                given_titles(title),
            ) is None ==> tokenizer_fits(
                tokenizer,
                network,
                self.spec_selection(
                    chosen_threshold(threshold),
                    chosen_first(always_select_first),
                ),
                normalized_questions(short_texts(given_questions(question))),
                request_contexts(given_contexts(context), given_titles(title)),
            ),
            network.callable(),
        ensures
            res matches Ok(results) ==> results.wf(),
            exists|warned: Seq<WarningView>|
                warning_views(final(warnings)@) == warning_views(old(warnings)@) + warned
                    && #[trigger] can_process(
                    tokenizer_codec(tokenizer),
                    network,
                    self.spec_selection(
                        chosen_threshold(threshold),
                        chosen_first(always_select_first),
                    ),
                    chosen_arrangement(reorder, top_k),
                    given_questions(question),
                    given_contexts(context),
                    given_titles(title),
                    results_view(res),
                    warned,
                ),
    {
        let encode = |text: &String| -> (r: Result<TokenEncoding, String>)
            requires
                can_encode(tokenizer, text@),
            ensures
                (tokenizer_codec(tokenizer).encodes)(text@, encoding_result(r)),
            { encode_input(tokenizer, text.as_str()) };
        let decode = |ids: &Vec<u32>| -> (r: Result<String, String>)
            requires
                can_decode(tokenizer, ids@),
            ensures
                (tokenizer_codec(tokenizer).decodes)(ids@, decoding_result(r)),
            { decode_ids(tokenizer, ids) };
        proof {
            let q = normalized_questions(short_texts(given_questions(question)));
            let c = request_contexts(given_contexts(context), given_titles(title));
            let selection = self.spec_selection(
                chosen_threshold(threshold),
                chosen_first(always_select_first),
            );
            if tokenizer_fits(tokenizer, network, selection, q, c) {
                assert forall|i: int, k: int|
                    0 <= i < c.len() && 0 <= k < c[i].len() implies codec_callable(
                    encode,
                    decode,
                    network,
                    selection,
                    q[i],
                    #[trigger] c[i][k],
                    context_offset(q[i]) as int,
                ) by {
                    assert(is_usable(
                        tokenizer,
                        network,
                        selection,
                        q[i],
                        c[i][k],
                        context_offset(q[i]) as int,
                    ));
                }
            }
        }
        let res = self.process_with(
            encode,
            decode,
            network,
            question,
            context,
            title,
            threshold,
            always_select_first,
            reorder,
            top_k,
            warnings,
        );
        proof {
            let by_functions = function_codec(encode, decode);
            let by_tokenizer = tokenizer_codec(tokenizer);
            let selection = self.spec_selection(
                chosen_threshold(threshold),
                chosen_first(always_select_first),
            );
            let arrangement = chosen_arrangement(reorder, top_k);
            let q = given_questions(question);
            let c = given_contexts(context);
            let t = given_titles(title);
            let warned = choose|warned: Seq<WarningView>|
                warning_views(warnings@) == warning_views(old(warnings)@) + warned
                    && #[trigger] can_process(
                    by_functions,
                    network,
                    selection,
                    arrangement,
                    q,
                    c,
                    t,
                    results_view(res),
                    warned,
                );
            assert(codec_within(by_functions, by_tokenizer));
            lemma_process_within(
                by_functions,
                by_tokenizer,
                network,
                selection,
                arrangement,
                q,
                c,
                t,
                results_view(res),
                warned,
            );
        }
        res
    }
}

/// How many of `n` results stay.
pub open spec fn row_len(arrangement: Arrangement, n: nat) -> nat {
    if arrangement.reorder && n > arrangement.top_k {
        arrangement.top_k
    } else {
        n
    }
}

/// A row has as many contexts, scores and rates: one for each answer, or for
/// the best `top_k` if the answers are reordered.
pub proof fn law_rows_have_the_right_length(
    answers: Seq<ResultView>,
    arrangement: Arrangement,
    row: Row,
)
    requires
        is_row(answers, arrangement.reorder, arrangement.top_k, row),
    ensures
        row.contexts.len() == row_len(arrangement, answers.len()),
        row.scores.len() == row.contexts.len(),
        row.rates.len() == row.contexts.len(),
{
    lemma_ranked_len(ranking_scores(answers), answers.len() as int);
}

/// The index of the answer that the entry `j` of a row is about.
pub open spec fn entry_index(answers: Seq<ResultView>, reorder: bool, j: int) -> int {
    if reorder {
        ranked(ranking_scores(answers))[j] as int
    } else {
        j
    }
}

/// Each entry of a row is one answer's, and no two are the same answer's.
pub proof fn law_rows_hold_answers(
    answers: Seq<ResultView>,
    arrangement: Arrangement,
    row: Row,
    i: int,
    j: int,
)
    requires
        answers.len() <= usize::MAX,
        is_row(answers, arrangement.reorder, arrangement.top_k, row),
        0 <= i < row.contexts.len(),
        0 <= j < row.contexts.len(),
    ensures
        ({
            let k = entry_index(answers, arrangement.reorder, j);
            &&& 0 <= k < answers.len()
            &&& row.contexts[j] == answers[k].pruned_context
            &&& row.scores[j] == answers[k].reranking_score
            &&& row.rates[j] == answers[k].compression_rate
            &&& i != j ==> entry_index(answers, arrangement.reorder, i) != k
        }),
{
    law_rows_have_the_right_length(answers, arrangement, row);
    law_ranked_is_a_ranking(ranking_scores(answers));
}

/// Reordered, the scores of a row never grow.
pub proof fn law_reordered_rows_are_sorted(
    answers: Seq<ResultView>,
    top_k: nat,
    row: Row,
    i: int,
    j: int,
)
    requires
        answers.len() <= usize::MAX,
        is_row(answers, true, top_k, row),
        all_numbers(ranking_scores(answers)),
        0 <= i < j < row.scores.len(),
    ensures
        row.scores[j].le(row.scores[i]),
{
    let scores = ranking_scores(answers);
    let order = ranked(scores);
    law_ranked_is_a_ranking(scores);
    law_best_come_first(scores, order, i, j);
    assert(row.scores[i] == scores[order[i] as int]);
    assert(row.scores[j] == scores[order[j] as int]);
}

/// What was left out of a reordered row, that is an answer that no entry is
/// about, has no higher score than anything that stays.
pub proof fn law_best_answers_stay(
    answers: Seq<ResultView>,
    top_k: nat,
    row: Row,
    j: int,
    k: int,
)
    requires
        answers.len() <= usize::MAX,
        is_row(answers, true, top_k, row),
        all_numbers(ranking_scores(answers)),
        0 <= j < row.contexts.len(),
        0 <= k < answers.len(),
        forall|m: int|
            0 <= m < row.contexts.len() ==> #[trigger] entry_index(answers, true, m) != k,
    ensures
        answers[k].reranking_score.le(row.scores[j]),
{
    let scores = ranking_scores(answers);
    let order = ranked(scores);
    law_ranked_is_a_ranking(scores);
    assert(order.contains(k as usize));
    let m = order.index_of(k as usize);
    assert(entry_index(answers, true, m) == k);
    law_best_come_first(scores, order, j, m);
    assert(row.scores[j] == scores[order[j] as int]);
    assert(scores[k] == answers[k].reranking_score);
}

/// A request that succeeds gets a row for every question, with an entry for
/// every context that was made of its contexts, or for the best of them.
pub proof fn law_results_match_the_request<
    F: Fn(&Vec<u32>, &Vec<u32>) -> Result<NetworkOutput, String>,
    A: Fn(&Vec<Score>) -> Score,
    R: Fn(usize, usize) -> Score,
>(
    codec: Codec,
    network: Network<F, A, R>,
    selection: Selection,
    arrangement: Arrangement,
    questions: Seq<Seq<char>>,
    contexts: Lists,
    titles: Option<Lists>,
    rows: Seq<Row>,
    warned: Seq<WarningView>,
    i: int,
)
    requires
        can_process(
            codec,
            network,
            selection,
            arrangement,
            questions,
            contexts,
            titles,
            Ok(rows),
            warned,
        ),
    ensures
        questions.len() == contexts.len(),
        rows.len() == questions.len(),
        0 <= i < rows.len() ==> rows[i].contexts.len() == row_len(
            arrangement,
            prepared_contexts(contexts)[i].len(),
        ) && rows[i].scores.len() == rows[i].contexts.len() && rows[i].rates.len()
            == rows[i].contexts.len(),
{
    law_accepted_requests(questions, contexts, titles);
    let q = normalized_questions(short_texts(questions));
    let c = request_contexts(contexts, titles);
    let about_inputs = choose|about_inputs: Seq<WarningView>|
        warned == prepare_warnings(questions, contexts, titles) + about_inputs && #[trigger] lead_to(
            codec,
            network,
            selection,
            arrangement,
            q,
            c,
            Ok(rows),
            about_inputs,
        );
    if 0 <= i < rows.len() {
        assert(leads_to_row(codec, network, selection, arrangement, q[i], c[i], rows[i]));
        let answers = choose|answers: Seq<ResultView>|
            answers.len() == c[i].len() && #[trigger] are_answers(
                codec,
                network,
                selection,
                q[i],
                c[i],
                answers,
            ) && is_row(answers, arrangement.reorder, arrangement.top_k, rows[i]);
        law_rows_have_the_right_length(answers, arrangement, rows[i]);
        assert(c[i].len() == prepared_contexts(contexts)[i].len());
    }
}

/// A title stands in front of its context with one space between.
pub proof fn law_one_space_after_the_title(title: &str, context: &str, text: String)
    requires
        call_ensures(with_title, (title, context), text),
    ensures
        text@ == title@ + seq![' '] + context@,
        text@ == titled(title@, context@),
{
    lemma_titled(title@, context@);
}

proof fn lemma_titled(title: Seq<char>, context: Seq<char>)
    ensures
        titled(title, context) == title + seq![' '] + context,
{
    reveal_strlit(" ");
    assert(" "@ == seq![' ']);
}

/// Where nothing is said the threshold is 0.1, the first sentence is always
/// selected, contexts stay as they come, and of reordered ones five stay; what is
/// said applies as it is.
pub proof fn law_defaults(threshold: Score, first: bool, reorder: bool, top_k: usize)
    ensures
        chosen_threshold(None).bits == 0x3dcc_cccd,
        chosen_threshold(Some(threshold)) == threshold,
        chosen_first(None),
        chosen_first(Some(first)) == first,
        !chosen_arrangement(None, Some(top_k)).reorder,
        chosen_arrangement(Some(reorder), Some(top_k)).reorder == reorder,
        chosen_arrangement(None, Some(top_k)).top_k == top_k,
        chosen_arrangement(Some(reorder), Some(top_k)).top_k == top_k,
        chosen_arrangement(Some(reorder), None).reorder == reorder,
        chosen_arrangement(Some(reorder), None).top_k == 5,
        chosen_arrangement(None, None).top_k == 5 && !chosen_arrangement(None, None).reorder,
{
}

/// How results are arranged. As they come, there is an entry for each result, at
/// its place. Reordered, there are as many entries as results, or `top_k`, and the
/// entry `j` is that of the result that is ranked `j`-th by its score. Text, score
/// and rate of an entry are those of its result.
pub proof fn law_arranging_goes_by_the_rank(
    results: &Vec<ProcessedResult>,
    reorder: bool,
    top_k: usize,
    scores: Vec<Score>,
    order: Vec<usize>,
    row: (Vec<String>, Vec<Score>, Vec<Score>),
    j: int,
)
    requires
        call_ensures(arrange, (results, reorder, top_k), row),
        scores@.len() == results@.len(),
        forall|k: int|
            0 <= k < results@.len() ==> #[trigger] scores@[k] == results@[k].reranking_score,
        call_ensures(rank, (&scores,), order),
    ensures
        row.0@.len() == row.1@.len() == row.2@.len(),
        row.0@.len() == if reorder && top_k < results@.len() {
            top_k as nat
        } else {
            results@.len()
        },
        0 <= j < row.0@.len() ==> {
            let k = if reorder {
                order@[j] as int
            } else {
                j
            };
            &&& 0 <= k < results@.len()
            &&& row.0@[j]@ == results@[k].pruned_context@
            &&& row.1@[j] == results@[k].reranking_score
            &&& row.2@[j] == results@[k].compression_rate
        },
{
    let answers = result_views(results@);
    assert(scores@ =~= ranking_scores(answers));
    let made = row_view(row);
    lemma_ranked_len(scores@, scores@.len() as int);
    assert(made.contexts.len() == row.0@.len());
    assert(row_of(answers).contexts.len() == answers.len());
    if 0 <= j < row.0@.len() {
        assert(made.contexts[j] == row.0@[j]@);
        let k = if reorder {
            order@[j] as int
        } else {
            j
        };
        assert(0 <= k < results@.len());
        assert(answers[k] == results@[k]@);
    }
}

/// The rows of a view hold the texts, scores and rates of the results, list by
/// list; and an outcome is shown as these rows or as the error.
pub proof fn law_rows_show_the_results(
    results: ProcessedResults,
    e: ProcessError,
    i: int,
    k: int,
)
    requires
        0 <= i < results.pruned_context@.len(),
    ensures
        results@.len() == results.pruned_context@.len(),
        results@[i].contexts.len() == results.pruned_context@[i]@.len(),
        0 <= k < results.pruned_context@[i]@.len() ==> results@[i].contexts[k]
            == results.pruned_context@[i]@[k]@,
        results@[i].scores == results.reranking_score@[i]@,
        results@[i].rates == results.compression_rate@[i]@,
        results_view(Ok(results)) == Ok::<Seq<Row>, ErrorView>(results@),
        results_view(Err(e)) == Err::<Seq<Row>, ErrorView>(e@),
{
}

/// The question, cut to 1024 characters and normalised.
pub open spec fn asked(question: Seq<char>) -> Seq<char> {
    normalized(
        if question.len() > 1024 {
            question.take(1024)
        } else {
            question
        },
    )
}

/// The context `k` of the list `i` that is put into an input: a chunk, after its
/// title and a space if there are titles.
pub open spec fn put_in(contexts: Lists, titles: Option<Lists>, i: int, k: int) -> Seq<char> {
    match titles {
        None => prepared_contexts(contexts)[i][k],
        Some(t) => prepared_titles(t, contexts)[i][k] + seq![' ']
            + prepared_contexts(contexts)[i][k],
    }
}

proof fn lemma_asked_and_put_in(
    questions: Seq<Seq<char>>,
    contexts: Lists,
    titles: Option<Lists>,
    i: int,
)
    requires
        prepare_error(questions, contexts, titles) is None,
        0 <= i < questions.len(),
    ensures
        normalized_questions(short_texts(questions)).len() == questions.len(),
        request_contexts(contexts, titles).len() == questions.len(),
        normalized_questions(short_texts(questions))[i] == asked(questions[i]),
        request_contexts(contexts, titles)[i].len() == prepared_contexts(contexts)[i].len(),
        forall|k: int|
            0 <= k < prepared_contexts(contexts)[i].len() ==> #[trigger] request_contexts(
                contexts,
                titles,
            )[i][k] == put_in(contexts, titles, i, k),
        context_offset(asked(questions[i])) == encode_utf8(
            asked(questions[i]) + seq![' ', '[', 'S', 'E', 'P', ']', ' '],
        ).len(),
{
    law_accepted_requests(questions, contexts, titles);
    law_the_offset_of_the_context(asked(questions[i]));
    if titles is Some {
        law_prepared_titles_match(titles->0, contexts);
        assert forall|k: int|
            0 <= k < prepared_contexts(contexts)[i].len() implies #[trigger] request_contexts(
            contexts,
            titles,
        )[i][k] == put_in(contexts, titles, i, k) by {
            lemma_titled(
                prepared_titles(titles->0, contexts)[i][k],
                prepared_contexts(contexts)[i][k],
            );
        }
    }
}

/// What a request that succeeds is answered with. There is a row for every
/// question; and for the question `i` there is an answer to each of its contexts,
/// in order, from which its row is arranged. The question is cut and normalised,
/// the context is a chunk, after its title if there are titles, and it is looked
/// for where it starts in the input.
pub proof fn law_rows_come_of_answers<
    F: Fn(&Vec<u32>, &Vec<u32>) -> Result<NetworkOutput, String>,
    A: Fn(&Vec<Score>) -> Score,
    R: Fn(usize, usize) -> Score,
>(
    codec: Codec,
    network: Network<F, A, R>,
    selection: Selection,
    arrangement: Arrangement,
    questions: Seq<Seq<char>>,
    contexts: Lists,
    titles: Option<Lists>,
    rows: Seq<Row>,
    warned: Seq<WarningView>,
    i: int,
) -> (answers: Seq<ResultView>)
    requires
        can_process(
            codec,
            network,
            selection,
            arrangement,
            questions,
            contexts,
            titles,
            Ok(rows),
            warned,
        ),
        0 <= i < questions.len(),
    ensures
        prepare_error(questions, contexts, titles) is None,
        rows.len() == questions.len(),
        answers.len() == prepared_contexts(contexts)[i].len(),
        forall|k: int|
            0 <= k < answers.len() ==> can_answer(
                codec,
                network,
                selection,
                asked(questions[i]),
                put_in(contexts, titles, i, k),
                encode_utf8(
                    asked(questions[i]) + seq![' ', '[', 'S', 'E', 'P', ']', ' '],
                ).len() as int,
                Ok(#[trigger] answers[k]),
            ),
        forall|k: int|
            0 <= k < answers.len() ==> (#[trigger] answers[k]).question == asked(questions[i])
                && answers[k].context == put_in(contexts, titles, i, k),
        is_row(answers, arrangement.reorder, arrangement.top_k, rows[i]),
        !arrangement.reorder ==> rows[i].scores.len() == answers.len() && forall|k: int|
            0 <= k < answers.len() ==> rows[i].contexts[k] == (#[trigger] answers[k]).pruned_context
                && rows[i].scores[k] == answers[k].reranking_score && rows[i].rates[k]
                == answers[k].compression_rate,
        arrangement.reorder ==> rows[i].scores.len() == if arrangement.top_k < answers.len() {
            arrangement.top_k
        } else {
            answers.len()
        },
{
    let q = normalized_questions(short_texts(questions));
    let c = request_contexts(contexts, titles);
    let outcome: Result<Seq<Row>, ErrorView> = Ok(rows);
    assert(outcome is Ok);
    assert(prepare_error(questions, contexts, titles) is None);
    lemma_asked_and_put_in(questions, contexts, titles, i);
    let about_inputs = choose|about_inputs: Seq<WarningView>|
        warned == prepare_warnings(questions, contexts, titles) + about_inputs && #[trigger] lead_to(
            codec,
            network,
            selection,
            arrangement,
            q,
            c,
            outcome,
            about_inputs,
        );
    assert(leads_to_row(codec, network, selection, arrangement, q[i], c[i], rows[i]));
    let answers = choose|answers: Seq<ResultView>|
        answers.len() == c[i].len() && #[trigger] are_answers(
            codec,
            network,
            selection,
            q[i],
            c[i],
            answers,
        ) && is_row(answers, arrangement.reorder, arrangement.top_k, rows[i]);
    let start = context_offset(q[i]) as int;
    assert forall|k: int| 0 <= k < answers.len() implies can_answer(
        codec,
        network,
        selection,
        asked(questions[i]),
        put_in(contexts, titles, i, k),
        start,
        Ok(#[trigger] answers[k]),
    ) && answers[k].question == asked(questions[i]) && answers[k].context == put_in(
        contexts,
        titles,
        i,
        k,
    ) by {
        assert(c[i][k] == put_in(contexts, titles, i, k));
        let steps = law_results_come_of_these_steps(
            codec,
            network,
            selection,
            q[i],
            c[i][k],
            start,
            answers[k],
        );
    }
    law_rows_have_the_right_length(answers, arrangement, rows[i]);
    answers
}

/// Why a request failed: it was refused, with the error that says why, or a
/// context of some question led to the error while all contexts before it, of
/// this question and of those before, led to results.
pub proof fn law_requests_fail_at_a_context<
    F: Fn(&Vec<u32>, &Vec<u32>) -> Result<NetworkOutput, String>,
    A: Fn(&Vec<Score>) -> Score,
    R: Fn(usize, usize) -> Score,
>(
    codec: Codec,
    network: Network<F, A, R>,
    selection: Selection,
    arrangement: Arrangement,
    questions: Seq<Seq<char>>,
    contexts: Lists,
    titles: Option<Lists>,
    e: ErrorView,
    warned: Seq<WarningView>,
) -> (at: (int, int, Seq<ResultView>, Seq<Row>))
    requires
        can_process(
            codec,
            network,
            selection,
            arrangement,
            questions,
            contexts,
            titles,
            Err(e),
            warned,
        ),
    ensures
        match prepare_error(questions, contexts, titles) {
            Some(f) => e == ErrorView::Request(f) && warned == prepare_warnings(
                questions,
                contexts,
                titles,
            ),
            None => {
                let (i, k, before, rows) = at;
                let start = encode_utf8(
                    asked(questions[i]) + seq![' ', '[', 'S', 'E', 'P', ']', ' '],
                ).len() as int;
                &&& 0 <= i < questions.len()
                &&& 0 <= k < prepared_contexts(contexts)[i].len()
                &&& rows.len() == i
                &&& forall|j: int|
                    0 <= j < i ==> leads_to_row(
                        codec,
                        network,
                        selection,
                        arrangement,
                        asked(questions[j]),
                        request_contexts(contexts, titles)[j],
                        #[trigger] rows[j],
                    )
                &&& before.len() == k
                &&& forall|j: int|
                    0 <= j < k ==> can_answer(
                        codec,
                        network,
                        selection,
                        asked(questions[i]),
                        put_in(contexts, titles, i, j),
                        start,
                        Ok(#[trigger] before[j]),
                    )
                &&& can_answer(
                    codec,
                    network,
                    selection,
                    asked(questions[i]),
                    put_in(contexts, titles, i, k),
                    start,
                    Err(e),
                )
                &&& warned == prepare_warnings(questions, contexts, titles) + all_input_warnings(
                    normalized_questions(short_texts(questions)),
                    request_contexts(contexts, titles),
                    i,
                ) + input_warnings(
                    asked(questions[i]),
                    request_contexts(contexts, titles)[i],
                    k + 1,
                )
            },
        },
{
    let outcome: Result<Seq<Row>, ErrorView> = Err(e);
    assert(outcome->Err_0 == e);
    if prepare_error(questions, contexts, titles) is Some {
        (0, 0, seq![], seq![])
    } else {
        law_accepted_requests(questions, contexts, titles);
        let q = normalized_questions(short_texts(questions));
        let c = request_contexts(contexts, titles);
        let about_inputs = choose|about_inputs: Seq<WarningView>|
            warned == prepare_warnings(questions, contexts, titles) + about_inputs
                && #[trigger] lead_to(
                codec,
                network,
                selection,
                arrangement,
                q,
                c,
                outcome,
                about_inputs,
            );
        let (rows, k) = choose|rows: Seq<Row>, k: int|
            {
                let i = rows.len() as int;
                &&& i < q.len()
                &&& #[trigger] lead_to_rows(codec, network, selection, arrangement, q, c, rows)
                &&& #[trigger] fails_at(
                    codec,
                    network,
                    selection,
                    q[rows.len() as int],
                    c[rows.len() as int],
                    k,
                    e,
                )
                &&& about_inputs == all_input_warnings(q, c, i) + input_warnings(q[i], c[i], k + 1)
            };
        let i = rows.len() as int;
        assert(fails_at(codec, network, selection, q[i], c[i], k, e));
        lemma_asked_and_put_in(questions, contexts, titles, i);
        let before = choose|answers: Seq<ResultView>|
            answers.len() == k && #[trigger] are_answers(
                codec,
                network,
                selection,
                q[i],
                c[i],
                answers,
            );
        assert(c[i][k] == put_in(contexts, titles, i, k));
        assert forall|j: int| 0 <= j < k implies can_answer(
            codec,
            network,
            selection,
            asked(questions[i]),
            put_in(contexts, titles, i, j),
            context_offset(q[i]) as int,
            Ok(#[trigger] before[j]),
        ) by {
            assert(c[i][j] == put_in(contexts, titles, i, j));
        }
        let w = prepare_warnings(questions, contexts, titles);
        assert(warned == w + all_input_warnings(q, c, i) + input_warnings(q[i], c[i], k + 1));
        assert forall|j: int| 0 <= j < i implies leads_to_row(
            codec,
            network,
            selection,
            arrangement,
            asked(questions[j]),
            c[j],
            #[trigger] rows[j],
        ) by {
            lemma_asked_and_put_in(questions, contexts, titles, j);
        }
        (i, k, before, rows)
    }
}

proof fn lemma_prefix_of_inputs(
    question: Seq<char>,
    a: Seq<Seq<char>>,
    b: Seq<Seq<char>>,
    n: int,
)
    requires
        0 <= n <= a.len(),
        n <= b.len(),
        forall|i: int| 0 <= i < n ==> #[trigger] a[i] == b[i],
    ensures
        input_warnings(question, a, n) == input_warnings(question, b, n),
    decreases n,
{
    if n > 0 {
        lemma_prefix_of_inputs(question, a, b, n - 1);
        assert(a[n - 1] == b[n - 1]);
    }
}

proof fn lemma_prefix_of_all_inputs(
    p: Seq<Seq<char>>,
    q: Seq<Seq<char>>,
    a: Lists,
    b: Lists,
    n: int,
)
    requires
        0 <= n <= a.len(),
        n <= b.len(),
        n <= p.len(),
        n <= q.len(),
        forall|i: int| 0 <= i < n ==> #[trigger] a[i] == b[i],
        forall|i: int| 0 <= i < n ==> #[trigger] p[i] == q[i],
    ensures
        all_input_warnings(p, a, n) == all_input_warnings(q, b, n),
    decreases n,
{
    if n > 0 {
        lemma_prefix_of_all_inputs(p, q, a, b, n - 1);
        assert(a[n - 1] == b[n - 1]);
        assert(p[n - 1] == q[n - 1]);
    }
}

/// One more context is one more input, and one more question is all the inputs
/// for its contexts: the warnings about them come after the others.
pub proof fn law_one_more_input(
    questions: Seq<Seq<char>>,
    contexts: Lists,
    question: Seq<char>,
    list: Seq<Seq<char>>,
    context: Seq<char>,
)
    requires
        questions.len() == contexts.len(),
    ensures
        input_warnings(question, list, 0).len() == 0,
        input_warnings(question, list.push(context), (list.len() + 1) as int) == input_warnings(
            question,
            list,
            list.len() as int,
        ) + input_warning(question, context),
        all_input_warnings(questions, contexts, 0).len() == 0,
        all_input_warnings(questions.push(question), contexts.push(list), (questions.len() + 1) as int)
            == all_input_warnings(questions, contexts, questions.len() as int) + input_warnings(
            question,
            list,
            list.len() as int,
        ),
{
    lemma_prefix_of_inputs(question, list, list.push(context), list.len() as int);
    lemma_prefix_of_all_inputs(
        questions,
        questions.push(question),
        contexts,
        contexts.push(list),
        questions.len() as int,
    );
}

/// The warnings of a request that succeeds are those about its texts, and then
/// those about the inputs for all its questions and contexts.
pub proof fn law_warnings_of_a_success<
    F: Fn(&Vec<u32>, &Vec<u32>) -> Result<NetworkOutput, String>,
    A: Fn(&Vec<Score>) -> Score,
    R: Fn(usize, usize) -> Score,
>(
    codec: Codec,
    network: Network<F, A, R>,
    selection: Selection,
    arrangement: Arrangement,
    questions: Seq<Seq<char>>,
    contexts: Lists,
    titles: Option<Lists>,
    rows: Seq<Row>,
    warned: Seq<WarningView>,
)
    requires
        can_process(
            codec,
            network,
            selection,
            arrangement,
            questions,
            contexts,
            titles,
            Ok(rows),
            warned,
        ),
    ensures
        warned == prepare_warnings(questions, contexts, titles) + all_input_warnings(
            normalized_questions(short_texts(questions)),
            request_contexts(contexts, titles),
            questions.len() as int,
        ),
{
    let outcome: Result<Seq<Row>, ErrorView> = Ok(rows);
    assert(outcome is Ok);
    assert(normalized_questions(short_texts(questions)).len() == questions.len());
}

/// A question is answered with each of its contexts in turn: with results for all
/// of them, in order, or with the error of the first that fails after results for
/// those before it. Each context is looked for where it starts in its input.
pub proof fn law_contexts_are_answered_in_turn<
    E: Fn(&String) -> Result<TokenEncoding, String> + Copy,
    D: Fn(&Vec<u32>) -> Result<String, String> + Copy,
    F: Fn(&Vec<u32>, &Vec<u32>) -> Result<NetworkOutput, String> + Copy,
    A: Fn(&Vec<Score>) -> Score + Copy,
    R: Fn(usize, usize) -> Score + Copy,
>(
    encode: E,
    decode: D,
    network: Network<F, A, R>,
    selection: Selection,
    question: &str,
    contexts: &Vec<String>,
    warnings: &mut Vec<LengthWarning>,
    res: Result<Vec<ProcessedResult>, ProcessError>,
)
    requires
        call_ensures(
            answer_contexts::<E, D, F, A, R>,
            (encode, decode, network, selection, question, contexts, warnings),
            res,
        ),
    ensures
        ({
            let codec = function_codec(encode, decode);
            let start = encode_utf8(
                question@ + seq![' ', '[', 'S', 'E', 'P', ']', ' '],
            ).len() as int;
            match res {
                Ok(results) => {
                    &&& results@.len() == contexts@.len()
                    &&& forall|k: int|
                        0 <= k < results@.len() ==> can_answer(
                            codec,
                            network,
                            selection,
                            question@,
                            contexts@[k]@,
                            start,
                            Ok((#[trigger] results@[k])@),
                        )
                },
                Err(e) => exists|k: int|
                    {
                        &&& 0 <= k < contexts@.len()
                        &&& can_answer(
                            codec,
                            network,
                            selection,
                            question@,
                            (#[trigger] contexts@[k])@,
                            start,
                            Err(e@),
                        )
                        &&& warning_views(final(warnings)@) == warning_views(old(warnings)@)
                            + input_warnings(question@, texts(contexts@), k + 1)
                    },
            }
        }),
        res is Ok ==> warning_views(final(warnings)@) == warning_views(old(warnings)@)
            + input_warnings(question@, texts(contexts@), contexts@.len() as int),
{
    law_the_offset_of_the_context(question@);
    let codec = function_codec(encode, decode);
    let c = texts(contexts@);
    match res {
        Ok(results) => {
            let views = result_views(results@);
            assert forall|k: int| 0 <= k < results@.len() implies can_answer(
                codec,
                network,
                selection,
                question@,
                contexts@[k]@,
                context_offset(question@) as int,
                Ok((#[trigger] results@[k])@),
            ) by {
                assert(views[k] == results@[k]@);
                assert(c[k] == contexts@[k]@);
            }
        },
        Err(e) => {
            let k = choose|k: int|
                (#[trigger] fails_at(codec, network, selection, question@, c, k, e@))
                    && warning_views(final(warnings)@) == warning_views(old(warnings)@)
                    + input_warnings(question@, c, k + 1);
            assert(fails_at(codec, network, selection, question@, c, k, e@));
            assert(c[k] == contexts@[k]@);
        },
    }
}

/// A request is processed, with a tokenizer or with functions in its place, as it
/// says: the questions, contexts and titles are those given; where nothing is
/// said, the threshold is 0.1, the first sentence is always selected, contexts
/// stay as they come, and of reordered ones five stay; and the model's ways to
/// round and to split apply. New warnings come after those from before.
pub proof fn law_processing_uses_what_is_given<
    E: Fn(&String) -> Result<TokenEncoding, String> + Copy,
    D: Fn(&Vec<u32>) -> Result<String, String> + Copy,
    F: Fn(&Vec<u32>, &Vec<u32>) -> Result<NetworkOutput, String> + Copy,
    A: Fn(&Vec<Score>) -> Score + Copy,
    R: Fn(usize, usize) -> Score + Copy,
>(
    model: ProvenceModel,
    tokenizer: &Tokenizer,
    encode: E,
    decode: D,
    network: Network<F, A, R>,
    question: OneOrMany<MultipleQuestions>,
    context: OneOrMany<MultipleContexts>,
    title: Option<OneOrMany<MultipleTitles>>,
    threshold: Option<Score>,
    always_select_first: Option<bool>,
    batch_size: Option<usize>,
    reorder: Option<bool>,
    top_k: Option<usize>,
    enable_warnings: Option<bool>,
    warnings: &mut Vec<LengthWarning>,
    more_warnings: &mut Vec<LengthWarning>,
    by_tokenizer: Result<ProcessedResults, ProcessError>,
    by_functions: Result<ProcessedResults, ProcessError>,
    selection: Selection,
    arrangement: Arrangement,
)
    requires
        selection.rounding_mode == model.rounding_mode,
        selection.splitter == model.splitter,
        threshold is None ==> selection.threshold.bits == 0x3dcc_cccd,
        threshold is Some ==> selection.threshold == threshold->0,
        selection.always_select_first <==> always_select_first != Some(false),
        arrangement.reorder <==> reorder == Some(true),
        top_k is None ==> arrangement.top_k == 5,
        top_k is Some ==> arrangement.top_k == top_k->0,
        call_ensures(
            ProvenceModel::process::<F, A, R>,
            (
                &model,
                tokenizer,
                network,
                question,
                context,
                title,
                threshold,
                always_select_first,
                batch_size,
                reorder,
                top_k,
                enable_warnings,
                warnings,
            ),
            by_tokenizer,
        ),
        call_ensures(
            ProvenceModel::process_with::<E, D, F, A, R>,
            (
                &model,
                encode,
                decode,
                network,
                question,
                context,
                title,
                threshold,
                always_select_first,
                reorder,
                top_k,
                more_warnings,
            ),
            by_functions,
        ),
    ensures
        exists|new: Seq<WarningView>|
            warning_views(final(warnings)@) == warning_views(old(warnings)@) + new
                && #[trigger] can_process(
                tokenizer_codec(tokenizer),
                network,
                selection,
                arrangement,
                given_questions(question),
                given_contexts(context),
                given_titles(title),
                results_view(by_tokenizer),
                new,
            ),
        exists|new: Seq<WarningView>|
            warning_views(final(more_warnings)@) == warning_views(old(more_warnings)@) + new
                && #[trigger] can_process(
                function_codec(encode, decode),
                network,
                selection,
                arrangement,
                given_questions(question),
                given_contexts(context),
                given_titles(title),
                results_view(by_functions),
                new,
            ),
        by_tokenizer matches Ok(results) ==> results.wf(),
        by_functions matches Ok(results) ==> results.wf(),
{
    assert(selection == model.spec_selection(
        chosen_threshold(threshold),
        chosen_first(always_select_first),
    ));
    assert(arrangement == chosen_arrangement(reorder, top_k));
    let q = given_questions(question);
    let c = given_contexts(context);
    let t = given_titles(title);
    let with_tokenizer = choose|new: Seq<WarningView>|
        warning_views(final(warnings)@) == warning_views(old(warnings)@) + new
            && #[trigger] can_process(
            tokenizer_codec(tokenizer),
            network,
            selection,
            arrangement,
            q,
            c,
            t,
            results_view(by_tokenizer),
            new,
        );
    assert(can_process(
        tokenizer_codec(tokenizer),
        network,
        selection,
        arrangement,
        q,
        c,
        t,
        results_view(by_tokenizer),
        with_tokenizer,
    ));
    let with_functions = choose|new: Seq<WarningView>|
        warning_views(final(more_warnings)@) == warning_views(old(more_warnings)@) + new
            && #[trigger] can_process(
            function_codec(encode, decode),
            network,
            selection,
            arrangement,
            q,
            c,
            t,
            results_view(by_functions),
            new,
        );
    assert(can_process(
        function_codec(encode, decode),
        network,
        selection,
        arrangement,
        q,
        c,
        t,
        results_view(by_functions),
        with_functions,
    ));
}

} // verus!
