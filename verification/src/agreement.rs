//! What requests have in common.
//!
//! The laws here are about requests where the tokenizer and the network give
//! one result for one input.

use crate::batch::{
    all_input_warnings, are_answers, can_process, chosen_arrangement, fails_at, input_warnings,
    is_row, lead_to, lead_to_rows, leads_to_row, normalized_questions,
    request_contexts, titled_contexts, Arrangement, Row,
};
use crate::encoding::Codec;
use crate::error::ErrorView;
use crate::length::{WarningView, MAX_LEN_CHARS_PART};
use crate::prepare::{
    context_warnings, first_empty, law_accepted_requests, law_short_requests_are_unchanged,
    list_warnings, prepare_error, prepare_warnings, prepared_title_lists, prepared_titles,
    question_warnings, short_texts, spread_titles, title_warnings, titles_match,
    Lists,
};
use crate::process::{
    codec_is_single, law_answers_are_determined, Network,
    NetworkOutput, ResultView, Selection,
};
use crate::score::Score;
use crate::wording::{context_offset, normalized};
use vstd::prelude::*;

verus! {

/// Whether the tokenizer and the network give one result for one input.
pub open spec fn gives_one_result<
    F: Fn(&Vec<u32>, &Vec<u32>) -> Result<NetworkOutput, String>,
    A: Fn(&Vec<Score>) -> Score,
    R: Fn(usize, usize) -> Score,
>(codec: Codec, network: Network<F, A, R>) -> bool {
    codec_is_single(codec) && network.is_single()
}

/// Whether two arrangements come to the same: how many results stay does not
/// matter where they are not reordered.
pub open spec fn arranged_alike(a: Arrangement, b: Arrangement) -> bool {
    a.reorder == b.reorder && (a.reorder ==> a.top_k == b.top_k)
}

/// Two lists of answers to one question agree as far as both go.
proof fn lemma_answers_agree<
    F: Fn(&Vec<u32>, &Vec<u32>) -> Result<NetworkOutput, String>,
    A: Fn(&Vec<Score>) -> Score,
    R: Fn(usize, usize) -> Score,
>(
    codec: Codec,
    network: Network<F, A, R>,
    selection: Selection,
    question: Seq<char>,
    contexts: Seq<Seq<char>>,
    a: Seq<ResultView>,
    b: Seq<ResultView>,
    k: int,
)
    requires
        codec_is_single(codec),
        network.is_single(),
        are_answers(codec, network, selection, question, contexts, a),
        are_answers(codec, network, selection, question, contexts, b),
        0 <= k < a.len(),
        k < b.len(),
    ensures
        a[k] == b[k],
{
    let x: Result<ResultView, ErrorView> = Ok(a[k]);
    let y: Result<ResultView, ErrorView> = Ok(b[k]);
    law_answers_are_determined(
        codec,
        network,
        selection,
        question,
        contexts[k],
        context_offset(question) as int,
        x,
        y,
    );
    assert(x->Ok_0 == y->Ok_0);
}

/// A question has one row.
proof fn lemma_rows_agree<
    F: Fn(&Vec<u32>, &Vec<u32>) -> Result<NetworkOutput, String>,
    A: Fn(&Vec<Score>) -> Score,
    R: Fn(usize, usize) -> Score,
>(
    codec: Codec,
    network: Network<F, A, R>,
    selection: Selection,
    arrangement_a: Arrangement,
    arrangement_b: Arrangement,
    question: Seq<char>,
    contexts: Seq<Seq<char>>,
    a: Row,
    b: Row,
)
    requires
        gives_one_result(codec, network),
        arranged_alike(arrangement_a, arrangement_b),
        leads_to_row(codec, network, selection, arrangement_a, question, contexts, a),
        leads_to_row(codec, network, selection, arrangement_b, question, contexts, b),
    ensures
        a == b,
{
    let x = choose|answers: Seq<ResultView>|
        answers.len() == contexts.len() && #[trigger] are_answers(
            codec,
            network,
            selection,
            question,
            contexts,
            answers,
        ) && is_row(answers, arrangement_a.reorder, arrangement_a.top_k, a);
    let y = choose|answers: Seq<ResultView>|
        answers.len() == contexts.len() && #[trigger] are_answers(
            codec,
            network,
            selection,
            question,
            contexts,
            answers,
        ) && is_row(answers, arrangement_b.reorder, arrangement_b.top_k, b);
    assert forall|k: int| 0 <= k < x.len() implies #[trigger] x[k] == y[k] by {
        lemma_answers_agree(codec, network, selection, question, contexts, x, y, k);
    }
    assert(x =~= y);
}

/// A context that fails has no answer.
proof fn lemma_failure_has_no_answer<
    F: Fn(&Vec<u32>, &Vec<u32>) -> Result<NetworkOutput, String>,
    A: Fn(&Vec<Score>) -> Score,
    R: Fn(usize, usize) -> Score,
>(
    codec: Codec,
    network: Network<F, A, R>,
    selection: Selection,
    question: Seq<char>,
    contexts: Seq<Seq<char>>,
    k: int,
    e: ErrorView,
    answers: Seq<ResultView>,
)
    requires
        codec_is_single(codec),
        network.is_single(),
        fails_at(codec, network, selection, question, contexts, k, e),
        are_answers(codec, network, selection, question, contexts, answers),
    ensures
        answers.len() <= k,
{
    if k < answers.len() {
        law_answers_are_determined(
            codec,
            network,
            selection,
            question,
            contexts[k],
            context_offset(question) as int,
            Ok(answers[k]),
            Err(e),
        );
    }
}

/// A question with a row does not fail.
proof fn lemma_failure_has_no_row<
    F: Fn(&Vec<u32>, &Vec<u32>) -> Result<NetworkOutput, String>,
    A: Fn(&Vec<Score>) -> Score,
    R: Fn(usize, usize) -> Score,
>(
    codec: Codec,
    network: Network<F, A, R>,
    selection: Selection,
    arrangement: Arrangement,
    question: Seq<char>,
    contexts: Seq<Seq<char>>,
    k: int,
    e: ErrorView,
    row: Row,
)
    requires
        codec_is_single(codec),
        network.is_single(),
        fails_at(codec, network, selection, question, contexts, k, e),
    ensures
        !leads_to_row(codec, network, selection, arrangement, question, contexts, row),
{
    if leads_to_row(codec, network, selection, arrangement, question, contexts, row) {
        let answers = choose|answers: Seq<ResultView>|
            answers.len() == contexts.len() && #[trigger] are_answers(
                codec,
                network,
                selection,
                question,
                contexts,
                answers,
            ) && is_row(answers, arrangement.reorder, arrangement.top_k, row);
        lemma_failure_has_no_answer(
            codec,
            network,
            selection,
            question,
            contexts,
            k,
            e,
            answers,
        );
    }
}

/// A question fails in one way.
proof fn lemma_failures_agree<
    F: Fn(&Vec<u32>, &Vec<u32>) -> Result<NetworkOutput, String>,
    A: Fn(&Vec<Score>) -> Score,
    R: Fn(usize, usize) -> Score,
>(
    codec: Codec,
    network: Network<F, A, R>,
    selection: Selection,
    question: Seq<char>,
    contexts: Seq<Seq<char>>,
    j: int,
    d: ErrorView,
    k: int,
    e: ErrorView,
)
    requires
        codec_is_single(codec),
        network.is_single(),
        fails_at(codec, network, selection, question, contexts, j, d),
        fails_at(codec, network, selection, question, contexts, k, e),
    ensures
        j == k,
        d == e,
{
    let x = choose|answers: Seq<ResultView>|
        answers.len() == j && #[trigger] are_answers(
            codec,
            network,
            selection,
            question,
            contexts,
            answers,
        );
    let y = choose|answers: Seq<ResultView>|
        answers.len() == k && #[trigger] are_answers(
            codec,
            network,
            selection,
            question,
            contexts,
            answers,
        );
    lemma_failure_has_no_answer(codec, network, selection, question, contexts, k, e, x);
    lemma_failure_has_no_answer(codec, network, selection, question, contexts, j, d, y);
    let a: Result<ResultView, ErrorView> = Err(d);
    let b: Result<ResultView, ErrorView> = Err(e);
    law_answers_are_determined(
        codec,
        network,
        selection,
        question,
        contexts[k],
        context_offset(question) as int,
        a,
        b,
    );
    assert(a->Err_0 == b->Err_0);
}

/// The rows before the question that fails, and the context that fails.
proof fn lemma_where_it_fails<
    F: Fn(&Vec<u32>, &Vec<u32>) -> Result<NetworkOutput, String>,
    A: Fn(&Vec<Score>) -> Score,
    R: Fn(usize, usize) -> Score,
>(
    codec: Codec,
    network: Network<F, A, R>,
    selection: Selection,
    arrangement: Arrangement,
    questions: Seq<Seq<char>>,
    contexts: Lists,
    e: ErrorView,
    warned: Seq<WarningView>,
) -> (place: (Seq<Row>, int))
    requires
        lead_to(codec, network, selection, arrangement, questions, contexts, Err(e), warned),
    ensures
        ({
            let i = place.0.len() as int;
            &&& i < questions.len()
            &&& lead_to_rows(
                codec,
                network,
                selection,
                arrangement,
                questions,
                contexts,
                place.0,
            )
            &&& fails_at(codec, network, selection, questions[i], contexts[i], place.1, e)
            &&& warned == all_input_warnings(questions, contexts, i) + input_warnings(
                questions[i],
                contexts[i],
                place.1 + 1,
            )
        }),
{
    let outcome: Result<Seq<Row>, ErrorView> = Err(e);
    assert(outcome->Err_0 == e);
    choose|rows: Seq<Row>, k: int|
        {
            let i = rows.len() as int;
            &&& i < questions.len()
            &&& #[trigger] lead_to_rows(
                codec,
                network,
                selection,
                arrangement,
                questions,
                contexts,
                rows,
            )
            &&& #[trigger] fails_at(
                codec,
                network,
                selection,
                questions[rows.len() as int],
                contexts[rows.len() as int],
                k,
                e,
            )
            &&& warned == all_input_warnings(questions, contexts, i) + input_warnings(
                questions[i],
                contexts[i],
                k + 1,
            )
        }
}

/// Questions fail only where there is no row for the question that fails.
proof fn lemma_rows_end_before_failure<
    F: Fn(&Vec<u32>, &Vec<u32>) -> Result<NetworkOutput, String>,
    A: Fn(&Vec<Score>) -> Score,
    R: Fn(usize, usize) -> Score,
>(
    codec: Codec,
    network: Network<F, A, R>,
    selection: Selection,
    arrangement: Arrangement,
    questions: Seq<Seq<char>>,
    contexts: Lists,
    rows: Seq<Row>,
    i: int,
    k: int,
    e: ErrorView,
)
    requires
        codec_is_single(codec),
        network.is_single(),
        0 <= i,
        lead_to_rows(codec, network, selection, arrangement, questions, contexts, rows),
        fails_at(codec, network, selection, questions[i], contexts[i], k, e),
    ensures
        rows.len() <= i,
{
    if i < rows.len() {
        lemma_failure_has_no_row(
            codec,
            network,
            selection,
            arrangement,
            questions[i],
            contexts[i],
            k,
            e,
            rows[i],
        );
    }
}

/// Normalised questions with their contexts have one outcome.
proof fn lemma_one_outcome<
    F: Fn(&Vec<u32>, &Vec<u32>) -> Result<NetworkOutput, String>,
    A: Fn(&Vec<Score>) -> Score,
    R: Fn(usize, usize) -> Score,
>(
    codec: Codec,
    network: Network<F, A, R>,
    selection: Selection,
    arrangement_a: Arrangement,
    arrangement_b: Arrangement,
    questions: Seq<Seq<char>>,
    contexts: Lists,
    a: Result<Seq<Row>, ErrorView>,
    warned_a: Seq<WarningView>,
    b: Result<Seq<Row>, ErrorView>,
    warned_b: Seq<WarningView>,
)
    requires
        gives_one_result(codec, network),
        arranged_alike(arrangement_a, arrangement_b),
        lead_to(codec, network, selection, arrangement_a, questions, contexts, a, warned_a),
        lead_to(codec, network, selection, arrangement_b, questions, contexts, b, warned_b),
    ensures
        a == b,
        warned_a == warned_b,
{
    match (a, b) {
        (Ok(x), Ok(y)) => {
            assert forall|i: int| 0 <= i < x.len() implies #[trigger] x[i] == y[i] by {
                assert(leads_to_row(
                    codec,
                    network,
                    selection,
                    arrangement_b,
                    questions[i],
                    contexts[i],
                    y[i],
                ));
                lemma_rows_agree(
                    codec,
                    network,
                    selection,
                    arrangement_a,
                    arrangement_b,
                    questions[i],
                    contexts[i],
                    x[i],
                    y[i],
                );
            }
            assert(x =~= y);
        },
        (Ok(x), Err(e)) => {
            let (rows, k) = lemma_where_it_fails(
                codec,
                network,
                selection,
                arrangement_b,
                questions,
                contexts,
                e,
                warned_b,
            );
            lemma_rows_end_before_failure(
                codec,
                network,
                selection,
                arrangement_a,
                questions,
                contexts,
                x,
                rows.len() as int,
                k,
                e,
            );
        },
        (Err(e), Ok(y)) => {
            let (rows, k) = lemma_where_it_fails(
                codec,
                network,
                selection,
                arrangement_a,
                questions,
                contexts,
                e,
                warned_a,
            );
            lemma_rows_end_before_failure(
                codec,
                network,
                selection,
                arrangement_b,
                questions,
                contexts,
                y,
                rows.len() as int,
                k,
                e,
            );
        },
        (Err(d), Err(e)) => {
            let (x, j) = lemma_where_it_fails(
                codec,
                network,
                selection,
                arrangement_a,
                questions,
                contexts,
                d,
                warned_a,
            );
            let (y, k) = lemma_where_it_fails(
                codec,
                network,
                selection,
                arrangement_b,
                questions,
                contexts,
                e,
                warned_b,
            );
            lemma_rows_end_before_failure(
                codec,
                network,
                selection,
                arrangement_a,
                questions,
                contexts,
                x,
                y.len() as int,
                k,
                e,
            );
            lemma_rows_end_before_failure(
                codec,
                network,
                selection,
                arrangement_b,
                questions,
                contexts,
                y,
                x.len() as int,
                j,
                d,
            );
            let i = x.len() as int;
            lemma_failures_agree(
                codec,
                network,
                selection,
                questions[i],
                contexts[i],
                j,
                d,
                k,
                e,
            );
        },
    }
}

/// What the questions and contexts of an accepted request lead to.
proof fn lemma_accepted<
    F: Fn(&Vec<u32>, &Vec<u32>) -> Result<NetworkOutput, String>,
    A: Fn(&Vec<Score>) -> Score,
    R: Fn(usize, usize) -> Score,
>(
    codec: Codec,
    network: Network<F, A, R>,
    selection: Selection,
    arrangement: Arrangement,
    questions: Seq<Seq<char>>,
    contexts: Lists,
    titles: Option<Lists>,
    outcome: Result<Seq<Row>, ErrorView>,
    warned: Seq<WarningView>,
) -> (about_inputs: Seq<WarningView>)
    requires
        prepare_error(questions, contexts, titles) is None,
        can_process(
            codec,
            network,
            selection,
            arrangement,
            questions,
            contexts,
            titles,
            outcome,
            warned,
        ),
    ensures
        warned == prepare_warnings(questions, contexts, titles) + about_inputs,
        lead_to(
            codec,
            network,
            selection,
            arrangement,
            normalized_questions(short_texts(questions)),
            request_contexts(contexts, titles),
            outcome,
            about_inputs,
        ),
{
    choose|about_inputs: Seq<WarningView>|
        warned == prepare_warnings(questions, contexts, titles) + about_inputs && #[trigger] lead_to(
            codec,
            network,
            selection,
            arrangement,
            normalized_questions(short_texts(questions)),
            request_contexts(contexts, titles),
            outcome,
            about_inputs,
        )
}

/// Two requests that are rejected alike, are warned about alike and put the same
/// questions and contexts into inputs have the same outcome.
proof fn lemma_requests_agree<
    F: Fn(&Vec<u32>, &Vec<u32>) -> Result<NetworkOutput, String>,
    A: Fn(&Vec<Score>) -> Score,
    R: Fn(usize, usize) -> Score,
>(
    codec: Codec,
    network: Network<F, A, R>,
    selection: Selection,
    arrangement_a: Arrangement,
    arrangement_b: Arrangement,
    questions_a: Seq<Seq<char>>,
    contexts_a: Lists,
    titles_a: Option<Lists>,
    a: Result<Seq<Row>, ErrorView>,
    warned_a: Seq<WarningView>,
    questions_b: Seq<Seq<char>>,
    contexts_b: Lists,
    titles_b: Option<Lists>,
    b: Result<Seq<Row>, ErrorView>,
    warned_b: Seq<WarningView>,
)
    requires
        gives_one_result(codec, network),
        arranged_alike(arrangement_a, arrangement_b),
        prepare_error(questions_a, contexts_a, titles_a) == prepare_error(
            questions_b,
            contexts_b,
            titles_b,
        ),
        prepare_warnings(questions_a, contexts_a, titles_a) == prepare_warnings(
            questions_b,
            contexts_b,
            titles_b,
        ),
        prepare_error(questions_a, contexts_a, titles_a) is None ==> normalized_questions(
            short_texts(questions_a),
        ) == normalized_questions(short_texts(questions_b)) && request_contexts(
            contexts_a,
            titles_a,
        ) == request_contexts(contexts_b, titles_b),
        can_process(
            codec,
            network,
            selection,
            arrangement_a,
            questions_a,
            contexts_a,
            titles_a,
            a,
            warned_a,
        ),
        can_process(
            codec,
            network,
            selection,
            arrangement_b,
            questions_b,
            contexts_b,
            titles_b,
            b,
            warned_b,
        ),
    ensures
        a == b,
        warned_a == warned_b,
{
    if prepare_error(questions_a, contexts_a, titles_a) is None {
        let x = lemma_accepted(
            codec,
            network,
            selection,
            arrangement_a,
            questions_a,
            contexts_a,
            titles_a,
            a,
            warned_a,
        );
        let y = lemma_accepted(
            codec,
            network,
            selection,
            arrangement_b,
            questions_b,
            contexts_b,
            titles_b,
            b,
            warned_b,
        );
        lemma_one_outcome(
            codec,
            network,
            selection,
            arrangement_a,
            arrangement_b,
            normalized_questions(short_texts(questions_a)),
            request_contexts(contexts_a, titles_a),
            a,
            x,
            b,
            y,
        );
    }
}

/// A request has one outcome, whatever the batch size and the switch for
/// warnings, which it does not depend on, and whatever is said of how many
/// results stay where they are not reordered.
pub proof fn law_requests_have_one_outcome<
    F: Fn(&Vec<u32>, &Vec<u32>) -> Result<NetworkOutput, String>,
    A: Fn(&Vec<Score>) -> Score,
    R: Fn(usize, usize) -> Score,
>(
    codec: Codec,
    network: Network<F, A, R>,
    selection: Selection,
    reorder: Option<bool>,
    top_k_a: Option<usize>,
    top_k_b: Option<usize>,
    questions: Seq<Seq<char>>,
    contexts: Lists,
    titles: Option<Lists>,
    a: Result<Seq<Row>, ErrorView>,
    warned_a: Seq<WarningView>,
    b: Result<Seq<Row>, ErrorView>,
    warned_b: Seq<WarningView>,
)
    requires
        gives_one_result(codec, network),
        reorder == Some(true) ==> top_k_a == top_k_b,
        can_process(
            codec,
            network,
            selection,
            chosen_arrangement(reorder, top_k_a),
            questions,
            contexts,
            titles,
            a,
            warned_a,
        ),
        can_process(
            codec,
            network,
            selection,
            chosen_arrangement(reorder, top_k_b),
            questions,
            contexts,
            titles,
            b,
            warned_b,
        ),
    ensures
        a == b,
        warned_a == warned_b,
{
    lemma_requests_agree(
        codec,
        network,
        selection,
        chosen_arrangement(reorder, top_k_a),
        chosen_arrangement(reorder, top_k_b),
        questions,
        contexts,
        titles,
        a,
        warned_a,
        questions,
        contexts,
        titles,
        b,
        warned_b,
    );
}

/// The titles of one question, as those of a request for it alone.
pub open spec fn titles_alone(titles: Option<Lists>, i: int) -> Option<Lists> {
    match titles {
        Some(t) => Some(seq![t[i]]),
        None => None,
    }
}

/// Questions do not affect each other: a request for one question alone gives
/// the row that the question has among others.
pub proof fn law_questions_are_independent<
    F: Fn(&Vec<u32>, &Vec<u32>) -> Result<NetworkOutput, String>,
    A: Fn(&Vec<Score>) -> Score,
    R: Fn(usize, usize) -> Score,
>(
    codec: Codec,
    network: Network<F, A, R>,
    selection: Selection,
    arrangement: Arrangement,
    questions: Seq<Seq<char>>,
    contexts: Lists,
    titles: Option<Lists>,
    rows: Seq<Row>,
    warned: Seq<WarningView>,
    i: int,
    alone: Result<Seq<Row>, ErrorView>,
    warned_alone: Seq<WarningView>,
)
    requires
        gives_one_result(codec, network),
        can_process(
            codec,
            network,
            selection,
            arrangement,
            questions,
            contexts,
            titles,
            Ok(rows),
            warned,
        ),
        0 <= i < questions.len(),
        can_process(
            codec,
            network,
            selection,
            arrangement,
            seq![questions[i]],
            seq![contexts[i]],
            titles_alone(titles, i),
            alone,
            warned_alone,
        ),
    ensures
        i < rows.len(),
        alone == Ok::<Seq<Row>, ErrorView>(seq![rows[i]]),
{
    let q = normalized_questions(short_texts(questions));
    let c = request_contexts(contexts, titles);
    let q1 = normalized_questions(short_texts(seq![questions[i]]));
    let c1 = request_contexts(seq![contexts[i]], titles_alone(titles, i));
    law_accepted_requests(questions, contexts, titles);
    law_accepted_requests(seq![questions[i]], seq![contexts[i]], titles_alone(titles, i));
    if titles is Some {
        assert((titles->0)[i].len() == contexts[i].len());
    }
    let outcome: Result<Seq<Row>, ErrorView> = Ok(rows);
    let about = lemma_accepted(
        codec,
        network,
        selection,
        arrangement,
        questions,
        contexts,
        titles,
        outcome,
        warned,
    );
    let about_alone = lemma_accepted(
        codec,
        network,
        selection,
        arrangement,
        seq![questions[i]],
        seq![contexts[i]],
        titles_alone(titles, i),
        alone,
        warned_alone,
    );
    assert(outcome->Ok_0 == rows);
    assert(leads_to_row(codec, network, selection, arrangement, q[i], c[i], rows[i]));
    assert(q1 =~= seq![q[i]]);
    assert(c1 =~= seq![c[i]]);
    let expected: Result<Seq<Row>, ErrorView> = Ok(seq![rows[i]]);
    assert(expected->Ok_0 == seq![rows[i]]);
    assert(lead_to_rows(codec, network, selection, arrangement, q1, c1, seq![rows[i]]));
    assert(lead_to(
        codec,
        network,
        selection,
        arrangement,
        q1,
        c1,
        expected,
        all_input_warnings(q1, c1, 1),
    ));
    lemma_one_outcome(
        codec,
        network,
        selection,
        arrangement,
        arrangement,
        q1,
        c1,
        alone,
        about_alone,
        expected,
        all_input_warnings(q1, c1, 1),
    );
}

proof fn lemma_short_titles(titles: Seq<Seq<char>>, contexts: Seq<Seq<char>>, n: int)
    requires
        titles.len() == contexts.len(),
        0 <= n <= titles.len(),
        forall|k: int|
            0 <= k < titles.len() ==> (#[trigger] titles[k]).len() <= MAX_LEN_CHARS_PART
                && contexts[k].len() <= MAX_LEN_CHARS_PART,
    ensures
        spread_titles(titles, contexts, n) == titles.take(n),
        title_warnings(titles, n) == Seq::<WarningView>::empty(),
    decreases n,
{
    if n > 0 {
        lemma_short_titles(titles, contexts, n - 1);
        assert(titles[n - 1].len() <= MAX_LEN_CHARS_PART);
        assert(titles.take(n) == titles.take(n - 1) + seq![titles[n - 1]]);
    }
}

proof fn lemma_no_context_warnings(contexts: Seq<Seq<char>>, l: int, n: int)
    requires
        0 <= n <= contexts.len(),
        forall|k: int|
            0 <= k < contexts.len() ==> (#[trigger] contexts[k]).len() <= MAX_LEN_CHARS_PART,
    ensures
        context_warnings(contexts, l, n) == Seq::<WarningView>::empty(),
    decreases n,
{
    if n > 0 {
        lemma_no_context_warnings(contexts, l, n - 1);
        assert(contexts[n - 1].len() <= MAX_LEN_CHARS_PART);
    }
}

/// Whether every context with its title in front is short enough.
pub open spec fn titled_contexts_fit(contexts: Lists, titles: Lists) -> bool {
    forall|i: int, k: int|
        0 <= i < contexts.len() && 0 <= k < contexts[i].len() ==> (#[trigger] titled_contexts(
            contexts,
            Some(titles),
        )[i][k]).len() <= MAX_LEN_CHARS_PART
}

/// What is short enough with its title in front is so without, and so is the
/// title.
proof fn lemma_parts_fit(contexts: Lists, titles: Lists, i: int, k: int)
    requires
        titles_match(titles, contexts),
        titled_contexts_fit(contexts, titles),
        0 <= i < contexts.len(),
        0 <= k < contexts[i].len(),
    ensures
        titles[i][k].len() <= MAX_LEN_CHARS_PART,
        contexts[i][k].len() <= MAX_LEN_CHARS_PART,
{
    let whole = titled_contexts(contexts, Some(titles))[i][k];
    assert(whole.len() <= MAX_LEN_CHARS_PART);
    reveal_strlit(" ");
    assert(whole == titles[i][k] + " "@ + contexts[i][k]);
}

proof fn lemma_no_list_warnings(contexts: Lists, titles: Lists, n: int)
    requires
        titles_match(titles, contexts),
        titled_contexts_fit(contexts, titles),
        0 <= n <= contexts.len(),
    ensures
        list_warnings(contexts, Some(titles), n) == Seq::<WarningView>::empty(),
        list_warnings(titled_contexts(contexts, Some(titles)), None, n) == Seq::<
            WarningView,
        >::empty(),
    decreases n,
{
    if n > 0 {
        let i = n - 1;
        let whole = titled_contexts(contexts, Some(titles));
        lemma_no_list_warnings(contexts, titles, i);
        assert(titles[i].len() == contexts[i].len());
        assert forall|k: int| 0 <= k < titles[i].len() implies (#[trigger] titles[i][k]).len()
            <= MAX_LEN_CHARS_PART && contexts[i][k].len() <= MAX_LEN_CHARS_PART by {
            lemma_parts_fit(contexts, titles, i, k);
        }
        lemma_short_titles(titles[i], contexts[i], titles[i].len() as int);
        assert forall|k: int| 0 <= k < contexts[i].len() implies (#[trigger] contexts[i][k]).len()
            <= MAX_LEN_CHARS_PART by {
            lemma_parts_fit(contexts, titles, i, k);
        }
        lemma_no_context_warnings(contexts[i], i, contexts[i].len() as int);
        assert forall|k: int| 0 <= k < whole[i].len() implies (#[trigger] whole[i][k]).len()
            <= MAX_LEN_CHARS_PART by {}
        lemma_no_context_warnings(whole[i], i, whole[i].len() as int);
    }
}

/// Where nothing is too long, a request puts the contexts with their titles in
/// front into inputs, whether the titles are given as such or in the contexts.
proof fn lemma_titles_in_front(contexts: Lists, titles: Lists)
    requires
        titles_match(titles, contexts),
        titled_contexts_fit(contexts, titles),
    ensures
        request_contexts(contexts, Some(titles)) == titled_contexts(contexts, Some(titles)),
        request_contexts(titled_contexts(contexts, Some(titles)), None) == titled_contexts(
            contexts,
            Some(titles),
        ),
{
    let whole = titled_contexts(contexts, Some(titles));
    assert forall|i: int, k: int| 0 <= i < contexts.len() && 0 <= k < contexts[i].len() implies (
    #[trigger] contexts[i][k]).len() <= MAX_LEN_CHARS_PART by {
        lemma_parts_fit(contexts, titles, i, k);
    }
    assert forall|i: int, k: int| 0 <= i < whole.len() && 0 <= k < whole[i].len() implies (
    #[trigger] whole[i][k]).len() <= MAX_LEN_CHARS_PART by {
        assert(whole[i].len() == contexts[i].len());
    }
    law_short_requests_are_unchanged(seq![], contexts);
    law_short_requests_are_unchanged(seq![], whole);
    assert forall|i: int| 0 <= i < contexts.len() implies #[trigger] prepared_titles(
        titles,
        contexts,
    )[i] == titles[i] by {
        assert(titles[i].len() == contexts[i].len());
        assert forall|k: int| 0 <= k < titles[i].len() implies (#[trigger] titles[i][k]).len()
            <= MAX_LEN_CHARS_PART && contexts[i][k].len() <= MAX_LEN_CHARS_PART by {
            lemma_parts_fit(contexts, titles, i, k);
        }
        lemma_short_titles(titles[i], contexts[i], titles[i].len() as int);
        assert(titles[i].take(titles[i].len() as int) == titles[i]);
    }
    assert(prepared_titles(titles, contexts) =~= titles);
    assert(prepared_title_lists(Some(titles), contexts) == Some(titles));
    assert(titled_contexts(whole, None) =~= whole);
}

/// Titles come out as if they were put in front of the contexts, where none of
/// the contexts is too long then.
pub proof fn law_titles_stand_in_front<
    F: Fn(&Vec<u32>, &Vec<u32>) -> Result<NetworkOutput, String>,
    A: Fn(&Vec<Score>) -> Score,
    R: Fn(usize, usize) -> Score,
>(
    codec: Codec,
    network: Network<F, A, R>,
    selection: Selection,
    arrangement: Arrangement,
    questions: Seq<Seq<char>>,
    contexts: Lists,
    titles: Lists,
    with_titles: Result<Seq<Row>, ErrorView>,
    warned_a: Seq<WarningView>,
    put_in_front: Result<Seq<Row>, ErrorView>,
    warned_b: Seq<WarningView>,
)
    requires
        gives_one_result(codec, network),
        titles_match(titles, contexts),
        titled_contexts_fit(contexts, titles),
        can_process(
            codec,
            network,
            selection,
            arrangement,
            questions,
            contexts,
            Some(titles),
            with_titles,
            warned_a,
        ),
        can_process(
            codec,
            network,
            selection,
            arrangement,
            questions,
            titled_contexts(contexts, Some(titles)),
            None,
            put_in_front,
            warned_b,
        ),
    ensures
        with_titles == put_in_front,
        warned_a == warned_b,
{
    let whole = titled_contexts(contexts, Some(titles));
    law_accepted_requests(questions, contexts, Some(titles));
    law_accepted_requests(questions, whole, None);
    lemma_no_list_warnings(contexts, titles, contexts.len() as int);
    lemma_titles_in_front(contexts, titles);
    lemma_requests_agree(
        codec,
        network,
        selection,
        arrangement,
        arrangement,
        questions,
        contexts,
        Some(titles),
        with_titles,
        warned_a,
        questions,
        whole,
        None,
        put_in_front,
        warned_b,
    );
}

/// Whether every question can be asked as it is: it is neither empty nor too
/// long.
pub open spec fn questions_fit(questions: Seq<Seq<char>>) -> bool {
    forall|i: int|
        0 <= i < questions.len() ==> 0 < (#[trigger] questions[i]).len() <= MAX_LEN_CHARS_PART
}

proof fn lemma_not_empty_from(questions: Seq<Seq<char>>, i: int)
    requires
        questions_fit(questions),
        0 <= i <= questions.len(),
    ensures
        first_empty(questions, i) is None,
    decreases questions.len() - i,
{
    if i < questions.len() {
        assert(questions[i].len() > 0);
        lemma_not_empty_from(questions, i + 1);
    }
}

proof fn lemma_no_question_warnings(questions: Seq<Seq<char>>, n: int)
    requires
        questions_fit(questions),
        0 <= n <= questions.len(),
    ensures
        question_warnings(questions, n) == Seq::<WarningView>::empty(),
    decreases n,
{
    if n > 0 {
        assert(questions[n - 1].len() <= MAX_LEN_CHARS_PART);
        lemma_no_question_warnings(questions, n - 1);
    }
}

/// Letter case, ASCII punctuation and spacing of a question do not matter:
/// questions with the same normalised form have the same outcome.
pub proof fn law_only_the_normalised_question_matters<
    F: Fn(&Vec<u32>, &Vec<u32>) -> Result<NetworkOutput, String>,
    A: Fn(&Vec<Score>) -> Score,
    R: Fn(usize, usize) -> Score,
>(
    codec: Codec,
    network: Network<F, A, R>,
    selection: Selection,
    arrangement: Arrangement,
    questions_a: Seq<Seq<char>>,
    questions_b: Seq<Seq<char>>,
    contexts: Lists,
    titles: Option<Lists>,
    a: Result<Seq<Row>, ErrorView>,
    warned_a: Seq<WarningView>,
    b: Result<Seq<Row>, ErrorView>,
    warned_b: Seq<WarningView>,
)
    requires
        gives_one_result(codec, network),
        questions_a.len() == questions_b.len(),
        questions_fit(questions_a),
        questions_fit(questions_b),
        forall|i: int|
            0 <= i < questions_a.len() ==> normalized(#[trigger] questions_a[i]) == normalized(
                questions_b[i],
            ),
        can_process(
            codec,
            network,
            selection,
            arrangement,
            questions_a,
            contexts,
            titles,
            a,
            warned_a,
        ),
        can_process(
            codec,
            network,
            selection,
            arrangement,
            questions_b,
            contexts,
            titles,
            b,
            warned_b,
        ),
    ensures
        a == b,
        warned_a == warned_b,
{
    let n = questions_a.len() as int;
    lemma_not_empty_from(questions_a, 0);
    lemma_not_empty_from(questions_b, 0);
    lemma_no_question_warnings(questions_a, n);
    lemma_no_question_warnings(questions_b, n);
    law_short_requests_are_unchanged(questions_a, seq![]);
    law_short_requests_are_unchanged(questions_b, seq![]);
    assert(normalized_questions(questions_a) =~= normalized_questions(questions_b));
    lemma_requests_agree(
        codec,
        network,
        selection,
        arrangement,
        arrangement,
        questions_a,
        contexts,
        titles,
        a,
        warned_a,
        questions_b,
        contexts,
        titles,
        b,
        warned_b,
    );
}

} // verus!
