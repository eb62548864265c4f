//! Bringing questions, contexts and titles into shape.

use crate::error::RequestError;
use crate::length::{
    chunks, joined, law_chunks_have_the_right_length, law_chunks_make_up_the_text,
    length_warning, split_warn, truncate_warn, truncated, warning_views, LengthAction,
    LengthWarning, TextLabel, WarningView, MAX_LEN_CHARS_PART,
};
use crate::sentences::texts;
use crate::text::same_text;
use vstd::prelude::*;

verus! {

/// The single title that stands for no title.
pub const TITLE_PARAM_SPECIAL_VALUE: &'static str = "first_sentence";

/// Either a single text or all that a request consists of.
pub enum OneOrMany<'a, T> {
    Many(T),
    One(&'a str),
}

/// One question per list of contexts.
pub type MultipleQuestions = Vec<String>;

/// A list of contexts for each question.
pub type MultipleContexts = Vec<Vec<String>>;

/// A list of titles for each question, one per context.
pub type MultipleTitles = Vec<Vec<String>>;

/// Questions, contexts and titles that are in shape.
pub type PreparedProcessParams = (MultipleQuestions, MultipleContexts, Option<MultipleTitles>);

/// A list of texts for each question.
pub type Lists = Seq<Seq<Seq<char>>>;

/// The texts of a list of lists.
pub open spec fn lists(v: Seq<Vec<String>>) -> Lists {
    v.map_values(|l: Vec<String>| texts(l@))
}

/// The texts of the titles, if there are any.
pub open spec fn title_lists(titles: Option<MultipleTitles>) -> Option<Lists> {
    match titles {
        Some(t) => Some(lists(t@)),
        None => None,
    }
}

/// The questions of a request.
pub open spec fn given_questions(question: OneOrMany<MultipleQuestions>) -> Seq<Seq<char>> {
    match question {
        OneOrMany::Many(q) => texts(q@),
        OneOrMany::One(q) => seq![q@],
    }
}

/// The contexts of a request.
pub open spec fn given_contexts(context: OneOrMany<MultipleContexts>) -> Lists {
    match context {
        OneOrMany::Many(c) => lists(c@),
        OneOrMany::One(c) => seq![seq![c@]],
    }
}

/// The titles of a request. A single title may say that there are none.
pub open spec fn given_titles(title: Option<OneOrMany<MultipleTitles>>) -> Option<Lists> {
    match title {
        None => None,
        Some(OneOrMany::Many(t)) => Some(lists(t@)),
        Some(OneOrMany::One(t)) => if t@ == TITLE_PARAM_SPECIAL_VALUE@ {
            None
        } else {
            Some(seq![seq![t@]])
        },
    }
}

/// The first empty question from the `i`-th on.
pub open spec fn first_empty(questions: Seq<Seq<char>>, i: int) -> Option<int>
    decreases questions.len() - i,
{
    if i >= questions.len() {
        None
    } else if questions[i].len() == 0 {
        Some(i)
    } else {
        first_empty(questions, i + 1)
    }
}

/// The first list of titles, from the `i`-th on, that is not as long as the
/// list of contexts.
pub open spec fn first_uneven(contexts: Lists, titles: Lists, i: int) -> Option<int>
    decreases contexts.len() - i,
{
    if i >= contexts.len() {
        None
    } else if titles[i].len() != contexts[i].len() {
        Some(i)
    } else {
        first_uneven(contexts, titles, i + 1)
    }
}

/// What is wrong with a request, if anything.
pub open spec fn prepare_error(
    questions: Seq<Seq<char>>,
    contexts: Lists,
    titles: Option<Lists>,
) -> Option<RequestError> {
    if questions.len() != contexts.len() {
        Some(RequestError::QuestionsAndContextsDiffer)
    } else if first_empty(questions, 0) is Some {
        Some(RequestError::EmptyQuestion(first_empty(questions, 0)->0 as usize))
    } else {
        match titles {
            None => None,
            Some(t) => if t.len() != questions.len() {
                Some(RequestError::TitlesAndQuestionsDiffer)
            } else {
                match first_uneven(contexts, t, 0) {
                    None => None,
                    Some(i) => Some(
                        RequestError::TitleListLength {
                            list: i as usize,
                            n_titles: t[i].len() as usize,
                            n_contexts: contexts[i].len() as usize,
                        },
                    ),
                }
            },
        }
    }
}

/// The text of a question or a title, not too long.
pub open spec fn short(text: Seq<char>) -> Seq<char> {
    truncated(text, MAX_LEN_CHARS_PART as nat)
}

/// The chunks of a context.
pub open spec fn context_chunks(context: Seq<char>) -> Seq<Seq<char>> {
    chunks(context, MAX_LEN_CHARS_PART as nat)
}

/// The questions, each not too long.
pub open spec fn short_texts(list: Seq<Seq<char>>) -> Seq<Seq<char>> {
    list.map_values(|t: Seq<char>| short(t))
}

/// The chunks of the first `n` contexts of a list.
pub open spec fn split_contexts(list: Seq<Seq<char>>, n: int) -> Seq<Seq<char>>
    decreases n,
{
    if n <= 0 {
        seq![]
    } else {
        split_contexts(list, n - 1) + context_chunks(list[n - 1])
    }
}

/// The titles of the chunks of the first `n` contexts of a list: each chunk has
/// its context's title.
pub open spec fn spread_titles(
    titles: Seq<Seq<char>>,
    contexts: Seq<Seq<char>>,
    n: int,
) -> Seq<Seq<char>>
    decreases n,
{
    if n <= 0 {
        seq![]
    } else {
        spread_titles(titles, contexts, n - 1) + repeated(
            short(titles[n - 1]),
            context_chunks(contexts[n - 1]).len(),
        )
    }
}

/// A text, `n` times.
pub open spec fn repeated(text: Seq<char>, n: nat) -> Seq<Seq<char>> {
    Seq::new(n, |i: int| text)
}

/// The contexts, split into chunks list by list.
pub open spec fn prepared_contexts(contexts: Lists) -> Lists {
    contexts.map_values(|list: Seq<Seq<char>>| split_contexts(list, list.len() as int))
}

/// The titles of the chunks, list by list.
pub open spec fn prepared_titles(titles: Lists, contexts: Lists) -> Lists {
    Seq::new(
        contexts.len(),
        |i: int| spread_titles(titles[i], contexts[i], contexts[i].len() as int),
    )
}

/// The titles of the chunks, list by list, if there are titles.
pub open spec fn prepared_title_lists(titles: Option<Lists>, contexts: Lists) -> Option<Lists> {
    match titles {
        Some(t) => Some(prepared_titles(t, contexts)),
        None => None,
    }
}

/// The warnings about the first `n` questions.
pub open spec fn question_warnings(questions: Seq<Seq<char>>, n: int) -> Seq<WarningView>
    decreases n,
{
    if n <= 0 {
        seq![]
    } else {
        question_warnings(questions, n - 1) + length_warning(
            TextLabel::Question((n - 1) as usize),
            questions[n - 1],
            MAX_LEN_CHARS_PART as nat,
            LengthAction::Truncating,
        )
    }
}

/// The warnings about the first `n` titles of a list.
pub open spec fn title_warnings(titles: Seq<Seq<char>>, n: int) -> Seq<WarningView>
    decreases n,
{
    if n <= 0 {
        seq![]
    } else {
        title_warnings(titles, n - 1) + length_warning(
            TextLabel::Title((n - 1) as usize),
            titles[n - 1],
            MAX_LEN_CHARS_PART as nat,
            LengthAction::Truncating,
        )
    }
}

/// The warnings about the first `n` contexts of the list `l`.
pub open spec fn context_warnings(contexts: Seq<Seq<char>>, l: int, n: int) -> Seq<WarningView>
    decreases n,
{
    if n <= 0 {
        seq![]
    } else {
        context_warnings(contexts, l, n - 1) + length_warning(
            TextLabel::Context(l as usize, (n - 1) as usize),
            contexts[n - 1],
            MAX_LEN_CHARS_PART as nat,
            LengthAction::Splitting,
        )
    }
}

/// The warnings about the first `n` lists: of each, first those about its
/// titles, then those about its contexts.
pub open spec fn list_warnings(contexts: Lists, titles: Option<Lists>, n: int) -> Seq<WarningView>
    decreases n,
{
    if n <= 0 {
        seq![]
    } else {
        list_warnings(contexts, titles, n - 1) + (match titles {
            Some(t) => title_warnings(t[n - 1], t[n - 1].len() as int),
            None => seq![],
        }) + context_warnings(contexts[n - 1], n - 1, contexts[n - 1].len() as int)
    }
}

/// The warnings that come up on the way to the end or to the first error.
pub open spec fn prepare_warnings(
    questions: Seq<Seq<char>>,
    contexts: Lists,
    titles: Option<Lists>,
) -> Seq<WarningView> {
    if questions.len() != contexts.len() {
        seq![]
    } else if first_empty(questions, 0) is Some {
        question_warnings(questions, first_empty(questions, 0)->0)
    } else {
        question_warnings(questions, questions.len() as int) + match titles {
            None => list_warnings(contexts, titles, contexts.len() as int),
            Some(t) => if t.len() != questions.len() {
                seq![]
            } else {
                match first_uneven(contexts, t, 0) {
                    None => list_warnings(contexts, titles, contexts.len() as int),
                    Some(i) => list_warnings(contexts, titles, i),
                }
            },
        }
    }
}

/// Truncates the questions that are too long, and rejects an empty one.
fn prepare_questions(questions: &Vec<String>, warnings: &mut Vec<LengthWarning>) -> (res: Result<
    Vec<String>,
    RequestError,
>)
    ensures
        match first_empty(texts(questions@), 0) {
            Some(i) => {
                &&& res == Err::<Vec<String>, RequestError>(RequestError::EmptyQuestion(i as usize))
                &&& warning_views(final(warnings)@) == warning_views(old(warnings)@)
                    + question_warnings(texts(questions@), i)
            },
            None => {
                &&& res is Ok
                &&& texts(res->Ok_0@) == short_texts(texts(questions@))
                &&& warning_views(final(warnings)@) == warning_views(old(warnings)@)
                    + question_warnings(texts(questions@), questions@.len() as int)
            },
        },
{
    let ghost q = texts(questions@);
    let ghost w = warning_views(warnings@);
    let mut shortened: Vec<String> = Vec::with_capacity(questions.len());
    let mut i: usize = 0;
    assert(w + question_warnings(q, 0) == w);
    while i < questions.len()
        invariant
            q == texts(questions@),
            w == warning_views(old(warnings)@),
            i <= questions@.len(),
            first_empty(q, 0) == first_empty(q, i as int),
            texts(shortened@) == short_texts(q.take(i as int)),
            warning_views(warnings@) == w + question_warnings(q, i as int),
        decreases questions@.len() - i,
    {
        let mut question = questions[i].clone();
        assert(question@ == q[i as int]);
        if question.as_str().is_empty() {
            return Err(RequestError::EmptyQuestion(i));
        }
        truncate_warn(&mut question, TextLabel::Question(i), MAX_LEN_CHARS_PART, warnings);
        proof {
            assert(q.take(i + 1) == q.take(i as int).push(q[i as int]));
            assert(short_texts(q.take(i + 1)) == short_texts(q.take(i as int)).push(
                short(q[i as int]),
            ));
            assert(texts(shortened@.push(question)) == texts(shortened@).push(question@));
            assert(w + question_warnings(q, i + 1) == w + question_warnings(q, i as int)
                + length_warning(
                TextLabel::Question(i),
                q[i as int],
                MAX_LEN_CHARS_PART as nat,
                LengthAction::Truncating,
            ));
        }
        shortened.push(question);
        i += 1;
    }
    assert(q.take(i as int) == q);
    Ok(shortened)
}

/// Truncates the titles of a list that are too long.
fn prepare_titles(titles: &Vec<String>, warnings: &mut Vec<LengthWarning>) -> (shortened: Vec<
    String,
>)
    ensures
        texts(shortened@) == short_texts(texts(titles@)),
        warning_views(final(warnings)@) == warning_views(old(warnings)@) + title_warnings(
            texts(titles@),
            titles@.len() as int,
        ),
{
    let ghost t = texts(titles@);
    let ghost w = warning_views(warnings@);
    let mut shortened: Vec<String> = Vec::with_capacity(titles.len());
    let mut i: usize = 0;
    assert(w + title_warnings(t, 0) == w);
    while i < titles.len()
        invariant
            t == texts(titles@),
            i <= titles@.len(),
            texts(shortened@) == short_texts(t.take(i as int)),
            warning_views(warnings@) == w + title_warnings(t, i as int),
        decreases titles@.len() - i,
    {
        let mut title = titles[i].clone();
        assert(title@ == t[i as int]);
        truncate_warn(&mut title, TextLabel::Title(i), MAX_LEN_CHARS_PART, warnings);
        proof {
            assert(t.take(i + 1) == t.take(i as int).push(t[i as int]));
            assert(short_texts(t.take(i + 1)) == short_texts(t.take(i as int)).push(
                short(t[i as int]),
            ));
            assert(texts(shortened@.push(title)) == texts(shortened@).push(title@));
            assert(w + title_warnings(t, i + 1) == w + title_warnings(t, i as int)
                + length_warning(
                TextLabel::Title(i),
                t[i as int],
                MAX_LEN_CHARS_PART as nat,
                LengthAction::Truncating,
            ));
        }
        shortened.push(title);
        i += 1;
    }
    assert(t.take(i as int) == t);
    shortened
}

/// What splitting one more context adds to the warnings.
proof fn lemma_context_warning(w: Seq<WarningView>, c: Seq<Seq<char>>, l: usize, i: usize)
    requires
        i < c.len(),
    ensures
        w + context_warnings(c, l as int, i + 1) == w + context_warnings(c, l as int, i as int)
            + length_warning(
            TextLabel::Context(l, i),
            c[i as int],
            MAX_LEN_CHARS_PART as nat,
            LengthAction::Splitting,
        ),
{
}

/// Splits the contexts of the list `l` that are too long.
fn prepare_contexts(contexts: &Vec<String>, l: usize, warnings: &mut Vec<LengthWarning>) -> (split:
    Vec<String>)
    ensures
        texts(split@) == split_contexts(texts(contexts@), contexts@.len() as int),
        warning_views(final(warnings)@) == warning_views(old(warnings)@) + context_warnings(
            texts(contexts@),
            l as int,
            contexts@.len() as int,
        ),
{
    let ghost c = texts(contexts@);
    let ghost w = warning_views(warnings@);
    let mut split: Vec<String> = Vec::with_capacity(contexts.len());
    let mut i: usize = 0;
    assert(w + context_warnings(c, l as int, 0) == w);
    assert(texts(split@) == split_contexts(c, 0));
    while i < contexts.len()
        invariant
            c == texts(contexts@),
            i <= contexts@.len(),
            texts(split@) == split_contexts(c, i as int),
            warning_views(warnings@) == w + context_warnings(c, l as int, i as int),
        decreases contexts@.len() - i,
    {
        let mut context = contexts[i].clone();
        assert(context@ == c[i as int]);
        let ghost before = split@;
        let rest = split_warn(
            &mut context,
            TextLabel::Context(l, i),
            MAX_LEN_CHARS_PART,
            warnings,
        );
        proof {
            lemma_context_warning(w, c, l, i);
            assert(texts(before.push(context)) == texts(before) + seq![context@]);
        }
        split.push(context);
        if let Some(mut split_off) = rest {
            let ghost off = split_off@;
            split.append(&mut split_off);
            assert(texts(before.push(context) + off) == texts(before) + (seq![context@] + texts(
                off,
            )));
        }
        i += 1;
    }
    split
}

/// Splits the contexts of the list `l` that are too long, truncates the titles
/// that are, and gives each chunk the title of its context.
fn prepare_titled_contexts(
    contexts: &Vec<String>,
    titles: &Vec<String>,
    l: usize,
    warnings: &mut Vec<LengthWarning>,
) -> (res: (Vec<String>, Vec<String>))
    requires
        contexts@.len() == titles@.len(),
    ensures
        texts(res.0@) == split_contexts(texts(contexts@), contexts@.len() as int),
        texts(res.1@) == spread_titles(
            texts(titles@),
            texts(contexts@),
            contexts@.len() as int,
        ),
        warning_views(final(warnings)@) == warning_views(old(warnings)@) + title_warnings(
            texts(titles@),
            titles@.len() as int,
        ) + context_warnings(texts(contexts@), l as int, contexts@.len() as int),
{
    let ghost c = texts(contexts@);
    let ghost t = texts(titles@);
    let shortened = prepare_titles(titles, warnings);
    let ghost w = warning_views(warnings@);
    let mut split: Vec<String> = Vec::with_capacity(contexts.len());
    let mut spread: Vec<String> = Vec::with_capacity(contexts.len());
    let mut i: usize = 0;
    proof {
        assert(w + context_warnings(c, l as int, 0) == w);
        assert(texts(split@) == split_contexts(c, 0));
        assert(texts(spread@) == spread_titles(t, c, 0));
        assert(shortened@.len() == texts(shortened@).len());
    }
    while i < contexts.len()
        invariant
            c == texts(contexts@),
            t == texts(titles@),
            contexts@.len() == titles@.len() == shortened@.len(),
            texts(shortened@) == short_texts(t),
            i <= contexts@.len(),
            texts(split@) == split_contexts(c, i as int),
            texts(spread@) == spread_titles(t, c, i as int),
            warning_views(warnings@) == w + context_warnings(c, l as int, i as int),
        decreases contexts@.len() - i,
    {
        let mut context = contexts[i].clone();
        assert(context@ == c[i as int]);
        assert(texts(shortened@)[i as int] == shortened@[i as int]@);
        let ghost before = split@;
        let ghost titles_before = spread@;
        let ghost title = short(t[i as int]);
        let rest = split_warn(
            &mut context,
            TextLabel::Context(l, i),
            MAX_LEN_CHARS_PART,
            warnings,
        );
        proof {
            lemma_context_warning(w, c, l, i);
            assert(texts(before.push(context)) == texts(before) + seq![context@]);
        }
        split.push(context);
        spread.push(shortened[i].clone());
        assert(texts(spread@) == texts(titles_before) + repeated(title, 1));
        if let Some(mut split_off) = rest {
            let ghost off = split_off@;
            let n = split_off.len();
            split.append(&mut split_off);
            assert(texts(before.push(context) + off) == texts(before) + (seq![context@] + texts(
                off,
            )));
            let mut k: usize = 0;
            while k < n
                invariant
                    k <= n,
                    i < shortened@.len(),
                    shortened@[i as int]@ == title,
                    texts(spread@) == texts(titles_before) + repeated(title, (k + 1) as nat),
                decreases n - k,
            {
                let ghost s = spread@;
                spread.push(shortened[i].clone());
                k += 1;
                assert(texts(spread@) == texts(s).push(title));
                assert(repeated(title, (k + 1) as nat) == repeated(title, k as nat).push(title));
            }
            assert(context_chunks(c[i as int]).len() == n + 1);
        } else {
            assert(context_chunks(c[i as int]).len() == 1);
        }
        i += 1;
    }
    (split, spread)
}

/// A list of one text.
fn single(text: &str) -> (v: Vec<String>)
    ensures
        texts(v@) == seq![text@],
{
    let v = vec![text.to_owned()];
    assert(texts(v@) == seq![text@]);
    v
}

/// A list of one list of one text.
fn single_list(text: &str) -> (v: Vec<Vec<String>>)
    ensures
        lists(v@) == seq![seq![text@]],
{
    let v = vec![single(text)];
    assert(lists(v@) == seq![seq![text@]]);
    v
}

/// Brings questions, contexts and titles into shape.
///
/// A single question, context or title counts as a list of one; the title
/// `first_sentence` counts as none. There must be as many lists of contexts as
/// questions, no question may be empty, and titles must come in lists as long
/// as those of the contexts. Questions and titles that are too long are
/// truncated. Contexts that are too long are split, and each chunk gets the
/// title of its context. `warnings` takes the warnings about what is too long.
pub fn prepare_process_params(
    question: OneOrMany<MultipleQuestions>,
    context: OneOrMany<MultipleContexts>,
    title: Option<OneOrMany<MultipleTitles>>,
    warnings: &mut Vec<LengthWarning>,
) -> (res: Result<PreparedProcessParams, RequestError>)
    ensures
        warning_views(final(warnings)@) == warning_views(old(warnings)@) + prepare_warnings(
            given_questions(question),
            given_contexts(context),
            given_titles(title),
        ),
        match prepare_error(
            given_questions(question),
            given_contexts(context),
            given_titles(title),
        ) {
            Some(e) => res == Err::<PreparedProcessParams, RequestError>(e),
            None => {
                &&& res is Ok
                &&& texts(res->Ok_0.0@) == short_texts(given_questions(question))
                &&& lists(res->Ok_0.1@) == prepared_contexts(given_contexts(context))
                &&& title_lists(res->Ok_0.2) == prepared_title_lists(
                    given_titles(title),
                    given_contexts(context),
                )
            },
        },
{
    let ghost q = given_questions(question);
    let ghost c = given_contexts(context);
    let ghost t = given_titles(title);
    let ghost w = warning_views(warnings@);
    let questions = match question {
        OneOrMany::Many(questions) => questions,
        OneOrMany::One(text) => single(text),
    };
    let contexts = match context {
        OneOrMany::Many(contexts) => contexts,
        OneOrMany::One(text) => single_list(text),
    };
    let titles = match title {
        None => None,
        Some(OneOrMany::Many(titles)) => Some(titles),
        Some(OneOrMany::One(text)) => if same_text(text, TITLE_PARAM_SPECIAL_VALUE) {
            None
        } else {
            Some(single_list(text))
        },
    };
    assert(q.len() == questions@.len() && c.len() == contexts@.len());
    if questions.len() != contexts.len() {
        assert(w + Seq::<WarningView>::empty() == w);
        return Err(RequestError::QuestionsAndContextsDiffer);
    }
    let questions = match prepare_questions(&questions, warnings) {
        Ok(shortened) => shortened,
        Err(e) => {
            return Err(e);
        },
    };
    assert(questions@.len() == texts(questions@).len());
    let ghost wq = w + question_warnings(q, q.len() as int);
    match titles {
        Some(titles) => {
            assert(t->0.len() == titles@.len());
            if titles.len() != questions.len() {
                assert(wq + Seq::<WarningView>::empty() == wq);
                return Err(RequestError::TitlesAndQuestionsDiffer);
            }
            let mut new_contexts: Vec<Vec<String>> = Vec::with_capacity(contexts.len());
            let mut new_titles: Vec<Vec<String>> = Vec::with_capacity(contexts.len());
            let mut i: usize = 0;
            assert(wq + list_warnings(c, t, 0) == wq);
            while i < contexts.len()
                invariant
                    contexts@.len() == titles@.len() == q.len(),
                    w == warning_views(old(warnings)@),
                    wq == w + question_warnings(q, q.len() as int),
                    q == given_questions(question),
                    c == given_contexts(context),
                    t == given_titles(title),
                    c == lists(contexts@),
                    t == Some(lists(titles@)),
                    first_empty(q, 0) is None,
                    i <= contexts@.len(),
                    first_uneven(c, t->0, 0) == first_uneven(c, t->0, i as int),
                    lists(new_contexts@) == prepared_contexts(c).take(i as int),
                    lists(new_titles@) == prepared_titles(t->0, c).take(i as int),
                    warning_views(warnings@) == wq + list_warnings(c, t, i as int),
                decreases contexts@.len() - i,
            {
                let n_contexts = contexts[i].len();
                let n_titles = titles[i].len();
                proof {
                    assert(c[i as int] == texts(contexts@[i as int]@));
                    assert((t->0)[i as int] == texts(titles@[i as int]@));
                }
                if n_titles != n_contexts {
                    assert(w + (question_warnings(q, q.len() as int) + list_warnings(
                        c,
                        t,
                        i as int,
                    )) == wq + list_warnings(c, t, i as int));
                    return Err(RequestError::TitleListLength { list: i, n_titles, n_contexts });
                }
                let (split, spread) = prepare_titled_contexts(
                    &contexts[i],
                    &titles[i],
                    i,
                    warnings,
                );
                proof {
                    let pc = prepared_contexts(c);
                    let pt = prepared_titles(t->0, c);
                    assert(pc.take(i + 1) == pc.take(i as int).push(pc[i as int]));
                    assert(pt.take(i + 1) == pt.take(i as int).push(pt[i as int]));
                    assert(lists(new_contexts@.push(split)) == lists(new_contexts@).push(
                        texts(split@),
                    ));
                    assert(lists(new_titles@.push(spread)) == lists(new_titles@).push(
                        texts(spread@),
                    ));
                    assert(wq + list_warnings(c, t, i + 1) == wq + list_warnings(c, t, i as int)
                        + title_warnings((t->0)[i as int], (t->0)[i as int].len() as int)
                        + context_warnings(c[i as int], i as int, c[i as int].len() as int));
                }
                new_contexts.push(split);
                new_titles.push(spread);
                i += 1;
            }
            proof {
                let pc = prepared_contexts(c);
                let pt = prepared_titles(t->0, c);
                assert(pc.take(i as int) == pc);
                assert(pt.take(i as int) == pt);
                assert(w + (question_warnings(q, q.len() as int) + list_warnings(c, t, i as int))
                    == wq + list_warnings(c, t, i as int));
            }
            Ok((questions, new_contexts, Some(new_titles)))
        },
        None => {
            let mut new_contexts: Vec<Vec<String>> = Vec::with_capacity(contexts.len());
            let mut i: usize = 0;
            assert(wq + list_warnings(c, t, 0) == wq);
            while i < contexts.len()
                invariant
                    c == lists(contexts@),
                    t is None,
                    i <= contexts@.len(),
                    lists(new_contexts@) == prepared_contexts(c).take(i as int),
                    warning_views(warnings@) == wq + list_warnings(c, t, i as int),
                decreases contexts@.len() - i,
            {
                let split = prepare_contexts(&contexts[i], i, warnings);
                proof {
                    assert(c[i as int] == texts(contexts@[i as int]@));
                    let pc = prepared_contexts(c);
                    assert(pc.take(i + 1) == pc.take(i as int).push(pc[i as int]));
                    assert(lists(new_contexts@.push(split)) == lists(new_contexts@).push(
                        texts(split@),
                    ));
                    assert(wq + list_warnings(c, t, i + 1) == wq + list_warnings(c, t, i as int)
                        + context_warnings(c[i as int], i as int, c[i as int].len() as int));
                }
                new_contexts.push(split);
                i += 1;
            }
            proof {
                let pc = prepared_contexts(c);
                assert(pc.take(i as int) == pc);
                assert(w + (question_warnings(q, q.len() as int) + list_warnings(c, t, i as int))
                    == wq + list_warnings(c, t, i as int));
            }
            Ok((questions, new_contexts, None))
        },
    }
}

/// Whether the titles come in lists as long as those of the contexts.
pub open spec fn titles_match(titles: Lists, contexts: Lists) -> bool {
    &&& titles.len() == contexts.len()
    &&& forall|i: int| 0 <= i < contexts.len() ==> (#[trigger] titles[i]).len() == contexts[i].len()
}

proof fn lemma_first_empty(questions: Seq<Seq<char>>, i: int)
    requires
        0 <= i <= questions.len(),
    ensures
        first_empty(questions, i) is None <==> forall|k: int|
            i <= k < questions.len() ==> (#[trigger] questions[k]).len() > 0,
    decreases questions.len() - i,
{
    if i < questions.len() {
        lemma_first_empty(questions, i + 1);
    }
}

proof fn lemma_first_uneven(contexts: Lists, titles: Lists, i: int)
    requires
        0 <= i <= contexts.len(),
    ensures
        first_uneven(contexts, titles, i) is None <==> forall|k: int|
            i <= k < contexts.len() ==> (#[trigger] titles[k]).len() == contexts[k].len(),
    decreases contexts.len() - i,
{
    if i < contexts.len() {
        lemma_first_uneven(contexts, titles, i + 1);
    }
}

/// A request is accepted exactly if there are as many lists of contexts as
/// questions, no question is empty, and titles, if given, match the contexts.
pub proof fn law_accepted_requests(
    questions: Seq<Seq<char>>,
    contexts: Lists,
    titles: Option<Lists>,
)
    ensures
        prepare_error(questions, contexts, titles) is None <==> {
            &&& questions.len() == contexts.len()
            &&& forall|k: int| 0 <= k < questions.len() ==> (#[trigger] questions[k]).len() > 0
            &&& titles matches Some(t) ==> titles_match(t, contexts)
        },
{
    lemma_first_empty(questions, 0);
    if titles is Some && questions.len() == contexts.len() {
        lemma_first_uneven(contexts, titles->0, 0);
    }
}

proof fn lemma_as_many_titles_as_chunks(titles: Seq<Seq<char>>, contexts: Seq<Seq<char>>, n: int)
    requires
        0 <= n,
    ensures
        spread_titles(titles, contexts, n).len() == split_contexts(contexts, n).len(),
    decreases n,
{
    if n > 0 {
        lemma_as_many_titles_as_chunks(titles, contexts, n - 1);
    }
}

/// Titles that are in shape match the contexts that are: every chunk has a
/// title.
pub proof fn law_prepared_titles_match(titles: Lists, contexts: Lists)
    ensures
        prepared_contexts(contexts).len() == contexts.len(),
        titles_match(prepared_titles(titles, contexts), prepared_contexts(contexts)),
{
    assert forall|i: int| 0 <= i < contexts.len() implies (#[trigger] prepared_titles(
        titles,
        contexts,
    )[i]).len() == prepared_contexts(contexts)[i].len() by {
        lemma_as_many_titles_as_chunks(titles[i], contexts[i], contexts[i].len() as int);
    }
}

proof fn lemma_joined_concat(a: Seq<Seq<char>>, b: Seq<Seq<char>>)
    ensures
        joined(a + b) == joined(a) + joined(b),
    decreases a.len(),
{
    if a.len() == 0 {
        assert(a + b == b);
        assert(joined(a) + joined(b) == joined(b));
    } else {
        assert((a + b).drop_first() == a.drop_first() + b);
        lemma_joined_concat(a.drop_first(), b);
        assert(joined(a + b) == joined(a) + joined(b));
    }
}

/// No text of the contexts is lost: the chunks of a list hold what its contexts
/// hold, in the same order.
pub proof fn law_no_context_text_is_lost(list: Seq<Seq<char>>, n: int)
    requires
        0 <= n <= list.len(),
    ensures
        joined(split_contexts(list, n)) == joined(list.take(n)),
    decreases n,
{
    if n > 0 {
        law_no_context_text_is_lost(list, n - 1);
        law_chunks_make_up_the_text(list[n - 1], MAX_LEN_CHARS_PART as nat);
        lemma_joined_concat(split_contexts(list, n - 1), context_chunks(list[n - 1]));
        lemma_joined_concat(list.take(n - 1), seq![list[n - 1]]);
        assert(list.take(n) == list.take(n - 1) + seq![list[n - 1]]);
        assert(seq![list[n - 1]].drop_first() == Seq::<Seq<char>>::empty());
        assert(joined(Seq::<Seq<char>>::empty()) == Seq::<char>::empty());
        assert(joined(seq![list[n - 1]]) == list[n - 1]);
    } else {
        assert(list.take(n) == Seq::<Seq<char>>::empty());
    }
}

proof fn lemma_chunks_fit(list: Seq<Seq<char>>, n: int, k: int)
    requires
        0 <= n <= list.len(),
        0 <= k < split_contexts(list, n).len(),
    ensures
        split_contexts(list, n)[k].len() <= MAX_LEN_CHARS_PART,
    decreases n,
{
    if n > 0 {
        let before = split_contexts(list, n - 1);
        if k < before.len() {
            lemma_chunks_fit(list, n - 1, k);
        } else {
            law_chunks_have_the_right_length(
                list[n - 1],
                MAX_LEN_CHARS_PART as nat,
                k - before.len(),
            );
        }
    }
}

/// Questions and contexts that are in shape are short enough, and a question
/// that was not empty is not.
pub proof fn law_prepared_texts_fit(
    questions: Seq<Seq<char>>,
    contexts: Lists,
    i: int,
    k: int,
)
    requires
        0 <= i < questions.len(),
        questions.len() == contexts.len(),
        0 <= k < prepared_contexts(contexts)[i].len(),
    ensures
        short_texts(questions)[i].len() <= MAX_LEN_CHARS_PART,
        questions[i].len() > 0 ==> short_texts(questions)[i].len() > 0,
        prepared_contexts(contexts)[i][k].len() <= MAX_LEN_CHARS_PART,
{
    lemma_chunks_fit(contexts[i], contexts[i].len() as int, k);
}

proof fn lemma_titles_fit(titles: Seq<Seq<char>>, contexts: Seq<Seq<char>>, n: int, k: int)
    requires
        0 <= n <= contexts.len(),
        0 <= k < spread_titles(titles, contexts, n).len(),
    ensures
        spread_titles(titles, contexts, n)[k].len() <= MAX_LEN_CHARS_PART,
    decreases n,
{
    if n > 0 && k < spread_titles(titles, contexts, n - 1).len() {
        lemma_titles_fit(titles, contexts, n - 1, k);
    }
}

/// Titles that are in shape are short enough.
pub proof fn law_prepared_titles_fit(titles: Lists, contexts: Lists, i: int, k: int)
    requires
        0 <= i < contexts.len(),
        0 <= k < prepared_titles(titles, contexts)[i].len(),
    ensures
        prepared_titles(titles, contexts)[i][k].len() <= MAX_LEN_CHARS_PART,
{
    lemma_titles_fit(titles[i], contexts[i], contexts[i].len() as int, k);
}

proof fn lemma_short_contexts(list: Seq<Seq<char>>, n: int)
    requires
        0 <= n <= list.len(),
        forall|k: int| 0 <= k < list.len() ==> (#[trigger] list[k]).len() <= MAX_LEN_CHARS_PART,
    ensures
        split_contexts(list, n) == list.take(n),
    decreases n,
{
    if n > 0 {
        lemma_short_contexts(list, n - 1);
        assert(list[n - 1].len() <= MAX_LEN_CHARS_PART);
        assert(list.take(n) == list.take(n - 1) + seq![list[n - 1]]);
    }
}

/// Where nothing is too long, questions and contexts stay as they are.
pub proof fn law_short_requests_are_unchanged(questions: Seq<Seq<char>>, contexts: Lists)
    requires
        forall|i: int|
            0 <= i < questions.len() ==> (#[trigger] questions[i]).len() <= MAX_LEN_CHARS_PART,
        forall|i: int, k: int|
            0 <= i < contexts.len() && 0 <= k < contexts[i].len() ==> (
            #[trigger] contexts[i][k]).len() <= MAX_LEN_CHARS_PART,
    ensures
        short_texts(questions) == questions,
        prepared_contexts(contexts) == contexts,
{
    assert(short_texts(questions) =~= questions);
    assert forall|i: int| 0 <= i < contexts.len() implies #[trigger] prepared_contexts(contexts)[i]
        == contexts[i] by {
        lemma_short_contexts(contexts[i], contexts[i].len() as int);
        assert(contexts[i].take(contexts[i].len() as int) == contexts[i]);
    }
    assert(prepared_contexts(contexts) =~= contexts);
}

/// A single question, context or title is a list of one text, and several are
/// taken as they come; but the single title `first_sentence` is no title.
pub proof fn law_single_texts_are_lists_of_one(
    question: &str,
    questions: Vec<String>,
    text: &str,
    list: Vec<Vec<String>>,
    i: int,
    k: int,
)
    ensures
        given_questions(OneOrMany::One(question)) == seq![question@],
        given_questions(OneOrMany::Many(questions)).len() == questions@.len(),
        0 <= i < questions@.len() ==> given_questions(OneOrMany::Many(questions))[i]
            == questions@[i]@,
        given_contexts(OneOrMany::One(text)) == seq![seq![text@]],
        given_contexts(OneOrMany::Many(list)).len() == list@.len(),
        0 <= i < list@.len() ==> given_contexts(OneOrMany::Many(list))[i].len() == list@[i]@.len(),
        0 <= i < list@.len() && 0 <= k < list@[i]@.len() ==> given_contexts(
            OneOrMany::Many(list),
        )[i][k] == list@[i]@[k]@,
        given_titles(None) is None,
        given_titles(Some(OneOrMany::One(text))) is None <==> text@ == seq![
            'f', 'i', 'r', 's', 't', '_', 's', 'e', 'n', 't', 'e', 'n', 'c', 'e',
        ],
        given_titles(Some(OneOrMany::One(text))) matches Some(t) ==> t == seq![seq![text@]],
        given_titles(Some(OneOrMany::Many(list))) == Some(given_contexts(OneOrMany::Many(list))),
{
    reveal_strlit("first_sentence");
    assert(TITLE_PARAM_SPECIAL_VALUE@ == seq![
        'f', 'i', 'r', 's', 't', '_', 's', 'e', 'n', 't', 'e', 'n', 'c', 'e',
    ]);
}

proof fn lemma_first_empty_is_first(questions: Seq<Seq<char>>, i: int)
    requires
        0 <= i <= questions.len(),
    ensures
        first_empty(questions, i) matches Some(k) ==> {
            &&& i <= k < questions.len()
            &&& questions[k].len() == 0
            &&& forall|j: int| i <= j < k ==> (#[trigger] questions[j]).len() > 0
        },
    decreases questions.len() - i,
{
    if i < questions.len() {
        lemma_first_empty_is_first(questions, i + 1);
    }
}

proof fn lemma_first_uneven_is_first(contexts: Lists, titles: Lists, i: int)
    requires
        0 <= i <= contexts.len(),
    ensures
        first_uneven(contexts, titles, i) matches Some(k) ==> {
            &&& i <= k < contexts.len()
            &&& titles[k].len() != contexts[k].len()
            &&& forall|j: int| i <= j < k ==> (#[trigger] titles[j]).len() == contexts[j].len()
        },
    decreases contexts.len() - i,
{
    if i < contexts.len() {
        lemma_first_uneven_is_first(contexts, titles, i + 1);
    }
}

/// A request is refused for the first thing that is wrong with it: that there are
/// not as many lists of contexts as questions, the first empty question, that
/// there are not as many lists of titles, or the first list of titles that is not
/// as long as the list of contexts. And it is refused for nothing else.
pub proof fn law_refused_requests(
    questions: Seq<Seq<char>>,
    contexts: Lists,
    titles: Option<Lists>,
    e: RequestError,
)
    requires
        prepare_error(questions, contexts, titles) == Some(e),
        questions.len() <= usize::MAX,
        contexts.len() <= usize::MAX,
    ensures
        ({
            let no_empty = forall|k: int|
                0 <= k < questions.len() ==> (#[trigger] questions[k]).len() > 0;
            match e {
                RequestError::QuestionsAndContextsDiffer => questions.len() != contexts.len(),
                RequestError::EmptyQuestion(i) => {
                    &&& questions.len() == contexts.len()
                    &&& i < questions.len()
                    &&& questions[i as int].len() == 0
                    &&& forall|k: int| 0 <= k < i ==> (#[trigger] questions[k]).len() > 0
                },
                RequestError::TitlesAndQuestionsDiffer => {
                    &&& questions.len() == contexts.len()
                    &&& no_empty
                    &&& titles is Some && titles->0.len() != questions.len()
                },
                RequestError::TitleListLength { list, n_titles, n_contexts } => {
                    &&& questions.len() == contexts.len()
                    &&& no_empty
                    &&& titles is Some && titles->0.len() == questions.len()
                    &&& list < contexts.len()
                    &&& (titles->0)[list as int].len() != contexts[list as int].len()
                    &&& n_titles == (titles->0)[list as int].len() as usize
                    &&& n_contexts == contexts[list as int].len() as usize
                    &&& forall|k: int|
                        0 <= k < list ==> (#[trigger] (titles->0)[k]).len() == contexts[k].len()
                },
            }
        }),
{
    lemma_first_empty(questions, 0);
    lemma_first_empty_is_first(questions, 0);
    if titles is Some && questions.len() == contexts.len() {
        lemma_first_uneven_is_first(contexts, titles->0, 0);
    }
}

proof fn lemma_prefix_of_contexts(
    a: Seq<Seq<char>>,
    b: Seq<Seq<char>>,
    s: Seq<Seq<char>>,
    t: Seq<Seq<char>>,
    l: int,
    n: int,
)
    requires
        0 <= n <= a.len(),
        n <= b.len(),
        n <= s.len(),
        n <= t.len(),
        forall|i: int| 0 <= i < n ==> #[trigger] a[i] == b[i],
        forall|i: int| 0 <= i < n ==> #[trigger] s[i] == t[i],
    ensures
        split_contexts(a, n) == split_contexts(b, n),
        spread_titles(s, a, n) == spread_titles(t, b, n),
        question_warnings(a, n) == question_warnings(b, n),
        title_warnings(a, n) == title_warnings(b, n),
        context_warnings(a, l, n) == context_warnings(b, l, n),
    decreases n,
{
    if n > 0 {
        lemma_prefix_of_contexts(a, b, s, t, l, n - 1);
        assert(a[n - 1] == b[n - 1]);
        assert(s[n - 1] == t[n - 1]);
    }
}

/// One more context in a list: its chunks of 1024 characters come after those of
/// the others, and so does its title, cut to 1024 characters, once for each chunk.
/// Other lists do not change, and a list without contexts has no chunks.
pub proof fn law_one_more_context(
    contexts: Lists,
    titles: Lists,
    i: int,
    context: Seq<char>,
    title: Seq<char>,
    j: int,
)
    requires
        titles.len() == contexts.len(),
        0 <= i < contexts.len(),
        titles[i].len() == contexts[i].len(),
        0 <= j < contexts.len(),
    ensures
        ({
            let more = contexts.update(i, contexts[i].push(context));
            let more_titles = titles.update(i, titles[i].push(title));
            let new = chunks(context, 1024);
            let cut = if title.len() > 1024 {
                title.take(1024)
            } else {
                title
            };
            &&& prepared_contexts(more).len() == contexts.len()
            &&& prepared_contexts(more)[i] == prepared_contexts(contexts)[i] + new
            &&& prepared_titles(more_titles, more)[i] == prepared_titles(titles, contexts)[i]
                + Seq::new(new.len(), |k: int| cut)
            &&& j != i ==> prepared_contexts(more)[j] == prepared_contexts(contexts)[j]
                && prepared_titles(more_titles, more)[j] == prepared_titles(titles, contexts)[j]
            &&& contexts[j].len() == 0 ==> prepared_contexts(contexts)[j].len() == 0
                && prepared_titles(titles, contexts)[j].len() == 0
            &&& prepared_title_lists(Some(titles), contexts) == Some(
                prepared_titles(titles, contexts),
            )
            &&& prepared_title_lists(None, contexts) is None
        }),
{
    let list = contexts[i];
    let n = list.len() as int;
    let more = contexts.update(i, list.push(context));
    let more_titles = titles.update(i, titles[i].push(title));
    lemma_prefix_of_contexts(
        list,
        list.push(context),
        titles[i],
        titles[i].push(title),
        0,
        n,
    );
    assert(prepared_contexts(more)[i] == split_contexts(list.push(context), n + 1));
    assert(prepared_titles(more_titles, more)[i] == spread_titles(
        titles[i].push(title),
        list.push(context),
        n + 1,
    ));
    let cut = short(title);
    assert(repeated(cut, chunks(context, 1024).len()) =~= Seq::new(
        chunks(context, 1024).len(),
        |k: int| cut,
    ));
}

/// Questions are cut to 1024 characters, and nothing else is done to them here.
pub proof fn law_questions_are_cut(questions: Seq<Seq<char>>, i: int)
    requires
        0 <= i < questions.len(),
    ensures
        short_texts(questions).len() == questions.len(),
        short_texts(questions)[i] == if questions[i].len() > 1024 {
            questions[i].take(1024)
        } else {
            questions[i]
        },
{
}

/// The one warning about a text of more than 1024 characters, or none.
pub open spec fn part_warning(label: TextLabel, text: Seq<char>, action: LengthAction) -> Seq<
    WarningView,
> {
    if text.len() > 1024 {
        seq![
            WarningView {
                label,
                preview: text.take(20),
                length: text.len(),
                max_len: 1024,
                action,
            },
        ]
    } else {
        seq![]
    }
}

/// One more text that is too long is one more warning, after the others: with its
/// place, its first twenty characters and its length.
pub proof fn law_one_more_warning(list: Seq<Seq<char>>, text: Seq<char>, l: usize)
    requires
        list.len() < usize::MAX,
    ensures
        ({
            let n = list.len() as int;
            let more = list.push(text);
            &&& question_warnings(more, n + 1) == question_warnings(list, n) + part_warning(
                TextLabel::Question(n as usize),
                text,
                LengthAction::Truncating,
            )
            &&& title_warnings(more, n + 1) == title_warnings(list, n) + part_warning(
                TextLabel::Title(n as usize),
                text,
                LengthAction::Truncating,
            )
            &&& context_warnings(more, l as int, n + 1) == context_warnings(list, l as int, n)
                + part_warning(TextLabel::Context(l, n as usize), text, LengthAction::Splitting)
            &&& question_warnings(list, 0).len() == 0
            &&& title_warnings(list, 0).len() == 0
            &&& context_warnings(list, l as int, 0).len() == 0
        }),
{
    let n = list.len() as int;
    lemma_prefix_of_contexts(list, list.push(text), list, list.push(text), l as int, n);
}

proof fn lemma_prefix_of_lists(
    a: Lists,
    b: Lists,
    s: Option<Lists>,
    t: Option<Lists>,
    n: int,
)
    requires
        0 <= n <= a.len(),
        n <= b.len(),
        s is Some <==> t is Some,
        s is Some ==> n <= s->0.len() && n <= t->0.len(),
        forall|i: int| 0 <= i < n ==> #[trigger] a[i] == b[i],
        s is Some ==> forall|i: int| 0 <= i < n ==> #[trigger] (s->0)[i] == (t->0)[i],
    ensures
        list_warnings(a, s, n) == list_warnings(b, t, n),
    decreases n,
{
    if n > 0 {
        lemma_prefix_of_lists(a, b, s, t, n - 1);
        assert(a[n - 1] == b[n - 1]);
        if s is Some {
            assert((s->0)[n - 1] == (t->0)[n - 1]);
        }
    }
}

/// The warnings of an accepted request are those about its questions and then,
/// list by list, those about the titles and those about the contexts. With one
/// more question they are those from before for the questions, and for the lists.
pub proof fn law_warnings_of_a_request(
    questions: Seq<Seq<char>>,
    contexts: Lists,
    titles: Option<Lists>,
    list: Seq<Seq<char>>,
    title_list: Seq<Seq<char>>,
)
    requires
        prepare_error(questions, contexts, titles) is None,
    ensures
        prepare_warnings(questions, contexts, titles) == question_warnings(
            questions,
            questions.len() as int,
        ) + list_warnings(contexts, titles, contexts.len() as int),
        list_warnings(contexts, titles, 0).len() == 0,
        ({
            let n = contexts.len() as int;
            let more = contexts.push(list);
            &&& titles is None ==> list_warnings(more, None, n + 1) == list_warnings(
                contexts,
                None,
                n,
            ) + context_warnings(list, n, list.len() as int)
            &&& titles matches Some(t) ==> list_warnings(more, Some(t.push(title_list)), n + 1)
                == list_warnings(contexts, Some(t), n) + title_warnings(
                title_list,
                title_list.len() as int,
            ) + context_warnings(list, n, list.len() as int)
        }),
{
    law_accepted_requests(questions, contexts, titles);
    let n = contexts.len() as int;
    let more = contexts.push(list);
    match titles {
        None => {
            lemma_prefix_of_lists(contexts, more, None, None, n);
            let head = list_warnings(contexts, None, n);
            assert(head + Seq::<WarningView>::empty() == head);
        },
        Some(t) => {
            lemma_prefix_of_lists(contexts, more, Some(t), Some(t.push(title_list)), n);
        },
    }
}

/// The warnings of a request that is refused are those that came up before what
/// is wrong was found.
pub proof fn law_warnings_of_a_refused_request(
    questions: Seq<Seq<char>>,
    contexts: Lists,
    titles: Option<Lists>,
    e: RequestError,
)
    requires
        prepare_error(questions, contexts, titles) == Some(e),
        questions.len() <= usize::MAX,
        contexts.len() <= usize::MAX,
    ensures
        prepare_warnings(questions, contexts, titles) == match e {
            RequestError::QuestionsAndContextsDiffer => seq![],
            RequestError::EmptyQuestion(i) => question_warnings(questions, i as int),
            RequestError::TitlesAndQuestionsDiffer => question_warnings(
                questions,
                questions.len() as int,
            ),
            RequestError::TitleListLength { list, .. } => question_warnings(
                questions,
                questions.len() as int,
            ) + list_warnings(contexts, titles, list as int),
        },
{
    lemma_first_empty_is_first(questions, 0);
    if titles is Some && questions.len() == contexts.len() {
        lemma_first_uneven_is_first(contexts, titles->0, 0);
    }
    let all = question_warnings(questions, questions.len() as int);
    assert(all + Seq::<WarningView>::empty() == all);
}

/// What bringing a request into shape gives: the error for what is wrong with it,
/// if anything, or else the questions cut to 1024 characters, the chunks of the
/// contexts and the titles for them; and the warnings come after those from before.
pub proof fn law_preparing_a_request(
    question: OneOrMany<MultipleQuestions>,
    context: OneOrMany<MultipleContexts>,
    title: Option<OneOrMany<MultipleTitles>>,
    warnings: &mut Vec<LengthWarning>,
    res: Result<PreparedProcessParams, RequestError>,
    i: int,
)
    requires
        call_ensures(prepare_process_params, (question, context, title, warnings), res),
    ensures
        ({
            let q = given_questions(question);
            let c = given_contexts(context);
            let t = given_titles(title);
            &&& warning_views(final(warnings)@) == warning_views(old(warnings)@)
                + prepare_warnings(q, c, t)
            &&& res is Err <==> prepare_error(q, c, t) is Some
            &&& res is Err ==> prepare_error(q, c, t) == Some(res->Err_0)
            &&& res is Ok ==> {
                let (questions, contexts, titles) = res->Ok_0;
                &&& questions@.len() == q.len()
                &&& 0 <= i < q.len() ==> questions@[i]@ == if q[i].len() > 1024 {
                    q[i].take(1024)
                } else {
                    q[i]
                }
                &&& lists(contexts@) == prepared_contexts(c)
                &&& titles is Some <==> t is Some
                &&& t is Some ==> lists((titles->0)@) == prepared_titles(t->0, c)
            }
        }),
{
    let q = given_questions(question);
    if res is Ok {
        let questions = res->Ok_0.0@;
        assert(texts(questions).len() == questions.len());
        if 0 <= i < q.len() {
            assert(texts(questions)[i] == questions[i]@);
        }
    }
}

} // verus!
