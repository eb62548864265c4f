//! Sentence-level rounding of token predictions.
//!
//! The network gives each token a probability of being kept. Rounding turns
//! these into one decision per sentence: a sentence is kept as a whole where
//! the mean over its tokens exceeds the threshold.

use crate::error::SentenceError;
use crate::score::{one_score, zero_score, Score};
use crate::spans::Offsets;
use crate::text::same_text;
use vstd::prelude::*;

verus! {

/// What is averaged over the tokens of a sentence.
#[derive(Clone, Copy, Debug, PartialEq, Eq, Structural)]
pub enum SentenceRoundingMode {
    /// Each token's own decision: 1 where its probability exceeds the
    /// threshold, else 0.
    DecisionAverage,
    /// The tokens' probabilities.
    ProbabilityAverage,
}

/// The name of a mode.
pub open spec fn mode_name(mode: SentenceRoundingMode) -> Seq<char> {
    match mode {
        SentenceRoundingMode::ProbabilityAverage => "probability_average"@,
        SentenceRoundingMode::DecisionAverage => "decision_average"@,
    }
}

/// The mode with the given name, if any has it.
pub open spec fn mode_named(name: Seq<char>) -> Option<SentenceRoundingMode> {
    if name == "probability_average"@ {
        Some(SentenceRoundingMode::ProbabilityAverage)
    } else if name == "decision_average"@ {
        Some(SentenceRoundingMode::DecisionAverage)
    } else {
        None
    }
}

/// The message for a name that no mode has.
pub open spec fn invalid_mode_message(name: Seq<char>) -> Seq<char> {
    "Invalid rounding mode: '"@ + name
        + "'. Valid options are: probability_average, decision_average"@
}

impl SentenceRoundingMode {
    /// The mode's name.
    pub fn to_string(&self) -> (name: String)
        ensures
            name@ == mode_name(*self),
    {
        match self {
            Self::ProbabilityAverage => "probability_average".to_owned(),
            Self::DecisionAverage => "decision_average".to_owned(),
        }
    }

    /// The mode with the given name, or a message that lists the names.
    pub fn from_str(s: &str) -> (mode: Result<Self, String>)
        ensures
            match mode {
                Ok(m) => mode_named(s@) == Some(m),
                Err(message) => mode_named(s@) is None && message@ == invalid_mode_message(s@),
            },
    {
        if same_text(s, "probability_average") {
            Ok(Self::ProbabilityAverage)
        } else if same_text(s, "decision_average") {
            Ok(Self::DecisionAverage)
        } else {
            let mut message = "Invalid rounding mode: '".to_owned();
            message.append(s);
            message.append("'. Valid options are: probability_average, decision_average");
            Err(message)
        }
    }
}

impl std::str::FromStr for SentenceRoundingMode {
    type Err = String;

    fn from_str(s: &str) -> (mode: Result<Self, String>)
        ensures
            match mode {
                Ok(m) => mode_named(s@) == Some(m),
                Err(message) => mode_named(s@) is None && message@ == invalid_mode_message(s@),
            },
    {
        SentenceRoundingMode::from_str(s)
    }
}

/// A mode's name leads back to the mode, and no other name leads to it.
pub proof fn law_names_lead_back(mode: SentenceRoundingMode, name: Seq<char>)
    ensures
        mode_named(mode_name(mode)) == Some(mode),
        mode_named(name) == Some(mode) ==> name == mode_name(mode),
{
    reveal_strlit("probability_average");
    reveal_strlit("decision_average");
    assert("probability_average"@.len() != "decision_average"@.len());
}

/// What is wrong with one sentence's coordinates.
pub open spec fn coord_error(coord: Offsets, n_tokens: int) -> Option<SentenceError> {
    if coord.0 >= coord.1 {
        Some(SentenceError::EmptySentence { start: coord.0, end: coord.1 })
    } else if coord.1 > n_tokens {
        Some(SentenceError::PastLastToken { end: coord.1, n_tokens: n_tokens as usize })
    } else {
        None
    }
}

/// What is wrong first with the coordinates from the `i`-th on.
pub open spec fn first_coord_error(
    coords: Seq<Offsets>,
    n_tokens: int,
    i: int,
) -> Option<SentenceError>
    decreases coords.len() - i,
{
    if i >= coords.len() {
        None
    } else if coord_error(coords[i], n_tokens) is Some {
        coord_error(coords[i], n_tokens)
    } else {
        first_coord_error(coords, n_tokens, i + 1)
    }
}

/// What is wrong first with the coordinates of the sentences, if anything.
pub open spec fn coords_error(coords: Seq<Offsets>, n_tokens: int) -> Option<SentenceError> {
    if coords.len() == 0 {
        Some(SentenceError::NoSentences)
    } else {
        first_coord_error(coords, n_tokens, 0)
    }
}

/// Every sentence has a token, and only tokens that exist.
pub open spec fn coords_valid(coords: Seq<Offsets>, n_tokens: int) -> bool {
    forall|k: int| 0 <= k < coords.len() ==> coord_error(#[trigger] coords[k], n_tokens) is None
}

/// What a token adds to its sentence's sum.
pub open spec fn contribution(
    prediction: Score,
    threshold: Score,
    mode: SentenceRoundingMode,
) -> Score {
    match mode {
        SentenceRoundingMode::ProbabilityAverage => prediction,
        SentenceRoundingMode::DecisionAverage => if prediction.gt(threshold) {
            one_score()
        } else {
            zero_score()
        },
    }
}

/// What the tokens from `start` to `end` add up to, in order. A prediction that
/// is not a number is passed over.
pub open spec fn addends(
    predictions: Seq<Score>,
    start: int,
    end: int,
    threshold: Score,
    mode: SentenceRoundingMode,
) -> Seq<Score>
    decreases end - start,
{
    if end <= start {
        seq![]
    } else {
        let before = addends(predictions, start, end - 1, threshold, mode);
        if predictions[end - 1].is_nan() {
            before
        } else {
            before.push(contribution(predictions[end - 1], threshold, mode))
        }
    }
}

/// Whether `m` is a mean of `values`: zero for no values, else what `average`
/// can return for them.
pub open spec fn is_mean<F: Fn(&Vec<Score>) -> Score>(
    average: F,
    values: Seq<Score>,
    m: Score,
) -> bool {
    if values.len() == 0 {
        m == zero_score()
    } else {
        exists|v: Vec<Score>| v@ == values && call_ensures(average, (&v,), m)
    }
}

/// Whether `means` holds a mean for each sentence.
pub open spec fn are_means<F: Fn(&Vec<Score>) -> Score>(
    average: F,
    predictions: Seq<Score>,
    coords: Seq<Offsets>,
    threshold: Score,
    mode: SentenceRoundingMode,
    means: Seq<Score>,
) -> bool {
    &&& means.len() == coords.len()
    &&& forall|k: int|
        0 <= k < coords.len() ==> is_mean(
            average,
            addends(predictions, coords[k].0 as int, coords[k].1 as int, threshold, mode),
            #[trigger] means[k],
        )
}

/// Whether a sentence other than the first has a mean above the threshold.
pub open spec fn another_exceeds(means: Seq<Score>, threshold: Score) -> bool {
    exists|k: int| 1 <= k < means.len() && (#[trigger] means[k]).gt(threshold)
}

/// Whether the sentence `k` is kept: its mean exceeds the threshold, or it is
/// the first one, which is always to be selected, and another one's does.
pub open spec fn sentence_kept(
    means: Seq<Score>,
    threshold: Score,
    always_select_first: bool,
    k: int,
) -> bool {
    means[k].gt(threshold) || (k == 0 && always_select_first && another_exceeds(means, threshold))
}

/// Whether the token `t` lies in a sentence that is kept.
pub open spec fn token_kept(
    coords: Seq<Offsets>,
    means: Seq<Score>,
    threshold: Score,
    always_select_first: bool,
    t: int,
) -> bool {
    exists|k: int|
        0 <= k < coords.len() && (#[trigger] coords[k]).0 <= t < coords[k].1 && sentence_kept(
            means,
            threshold,
            always_select_first,
            k,
        )
}

/// One flag per token: whether it is kept.
pub open spec fn keep_mask(
    n_tokens: nat,
    coords: Seq<Offsets>,
    means: Seq<Score>,
    threshold: Score,
    always_select_first: bool,
) -> Seq<bool> {
    Seq::new(n_tokens, |t: int| token_kept(coords, means, threshold, always_select_first, t))
}

/// A result with the flags as a sequence.
pub open spec fn mask_view(res: Result<Vec<bool>, SentenceError>) -> Result<
    Seq<bool>,
    SentenceError,
> {
    match res {
        Ok(mask) => Ok(mask@),
        Err(e) => Err(e),
    }
}

/// Whether rounding can come out as `outcome`: what is wrong first with the
/// coordinates, or else the flags for means that `average` can give.
pub open spec fn rounds_to<F: Fn(&Vec<Score>) -> Score>(
    average: F,
    predictions: Seq<Score>,
    coords: Seq<Offsets>,
    threshold: Score,
    always_select_first: bool,
    mode: SentenceRoundingMode,
    outcome: Result<Seq<bool>, SentenceError>,
) -> bool {
    match coords_error(coords, predictions.len() as int) {
        Some(e) => outcome == Err::<Seq<bool>, SentenceError>(e),
        None => exists|means: Seq<Score>|
            are_means(average, predictions, coords, threshold, mode, means) && outcome == Ok::<
                Seq<bool>,
                SentenceError,
            >(#[trigger] keep_mask(
                predictions.len(),
                coords,
                means,
                threshold,
                always_select_first,
            )),
    }
}

pub proof fn lemma_no_coord_error(coords: Seq<Offsets>, n_tokens: int, i: int)
    requires
        0 <= i <= coords.len(),
    ensures
        first_coord_error(coords, n_tokens, i) is None <==> forall|k: int|
            i <= k < coords.len() ==> coord_error(#[trigger] coords[k], n_tokens) is None,
    decreases coords.len() - i,
{
    if i < coords.len() {
        lemma_no_coord_error(coords, n_tokens, i + 1);
    }
}

/// Checks that there are sentences, each with at least one token and none past
/// the last.
pub fn check_coords(coords: &[Offsets], n_tokens: usize) -> (res: Result<(), SentenceError>)
    ensures
        match res {
            Ok(_) => {
                &&& coords_error(coords@, n_tokens as int) is None
                &&& coords@.len() > 0
                &&& coords_valid(coords@, n_tokens as int)
            },
            Err(e) => coords_error(coords@, n_tokens as int) == Some(e),
        },
{
    if coords.is_empty() {
        return Err(SentenceError::NoSentences);
    }
    let mut i: usize = 0;
    while i < coords.len()
        invariant
            coords@.len() > 0,
            i <= coords@.len(),
            coords_error(coords@, n_tokens as int) == first_coord_error(
                coords@,
                n_tokens as int,
                i as int,
            ),
        decreases coords@.len() - i,
    {
        let (start, end) = coords[i];
        if start >= end {
            return Err(SentenceError::EmptySentence { start, end });
        }
        if end > n_tokens {
            return Err(SentenceError::PastLastToken { end, n_tokens });
        }
        i += 1;
    }
    proof {
        lemma_no_coord_error(coords@, n_tokens as int, 0);
    }
    Ok(())
}

/// The values to average for the tokens from `start` to `end`.
pub fn sentence_addends(
    token_predictions: &[Score],
    start: usize,
    end: usize,
    threshold: Score,
    rounding_mode: &SentenceRoundingMode,
) -> (values: Vec<Score>)
    requires
        start <= end <= token_predictions@.len(),
    ensures
        values@ == addends(
            token_predictions@,
            start as int,
            end as int,
            threshold,
            *rounding_mode,
        ),
{
    let mut values: Vec<Score> = Vec::new();
    let mut i: usize = start;
    while i < end
        invariant
            start <= i <= end <= token_predictions@.len(),
            values@ == addends(
                token_predictions@,
                start as int,
                i as int,
                threshold,
                *rounding_mode,
            ),
        decreases end - i,
    {
        let prediction = token_predictions[i];
        if !prediction.not_a_number() {
            let value = match rounding_mode {
                SentenceRoundingMode::ProbabilityAverage => prediction,
                SentenceRoundingMode::DecisionAverage => if prediction.exceeds(threshold) {
                    Score::one()
                } else {
                    Score::zero()
                },
            };
            values.push(value);
        }
        i += 1;
    }
    values
}

/// The flags of the tokens, from the means of the sentences.
pub fn round_means(
    n_tokens: usize,
    coords: &[Offsets],
    sentence_means: Vec<Score>,
    threshold: Score,
    always_select_first: bool,
) -> (mask: Vec<bool>)
    requires
        coords@.len() == sentence_means@.len(),
        coords_valid(coords@, n_tokens as int),
    ensures
        mask@ == keep_mask(
            n_tokens as nat,
            coords@,
            sentence_means@,
            threshold,
            always_select_first,
        ),
{
    let ghost means = sentence_means@;
    let n = sentence_means.len();
    let mut first_by_rule: bool = false;
    if always_select_first {
        let mut k: usize = 1;
        while k < n
            invariant
                n == means.len(),
                sentence_means@ == means,
                1 <= k,
                n > 0 ==> k <= n,
                n == 0 ==> k == 1,
                first_by_rule == exists|j: int| 1 <= j < k && (#[trigger] means[j]).gt(threshold),
            decreases n - k,
        {
            if sentence_means[k].exceeds(threshold) {
                first_by_rule = true;
                assert(means[k as int].gt(threshold));
            }
            k += 1;
        }
        assert(first_by_rule == another_exceeds(means, threshold)) by {
            if n == 0 {
                assert(k == 1);
            }
        }
    }

    let mut mask: Vec<bool> = vec![false; n_tokens];
    let ghost full = keep_mask(n_tokens as nat, coords@, means, threshold, always_select_first);
    let mut k: usize = 0;
    while k < n
        invariant
            n == means.len() == coords@.len(),
            k <= n,
            mask@.len() == n_tokens,
            coords_valid(coords@, n_tokens as int),
            sentence_means@ == means,
            first_by_rule == (always_select_first && another_exceeds(means, threshold)),
            forall|t: int|
                0 <= t < n_tokens ==> (#[trigger] mask@[t] <==> exists|j: int|
                    0 <= j < k && (#[trigger] coords@[j]).0 <= t < coords@[j].1 && sentence_kept(
                        means,
                        threshold,
                        always_select_first,
                        j,
                    )),
        decreases n - k,
    {
        let ghost before = mask@;
        if sentence_means[k].exceeds(threshold) || (k == 0 && first_by_rule) {
            let (start, end) = coords[k];
            assert(coord_error(coords@[k as int], n_tokens as int) is None);
            let mut t: usize = start;
            while t < end
                invariant
                    start <= t <= end <= n_tokens,
                    mask@.len() == n_tokens,
                    before.len() == n_tokens,
                    forall|u: int|
                        0 <= u < n_tokens ==> (#[trigger] mask@[u] <==> before[u] || start <= u
                            < t),
                decreases end - t,
            {
                mask.set(t, true);
                t += 1;
            }
            assert forall|t: int| 0 <= t < n_tokens implies (#[trigger] mask@[t] <==> exists|j: int|
                0 <= j < k + 1 && (#[trigger] coords@[j]).0 <= t < coords@[j].1 && sentence_kept(
                    means,
                    threshold,
                    always_select_first,
                    j,
                )) by {
                if start <= t < end {
                    assert(coords@[k as int].0 <= t < coords@[k as int].1);
                }
            }
        } else {
            assert(!sentence_kept(means, threshold, always_select_first, k as int));
        }
        k += 1;
    }
    assert(mask@ =~= full);
    mask
}

/// Rounds token predictions sentence by sentence.
///
/// A sentence is kept if the mean over its tokens exceeds `threshold`. If
/// `always_select_first` is set, the first sentence is kept as well if another
/// sentence is. `average` computes the mean of the given values, of which there
/// is at least one.
pub fn sentence_rounding<F: Fn(&Vec<Score>) -> Score>(
    token_predictions: &[Score],
    sentences_token_coords: &[Offsets],
    threshold: Score,
    always_select_first: bool,
    rounding_mode: &SentenceRoundingMode,
    average: F,
) -> (res: Result<Vec<bool>, SentenceError>)
    requires
        forall|v: Vec<Score>| v@.len() > 0 ==> call_requires(average, (&v,)),
    ensures
        rounds_to(
            average,
            token_predictions@,
            sentences_token_coords@,
            threshold,
            always_select_first,
            *rounding_mode,
            mask_view(res),
        ),
{
    let n_tokens = token_predictions.len();
    match check_coords(sentences_token_coords, n_tokens) {
        Ok(_) => {},
        Err(e) => {
            return Err(e);
        },
    }
    let n = sentences_token_coords.len();
    let mut means: Vec<Score> = Vec::with_capacity(n);
    let mut k: usize = 0;
    while k < n
        invariant
            n == sentences_token_coords@.len(),
            n_tokens == token_predictions@.len(),
            k <= n,
            means@.len() == k,
            forall|v: Vec<Score>| v@.len() > 0 ==> call_requires(average, (&v,)),
            coords_valid(sentences_token_coords@, n_tokens as int),
            forall|j: int|
                0 <= j < k ==> is_mean(
                    average,
                    addends(
                        token_predictions@,
                        sentences_token_coords@[j].0 as int,
                        sentences_token_coords@[j].1 as int,
                        threshold,
                        *rounding_mode,
                    ),
                    #[trigger] means@[j],
                ),
        decreases n - k,
    {
        let (start, end) = sentences_token_coords[k];
        assert(coord_error(sentences_token_coords@[k as int], n_tokens as int) is None);
        let values = sentence_addends(token_predictions, start, end, threshold, rounding_mode);
        let mean = if values.is_empty() {
            Score::zero()
        } else {
            average(&values)
        };
        means.push(mean);
        k += 1;
    }
    let ghost all_means = means@;
    let mask = round_means(
        n_tokens,
        sentences_token_coords,
        means,
        threshold,
        always_select_first,
    );
    assert(are_means(
        average,
        token_predictions@,
        sentences_token_coords@,
        threshold,
        *rounding_mode,
        all_means,
    ));
    Ok(mask)
}

/// Without the rule for the first sentence, a sentence is kept exactly if its
/// mean exceeds the threshold. So nothing is kept where the threshold is not a
/// number.
pub proof fn law_kept_iff_mean_exceeds(means: Seq<Score>, threshold: Score, k: int)
    requires
        0 <= k < means.len(),
    ensures
        sentence_kept(means, threshold, false, k) <==> means[k].gt(threshold),
{
}

/// If the first sentence is always to be selected and another sentence is kept,
/// the first sentence is kept, whatever its mean.
pub proof fn law_first_is_kept_with_another(means: Seq<Score>, threshold: Score, k: int)
    requires
        1 <= k < means.len(),
        sentence_kept(means, threshold, true, k),
    ensures
        sentence_kept(means, threshold, true, 0),
{
}

/// The rule for the first sentence changes nothing unless another sentence
/// exceeds the threshold, and never anything but the first sentence.
pub proof fn law_first_is_not_kept_alone(means: Seq<Score>, threshold: Score, k: int)
    requires
        0 <= k < means.len(),
        k != 0 || !another_exceeds(means, threshold),
    ensures
        sentence_kept(means, threshold, true, k) == sentence_kept(means, threshold, false, k),
{
}

/// Sentences do not overlap.
pub open spec fn coords_disjoint(coords: Seq<Offsets>) -> bool {
    forall|j: int, k: int|
        0 <= j < k < coords.len() ==> (#[trigger] coords[j]).1 <= (#[trigger] coords[k]).0
}

/// A sentence is kept or dropped as a whole: its tokens carry its decision.
pub proof fn law_sentence_is_kept_whole(
    n_tokens: nat,
    coords: Seq<Offsets>,
    means: Seq<Score>,
    threshold: Score,
    always_select_first: bool,
    k: int,
    t: int,
)
    requires
        coords_valid(coords, n_tokens as int),
        coords_disjoint(coords),
        0 <= k < coords.len(),
        coords[k].0 <= t < coords[k].1,
    ensures
        0 <= t < n_tokens,
        keep_mask(n_tokens, coords, means, threshold, always_select_first)[t] == sentence_kept(
            means,
            threshold,
            always_select_first,
            k,
        ),
{
    assert(coord_error(coords[k], n_tokens as int) is None);
    if token_kept(coords, means, threshold, always_select_first, t) {
        let j = choose|j: int|
            0 <= j < coords.len() && (#[trigger] coords[j]).0 <= t < coords[j].1 && sentence_kept(
                means,
                threshold,
                always_select_first,
                j,
            );
        if j < k {
            assert(coords[j].1 <= coords[k].0);
        } else if k < j {
            assert(coords[k].1 <= coords[j].0);
        }
    }
}

/// A token that lies in no sentence is not kept.
pub proof fn law_tokens_outside_are_dropped(
    n_tokens: nat,
    coords: Seq<Offsets>,
    means: Seq<Score>,
    threshold: Score,
    always_select_first: bool,
    t: int,
)
    requires
        0 <= t < n_tokens,
        forall|k: int|
            0 <= k < coords.len() ==> !((#[trigger] coords[k]).0 <= t < coords[k].1),
    ensures
        !keep_mask(n_tokens, coords, means, threshold, always_select_first)[t],
{
}

/// Without a mean above the threshold nothing is kept, whether or not the first
/// sentence is always to be selected.
pub proof fn law_nothing_is_kept_below_the_threshold(
    n_tokens: nat,
    coords: Seq<Offsets>,
    means: Seq<Score>,
    threshold: Score,
    always_select_first: bool,
    t: int,
)
    requires
        0 <= t < n_tokens,
        means.len() == coords.len(),
        forall|k: int| 0 <= k < means.len() ==> !(#[trigger] means[k]).gt(threshold),
    ensures
        !keep_mask(n_tokens, coords, means, threshold, always_select_first)[t],
{
    if token_kept(coords, means, threshold, always_select_first, t) {
        let k = choose|k: int|
            0 <= k < coords.len() && (#[trigger] coords[k]).0 <= t < coords[k].1 && sentence_kept(
                means,
                threshold,
                always_select_first,
                k,
            );
        assert(!means[k].gt(threshold));
    }
}

/// Whether a score is a number from 0 to 1.
pub open spec fn is_probability(p: Score) -> bool {
    zero_score().le(p) && p.le(one_score())
}

/// Whether the values of one list are probabilities, and those of the other too
/// and nowhere lower.
pub open spec fn nowhere_lower(values: Seq<Score>, higher: Seq<Score>) -> bool {
    &&& values.len() == higher.len()
    &&& forall|k: int|
        0 <= k < values.len() ==> is_probability(#[trigger] values[k]) && is_probability(higher[k])
            && values[k].le(higher[k])
}

/// Whether the mean of probabilities is a number and does not fall where none of
/// them does. It is so of sums and quotients that are rounded.
pub open spec fn average_is_monotone<F: Fn(&Vec<Score>) -> Score>(average: F) -> bool {
    forall|values: Seq<Score>, higher: Seq<Score>, m: Score, n: Score|
        values.len() > 0 && nowhere_lower(values, higher) && #[trigger] is_mean(average, values, m)
            && #[trigger] is_mean(average, higher, n) ==> m.le(n)
}

/// A higher threshold leaves as many values to average, and none of them higher.
proof fn lemma_addends_by_threshold(
    predictions: Seq<Score>,
    start: int,
    end: int,
    low: Score,
    high: Score,
    mode: SentenceRoundingMode,
)
    requires
        0 <= start <= end <= predictions.len(),
        low.le(high),
        forall|k: int|
            0 <= k < predictions.len() ==> (#[trigger] predictions[k]).is_nan() || is_probability(
                predictions[k],
            ),
    ensures
        nowhere_lower(
            addends(predictions, start, end, high, mode),
            addends(predictions, start, end, low, mode),
        ),
    decreases end - start,
{
    if start < end {
        lemma_addends_by_threshold(predictions, start, end - 1, low, high, mode);
        assert(predictions[end - 1].is_nan() || is_probability(predictions[end - 1]));
    }
}

/// Raising the threshold never keeps a token that was dropped before, whatever
/// is averaged and whether or not the first sentence is always to be selected.
pub proof fn law_higher_threshold_keeps_no_more<F: Fn(&Vec<Score>) -> Score>(
    average: F,
    predictions: Seq<Score>,
    coords: Seq<Offsets>,
    low: Score,
    high: Score,
    always_select_first: bool,
    mode: SentenceRoundingMode,
    kept_at_low: Seq<bool>,
    kept_at_high: Seq<bool>,
    t: int,
)
    requires
        average_is_monotone(average),
        forall|k: int|
            0 <= k < predictions.len() ==> (#[trigger] predictions[k]).is_nan() || is_probability(
                predictions[k],
            ),
        low.le(high),
        rounds_to(average, predictions, coords, low, always_select_first, mode, Ok(kept_at_low)),
        rounds_to(average, predictions, coords, high, always_select_first, mode, Ok(kept_at_high)),
        0 <= t < predictions.len(),
    ensures
        kept_at_low.len() == kept_at_high.len() == predictions.len(),
        kept_at_high[t] ==> kept_at_low[t],
{
    let n = predictions.len();
    let m = choose|means: Seq<Score>|
        are_means(average, predictions, coords, low, mode, means) && Ok::<
            Seq<bool>,
            SentenceError,
        >(kept_at_low) == Ok::<Seq<bool>, SentenceError>(
            #[trigger] keep_mask(n, coords, means, low, always_select_first),
        );
    let h = choose|means: Seq<Score>|
        are_means(average, predictions, coords, high, mode, means) && Ok::<
            Seq<bool>,
            SentenceError,
        >(kept_at_high) == Ok::<Seq<bool>, SentenceError>(
            #[trigger] keep_mask(n, coords, means, high, always_select_first),
        );
    lemma_no_coord_error(coords, n as int, 0);
    assert forall|k: int| 0 <= k < coords.len() && (#[trigger] h[k]).gt(high) implies m[k].gt(
        low,
    ) by {
        let start = coords[k].0 as int;
        let end = coords[k].1 as int;
        assert(coord_error(coords[k], n as int) is None);
        lemma_addends_by_threshold(predictions, start, end, low, high, mode);
        assert(is_mean(average, addends(predictions, start, end, high, mode), h[k]));
        assert(is_mean(average, addends(predictions, start, end, low, mode), m[k]));
        assert(h[k].le(m[k]));
    }
    if another_exceeds(h, high) {
        let k = choose|k: int| 1 <= k < h.len() && (#[trigger] h[k]).gt(high);
        assert(m[k].gt(low));
    }
    if token_kept(coords, h, high, always_select_first, t) {
        let k = choose|k: int|
            0 <= k < coords.len() && (#[trigger] coords[k]).0 <= t < coords[k].1 && sentence_kept(
                h,
                high,
                always_select_first,
                k,
            );
        assert(sentence_kept(m, low, always_select_first, k));
        assert(coords[k].0 <= t < coords[k].1);
    }
}

/// Whether the mean of given values is always the same.
pub open spec fn average_is_single<F: Fn(&Vec<Score>) -> Score>(average: F) -> bool {
    forall|values: Seq<Score>, m: Score, n: Score| #[trigger]
        is_mean(average, values, m) && #[trigger] is_mean(average, values, n) ==> m == n
}

/// Where means are always the same, rounding comes out in one way only.
pub proof fn law_rounding_is_determined<F: Fn(&Vec<Score>) -> Score>(
    average: F,
    predictions: Seq<Score>,
    coords: Seq<Offsets>,
    threshold: Score,
    always_select_first: bool,
    mode: SentenceRoundingMode,
    a: Result<Seq<bool>, SentenceError>,
    b: Result<Seq<bool>, SentenceError>,
)
    requires
        average_is_single(average),
        rounds_to(average, predictions, coords, threshold, always_select_first, mode, a),
        rounds_to(average, predictions, coords, threshold, always_select_first, mode, b),
    ensures
        a == b,
{
    if coords_error(coords, predictions.len() as int) is None {
        let n = predictions.len();
        let x = choose|means: Seq<Score>|
            are_means(average, predictions, coords, threshold, mode, means) && a == Ok::<
                Seq<bool>,
                SentenceError,
            >(#[trigger] keep_mask(n, coords, means, threshold, always_select_first));
        let y = choose|means: Seq<Score>|
            are_means(average, predictions, coords, threshold, mode, means) && b == Ok::<
                Seq<bool>,
                SentenceError,
            >(#[trigger] keep_mask(n, coords, means, threshold, always_select_first));
        assert forall|k: int| 0 <= k < x.len() implies #[trigger] x[k] == y[k] by {
            let values = addends(
                predictions,
                coords[k].0 as int,
                coords[k].1 as int,
                threshold,
                mode,
            );
            assert(is_mean(average, values, x[k]));
            assert(is_mean(average, values, y[k]));
        }
        assert(x =~= y);
    }
}

/// What the tokens of a sentence add up to: one value for each prediction that is
/// a number, in order. Where probabilities are averaged it is the prediction
/// itself; where decisions are, it is 1 exactly if the prediction exceeds the
/// threshold, and 0 if it is at or below it.
pub proof fn law_each_number_counts_once(
    token_predictions: &[Score],
    start: usize,
    end: usize,
    threshold: Score,
    rounding_mode: &SentenceRoundingMode,
    values: Vec<Score>,
    k: int,
)
    requires
        start <= end <= token_predictions@.len(),
        call_ensures(
            sentence_addends,
            (token_predictions, start, end, threshold, rounding_mode),
            values,
        ),
    ensures
        ({
            let numbers = token_predictions@.subrange(start as int, end as int).filter(
                |p: Score| p.bits <= 0x7f80_0000 || 0x8000_0000 <= p.bits <= 0xff80_0000,
            );
            &&& values@.len() == numbers.len()
            &&& 0 <= k < numbers.len() ==> match *rounding_mode {
                SentenceRoundingMode::ProbabilityAverage => values@[k] == numbers[k],
                SentenceRoundingMode::DecisionAverage => {
                    &&& values@[k].bits == 0x3f80_0000 <==> numbers[k].gt(threshold)
                    &&& values@[k].bits == 0 <==> !numbers[k].gt(threshold)
                    &&& threshold.bits <= 0x7f80_0000 && numbers[k].bits <= 0x7f80_0000 ==> (
                    values@[k].bits == 0x3f80_0000 <==> numbers[k].bits > threshold.bits)
                },
            }
        }),
{
    let mode = *rounding_mode;
    lemma_addends_are_numbers(
        token_predictions@,
        start as int,
        end as int,
        threshold,
        mode,
    );
}

proof fn lemma_addends_are_numbers(
    predictions: Seq<Score>,
    start: int,
    end: int,
    threshold: Score,
    mode: SentenceRoundingMode,
)
    requires
        0 <= start <= end <= predictions.len(),
    ensures
        ({
            let numbers = predictions.subrange(start, end).filter(
                |p: Score| p.bits <= 0x7f80_0000 || 0x8000_0000 <= p.bits <= 0xff80_0000,
            );
            let values = addends(predictions, start, end, threshold, mode);
            &&& values.len() == numbers.len()
            &&& forall|k: int|
                0 <= k < numbers.len() ==> #[trigger] values[k] == contribution(
                    numbers[k],
                    threshold,
                    mode,
                )
        }),
    decreases end - start,
{
    reveal(Seq::filter);
    let part = predictions.subrange(start, end);
    if start < end {
        lemma_addends_are_numbers(predictions, start, end - 1, threshold, mode);
        assert(part.drop_last() == predictions.subrange(start, end - 1));
        assert(part.last() == predictions[end - 1]);
    }
}

/// The mean of no values is 0, and any other is what the average gives for the
/// values as they are.
pub proof fn law_means_come_from_the_average<F: Fn(&Vec<Score>) -> Score>(
    average: F,
    values: Vec<Score>,
    m: Score,
)
    ensures
        values@.len() == 0 ==> (is_mean(average, values@, m) <==> m.bits == 0),
        values@.len() > 0 && call_ensures(average, (&values,), m) ==> is_mean(average, values@, m),
        values@.len() > 0 && is_mean(average, values@, m) ==> exists|v: Vec<Score>|
            v@ == values@ && call_ensures(average, (&v,), m),
{
}

/// The means by which rounding came out, one for each sentence. There is one
/// flag per token, and a token is kept exactly if it lies in a sentence whose
/// mean exceeds the threshold, or in the first sentence where that is always to
/// be selected and the mean of another exceeds it.
pub proof fn law_means_decide<F: Fn(&Vec<Score>) -> Score>(
    token_predictions: &[Score],
    coords: &[Offsets],
    threshold: Score,
    always_select_first: bool,
    rounding_mode: &SentenceRoundingMode,
    average: F,
    mask: Vec<bool>,
) -> (means: Seq<Score>)
    requires
        call_ensures(
            sentence_rounding::<F>,
            (
                token_predictions,
                coords,
                threshold,
                always_select_first,
                rounding_mode,
                average,
            ),
            Ok(mask),
        ),
    ensures
        coords@.len() > 0,
        forall|k: int|
            0 <= k < coords@.len() ==> (#[trigger] coords@[k]).0 < coords@[k].1
                <= token_predictions@.len(),
        means.len() == coords@.len(),
        forall|k: int|
            0 <= k < coords@.len() ==> is_mean(
                average,
                addends(
                    token_predictions@,
                    coords@[k].0 as int,
                    coords@[k].1 as int,
                    threshold,
                    *rounding_mode,
                ),
                #[trigger] means[k],
            ),
        mask@.len() == token_predictions@.len(),
        forall|t: int|
            0 <= t < mask@.len() ==> (#[trigger] mask@[t] <==> exists|k: int|
                0 <= k < coords@.len() && (#[trigger] coords@[k]).0 <= t < coords@[k].1 && (
                means[k].gt(threshold) || (k == 0 && always_select_first && exists|j: int|
                    1 <= j < means.len() && (#[trigger] means[j]).gt(threshold)))),
{
    let n = token_predictions@.len();
    let means = choose|means: Seq<Score>|
        are_means(average, token_predictions@, coords@, threshold, *rounding_mode, means) && Ok::<
            Seq<bool>,
            SentenceError,
        >(mask@) == Ok::<Seq<bool>, SentenceError>(
            #[trigger] keep_mask(n, coords@, means, threshold, always_select_first),
        );
    lemma_no_coord_error(coords@, n as int, 0);
    assert(mask_view(Ok(mask)) == Ok::<Seq<bool>, SentenceError>(mask@));
    assert forall|k: int| 0 <= k < coords@.len() implies (#[trigger] coords@[k]).0 < coords@[k].1
        <= n by {
        assert(coord_error(coords@[k], n as int) is None);
    }
    assert forall|t: int| 0 <= t < n implies (#[trigger] mask@[t] <==> exists|k: int|
        0 <= k < coords@.len() && (#[trigger] coords@[k]).0 <= t < coords@[k].1 && (
        means[k].gt(threshold) || (k == 0 && always_select_first && exists|j: int|
            1 <= j < means.len() && (#[trigger] means[j]).gt(threshold)))) by {
        assert(mask@[t] == token_kept(coords@, means, threshold, always_select_first, t));
        if token_kept(coords@, means, threshold, always_select_first, t) {
            let k = choose|k: int|
                0 <= k < coords@.len() && (#[trigger] coords@[k]).0 <= t < coords@[k].1
                    && sentence_kept(means, threshold, always_select_first, k);
            assert(coords@[k].0 <= t < coords@[k].1);
        }
    }
    means
}

/// Rounding is refused exactly if there are no sentences, or one has no token or
/// one past the last; and the error is about the first such sentence.
pub proof fn law_refused_roundings<F: Fn(&Vec<Score>) -> Score>(
    token_predictions: &[Score],
    coords: &[Offsets],
    threshold: Score,
    always_select_first: bool,
    rounding_mode: &SentenceRoundingMode,
    average: F,
    e: SentenceError,
)
    requires
        call_ensures(
            sentence_rounding::<F>,
            (
                token_predictions,
                coords,
                threshold,
                always_select_first,
                rounding_mode,
                average,
            ),
            Err(e),
        ),
    ensures
        e is NoSentences <==> coords@.len() == 0,
        coords@.len() > 0 ==> exists|k: int|
            {
                &&& 0 <= k < coords@.len()
                &&& !((#[trigger] coords@[k]).0 < coords@[k].1 <= token_predictions@.len())
                &&& forall|j: int|
                    0 <= j < k ==> (#[trigger] coords@[j]).0 < coords@[j].1
                        <= token_predictions@.len()
                &&& e == if coords@[k].0 >= coords@[k].1 {
                    SentenceError::EmptySentence { start: coords@[k].0, end: coords@[k].1 }
                } else {
                    SentenceError::PastLastToken {
                        end: coords@[k].1,
                        n_tokens: token_predictions@.len() as usize,
                    }
                }
            },
{
    let n = token_predictions@.len() as int;
    let res: Result<Vec<bool>, SentenceError> = Err(e);
    assert(mask_view(res) == Err::<Seq<bool>, SentenceError>(e));
    assert(coords_error(coords@, n) == Some(e));
    if coords@.len() > 0 {
        let k = lemma_first_bad_coord(coords@, n, 0);
        assert(!(coords@[k].0 < coords@[k].1 <= n));
    }
}

proof fn lemma_first_bad_coord(coords: Seq<Offsets>, n_tokens: int, i: int) -> (k: int)
    requires
        0 <= i <= coords.len(),
        first_coord_error(coords, n_tokens, i) is Some,
    ensures
        i <= k < coords.len(),
        first_coord_error(coords, n_tokens, i) == coord_error(coords[k], n_tokens),
        forall|j: int| i <= j < k ==> coord_error(#[trigger] coords[j], n_tokens) is None,
    decreases coords.len() - i,
{
    if coord_error(coords[i], n_tokens) is Some {
        i
    } else {
        lemma_first_bad_coord(coords, n_tokens, i + 1)
    }
}

/// Where decisions are averaged and all ones have the mean 1, a sentence whose
/// tokens all exceed a threshold from 0 up to, but not, 1 is kept; and where all
/// zeros have the mean 0, one whose tokens are all at or below the threshold is
/// dropped, unless it is the first, which may be kept with another.
pub proof fn law_unanimous_sentences<F: Fn(&Vec<Score>) -> Score>(
    token_predictions: &[Score],
    coords: &[Offsets],
    threshold: Score,
    always_select_first: bool,
    average: F,
    mask: Vec<bool>,
    k: int,
    t: int,
)
    requires
        call_ensures(
            sentence_rounding::<F>,
            (
                token_predictions,
                coords,
                threshold,
                always_select_first,
                &SentenceRoundingMode::DecisionAverage,
                average,
            ),
            Ok(mask),
        ),
        threshold.bits < 0x3f80_0000,
        forall|v: Vec<Score>, m: Score|
            v@.len() > 0 && (forall|i: int| 0 <= i < v@.len() ==> (#[trigger] v@[i]).bits
                == 0x3f80_0000) && #[trigger] call_ensures(average, (&v,), m) ==> m.bits
                == 0x3f80_0000,
        forall|v: Vec<Score>, m: Score|
            v@.len() > 0 && (forall|i: int| 0 <= i < v@.len() ==> (#[trigger] v@[i]).bits == 0)
                && #[trigger] call_ensures(average, (&v,), m) ==> m.bits == 0,
        0 <= k < coords@.len(),
        coords@[k].0 <= t < coords@[k].1,
    ensures
        0 <= t < mask@.len(),
        (forall|i: int|
            coords@[k].0 <= i < coords@[k].1 ==> (#[trigger] token_predictions@[i]).gt(threshold))
            ==> mask@[t],
        (forall|i: int|
            coords@[k].0 <= i < coords@[k].1 ==> (#[trigger] token_predictions@[i]).le(threshold))
            && (k > 0 || !always_select_first) && coords_disjoint(coords@) ==> !mask@[t],
{
    let mode = SentenceRoundingMode::DecisionAverage;
    let p = token_predictions@;
    let means = law_means_decide(
        token_predictions,
        coords,
        threshold,
        always_select_first,
        &mode,
        average,
        mask,
    );
    let start = coords@[k].0 as int;
    let end = coords@[k].1 as int;
    let values = addends(p, start, end, threshold, mode);
    assert(coords@[k].0 < coords@[k].1 <= p.len());
    let m = means[k];
    if forall|i: int| start <= i < end ==> (#[trigger] p[i]).gt(threshold) {
        lemma_unanimous(p, start, end, threshold, true);
        assert(is_mean(average, values, m));
        let v = choose|v: Vec<Score>| v@ == values && call_ensures(average, (&v,), m);
        assert(m.bits == 0x3f80_0000);
        assert(m.gt(threshold));
        assert(coords@[k].0 <= t < coords@[k].1 && means[k].gt(threshold));
    }
    if (forall|i: int| start <= i < end ==> (#[trigger] p[i]).le(threshold)) && (k > 0
        || !always_select_first) && coords_disjoint(coords@) {
        lemma_unanimous(p, start, end, threshold, false);
        assert(is_mean(average, values, m));
        let v = choose|v: Vec<Score>| v@ == values && call_ensures(average, (&v,), m);
        assert(m.bits == 0);
        assert(!m.gt(threshold));
        if mask@[t] {
            let j = choose|j: int|
                0 <= j < coords@.len() && (#[trigger] coords@[j]).0 <= t < coords@[j].1 && (
                means[j].gt(threshold) || (j == 0 && always_select_first && exists|i: int|
                    1 <= i < means.len() && (#[trigger] means[i]).gt(threshold)));
            if j < k {
                assert(coords@[j].1 <= coords@[k].0);
            } else if k < j {
                assert(coords@[k].1 <= coords@[j].0);
            }
        }
    }
}

proof fn lemma_unanimous(
    predictions: Seq<Score>,
    start: int,
    end: int,
    threshold: Score,
    exceeding: bool,
)
    requires
        0 <= start <= end <= predictions.len(),
        forall|i: int|
            start <= i < end ==> if exceeding {
                (#[trigger] predictions[i]).gt(threshold)
            } else {
                predictions[i].le(threshold)
            },
    ensures
        ({
            let values = addends(
                predictions,
                start,
                end,
                threshold,
                SentenceRoundingMode::DecisionAverage,
            );
            &&& values.len() == end - start
            &&& forall|i: int|
                0 <= i < values.len() ==> (#[trigger] values[i]).bits == if exceeding {
                    0x3f80_0000u32
                } else {
                    0u32
                }
        }),
    decreases end - start,
{
    if start < end {
        lemma_unanimous(predictions, start, end - 1, threshold, exceeding);
        let p = predictions[end - 1];
        assert(if exceeding {
            p.gt(threshold)
        } else {
            p.le(threshold)
        });
    }
}

/// The names of the modes are these two, and no other text is read as a mode.
pub proof fn law_modes_are_read_by_name(
    s: &str,
    mode: Result<SentenceRoundingMode, String>,
    named: SentenceRoundingMode,
    name: String,
)
    requires
        call_ensures(SentenceRoundingMode::from_str, (s,), mode),
        call_ensures(SentenceRoundingMode::to_string, (&named,), name),
    ensures
        mode == Ok::<SentenceRoundingMode, String>(SentenceRoundingMode::ProbabilityAverage)
            <==> s@ == "probability_average"@,
        mode == Ok::<SentenceRoundingMode, String>(SentenceRoundingMode::DecisionAverage) <==> s@
            == "decision_average"@,
        mode matches Err(message) ==> message@ == "Invalid rounding mode: '"@ + s@
            + "'. Valid options are: probability_average, decision_average"@,
        name@ == match named {
            SentenceRoundingMode::ProbabilityAverage => "probability_average"@,
            SentenceRoundingMode::DecisionAverage => "decision_average"@,
        },
        name@ == s@ ==> mode == Ok::<SentenceRoundingMode, String>(named),
{
    law_names_lead_back(named, s@);
    reveal_strlit("probability_average");
    reveal_strlit("decision_average");
    assert("probability_average"@.len() != "decision_average"@.len());
}

} // verus!
