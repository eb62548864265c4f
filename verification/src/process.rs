//! Answering one question with one context.

use crate::encoding::{
    can_decode, can_encode, codec_within, decode_ids, decoding_result, encode_input, encoding_result, function_codec, encoding_outcomes, tokenizer_codec, Codec, DecodingOutcome,
    EncodingOutcome, EncodingView, TokenEncoding,
};
use crate::error::{ErrorView, ProcessError, SentenceError};
use crate::length::{
    length_warning, truncate_warn, truncated, warning_views, LengthAction, LengthWarning,
    TextLabel, WarningView, MAX_LEN_CHARS,
};
use crate::model::ProvenceModel;
use crate::pruning::{context_rounds_to, split_and_round_sentences};
use crate::rounding::{
    average_is_single, law_rounding_is_determined, mask_view, SentenceRoundingMode,
};
use crate::score::{zero_score, Score};
use crate::selection::{first_separator, kept_ids, law_first_separator};
use crate::sentences::{
    content_end, law_sentences_end_within_the_text, split_outcome, SentenceSplitter,
};
use crate::spans::token_coords;
use crate::text::{byte_len, byte_length};
use crate::wording::{
    context_offset, law_context_lies_at_its_offset, lemma_template, template, SEPARATOR_TOKEN,
};
use tokenizers::Tokenizer;
use vstd::prelude::*;

verus! {

/// What the network says of an encoded input.
#[derive(Debug)]
pub struct NetworkOutput {
    /// How well the context answers the question; the first score counts.
    pub ranking_scores: Vec<Score>,
    /// For each token the probability that it is to be kept, or why the
    /// probabilities could not be read.
    pub keep_probabilities: Result<Vec<Score>, String>,
}

/// What the network says, as sequences.
pub struct NetworkView {
    pub ranking_scores: Seq<Score>,
    pub keep_probabilities: Result<Seq<Score>, Seq<char>>,
}

impl View for NetworkOutput {
    type V = NetworkView;

    open spec fn view(&self) -> NetworkView {
        NetworkView {
            ranking_scores: self.ranking_scores@,
            keep_probabilities: match self.keep_probabilities {
                Ok(probabilities) => Ok(probabilities@),
                Err(message) => Err(message@),
            },
        }
    }
}

/// A reply of the network: what it says, or a message.
pub open spec fn network_result(res: Result<NetworkOutput, String>) -> Result<
    NetworkView,
    Seq<char>,
> {
    match res {
        Ok(output) => Ok(output@),
        Err(message) => Err(message@),
    }
}

/// The computations on floating-point numbers.
#[derive(Clone, Copy)]
pub struct Network<F, A, R> {
    /// Runs the network on token ids and an attention mask.
    pub forward: F,
    /// The mean of some scores.
    pub average: A,
    /// The compression rate, given the number of characters of the context and
    /// of what is left of it.
    pub rate: R,
}

impl<
    F: Fn(&Vec<u32>, &Vec<u32>) -> Result<NetworkOutput, String>,
    A: Fn(&Vec<Score>) -> Score,
    R: Fn(usize, usize) -> Score,
> Network<F, A, R> {
    /// Whether every computation can be called where it is needed: with any
    /// tokens, with at least one score, and with a context that is not empty.
    pub open spec fn callable(self) -> bool {
        &&& forall|ids: Vec<u32>, mask: Vec<u32>| call_requires(self.forward, (&ids, &mask))
        &&& forall|v: Vec<Score>| v@.len() > 0 ==> call_requires(self.average, (&v,))
        &&& forall|n: usize, pruned: usize| n > 0 ==> call_requires(self.rate, (n, pruned))
    }

    /// Whether the network can reply so to these tokens.
    pub open spec fn replies(
        self,
        ids: Seq<u32>,
        attention_mask: Seq<u32>,
        reply: Result<NetworkView, Seq<char>>,
    ) -> bool {
        exists|i: Vec<u32>, m: Vec<u32>, r: Result<NetworkOutput, String>|
            i@ == ids && m@ == attention_mask && #[trigger] call_ensures(self.forward, (&i, &m), r)
                && network_result(r) == reply
    }

    /// Whether every computation gives one result for one input.
    pub open spec fn is_single(self) -> bool {
        &&& forall|
            ids: Seq<u32>,
            mask: Seq<u32>,
            a: Result<NetworkView, Seq<char>>,
            b: Result<NetworkView, Seq<char>>,
        | #[trigger]
            self.replies(ids, mask, a) && #[trigger] self.replies(ids, mask, b) ==> a == b
        &&& average_is_single(self.average)
        &&& forall|context: Seq<char>, pruned: Seq<char>, a: Score, b: Score| #[trigger]
            self.rates(context, pruned, a) && #[trigger] self.rates(context, pruned, b) ==> a == b
    }

    /// Whether the compression rate of a context can come out so. It is zero
    /// for an empty context.
    pub open spec fn rates(self, context: Seq<char>, pruned: Seq<char>, rate: Score) -> bool {
        if context.len() == 0 {
            rate == zero_score()
        } else {
            call_ensures(self.rate, (context.len() as usize, pruned.len() as usize), rate)
        }
    }
}

/// How the sentences that are kept are chosen.
#[derive(Clone, Copy, Debug, PartialEq, Eq, Structural)]
pub struct Selection {
    pub rounding_mode: SentenceRoundingMode,
    pub splitter: SentenceSplitter,
    pub threshold: Score,
    pub always_select_first: bool,
}

/// What is left of a context, and how well it answers the question.
#[derive(Clone, Debug)]
pub struct ProcessedResult {
    pub question: String,
    pub context: String,
    pub pruned_context: String,
    pub reranking_score: Score,
    pub compression_rate: Score,
}

/// A result, with texts as sequences of characters.
pub struct ResultView {
    pub question: Seq<char>,
    pub context: Seq<char>,
    pub pruned_context: Seq<char>,
    pub reranking_score: Score,
    pub compression_rate: Score,
}

impl View for ProcessedResult {
    type V = ResultView;

    open spec fn view(&self) -> ResultView {
        ResultView {
            question: self.question@,
            context: self.context@,
            pruned_context: self.pruned_context@,
            reranking_score: self.reranking_score,
            compression_rate: self.compression_rate,
        }
    }
}

/// What comes of a question and a context: a result, or an error.
pub type AnswerOutcome = Result<ResultView, ErrorView>;

/// What came of a question and a context.
pub open spec fn answer_view(res: Result<ProcessedResult, ProcessError>) -> AnswerOutcome {
    match res {
        Ok(result) => Ok(result@),
        Err(e) => Err(e@),
    }
}

/// The input for a question and a context, not too long.
pub open spec fn input_text(question: Seq<char>, context: Seq<char>) -> Seq<char> {
    truncated(template(question, context), MAX_LEN_CHARS as nat)
}

/// The warning about the input, if it is too long.
pub open spec fn input_warning(question: Seq<char>, context: Seq<char>) -> Seq<WarningView> {
    length_warning(
        TextLabel::ProcessInput,
        template(question, context),
        MAX_LEN_CHARS as nat,
        LengthAction::Truncating,
    )
}

/// Builds the input for a question and a context.
pub fn build_input(question: &str, context: &str, warnings: &mut Vec<LengthWarning>) -> (input:
    String)
    ensures
        input@ == input_text(question@, context@),
        warning_views(final(warnings)@) == warning_views(old(warnings)@) + input_warning(
            question@,
            context@,
        ),
        context_offset(question@) + byte_len(context@) <= usize::MAX,
{
    let mut input = ProvenceModel::apply_template(question, context);
    proof {
        law_context_lies_at_its_offset(question@, context@, 0, 0);
    }
    // That the input has a length shows that its end can be addressed.
    let _length = byte_length(input.as_str());
    truncate_warn(&mut input, TextLabel::ProcessInput, MAX_LEN_CHARS, warnings);
    input
}

/// Whether, of an encoded input, these tokens can be left of the context.
pub open spec fn tokens_kept<A: Fn(&Vec<Score>) -> Score>(
    average: A,
    selection: Selection,
    context: Seq<char>,
    context_start_offset: int,
    encoding: EncodingView,
    separator: int,
    probabilities: Seq<Score>,
    kept: Result<Seq<u32>, SentenceError>,
) -> bool {
    exists|mask: Result<Seq<bool>, SentenceError>|
        (#[trigger] context_rounds_to(
            average,
            context,
            encoding.offsets,
            context_start_offset,
            probabilities,
            selection.threshold,
            selection.always_select_first,
            selection.rounding_mode,
            selection.splitter,
            mask,
        )) && kept == match mask {
            Ok(flags) => Ok(kept_ids(encoding.ids, separator, flags)),
            Err(e) => Err(e),
        }
}

/// The tokens that are kept, with the ranking score.
pub open spec fn with_score(score: Score, kept: Result<Seq<u32>, SentenceError>) -> Result<
    (Score, Seq<u32>),
    ErrorView,
> {
    match kept {
        Ok(ids) => Ok((score, ids)),
        Err(e) => Err(ErrorView::Sentences(e)),
    }
}

/// Whether the network's reply can lead to this: the ranking score and the
/// tokens that are kept, or an error.
pub open spec fn reply_leads_to<A: Fn(&Vec<Score>) -> Score>(
    average: A,
    selection: Selection,
    context: Seq<char>,
    context_start_offset: int,
    encoding: EncodingView,
    separator: int,
    reply: Result<NetworkView, Seq<char>>,
    outcome: Result<(Score, Seq<u32>), ErrorView>,
) -> bool {
    match reply {
        Err(message) => outcome == Err::<(Score, Seq<u32>), ErrorView>(ErrorView::Network(message)),
        Ok(output) => if output.ranking_scores.len() == 0 {
            outcome == Err::<(Score, Seq<u32>), ErrorView>(ErrorView::NoRankingScore)
        } else {
            match output.keep_probabilities {
                Err(message) => outcome == Err::<(Score, Seq<u32>), ErrorView>(
                    ErrorView::KeepProbabilities(message),
                ),
                Ok(probabilities) => exists|kept: Result<Seq<u32>, SentenceError>|
                    (#[trigger] tokens_kept(
                        average,
                        selection,
                        context,
                        context_start_offset,
                        encoding,
                        separator,
                        probabilities,
                        kept,
                    )) && outcome == with_score(output.ranking_scores[0], kept),
            }
        },
    }
}

/// A score and tokens, or an error.
pub open spec fn kept_view(res: Result<(Score, Vec<u32>), ProcessError>) -> Result<
    (Score, Seq<u32>),
    ErrorView,
> {
    match res {
        Ok((score, ids)) => Ok((score, ids@)),
        Err(e) => Err(e@),
    }
}

/// Where the network replies with scores and probabilities, the tokens that can
/// be kept decide.
proof fn lemma_kept_tokens<A: Fn(&Vec<Score>) -> Score>(
    average: A,
    selection: Selection,
    context: Seq<char>,
    context_start_offset: int,
    encoding: EncodingView,
    separator: int,
    output: NetworkView,
    kept: Result<Seq<u32>, SentenceError>,
)
    requires
        output.ranking_scores.len() > 0,
        output.keep_probabilities is Ok,
        tokens_kept(
            average,
            selection,
            context,
            context_start_offset,
            encoding,
            separator,
            output.keep_probabilities->Ok_0,
            kept,
        ),
    ensures
        reply_leads_to(
            average,
            selection,
            context,
            context_start_offset,
            encoding,
            separator,
            Ok(output),
            with_score(output.ranking_scores[0], kept),
        ),
{
}

/// Takes the ranking score from the network's reply, and finds the tokens after
/// the separator that lie in sentences of the context that are kept.
pub fn tokens_to_keep<A: Fn(&Vec<Score>) -> Score>(
    selection: Selection,
    context: &str,
    context_start_offset: usize,
    encoding: &TokenEncoding,
    separator_index: usize,
    reply: Result<NetworkOutput, String>,
    average: A,
) -> (res: Result<(Score, Vec<u32>), ProcessError>)
    requires
        context_start_offset + content_end(context@) <= usize::MAX,
        separator_index < usize::MAX,
        forall|v: Vec<Score>| v@.len() > 0 ==> call_requires(average, (&v,)),
    ensures
        reply_leads_to(
            average,
            selection,
            context@,
            context_start_offset as int,
            encoding@,
            separator_index as int,
            network_result(reply),
            kept_view(res),
        ),
{
    let output = match reply {
        Ok(output) => output,
        Err(message) => {
            return Err(ProcessError::Network(message));
        },
    };
    if output.ranking_scores.len() == 0 {
        return Err(ProcessError::NoRankingScore);
    }
    let score = output.ranking_scores[0];
    let probabilities = match output.keep_probabilities {
        Ok(probabilities) => probabilities,
        Err(message) => {
            return Err(ProcessError::KeepProbabilities(message));
        },
    };
    let rounded = split_and_round_sentences(
        context,
        encoding.offsets.as_slice(),
        context_start_offset,
        probabilities.as_slice(),
        selection.threshold,
        selection.always_select_first,
        &selection.rounding_mode,
        selection.splitter,
        average,
    );
    let ghost mask = mask_view(rounded);
    let ghost kept: Result<Seq<u32>, SentenceError> = match mask {
        Ok(flags) => Ok(kept_ids(encoding.ids@, separator_index as int, flags)),
        Err(e) => Err(e),
    };
    proof {
        assert(context_rounds_to(
            average,
            context@,
            encoding@.offsets,
            context_start_offset as int,
            probabilities@,
            selection.threshold,
            selection.always_select_first,
            selection.rounding_mode,
            selection.splitter,
            mask,
        ));
        assert(tokens_kept(
            average,
            selection,
            context@,
            context_start_offset as int,
            encoding@,
            separator_index as int,
            probabilities@,
            kept,
        ));
    }
    let res = match rounded {
        Ok(keep_mask) => {
            let (ids, _removed) = ProvenceModel::apply_keep_mask_after_skip(
                encoding.ids.as_slice(),
                separator_index,
                keep_mask.as_slice(),
            );
            Ok((score, ids))
        },
        Err(e) => Err(ProcessError::Sentences(e)),
    };
    proof {
        let said = network_result(reply)->Ok_0;
        assert(kept_view(res) == with_score(said.ranking_scores[0], kept));
        lemma_kept_tokens(
            average,
            selection,
            context@,
            context_start_offset as int,
            encoding@,
            separator_index as int,
            said,
            kept,
        );
    }
    res
}

/// The compression rate of a context: by how many percent it got shorter.
pub fn calculate_compression_rate<R: Fn(usize, usize) -> Score>(
    context: &str,
    pruned_context: &str,
    rate: R,
) -> (r: Score)
    requires
        forall|n: usize, pruned: usize| n > 0 ==> call_requires(rate, (n, pruned)),
    ensures
        context@.len() == 0 ==> r == zero_score(),
        context@.len() > 0 ==> call_ensures(
            rate,
            (context@.len() as usize, pruned_context@.len() as usize),
            r,
        ),
{
    let context_len = context.unicode_len();
    if context_len > 0 {
        rate(context_len, pruned_context.unicode_len())
    } else {
        Score::zero()
    }
}

/// Whether what is decoded can lead to this answer.
pub open spec fn text_leads_to<
    F: Fn(&Vec<u32>, &Vec<u32>) -> Result<NetworkOutput, String>,
    A: Fn(&Vec<Score>) -> Score,
    R: Fn(usize, usize) -> Score,
>(
    network: Network<F, A, R>,
    question: Seq<char>,
    context: Seq<char>,
    score: Score,
    decoded: DecodingOutcome,
    outcome: AnswerOutcome,
) -> bool {
    match decoded {
        Err(message) => outcome == Err::<ResultView, ErrorView>(ErrorView::Decoding(message)),
        Ok(text) => {
            &&& outcome is Ok
            &&& outcome->Ok_0.question == question
            &&& outcome->Ok_0.context == context
            &&& outcome->Ok_0.pruned_context == text
            &&& outcome->Ok_0.reranking_score == score
            &&& network.rates(context, text, outcome->Ok_0.compression_rate)
        },
    }
}

/// The answer, given what the kept tokens decode to.
pub fn answer<
    F: Fn(&Vec<u32>, &Vec<u32>) -> Result<NetworkOutput, String> + Copy,
    A: Fn(&Vec<Score>) -> Score + Copy,
    R: Fn(usize, usize) -> Score + Copy,
>(
    network: Network<F, A, R>,
    question: &str,
    context: &str,
    score: Score,
    decoded: Result<String, String>,
) -> (res: Result<ProcessedResult, ProcessError>)
    requires
        network.callable(),
    ensures
        text_leads_to(
            network,
            question@,
            context@,
            score,
            decoding_result(decoded),
            answer_view(res),
        ),
{
    match decoded {
        Ok(pruned_context) => {
            let compression_rate = calculate_compression_rate(
                context,
                pruned_context.as_str(),
                network.rate,
            );
            Ok(
                ProcessedResult {
                    question: question.to_owned(),
                    context: context.to_owned(),
                    pruned_context,
                    reranking_score: score,
                    compression_rate,
                },
            )
        },
        Err(message) => Err(ProcessError::Decoding(message)),
    }
}

/// Whether the score and the tokens that are kept can lead to this answer.
pub open spec fn tokens_lead_to<
    F: Fn(&Vec<u32>, &Vec<u32>) -> Result<NetworkOutput, String>,
    A: Fn(&Vec<Score>) -> Score,
    R: Fn(usize, usize) -> Score,
>(
    codec: Codec,
    network: Network<F, A, R>,
    question: Seq<char>,
    context: Seq<char>,
    kept: Result<(Score, Seq<u32>), ErrorView>,
    outcome: AnswerOutcome,
) -> bool {
    match kept {
        Err(e) => outcome == Err::<ResultView, ErrorView>(e),
        Ok(scored) => exists|decoded: DecodingOutcome|
            (codec.decodes)(scored.1, decoded) && #[trigger] text_leads_to(
                network,
                question,
                context,
                scored.0,
                decoded,
                outcome,
            ),
    }
}

/// Where tokens are kept, what they decode to decides.
proof fn lemma_decoded_tokens<
    F: Fn(&Vec<u32>, &Vec<u32>) -> Result<NetworkOutput, String>,
    A: Fn(&Vec<Score>) -> Score,
    R: Fn(usize, usize) -> Score,
>(
    codec: Codec,
    network: Network<F, A, R>,
    question: Seq<char>,
    context: Seq<char>,
    score: Score,
    ids: Seq<u32>,
    decoded: DecodingOutcome,
    outcome: AnswerOutcome,
)
    requires
        (codec.decodes)(ids, decoded),
        text_leads_to(network, question, context, score, decoded, outcome),
    ensures
        tokens_lead_to(codec, network, question, context, Ok((score, ids)), outcome),
{
    let kept: Result<(Score, Seq<u32>), ErrorView> = Ok((score, ids));
    assert(kept->Ok_0.0 == score && kept->Ok_0.1 == ids);
    assert(text_leads_to(network, question, context, kept->Ok_0.0, decoded, outcome));
}

/// Whether an encoded input with a separator can lead to this answer.
pub open spec fn separated_input_leads_to<
    F: Fn(&Vec<u32>, &Vec<u32>) -> Result<NetworkOutput, String>,
    A: Fn(&Vec<Score>) -> Score,
    R: Fn(usize, usize) -> Score,
>(
    codec: Codec,
    network: Network<F, A, R>,
    selection: Selection,
    question: Seq<char>,
    context: Seq<char>,
    context_start_offset: int,
    encoding: EncodingView,
    separator: int,
    outcome: AnswerOutcome,
) -> bool {
    exists|reply: Result<NetworkView, Seq<char>>, kept: Result<(Score, Seq<u32>), ErrorView>|
        network.replies(encoding.ids, encoding.attention_mask, reply) && #[trigger] reply_leads_to(
            network.average,
            selection,
            context,
            context_start_offset,
            encoding,
            separator,
            reply,
            kept,
        ) && tokens_lead_to(codec, network, question, context, kept, outcome)
}

/// Whether what is encoded can lead to this answer.
pub open spec fn encoding_leads_to<
    F: Fn(&Vec<u32>, &Vec<u32>) -> Result<NetworkOutput, String>,
    A: Fn(&Vec<Score>) -> Score,
    R: Fn(usize, usize) -> Score,
>(
    codec: Codec,
    network: Network<F, A, R>,
    selection: Selection,
    question: Seq<char>,
    context: Seq<char>,
    context_start_offset: int,
    encoded: EncodingOutcome,
    outcome: AnswerOutcome,
) -> bool {
    match encoded {
        Err(message) => outcome == Err::<ResultView, ErrorView>(ErrorView::Tokenization(message)),
        Ok(encoding) => match first_separator(encoding.tokens, 0) {
            None => outcome == Err::<ResultView, ErrorView>(ErrorView::SeparatorMissing),
            Some(separator) => separated_input_leads_to(
                codec,
                network,
                selection,
                question,
                context,
                context_start_offset,
                encoding,
                separator,
                outcome,
            ),
        },
    }
}

/// Whether a question and a context can lead to this answer.
pub open spec fn can_answer<
    F: Fn(&Vec<u32>, &Vec<u32>) -> Result<NetworkOutput, String>,
    A: Fn(&Vec<Score>) -> Score,
    R: Fn(usize, usize) -> Score,
>(
    codec: Codec,
    network: Network<F, A, R>,
    selection: Selection,
    question: Seq<char>,
    context: Seq<char>,
    context_start_offset: int,
    outcome: AnswerOutcome,
) -> bool {
    exists|encoded: EncodingOutcome|
        (codec.encodes)(input_text(question, context), encoded) && #[trigger] encoding_leads_to(
            codec,
            network,
            selection,
            question,
            context,
            context_start_offset,
            encoded,
            outcome,
        )
}

/// Whether these tokens can be what is kept of an encoded input, given what the
/// network can reply to it.
pub open spec fn can_be_kept<
    F: Fn(&Vec<u32>, &Vec<u32>) -> Result<NetworkOutput, String>,
    A: Fn(&Vec<Score>) -> Score,
    R: Fn(usize, usize) -> Score,
>(
    network: Network<F, A, R>,
    selection: Selection,
    context: Seq<char>,
    context_start_offset: int,
    encoded: EncodingOutcome,
    ids: Seq<u32>,
) -> bool {
    match encoded {
        Ok(encoding) => match first_separator(encoding.tokens, 0) {
            Some(separator) => exists|reply: Result<NetworkView, Seq<char>>, score: Score|
                network.replies(encoding.ids, encoding.attention_mask, reply)
                    && #[trigger] reply_leads_to(
                    network.average,
                    selection,
                    context,
                    context_start_offset,
                    encoding,
                    separator,
                    reply,
                    Ok((score, ids)),
                ),
            None => false,
        },
        Err(_) => false,
    }
}

/// Whether two functions can be called on the input for a question and a
/// context, and on what can be kept of it.
pub open spec fn codec_callable<
    E: Fn(&String) -> Result<TokenEncoding, String>,
    D: Fn(&Vec<u32>) -> Result<String, String>,
    F: Fn(&Vec<u32>, &Vec<u32>) -> Result<NetworkOutput, String>,
    A: Fn(&Vec<Score>) -> Score,
    R: Fn(usize, usize) -> Score,
>(
    encode: E,
    decode: D,
    network: Network<F, A, R>,
    selection: Selection,
    question: Seq<char>,
    context: Seq<char>,
    context_start_offset: int,
) -> bool {
    &&& forall|text: String|
        text@ == input_text(question, context) ==> #[trigger] call_requires(encode, (&text,))
    &&& forall|text: String, r: Result<TokenEncoding, String>, ids: Vec<u32>|
        text@ == input_text(question, context) && #[trigger] call_ensures(encode, (&text,), r)
            && can_be_kept(
            network,
            selection,
            context,
            context_start_offset,
            encoding_result(r),
            ids@,
        ) ==> #[trigger] call_requires(decode, (&ids,))
}

/// Whether a tokenizer can encode the input for a question and a context, and
/// decode what can be kept of it.
pub open spec fn is_usable<
    F: Fn(&Vec<u32>, &Vec<u32>) -> Result<NetworkOutput, String>,
    A: Fn(&Vec<Score>) -> Score,
    R: Fn(usize, usize) -> Score,
>(
    tokenizer: &Tokenizer,
    network: Network<F, A, R>,
    selection: Selection,
    question: Seq<char>,
    context: Seq<char>,
    context_start_offset: int,
) -> bool {
    let input = input_text(question, context);
    &&& can_encode(tokenizer, input)
    &&& forall|encoded: EncodingOutcome, ids: Seq<u32>|
        encoding_outcomes(*tokenizer, input).contains(encoded) && #[trigger] can_be_kept(
            network,
            selection,
            context,
            context_start_offset,
            encoded,
            ids,
        ) ==> can_decode(tokenizer, ids)
}

/// What the network's reply to an encoded input leads to can be kept of it.
proof fn lemma_tokens_can_be_kept<
    F: Fn(&Vec<u32>, &Vec<u32>) -> Result<NetworkOutput, String>,
    A: Fn(&Vec<Score>) -> Score,
    R: Fn(usize, usize) -> Score,
>(
    network: Network<F, A, R>,
    selection: Selection,
    context: Seq<char>,
    context_start_offset: int,
    encoding: EncodingView,
    separator: int,
    reply: Result<NetworkView, Seq<char>>,
    score: Score,
    ids: Seq<u32>,
)
    requires
        first_separator(encoding.tokens, 0) == Some(separator),
        network.replies(encoding.ids, encoding.attention_mask, reply),
        reply_leads_to(
            network.average,
            selection,
            context,
            context_start_offset,
            encoding,
            separator,
            reply,
            Ok((score, ids)),
        ),
    ensures
        can_be_kept(network, selection, context, context_start_offset, Ok(encoding), ids),
{
    let encoded: EncodingOutcome = Ok(encoding);
    assert(encoded->Ok_0 == encoding);
    assert(first_separator(encoded->Ok_0.tokens, 0)->0 == separator);
}

/// Prunes `context` to the sentences that help to answer `question`, and scores
/// how well it does; with any functions that encode an input and decode tokens.
///
/// The context's byte ranges are looked for in the input from
/// `context_start_offset` on.
pub fn answer_question<
    E: Fn(&String) -> Result<TokenEncoding, String> + Copy,
    D: Fn(&Vec<u32>) -> Result<String, String> + Copy,
    F: Fn(&Vec<u32>, &Vec<u32>) -> Result<NetworkOutput, String> + Copy,
    A: Fn(&Vec<Score>) -> Score + Copy,
    R: Fn(usize, usize) -> Score + Copy,
>(
    encode: E,
    decode: D,
    network: Network<F, A, R>,
    selection: Selection,
    question: &str,
    context: &str,
    context_start_offset: usize,
    warnings: &mut Vec<LengthWarning>,
) -> (res: Result<ProcessedResult, ProcessError>)
    requires
        codec_callable(
            encode,
            decode,
            network,
            selection,
            question@,
            context@,
            context_start_offset as int,
        ),
        network.callable(),
        context_start_offset <= context_offset(question@) || context_start_offset + content_end(
            context@,
        ) <= usize::MAX,
    ensures
        can_answer(
            function_codec(encode, decode),
            network,
            selection,
            question@,
            context@,
            context_start_offset as int,
            answer_view(res),
        ),
        warning_views(final(warnings)@) == warning_views(old(warnings)@) + input_warning(
            question@,
            context@,
        ),
{
    let ghost codec = function_codec(encode, decode);
    let ghost start = context_start_offset as int;
    let input = build_input(question, context, warnings);
    proof {
        law_sentences_end_within_the_text(context@, selection.splitter);
    }
    let encoded = encode(&input);
    let ghost encoded_view = encoding_result(encoded);
    assert((codec.encodes)(input_text(question@, context@), encoded_view));
    let encoding = match encoded {
        Ok(encoding) => encoding,
        Err(message) => {
            let res = Err(ProcessError::Tokenization(message));
            assert(encoding_leads_to(
                codec,
                network,
                selection,
                question@,
                context@,
                start,
                encoded_view,
                answer_view(res),
            ));
            return res;
        },
    };
    let separator_index = match ProvenceModel::get_separator_index(&encoding.tokens) {
        Some(index) => index,
        None => {
            let res = Err(ProcessError::SeparatorMissing);
            assert(encoding_leads_to(
                codec,
                network,
                selection,
                question@,
                context@,
                start,
                encoded_view,
                answer_view(res),
            ));
            return res;
        },
    };
    proof {
        law_first_separator(encoding@.tokens);
        assert(separator_index < encoding.tokens.len());
    }
    let forward = network.forward;
    let reply = forward(&encoding.ids, &encoding.attention_mask);
    let ghost reply_view = network_result(reply);
    assert(network.replies(encoding@.ids, encoding@.attention_mask, reply_view));
    let kept = tokens_to_keep(
        selection,
        context,
        context_start_offset,
        &encoding,
        separator_index,
        reply,
        network.average,
    );
    let ghost kept_tokens = kept_view(kept);
    let res = match kept {
        Ok((score, ids)) => {
            proof {
                lemma_tokens_can_be_kept(
                    network,
                    selection,
                    context@,
                    start,
                    encoding@,
                    separator_index as int,
                    reply_view,
                    score,
                    ids@,
                );
                assert(can_be_kept(network, selection, context@, start, encoded_view, ids@));
            }
            let decoded = decode(&ids);
            let ghost decoded_view = decoding_result(decoded);
            let answered = answer(network, question, context, score, decoded);
            proof {
                lemma_decoded_tokens(
                    codec,
                    network,
                    question@,
                    context@,
                    score,
                    ids@,
                    decoded_view,
                    answer_view(answered),
                );
            }
            answered
        },
        Err(e) => Err(e),
    };
    proof {
        assert(tokens_lead_to(codec, network, question@, context@, kept_tokens, answer_view(res)));
        assert(separated_input_leads_to(
            codec,
            network,
            selection,
            question@,
            context@,
            start,
            encoding@,
            separator_index as int,
            answer_view(res),
        ));
        assert(encoding_leads_to(
            codec,
            network,
            selection,
            question@,
            context@,
            start,
            encoded_view,
            answer_view(res),
        ));
    }
    res
}

/// What tokens can lead to, they can lead to with a codec that can come to more.
proof fn lemma_tokens_within<
    F: Fn(&Vec<u32>, &Vec<u32>) -> Result<NetworkOutput, String>,
    A: Fn(&Vec<Score>) -> Score,
    R: Fn(usize, usize) -> Score,
>(
    a: Codec,
    b: Codec,
    network: Network<F, A, R>,
    question: Seq<char>,
    context: Seq<char>,
    kept: Result<(Score, Seq<u32>), ErrorView>,
    outcome: AnswerOutcome,
)
    requires
        codec_within(a, b),
        tokens_lead_to(a, network, question, context, kept, outcome),
    ensures
        tokens_lead_to(b, network, question, context, kept, outcome),
{
    if kept is Ok {
        let scored = kept->Ok_0;
        let decoded = choose|decoded: DecodingOutcome|
            (a.decodes)(scored.1, decoded) && #[trigger] text_leads_to(
                network,
                question,
                context,
                scored.0,
                decoded,
                outcome,
            );
        assert((b.decodes)(scored.1, decoded));
        assert(text_leads_to(network, question, context, scored.0, decoded, outcome));
    }
}

/// What a question and a context can lead to, they can lead to with a codec that
/// can come to more.
pub proof fn lemma_answer_within<
    F: Fn(&Vec<u32>, &Vec<u32>) -> Result<NetworkOutput, String>,
    A: Fn(&Vec<Score>) -> Score,
    R: Fn(usize, usize) -> Score,
>(
    a: Codec,
    b: Codec,
    network: Network<F, A, R>,
    selection: Selection,
    question: Seq<char>,
    context: Seq<char>,
    context_start_offset: int,
    outcome: AnswerOutcome,
)
    requires
        codec_within(a, b),
        can_answer(a, network, selection, question, context, context_start_offset, outcome),
    ensures
        can_answer(b, network, selection, question, context, context_start_offset, outcome),
{
    let start = context_start_offset;
    let input = input_text(question, context);
    let encoded = choose|encoded: EncodingOutcome|
        (a.encodes)(input, encoded) && #[trigger] encoding_leads_to(
            a,
            network,
            selection,
            question,
            context,
            start,
            encoded,
            outcome,
        );
    assert((b.encodes)(input, encoded));
    if encoded is Ok && first_separator(encoded->Ok_0.tokens, 0) is Some {
        let encoding = encoded->Ok_0;
        let separator = first_separator(encoding.tokens, 0)->0;
        assert(separated_input_leads_to(
            a,
            network,
            selection,
            question,
            context,
            start,
            encoding,
            separator,
            outcome,
        ));
        let (reply, kept) = choose|
            reply: Result<NetworkView, Seq<char>>,
            kept: Result<(Score, Seq<u32>), ErrorView>,
        |
            network.replies(encoding.ids, encoding.attention_mask, reply)
                && #[trigger] reply_leads_to(
                network.average,
                selection,
                context,
                start,
                encoding,
                separator,
                reply,
                kept,
            ) && tokens_lead_to(a, network, question, context, kept, outcome);
        lemma_tokens_within(a, b, network, question, context, kept, outcome);
        assert(separated_input_leads_to(
            b,
            network,
            selection,
            question,
            context,
            start,
            encoding,
            separator,
            outcome,
        ));
    }
    assert(encoding_leads_to(
        b,
        network,
        selection,
        question,
        context,
        start,
        encoded,
        outcome,
    ));
}

impl ProvenceModel {
    /// Prunes `context` to the sentences that help to answer `question`, and
    /// scores how well it does.
    ///
    /// The context's byte ranges are looked for in the input from
    /// `context_start_offset` on.
    pub fn process_question_context<
        F: Fn(&Vec<u32>, &Vec<u32>) -> Result<NetworkOutput, String> + Copy,
        A: Fn(&Vec<Score>) -> Score + Copy,
        R: Fn(usize, usize) -> Score + Copy,
    >(
        &self,
        tokenizer: &Tokenizer,
        network: Network<F, A, R>,
        question: &str,
        context: &str,
        context_start_offset: usize,
        threshold: Score,
        always_select_first: bool,
        warnings: &mut Vec<LengthWarning>,
    ) -> (res: Result<ProcessedResult, ProcessError>)
        requires
            is_usable(
                tokenizer,
                network,
                self.spec_selection(threshold, always_select_first),
                question@,
                context@,
                context_start_offset as int,
            ),
            network.callable(),
            context_start_offset <= context_offset(question@) || context_start_offset + content_end(
                context@,
            ) <= usize::MAX,
        ensures
            can_answer(
                tokenizer_codec(tokenizer),
                network,
                self.spec_selection(threshold, always_select_first),
                question@,
                context@,
                context_start_offset as int,
                answer_view(res),
            ),
            warning_views(final(warnings)@) == warning_views(old(warnings)@) + input_warning(
                question@,
                context@,
            ),
    {
        let encode = |text: &String| -> (r: Result<TokenEncoding, String>)
            requires
                can_encode(tokenizer, text@),
            ensures
                (tokenizer_codec(tokenizer).encodes)(text@, encoding_result(r)),
            { encode_input(tokenizer, text.as_str()) };
        let decode = |ids: &Vec<u32>| -> (r: Result<String, String>)
            requires
                can_decode(tokenizer, ids@),
            ensures
                (tokenizer_codec(tokenizer).decodes)(ids@, decoding_result(r)),
            { decode_ids(tokenizer, ids) };
        let selection = self.selection(threshold, always_select_first);
        let res = answer_question(
            encode,
            decode,
            network,
            selection,
            question,
            context,
            context_start_offset,
            warnings,
        );
        proof {
            let by_functions = function_codec(encode, decode);
            let by_tokenizer = tokenizer_codec(tokenizer);
            assert(codec_within(by_functions, by_tokenizer));
            lemma_answer_within(
                by_functions,
                by_tokenizer,
                network,
                selection,
                question@,
                context@,
                context_start_offset as int,
                answer_view(res),
            );
        }
        res
    }
}

/// Whether encoding and decoding give one result for one input.
pub open spec fn codec_is_single(codec: Codec) -> bool {
    &&& forall|text: Seq<char>, a: EncodingOutcome, b: EncodingOutcome| #[trigger]
        (codec.encodes)(text, a) && #[trigger] (codec.encodes)(text, b) ==> a == b
    &&& forall|ids: Seq<u32>, a: DecodingOutcome, b: DecodingOutcome| #[trigger]
        (codec.decodes)(ids, a) && #[trigger] (codec.decodes)(ids, b) ==> a == b
}

proof fn lemma_one_list_of_tokens<A: Fn(&Vec<Score>) -> Score>(
    average: A,
    selection: Selection,
    context: Seq<char>,
    start: int,
    encoding: EncodingView,
    separator: int,
    probabilities: Seq<Score>,
    a: Result<Seq<u32>, SentenceError>,
    b: Result<Seq<u32>, SentenceError>,
)
    requires
        average_is_single(average),
        tokens_kept(average, selection, context, start, encoding, separator, probabilities, a),
        tokens_kept(average, selection, context, start, encoding, separator, probabilities, b),
    ensures
        a == b,
{
    let x = choose|mask: Result<Seq<bool>, SentenceError>|
        (#[trigger] context_rounds_to(
            average,
            context,
            encoding.offsets,
            start,
            probabilities,
            selection.threshold,
            selection.always_select_first,
            selection.rounding_mode,
            selection.splitter,
            mask,
        )) && a == match mask {
            Ok(flags) => Ok(kept_ids(encoding.ids, separator, flags)),
            Err(e) => Err(e),
        };
    let y = choose|mask: Result<Seq<bool>, SentenceError>|
        (#[trigger] context_rounds_to(
            average,
            context,
            encoding.offsets,
            start,
            probabilities,
            selection.threshold,
            selection.always_select_first,
            selection.rounding_mode,
            selection.splitter,
            mask,
        )) && b == match mask {
            Ok(flags) => Ok(kept_ids(encoding.ids, separator, flags)),
            Err(e) => Err(e),
        };
    if let Ok((_, ranges)) = split_outcome(context, selection.splitter) {
        law_rounding_is_determined(
            average,
            probabilities,
            token_coords(encoding.offsets, ranges, start, 0),
            selection.threshold,
            selection.always_select_first,
            selection.rounding_mode,
            x,
            y,
        );
    }
    assert(x == y);
}

proof fn lemma_one_reply<A: Fn(&Vec<Score>) -> Score>(
    average: A,
    selection: Selection,
    context: Seq<char>,
    start: int,
    encoding: EncodingView,
    separator: int,
    reply: Result<NetworkView, Seq<char>>,
    a: Result<(Score, Seq<u32>), ErrorView>,
    b: Result<(Score, Seq<u32>), ErrorView>,
)
    requires
        average_is_single(average),
        reply_leads_to(average, selection, context, start, encoding, separator, reply, a),
        reply_leads_to(average, selection, context, start, encoding, separator, reply, b),
    ensures
        a == b,
{
    if reply is Ok && reply->Ok_0.ranking_scores.len() > 0 && reply->Ok_0.keep_probabilities is Ok {
        let output = reply->Ok_0;
        let p = output.keep_probabilities->Ok_0;
        let x = choose|kept: Result<Seq<u32>, SentenceError>|
            (#[trigger] tokens_kept(
                average,
                selection,
                context,
                start,
                encoding,
                separator,
                p,
                kept,
            )) && a == with_score(output.ranking_scores[0], kept);
        let y = choose|kept: Result<Seq<u32>, SentenceError>|
            (#[trigger] tokens_kept(
                average,
                selection,
                context,
                start,
                encoding,
                separator,
                p,
                kept,
            )) && b == with_score(output.ranking_scores[0], kept);
        lemma_one_list_of_tokens(
            average,
            selection,
            context,
            start,
            encoding,
            separator,
            p,
            x,
            y,
        );
    }
}

proof fn lemma_one_text<
    F: Fn(&Vec<u32>, &Vec<u32>) -> Result<NetworkOutput, String>,
    A: Fn(&Vec<Score>) -> Score,
    R: Fn(usize, usize) -> Score,
>(
    codec: Codec,
    network: Network<F, A, R>,
    question: Seq<char>,
    context: Seq<char>,
    kept: Result<(Score, Seq<u32>), ErrorView>,
    a: AnswerOutcome,
    b: AnswerOutcome,
)
    requires
        codec_is_single(codec),
        network.is_single(),
        tokens_lead_to(codec, network, question, context, kept, a),
        tokens_lead_to(codec, network, question, context, kept, b),
    ensures
        a == b,
{
    if kept is Ok {
        let scored = kept->Ok_0;
        let x = choose|decoded: DecodingOutcome|
            (codec.decodes)(scored.1, decoded) && #[trigger] text_leads_to(
                network,
                question,
                context,
                scored.0,
                decoded,
                a,
            );
        let y = choose|decoded: DecodingOutcome|
            (codec.decodes)(scored.1, decoded) && #[trigger] text_leads_to(
                network,
                question,
                context,
                scored.0,
                decoded,
                b,
            );
        assert((codec.decodes)(scored.1, x) && (codec.decodes)(scored.1, y));
        assert(x == y);
        if x is Ok {
            let text = x->Ok_0;
            assert(network.rates(context, text, a->Ok_0.compression_rate));
            assert(network.rates(context, text, b->Ok_0.compression_rate));
            assert(a->Ok_0 == b->Ok_0);
        }
    }
}

/// The reply and the tokens by which an encoded input led to an answer.
proof fn lemma_steps<
    F: Fn(&Vec<u32>, &Vec<u32>) -> Result<NetworkOutput, String>,
    A: Fn(&Vec<Score>) -> Score,
    R: Fn(usize, usize) -> Score,
>(
    codec: Codec,
    network: Network<F, A, R>,
    selection: Selection,
    question: Seq<char>,
    context: Seq<char>,
    start: int,
    encoding: EncodingView,
    separator: int,
    outcome: AnswerOutcome,
) -> (steps: (Result<NetworkView, Seq<char>>, Result<(Score, Seq<u32>), ErrorView>))
    requires
        separated_input_leads_to(
            codec,
            network,
            selection,
            question,
            context,
            start,
            encoding,
            separator,
            outcome,
        ),
    ensures
        network.replies(encoding.ids, encoding.attention_mask, steps.0),
        reply_leads_to(
            network.average,
            selection,
            context,
            start,
            encoding,
            separator,
            steps.0,
            steps.1,
        ),
        tokens_lead_to(codec, network, question, context, steps.1, outcome),
{
    choose|reply: Result<NetworkView, Seq<char>>, kept: Result<(Score, Seq<u32>), ErrorView>|
        network.replies(encoding.ids, encoding.attention_mask, reply) && #[trigger] reply_leads_to(
            network.average,
            selection,
            context,
            start,
            encoding,
            separator,
            reply,
            kept,
        ) && tokens_lead_to(codec, network, question, context, kept, outcome)
}

/// What the input was encoded to on the way to an answer.
proof fn lemma_encoded<
    F: Fn(&Vec<u32>, &Vec<u32>) -> Result<NetworkOutput, String>,
    A: Fn(&Vec<Score>) -> Score,
    R: Fn(usize, usize) -> Score,
>(
    codec: Codec,
    network: Network<F, A, R>,
    selection: Selection,
    question: Seq<char>,
    context: Seq<char>,
    start: int,
    outcome: AnswerOutcome,
) -> (encoded: EncodingOutcome)
    requires
        can_answer(codec, network, selection, question, context, start, outcome),
    ensures
        (codec.encodes)(input_text(question, context), encoded),
        encoding_leads_to(
            codec,
            network,
            selection,
            question,
            context,
            start,
            encoded,
            outcome,
        ),
{
    choose|encoded: EncodingOutcome|
        (codec.encodes)(input_text(question, context), encoded) && #[trigger] encoding_leads_to(
            codec,
            network,
            selection,
            question,
            context,
            start,
            encoded,
            outcome,
        )
}

/// Where every step gives one result for one input, a question and a context
/// have one answer.
pub proof fn law_answers_are_determined<
    F: Fn(&Vec<u32>, &Vec<u32>) -> Result<NetworkOutput, String>,
    A: Fn(&Vec<Score>) -> Score,
    R: Fn(usize, usize) -> Score,
>(
    codec: Codec,
    network: Network<F, A, R>,
    selection: Selection,
    question: Seq<char>,
    context: Seq<char>,
    context_start_offset: int,
    a: AnswerOutcome,
    b: AnswerOutcome,
)
    requires
        codec_is_single(codec),
        network.is_single(),
        can_answer(codec, network, selection, question, context, context_start_offset, a),
        can_answer(codec, network, selection, question, context, context_start_offset, b),
    ensures
        a == b,
{
    let start = context_start_offset;
    let x = lemma_encoded(codec, network, selection, question, context, start, a);
    let y = lemma_encoded(codec, network, selection, question, context, start, b);
    assert(x == y);
    if x is Ok && first_separator(x->Ok_0.tokens, 0) is Some {
        let encoding = x->Ok_0;
        let separator = first_separator(encoding.tokens, 0)->0;
        let (reply_a, kept_a) = lemma_steps(
            codec,
            network,
            selection,
            question,
            context,
            start,
            encoding,
            separator,
            a,
        );
        let (reply_b, kept_b) = lemma_steps(
            codec,
            network,
            selection,
            question,
            context,
            start,
            encoding,
            separator,
            b,
        );
        assert(reply_a == reply_b);
        lemma_one_reply(
            network.average,
            selection,
            context,
            start,
            encoding,
            separator,
            reply_a,
            kept_a,
            kept_b,
        );
        lemma_one_text(codec, network, question, context, kept_a, a, b);
    }
}

/// Where every step gives one result for one input, the ranking score depends
/// on the question and the context alone: neither the threshold, nor the rule
/// for the first sentence, nor the offset changes it.
pub proof fn law_settings_leave_the_score<
    F: Fn(&Vec<u32>, &Vec<u32>) -> Result<NetworkOutput, String>,
    A: Fn(&Vec<Score>) -> Score,
    R: Fn(usize, usize) -> Score,
>(
    codec: Codec,
    network: Network<F, A, R>,
    selection_a: Selection,
    selection_b: Selection,
    question: Seq<char>,
    context: Seq<char>,
    start_a: int,
    start_b: int,
    a: ResultView,
    b: ResultView,
)
    requires
        codec_is_single(codec),
        network.is_single(),
        can_answer(codec, network, selection_a, question, context, start_a, Ok(a)),
        can_answer(codec, network, selection_b, question, context, start_b, Ok(b)),
    ensures
        a.reranking_score == b.reranking_score,
{
    let out_a: AnswerOutcome = Ok(a);
    let out_b: AnswerOutcome = Ok(b);
    let x = lemma_encoded(codec, network, selection_a, question, context, start_a, out_a);
    let y = lemma_encoded(codec, network, selection_b, question, context, start_b, out_b);
    assert(x == y);
    let encoding = x->Ok_0;
    let separator = first_separator(encoding.tokens, 0)->0;
    let (reply_a, kept_a) = lemma_steps(
        codec,
        network,
        selection_a,
        question,
        context,
        start_a,
        encoding,
        separator,
        out_a,
    );
    let (reply_b, kept_b) = lemma_steps(
        codec,
        network,
        selection_b,
        question,
        context,
        start_b,
        encoding,
        separator,
        out_b,
    );
    assert(reply_a == reply_b);
    assert(kept_a is Ok && kept_b is Ok);
    assert(kept_a->Ok_0.0 == reply_a->Ok_0.ranking_scores[0]);
    assert(kept_b->Ok_0.0 == reply_b->Ok_0.ranking_scores[0]);
    assert(out_a->Ok_0.reranking_score == kept_a->Ok_0.0);
    assert(out_b->Ok_0.reranking_score == kept_b->Ok_0.0);
}

/// The input for a question and a context is the first 2048 characters of the
/// question, ` [SEP] ` and the context, or all of them; there is a warning exactly
/// if there are more.
pub proof fn law_the_input(question: Seq<char>, context: Seq<char>)
    ensures
        ({
            let whole = question + seq![' ', '[', 'S', 'E', 'P', ']', ' '] + context;
            &&& input_text(question, context) == if whole.len() > 2048 {
                whole.take(2048)
            } else {
                whole
            }
            &&& whole.len() <= 2048 ==> input_warning(question, context).len() == 0
            &&& whole.len() > 2048 ==> input_warning(question, context) == seq![
                WarningView {
                    label: TextLabel::ProcessInput,
                    preview: whole.take(20),
                    length: whole.len(),
                    max_len: 2048,
                    action: LengthAction::Truncating,
                },
            ]
        }),
{
    lemma_template(question, context);
}

/// A reply of the network is what its function gives for the very tokens and
/// mask, as it is.
pub proof fn law_replies_are_what_is_called<
    F: Fn(&Vec<u32>, &Vec<u32>) -> Result<NetworkOutput, String>,
    A: Fn(&Vec<Score>) -> Score,
    R: Fn(usize, usize) -> Score,
>(
    network: Network<F, A, R>,
    ids: Vec<u32>,
    mask: Vec<u32>,
    res: Result<NetworkOutput, String>,
    reply: Result<NetworkView, Seq<char>>,
)
    ensures
        call_ensures(network.forward, (&ids, &mask), res) ==> network.replies(
            ids@,
            mask@,
            network_result(res),
        ),
        network.replies(ids@, mask@, reply) ==> exists|
            i: Vec<u32>,
            m: Vec<u32>,
            r: Result<NetworkOutput, String>,
        |
            i@ == ids@ && m@ == mask@ && #[trigger] call_ensures(network.forward, (&i, &m), r)
                && network_result(r) == reply,
        res matches Ok(output) ==> {
            &&& network_result(res) is Ok
            &&& network_result(res)->Ok_0.ranking_scores == output.ranking_scores@
            &&& output.keep_probabilities matches Ok(p)
                ==> network_result(res)->Ok_0.keep_probabilities == Ok::<Seq<Score>, Seq<char>>(p@)
            &&& output.keep_probabilities matches Err(m)
                ==> network_result(res)->Ok_0.keep_probabilities == Err::<Seq<Score>, Seq<char>>(m@)
        },
        res matches Err(m) ==> network_result(res) == Err::<NetworkView, Seq<char>>(m@),
{
}

/// The compression rate is zero for an empty context, and else what the network's
/// function gives for the two lengths in characters.
pub proof fn law_rates_go_by_the_lengths<
    F: Fn(&Vec<u32>, &Vec<u32>) -> Result<NetworkOutput, String>,
    A: Fn(&Vec<Score>) -> Score,
    R: Fn(usize, usize) -> Score,
>(
    network: Network<F, A, R>,
    context: &str,
    pruned: &str,
    rate: Score,
)
    requires
        call_ensures(
            calculate_compression_rate::<R>,
            (context, pruned, network.rate),
            rate,
        ),
    ensures
        network.rates(context@, pruned@, rate),
        context@.len() == 0 ==> rate.bits == 0,
        context@.len() > 0 ==> call_ensures(
            network.rate,
            (context@.len() as usize, pruned@.len() as usize),
            rate,
        ),
{
}

/// The score of a reply is the first of its ranking scores, whatever it is; and
/// what is kept are the flagged tokens after the separator. It fails exactly if
/// the network failed, gave no ranking score or no probabilities, or the sentences
/// cannot be rounded, and in this order.
pub proof fn law_the_first_score_counts<A: Fn(&Vec<Score>) -> Score>(
    selection: Selection,
    context: &str,
    context_start_offset: usize,
    encoding: &TokenEncoding,
    separator_index: usize,
    reply: Result<NetworkOutput, String>,
    average: A,
    res: Result<(Score, Vec<u32>), ProcessError>,
) -> (mask: Result<Seq<bool>, SentenceError>)
    requires
        call_ensures(
            tokens_to_keep::<A>,
            (
                selection,
                context,
                context_start_offset,
                encoding,
                separator_index,
                reply,
                average,
            ),
            res,
        ),
    ensures
        ({
            let scores = reply->Ok_0.ranking_scores@;
            let probabilities = reply->Ok_0.keep_probabilities;
            if reply is Err {
                res is Err && res->Err_0@ == ErrorView::Network(reply->Err_0@)
            } else if scores.len() == 0 {
                res is Err && res->Err_0@ == ErrorView::NoRankingScore
            } else if probabilities is Err {
                res is Err && res->Err_0@ == ErrorView::KeepProbabilities(probabilities->Err_0@)
            } else {
                &&& context_rounds_to(
                    average,
                    context@,
                    encoding.offsets@,
                    context_start_offset as int,
                    probabilities->Ok_0@,
                    selection.threshold,
                    selection.always_select_first,
                    selection.rounding_mode,
                    selection.splitter,
                    mask,
                )
                &&& match mask {
                    Ok(flags) => {
                        &&& res is Ok
                        &&& res->Ok_0.0 == scores[0]
                        &&& res->Ok_0.1@ == kept_ids(
                            encoding.ids@,
                            separator_index as int,
                            flags,
                        )
                    },
                    Err(e) => res is Err && res->Err_0@ == ErrorView::Sentences(e),
                }
            }
        }),
{
    if reply is Ok && reply->Ok_0.ranking_scores@.len() > 0 && reply->Ok_0.keep_probabilities is Ok {
        let said = network_result(reply)->Ok_0;
        let probabilities = said.keep_probabilities->Ok_0;
        let start = context_start_offset as int;
        let separator = separator_index as int;
        let kept = choose|kept: Result<Seq<u32>, SentenceError>|
            (#[trigger] tokens_kept(
                average,
                selection,
                context@,
                start,
                encoding@,
                separator,
                probabilities,
                kept,
            )) && kept_view(res) == with_score(said.ranking_scores[0], kept);
        let mask = choose|mask: Result<Seq<bool>, SentenceError>|
            (#[trigger] context_rounds_to(
                average,
                context@,
                encoding@.offsets,
                start,
                probabilities,
                selection.threshold,
                selection.always_select_first,
                selection.rounding_mode,
                selection.splitter,
                mask,
            )) && kept == match mask {
                Ok(flags) => Ok(kept_ids(encoding@.ids, separator, flags)),
                Err(e) => Err(e),
            };
        mask
    } else {
        let reply_view = network_result(reply);
        assert(reply is Err ==> reply_view is Err);
        Err(SentenceError::NoSentences)
    }
}

/// The steps by which a question and a context led to a result: what the input
/// was encoded to, where its first `[SEP]` is, what the network said of the
/// tokens, and the flags that rounding gave. The result repeats the question and
/// the context; its score is the first ranking score that the network gave; its
/// text is decoded from the flagged tokens after the separator; and its rate goes
/// by the lengths of the context and that text.
pub proof fn law_results_come_of_these_steps<
    F: Fn(&Vec<u32>, &Vec<u32>) -> Result<NetworkOutput, String>,
    A: Fn(&Vec<Score>) -> Score,
    R: Fn(usize, usize) -> Score,
>(
    codec: Codec,
    network: Network<F, A, R>,
    selection: Selection,
    question: Seq<char>,
    context: Seq<char>,
    context_start_offset: int,
    result: ResultView,
) -> (steps: (EncodingView, int, NetworkView, Seq<bool>))
    requires
        can_answer(codec, network, selection, question, context, context_start_offset, Ok(result)),
    ensures
        ({
            let (encoding, separator, said, flags) = steps;
            let whole = question + seq![' ', '[', 'S', 'E', 'P', ']', ' '] + context;
            &&& (codec.encodes)(
                if whole.len() > 2048 {
                    whole.take(2048)
                } else {
                    whole
                },
                Ok(encoding),
            )
            &&& 0 <= separator < encoding.tokens.len()
            &&& encoding.tokens[separator] == seq!['[', 'S', 'E', 'P', ']']
            &&& forall|j: int|
                0 <= j < separator ==> #[trigger] encoding.tokens[j] != seq![
                    '[',
                    'S',
                    'E',
                    'P',
                    ']',
                ]
            &&& network.replies(encoding.ids, encoding.attention_mask, Ok(said))
            &&& said.ranking_scores.len() > 0
            &&& result.reranking_score == said.ranking_scores[0]
            &&& said.keep_probabilities is Ok
            &&& context_rounds_to(
                network.average,
                context,
                encoding.offsets,
                context_start_offset,
                said.keep_probabilities->Ok_0,
                selection.threshold,
                selection.always_select_first,
                selection.rounding_mode,
                selection.splitter,
                Ok(flags),
            )
            &&& (codec.decodes)(
                kept_ids(encoding.ids, separator, flags),
                Ok(result.pruned_context),
            )
            &&& result.question == question
            &&& result.context == context
            &&& context.len() == 0 ==> result.compression_rate.bits == 0
            &&& context.len() > 0 ==> call_ensures(
                network.rate,
                (context.len() as usize, result.pruned_context.len() as usize),
                result.compression_rate,
            )
        }),
{
    let start = context_start_offset;
    let outcome: AnswerOutcome = Ok(result);
    let encoded = lemma_encoded(codec, network, selection, question, context, start, outcome);
    law_the_input(question, context);
    assert(encoded is Ok);
    let encoding = encoded->Ok_0;
    assert(encoded == Ok::<EncodingView, Seq<char>>(encoding));
    law_first_separator(encoding.tokens);
    reveal_strlit("[SEP]");
    assert(SEPARATOR_TOKEN@ == seq!['[', 'S', 'E', 'P', ']']);
    let separator = first_separator(encoding.tokens, 0)->0;
    let (reply, kept) = lemma_steps(
        codec,
        network,
        selection,
        question,
        context,
        start,
        encoding,
        separator,
        outcome,
    );
    assert(kept is Ok);
    assert(reply is Ok);
    let said = reply->Ok_0;
    assert(reply == Ok::<NetworkView, Seq<char>>(said));
    let probabilities = said.keep_probabilities->Ok_0;
    let ids = choose|ids: Result<Seq<u32>, SentenceError>|
        (#[trigger] tokens_kept(
            network.average,
            selection,
            context,
            start,
            encoding,
            separator,
            probabilities,
            ids,
        )) && kept == with_score(said.ranking_scores[0], ids);
    let mask = choose|mask: Result<Seq<bool>, SentenceError>|
        (#[trigger] context_rounds_to(
            network.average,
            context,
            encoding.offsets,
            start,
            probabilities,
            selection.threshold,
            selection.always_select_first,
            selection.rounding_mode,
            selection.splitter,
            mask,
        )) && ids == match mask {
            Ok(flags) => Ok(kept_ids(encoding.ids, separator, flags)),
            Err(e) => Err(e),
        };
    assert(mask is Ok);
    let flags = mask->Ok_0;
    assert(mask == Ok::<Seq<bool>, SentenceError>(flags));
    let scored = kept->Ok_0;
    assert(scored.0 == said.ranking_scores[0]);
    assert(scored.1 == kept_ids(encoding.ids, separator, flags));
    let decoded = choose|decoded: DecodingOutcome|
        (codec.decodes)(scored.1, decoded) && #[trigger] text_leads_to(
            network,
            question,
            context,
            scored.0,
            decoded,
            outcome,
        );
    assert(outcome->Ok_0 == result);
    assert(decoded is Ok);
    assert(decoded == Ok::<Seq<char>, Seq<char>>(result.pruned_context));
    assert(network.rates(context, result.pruned_context, result.compression_rate));
    (encoding, separator, said, flags)
}

/// A question and a context lead to an error only where a step fails, and the
/// error is that of the step: encoding, finding the separator, running the
/// network, its scores and probabilities, rounding the sentences, or decoding.
pub proof fn law_errors_come_of_a_failing_step<
    F: Fn(&Vec<u32>, &Vec<u32>) -> Result<NetworkOutput, String>,
    A: Fn(&Vec<Score>) -> Score,
    R: Fn(usize, usize) -> Score,
>(
    codec: Codec,
    network: Network<F, A, R>,
    selection: Selection,
    question: Seq<char>,
    context: Seq<char>,
    context_start_offset: int,
    e: ErrorView,
) -> (steps: (EncodingOutcome, Result<NetworkView, Seq<char>>, Result<Seq<bool>, SentenceError>, int))
    requires
        can_answer(codec, network, selection, question, context, context_start_offset, Err(e)),
    ensures
        ({
            let (encoded, reply, mask, separator) = steps;
            let encoding = encoded->Ok_0;
            let said = reply->Ok_0;
            let whole = question + seq![' ', '[', 'S', 'E', 'P', ']', ' '] + context;
            let replied = encoded is Ok && network.replies(
                encoding.ids,
                encoding.attention_mask,
                reply,
            );
            &&& (codec.encodes)(
                if whole.len() > 2048 {
                    whole.take(2048)
                } else {
                    whole
                },
                encoded,
            )
            &&& match e {
                ErrorView::Request(_) => false,
                ErrorView::Tokenization(message) => encoded == Err::<EncodingView, Seq<char>>(
                    message,
                ),
                ErrorView::SeparatorMissing => encoded is Ok && forall|j: int|
                    0 <= j < encoding.tokens.len() ==> #[trigger] encoding.tokens[j] != seq![
                        '[',
                        'S',
                        'E',
                        'P',
                        ']',
                    ],
                ErrorView::Network(message) => replied && reply == Err::<NetworkView, Seq<char>>(
                    message,
                ),
                ErrorView::NoRankingScore => replied && reply is Ok && said.ranking_scores.len()
                    == 0,
                ErrorView::KeepProbabilities(message) => replied && reply is Ok
                    && said.keep_probabilities == Err::<Seq<Score>, Seq<char>>(message),
                ErrorView::Sentences(f) => replied && reply is Ok && said.keep_probabilities is Ok
                    && context_rounds_to(
                    network.average,
                    context,
                    encoding.offsets,
                    context_start_offset,
                    said.keep_probabilities->Ok_0,
                    selection.threshold,
                    selection.always_select_first,
                    selection.rounding_mode,
                    selection.splitter,
                    Err(f),
                ),
                ErrorView::Decoding(message) => replied && reply is Ok
                    && said.keep_probabilities is Ok && mask is Ok && context_rounds_to(
                    network.average,
                    context,
                    encoding.offsets,
                    context_start_offset,
                    said.keep_probabilities->Ok_0,
                    selection.threshold,
                    selection.always_select_first,
                    selection.rounding_mode,
                    selection.splitter,
                    mask,
                ) && 0 <= separator < encoding.tokens.len() && encoding.tokens[separator] == seq![
                    '[',
                    'S',
                    'E',
                    'P',
                    ']',
                ] && (codec.decodes)(
                    kept_ids(encoding.ids, separator, mask->Ok_0),
                    Err(message),
                ),
            }
        }),
{
    let start = context_start_offset;
    let outcome: AnswerOutcome = Err(e);
    let nothing: Result<Seq<bool>, SentenceError> = Err(SentenceError::NoSentences);
    let encoded = lemma_encoded(codec, network, selection, question, context, start, outcome);
    law_the_input(question, context);
    assert(outcome->Err_0 == e);
    if encoded is Err {
        let message = encoded->Err_0;
        assert(encoded == Err::<EncodingView, Seq<char>>(message));
        (encoded, Err(message), nothing, 0)
    } else {
        let encoding = encoded->Ok_0;
        law_first_separator(encoding.tokens);
        reveal_strlit("[SEP]");
        assert(SEPARATOR_TOKEN@ == seq!['[', 'S', 'E', 'P', ']']);
        if first_separator(encoding.tokens, 0) is None {
            (encoded, Err(seq![]), nothing, 0)
        } else {
            let separator = first_separator(encoding.tokens, 0)->0;
            let (reply, kept) = lemma_steps(
                codec,
                network,
                selection,
                question,
                context,
                start,
                encoding,
                separator,
                outcome,
            );
            let said = reply->Ok_0;
            if reply is Err || said.ranking_scores.len() == 0 || said.keep_probabilities is Err {
                assert(kept is Err && kept->Err_0 == e);
                if reply is Err {
                    assert(reply == Err::<NetworkView, Seq<char>>(reply->Err_0));
                } else if said.ranking_scores.len() > 0 {
                    assert(said.keep_probabilities == Err::<Seq<Score>, Seq<char>>(
                        said.keep_probabilities->Err_0,
                    ));
                }
                (encoded, reply, nothing, separator)
            } else {
                let probabilities = said.keep_probabilities->Ok_0;
                let ids = choose|ids: Result<Seq<u32>, SentenceError>|
                    (#[trigger] tokens_kept(
                        network.average,
                        selection,
                        context,
                        start,
                        encoding,
                        separator,
                        probabilities,
                        ids,
                    )) && kept == with_score(said.ranking_scores[0], ids);
                let mask = choose|mask: Result<Seq<bool>, SentenceError>|
                    (#[trigger] context_rounds_to(
                        network.average,
                        context,
                        encoding.offsets,
                        start,
                        probabilities,
                        selection.threshold,
                        selection.always_select_first,
                        selection.rounding_mode,
                        selection.splitter,
                        mask,
                    )) && ids == match mask {
                        Ok(flags) => Ok(kept_ids(encoding.ids, separator, flags)),
                        Err(e) => Err(e),
                    };
                if mask is Err {
                    assert(mask == Err::<Seq<bool>, SentenceError>(mask->Err_0));
                    assert(kept is Err && kept->Err_0 == ErrorView::Sentences(mask->Err_0));
                } else {
                    let scored = kept->Ok_0;
                    let decoded = choose|decoded: DecodingOutcome|
                        (codec.decodes)(scored.1, decoded) && #[trigger] text_leads_to(
                            network,
                            question,
                            context,
                            scored.0,
                            decoded,
                            outcome,
                        );
                    assert(decoded is Err);
                    assert(decoded == Err::<Seq<char>, Seq<char>>(decoded->Err_0));
                    assert(scored.1 == kept_ids(encoding.ids, separator, mask->Ok_0));
                }
                (encoded, reply, mask, separator)
            }
        }
    }
}

/// The input that is built is the question, ` [SEP] ` and the context, cut to 2048
/// characters, with a warning where it was cut.
pub proof fn law_building_the_input(
    question: &str,
    context: &str,
    warnings: &mut Vec<LengthWarning>,
    input: String,
)
    requires
        call_ensures(build_input, (question, context, warnings), input),
    ensures
        ({
            let whole = question@ + seq![' ', '[', 'S', 'E', 'P', ']', ' '] + context@;
            &&& input@ == if whole.len() > 2048 {
                whole.take(2048)
            } else {
                whole
            }
            &&& warning_views(final(warnings)@) == warning_views(old(warnings)@) + if whole.len()
                > 2048 {
                seq![
                    WarningView {
                        label: TextLabel::ProcessInput,
                        preview: whole.take(20),
                        length: whole.len(),
                        max_len: 2048,
                        action: LengthAction::Truncating,
                    },
                ]
            } else {
                seq![]
            }
        }),
{
    law_the_input(question@, context@);
}

/// A question is answered, with a tokenizer or with functions in its place, as
/// the settings say that were given: with the model's ways to round and to split,
/// at this threshold, with this rule for the first sentence, and with the context
/// looked for at this offset.
pub proof fn law_answering_uses_what_is_given<
    E: Fn(&String) -> Result<TokenEncoding, String> + Copy,
    D: Fn(&Vec<u32>) -> Result<String, String> + Copy,
    F: Fn(&Vec<u32>, &Vec<u32>) -> Result<NetworkOutput, String> + Copy,
    A: Fn(&Vec<Score>) -> Score + Copy,
    R: Fn(usize, usize) -> Score + Copy,
>(
    model: ProvenceModel,
    tokenizer: &Tokenizer,
    encode: E,
    decode: D,
    network: Network<F, A, R>,
    question: &str,
    context: &str,
    context_start_offset: usize,
    threshold: Score,
    always_select_first: bool,
    warnings: &mut Vec<LengthWarning>,
    more_warnings: &mut Vec<LengthWarning>,
    by_tokenizer: Result<ProcessedResult, ProcessError>,
    by_functions: Result<ProcessedResult, ProcessError>,
)
    requires
        call_ensures(
            ProvenceModel::process_question_context::<F, A, R>,
            (
                &model,
                tokenizer,
                network,
                question,
                context,
                context_start_offset,
                threshold,
                always_select_first,
                warnings,
            ),
            by_tokenizer,
        ),
        call_ensures(
            answer_question::<E, D, F, A, R>,
            (
                encode,
                decode,
                network,
                (Selection {
                    rounding_mode: model.rounding_mode,
                    splitter: model.splitter,
                    threshold,
                    always_select_first,
                }),
                question,
                context,
                context_start_offset,
                more_warnings,
            ),
            by_functions,
        ),
    ensures
        ({
            let selection = Selection {
                rounding_mode: model.rounding_mode,
                splitter: model.splitter,
                threshold,
                always_select_first,
            };
            let start = context_start_offset as int;
            &&& can_answer(
                tokenizer_codec(tokenizer),
                network,
                selection,
                question@,
                context@,
                start,
                answer_view(by_tokenizer),
            )
            &&& can_answer(
                function_codec(encode, decode),
                network,
                selection,
                question@,
                context@,
                start,
                answer_view(by_functions),
            )
            &&& warning_views(final(warnings)@) == warning_views(old(warnings)@) + input_warning(
                question@,
                context@,
            )
            &&& warning_views(final(more_warnings)@) == warning_views(old(more_warnings)@)
                + input_warning(question@, context@)
        }),
{
}

/// The parts of a result are shown as they are, and so are errors.
pub proof fn law_answers_are_shown_as_they_are(res: Result<ProcessedResult, ProcessError>)
    ensures
        res matches Ok(result) ==> {
            &&& answer_view(res) is Ok
            &&& answer_view(res)->Ok_0.question == result.question@
            &&& answer_view(res)->Ok_0.context == result.context@
            &&& answer_view(res)->Ok_0.pruned_context == result.pruned_context@
            &&& answer_view(res)->Ok_0.reranking_score == result.reranking_score
            &&& answer_view(res)->Ok_0.compression_rate == result.compression_rate
        },
        res matches Err(e) ==> {
            &&& answer_view(res) is Err
            &&& answer_view(res)->Err_0 == match e {
                ProcessError::Request(f) => ErrorView::Request(f),
                ProcessError::Tokenization(message) => ErrorView::Tokenization(message@),
                ProcessError::SeparatorMissing => ErrorView::SeparatorMissing,
                ProcessError::Network(message) => ErrorView::Network(message@),
                ProcessError::NoRankingScore => ErrorView::NoRankingScore,
                ProcessError::KeepProbabilities(message) => ErrorView::KeepProbabilities(message@),
                ProcessError::Sentences(f) => ErrorView::Sentences(f),
                ProcessError::Decoding(message) => ErrorView::Decoding(message@),
            }
        },
{
}

} // verus!
