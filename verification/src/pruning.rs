//! Which tokens of an encoded context are kept.

use crate::error::SentenceError;
use crate::rounding::{
    coord_error, coords_disjoint, coords_error, coords_valid, keep_mask,
    law_sentence_is_kept_whole, lemma_no_coord_error, mask_view, rounds_to, sentence_kept,
    sentence_rounding, SentenceRoundingMode,
};
use crate::score::Score;
use crate::selection::{kept_ids, law_runs_stay_together, mask_keeps, removed_ids, stands_in};
use crate::sentences::{
    content_end, law_ranges_hold_the_sentences, law_sentences_end_within_the_text,
    sentence_spans, span_bytes, span_texts, split_outcome, split_sentences, texts,
    SentenceSplitter,
};
use crate::spans::{
    covered, in_text_order, law_coords_are_valid_and_ordered, law_touching_tokens_are_covered,
    map_ranges_to_token_coords, token_coords, touches, Offsets,
};
use crate::text::{byte_len, byte_length};
use vstd::prelude::*;

verus! {

/// Cuts `context` into sentences as `splitter` says, and finds the tokens of
/// each by the byte ranges `encoding_offsets` of the tokens in an input in
/// which the context starts at the byte `context_start_offset`.
///
/// A sentence without tokens has no coordinates.
pub fn split_and_track(
    context: &str,
    encoding_offsets: &[Offsets],
    context_start_offset: usize,
    splitter: SentenceSplitter,
) -> (res: Result<(Vec<String>, Vec<Offsets>), SentenceError>)
    requires
        context_start_offset + content_end(context@) <= usize::MAX,
    ensures
        match (split_outcome(context@, splitter), res) {
            (Ok((sentence_texts, ranges)), Ok((sentences, coords))) => {
                &&& texts(sentences@) == sentence_texts
                &&& coords@ == token_coords(
                    encoding_offsets@,
                    ranges,
                    context_start_offset as int,
                    0,
                )
            },
            (Err(e), Err(f)) => e == f,
            _ => false,
        },
{
    // That the context has a length shows that its end can be addressed.
    let _length = byte_length(context);
    match split_sentences(context, splitter) {
        Ok((sentences, ranges)) => {
            proof {
                law_sentences_end_within_the_text(context@, splitter);
                assert(split_outcome(context@, splitter)->Ok_0.1 == ranges@);
                assert(forall|k: int|
                    0 <= k < ranges@.len() ==> (#[trigger] ranges@[k]).0 <= ranges@[k].1
                        <= content_end(context@));
            }
            let coords = map_ranges_to_token_coords(
                encoding_offsets,
                ranges.as_slice(),
                context_start_offset,
            );
            Ok((sentences, coords))
        },
        Err(e) => Err(e),
    }
}

/// Cuts `context` into sentences by the simple rule, and finds the tokens of
/// each by the byte ranges of the tokens in the whole input.
pub fn split_sentences_and_track_from_encoding(
    context: &str,
    encoding_offsets: &[Offsets],
    context_start_offset: usize,
) -> (res: Result<(Vec<String>, Vec<Offsets>), SentenceError>)
    requires
        context_start_offset + content_end(context@) <= usize::MAX,
    ensures
        res is Ok,
        texts(res->Ok_0.0@) == span_texts(context@, sentence_spans(context@)),
        res->Ok_0.1@ == token_coords(
            encoding_offsets@,
            span_bytes(context@, sentence_spans(context@)),
            context_start_offset as int,
            0,
        ),
{
    split_and_track(context, encoding_offsets, context_start_offset, SentenceSplitter::Simple)
}

/// Whether rounding the sentences of `context` can come out as `outcome`.
pub open spec fn context_rounds_to<F: Fn(&Vec<Score>) -> Score>(
    average: F,
    context: Seq<char>,
    offsets: Seq<Offsets>,
    context_start_offset: int,
    predictions: Seq<Score>,
    threshold: Score,
    always_select_first: bool,
    mode: SentenceRoundingMode,
    splitter: SentenceSplitter,
    outcome: Result<Seq<bool>, SentenceError>,
) -> bool {
    match split_outcome(context, splitter) {
        Ok((_, ranges)) => rounds_to(
            average,
            predictions,
            token_coords(offsets, ranges, context_start_offset, 0),
            threshold,
            always_select_first,
            mode,
            outcome,
        ),
        Err(e) => outcome == Err::<Seq<bool>, SentenceError>(e),
    }
}

/// Cuts `context` into sentences and rounds the predictions for their tokens:
/// one flag per token, whether it is kept.
pub fn split_and_round_sentences<F: Fn(&Vec<Score>) -> Score>(
    context: &str,
    encoding_offsets: &[Offsets],
    context_start_offset: usize,
    token_predictions: &[Score],
    threshold: Score,
    always_select_first: bool,
    rounding_mode: &SentenceRoundingMode,
    splitter: SentenceSplitter,
    average: F,
) -> (res: Result<Vec<bool>, SentenceError>)
    requires
        context_start_offset + content_end(context@) <= usize::MAX,
        forall|v: Vec<Score>| v@.len() > 0 ==> call_requires(average, (&v,)),
    ensures
        context_rounds_to(
            average,
            context@,
            encoding_offsets@,
            context_start_offset as int,
            token_predictions@,
            threshold,
            always_select_first,
            *rounding_mode,
            splitter,
            mask_view(res),
        ),
{
    match split_and_track(context, encoding_offsets, context_start_offset, splitter) {
        Ok((_, coords)) => sentence_rounding(
            token_predictions,
            coords.as_slice(),
            threshold,
            always_select_first,
            rounding_mode,
            average,
        ),
        Err(e) => Err(e),
    }
}

/// The coordinates that tracking gives are fit for rounding: with a prediction
/// for every token, nothing can be wrong with them but that there are none, and
/// the sentences do not overlap.
pub proof fn law_tracked_coords_can_be_rounded(
    offsets: Seq<Offsets>,
    ranges: Seq<Offsets>,
    base: int,
    n_tokens: int,
)
    requires
        offsets.len() <= n_tokens <= usize::MAX,
    ensures
        ({
            let coords = token_coords(offsets, ranges, base, 0);
            &&& coords_valid(coords, n_tokens)
            &&& coords_disjoint(coords)
            &&& coords_error(coords, n_tokens) == if coords.len() == 0 {
                Some(SentenceError::NoSentences)
            } else {
                None
            }
        }),
{
    let coords = token_coords(offsets, ranges, base, 0);
    law_coords_are_valid_and_ordered(offsets, ranges, base);
    assert forall|k: int| 0 <= k < coords.len() implies coord_error(
        #[trigger] coords[k],
        n_tokens,
    ) is None by {
        assert(coords[k].0 < coords[k].1 <= offsets.len());
    }
    lemma_no_coord_error(coords, n_tokens, 0);
}

/// Where the tokens come in the order of the text, every token that came from a
/// sentence of the context lies within the coordinates of one.
pub proof fn law_sentence_tokens_are_tracked(
    context: Seq<char>,
    offsets: Seq<Offsets>,
    base: int,
    i: int,
    r: int,
)
    requires
        byte_len(context) <= usize::MAX,
        offsets.len() <= usize::MAX,
        in_text_order(offsets),
        0 <= i < offsets.len(),
        0 <= r < sentence_spans(context).len(),
        touches(
            offsets[i],
            base + span_bytes(context, sentence_spans(context))[r].0,
            base + span_bytes(context, sentence_spans(context))[r].1,
        ),
    ensures
        covered(
            token_coords(offsets, span_bytes(context, sentence_spans(context)), base, 0),
            i,
        ),
{
    law_ranges_hold_the_sentences(context);
    law_touching_tokens_are_covered(
        offsets,
        span_bytes(context, sentence_spans(context)),
        base,
        i,
        r,
    );
}

/// A sentence that is kept survives whole: its tokens stand one after the other
/// among the kept tokens. The tokens of one that is not kept are removed so.
pub proof fn law_sentences_survive_whole(
    ids: Seq<u32>,
    separator: int,
    coords: Seq<Offsets>,
    means: Seq<Score>,
    threshold: Score,
    always_select_first: bool,
    k: int,
)
    requires
        coords_valid(coords, ids.len() as int),
        coords_disjoint(coords),
        0 <= k < coords.len(),
        0 <= separator < coords[k].0,
    ensures
        ({
            let mask = keep_mask(ids.len(), coords, means, threshold, always_select_first);
            let sentence = ids.subrange(coords[k].0 as int, coords[k].1 as int);
            if sentence_kept(means, threshold, always_select_first, k) {
                stands_in(sentence, kept_ids(ids, separator, mask))
            } else {
                stands_in(sentence, removed_ids(ids, separator, mask))
            }
        }),
{
    let mask = keep_mask(ids.len(), coords, means, threshold, always_select_first);
    let kept = sentence_kept(means, threshold, always_select_first, k);
    let start = coords[k].0 as int;
    let end = coords[k].1 as int;
    assert(coord_error(coords[k], ids.len() as int) is None);
    assert forall|t: int| start <= t < end implies #[trigger] mask_keeps(mask, t) == kept by {
        law_sentence_is_kept_whole(
            ids.len(),
            coords,
            means,
            threshold,
            always_select_first,
            k,
            t,
        );
    }
    law_runs_stay_together(ids, separator, mask, kept, start, end);
}

/// Sentences are tracked by the steps that it takes: the texts are those that
/// splitting gives, the coordinates are those of their byte ranges, and an error
/// is that of splitting.
pub proof fn law_tracking_splits_and_maps(
    context: &str,
    offsets: &[Offsets],
    context_start_offset: usize,
    splitter: SentenceSplitter,
    split: Result<(Vec<String>, Vec<Offsets>), SentenceError>,
    ranges: &[Offsets],
    mapped: Vec<Offsets>,
    res: Result<(Vec<String>, Vec<Offsets>), SentenceError>,
)
    requires
        call_ensures(split_sentences, (context, splitter), split),
        split matches Ok((_, found)) ==> ranges@ == found@,
        call_ensures(map_ranges_to_token_coords, (offsets, ranges, context_start_offset), mapped),
        call_ensures(split_and_track, (context, offsets, context_start_offset, splitter), res),
    ensures
        split is Ok <==> res is Ok,
        split is Ok ==> texts(res->Ok_0.0@) == texts(split->Ok_0.0@) && res->Ok_0.1@ == mapped@,
        split is Err ==> res->Err_0 == split->Err_0,
{
}

/// Rounding the sentences of a context is rounding the sentences that are tracked
/// in it, with the same predictions, threshold and rules; and where they cannot be
/// tracked, the error is that of tracking.
pub proof fn law_rounding_goes_by_the_sentences_found<F: Fn(&Vec<Score>) -> Score>(
    context: &str,
    offsets: &[Offsets],
    context_start_offset: usize,
    predictions: &[Score],
    threshold: Score,
    always_select_first: bool,
    mode: &SentenceRoundingMode,
    splitter: SentenceSplitter,
    average: F,
    found: Result<(Vec<String>, Vec<Offsets>), SentenceError>,
    outcome: Result<Seq<bool>, SentenceError>,
)
    requires
        call_ensures(
            split_and_track,
            (context, offsets, context_start_offset, splitter),
            found,
        ),
        context_rounds_to(
            average,
            context@,
            offsets@,
            context_start_offset as int,
            predictions@,
            threshold,
            always_select_first,
            *mode,
            splitter,
            outcome,
        ),
    ensures
        found matches Ok((_, coords)) ==> rounds_to(
            average,
            predictions@,
            coords@,
            threshold,
            always_select_first,
            *mode,
            outcome,
        ),
        found matches Err(e) ==> outcome == Err::<Seq<bool>, SentenceError>(e),
{
}

/// Without a splitter being named, sentences are tracked by the simple rule.
pub proof fn law_tracking_is_simple_unless_said(
    context: &str,
    offsets: &[Offsets],
    context_start_offset: usize,
    unnamed: Result<(Vec<String>, Vec<Offsets>), SentenceError>,
    named: Result<(Vec<String>, Vec<Offsets>), SentenceError>,
)
    requires
        call_ensures(
            split_sentences_and_track_from_encoding,
            (context, offsets, context_start_offset),
            unnamed,
        ),
        call_ensures(
            split_and_track,
            (context, offsets, context_start_offset, SentenceSplitter::Simple),
            named,
        ),
    ensures
        unnamed is Ok && named is Ok,
        texts(unnamed->Ok_0.0@) == texts(named->Ok_0.0@),
        unnamed->Ok_0.1@ == named->Ok_0.1@,
{
}

} // verus!
