//! Cutting a context into sentences.
//!
//! A context is cut either by a simple rule, after each full stop, exclamation
//! or question mark that white space or the end of the text follows, or by the
//! Punkt algorithm with its data for English. Either way the pieces are trimmed
//! of white space, and empty ones are left out.

use crate::error::SentenceError;
use crate::spans::{ranges_in_order, Offsets};
use crate::text::{
    byte_len, byte_length, byte_pos, chars_of, is_white_space, lemma_boundary_is_a_position,
    lemma_byte_pos, lemma_byte_pos_ends, lemma_byte_pos_step, text_between, utf8_width, white_space,
};
use vstd::prelude::*;
use vstd::utf8::*;

verus! {

/// The first character from `i` on, before `end`, that is not white space;
/// `end` if there is none.
pub open spec fn text_start(s: Seq<char>, i: int, end: int) -> int
    decreases end - i,
{
    if i >= end {
        end
    } else if !is_white_space(s[i]) {
        i
    } else {
        text_start(s, i + 1, end)
    }
}

/// One past the last character before `i`, from `start` on, that is not white
/// space; `start` if there is none.
pub open spec fn text_end(s: Seq<char>, start: int, i: int) -> int
    decreases i - start,
{
    if i <= start {
        start
    } else if !is_white_space(s[i - 1]) {
        i
    } else {
        text_end(s, start, i - 1)
    }
}

/// The piece of `context` between two byte offsets, trimmed, with the byte
/// range that is left; `None` if nothing is left.
pub open spec fn trimmed_between(context: Seq<char>, start: usize, end: usize) -> Option<
    (Seq<char>, Offsets),
> {
    let piece = text_between(context, start as int, end as int);
    let a = text_start(piece, 0, piece.len() as int);
    let b = text_end(piece, 0, piece.len() as int);
    if a < b {
        Some(
            (
                piece.subrange(a, b),
                ((start + byte_pos(piece, a)) as usize, (start + byte_pos(piece, b)) as usize),
            ),
        )
    } else {
        None
    }
}

/// What trimming a byte range of a context gives.
pub open spec fn trim_outcome(context: Seq<char>, start: usize, end: usize) -> Result<
    Option<(Seq<char>, Offsets)>,
    SentenceError,
> {
    if start > end || end > byte_len(context) {
        Err(SentenceError::InvalidRange { start, end, len: byte_len(context) as usize })
    } else if !is_char_boundary(encode_utf8(context), start as int) || !is_char_boundary(
        encode_utf8(context),
        end as int,
    ) {
        Err(SentenceError::NotOnCharBoundary { start, end })
    } else {
        Ok(trimmed_between(context, start, end))
    }
}

proof fn lemma_text_start(s: Seq<char>, i: int, end: int)
    requires
        0 <= i <= end <= s.len(),
    ensures
        i <= text_start(s, i, end) <= end,
        text_start(s, i, end) < end ==> !is_white_space(s[text_start(s, i, end)]),
        forall|k: int| i <= k < text_start(s, i, end) ==> is_white_space(#[trigger] s[k]),
    decreases end - i,
{
    if i < end && is_white_space(s[i]) {
        lemma_text_start(s, i + 1, end);
    }
}

proof fn lemma_text_end(s: Seq<char>, start: int, i: int)
    requires
        0 <= start <= i <= s.len(),
    ensures
        start <= text_end(s, start, i) <= i,
        text_end(s, start, i) > start ==> !is_white_space(s[text_end(s, start, i) - 1]),
        forall|k: int| text_end(s, start, i) <= k < i ==> is_white_space(#[trigger] s[k]),
    decreases i - start,
{
    if i > start && is_white_space(s[i - 1]) {
        lemma_text_end(s, start, i - 1);
    }
}

/// The text between a start and an end is empty exactly if all is white space.
proof fn lemma_text_bounds(s: Seq<char>, from: int, to: int)
    requires
        0 <= from <= to <= s.len(),
    ensures
        ({
            let a = text_start(s, from, to);
            let b = text_end(s, from, to);
            if a == to {
                b == from
            } else {
                from <= a < b <= to
            }
        }),
{
    lemma_text_start(s, from, to);
    lemma_text_end(s, from, to);
}

/// Where both ends are character boundaries, the bytes between them are the
/// encoding of the text between them.
proof fn lemma_between(context: Seq<char>, start: int, end: int)
    requires
        0 <= start <= end <= byte_len(context),
        is_char_boundary(encode_utf8(context), start),
        is_char_boundary(encode_utf8(context), end),
    ensures
        ({
            let head = encode_utf8(context).subrange(0, end);
            &&& valid_utf8(head)
            &&& is_char_boundary(head, start)
            &&& head.subrange(start, end) == encode_utf8(context).subrange(start, end)
            &&& valid_utf8(encode_utf8(context).subrange(start, end))
            &&& encode_utf8(text_between(context, start, end)) == encode_utf8(context).subrange(
                start,
                end,
            )
        }),
{
    let bytes = encode_utf8(context);
    let head = bytes.subrange(0, end);
    encode_utf8_valid_utf8(context);
    valid_utf8_split(bytes, end);
    if start < end {
        is_char_boundary_iff_not_is_continuation_byte(bytes, start);
        is_char_boundary_iff_not_is_continuation_byte(head, start);
        assert(head[start] == bytes[start]);
    } else {
        is_char_boundary_start_end_of_seq(head);
    }
    valid_utf8_split(head, start);
    assert(head.subrange(start, head.len() as int) == bytes.subrange(start, end));
    assert(head.subrange(start, end) == bytes.subrange(start, end));
    decode_utf8_encode_utf8(bytes.subrange(start, end));
}

/// Trims the bytes from `start` to `end` of `context`.
///
/// Gives the text that is left and its byte range in `context`, or `None` if
/// all of it is white space.
pub fn trim_range(context: &str, start: usize, end: usize) -> (res: Result<
    Option<(String, Offsets)>,
    SentenceError,
>)
    ensures
        match res {
            Ok(Some((text, range))) => trim_outcome(context@, start, end) == Ok::<
                _,
                SentenceError,
            >(Some((text@, range))),
            Ok(None) => trim_outcome(context@, start, end) == Ok::<
                Option<(Seq<char>, Offsets)>,
                SentenceError,
            >(None),
            Err(e) => trim_outcome(context@, start, end) == Err::<
                Option<(Seq<char>, Offsets)>,
                SentenceError,
            >(e),
        },
{
    let len = byte_length(context);
    if start > end || end > len {
        return Err(SentenceError::InvalidRange { start, end, len });
    }
    if !context.is_char_boundary(start) || !context.is_char_boundary(end) {
        return Err(SentenceError::NotOnCharBoundary { start, end });
    }
    proof {
        lemma_between(context@, start as int, end as int);
    }
    let (head, _) = context.split_at(end);
    let (_, piece) = head.split_at(start);
    let ghost p = text_between(context@, start as int, end as int);
    proof {
        encode_utf8_decode_utf8(piece@);
        assert(piece@ == p);
        lemma_byte_pos_ends(p);
    }

    let chars = chars_of(piece);
    let n = chars.len();

    // The first character that is not white space, and its byte offset.
    let mut a: usize = 0;
    let mut leading: usize = 0;
    while a < n && white_space(chars[a])
        invariant
            chars@ == p,
            n == p.len(),
            a <= n,
            leading == byte_pos(p, a as int),
            byte_len(p) == end - start,
            text_start(p, 0, n as int) == text_start(p, a as int, n as int),
        decreases n - a,
    {
        proof {
            lemma_byte_pos_step(p, a as int);
        }
        leading += utf8_width(chars[a]);
        a += 1;
    }
    proof {
        lemma_text_bounds(p, 0, n as int);
    }
    if a == n {
        return Ok(None);
    }

    // One past the last character that is not white space, and its byte offset.
    let mut b: usize = n;
    let mut trailing: usize = end - start;
    while white_space(chars[b - 1])
        invariant
            chars@ == p,
            n == p.len(),
            a < b <= n,
            !is_white_space(p[a as int]),
            trailing == byte_pos(p, b as int),
            byte_len(p) == end - start,
            text_end(p, 0, n as int) == text_end(p, 0, b as int),
        decreases b,
    {
        proof {
            lemma_byte_pos_step(p, b - 1);
        }
        trailing -= utf8_width(chars[b - 1]);
        b -= 1;
    }
    proof {
        lemma_byte_pos(p, a as int, b as int);
    }
    let text = piece.substring_char(a, b).to_owned();
    Ok(Some((text, (start + leading, start + trailing))))
}

/// The texts of a list of strings.
pub open spec fn texts(list: Seq<String>) -> Seq<Seq<char>> {
    list.map_values(|t: String| t@)
}

/// A character that can end a sentence.
pub open spec fn is_sentence_ending(c: char) -> bool {
    c == '.' || c == '!' || c == '?'
}

/// Tells whether `c` can end a sentence.
pub fn sentence_ending(c: char) -> (b: bool)
    ensures
        b == is_sentence_ending(c),
{
    c == '.' || c == '!' || c == '?'
}

/// Whether a sentence ends with the character `i`: it is one that can end a
/// sentence, and white space or the end of the text follows.
pub open spec fn ends_sentence(s: Seq<char>, i: int) -> bool {
    is_sentence_ending(s[i]) && (i + 1 == s.len() || is_white_space(s[i + 1]))
}

/// The piece of `s` from `from` to `to`, trimmed: no range if nothing is left.
pub open spec fn trimmed_span(s: Seq<char>, from: int, to: int) -> Seq<(int, int)> {
    let a = text_start(s, from, to);
    let b = text_end(s, from, to);
    if a < b {
        seq![(a, b)]
    } else {
        seq![]
    }
}

/// The sentences of `s` from `from` on, as ranges of characters, where no
/// sentence ends between `from` and `i`.
pub open spec fn spans_from(s: Seq<char>, from: int, i: int) -> Seq<(int, int)>
    decreases s.len() - i,
{
    if i >= s.len() {
        trimmed_span(s, from, s.len() as int)
    } else if ends_sentence(s, i) {
        trimmed_span(s, from, i + 1) + spans_from(s, i + 1, i + 1)
    } else {
        spans_from(s, from, i + 1)
    }
}

/// The sentences of `s`, as ranges of characters.
pub open spec fn sentence_spans(s: Seq<char>) -> Seq<(int, int)> {
    spans_from(s, 0, 0)
}

/// The texts at the given ranges of characters.
pub open spec fn span_texts(s: Seq<char>, spans: Seq<(int, int)>) -> Seq<Seq<char>> {
    spans.map_values(|p: (int, int)| s.subrange(p.0, p.1))
}

/// The byte ranges of the given ranges of characters.
pub open spec fn span_bytes(s: Seq<char>, spans: Seq<(int, int)>) -> Seq<Offsets> {
    spans.map_values(|p: (int, int)| (byte_pos(s, p.0) as usize, byte_pos(s, p.1) as usize))
}

/// The start and end of the text do not depend on what lies around the piece.
proof fn lemma_text_start_shift(s: Seq<char>, from: int, to: int, i: int)
    requires
        0 <= from <= i <= to <= s.len(),
    ensures
        text_start(s.subrange(from, to), i - from, to - from) + from == text_start(s, i, to),
    decreases to - i,
{
    if i < to {
        assert(s.subrange(from, to)[i - from] == s[i]);
        if is_white_space(s[i]) {
            lemma_text_start_shift(s, from, to, i + 1);
        }
    }
}

proof fn lemma_text_end_shift(s: Seq<char>, from: int, to: int, i: int)
    requires
        0 <= from <= i <= to <= s.len(),
    ensures
        text_end(s.subrange(from, to), 0, i - from) + from == text_end(s, from, i),
    decreases i - from,
{
    if i > from {
        assert(s.subrange(from, to)[i - 1 - from] == s[i - 1]);
        if is_white_space(s[i - 1]) {
            lemma_text_end_shift(s, from, to, i - 1);
        }
    }
}

/// Trimming the bytes of a range of characters trims the range of characters.
proof fn lemma_trim_span(s: Seq<char>, from: int, to: int)
    requires
        0 <= from <= to <= s.len(),
        byte_len(s) <= usize::MAX,
    ensures
        ({
            let span = trimmed_span(s, from, to);
            let outcome = trim_outcome(s, byte_pos(s, from) as usize, byte_pos(s, to) as usize);
            &&& outcome is Ok
            &&& outcome->Ok_0 is None <==> span.len() == 0
            &&& outcome->Ok_0 matches Some((text, range)) ==> {
                &&& span.len() == 1
                &&& text == s.subrange(span[0].0, span[0].1)
                &&& range == (
                    byte_pos(s, span[0].0) as usize,
                    byte_pos(s, span[0].1) as usize,
                )
            }
        }),
{
    lemma_byte_pos(s, from, to);
    lemma_text_bounds(s, from, to);
    lemma_text_start_shift(s, from, to, from);
    lemma_text_end_shift(s, from, to, to);
    let piece = s.subrange(from, to);
    let a = text_start(s, from, to);
    let b = text_end(s, from, to);
    if a < b {
        lemma_byte_pos(s, from, a);
        lemma_byte_pos(s, from, b);
        lemma_byte_pos(s, b, s.len() as int);
        assert(piece.take(a - from) == s.subrange(from, a));
        assert(piece.take(b - from) == s.subrange(from, b));
        assert(piece.subrange(a - from, b - from) == s.subrange(a, b));
    }
}

/// Cuts `context` into trimmed sentences by the simple rule, and gives their
/// texts and their byte ranges in `context`.
pub fn split_and_trim_sentences(context: &str) -> (res: Result<
    (Vec<String>, Vec<Offsets>),
    SentenceError,
>)
    ensures
        res is Ok,
        texts(res->Ok_0.0@) == span_texts(context@, sentence_spans(context@)),
        res->Ok_0.1@ == span_bytes(context@, sentence_spans(context@)),
{
    let len = byte_length(context);
    let chars = chars_of(context);
    let n = chars.len();
    let ghost s = context@;
    let ghost mut done: Seq<(int, int)> = seq![];
    let ghost mut from: int = 0;
    let mut sentences: Vec<String> = Vec::new();
    let mut ranges: Vec<Offsets> = Vec::new();
    let mut current_start: usize = 0;
    let mut position: usize = 0;
    let mut i: usize = 0;
    proof {
        lemma_byte_pos_ends(s);
    }
    while i < n
        invariant
            s == context@,
            chars@ == s,
            n == s.len(),
            len == byte_len(s),
            0 <= from <= i <= n,
            current_start == byte_pos(s, from),
            position == byte_pos(s, i as int),
            sentence_spans(s) == done + spans_from(s, from, i as int),
            texts(sentences@) == span_texts(s, done),
            ranges@ == span_bytes(s, done),
        decreases n - i,
    {
        let ch = chars[i];
        proof {
            lemma_byte_pos_step(s, i as int);
        }
        let next_position = position + utf8_width(ch);
        if sentence_ending(ch) && (i + 1 == n || white_space(chars[i + 1])) {
            proof {
                lemma_trim_span(s, from, i + 1);
            }
            match trim_range(context, current_start, next_position) {
                Ok(Some((sentence, range))) => {
                    proof {
                        lemma_push_span(s, sentences@, ranges@, done, sentence, range,
                            trimmed_span(s, from, i + 1)[0]);
                    }
                    sentences.push(sentence);
                    ranges.push(range);
                },
                Ok(None) => {},
                Err(e) => {
                    return Err(e);
                },
            }
            proof {
                done = done + trimmed_span(s, from, i + 1);
                from = i + 1;
            }
            current_start = next_position;
        }
        position = next_position;
        i += 1;
    }
    if current_start < len {
        proof {
            lemma_byte_pos_ends(s);
            lemma_trim_span(s, from, n as int);
        }
        match trim_range(context, current_start, len) {
            Ok(Some((sentence, range))) => {
                proof {
                    lemma_push_span(s, sentences@, ranges@, done, sentence, range,
                        trimmed_span(s, from, n as int)[0]);
                }
                sentences.push(sentence);
                ranges.push(range);
            },
            Ok(None) => {},
            Err(e) => {
                return Err(e);
            },
        }
        proof {
            done = done + trimmed_span(s, from, n as int);
        }
    } else {
        proof {
            if from < n {
                lemma_byte_pos_step(s, from);
                lemma_byte_pos(s, from + 1, n as int);
                lemma_byte_pos_ends(s);
            }
            assert(trimmed_span(s, from, n as int) == Seq::<(int, int)>::empty());
        }
    }
    assert(done == sentence_spans(s));
    Ok((sentences, ranges))
}

/// One more sentence on all three lists.
proof fn lemma_push_span(
    s: Seq<char>,
    sentences: Seq<String>,
    ranges: Seq<Offsets>,
    spans: Seq<(int, int)>,
    sentence: String,
    range: Offsets,
    span: (int, int),
)
    requires
        texts(sentences) == span_texts(s, spans),
        ranges == span_bytes(s, spans),
        sentence@ == s.subrange(span.0, span.1),
        range == (byte_pos(s, span.0) as usize, byte_pos(s, span.1) as usize),
    ensures
        texts(sentences.push(sentence)) == span_texts(s, spans + seq![span]),
        ranges.push(range) == span_bytes(s, spans + seq![span]),
{
    assert(texts(sentences.push(sentence)) == texts(sentences).push(sentence@));
    assert(span_texts(s, spans + seq![span]) == span_texts(s, spans).push(
        s.subrange(span.0, span.1),
    ));
    assert(span_bytes(s, spans + seq![span]) == span_bytes(s, spans).push(range));
}

/// Sentences: their texts, and their byte ranges in the context.
pub type SentencesView = (Seq<Seq<char>>, Seq<Offsets>);

/// Puts sentences before those of an outcome.
pub open spec fn with_before(
    before: SentencesView,
    outcome: Result<SentencesView, SentenceError>,
) -> Result<SentencesView, SentenceError> {
    match outcome {
        Ok(after) => Ok((before.0 + after.0, before.1 + after.1)),
        Err(e) => Err(e),
    }
}

/// The sentence that a trimmed piece gives, if any.
pub open spec fn piece_sentences(piece: Option<(Seq<char>, Offsets)>) -> SentencesView {
    match piece {
        Some((text, range)) => (seq![text], seq![range]),
        None => (seq![], seq![]),
    }
}

/// The sentences at the given byte ranges from the `i`-th on, each trimmed, the
/// empty ones left out; or what is wrong with the first range that is not one
/// of `context`.
pub open spec fn trim_all(context: Seq<char>, ranges: Seq<Offsets>, i: int) -> Result<
    SentencesView,
    SentenceError,
>
    decreases ranges.len() - i,
{
    if i >= ranges.len() {
        Ok((seq![], seq![]))
    } else {
        match trim_outcome(context, ranges[i].0, ranges[i].1) {
            Ok(piece) => with_before(piece_sentences(piece), trim_all(context, ranges, i + 1)),
            Err(e) => Err(e),
        }
    }
}

/// Trims each of the byte ranges of `context`, and leaves out those of which
/// nothing is left.
pub fn trim_ranges(context: &str, bounds: &[Offsets]) -> (res: Result<
    (Vec<String>, Vec<Offsets>),
    SentenceError,
>)
    ensures
        match res {
            Ok((sentences, ranges)) => trim_all(context@, bounds@, 0) == Ok::<_, SentenceError>(
                (texts(sentences@), ranges@),
            ),
            Err(e) => trim_all(context@, bounds@, 0) == Err::<SentencesView, SentenceError>(e),
        },
{
    let mut sentences: Vec<String> = Vec::new();
    let mut ranges: Vec<Offsets> = Vec::new();
    let mut i: usize = 0;
    assert(texts(sentences@) == Seq::<Seq<char>>::empty());
    proof {
        lemma_nothing_before(trim_all(context@, bounds@, 0));
    }
    while i < bounds.len()
        invariant
            i <= bounds@.len(),
            trim_all(context@, bounds@, 0) == with_before(
                (texts(sentences@), ranges@),
                trim_all(context@, bounds@, i as int),
            ),
        decreases bounds@.len() - i,
    {
        let (start, end) = bounds[i];
        let ghost before = (texts(sentences@), ranges@);
        let ghost rest = trim_all(context@, bounds@, i + 1);
        match trim_range(context, start, end) {
            Ok(Some((sentence, range))) => {
                sentences.push(sentence);
                ranges.push(range);
                proof {
                    let piece = (seq![sentence@], seq![range]);
                    assert(texts(sentences@) == before.0 + piece.0);
                    assert(ranges@ == before.1 + piece.1);
                    lemma_before_before(before, piece, rest);
                }
            },
            Ok(None) => {
                proof {
                    lemma_before_before(before, (seq![], seq![]), rest);
                    assert(before.0 + Seq::<Seq<char>>::empty() == before.0);
                    assert(before.1 + Seq::<Offsets>::empty() == before.1);
                }
            },
            Err(e) => {
                return Err(e);
            },
        }
        i += 1;
    }
    proof {
        assert(texts(sentences@) + Seq::<Seq<char>>::empty() == texts(sentences@));
        assert(ranges@ + Seq::<Offsets>::empty() == ranges@);
    }
    Ok((sentences, ranges))
}

proof fn lemma_nothing_before(outcome: Result<SentencesView, SentenceError>)
    ensures
        with_before((seq![], seq![]), outcome) == outcome,
{
    if let Ok(after) = outcome {
        assert(Seq::<Seq<char>>::empty() + after.0 == after.0);
        assert(Seq::<Offsets>::empty() + after.1 == after.1);
    }
}

proof fn lemma_before_before(
    a: SentencesView,
    b: SentencesView,
    outcome: Result<SentencesView, SentenceError>,
)
    ensures
        with_before(a, with_before(b, outcome)) == with_before((a.0 + b.0, a.1 + b.1), outcome),
{
    if let Ok(after) = outcome {
        assert(a.0 + (b.0 + after.0) == a.0 + b.0 + after.0);
        assert(a.1 + (b.1 + after.1) == a.1 + b.1 + after.1);
    }
}

/// The byte ranges of the sentences of a text by the Punkt algorithm with its
/// data for English.
pub uninterp spec fn punkt_bounds(text: Seq<char>) -> Seq<Offsets>;

/// Calls `punkt_n::SentenceByteOffsetTokenizer` with the standard parameters
/// and the training data of `punkt_n::TrainingData::english`, and collects the
/// ranges that it goes through. The contract names them and claims of them only
/// that they depend on the text alone.
#[verifier::external_body]
fn punkt_ranges(text: &str) -> (bounds: Vec<Offsets>)
    ensures
        bounds@ == punkt_bounds(text@),
{
    let data = punkt_n::TrainingData::english();
    punkt_n::SentenceByteOffsetTokenizer::<punkt_n::params::Standard>::new(text, &data).collect()
}

/// Cuts `context` into trimmed sentences by the Punkt algorithm, and gives
/// their texts and their byte ranges in `context`.
pub fn split_and_trim_sentences_punkt(context: &str) -> (res: Result<
    (Vec<String>, Vec<Offsets>),
    SentenceError,
>)
    ensures
        match res {
            Ok((sentences, ranges)) => trim_all(context@, punkt_bounds(context@), 0) == Ok::<
                _,
                SentenceError,
            >((texts(sentences@), ranges@)),
            Err(e) => trim_all(context@, punkt_bounds(context@), 0) == Err::<
                SentencesView,
                SentenceError,
            >(e),
        },
{
    let bounds = punkt_ranges(context);
    trim_ranges(context, bounds.as_slice())
}

/// How a context is cut into sentences.
#[derive(Clone, Copy, Debug, PartialEq, Eq, Structural)]
pub enum SentenceSplitter {
    /// After each sentence-ending character before white space or the end.
    Simple,
    /// By the Punkt algorithm with its data for English.
    Punkt,
}

/// The sentences of a context.
pub open spec fn split_outcome(context: Seq<char>, splitter: SentenceSplitter) -> Result<
    SentencesView,
    SentenceError,
> {
    match splitter {
        SentenceSplitter::Simple => Ok(
            (
                span_texts(context, sentence_spans(context)),
                span_bytes(context, sentence_spans(context)),
            ),
        ),
        SentenceSplitter::Punkt => trim_all(context, punkt_bounds(context), 0),
    }
}

/// Cuts `context` into trimmed sentences, and gives their texts and their byte
/// ranges in `context`.
pub fn split_sentences(context: &str, splitter: SentenceSplitter) -> (res: Result<
    (Vec<String>, Vec<Offsets>),
    SentenceError,
>)
    ensures
        match res {
            Ok((sentences, ranges)) => split_outcome(context@, splitter) == Ok::<_, SentenceError>(
                (texts(sentences@), ranges@),
            ),
            Err(e) => split_outcome(context@, splitter) == Err::<SentencesView, SentenceError>(e),
        },
{
    match splitter {
        SentenceSplitter::Simple => split_and_trim_sentences(context),
        SentenceSplitter::Punkt => split_and_trim_sentences_punkt(context),
    }
}

/// Whether the character `i` lies within one of `spans`.
pub open spec fn in_a_span(spans: Seq<(int, int)>, i: int) -> bool {
    exists|k: int| 0 <= k < spans.len() && (#[trigger] spans[k]).0 <= i < spans[k].1
}

/// A range of characters that starts and ends with a character that is not
/// white space, and in which no sentence ends before the last character.
pub open spec fn is_sentence(s: Seq<char>, span: (int, int)) -> bool {
    &&& 0 <= span.0 < span.1 <= s.len()
    &&& !is_white_space(s[span.0])
    &&& !is_white_space(s[span.1 - 1])
    &&& forall|i: int| span.0 <= i < span.1 - 1 ==> !#[trigger] ends_sentence(s, i)
}

/// What holds of the sentences from `from` on.
pub open spec fn spans_well_formed(s: Seq<char>, spans: Seq<(int, int)>, from: int) -> bool {
    &&& forall|k: int|
        0 <= k < spans.len() ==> from <= (#[trigger] spans[k]).0 && is_sentence(s, spans[k])
    &&& forall|k: int|
        0 <= k < spans.len() - 1 ==> ends_sentence(s, (#[trigger] spans[k]).1 - 1)
    &&& forall|j: int, k: int|
        0 <= j < k < spans.len() ==> (#[trigger] spans[j]).1 <= (#[trigger] spans[k]).0
    &&& forall|i: int|
        from <= i < s.len() && !is_white_space(#[trigger] s[i]) ==> in_a_span(spans, i)
}

proof fn lemma_trimmed_span(s: Seq<char>, from: int, to: int)
    requires
        0 <= from <= to <= s.len(),
    ensures
        ({
            let piece = trimmed_span(s, from, to);
            &&& piece.len() <= 1
            &&& piece.len() == 1 ==> {
                &&& from <= piece[0].0 < piece[0].1 <= to
                &&& !is_white_space(s[piece[0].0])
                &&& !is_white_space(s[piece[0].1 - 1])
            }
            &&& forall|i: int|
                from <= i < to && !is_white_space(#[trigger] s[i]) ==> piece.len() == 1
                    && piece[0].0 <= i < piece[0].1
        }),
{
    lemma_text_bounds(s, from, to);
    lemma_text_start(s, from, to);
    lemma_text_end(s, from, to);
}

/// A first sentence before well-formed ones.
proof fn lemma_sentence_before(
    s: Seq<char>,
    span: (int, int),
    tail: Seq<(int, int)>,
    from: int,
)
    requires
        0 <= from <= span.0,
        is_sentence(s, span),
        ends_sentence(s, span.1 - 1),
        spans_well_formed(s, tail, span.1),
        forall|i: int| from <= i < span.0 ==> is_white_space(#[trigger] s[i]),
    ensures
        spans_well_formed(s, seq![span] + tail, from),
{
    let spans = seq![span] + tail;
    assert(spans[0] == span);
    assert forall|k: int| 0 <= k < spans.len() implies from <= (#[trigger] spans[k]).0
        && is_sentence(s, spans[k]) by {
        if k > 0 {
            assert(spans[k] == tail[k - 1]);
        }
    }
    assert forall|k: int| 0 <= k < spans.len() - 1 implies ends_sentence(
        s,
        (#[trigger] spans[k]).1 - 1,
    ) by {
        if k > 0 {
            assert(spans[k] == tail[k - 1]);
        }
    }
    assert forall|j: int, k: int| 0 <= j < k < spans.len() implies (#[trigger] spans[j]).1 <= (
    #[trigger] spans[k]).0 by {
        assert(spans[k] == tail[k - 1]);
        if j > 0 {
            assert(spans[j] == tail[j - 1]);
        }
    }
    assert forall|j: int| from <= j < s.len() && !is_white_space(#[trigger] s[j]) implies in_a_span(
        spans,
        j,
    ) by {
        if j < span.1 {
            assert(spans[0].0 <= j < spans[0].1);
        } else {
            let k = choose|k: int| 0 <= k < tail.len() && (#[trigger] tail[k]).0 <= j < tail[k].1;
            assert(spans[k + 1] == tail[k]);
        }
    }
}

proof fn lemma_spans_from(s: Seq<char>, from: int, i: int)
    requires
        0 <= from <= i <= s.len(),
        forall|k: int| from <= k < i ==> !#[trigger] ends_sentence(s, k),
    ensures
        spans_well_formed(s, spans_from(s, from, i), from),
    decreases s.len() - i,
{
    if i >= s.len() {
        let spans = trimmed_span(s, from, s.len() as int);
        lemma_trimmed_span(s, from, s.len() as int);
        assert forall|j: int| from <= j < s.len() && !is_white_space(#[trigger] s[j]) implies in_a_span(
            spans,
            j,
        ) by {
            assert(spans[0].0 <= j < spans[0].1);
        }
    } else if ends_sentence(s, i) {
        let head = trimmed_span(s, from, i + 1);
        lemma_trimmed_span(s, from, i + 1);
        lemma_spans_from(s, i + 1, i + 1);
        // The piece ends with the character that ends the sentence.
        assert(!is_white_space(s[i]));
        assert(head == seq![head[0]]);
        lemma_sentence_before(s, head[0], spans_from(s, i + 1, i + 1), from);
    } else {
        lemma_spans_from(s, from, i + 1);
    }
}

/// Sentences come in order without overlapping; each starts and ends with a
/// character that is not white space; a sentence ends at its end only, and with
/// every one but the last a sentence ends.
pub proof fn law_sentences_are_trimmed_and_ordered(s: Seq<char>)
    ensures
        spans_well_formed(s, sentence_spans(s), 0),
{
    lemma_spans_from(s, 0, 0);
}

/// Nothing but white space is lost: every other character lies in exactly one
/// sentence.
pub proof fn law_only_white_space_is_lost(s: Seq<char>, i: int)
    requires
        0 <= i < s.len(),
        !is_white_space(s[i]),
    ensures
        in_a_span(sentence_spans(s), i),
        forall|j: int, k: int|
            0 <= j < sentence_spans(s).len() && 0 <= k < sentence_spans(s).len() && (
            #[trigger] sentence_spans(s)[j]).0 <= i < sentence_spans(s)[j].1 && (
            #[trigger] sentence_spans(s)[k]).0 <= i < sentence_spans(s)[k].1 ==> j == k,
{
    lemma_spans_from(s, 0, 0);
    let spans = sentence_spans(s);
    assert forall|j: int, k: int|
        0 <= j < spans.len() && 0 <= k < spans.len() && (#[trigger] spans[j]).0 <= i < spans[j].1
            && (#[trigger] spans[k]).0 <= i < spans[k].1 implies j == k by {
        if j < k {
            assert(spans[j].1 <= spans[k].0);
        } else if k < j {
            assert(spans[k].1 <= spans[j].0);
        }
    }
}

/// The byte range `range` of `s` holds the text `text`.
pub open spec fn range_holds(s: Seq<char>, range: Offsets, text: Seq<char>) -> bool {
    &&& range.0 <= range.1 <= byte_len(s)
    &&& is_char_boundary(encode_utf8(s), range.0 as int)
    &&& is_char_boundary(encode_utf8(s), range.1 as int)
    &&& text_between(s, range.0 as int, range.1 as int) == text
}

proof fn lemma_span_range(s: Seq<char>, span: (int, int))
    requires
        0 <= span.0 <= span.1 <= s.len(),
        byte_len(s) <= usize::MAX,
    ensures
        byte_pos(s, span.0) as usize == byte_pos(s, span.0),
        byte_pos(s, span.1) as usize == byte_pos(s, span.1),
        range_holds(
            s,
            (byte_pos(s, span.0) as usize, byte_pos(s, span.1) as usize),
            s.subrange(span.0, span.1),
        ),
{
    lemma_byte_pos(s, span.0, span.1);
}

/// The byte ranges come in order, and each lies within the context and holds
/// its sentence.
pub proof fn law_ranges_hold_the_sentences(s: Seq<char>)
    requires
        byte_len(s) <= usize::MAX,
    ensures
        ({
            let spans = sentence_spans(s);
            let ranges = span_bytes(s, spans);
            &&& ranges_in_order(ranges)
            &&& forall|k: int|
                0 <= k < ranges.len() ==> range_holds(
                    s,
                    #[trigger] ranges[k],
                    span_texts(s, spans)[k],
                )
        }),
{
    let spans = sentence_spans(s);
    let ranges = span_bytes(s, spans);
    law_sentences_are_trimmed_and_ordered(s);
    assert forall|k: int| 0 <= k < ranges.len() implies range_holds(
        s,
        #[trigger] ranges[k],
        span_texts(s, spans)[k],
    ) by {
        assert(is_sentence(s, spans[k]));
        lemma_span_range(s, spans[k]);
    }
    assert forall|k: int| 0 <= k < ranges.len() implies (#[trigger] ranges[k]).0 <= ranges[k].1 by {
        assert(range_holds(s, ranges[k], span_texts(s, spans)[k]));
    }
    assert forall|j: int, k: int| 0 <= j < k < ranges.len() implies (#[trigger] ranges[j]).1 <= (
    #[trigger] ranges[k]).0 by {
        assert(is_sentence(s, spans[j]));
        assert(is_sentence(s, spans[k]));
        assert(spans[j].1 <= spans[k].0);
        lemma_span_range(s, spans[j]);
        lemma_span_range(s, spans[k]);
        lemma_byte_pos(s, spans[j].1, spans[k].0);
    }
}

/// A trimmed piece lies within the range that it was cut from, and the bytes of
/// its own range are those of its text.
pub proof fn law_trimmed_piece_lies_in_its_range(context: Seq<char>, start: usize, end: usize)
    requires
        trim_outcome(context, start, end) is Ok,
    ensures
        trim_outcome(context, start, end)->Ok_0 matches Some((text, range)) ==> {
            &&& start <= range.0 < range.1 <= end
            &&& text.len() > 0
            &&& !is_white_space(text[0])
            &&& !is_white_space(text.last())
            &&& text_between(context, range.0 as int, range.1 as int) == text
        },
{
    let piece = text_between(context, start as int, end as int);
    let n = piece.len() as int;
    let a = text_start(piece, 0, n);
    let b = text_end(piece, 0, n);
    lemma_text_bounds(piece, 0, n);
    lemma_text_start(piece, 0, n);
    lemma_text_end(piece, 0, n);
    lemma_between(context, start as int, end as int);
    if a < b {
        lemma_byte_pos(piece, a, b);
        lemma_byte_pos_step(piece, a);
        lemma_byte_pos(piece, a + 1, b);
        let bytes = encode_utf8(context).subrange(start as int, end as int);
        assert(bytes == encode_utf8(piece));
        assert(encode_utf8(context).subrange(start + byte_pos(piece, a), start + byte_pos(piece, b))
            == bytes.subrange(byte_pos(piece, a), byte_pos(piece, b)));
    }
}

/// The byte at which the text of a context ends: what follows is white space.
pub open spec fn content_end(context: Seq<char>) -> int {
    byte_pos(context, text_end(context, 0, context.len() as int))
}

/// Whether the byte `p` lies within one of `ranges`.
pub open spec fn in_a_range(ranges: Seq<Offsets>, p: int) -> bool {
    exists|k: int| 0 <= k < ranges.len() && (#[trigger] ranges[k]).0 <= p < ranges[k].1
}

/// Positions come in the order of the characters.
proof fn lemma_byte_pos_order(s: Seq<char>, i: int, j: int)
    requires
        0 <= i < j <= s.len(),
    ensures
        byte_pos(s, i) < byte_pos(s, j),
{
    lemma_byte_pos_step(s, i);
    lemma_byte_pos(s, i + 1, j);
}

/// Of the characters of a piece, trimming loses only white space; and what is
/// left ends within the text of the context.
proof fn lemma_trimmed_piece(context: Seq<char>, start: usize, end: usize)
    requires
        byte_len(context) <= usize::MAX,
        trim_outcome(context, start, end) is Ok,
    ensures
        match trim_outcome(context, start, end)->Ok_0 {
            Some((_, range)) => {
                &&& start <= range.0 < range.1 <= end
                &&& range.1 <= content_end(context)
                &&& forall|i: int|
                    0 <= i < context.len() && !is_white_space(#[trigger] context[i]) && start
                        <= byte_pos(context, i) < end ==> range.0 <= byte_pos(context, i) < range.1
            },
            None => forall|i: int|
                0 <= i < context.len() && !is_white_space(#[trigger] context[i]) ==> !(start
                    <= byte_pos(context, i) < end),
        },
{
    let n = context.len() as int;
    let from = lemma_boundary_is_a_position(context, start as int);
    let to = lemma_boundary_is_a_position(context, end as int);
    if to < from {
        lemma_byte_pos_order(context, to, from);
    }
    lemma_trim_span(context, from, to);
    lemma_trimmed_span(context, from, to);
    lemma_text_end(context, 0, n);
    let span = trimmed_span(context, from, to);
    let outcome = trim_outcome(context, start, end)->Ok_0;
    if outcome is Some {
        let (a, b) = span[0];
        lemma_byte_pos(context, from, a);
        lemma_byte_pos(context, b, to);
        lemma_byte_pos_order(context, a, b);
        assert(!is_white_space(context[b - 1]));
        assert(b <= text_end(context, 0, n));
        lemma_byte_pos(context, b, text_end(context, 0, n));
        assert((outcome->0).1 == (byte_pos(context, a) as usize, byte_pos(context, b) as usize));
    }
    assert forall|i: int|
        0 <= i < n && !is_white_space(#[trigger] context[i]) && start <= byte_pos(context, i)
            < end implies from <= i < to && span.len() == 1 && byte_pos(context, span[0].0)
        <= byte_pos(context, i) < byte_pos(context, span[0].1) by {
        if i < from {
            lemma_byte_pos_order(context, i, from);
        }
        if to <= i {
            lemma_byte_pos(context, to, i);
        }
        assert(span[0].0 <= i < span[0].1);
        lemma_byte_pos(context, span[0].0, i);
        lemma_byte_pos_order(context, i, span[0].1);
    }
}

/// What holds of pieces that were cut at `bounds` from the `i`-th on, where
/// those come in order.
proof fn lemma_trim_all(context: Seq<char>, bounds: Seq<Offsets>, i: int)
    requires
        byte_len(context) <= usize::MAX,
        ranges_in_order(bounds),
        0 <= i <= bounds.len(),
        trim_all(context, bounds, i) is Ok,
    ensures
        ({
            let ranges = trim_all(context, bounds, i)->Ok_0.1;
            &&& ranges_in_order(ranges)
            &&& forall|k: int|
                0 <= k < ranges.len() ==> i < bounds.len() && bounds[i].0 <= (#[trigger] ranges[k]).0
            &&& forall|c: int, b: int|
                0 <= c < context.len() && !is_white_space(#[trigger] context[c]) && i <= b
                    < bounds.len() && (#[trigger] bounds[b]).0 <= byte_pos(context, c) < bounds[b].1
                    ==> in_a_range(ranges, byte_pos(context, c))
        }),
    decreases bounds.len() - i,
{
    if i < bounds.len() {
        lemma_trim_all(context, bounds, i + 1);
        lemma_trimmed_piece(context, bounds[i].0, bounds[i].1);
        let piece = trim_outcome(context, bounds[i].0, bounds[i].1)->Ok_0;
        let head = piece_sentences(piece).1;
        let tail = trim_all(context, bounds, i + 1)->Ok_0.1;
        let ranges = trim_all(context, bounds, i)->Ok_0.1;
        assert(ranges == head + tail);
        let m = head.len() as int;
        assert forall|k: int| 0 <= k < ranges.len() implies bounds[i].0 <= (#[trigger] ranges[k]).0
            && ranges[k].0 <= ranges[k].1 by {
            if k >= m {
                assert(ranges[k] == tail[k - m]);
                assert(bounds[i].1 <= bounds[i + 1].0);
            }
        }
        assert forall|j: int, k: int| 0 <= j < k < ranges.len() implies (#[trigger] ranges[j]).1
            <= (#[trigger] ranges[k]).0 by {
            assert(ranges[k] == tail[k - m]);
            if j >= m {
                assert(ranges[j] == tail[j - m]);
            } else {
                assert(bounds[i].1 <= bounds[i + 1].0);
            }
        }
        assert forall|c: int, b: int|
            0 <= c < context.len() && !is_white_space(#[trigger] context[c]) && i <= b
                < bounds.len() && (#[trigger] bounds[b]).0 <= byte_pos(context, c)
                < bounds[b].1 implies in_a_range(ranges, byte_pos(context, c)) by {
            let p = byte_pos(context, c);
            if b == i {
                assert(ranges[0].0 <= p < ranges[0].1);
            } else {
                let k = choose|k: int|
                    0 <= k < tail.len() && (#[trigger] tail[k]).0 <= p < tail[k].1;
                assert(ranges[k + m] == tail[k]);
            }
        }
    }
}

/// Where pieces are cut in order without overlapping, what is left after
/// trimming does not overlap either, and every character of a piece that is not
/// white space lies in exactly one sentence. This is for pieces that Punkt cuts,
/// where they come so.
pub proof fn law_trimmed_pieces_lose_only_white_space(
    context: Seq<char>,
    bounds: Seq<Offsets>,
    c: int,
)
    requires
        byte_len(context) <= usize::MAX,
        ranges_in_order(bounds),
        trim_all(context, bounds, 0) is Ok,
        0 <= c < context.len(),
        !is_white_space(context[c]),
        in_a_range(bounds, byte_pos(context, c)),
    ensures
        ({
            let ranges = trim_all(context, bounds, 0)->Ok_0.1;
            let p = byte_pos(context, c);
            &&& ranges_in_order(ranges)
            &&& in_a_range(ranges, p)
            &&& forall|j: int, k: int|
                0 <= j < ranges.len() && 0 <= k < ranges.len() && (#[trigger] ranges[j]).0 <= p
                    < ranges[j].1 && (#[trigger] ranges[k]).0 <= p < ranges[k].1 ==> j == k
        }),
{
    lemma_trim_all(context, bounds, 0);
    let ranges = trim_all(context, bounds, 0)->Ok_0.1;
    let p = byte_pos(context, c);
    let b = choose|b: int| 0 <= b < bounds.len() && (#[trigger] bounds[b]).0 <= p < bounds[b].1;
    assert(!is_white_space(context[c]) && bounds[b].0 <= p < bounds[b].1);
    assert forall|j: int, k: int|
        0 <= j < ranges.len() && 0 <= k < ranges.len() && (#[trigger] ranges[j]).0 <= p
            < ranges[j].1 && (#[trigger] ranges[k]).0 <= p < ranges[k].1 implies j == k by {
        if j < k {
            assert(ranges[j].1 <= ranges[k].0);
        } else if k < j {
            assert(ranges[k].1 <= ranges[j].0);
        }
    }
}

/// Where pieces are cut in order without overlapping, what is left after
/// trimming comes in order and does not overlap.
pub proof fn law_trimmed_pieces_stay_in_order(context: Seq<char>, bounds: Seq<Offsets>)
    requires
        byte_len(context) <= usize::MAX,
        ranges_in_order(bounds),
        trim_all(context, bounds, 0) is Ok,
    ensures
        ranges_in_order(trim_all(context, bounds, 0)->Ok_0.1),
{
    lemma_trim_all(context, bounds, 0);
}

/// Sentences end within the text of the context.
pub proof fn law_sentences_end_within_the_text(context: Seq<char>, splitter: SentenceSplitter)
    requires
        byte_len(context) <= usize::MAX,
    ensures
        0 <= content_end(context) <= byte_len(context),
        split_outcome(context, splitter) matches Ok((_, ranges)) ==> forall|k: int|
            0 <= k < ranges.len() ==> (#[trigger] ranges[k]).0 <= ranges[k].1 <= content_end(
                context,
            ),
{
    let n = context.len() as int;
    let last = text_end(context, 0, n);
    lemma_text_end(context, 0, n);
    lemma_byte_pos(context, last, n);
    lemma_byte_pos_ends(context);
    match splitter {
        SentenceSplitter::Simple => {
            let spans = sentence_spans(context);
            let ranges = span_bytes(context, spans);
            law_sentences_are_trimmed_and_ordered(context);
            assert forall|k: int| 0 <= k < ranges.len() implies (#[trigger] ranges[k]).0
                <= ranges[k].1 <= content_end(context) by {
                assert(is_sentence(context, spans[k]));
                lemma_span_range(context, spans[k]);
                assert(spans[k].1 <= last);
                lemma_byte_pos(context, spans[k].1, last);
            }
        },
        SentenceSplitter::Punkt => {
            lemma_trim_all_ends(context, punkt_bounds(context), 0);
        },
    }
}

proof fn lemma_trim_all_ends(context: Seq<char>, bounds: Seq<Offsets>, i: int)
    requires
        0 <= i <= bounds.len(),
        byte_len(context) <= usize::MAX,
    ensures
        trim_all(context, bounds, i) matches Ok((_, ranges)) ==> forall|k: int|
            0 <= k < ranges.len() ==> (#[trigger] ranges[k]).0 <= ranges[k].1 <= content_end(
                context,
            ),
    decreases bounds.len() - i,
{
    if i < bounds.len() {
        lemma_trim_all_ends(context, bounds, i + 1);
        if trim_outcome(context, bounds[i].0, bounds[i].1) is Ok {
            lemma_trimmed_piece(context, bounds[i].0, bounds[i].1);
        }
    }
}

/// A sentence can end with a full stop, an exclamation mark or a question mark,
/// and with no other character.
pub proof fn law_three_marks_end_sentences(c: char, b: bool)
    requires
        call_ensures(sentence_ending, (c,), b),
    ensures
        b == is_sentence_ending(c),
        b <==> c == '.' || c == '!' || c == '?',
{
}

/// The sentences of a context by the simple rule, as ranges of characters. They
/// come in order and hold every character that is not white space; each starts
/// and ends with such a character; each but the last ends with a full stop, an
/// exclamation or a question mark before white space, and inside a sentence none
/// of these stands before white space. The texts are those of the ranges, and
/// the byte ranges are where these start and end in the encoding.
pub proof fn law_sentences_end_with_marks(
    context: &str,
    res: Result<(Vec<String>, Vec<Offsets>), SentenceError>,
) -> (spans: Seq<(int, int)>)
    requires
        call_ensures(split_and_trim_sentences, (context,), res),
        encode_utf8(context@).len() <= usize::MAX,
    ensures
        res is Ok,
        res->Ok_0.0@.len() == spans.len(),
        res->Ok_0.1@.len() == spans.len(),
        forall|k: int|
            0 <= k < spans.len() ==> {
                let (a, b) = #[trigger] spans[k];
                &&& 0 <= a < b <= context@.len()
                &&& res->Ok_0.0@[k]@ == context@.subrange(a, b)
                &&& res->Ok_0.1@[k].0 == encode_utf8(context@.take(a)).len()
                &&& res->Ok_0.1@[k].1 == encode_utf8(context@.take(b)).len()
                &&& !is_white_space(context@[a])
                &&& !is_white_space(context@[b - 1])
            },
        forall|k: int|
            0 <= k < spans.len() - 1 ==> {
                let b = (#[trigger] spans[k]).1;
                &&& b < context@.len()
                &&& is_white_space(context@[b])
                &&& context@[b - 1] == '.' || context@[b - 1] == '!' || context@[b - 1] == '?'
            },
        forall|k: int, i: int|
            0 <= k < spans.len() && (#[trigger] spans[k]).0 <= i < spans[k].1 - 1 && is_white_space(
                context@[i + 1],
            ) ==> #[trigger] context@[i] != '.' && context@[i] != '!' && context@[i] != '?',
        forall|j: int, k: int|
            0 <= j < k < spans.len() ==> (#[trigger] spans[j]).1 <= (#[trigger] spans[k]).0,
        forall|i: int|
            0 <= i < context@.len() && !is_white_space(#[trigger] context@[i]) ==> exists|k: int|
                0 <= k < spans.len() && (#[trigger] spans[k]).0 <= i < spans[k].1,
{
    let s = context@;
    let spans = sentence_spans(s);
    let sentences = res->Ok_0.0@;
    let ranges = res->Ok_0.1@;
    assert(texts(sentences).len() == sentences.len());
    assert forall|k: int| 0 <= k < spans.len() implies {
        let (a, b) = #[trigger] spans[k];
        &&& 0 <= a < b <= s.len()
        &&& sentences[k]@ == s.subrange(a, b)
        &&& ranges[k].0 == encode_utf8(s.take(a)).len()
        &&& ranges[k].1 == encode_utf8(s.take(b)).len()
        &&& !is_white_space(s[a])
        &&& !is_white_space(s[b - 1])
    } by {
        lemma_sentence_at(s, k);
        assert(texts(sentences)[k] == sentences[k]@);
    }
    assert forall|k: int| 0 <= k < spans.len() - 1 implies {
        let b = (#[trigger] spans[k]).1;
        &&& b < s.len()
        &&& is_white_space(s[b])
        &&& s[b - 1] == '.' || s[b - 1] == '!' || s[b - 1] == '?'
    } by {
        lemma_mark_at_the_end(s, k);
    }
    assert forall|k: int, i: int|
        0 <= k < spans.len() && (#[trigger] spans[k]).0 <= i < spans[k].1 - 1 && is_white_space(
            s[i + 1],
        ) implies #[trigger] s[i] != '.' && s[i] != '!' && s[i] != '?' by {
        lemma_no_mark_inside(s, k, i);
    }
    assert forall|j: int, k: int| 0 <= j < k < spans.len() implies (#[trigger] spans[j]).1 <= (
    #[trigger] spans[k]).0 by {
        lemma_sentences_in_order(s, j, k);
    }
    assert forall|i: int| 0 <= i < s.len() && !is_white_space(#[trigger] s[i]) implies exists|k: int|
        0 <= k < spans.len() && (#[trigger] spans[k]).0 <= i < spans[k].1 by {
        lemma_in_some_sentence(s, i);
    }
    spans
}

proof fn lemma_sentence_at(s: Seq<char>, k: int)
    requires
        0 <= k < sentence_spans(s).len(),
        byte_len(s) <= usize::MAX,
    ensures
        ({
            let (a, b) = sentence_spans(s)[k];
            &&& 0 <= a < b <= s.len()
            &&& span_texts(s, sentence_spans(s))[k] == s.subrange(a, b)
            &&& span_bytes(s, sentence_spans(s))[k].0 == encode_utf8(s.take(a)).len()
            &&& span_bytes(s, sentence_spans(s))[k].1 == encode_utf8(s.take(b)).len()
            &&& !is_white_space(s[a])
            &&& !is_white_space(s[b - 1])
        }),
{
    law_sentences_are_trimmed_and_ordered(s);
    assert(is_sentence(s, sentence_spans(s)[k]));
    lemma_span_range(s, sentence_spans(s)[k]);
}

proof fn lemma_mark_at_the_end(s: Seq<char>, k: int)
    requires
        0 <= k < sentence_spans(s).len() - 1,
    ensures
        ({
            let b = sentence_spans(s)[k].1;
            &&& 0 < b < s.len()
            &&& is_white_space(s[b])
            &&& s[b - 1] == '.' || s[b - 1] == '!' || s[b - 1] == '?'
        }),
{
    let spans = sentence_spans(s);
    let b = spans[k].1;
    law_sentences_are_trimmed_and_ordered(s);
    lemma_sentences_in_order(s, k, k + 1);
    assert(is_sentence(s, spans[k]));
    assert(is_sentence(s, spans[k + 1]));
    assert(b <= spans[k + 1].0 < s.len());
    let last = b - 1;
    assert(ends_sentence(s, last));
    assert(last + 1 == b);
}

proof fn lemma_no_mark_inside(s: Seq<char>, k: int, i: int)
    requires
        0 <= k < sentence_spans(s).len(),
        sentence_spans(s)[k].0 <= i < sentence_spans(s)[k].1 - 1,
        is_white_space(s[i + 1]),
    ensures
        s[i] != '.' && s[i] != '!' && s[i] != '?',
{
    law_sentences_are_trimmed_and_ordered(s);
    assert(is_sentence(s, sentence_spans(s)[k]));
    assert(!ends_sentence(s, i));
}

proof fn lemma_sentences_in_order(s: Seq<char>, j: int, k: int)
    requires
        0 <= j < k < sentence_spans(s).len(),
    ensures
        sentence_spans(s)[j].1 <= sentence_spans(s)[k].0,
{
    law_sentences_are_trimmed_and_ordered(s);
}

proof fn lemma_in_some_sentence(s: Seq<char>, i: int)
    requires
        0 <= i < s.len(),
        !is_white_space(s[i]),
    ensures
        exists|k: int|
            0 <= k < sentence_spans(s).len() && (#[trigger] sentence_spans(s)[k]).0 <= i
                < sentence_spans(s)[k].1,
{
    law_sentences_are_trimmed_and_ordered(s);
    assert(in_a_span(sentence_spans(s), i));
}

/// A text in which no full stop, exclamation or question mark stands before
/// white space has at most one sentence. It has none exactly if it is all white
/// space; else it is the one sentence, but for white space around it.
pub proof fn law_no_mark_no_cut(
    context: &str,
    res: Result<(Vec<String>, Vec<Offsets>), SentenceError>,
)
    requires
        call_ensures(split_and_trim_sentences, (context,), res),
        encode_utf8(context@).len() <= usize::MAX,
        forall|i: int|
            0 <= i < context@.len() - 1 && is_white_space(context@[i + 1])
                ==> #[trigger] context@[i] != '.' && context@[i] != '!' && context@[i] != '?',
    ensures
        res is Ok,
        res->Ok_0.0@.len() <= 1,
        res->Ok_0.0@.len() == 0 <==> forall|i: int|
            0 <= i < context@.len() ==> is_white_space(#[trigger] context@[i]),
        context@.len() > 0 && !is_white_space(context@[0]) && !is_white_space(context@.last())
            ==> res->Ok_0.0@.len() == 1 && res->Ok_0.0@[0]@ == context@ && res->Ok_0.1@[0] == (
            0usize,
            encode_utf8(context@).len() as usize,
        ),
{
    let s = context@;
    let spans = sentence_spans(s);
    let n = s.len() as int;
    let sentences = res->Ok_0.0@;
    assert(texts(sentences).len() == sentences.len());
    if spans.len() > 1 {
        let b = spans[0].1;
        lemma_mark_at_the_end(s, 0);
        assert(s[b - 1] != '.' && s[b - 1] != '!' && s[b - 1] != '?') by {
            assert(is_white_space(s[b - 1 + 1]));
        }
    }
    if spans.len() == 1 {
        lemma_sentence_at(s, 0);
    } else {
        assert forall|i: int| 0 <= i < n implies is_white_space(#[trigger] s[i]) by {
            if !is_white_space(s[i]) {
                lemma_in_some_sentence(s, i);
            }
        }
    }
    if n > 0 && !is_white_space(s[0]) && !is_white_space(s.last()) {
        lemma_in_some_sentence(s, 0);
        lemma_in_some_sentence(s, n - 1);
        lemma_sentence_at(s, 0);
        assert(spans[0] == (0int, n));
        assert(s.subrange(0, n) == s);
        assert(texts(sentences)[0] == sentences[0]@);
        lemma_byte_pos_ends(s);
        assert(s.take(n) == s);
        assert(s.take(0) == Seq::<char>::empty());
    }
}

/// What trimming a byte range does. It is refused exactly if the range is
/// reversed, ends after the context, or cuts a character; else the characters of
/// the range are white space, the text that is left, and white space again, and
/// the text's own range starts and ends where the two pieces of white space do.
/// Nothing is left exactly if all of them are white space.
pub proof fn law_trimming_takes_white_space_off(
    context: &str,
    start: usize,
    end: usize,
    res: Result<Option<(String, Offsets)>, SentenceError>,
) -> (around: (Seq<char>, Seq<char>))
    requires
        call_ensures(trim_range, (context, start, end), res),
        encode_utf8(context@).len() <= usize::MAX,
    ensures
        ({
            let bytes = encode_utf8(context@);
            let cut = !is_char_boundary(bytes, start as int) || !is_char_boundary(bytes, end as int);
            if start > end || end > bytes.len() {
                res == Err::<Option<(String, Offsets)>, SentenceError>(
                    SentenceError::InvalidRange { start, end, len: bytes.len() as usize },
                )
            } else if cut {
                res == Err::<Option<(String, Offsets)>, SentenceError>(
                    SentenceError::NotOnCharBoundary { start, end },
                )
            } else {
                let piece = decode_utf8(bytes.subrange(start as int, end as int));
                let (before, after) = around;
                &&& forall|i: int| 0 <= i < before.len() ==> is_white_space(#[trigger] before[i])
                &&& forall|i: int| 0 <= i < after.len() ==> is_white_space(#[trigger] after[i])
                &&& res is Ok
                &&& match res->Ok_0 {
                    Some((text, range)) => {
                        &&& piece == before + text@ + after
                        &&& text@.len() > 0
                        &&& !is_white_space(text@[0])
                        &&& !is_white_space(text@.last())
                        &&& range.0 == start + encode_utf8(before).len()
                        &&& range.1 == range.0 + encode_utf8(text@).len()
                        &&& range.1 + encode_utf8(after).len() == end
                    },
                    None => piece == before + after,
                }
            }
        }),
{
    let bytes = encode_utf8(context@);
    if start > end || end > bytes.len() || !is_char_boundary(bytes, start as int)
        || !is_char_boundary(bytes, end as int) {
        (seq![], seq![])
    } else {
        let piece = text_between(context@, start as int, end as int);
        let n = piece.len() as int;
        let a = text_start(piece, 0, n);
        let b = text_end(piece, 0, n);
        lemma_text_bounds(piece, 0, n);
        lemma_text_start(piece, 0, n);
        lemma_text_end(piece, 0, n);
        lemma_between(context@, start as int, end as int);
        lemma_byte_pos_ends(piece);
        if a < b {
            lemma_byte_pos(piece, a, b);
            lemma_byte_pos(piece, b, n);
            let before = piece.take(a);
            let after = piece.skip(b);
            assert(piece.subrange(b, n) == after);
            assert(piece == before + piece.subrange(a, b) + after);
            (before, after)
        } else {
            assert(piece + Seq::<char>::empty() == piece);
            (piece, seq![])
        }
    }
}

/// One more piece to trim: after an error nothing changes; else an error is the
/// outcome, a piece of which nothing is left changes nothing, and one of which
/// something is left comes last. No pieces give no sentences.
pub proof fn law_one_more_piece(context: Seq<char>, bounds: Seq<Offsets>, next: Offsets)
    ensures
        trim_all(context, seq![], 0) == Ok::<SentencesView, SentenceError>((seq![], seq![])),
        trim_all(context, bounds.push(next), 0) == match trim_all(context, bounds, 0) {
            Err(e) => Err(e),
            Ok((sentences, ranges)) => match trim_outcome(context, next.0, next.1) {
                Err(e) => Err(e),
                Ok(None) => Ok((sentences, ranges)),
                Ok(Some((text, range))) => Ok((sentences.push(text), ranges.push(range))),
            },
        },
{
    lemma_one_more_piece(context, bounds, next, 0);
}

proof fn lemma_one_more_piece(context: Seq<char>, bounds: Seq<Offsets>, next: Offsets, i: int)
    requires
        0 <= i <= bounds.len(),
    ensures
        trim_all(context, bounds.push(next), i) == match trim_all(context, bounds, i) {
            Err(e) => Err(e),
            Ok((sentences, ranges)) => match trim_outcome(context, next.0, next.1) {
                Err(e) => Err(e),
                Ok(None) => Ok((sentences, ranges)),
                Ok(Some((text, range))) => Ok((sentences.push(text), ranges.push(range))),
            },
        },
    decreases bounds.len() - i,
{
    let more = bounds.push(next);
    let last = trim_outcome(context, next.0, next.1);
    if i == bounds.len() {
        assert(trim_all(context, more, i + 1) == Ok::<SentencesView, SentenceError>(
            (seq![], seq![]),
        ));
        if last is Ok {
            let piece = piece_sentences(last->Ok_0);
            assert(piece.0 + Seq::<Seq<char>>::empty() == piece.0);
            assert(piece.1 + Seq::<Offsets>::empty() == piece.1);
            if last->Ok_0 is Some {
                assert(piece.0 == Seq::<Seq<char>>::empty().push((last->Ok_0->0).0));
                assert(piece.1 == Seq::<Offsets>::empty().push((last->Ok_0->0).1));
            }
        }
    } else {
        lemma_one_more_piece(context, bounds, next, i + 1);
        assert(more[i] == bounds[i]);
        let here = trim_outcome(context, bounds[i].0, bounds[i].1);
        if here is Ok && trim_all(context, bounds, i + 1) is Ok && last is Ok && last->Ok_0 is Some {
            let piece = piece_sentences(here->Ok_0);
            let (sentences, ranges) = trim_all(context, bounds, i + 1)->Ok_0;
            let (text, range) = last->Ok_0->0;
            assert(piece.0 + sentences.push(text) == (piece.0 + sentences).push(text));
            assert(piece.1 + ranges.push(range) == (piece.1 + ranges).push(range));
        }
    }
}

/// What came of cutting a context into sentences.
pub open spec fn split_view(
    res: Result<(Vec<String>, Vec<Offsets>), SentenceError>,
) -> Result<SentencesView, SentenceError> {
    match res {
        Ok((sentences, ranges)) => Ok((texts(sentences@), ranges@)),
        Err(e) => Err(e),
    }
}

/// Trimming pieces one by one gives what trimming each of them gives; the Punkt
/// splitter trims the pieces that Punkt cuts; and a context is cut by the splitter
/// that is named.
pub proof fn law_splitters(
    context: &str,
    bounds: &[Offsets],
    splitter: SentenceSplitter,
    trimmed: Result<(Vec<String>, Vec<Offsets>), SentenceError>,
    by_rule: Result<(Vec<String>, Vec<Offsets>), SentenceError>,
    by_punkt: Result<(Vec<String>, Vec<Offsets>), SentenceError>,
    split: Result<(Vec<String>, Vec<Offsets>), SentenceError>,
)
    requires
        call_ensures(trim_ranges, (context, bounds), trimmed),
        call_ensures(split_and_trim_sentences, (context,), by_rule),
        call_ensures(split_and_trim_sentences_punkt, (context,), by_punkt),
        call_ensures(split_sentences, (context, splitter), split),
    ensures
        split_view(trimmed) == trim_all(context@, bounds@, 0),
        bounds@ == punkt_bounds(context@) ==> split_view(trimmed) == split_view(by_punkt),
        splitter is Simple ==> split_view(split) == split_view(by_rule),
        splitter is Punkt ==> split_view(split) == split_view(by_punkt),
        split_outcome(context@, splitter) == split_view(split),
{
}

} // verus!
