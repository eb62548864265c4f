//! From the byte ranges of sentences to the tokens that make them up.
//!
//! A tokenizer reports for each token the byte range of the input that it came
//! from. Tokens that came from nowhere (separators, padding) have the range
//! `(0, 0)` and belong to no sentence.

use vstd::prelude::*;

verus! {

/// A half-open range: of bytes for a token or a sentence, of token indices for
/// a sentence's coordinates.
pub type Offsets = (usize, usize);

/// A token that stands for no part of the input.
pub open spec fn is_special(token: Offsets) -> bool {
    token.0 == 0 && token.1 == 0
}

/// Whether the range `b` ends after `a` starts and starts before `a` ends.
pub open spec fn spec_overlaps(a: (int, int), b: (int, int)) -> bool {
    b.1 > a.0 && b.0 < a.1
}

/// A token that came from some part of the bytes from `start` to `end`.
pub open spec fn touches(token: Offsets, start: int, end: int) -> bool {
    !is_special(token) && spec_overlaps((start, end), (token.0 as int, token.1 as int))
}

/// The first token from `i` on that ends after the byte `start`.
pub open spec fn first_token(offsets: Seq<Offsets>, start: int, i: int) -> int
    decreases offsets.len() - i,
{
    if i >= offsets.len() {
        i
    } else if !is_special(offsets[i]) && offsets[i].1 > start {
        i
    } else {
        first_token(offsets, start, i + 1)
    }
}

/// The first token from `i` on that starts at or after the byte `end`.
pub open spec fn stop_token(offsets: Seq<Offsets>, end: int, i: int) -> int
    decreases offsets.len() - i,
{
    if i >= offsets.len() {
        i
    } else if !is_special(offsets[i]) && offsets[i].0 >= end {
        i
    } else {
        stop_token(offsets, end, i + 1)
    }
}

/// One past the last token before `i` that touches the bytes from `start` to `end`.
pub open spec fn touch_end(offsets: Seq<Offsets>, start: int, end: int, i: int) -> int
    decreases i,
{
    if i <= 0 {
        0
    } else if touches(offsets[i - 1], start, end) {
        i
    } else {
        touch_end(offsets, start, end, i - 1)
    }
}

/// Where the search for the sentence after `range` goes on, if the search for
/// `range` began at the token `cursor`.
pub open spec fn next_cursor(
    offsets: Seq<Offsets>,
    range: Offsets,
    base: int,
    cursor: int,
) -> int {
    stop_token(offsets, base + range.1, first_token(offsets, base + range.0, cursor))
}

/// The tokens of the sentence at `range`, looking from the token `cursor` on:
/// from the first that ends after the sentence starts to the last that touches
/// it, before any token that starts after the sentence. A sentence may have
/// none.
pub open spec fn sentence_coord(
    offsets: Seq<Offsets>,
    range: Offsets,
    base: int,
    cursor: int,
) -> Seq<Offsets> {
    let first = first_token(offsets, base + range.0, cursor);
    let stop = next_cursor(offsets, range, base, cursor);
    if first < stop {
        seq![
            (first as usize, touch_end(offsets, base + range.0, base + range.1, stop) as usize),
        ]
    } else {
        seq![]
    }
}

/// The token coordinates of the sentences at `ranges`, one after the other,
/// each search going on where the one before stopped.
pub open spec fn token_coords(
    offsets: Seq<Offsets>,
    ranges: Seq<Offsets>,
    base: int,
    cursor: int,
) -> Seq<Offsets>
    decreases ranges.len(),
{
    if ranges.len() == 0 {
        seq![]
    } else {
        sentence_coord(offsets, ranges[0], base, cursor) + token_coords(
            offsets,
            ranges.drop_first(),
            base,
            next_cursor(offsets, ranges[0], base, cursor),
        )
    }
}

/// Whether the range `b` ends after `a` starts and starts before `a` ends.
pub fn overlaps(a: Offsets, b: Offsets) -> (r: bool)
    ensures
        r == spec_overlaps((a.0 as int, a.1 as int), (b.0 as int, b.1 as int)),
{
    let (a_start, a_end) = a;
    let (b_start, b_end) = b;
    b_end > a_start && b_start < a_end
}

proof fn lemma_first_token_bounds(offsets: Seq<Offsets>, start: int, i: int)
    requires
        0 <= i <= offsets.len(),
    ensures
        i <= first_token(offsets, start, i) <= offsets.len(),
        first_token(offsets, start, i) < offsets.len() ==> {
            &&& !is_special(offsets[first_token(offsets, start, i)])
            &&& offsets[first_token(offsets, start, i)].1 > start
        },
        forall|k: int|
            i <= k < first_token(offsets, start, i) ==> is_special(#[trigger] offsets[k])
                || offsets[k].1 <= start,
    decreases offsets.len() - i,
{
    if i < offsets.len() && (is_special(offsets[i]) || offsets[i].1 <= start) {
        lemma_first_token_bounds(offsets, start, i + 1);
    }
}

proof fn lemma_stop_token_bounds(offsets: Seq<Offsets>, end: int, i: int)
    requires
        0 <= i <= offsets.len(),
    ensures
        i <= stop_token(offsets, end, i) <= offsets.len(),
        stop_token(offsets, end, i) < offsets.len() ==> {
            &&& !is_special(offsets[stop_token(offsets, end, i)])
            &&& offsets[stop_token(offsets, end, i)].0 >= end
        },
        forall|k: int|
            i <= k < stop_token(offsets, end, i) ==> is_special(#[trigger] offsets[k])
                || offsets[k].0 < end,
    decreases offsets.len() - i,
{
    if i < offsets.len() && (is_special(offsets[i]) || offsets[i].0 < end) {
        lemma_stop_token_bounds(offsets, end, i + 1);
    }
}

proof fn lemma_touch_end_bounds(offsets: Seq<Offsets>, start: int, end: int, i: int, k: int)
    requires
        0 <= k < i <= offsets.len(),
        touches(offsets[k], start, end),
    ensures
        k < touch_end(offsets, start, end, i) <= i,
        touches(offsets[touch_end(offsets, start, end, i) - 1], start, end),
    decreases i,
{
    if !touches(offsets[i - 1], start, end) {
        lemma_touch_end_bounds(offsets, start, end, i - 1, k);
    }
}

/// What the coordinates of one sentence look like.
proof fn lemma_sentence_coord(offsets: Seq<Offsets>, range: Offsets, base: int, cursor: int)
    requires
        0 <= cursor <= offsets.len() <= usize::MAX,
    ensures
        cursor <= next_cursor(offsets, range, base, cursor) <= offsets.len(),
        ({
            let c = sentence_coord(offsets, range, base, cursor);
            c.len() == 0 || {
                &&& c.len() == 1
                &&& cursor <= c[0].0 < c[0].1 <= next_cursor(offsets, range, base, cursor)
                &&& touches(offsets[c[0].0 as int], base + range.0, base + range.1)
                &&& touches(offsets[c[0].1 - 1], base + range.0, base + range.1)
            }
        }),
{
    let start = base + range.0;
    let end = base + range.1;
    let first = first_token(offsets, start, cursor);
    lemma_first_token_bounds(offsets, start, cursor);
    lemma_stop_token_bounds(offsets, end, first);
    let stop = stop_token(offsets, end, first);
    if first < stop {
        lemma_touch_end_bounds(offsets, start, end, stop, first);
    }
}

/// Passes over the tokens from `cursor` on that end at or before the byte
/// `start`, and over special tokens.
fn skip_tokens_before(offsets: &[Offsets], start: usize, cursor: usize) -> (i: usize)
    requires
        cursor <= offsets@.len(),
    ensures
        i == first_token(offsets@, start as int, cursor as int),
        i <= offsets@.len(),
{
    let mut i: usize = cursor;
    while i < offsets.len()
        invariant
            i <= offsets@.len(),
            first_token(offsets@, start as int, cursor as int) == first_token(
                offsets@,
                start as int,
                i as int,
            ),
        decreases offsets@.len() - i,
    {
        let (token_start, token_end) = offsets[i];
        if !(token_start == 0 && token_end == 0) && token_end > start {
            return i;
        }
        i += 1;
    }
    i
}

/// Maps the byte ranges of sentences, relative to a context that starts at the
/// byte `context_start_offset` of the input, to ranges of token indices.
///
/// `offsets` holds the byte range of each token in the whole input. Sentences
/// without tokens are left out.
pub fn map_ranges_to_token_coords(
    offsets: &[Offsets],
    sentence_ranges_rel_to_context: &[Offsets],
    context_start_offset: usize,
) -> (coords: Vec<Offsets>)
    requires
        forall|k: int|
            0 <= k < sentence_ranges_rel_to_context@.len() ==> {
                &&& context_start_offset + (#[trigger] sentence_ranges_rel_to_context@[k]).0
                    <= usize::MAX
                &&& context_start_offset + sentence_ranges_rel_to_context@[k].1 <= usize::MAX
            },
    ensures
        coords@ == token_coords(
            offsets@,
            sentence_ranges_rel_to_context@,
            context_start_offset as int,
            0,
        ),
{
    let n_tokens = offsets.len();
    let n_ranges = sentence_ranges_rel_to_context.len();
    let ghost ranges = sentence_ranges_rel_to_context@;
    let ghost base = context_start_offset as int;
    let mut coords: Vec<Offsets> = Vec::with_capacity(n_ranges);
    let mut cursor: usize = 0;
    let mut k: usize = 0;
    assert(ranges.skip(0) == ranges);
    while k < n_ranges
        invariant
            ranges == sentence_ranges_rel_to_context@,
            n_ranges == ranges.len(),
            n_tokens == offsets@.len(),
            base == context_start_offset,
            k <= n_ranges,
            cursor <= n_tokens,
            forall|k: int|
                0 <= k < ranges.len() ==> base + (#[trigger] ranges[k]).0 <= usize::MAX && base
                    + ranges[k].1 <= usize::MAX,
            token_coords(offsets@, ranges, base, 0) == coords@ + token_coords(
                offsets@,
                ranges.skip(k as int),
                base,
                cursor as int,
            ),
        decreases n_ranges - k,
    {
        let (sentence_start, sentence_end) = sentence_ranges_rel_to_context[k];
        let ghost range = ranges[k as int];
        let ghost before = cursor as int;
        let ghost done = coords@;
        proof {
            assert(range == (sentence_start, sentence_end));
            lemma_sentence_coord(offsets@, range, base, before);
        }
        let start = context_start_offset + sentence_start;
        let end = context_start_offset + sentence_end;

        let first = skip_tokens_before(offsets, start, cursor);
        let mut last_end: Option<usize> = None;
        let mut i: usize = first;
        let mut going: bool = true;

        // Go through the tokens of the sentence, up to the first one past it.
        while going && i < n_tokens
            invariant
                n_tokens == offsets@.len(),
                first <= i <= n_tokens,
                first == first_token(offsets@, start as int, before),
                0 <= before <= n_tokens,
                stop_token(offsets@, end as int, first as int) == stop_token(
                    offsets@,
                    end as int,
                    i as int,
                ),
                !going ==> stop_token(offsets@, end as int, first as int) == i,
                last_end is None ==> i == first,
                last_end matches Some(e) ==> first < i && e == touch_end(
                    offsets@,
                    start as int,
                    end as int,
                    i as int,
                ),
            decreases n_tokens - i + (if going { 1int } else { 0int }),
        {
            let token = offsets[i];
            let special = token.0 == 0 && token.1 == 0;
            if !special && token.0 >= end {
                going = false;
            } else {
                proof {
                    lemma_first_token_bounds(offsets@, start as int, before);
                }
                if !special && overlaps((start, end), token) {
                    last_end = Some(i + 1);
                }
                i += 1;
            }
        }

        // The next sentence is looked for from here: there is no going back.
        cursor = i;
        if let Some(e) = last_end {
            coords.push((first, e));
        }
        k += 1;
        proof {
            assert(i == next_cursor(offsets@, range, base, before));
            assert(coords@ == done + sentence_coord(offsets@, range, base, before));
            assert(ranges.skip(k - 1).drop_first() == ranges.skip(k as int));
            assert(ranges.skip(k - 1)[0] == range);
        }
    }
    coords
}

/// Every range of coordinates holds a token, lies within the tokens, and ends
/// before the next one starts. There are at most as many as sentences.
pub proof fn law_coords_are_valid_and_ordered(
    offsets: Seq<Offsets>,
    ranges: Seq<Offsets>,
    base: int,
)
    requires
        offsets.len() <= usize::MAX,
    ensures
        ({
            let coords = token_coords(offsets, ranges, base, 0);
            &&& coords.len() <= ranges.len()
            &&& forall|k: int|
                0 <= k < coords.len() ==> (#[trigger] coords[k]).0 < coords[k].1 <= offsets.len()
            &&& forall|j: int, k: int|
                0 <= j < k < coords.len() ==> (#[trigger] coords[j]).1 <= (#[trigger] coords[k]).0
        }),
{
    lemma_coords_from(offsets, ranges, base, 0);
}

proof fn lemma_coords_from(offsets: Seq<Offsets>, ranges: Seq<Offsets>, base: int, cursor: int)
    requires
        0 <= cursor <= offsets.len() <= usize::MAX,
    ensures
        ({
            let coords = token_coords(offsets, ranges, base, cursor);
            &&& coords.len() <= ranges.len()
            &&& forall|k: int|
                0 <= k < coords.len() ==> cursor <= (#[trigger] coords[k]).0 < coords[k].1
                    <= offsets.len()
            &&& forall|j: int, k: int|
                0 <= j < k < coords.len() ==> (#[trigger] coords[j]).1 <= (#[trigger] coords[k]).0
            &&& forall|k: int|
                0 <= k < coords.len() ==> belongs(offsets, ranges, base, #[trigger] coords[k])
        }),
    decreases ranges.len(),
{
    if ranges.len() > 0 {
        let next = next_cursor(offsets, ranges[0], base, cursor);
        let head = sentence_coord(offsets, ranges[0], base, cursor);
        let tail = token_coords(offsets, ranges.drop_first(), base, next);
        lemma_sentence_coord(offsets, ranges[0], base, cursor);
        lemma_coords_from(offsets, ranges.drop_first(), base, next);
        let coords = token_coords(offsets, ranges, base, cursor);
        assert(coords == head + tail);
        assert forall|k: int| 0 <= k < coords.len() implies belongs(
            offsets,
            ranges,
            base,
            #[trigger] coords[k],
        ) by {
            if k < head.len() {
                assert(coords[k] == head[k]);
                assert(belongs_to(offsets, ranges[0], base, coords[k]));
            } else {
                assert(coords[k] == tail[k - head.len()]);
                let r = choose|r: int|
                    0 <= r < ranges.drop_first().len() && belongs_to(
                        offsets,
                        #[trigger] ranges.drop_first()[r],
                        base,
                        coords[k],
                    );
                assert(ranges.drop_first()[r] == ranges[r + 1]);
            }
        }
    }
}

/// The first and the last token of `coord` touch the sentence at `range`.
pub open spec fn belongs_to(
    offsets: Seq<Offsets>,
    range: Offsets,
    base: int,
    coord: Offsets,
) -> bool {
    &&& touches(offsets[coord.0 as int], base + range.0, base + range.1)
    &&& touches(offsets[coord.1 - 1], base + range.0, base + range.1)
}

/// The first and the last token of `coord` touch one and the same sentence.
pub open spec fn belongs(
    offsets: Seq<Offsets>,
    ranges: Seq<Offsets>,
    base: int,
    coord: Offsets,
) -> bool {
    exists|r: int| 0 <= r < ranges.len() && belongs_to(offsets, #[trigger] ranges[r], base, coord)
}

/// Every range of coordinates starts and ends with tokens that came from the
/// sentence it stands for.
pub proof fn law_coords_touch_their_sentence(
    offsets: Seq<Offsets>,
    ranges: Seq<Offsets>,
    base: int,
    k: int,
)
    requires
        offsets.len() <= usize::MAX,
        0 <= k < token_coords(offsets, ranges, base, 0).len(),
    ensures
        belongs(offsets, ranges, base, token_coords(offsets, ranges, base, 0)[k]),
{
    lemma_coords_from(offsets, ranges, base, 0);
}

/// Tokens come in the order of the text: those that are not special start and
/// end no earlier than the ones before them.
pub open spec fn in_text_order(offsets: Seq<Offsets>) -> bool {
    forall|i: int, j: int|
        #![trigger offsets[i], offsets[j]]
        0 <= i < j < offsets.len() && !is_special(offsets[i]) && !is_special(offsets[j])
            ==> offsets[i].0 <= offsets[j].0 && offsets[i].1 <= offsets[j].1
}

/// Sentences come in the order of the text and do not overlap.
pub open spec fn ranges_in_order(ranges: Seq<Offsets>) -> bool {
    &&& forall|r: int| 0 <= r < ranges.len() ==> (#[trigger] ranges[r]).0 <= ranges[r].1
    &&& forall|r: int, t: int|
        0 <= r < t < ranges.len() ==> (#[trigger] ranges[r]).1 <= (#[trigger] ranges[t]).0
}

/// The token `i` lies within one of `coords`.
pub open spec fn covered(coords: Seq<Offsets>, i: int) -> bool {
    exists|k: int| 0 <= k < coords.len() && (#[trigger] coords[k]).0 <= i < coords[k].1
}

/// No token of a sentence is lost: where tokens and sentences come in the order
/// of the text, a token that touches a sentence lies within the coordinates.
pub proof fn law_touching_tokens_are_covered(
    offsets: Seq<Offsets>,
    ranges: Seq<Offsets>,
    base: int,
    i: int,
    r: int,
)
    requires
        offsets.len() <= usize::MAX,
        in_text_order(offsets),
        ranges_in_order(ranges),
        0 <= i < offsets.len(),
        0 <= r < ranges.len(),
        touches(offsets[i], base + ranges[r].0, base + ranges[r].1),
    ensures
        covered(token_coords(offsets, ranges, base, 0), i),
{
    lemma_covered_from(offsets, ranges, base, 0, i, r);
}

proof fn lemma_covered_from(
    offsets: Seq<Offsets>,
    ranges: Seq<Offsets>,
    base: int,
    cursor: int,
    i: int,
    r: int,
)
    requires
        offsets.len() <= usize::MAX,
        in_text_order(offsets),
        ranges_in_order(ranges),
        0 <= cursor <= i < offsets.len(),
        0 <= r < ranges.len(),
        touches(offsets[i], base + ranges[r].0, base + ranges[r].1),
    ensures
        covered(token_coords(offsets, ranges, base, cursor), i),
    decreases ranges.len(),
{
    let start = base + ranges[0].0;
    let end = base + ranges[0].1;
    let first = first_token(offsets, start, cursor);
    let next = next_cursor(offsets, ranges[0], base, cursor);
    let head = sentence_coord(offsets, ranges[0], base, cursor);
    let tail = token_coords(offsets, ranges.drop_first(), base, next);
    let coords = token_coords(offsets, ranges, base, cursor);
    lemma_sentence_coord(offsets, ranges[0], base, cursor);
    lemma_first_token_bounds(offsets, start, cursor);
    lemma_stop_token_bounds(offsets, end, first);
    assert(coords == head + tail);
    assert(offsets[i].1 > start) by {
        if r > 0 {
            assert(ranges[0].1 <= ranges[r].0);
        }
    }
    assert(first <= i);
    if i < next {
        assert(touches(offsets[i], start, end)) by {
            assert(offsets[i].0 < end);
        }
        lemma_touch_end_bounds(offsets, start, end, next, i);
        assert(coords[0] == head[0]);
        assert(coords[0].0 <= i < coords[0].1);
    } else {
        if r == 0 {
            // The stop token starts at or after the sentence's end, and `i` no
            // earlier than it.
            assert(offsets[next].0 >= end);
            assert(offsets[next].0 <= offsets[i].0);
            assert(false);
        }
        let rest = ranges.drop_first();
        assert(rest[r - 1] == ranges[r]);
        assert forall|a: int, b: int| 0 <= a < b < rest.len() implies (#[trigger] rest[a]).1 <= (
        #[trigger] rest[b]).0 by {
            assert(rest[a] == ranges[a + 1] && rest[b] == ranges[b + 1]);
        }
        lemma_covered_from(offsets, rest, base, next, i, r - 1);
        let k = choose|k: int| 0 <= k < tail.len() && (#[trigger] tail[k]).0 <= i < tail[k].1;
        assert(coords[k + head.len()] == tail[k]);
    }
}

/// A token stands for no part of the input if and only if its range is `(0, 0)`,
/// and it came from some part of some bytes if and only if it is not such a one,
/// ends after they start and starts before they end.
pub proof fn law_only_the_empty_range_at_zero_is_special(token: Offsets, start: int, end: int)
    ensures
        is_special(token) <==> token.0 == 0 && token.1 == 0,
        touches(token, start, end) <==> (token.0 != 0 || token.1 != 0) && token.1 > start && token.0
            < end,
{
}

/// Two ranges are found to overlap, in either order, exactly if neither ends
/// before or where the other starts.
pub proof fn law_overlap_is_symmetric(a: Offsets, b: Offsets, ab: bool, ba: bool)
    requires
        call_ensures(overlaps, (a, b), ab),
        call_ensures(overlaps, (b, a), ba),
    ensures
        ab == ba,
        ab <==> !(a.1 <= b.0 || b.1 <= a.0),
{
}

/// One step of the search, for any tokens: the tokens of a sentence start with
/// the first one, from where the search is, that is not `(0, 0)` and ends after
/// the sentence starts; the search stops at the next one that is not `(0, 0)` and
/// starts at or after the sentence's end, and goes on from there; and the
/// sentence's tokens end with the last one before that which touches it.
pub proof fn law_one_step_of_the_search(
    offsets: Seq<Offsets>,
    range: Offsets,
    rest: Seq<Offsets>,
    base: int,
    cursor: int,
) -> (found: (int, int, int))
    requires
        0 <= cursor <= offsets.len() <= usize::MAX,
    ensures
        ({
            let (first, last, stop) = found;
            &&& cursor <= first <= stop <= offsets.len()
            &&& forall|i: int|
                cursor <= i < first ==> (#[trigger] offsets[i] == (0usize, 0usize) || offsets[i].1
                    <= base + range.0)
            &&& first < offsets.len() ==> offsets[first] != (0usize, 0usize) && offsets[first].1
                > base + range.0
            &&& forall|i: int|
                first <= i < stop ==> (#[trigger] offsets[i] == (0usize, 0usize) || offsets[i].0
                    < base + range.1)
            &&& stop < offsets.len() ==> offsets[stop] != (0usize, 0usize) && offsets[stop].0
                >= base + range.1
            &&& first < stop ==> {
                &&& first <= last < stop
                &&& offsets[last] != (0usize, 0usize)
                &&& offsets[last].1 > base + range.0
                &&& offsets[last].0 < base + range.1
                &&& forall|i: int|
                    last < i < stop ==> (#[trigger] offsets[i] == (0usize, 0usize) || offsets[i].1
                        <= base + range.0)
            }
            &&& token_coords(offsets, seq![range] + rest, base, cursor) == (if first < stop {
                seq![(first as usize, (last + 1) as usize)]
            } else {
                seq![]
            }) + token_coords(offsets, rest, base, stop)
        }),
        token_coords(offsets, seq![], base, cursor) == Seq::<Offsets>::empty(),
{
    let start = base + range.0;
    let end = base + range.1;
    let first = first_token(offsets, start, cursor);
    lemma_first_token_bounds(offsets, start, cursor);
    lemma_stop_token_bounds(offsets, end, first);
    let stop = stop_token(offsets, end, first);
    let last = touch_end(offsets, start, end, stop) - 1;
    if first < stop {
        lemma_touch_end_bounds(offsets, start, end, stop, first);
        assert forall|i: int| last < i < stop implies (#[trigger] offsets[i] == (0usize, 0usize)
            || offsets[i].1 <= start) by {
            if touches(offsets[i], start, end) {
                lemma_touch_end_bounds(offsets, start, end, stop, i);
            }
        }
    }
    assert((seq![range] + rest).drop_first() == rest);
    assert((seq![range] + rest)[0] == range);
    (first, last, stop)
}

/// No token of a sentence is lost, stated on bytes: where the tokens that are
/// not `(0, 0)` and the sentences come in the order of the text, every such
/// token that ends after a sentence starts and starts before it ends lies within
/// one of the coordinates.
pub proof fn law_every_token_of_a_sentence_is_found(
    offsets: &[Offsets],
    ranges: &[Offsets],
    context_start_offset: usize,
    coords: Vec<Offsets>,
    i: int,
    r: int,
)
    requires
        call_ensures(map_ranges_to_token_coords, (offsets, ranges, context_start_offset), coords),
        offsets@.len() <= usize::MAX,
        forall|a: int, b: int|
            0 <= a < b < offsets@.len() && #[trigger] offsets@[a] != (0usize, 0usize)
                && #[trigger] offsets@[b] != (0usize, 0usize) ==> offsets@[a].0 <= offsets@[b].0
                && offsets@[a].1 <= offsets@[b].1,
        forall|a: int| 0 <= a < ranges@.len() ==> (#[trigger] ranges@[a]).0 <= ranges@[a].1,
        forall|a: int, b: int|
            0 <= a < b < ranges@.len() ==> (#[trigger] ranges@[a]).1 <= (#[trigger] ranges@[b]).0,
        0 <= i < offsets@.len(),
        0 <= r < ranges@.len(),
        offsets@[i] != (0usize, 0usize),
        offsets@[i].1 > context_start_offset + ranges@[r].0,
        offsets@[i].0 < context_start_offset + ranges@[r].1,
    ensures
        exists|k: int| 0 <= k < coords@.len() && (#[trigger] coords@[k]).0 <= i < coords@[k].1,
{
    law_touching_tokens_are_covered(offsets@, ranges@, context_start_offset as int, i, r);
}

/// Which sentence each of the coordinates stands for. They come in the order of
/// the sentences, no two for one sentence; each starts and ends with a token
/// that is not `(0, 0)`, ends after its sentence starts and starts before it ends.
pub proof fn law_coords_stand_for_sentences(
    offsets: &[Offsets],
    ranges: &[Offsets],
    context_start_offset: usize,
    coords: Vec<Offsets>,
) -> (of: Seq<int>)
    requires
        call_ensures(map_ranges_to_token_coords, (offsets, ranges, context_start_offset), coords),
        offsets@.len() <= usize::MAX,
    ensures
        of.len() == coords@.len(),
        forall|j: int, k: int| 0 <= j < k < of.len() ==> #[trigger] of[j] < #[trigger] of[k],
        forall|k: int|
            0 <= k < of.len() ==> {
                let range = ranges@[#[trigger] of[k]];
                let first = offsets@[coords@[k].0 as int];
                let last = offsets@[coords@[k].1 - 1];
                &&& 0 <= of[k] < ranges@.len()
                &&& coords@[k].0 < coords@[k].1 <= offsets@.len()
                &&& first != (0usize, 0usize) && last != (0usize, 0usize)
                &&& first.1 > context_start_offset + range.0
                &&& first.0 < context_start_offset + range.1
                &&& last.1 > context_start_offset + range.0
                &&& last.0 < context_start_offset + range.1
            },
        forall|j: int, k: int|
            0 <= j < k < coords@.len() ==> (#[trigger] coords@[j]).1 <= (#[trigger] coords@[k]).0,
{
    law_coords_are_valid_and_ordered(offsets@, ranges@, context_start_offset as int);
    lemma_sentences_of_coords(offsets@, ranges@, context_start_offset as int, 0)
}

proof fn lemma_sentences_of_coords(
    offsets: Seq<Offsets>,
    ranges: Seq<Offsets>,
    base: int,
    cursor: int,
) -> (of: Seq<int>)
    requires
        0 <= cursor <= offsets.len() <= usize::MAX,
    ensures
        ({
            let coords = token_coords(offsets, ranges, base, cursor);
            &&& of.len() == coords.len()
            &&& forall|j: int, k: int| 0 <= j < k < of.len() ==> #[trigger] of[j] < #[trigger] of[k]
            &&& forall|k: int|
                0 <= k < of.len() ==> {
                    &&& 0 <= #[trigger] of[k] < ranges.len()
                    &&& coords[k].0 < coords[k].1 <= offsets.len()
                    &&& belongs_to(offsets, ranges[of[k]], base, coords[k])
                }
        }),
    decreases ranges.len(),
{
    if ranges.len() == 0 {
        seq![]
    } else {
        let rest = ranges.drop_first();
        let next = next_cursor(offsets, ranges[0], base, cursor);
        let head = sentence_coord(offsets, ranges[0], base, cursor);
        let tail = token_coords(offsets, rest, base, next);
        let coords = token_coords(offsets, ranges, base, cursor);
        lemma_sentence_coord(offsets, ranges[0], base, cursor);
        let later = lemma_sentences_of_coords(offsets, rest, base, next);
        let m = head.len() as int;
        let of = Seq::new(
            coords.len(),
            |k: int|
                if k < m {
                    0
                } else {
                    later[k - m] + 1
                },
        );
        assert(coords == head + tail);
        assert forall|k: int| 0 <= k < of.len() implies {
            &&& 0 <= #[trigger] of[k] < ranges.len()
            &&& coords[k].0 < coords[k].1 <= offsets.len()
            &&& belongs_to(offsets, ranges[of[k]], base, coords[k])
        } by {
            if k < m {
                assert(coords[k] == head[k]);
            } else {
                assert(coords[k] == tail[k - m]);
                assert(0 <= later[k - m] < rest.len());
                assert(rest[later[k - m]] == ranges[later[k - m] + 1]);
            }
        }
        assert forall|j: int, k: int| 0 <= j < k < of.len() implies #[trigger] of[j]
            < #[trigger] of[k] by {
            if j >= m {
                assert(later[j - m] < later[k - m]);
            } else {
                assert(0 <= later[k - m]);
            }
        }
        of
    }
}

} // verus!
