//! Keeping texts within the lengths that the network takes.
//!
//! Lengths are counted in characters. A text that is too long is truncated or
//! split into chunks, and a warning says so.

use crate::sentences::texts;
use vstd::prelude::*;

verus! {

/// The number of tokens that the network takes.
pub const MAX_LEN: usize = 512;

/// The number of characters that a token is taken to stand for.
pub const CHARS_PER_TOKEN: usize = 4;

/// The number of characters that the whole input may have.
#[verifier::nonlinear]
pub const MAX_LEN_CHARS: usize = MAX_LEN * CHARS_PER_TOKEN;

/// The number of characters that a question, a title or a context may have.
pub const MAX_LEN_CHARS_PART: usize = MAX_LEN_CHARS / 2;

/// The number of characters of a text that a warning shows.
pub const PREVIEW_CHARS: usize = 20;

/// Which text a warning is about.
#[derive(Clone, Copy, Debug, PartialEq, Eq, Structural)]
pub enum TextLabel {
    /// The question with this index.
    Question(usize),
    /// The title with this index in its list.
    Title(usize),
    /// The context with this list and index.
    Context(usize, usize),
    /// The input made of a question and a context.
    ProcessInput,
}

/// What is done with a text that is too long.
#[derive(Clone, Copy, Debug, PartialEq, Eq, Structural)]
pub enum LengthAction {
    Truncating,
    Splitting,
}

/// Says that a text is too long.
#[derive(Clone, Debug, PartialEq, Eq)]
pub struct LengthWarning {
    /// Which text.
    pub label: TextLabel,
    /// How the text starts.
    pub preview: String,
    /// The length of the text.
    pub length: usize,
    /// The length that it may have.
    pub max_len: usize,
    /// What is done with it.
    pub action: LengthAction,
}

/// A warning, with the preview as a sequence of characters.
pub struct WarningView {
    pub label: TextLabel,
    pub preview: Seq<char>,
    pub length: nat,
    pub max_len: nat,
    pub action: LengthAction,
}

impl View for LengthWarning {
    type V = WarningView;

    open spec fn view(&self) -> WarningView {
        WarningView {
            label: self.label,
            preview: self.preview@,
            length: self.length as nat,
            max_len: self.max_len as nat,
            action: self.action,
        }
    }
}

/// A list of warnings.
pub open spec fn warning_views(warnings: Seq<LengthWarning>) -> Seq<WarningView> {
    warnings.map_values(|w: LengthWarning| w@)
}

/// The first `max` characters of a text, or all of it.
pub open spec fn truncated(text: Seq<char>, max: nat) -> Seq<char> {
    if text.len() > max {
        text.take(max as int)
    } else {
        text
    }
}

/// The warning about a text, if it is too long.
pub open spec fn length_warning(
    label: TextLabel,
    text: Seq<char>,
    max: nat,
    action: LengthAction,
) -> Seq<WarningView> {
    if text.len() > max {
        seq![
            WarningView {
                label,
                preview: truncated(text, PREVIEW_CHARS as nat),
                length: text.len(),
                max_len: max,
                action,
            },
        ]
    } else {
        seq![]
    }
}

/// The chunks of `max` characters that a text is split into. The last may be
/// shorter, and a text that is not too long is its only chunk.
pub open spec fn chunks(text: Seq<char>, max: nat) -> Seq<Seq<char>>
    decreases text.len(),
{
    if max == 0 || text.len() <= max {
        seq![text]
    } else {
        seq![text.take(max as int)] + chunks(text.skip(max as int), max)
    }
}

/// The text without what is past its first `max` characters.
fn prefix(text: &str, max: usize) -> (p: String)
    ensures
        p@ == truncated(text@, max as nat),
{
    if text.unicode_len() > max {
        text.substring_char(0, max).to_owned()
    } else {
        text.to_owned()
    }
}

/// Warns about a text that is too long.
fn warn(
    text: &str,
    label: TextLabel,
    max_len: usize,
    action: LengthAction,
    warnings: &mut Vec<LengthWarning>,
)
    requires
        text@.len() > max_len,
    ensures
        warning_views(final(warnings)@) == warning_views(old(warnings)@) + length_warning(
            label,
            text@,
            max_len as nat,
            action,
        ),
{
    let preview = prefix(text, PREVIEW_CHARS);
    let warning = LengthWarning { label, preview, length: text.unicode_len(), max_len, action };
    warnings.push(warning);
    assert(warning_views(warnings@) == warning_views(old(warnings)@).push(warning@));
}

/// Cuts off what is past the first `max_len` characters, with a warning.
pub fn truncate_warn(
    text: &mut String,
    label: TextLabel,
    max_len: usize,
    warnings: &mut Vec<LengthWarning>,
)
    ensures
        final(text)@ == truncated(old(text)@, max_len as nat),
        warning_views(final(warnings)@) == warning_views(old(warnings)@) + length_warning(
            label,
            old(text)@,
            max_len as nat,
            LengthAction::Truncating,
        ),
{
    if text.as_str().unicode_len() > max_len {
        warn(text.as_str(), label, max_len, LengthAction::Truncating, warnings);
        *text = text.as_str().substring_char(0, max_len).to_owned();
    } else {
        assert(warning_views(warnings@) + Seq::<WarningView>::empty() == warning_views(warnings@));
    }
}

/// Splits off what is past the first `max_len` characters in chunks of that
/// length, with a warning. Gives the chunks after the first, which stays in
/// `text`; `None` if there is nothing to split.
pub fn split_warn(
    text: &mut String,
    label: TextLabel,
    max_len: usize,
    warnings: &mut Vec<LengthWarning>,
) -> (rest: Option<Vec<String>>)
    requires
        max_len > 0 || old(text)@.len() == 0,
    ensures
        rest is Some <==> old(text)@.len() > max_len,
        match rest {
            Some(split_off) => seq![final(text)@] + texts(split_off@) == chunks(
                old(text)@,
                max_len as nat,
            ),
            None => seq![final(text)@] == chunks(old(text)@, max_len as nat),
        },
        warning_views(final(warnings)@) == warning_views(old(warnings)@) + length_warning(
            label,
            old(text)@,
            max_len as nat,
            LengthAction::Splitting,
        ),
{
    let length = text.as_str().unicode_len();
    if length <= max_len {
        assert(warning_views(warnings@) + Seq::<WarningView>::empty() == warning_views(warnings@));
        return None;
    }
    warn(text.as_str(), label, max_len, LengthAction::Splitting, warnings);
    let ghost whole = text@;
    let mut remainder = text.as_str().substring_char(max_len, length).to_owned();
    *text = text.as_str().substring_char(0, max_len).to_owned();
    let mut split_off: Vec<String> = Vec::new();
    assert(remainder@ == whole.skip(max_len as int));
    assert(texts(split_off@) == Seq::<Seq<char>>::empty());
    assert(texts(split_off@) + chunks(remainder@, max_len as nat) == chunks(
        remainder@,
        max_len as nat,
    ));
    let mut left = remainder.as_str().unicode_len();
    while left > max_len
        invariant
            max_len > 0,
            left == remainder@.len(),
            chunks(whole.skip(max_len as int), max_len as nat) == texts(split_off@) + chunks(
                remainder@,
                max_len as nat,
            ),
        decreases left,
    {
        let ghost before = split_off@;
        let ghost r = remainder@;
        let tail = remainder.as_str().substring_char(max_len, left).to_owned();
        let chunk = remainder.as_str().substring_char(0, max_len).to_owned();
        proof {
            assert(tail@ == r.skip(max_len as int));
            assert(chunk@ == r.take(max_len as int));
            assert(texts(before.push(chunk)) == texts(before).push(chunk@));
            assert(texts(before) + (seq![chunk@] + chunks(tail@, max_len as nat)) == texts(
                before,
            ).push(chunk@) + chunks(tail@, max_len as nat));
        }
        split_off.push(chunk);
        remainder = tail;
        left = remainder.as_str().unicode_len();
    }
    assert(texts(split_off@.push(remainder)) == texts(split_off@) + seq![remainder@]);
    split_off.push(remainder);
    Some(split_off)
}

/// All the characters of the chunks, one chunk after the other.
pub open spec fn joined(parts: Seq<Seq<char>>) -> Seq<char>
    decreases parts.len(),
{
    if parts.len() == 0 {
        seq![]
    } else {
        parts[0] + joined(parts.drop_first())
    }
}

/// Splitting loses nothing: the chunks make up the text again.
pub proof fn law_chunks_make_up_the_text(text: Seq<char>, max: nat)
    ensures
        joined(chunks(text, max)) == text,
    decreases text.len(),
{
    if max == 0 || text.len() <= max {
        assert(seq![text].drop_first() == Seq::<Seq<char>>::empty());
        assert(joined(Seq::<Seq<char>>::empty()) == Seq::<char>::empty());
        assert(text + Seq::<char>::empty() == text);
    } else {
        let head = text.take(max as int);
        let tail = text.skip(max as int);
        law_chunks_make_up_the_text(tail, max);
        assert((seq![head] + chunks(tail, max)).drop_first() == chunks(tail, max));
        assert(head + tail == text);
    }
}

/// No chunk is too long, none but the last is shorter than `max`, and none is
/// empty unless the text is.
pub proof fn law_chunks_have_the_right_length(text: Seq<char>, max: nat, k: int)
    requires
        max > 0 || text.len() == 0,
        0 <= k < chunks(text, max).len(),
    ensures
        chunks(text, max)[k].len() <= max,
        k < chunks(text, max).len() - 1 ==> chunks(text, max)[k].len() == max,
        text.len() > 0 ==> chunks(text, max)[k].len() > 0,
    decreases text.len(),
{
    if text.len() > max {
        let tail = text.skip(max as int);
        if k > 0 {
            law_chunks_have_the_right_length(tail, max, k - 1);
            assert(chunks(text, max)[k] == chunks(tail, max)[k - 1]);
        }
    }
}

/// There is always a chunk, and more than one exactly if the text is too long.
pub proof fn law_number_of_chunks(text: Seq<char>, max: nat)
    requires
        max > 0 || text.len() == 0,
    ensures
        chunks(text, max).len() >= 1,
        chunks(text, max).len() > 1 <==> text.len() > max,
    decreases text.len(),
{
    if text.len() > max {
        law_number_of_chunks(text.skip(max as int), max);
    }
}

/// No chunk splits further: splitting a chunk again leaves it as it is.
pub proof fn law_chunks_split_no_further(text: Seq<char>, max: nat, k: int)
    requires
        max > 0 || text.len() == 0,
        0 <= k < chunks(text, max).len(),
    ensures
        chunks(chunks(text, max)[k], max) == seq![chunks(text, max)[k]],
        chunks(text, max)[k].len() <= max,
{
    law_chunks_have_the_right_length(text, max, k);
}

/// The network takes 512 tokens, for which it is given four characters each, half
/// of them for a question and half for a context; and a warning shows twenty.
pub proof fn law_limits()
    ensures
        MAX_LEN_CHARS == 2048,
        2 * MAX_LEN_CHARS_PART == 2048,
        MAX_LEN_CHARS == MAX_LEN * CHARS_PER_TOKEN,
        MAX_LEN == 512,
        PREVIEW_CHARS == 20,
{
}

/// Truncating keeps the first characters: as many as there are, or as there may
/// be, and never another one.
pub proof fn law_truncating_keeps_the_start(text: Seq<char>, max: nat, i: int)
    ensures
        truncated(text, max).len() == if text.len() < max {
            text.len()
        } else {
            max
        },
        0 <= i < truncated(text, max).len() ==> truncated(text, max)[i] == text[i],
{
}

/// There is a warning about a text exactly if it is longer than it may be. It
/// shows the first twenty characters, or all, and the two lengths.
pub proof fn law_warnings_tell_the_lengths(
    label: TextLabel,
    text: Seq<char>,
    max: nat,
    action: LengthAction,
)
    ensures
        text.len() <= max ==> length_warning(label, text, max, action).len() == 0,
        text.len() > max ==> {
            let warnings = length_warning(label, text, max, action);
            &&& warnings.len() == 1
            &&& warnings[0].label == label
            &&& warnings[0].action == action
            &&& warnings[0].length == text.len()
            &&& warnings[0].max_len == max
            &&& warnings[0].preview == if text.len() > 20 {
                text.take(20)
            } else {
                text
            }
        },
{
}

/// The chunk `k` of a text holds the characters from `k` times the length of a
/// chunk on, up to the next chunk or the end of the text; there are as many as it
/// takes to reach the end.
pub proof fn law_chunks_are_cut_at_multiples(text: Seq<char>, max: nat, k: int)
    requires
        max > 0,
        0 <= k < chunks(text, max).len(),
    ensures
        0 <= k * max <= text.len(),
        chunks(text, max)[k] == text.subrange(
            k * max,
            if (k + 1) * max < text.len() {
                (k + 1) * max
            } else {
                text.len() as int
            },
        ),
        k == chunks(text, max).len() - 1 <==> (k + 1) * max >= text.len(),
    decreases text.len(),
{
    let all = chunks(text, max);
    if text.len() <= max {
        assert(k == 0);
        assert(text.subrange(0, text.len() as int) == text);
    } else {
        let tail = text.skip(max as int);
        let rest = chunks(tail, max);
        assert(all == seq![text.take(max as int)] + rest);
        law_number_of_chunks(tail, max);
        if k > 0 {
            law_chunks_are_cut_at_multiples(tail, max, k - 1);
            assert((k - 1) * max + max == k * max) by (nonlinear_arith);
            assert(k * max + max == (k + 1) * max) by (nonlinear_arith);
            let end = if k * max < tail.len() {
                k * max
            } else {
                tail.len() as int
            };
            assert(all[k] == rest[k - 1]);
            assert(tail.subrange((k - 1) * max, end) == text.subrange(k * max, end + max));
        } else {
            assert(0 * max == 0);
            assert((0 + 1) * max == max);
            assert(text.take(max as int) == text.subrange(0, max as int));
        }
    }
}

/// After truncating, a text has its first `max_len` characters, or all. The
/// warnings from before are still there, and there is one more exactly if the text
/// was longer.
pub proof fn law_truncating_with_a_warning(
    text: &mut String,
    label: TextLabel,
    max_len: usize,
    warnings: &mut Vec<LengthWarning>,
)
    requires
        call_ensures(truncate_warn, (text, label, max_len, warnings), ()),
    ensures
        final(text)@ == if old(text)@.len() > max_len {
            old(text)@.take(max_len as int)
        } else {
            old(text)@
        },
        old(text)@.len() <= max_len ==> warning_views(final(warnings)@) == warning_views(
            old(warnings)@,
        ),
        old(text)@.len() > max_len ==> warning_views(final(warnings)@) == warning_views(
            old(warnings)@,
        ).push(
            WarningView {
                label,
                preview: if old(text)@.len() > 20 {
                    old(text)@.take(20)
                } else {
                    old(text)@
                },
                length: old(text)@.len(),
                max_len: max_len as nat,
                action: LengthAction::Truncating,
            },
        ),
{
}

/// After splitting, the text and what was split off are the chunks of the text
/// from before, one after the other, each of `max_len` characters but the last.
/// Something is split off, and there is one more warning, exactly if the text was
/// longer than a chunk.
pub proof fn law_splitting_with_a_warning(
    text: &mut String,
    label: TextLabel,
    max_len: usize,
    warnings: &mut Vec<LengthWarning>,
    rest: Option<Vec<String>>,
    k: int,
)
    requires
        max_len > 0,
        call_ensures(split_warn, (text, label, max_len, warnings), rest),
    ensures
        rest is Some <==> old(text)@.len() > max_len,
        rest is None ==> final(text)@ == old(text)@ && warning_views(final(warnings)@)
            == warning_views(old(warnings)@),
        rest is Some ==> {
            let whole = old(text)@;
            let off = rest->0@;
            let end = if (k + 2) * max_len < whole.len() {
                (k + 2) * max_len
            } else {
                whole.len() as int
            };
            &&& final(text)@ == whole.take(max_len as int)
            &&& 0 <= k < off.len() ==> off[k]@ == whole.subrange((k + 1) * max_len, end)
            &&& 0 <= k < off.len() ==> (k == off.len() - 1 <==> (k + 2) * max_len >= whole.len())
            &&& off.len() > 0
            &&& warning_views(final(warnings)@) == warning_views(old(warnings)@).push(
                WarningView {
                    label,
                    preview: if whole.len() > 20 {
                        whole.take(20)
                    } else {
                        whole
                    },
                    length: whole.len(),
                    max_len: max_len as nat,
                    action: LengthAction::Splitting,
                },
            )
        },
{
    let whole = old(text)@;
    let max = max_len as nat;
    let all = chunks(whole, max);
    law_number_of_chunks(whole, max);
    if rest is None {
        assert(seq![final(text)@][0] == all[0]);
    } else {
        let off = rest->0@;
        let parts = seq![final(text)@] + texts(off);
        assert(parts == all);
        assert(parts[0] == final(text)@);
        assert(texts(off).len() == off.len());
        if 0 <= k < off.len() {
            law_chunks_are_cut_at_multiples(whole, max, k + 1);
            assert(parts[k + 1] == texts(off)[k]);
        }
    }
}

/// Warnings are shown one by one, as they are.
pub proof fn law_warnings_are_shown_as_they_are(warnings: Seq<LengthWarning>, k: int)
    requires
        0 <= k < warnings.len(),
    ensures
        warning_views(warnings).len() == warnings.len(),
        warning_views(warnings)[k].label == warnings[k].label,
        warning_views(warnings)[k].preview == warnings[k].preview@,
        warning_views(warnings)[k].length == warnings[k].length,
        warning_views(warnings)[k].max_len == warnings[k].max_len,
        warning_views(warnings)[k].action == warnings[k].action,
{
}

} // verus!
