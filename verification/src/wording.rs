//! The wording of the input: normalised questions, and the template that joins
//! a question and a context.

use crate::model::ProvenceModel;
use crate::text::{
    ascii_punct, byte_len, chars_of, is_ascii_punct, is_white_space, lemma_encode_concat,
    white_space,
};
use vstd::prelude::*;
use vstd::utf8::*;

verus! {

/// The token between the question and the context.
pub const SEPARATOR_TOKEN: &'static str = "[SEP]";

/// A text in lower case.
pub uninterp spec fn lowercase(text: Seq<char>) -> Seq<char>;

/// `str::to_lowercase` of the standard library gives the text in lower case as
/// Unicode defines it. The contract names the result and claims of it only that
/// it depends on the text alone.
pub assume_specification[ str::to_lowercase ](text: &str) -> (lowered: String)
    ensures
        lowered@ == lowercase(text@),
;

/// `String::push` of the standard library appends a character.
pub assume_specification[ String::push ](s: &mut String, ch: char)
    ensures
        final(s)@ == old(s)@.push(ch),
;

/// The text without ASCII punctuation.
pub open spec fn without_punctuation(s: Seq<char>) -> Seq<char>
    decreases s.len(),
{
    if s.len() == 0 {
        seq![]
    } else if is_ascii_punct(s.last()) {
        without_punctuation(s.drop_last())
    } else {
        without_punctuation(s.drop_last()).push(s.last())
    }
}

/// Where the word that ends before the character `i` starts: only characters
/// that are not white space lie between.
pub open spec fn word_start(s: Seq<char>, i: int) -> int
    decreases i,
{
    if i <= 0 || is_white_space(s[i - 1]) {
        i
    } else {
        word_start(s, i - 1)
    }
}

/// The words of the first `i` characters: the longest runs without white space.
pub open spec fn words(s: Seq<char>, i: int) -> Seq<Seq<char>>
    decreases i,
{
    if i <= 0 {
        seq![]
    } else if is_white_space(s[i - 1]) {
        words(s, i - 1)
    } else {
        proof {
            lemma_word_start(s, i);
        }
        words(s, word_start(s, i)).push(s.subrange(word_start(s, i), i))
    }
}

/// The words with one space between each two.
pub open spec fn spaced(list: Seq<Seq<char>>) -> Seq<char>
    decreases list.len(),
{
    if list.len() == 0 {
        seq![]
    } else if list.len() == 1 {
        list[0]
    } else {
        spaced(list.drop_last()).push(' ') + list.last()
    }
}

/// The words of a text with one space between each two.
pub open spec fn single_spaced(s: Seq<char>) -> Seq<char> {
    spaced(words(s, s.len() as int))
}

/// A text in lower case without punctuation and with single spaces, given its
/// text in lower case.
pub open spec fn tidied(lowered: Seq<char>) -> Seq<char> {
    single_spaced(without_punctuation(lowered))
}

/// A normalised text.
pub open spec fn normalized(text: Seq<char>) -> Seq<char> {
    tidied(lowercase(text))
}

/// Where a word starts: after white space or at the beginning.
pub proof fn lemma_word_start(s: Seq<char>, i: int)
    requires
        0 <= i,
    ensures
        0 <= word_start(s, i) <= i,
        i > 0 && !is_white_space(s[i - 1]) ==> word_start(s, i) < i && word_start(s, i)
            == word_start(s, i - 1),
        forall|k: int| word_start(s, i) <= k < i ==> !is_white_space(#[trigger] s[k]),
        word_start(s, i) > 0 ==> is_white_space(s[word_start(s, i) - 1]),
    decreases i,
{
    if i > 0 && !is_white_space(s[i - 1]) {
        lemma_word_start(s, i - 1);
    }
}

/// The words of the first characters do not depend on what comes after them.
proof fn lemma_words_prefix(s: Seq<char>, t: Seq<char>, i: int)
    requires
        0 <= i <= s.len(),
        i <= t.len(),
        s.take(i) == t.take(i),
    ensures
        words(s, i) == words(t, i),
        word_start(s, i) == word_start(t, i),
    decreases i,
{
    if i > 0 {
        assert(s[i - 1] == s.take(i)[i - 1]);
        assert(t[i - 1] == t.take(i)[i - 1]);
        assert(s.take(i - 1) == s.take(i).take(i - 1));
        assert(t.take(i - 1) == t.take(i).take(i - 1));
        lemma_words_prefix(s, t, i - 1);
        lemma_word_start(s, i);
        let w = word_start(s, i);
        if w < i {
            assert(s.take(w) == s.take(i).take(w));
            assert(t.take(w) == t.take(i).take(w));
            lemma_words_prefix(s, t, w);
            assert(s.subrange(w, i) == s.take(i).subrange(w, i));
            assert(t.subrange(w, i) == t.take(i).subrange(w, i));
        }
    }
}

/// What one more character does to the words with single spaces.
proof fn lemma_spaced_step(s: Seq<char>, i: int)
    requires
        0 <= i < s.len(),
    ensures
        is_white_space(s[i]) ==> spaced(words(s, i + 1)) == spaced(words(s, i)),
        !is_white_space(s[i]) ==> spaced(words(s, i + 1)) == if i > 0 && !is_white_space(s[i - 1]) {
            spaced(words(s, i)).push(s[i])
        } else if spaced(words(s, i)).len() == 0 {
            seq![s[i]]
        } else {
            spaced(words(s, i)).push(' ').push(s[i])
        },
        i > 0 && !is_white_space(s[i - 1]) ==> spaced(words(s, i)).len() > 0,
        words(s, i).len() == 0 <==> spaced(words(s, i)).len() == 0,
    decreases i,
{
    lemma_word_start(s, i + 1);
    lemma_word_start(s, i);
    if i > 0 {
        lemma_spaced_step(s, i - 1);
    }
    if !is_white_space(s[i]) {
        let w = word_start(s, i + 1);
        let before = words(s, w);
        let after = words(s, i + 1);
        let word = s.subrange(w, i + 1);
        assert(after == before.push(word));
        assert(after.drop_last() == before);
        if i > 0 && !is_white_space(s[i - 1]) {
            let shorter = s.subrange(w, i);
            assert(words(s, i) == before.push(shorter));
            assert(before.push(shorter).drop_last() == before);
            assert(word == shorter.push(s[i]));
            if before.len() > 0 {
                assert(spaced(after) == spaced(before).push(' ') + word);
                assert(spaced(words(s, i)) == spaced(before).push(' ') + shorter);
                assert(spaced(before).push(' ') + word == (spaced(before).push(' ')
                    + shorter).push(s[i]));
            }
        } else {
            assert(w == i);
            assert(word == seq![s[i]]);
            if before.len() > 0 {
                assert(spaced(after) == spaced(before).push(' ') + word);
                assert(spaced(before).push(' ') + word == spaced(before).push(' ').push(s[i]));
            }
        }
    }
}

/// Takes the punctuation out of a text in lower case and reduces its white
/// space to single spaces between words.
pub fn tidy(lowered: &str) -> (text: String)
    ensures
        text@ == tidied(lowered@),
{
    let chars = chars_of(lowered);
    let n = chars.len();
    let ghost s = lowered@;
    let ghost mut kept: Seq<char> = seq![];
    let mut text = String::new();
    let mut in_word: bool = false;
    let mut any: bool = false;
    let mut i: usize = 0;
    while i < n
        invariant
            chars@ == s,
            n == s.len(),
            i <= n,
            kept == without_punctuation(s.take(i as int)),
            text@ == single_spaced(kept),
            in_word == (kept.len() > 0 && !is_white_space(kept.last())),
            any == (text@.len() > 0),
        decreases n - i,
    {
        let c = chars[i];
        proof {
            assert(s.take(i + 1).drop_last() == s.take(i as int));
            assert(s.take(i + 1).last() == c);
        }
        if !ascii_punct(c) {
            let ghost longer = kept.push(c);
            proof {
                let k = kept.len() as int;
                assert(kept.take(k) == longer.take(k));
                lemma_words_prefix(kept, longer, k);
                lemma_spaced_step(longer, k);
                if k > 0 {
                    assert(longer[k - 1] == kept.last());
                }
            }
            if white_space(c) {
                in_word = false;
            } else {
                if any && !in_word {
                    text.push(' ');
                }
                text.push(c);
                in_word = true;
                any = true;
            }
            proof {
                kept = longer;
            }
        }
        i += 1;
    }
    assert(s.take(n as int) == s);
    text
}

/// Whether a text has no ASCII punctuation, and no white space but single
/// spaces between words.
pub open spec fn is_tidy(t: Seq<char>) -> bool {
    forall|i: int|
        0 <= i < t.len() ==> {
            &&& !is_ascii_punct(#[trigger] t[i])
            &&& is_white_space(t[i]) ==> t[i] == ' ' && 0 < i < t.len() - 1 && !is_white_space(
                t[i - 1],
            ) && !is_white_space(t[i + 1])
        }
}

proof fn lemma_spaced_is_tidy(s: Seq<char>, i: int)
    requires
        0 <= i <= s.len(),
        forall|k: int| 0 <= k < s.len() ==> !is_ascii_punct(#[trigger] s[k]),
    ensures
        is_tidy(spaced(words(s, i))),
        spaced(words(s, i)).len() > 0 ==> !is_white_space(spaced(words(s, i)).last()),
    decreases i,
{
    if i > 0 {
        lemma_spaced_is_tidy(s, i - 1);
        lemma_spaced_step(s, i - 1);
        assert(!is_ascii_punct(s[i - 1]));
        let before = spaced(words(s, i - 1));
        let after = spaced(words(s, i));
        assert forall|k: int| 0 <= k < after.len() implies {
            &&& !is_ascii_punct(#[trigger] after[k])
            &&& is_white_space(after[k]) ==> after[k] == ' ' && 0 < k < after.len() - 1
                && !is_white_space(after[k - 1]) && !is_white_space(after[k + 1])
        } by {
            if k < before.len() {
                assert(after[k] == before[k]);
                if 0 < k {
                    assert(after[k - 1] == before[k - 1]);
                }
                if k + 1 < before.len() {
                    assert(after[k + 1] == before[k + 1]);
                }
            }
        }
    }
}

proof fn lemma_without_punctuation(s: Seq<char>)
    ensures
        forall|k: int|
            0 <= k < without_punctuation(s).len() ==> !is_ascii_punct(
                #[trigger] without_punctuation(s)[k],
            ),
        (forall|k: int| 0 <= k < s.len() ==> !is_ascii_punct(#[trigger] s[k]))
            ==> without_punctuation(s) == s,
    decreases s.len(),
{
    if s.len() > 0 {
        let rest = s.drop_last();
        lemma_without_punctuation(rest);
        let kept = without_punctuation(rest);
        assert forall|k: int| 0 <= k < without_punctuation(s).len() implies !is_ascii_punct(
            #[trigger] without_punctuation(s)[k],
        ) by {
            if k < kept.len() {
                assert(without_punctuation(s)[k] == kept[k]);
            }
        }
        if forall|k: int| 0 <= k < s.len() ==> !is_ascii_punct(#[trigger] s[k]) {
            assert(!is_ascii_punct(s[s.len() - 1]));
            assert forall|k: int| 0 <= k < rest.len() implies !is_ascii_punct(#[trigger] rest[k]) by {
                assert(rest[k] == s[k]);
            }
            assert(rest.push(s.last()) == s);
        }
    }
}

/// Tidying a text makes it tidy.
pub proof fn law_tidied_text_is_tidy(lowered: Seq<char>)
    ensures
        is_tidy(tidied(lowered)),
{
    let s = without_punctuation(lowered);
    lemma_without_punctuation(lowered);
    lemma_spaced_is_tidy(s, s.len() as int);
}

/// The words of a tidy text with single spaces are the text up to its last word.
proof fn lemma_tidy_prefix(t: Seq<char>, i: int)
    requires
        is_tidy(t),
        0 <= i <= t.len(),
    ensures
        spaced(words(t, i)) == if i > 0 && is_white_space(t[i - 1]) {
            t.take(i - 1)
        } else {
            t.take(i)
        },
    decreases i,
{
    if i > 0 {
        lemma_tidy_prefix(t, i - 1);
        lemma_spaced_step(t, i - 1);
        assert(!is_ascii_punct(t[i - 1]));
        if i > 1 {
            assert(!is_ascii_punct(t[i - 2]));
        }
        if !is_white_space(t[i - 1]) {
            if i > 1 && is_white_space(t[i - 2]) {
                assert(t.take(i) == t.take(i - 2).push(' ').push(t[i - 1]));
            } else {
                assert(t.take(i) == t.take(i - 1).push(t[i - 1]));
            }
        }
    }
}

/// A tidy text is left as it is, so tidying twice is tidying once.
pub proof fn law_tidy_text_is_left_alone(t: Seq<char>)
    requires
        is_tidy(t),
    ensures
        tidied(t) == t,
{
    assert forall|k: int| 0 <= k < t.len() implies !is_ascii_punct(#[trigger] t[k]) by {}
    lemma_without_punctuation(t);
    lemma_tidy_prefix(t, t.len() as int);
    if t.len() > 0 {
        assert(!is_ascii_punct(t[t.len() - 1]));
    }
    assert(t.take(t.len() as int) == t);
}

impl ProvenceModel {
    /// The text in lower case, without ASCII punctuation, and with its white
    /// space reduced to single spaces between words.
    pub fn normalize_string(text: &str) -> (tidied: String)
        ensures
            tidied@ == normalized(text@),
    {
        let lowered = text.to_lowercase();
        tidy(lowered.as_str())
    }

    /// The input for a question and a context: both with the separator between.
    pub fn apply_template(question: &str, context: &str) -> (text: String)
        ensures
            text@ == template(question@, context@),
    {
        let mut text = question.to_owned();
        text.append(" ");
        text.append(SEPARATOR_TOKEN);
        text.append(" ");
        text.append(context);
        text
    }
}

/// The input for a question and a context.
pub open spec fn template(question: Seq<char>, context: Seq<char>) -> Seq<char> {
    question + " "@ + SEPARATOR_TOKEN@ + " "@ + context
}

/// The byte at which the context starts in the input for `question`.
pub open spec fn context_offset(question: Seq<char>) -> nat {
    byte_len(question) + 7
}

/// The bytes of the input from the context's offset on are those of the
/// context, so that a byte range of the context is found in the input by adding
/// the offset.
pub proof fn law_context_lies_at_its_offset(
    question: Seq<char>,
    context: Seq<char>,
    start: int,
    end: int,
)
    requires
        0 <= start <= end <= byte_len(context),
    ensures
        byte_len(template(question, context)) == context_offset(question) + byte_len(context),
        encode_utf8(template(question, context)).subrange(
            context_offset(question) + start,
            context_offset(question) + end,
        ) == encode_utf8(context).subrange(start, end),
{
    reveal_strlit(" ");
    reveal_strlit("[SEP]");
    let space = " "@;
    let separator = SEPARATOR_TOKEN@;
    is_ascii_chars_encode_utf8(space);
    is_ascii_chars_encode_utf8(separator);
    lemma_encode_concat(question, space);
    lemma_encode_concat(question + space, separator);
    lemma_encode_concat(question + space + separator, space);
    lemma_encode_concat(question + space + separator + space, context);
}

/// The input is the question, a space, `[SEP]`, a space and the context.
pub proof fn law_the_template(question: &str, context: &str, text: String)
    requires
        call_ensures(ProvenceModel::apply_template, (question, context), text),
    ensures
        text@ == question@ + seq![' ', '[', 'S', 'E', 'P', ']', ' '] + context@,
        text@ == template(question@, context@),
{
    lemma_template(question@, context@);
}

/// The template by its characters.
pub proof fn lemma_template(question: Seq<char>, context: Seq<char>)
    ensures
        template(question, context) == question + seq![' ', '[', 'S', 'E', 'P', ']', ' '] + context,
{
    reveal_strlit(" ");
    reveal_strlit("[SEP]");
    assert(" "@ + SEPARATOR_TOKEN@ + " "@ == seq![' ', '[', 'S', 'E', 'P', ']', ' ']);
    assert(template(question, context) == question + (" "@ + SEPARATOR_TOKEN@ + " "@) + context);
}

/// The context starts, in bytes, where the question, two spaces and `[SEP]` end.
pub proof fn law_the_offset_of_the_context(question: Seq<char>)
    ensures
        context_offset(question) == encode_utf8(
            question + seq![' ', '[', 'S', 'E', 'P', ']', ' '],
        ).len(),
{
    let nothing = Seq::<char>::empty();
    law_context_lies_at_its_offset(question, nothing, 0, 0);
    lemma_template(question, nothing);
    let head = question + seq![' ', '[', 'S', 'E', 'P', ']', ' '];
    assert(head + nothing == head);
}

/// The text without punctuation is the characters that are not punctuation.
proof fn lemma_without_punctuation_filters(s: Seq<char>)
    ensures
        without_punctuation(s) == s.filter(|c: char| !is_ascii_punct(c)),
    decreases s.len(),
{
    reveal(Seq::filter);
    if s.len() > 0 {
        lemma_without_punctuation_filters(s.drop_last());
    }
}

/// What one more character does to a tidied text. Punctuation and white space
/// change nothing. Any other character comes last: right after the text where
/// what came before it, punctuation aside, is not white space, and after one
/// space where it is, unless it is the first character of all. Nothing tidied is
/// nothing.
pub proof fn law_one_more_character(
    lowered: &str,
    longer: &str,
    c: char,
    before: String,
    after: String,
)
    requires
        longer@ == lowered@.push(c),
        call_ensures(tidy, (lowered,), before),
        call_ensures(tidy, (longer,), after),
    ensures
        lowered@.len() == 0 ==> before@.len() == 0,
        ({
            let kept = lowered@.filter(|d: char| !is_ascii_punct(d));
            after@ == if is_ascii_punct(c) || is_white_space(c) {
                before@
            } else if kept.len() > 0 && !is_white_space(kept.last()) {
                before@.push(c)
            } else if before@.len() == 0 {
                seq![c]
            } else {
                before@.push(' ').push(c)
            }
        }),
{
    let s = lowered@;
    let kept = without_punctuation(s);
    lemma_without_punctuation_filters(s);
    assert(longer@.drop_last() == s);
    assert(longer@.last() == c);
    if !is_ascii_punct(c) {
        let k = kept.len() as int;
        let more = kept.push(c);
        assert(without_punctuation(longer@) == more);
        assert(kept.take(k) == more.take(k));
        lemma_words_prefix(kept, more, k);
        lemma_spaced_step(more, k);
        if k > 0 {
            assert(more[k - 1] == kept.last());
        }
    }
}

/// Tidying drops nothing but punctuation and white space: without its spaces the
/// tidied text is the other characters, in order.
pub proof fn law_tidying_keeps_the_other_characters(lowered: &str, text: String)
    requires
        call_ensures(tidy, (lowered,), text),
    ensures
        text@.filter(|c: char| c != ' ') == lowered@.filter(
            |c: char| !is_ascii_punct(c) && !is_white_space(c),
        ),
{
    lemma_same_characters(lowered@);
}

proof fn lemma_same_characters(s: Seq<char>)
    ensures
        tidied(s).filter(|c: char| c != ' ') == s.filter(
            |c: char| !is_ascii_punct(c) && !is_white_space(c),
        ),
    decreases s.len(),
{
    reveal(Seq::filter);
    let not_space = |c: char| c != ' ';
    if s.len() > 0 {
        let rest = s.drop_last();
        let c = s.last();
        lemma_same_characters(rest);
        let kept = without_punctuation(rest);
        let k = kept.len() as int;
        let before = tidied(rest);
        if !is_ascii_punct(c) {
            let more = kept.push(c);
            assert(without_punctuation(s) == more);
            assert(kept.take(k) == more.take(k));
            lemma_words_prefix(kept, more, k);
            lemma_spaced_step(more, k);
            if !is_white_space(c) {
                let after = tidied(s);
                assert(after.last() == c);
                assert(after.filter(not_space) == after.drop_last().filter(not_space).push(c));
                if after.len() == before.len() + 2 {
                    let spaced_out = before.push(' ');
                    assert(after.drop_last() == spaced_out);
                    assert(spaced_out.drop_last() == before);
                    assert(spaced_out.filter(not_space) == before.filter(not_space));
                } else {
                    assert(after.drop_last() == before);
                }
            }
        }
    } else {
        assert(tidied(s) == Seq::<char>::empty());
    }
}

/// A text is normalised by tidying its lower case.
pub proof fn law_normalising_tidies_the_lower_case(
    text: &str,
    lowered: &str,
    normal: String,
    lower: String,
    tidy_text: String,
)
    requires
        call_ensures(ProvenceModel::normalize_string, (text,), normal),
        call_ensures(str::to_lowercase, (text,), lower),
        lowered@ == lower@,
        call_ensures(tidy, (lowered,), tidy_text),
    ensures
        normal@ == tidy_text@,
        normal@ == normalized(text@),
        normal@.filter(|c: char| c != ' ') == lower@.filter(
            |c: char| !is_ascii_punct(c) && !is_white_space(c),
        ),
{
    law_tidying_keeps_the_other_characters(lowered, tidy_text);
}

} // verus!
