//! Which token ids come out of a keep mask.

use crate::model::ProvenceModel;
use crate::sentences::texts;
use crate::text::same_text;
use crate::wording::SEPARATOR_TOKEN;
use vstd::prelude::*;
use vstd::seq_lib::group_to_multiset_ensures;

verus! {

/// The first separator among the tokens from the `i`-th on.
pub open spec fn first_separator(tokens: Seq<Seq<char>>, i: int) -> Option<int>
    decreases tokens.len() - i,
{
    if i >= tokens.len() {
        None
    } else if tokens[i] == SEPARATOR_TOKEN@ {
        Some(i)
    } else {
        first_separator(tokens, i + 1)
    }
}

/// The first separator is one, and none comes before it.
pub proof fn law_first_separator(tokens: Seq<Seq<char>>)
    ensures
        match first_separator(tokens, 0) {
            Some(i) => {
                &&& 0 <= i < tokens.len()
                &&& tokens[i] == SEPARATOR_TOKEN@
                &&& forall|j: int| 0 <= j < i ==> #[trigger] tokens[j] != SEPARATOR_TOKEN@
            },
            None => forall|j: int|
                0 <= j < tokens.len() ==> #[trigger] tokens[j] != SEPARATOR_TOKEN@,
        },
{
    lemma_first_separator(tokens, 0);
}

proof fn lemma_first_separator(tokens: Seq<Seq<char>>, i: int)
    requires
        0 <= i <= tokens.len(),
    ensures
        match first_separator(tokens, i) {
            Some(k) => {
                &&& i <= k < tokens.len()
                &&& tokens[k] == SEPARATOR_TOKEN@
                &&& forall|j: int| i <= j < k ==> #[trigger] tokens[j] != SEPARATOR_TOKEN@
            },
            None => forall|j: int|
                i <= j < tokens.len() ==> #[trigger] tokens[j] != SEPARATOR_TOKEN@,
        },
    decreases tokens.len() - i,
{
    if i < tokens.len() {
        lemma_first_separator(tokens, i + 1);
    }
}

/// Whether the mask keeps the token `i`. What lies past the mask is not kept.
pub open spec fn mask_keeps(mask: Seq<bool>, i: int) -> bool {
    0 <= i < mask.len() && mask[i]
}

/// Of the first `n` tokens, those after `skip` that the mask keeps, or those
/// that it does not keep.
pub open spec fn picked(ids: Seq<u32>, skip: int, mask: Seq<bool>, keep: bool, n: int) -> Seq<u32>
    decreases n,
{
    if n <= 0 {
        seq![]
    } else if n - 1 > skip && mask_keeps(mask, n - 1) == keep {
        picked(ids, skip, mask, keep, n - 1).push(ids[n - 1])
    } else {
        picked(ids, skip, mask, keep, n - 1)
    }
}

/// The tokens after `skip` that the mask keeps.
pub open spec fn kept_ids(ids: Seq<u32>, skip: int, mask: Seq<bool>) -> Seq<u32> {
    picked(ids, skip, mask, true, ids.len() as int)
}

/// The tokens after `skip` that the mask does not keep.
pub open spec fn removed_ids(ids: Seq<u32>, skip: int, mask: Seq<bool>) -> Seq<u32> {
    picked(ids, skip, mask, false, ids.len() as int)
}

proof fn lemma_nothing_before_skip(
    ids: Seq<u32>,
    skip: int,
    mask: Seq<bool>,
    keep: bool,
    n: int,
)
    requires
        n <= skip + 1,
    ensures
        picked(ids, skip, mask, keep, n) == Seq::<u32>::empty(),
    decreases n,
{
    if n > 0 {
        lemma_nothing_before_skip(ids, skip, mask, keep, n - 1);
    }
}

impl ProvenceModel {
    /// The position of the first separator among the tokens, if there is one.
    pub fn get_separator_index(tokens: &Vec<String>) -> (index: Option<usize>)
        ensures
            match index {
                Some(i) => first_separator(texts(tokens@), 0) == Some(i as int),
                None => first_separator(texts(tokens@), 0) is None,
            },
    {
        let mut i: usize = 0;
        while i < tokens.len()
            invariant
                i <= tokens@.len(),
                first_separator(texts(tokens@), 0) == first_separator(texts(tokens@), i as int),
            decreases tokens@.len() - i,
        {
            assert(texts(tokens@)[i as int] == tokens@[i as int]@);
            if same_text(tokens[i].as_str(), SEPARATOR_TOKEN) {
                return Some(i);
            }
            i += 1;
        }
        None
    }

    /// Parts the tokens after the `skip`-th into those that the mask keeps and
    /// those that it does not.
    pub fn apply_keep_mask_after_skip(tokens: &[u32], skip: usize, keep_mask: &[bool]) -> (res: (
        Vec<u32>,
        Vec<u32>,
    ))
        requires
            skip < usize::MAX,
        ensures
            res.0@ == kept_ids(tokens@, skip as int, keep_mask@),
            res.1@ == removed_ids(tokens@, skip as int, keep_mask@),
    {
        let mut kept: Vec<u32> = Vec::new();
        let mut removed: Vec<u32> = Vec::new();
        let mut i: usize = skip + 1;
        proof {
            let n = if skip + 1 <= tokens@.len() {
                skip + 1
            } else {
                tokens@.len() as int
            };
            lemma_nothing_before_skip(tokens@, skip as int, keep_mask@, true, n);
            lemma_nothing_before_skip(tokens@, skip as int, keep_mask@, false, n);
        }
        while i < tokens.len()
            invariant
                skip < i,
                i <= tokens@.len() ==> kept@ == picked(
                    tokens@,
                    skip as int,
                    keep_mask@,
                    true,
                    i as int,
                ),
                i <= tokens@.len() ==> removed@ == picked(
                    tokens@,
                    skip as int,
                    keep_mask@,
                    false,
                    i as int,
                ),
                i > tokens@.len() ==> kept@ == kept_ids(tokens@, skip as int, keep_mask@) && removed@
                    == removed_ids(tokens@, skip as int, keep_mask@),
            decreases tokens@.len() - i,
        {
            if i < keep_mask.len() && keep_mask[i] {
                kept.push(tokens[i]);
            } else {
                removed.push(tokens[i]);
            }
            i += 1;
        }
        (kept, removed)
    }
}

proof fn lemma_parted(ids: Seq<u32>, skip: int, mask: Seq<bool>, n: int)
    requires
        0 <= skip,
        skip + 1 <= n <= ids.len(),
    ensures
        picked(ids, skip, mask, true, n).to_multiset().add(
            picked(ids, skip, mask, false, n).to_multiset(),
        ) == ids.subrange(skip + 1, n).to_multiset(),
    decreases n,
{
    broadcast use group_to_multiset_ensures;

    if n == skip + 1 {
        lemma_nothing_before_skip(ids, skip, mask, true, n);
        lemma_nothing_before_skip(ids, skip, mask, false, n);
        assert(ids.subrange(skip + 1, n) == Seq::<u32>::empty());
        assert(Seq::<u32>::empty().to_multiset().add(Seq::<u32>::empty().to_multiset())
            =~= Seq::<u32>::empty().to_multiset());
    } else {
        lemma_parted(ids, skip, mask, n - 1);
        let before = ids.subrange(skip + 1, n - 1);
        assert(ids.subrange(skip + 1, n) == before.push(ids[n - 1]));
        let k = picked(ids, skip, mask, true, n - 1);
        let r = picked(ids, skip, mask, false, n - 1);
        if mask_keeps(mask, n - 1) {
            assert(k.push(ids[n - 1]).to_multiset().add(r.to_multiset())
                =~= k.to_multiset().add(r.to_multiset()).insert(ids[n - 1]));
        } else {
            assert(k.to_multiset().add(r.push(ids[n - 1]).to_multiset())
                =~= k.to_multiset().add(r.to_multiset()).insert(ids[n - 1]));
        }
    }
}

/// Every token after `skip` is either kept or removed, as often as it occurs.
pub proof fn law_tokens_are_kept_or_removed(ids: Seq<u32>, skip: int, mask: Seq<bool>)
    requires
        0 <= skip < ids.len(),
    ensures
        kept_ids(ids, skip, mask).to_multiset().add(removed_ids(ids, skip, mask).to_multiset())
            == ids.skip(skip + 1).to_multiset(),
        kept_ids(ids, skip, mask).len() + removed_ids(ids, skip, mask).len() == ids.len() - skip
            - 1,
{
    broadcast use group_to_multiset_ensures;

    let n = ids.len() as int;
    lemma_parted(ids, skip, mask, n);
    assert(ids.subrange(skip + 1, n) == ids.skip(skip + 1));
    let k = kept_ids(ids, skip, mask);
    let r = removed_ids(ids, skip, mask);
    assert(k.to_multiset().add(r.to_multiset()).len() == k.len() + r.len());
}

proof fn lemma_uniform(ids: Seq<u32>, skip: int, mask: Seq<bool>, keep: bool, n: int)
    requires
        0 <= skip,
        skip + 1 <= n <= ids.len(),
        forall|i: int| skip < i < ids.len() ==> #[trigger] mask_keeps(mask, i) == keep,
    ensures
        picked(ids, skip, mask, keep, n) == ids.subrange(skip + 1, n),
        picked(ids, skip, mask, !keep, n) == Seq::<u32>::empty(),
    decreases n,
{
    if n == skip + 1 {
        lemma_nothing_before_skip(ids, skip, mask, keep, n);
        lemma_nothing_before_skip(ids, skip, mask, !keep, n);
    } else {
        lemma_uniform(ids, skip, mask, keep, n - 1);
        assert(mask_keeps(mask, n - 1) == keep);
        assert(ids.subrange(skip + 1, n) == ids.subrange(skip + 1, n - 1).push(ids[n - 1]));
    }
}

/// A mask that keeps everything after `skip` keeps the tokens as they stand,
/// and a mask that keeps nothing there removes them as they stand.
pub proof fn law_uniform_masks(ids: Seq<u32>, skip: int, mask: Seq<bool>, keep: bool)
    requires
        0 <= skip < ids.len(),
        forall|i: int| skip < i < ids.len() ==> #[trigger] mask_keeps(mask, i) == keep,
    ensures
        kept_ids(ids, skip, mask) == if keep {
            ids.skip(skip + 1)
        } else {
            seq![]
        },
        removed_ids(ids, skip, mask) == if keep {
            seq![]
        } else {
            ids.skip(skip + 1)
        },
{
    lemma_uniform(ids, skip, mask, keep, ids.len() as int);
    assert(ids.subrange(skip + 1, ids.len() as int) == ids.skip(skip + 1));
}

proof fn lemma_run(
    ids: Seq<u32>,
    skip: int,
    mask: Seq<bool>,
    keep: bool,
    start: int,
    end: int,
)
    requires
        0 <= skip < start <= end <= ids.len(),
        forall|i: int| start <= i < end ==> #[trigger] mask_keeps(mask, i) == keep,
    ensures
        picked(ids, skip, mask, keep, end) == picked(ids, skip, mask, keep, start) + ids.subrange(
            start,
            end,
        ),
        picked(ids, skip, mask, !keep, end) == picked(ids, skip, mask, !keep, start),
    decreases end,
{
    if start == end {
        assert(ids.subrange(start, end) == Seq::<u32>::empty());
    } else {
        lemma_run(ids, skip, mask, keep, start, end - 1);
        assert(mask_keeps(mask, end - 1) == keep);
        assert(ids.subrange(start, end) == ids.subrange(start, end - 1).push(ids[end - 1]));
    }
}

proof fn lemma_picked_prefix(ids: Seq<u32>, skip: int, mask: Seq<bool>, keep: bool, m: int, n: int)
    requires
        0 <= m <= n,
    ensures
        picked(ids, skip, mask, keep, m).len() <= picked(ids, skip, mask, keep, n).len(),
        picked(ids, skip, mask, keep, n).take(
            picked(ids, skip, mask, keep, m).len() as int,
        ) == picked(ids, skip, mask, keep, m),
    decreases n,
{
    let before = picked(ids, skip, mask, keep, m);
    if m == n {
        assert(before.take(before.len() as int) == before);
    } else {
        lemma_picked_prefix(ids, skip, mask, keep, m, n - 1);
        let almost = picked(ids, skip, mask, keep, n - 1);
        let all = picked(ids, skip, mask, keep, n);
        assert(all.take(before.len() as int) == almost.take(before.len() as int));
    }
}

/// Whether `part` stands in `whole` without a gap.
pub open spec fn stands_in(part: Seq<u32>, whole: Seq<u32>) -> bool {
    exists|p: int|
        0 <= p && p + part.len() <= whole.len() && #[trigger] whole.subrange(
            p,
            p + part.len() as int,
        ) == part
}

/// Tokens after `skip` that the mask keeps one after the other stand one after
/// the other among the kept tokens, and likewise those that it removes.
pub proof fn law_runs_stay_together(
    ids: Seq<u32>,
    skip: int,
    mask: Seq<bool>,
    keep: bool,
    start: int,
    end: int,
)
    requires
        0 <= skip < start <= end <= ids.len(),
        forall|i: int| start <= i < end ==> #[trigger] mask_keeps(mask, i) == keep,
    ensures
        stands_in(
            ids.subrange(start, end),
            if keep {
                kept_ids(ids, skip, mask)
            } else {
                removed_ids(ids, skip, mask)
            },
        ),
{
    let n = ids.len() as int;
    let part = ids.subrange(start, end);
    let before = picked(ids, skip, mask, keep, start);
    let up_to = picked(ids, skip, mask, keep, end);
    let whole = picked(ids, skip, mask, keep, n);
    lemma_run(ids, skip, mask, keep, start, end);
    lemma_picked_prefix(ids, skip, mask, keep, end, n);
    let p = before.len() as int;
    assert(whole.subrange(p, p + part.len()) == part) by {
        assert(whole.take(up_to.len() as int) == before + part);
        assert(whole.subrange(p, p + part.len()) == whole.take(up_to.len() as int).subrange(
            p,
            p + part.len(),
        ));
    }
}

/// The separator that is found is a token `[SEP]`, and none comes before it; none
/// is found exactly if there is none.
pub proof fn law_separators_are_found(tokens: &Vec<String>, index: Option<usize>)
    requires
        call_ensures(ProvenceModel::get_separator_index, (tokens,), index),
    ensures
        match index {
            Some(i) => {
                &&& i < tokens@.len()
                &&& tokens@[i as int]@ == seq!['[', 'S', 'E', 'P', ']']
                &&& forall|j: int|
                    0 <= j < i ==> (#[trigger] tokens@[j])@ != seq!['[', 'S', 'E', 'P', ']']
            },
            None => forall|j: int|
                0 <= j < tokens@.len() ==> (#[trigger] tokens@[j])@ != seq![
                    '[',
                    'S',
                    'E',
                    'P',
                    ']',
                ],
        },
{
    let all = texts(tokens@);
    law_first_separator(all);
    reveal_strlit("[SEP]");
    assert(SEPARATOR_TOKEN@ == seq!['[', 'S', 'E', 'P', ']']);
    assert forall|j: int| 0 <= j < tokens@.len() implies (#[trigger] tokens@[j])@ == all[j] by {}
}

/// What one more token does: it is kept or removed, after all others, if it comes
/// after the `skip`-th, and kept exactly if the mask has a flag for it that says
/// so. No tokens give none.
pub proof fn law_one_more_token(
    tokens: &[u32],
    longer: &[u32],
    id: u32,
    skip: usize,
    mask: &[bool],
    before: (Vec<u32>, Vec<u32>),
    after: (Vec<u32>, Vec<u32>),
)
    requires
        longer@ == tokens@.push(id),
        call_ensures(ProvenceModel::apply_keep_mask_after_skip, (tokens, skip, mask), before),
        call_ensures(ProvenceModel::apply_keep_mask_after_skip, (longer, skip, mask), after),
    ensures
        ({
            let n = tokens@.len() as int;
            &&& tokens@.len() == 0 ==> before.0@.len() == 0 && before.1@.len() == 0
            &&& n <= skip ==> after.0@ == before.0@ && after.1@ == before.1@
            &&& n > skip && n < mask@.len() && mask@[n] ==> after.0@ == before.0@.push(id)
                && after.1@ == before.1@
            &&& n > skip && !(n < mask@.len() && mask@[n]) ==> after.0@ == before.0@ && after.1@
                == before.1@.push(id)
        }),
{
    let n = tokens@.len() as int;
    lemma_picked_of_prefix(tokens@, longer@, skip as int, mask@, true, n);
    lemma_picked_of_prefix(tokens@, longer@, skip as int, mask@, false, n);
}

/// The tokens that are picked of the first `n` do not depend on the others.
proof fn lemma_picked_of_prefix(
    a: Seq<u32>,
    b: Seq<u32>,
    skip: int,
    mask: Seq<bool>,
    keep: bool,
    n: int,
)
    requires
        0 <= n <= a.len(),
        n <= b.len(),
        forall|i: int| 0 <= i < n ==> #[trigger] a[i] == b[i],
    ensures
        picked(a, skip, mask, keep, n) == picked(b, skip, mask, keep, n),
    decreases n,
{
    if n > 0 {
        lemma_picked_of_prefix(a, b, skip, mask, keep, n - 1);
        assert(a[n - 1] == b[n - 1]);
    }
}

/// Where each kept token stands among all tokens: they come in order, and they
/// are those after the `skip`-th whose flag in the mask is set.
pub proof fn law_kept_tokens_are_the_flagged_ones(
    ids: Seq<u32>,
    skip: int,
    mask: Seq<bool>,
) -> (at: Seq<int>)
    ensures
        at.len() == kept_ids(ids, skip, mask).len(),
        forall|j: int|
            0 <= j < at.len() ==> {
                &&& 0 <= #[trigger] at[j] < ids.len()
                &&& at[j] > skip
                &&& at[j] < mask.len() && mask[at[j]]
                &&& kept_ids(ids, skip, mask)[j] == ids[at[j]]
            },
        forall|i: int, j: int| 0 <= i < j < at.len() ==> #[trigger] at[i] < #[trigger] at[j],
        forall|i: int|
            skip < i < ids.len() && 0 <= i < mask.len() && #[trigger] mask[i] ==> at.contains(i),
{
    lemma_flagged(ids, skip, mask, ids.len() as int)
}

proof fn lemma_flagged(ids: Seq<u32>, skip: int, mask: Seq<bool>, n: int) -> (at: Seq<int>)
    requires
        0 <= n <= ids.len(),
    ensures
        at.len() == picked(ids, skip, mask, true, n).len(),
        forall|j: int|
            0 <= j < at.len() ==> {
                &&& 0 <= #[trigger] at[j] < n
                &&& at[j] > skip
                &&& at[j] < mask.len() && mask[at[j]]
                &&& picked(ids, skip, mask, true, n)[j] == ids[at[j]]
            },
        forall|i: int, j: int| 0 <= i < j < at.len() ==> #[trigger] at[i] < #[trigger] at[j],
        forall|i: int|
            skip < i < n && 0 <= i < mask.len() && #[trigger] mask[i] ==> at.contains(i),
    decreases n,
{
    if n == 0 {
        seq![]
    } else {
        let before = lemma_flagged(ids, skip, mask, n - 1);
        if n - 1 > skip && mask_keeps(mask, n - 1) {
            let at = before.push(n - 1);
            assert forall|i: int|
                skip < i < n && 0 <= i < mask.len() && #[trigger] mask[i] implies at.contains(i) by {
                if i == n - 1 {
                    assert(at[before.len() as int] == i);
                } else {
                    let j = before.index_of(i);
                    assert(at[j] == i);
                }
            }
            at
        } else {
            before
        }
    }
}

} // verus!
