//! Ranking by score.

use crate::score::Score;
use vstd::prelude::*;

verus! {

/// Whether `order` holds each index below `n` once.
pub open spec fn is_arrangement(order: Seq<usize>, n: nat) -> bool {
    &&& order.len() == n
    &&& forall|k: int| 0 <= k < n ==> (#[trigger] order[k]) < n
    &&& forall|j: int, k: int| 0 <= j < k < n ==> #[trigger] order[j] != #[trigger] order[k]
    &&& forall|i: usize| i < n ==> order.contains(i)
}

/// Whether the index `a` is to come before `b`: its score is higher, or the
/// same and it came first.
pub open spec fn comes_before(scores: Seq<Score>, a: int, b: int) -> bool {
    ||| scores[a].key() > scores[b].key()
    ||| scores[a].key() == scores[b].key() && a < b
}

/// Whether the indices come in the order of their scores.
pub open spec fn in_score_order(scores: Seq<Score>, order: Seq<usize>) -> bool {
    forall|j: int, k: int|
        0 <= j < k < order.len() ==> comes_before(
            scores,
            #[trigger] order[j] as int,
            #[trigger] order[k] as int,
        )
}

/// Whether all scores are numbers.
pub open spec fn all_numbers(scores: Seq<Score>) -> bool {
    forall|k: int| 0 <= k < scores.len() ==> !(#[trigger] scores[k]).is_nan()
}

/// Whether `order` ranks the scores, best first. Scores that are not numbers
/// have no place in the order of the others.
pub open spec fn is_ranking(scores: Seq<Score>, order: Seq<usize>) -> bool {
    &&& is_arrangement(order, scores.len())
    &&& all_numbers(scores) ==> in_score_order(scores, order)
}

/// Where a score goes among the first `p` indices of an order: before those at
/// the end that it exceeds.
pub open spec fn place(scores: Seq<Score>, order: Seq<usize>, score: Score, p: int) -> int
    decreases p,
{
    if p > 0 && score.gt(scores[order[p - 1] as int]) {
        place(scores, order, score, p - 1)
    } else {
        p
    }
}

/// The order of the first `n` scores: each goes to its place among those before
/// it.
pub open spec fn ranked_up_to(scores: Seq<Score>, n: int) -> Seq<usize>
    decreases n,
{
    if n <= 0 {
        seq![]
    } else {
        let before = ranked_up_to(scores, n - 1);
        before.insert(place(scores, before, scores[n - 1], n - 1), (n - 1) as usize)
    }
}

/// The indices of the scores, best first. A score that is not a number stays
/// where it is, and no score after it passes it.
pub open spec fn ranked(scores: Seq<Score>) -> Seq<usize> {
    ranked_up_to(scores, scores.len() as int)
}

proof fn lemma_place(scores: Seq<Score>, order: Seq<usize>, score: Score, p: int)
    requires
        0 <= p,
    ensures
        0 <= place(scores, order, score, p) <= p,
        forall|k: int|
            place(scores, order, score, p) <= k < p ==> score.gt(
                scores[#[trigger] order[k] as int],
            ),
        place(scores, order, score, p) > 0 ==> !score.gt(
            scores[order[place(scores, order, score, p) - 1] as int],
        ),
    decreases p,
{
    if p > 0 && score.gt(scores[order[p - 1] as int]) {
        lemma_place(scores, order, score, p - 1);
    }
}

/// There is a place for every score.
pub proof fn lemma_ranked_len(scores: Seq<Score>, n: int)
    requires
        0 <= n,
    ensures
        ranked_up_to(scores, n).len() == n,
    decreases n,
{
    if n > 0 {
        lemma_ranked_len(scores, n - 1);
        lemma_place(scores, ranked_up_to(scores, n - 1), scores[n - 1], n - 1);
    }
}

proof fn lemma_ranked_up_to(scores: Seq<Score>, n: int)
    requires
        0 <= n <= scores.len() <= usize::MAX,
    ensures
        is_arrangement(ranked_up_to(scores, n), n as nat),
        all_numbers(scores) ==> in_score_order(scores, ranked_up_to(scores, n)),
    decreases n,
{
    if n > 0 {
        lemma_ranked_up_to(scores, n - 1);
        let before = ranked_up_to(scores, n - 1);
        let i = (n - 1) as usize;
        let p = place(scores, before, scores[n - 1], n - 1);
        lemma_place(scores, before, scores[n - 1], n - 1);
        lemma_inserted(before, i, p as usize);
        if all_numbers(scores) {
            lemma_inserted_in_order(scores, before, i, p as usize);
        }
    }
}

/// The order ranks the scores: it holds every index once, and numbers come best
/// first, equal ones in the order in which they came.
pub proof fn law_ranked_is_a_ranking(scores: Seq<Score>)
    requires
        scores.len() <= usize::MAX,
    ensures
        is_ranking(scores, ranked(scores)),
{
    lemma_ranked_up_to(scores, scores.len() as int);
}

/// The indices of the scores, best first. Of equal scores the first comes first.
pub fn rank(scores: &Vec<Score>) -> (order: Vec<usize>)
    ensures
        order@ == ranked(scores@),
        is_ranking(scores@, order@),
{
    let n = scores.len();
    let mut order: Vec<usize> = Vec::with_capacity(n);
    let mut i: usize = 0;
    while i < n
        invariant
            n == scores@.len(),
            i <= n,
            order@ == ranked_up_to(scores@, i as int),
        decreases n - i,
    {
        proof {
            lemma_ranked_up_to(scores@, i as int);
        }
        let score = scores[i];
        let mut p: usize = i;
        while p > 0 && score.exceeds(scores[order[p - 1]])
            invariant
                p <= i < n,
                n == scores@.len(),
                score == scores@[i as int],
                is_arrangement(order@, i as nat),
                place(scores@, order@, score, i as int) == place(
                    scores@,
                    order@,
                    score,
                    p as int,
                ),
            decreases p,
        {
            p -= 1;
        }
        order.insert(p, i);
        i += 1;
    }
    proof {
        law_ranked_is_a_ranking(scores@);
    }
    order
}

proof fn lemma_inserted(before: Seq<usize>, i: usize, p: usize)
    requires
        is_arrangement(before, i as nat),
        p <= i < usize::MAX,
    ensures
        is_arrangement(before.insert(p as int, i), (i + 1) as nat),
{
    let after = before.insert(p as int, i);
    assert forall|v: usize| v < i + 1 implies after.contains(v) by {
        if v == i {
            assert(after[p as int] == i);
        } else {
            assert(before.contains(v));
            let k = before.index_of(v);
            if k < p {
                assert(after[k] == v);
            } else {
                assert(after[k + 1] == v);
            }
        }
    }
}

proof fn lemma_inserted_in_order(scores: Seq<Score>, before: Seq<usize>, i: usize, p: usize)
    requires
        i < scores.len(),
        p <= i,
        is_arrangement(before, i as nat),
        all_numbers(scores),
        in_score_order(scores, before),
        forall|k: int| p <= k < i ==> scores[i as int].gt(scores[#[trigger] before[k] as int]),
        p > 0 ==> !scores[i as int].gt(scores[before[p - 1] as int]),
    ensures
        in_score_order(scores, before.insert(p as int, i)),
{
    let after = before.insert(p as int, i);
    assert forall|j: int, k: int| 0 <= j < k < after.len() implies comes_before(
        scores,
        #[trigger] after[j] as int,
        #[trigger] after[k] as int,
    ) by {
        let old_j = if j < p {
            j
        } else {
            j - 1
        };
        let old_k = if k < p {
            k
        } else {
            k - 1
        };
        if j == p {
            assert(after[k] == before[old_k]);
            assert(scores[i as int].gt(scores[before[old_k] as int]));
        } else if k == p {
            assert(after[j] == before[j]);
            if j < p - 1 {
                assert(comes_before(scores, before[j] as int, before[p - 1] as int));
            }
            assert(before[j] < i);
        } else {
            assert(after[j] == before[old_j]);
            assert(after[k] == before[old_k]);
        }
    }
}

/// Numbers can be ranked in one way only.
pub proof fn law_ranking_is_unique(scores: Seq<Score>, a: Seq<usize>, b: Seq<usize>)
    requires
        all_numbers(scores),
        is_ranking(scores, a),
        is_ranking(scores, b),
    ensures
        a == b,
{
    lemma_same_start(scores, a, b, scores.len() as int);
    assert(a =~= b);
}

proof fn lemma_same_start(scores: Seq<Score>, a: Seq<usize>, b: Seq<usize>, n: int)
    requires
        all_numbers(scores),
        is_ranking(scores, a),
        is_ranking(scores, b),
        0 <= n <= scores.len(),
    ensures
        forall|j: int| 0 <= j < n ==> #[trigger] a[j] == b[j],
    decreases n,
{
    if n > 0 {
        lemma_same_start(scores, a, b, n - 1);
        let j = n - 1;
        if a[j] != b[j] {
            lemma_comes_later(scores, a, b, j);
            assert forall|k: int| 0 <= k < j implies #[trigger] b[k] == a[k] by {
                assert(a[k] == b[k]);
            }
            lemma_comes_later(scores, b, a, j);
        }
    }
}

/// Where two rankings part, what the first has there comes later in the second.
proof fn lemma_comes_later(scores: Seq<Score>, a: Seq<usize>, b: Seq<usize>, j: int)
    requires
        all_numbers(scores),
        is_ranking(scores, a),
        is_ranking(scores, b),
        0 <= j < scores.len(),
        forall|k: int| 0 <= k < j ==> #[trigger] a[k] == b[k],
        a[j] != b[j],
    ensures
        comes_before(scores, b[j] as int, a[j] as int),
{
    assert(b.contains(a[j]));
    let m = b.index_of(a[j]);
    if m < j {
        assert(a[m] == b[m]);
        assert(a[m] != a[j]);
    }
    assert(comes_before(scores, b[j] as int, b[m] as int));
}

/// No score is higher than one that is ranked before it, so what the first
/// places hold is at least as good as what the others do; and equal scores keep
/// their order.
pub proof fn law_best_come_first(scores: Seq<Score>, order: Seq<usize>, j: int, k: int)
    requires
        all_numbers(scores),
        is_ranking(scores, order),
        0 <= j < k < order.len(),
    ensures
        scores[order[k] as int].le(scores[order[j] as int]),
        scores[order[k] as int].key() == scores[order[j] as int].key() ==> order[j] < order[k],
{
    assert(comes_before(scores, order[j] as int, order[k] as int));
    assert(!scores[order[j] as int].is_nan());
    assert(!scores[order[k] as int].is_nan());
}

/// No score that comes after one that is not a number passes it.
proof fn lemma_place_after(scores: Seq<Score>, order: Seq<usize>, score: Score, i: int, p: int)
    requires
        0 <= i < p,
        scores[order[i] as int].is_nan(),
    ensures
        i < place(scores, order, score, p) <= p,
    decreases p,
{
    if score.gt(scores[order[p - 1] as int]) {
        lemma_place_after(scores, order, score, i, p - 1);
    }
}

proof fn lemma_stays(scores: Seq<Score>, i: int, n: int)
    requires
        0 <= i < n <= scores.len() <= usize::MAX,
        scores[i].is_nan(),
    ensures
        ranked_up_to(scores, n)[i] == i,
    decreases n,
{
    let before = ranked_up_to(scores, n - 1);
    lemma_ranked_len(scores, n - 1);
    if n - 1 > i {
        lemma_stays(scores, i, n - 1);
        lemma_place_after(scores, before, scores[n - 1], i, n - 1);
    }
}

/// A score that is not a number stays where it is.
pub proof fn law_what_is_not_a_number_stays(scores: Seq<Score>, i: int)
    requires
        0 <= i < scores.len() <= usize::MAX,
        scores[i].is_nan(),
    ensures
        ranked(scores)[i] == i,
{
    lemma_stays(scores, i, scores.len() as int);
}

/// Whether the scores that an order has from the place `j` to the place `k` are
/// all numbers.
pub open spec fn numbers_between(scores: Seq<Score>, order: Seq<usize>, j: int, k: int) -> bool {
    forall|m: int| j <= m <= k ==> !scores[#[trigger] order[m] as int].is_nan()
}

proof fn lemma_runs_are_ranked(scores: Seq<Score>, n: int, j: int, k: int)
    requires
        0 <= n <= scores.len() <= usize::MAX,
        0 <= j < k < n,
        numbers_between(scores, ranked_up_to(scores, n), j, k),
    ensures
        comes_before(
            scores,
            ranked_up_to(scores, n)[j] as int,
            ranked_up_to(scores, n)[k] as int,
        ),
    decreases n,
{
    let before = ranked_up_to(scores, n - 1);
    let after = ranked_up_to(scores, n);
    let x = scores[n - 1];
    let p = place(scores, before, x, n - 1);
    lemma_ranked_up_to(scores, n - 1);
    lemma_place(scores, before, x, n - 1);
    assert(after == before.insert(p, (n - 1) as usize));
    if j == p {
        assert(after[k] == before[k - 1]);
        assert(x.gt(scores[before[k - 1] as int]));
    } else if k == p {
        assert(after[j] == before[j]);
        assert(after[p - 1] == before[p - 1]);
        assert(!scores[after[p - 1] as int].is_nan());
        assert(!scores[after[k] as int].is_nan());
        assert(before[j] < n - 1);
        if j < p - 1 {
            assert forall|m: int| j <= m <= p - 1 implies !scores[#[trigger] before[m] as int].is_nan() by {
                assert(after[m] == before[m]);
            }
            lemma_runs_are_ranked(scores, n - 1, j, p - 1);
        }
    } else {
        let old_j = if j < p {
            j
        } else {
            j - 1
        };
        let old_k = if k < p {
            k
        } else {
            k - 1
        };
        if old_j < old_k {
            assert forall|m: int| old_j <= m <= old_k implies !scores[#[trigger] before[m] as int].is_nan() by {
                if m < p {
                    assert(after[m] == before[m]);
                } else {
                    assert(after[m + 1] == before[m]);
                }
            }
            lemma_runs_are_ranked(scores, n - 1, old_j, old_k);
        }
        assert(after[j] == before[old_j]);
        assert(after[k] == before[old_k]);
    }
}

/// Ranking names every index once. Of two places with only numbers from one to
/// the other, the later has no score that exceeds the other's; and where neither
/// exceeds the other, the index that came first is first.
pub proof fn law_the_greater_score_comes_first(
    scores: &Vec<Score>,
    order: Vec<usize>,
    j: int,
    k: int,
)
    requires
        call_ensures(rank, (scores,), order),
        scores@.len() <= usize::MAX,
        0 <= j < k < order@.len(),
    ensures
        order@.len() == scores@.len(),
        order@[j] < scores@.len() && order@[k] < scores@.len(),
        order@[j] != order@[k],
        forall|i: usize| i < scores@.len() ==> #[trigger] order@.contains(i),
        (forall|m: int| j <= m <= k ==> !scores@[#[trigger] order@[m] as int].is_nan()) ==> {
            let a = scores@[order@[j] as int];
            let b = scores@[order@[k] as int];
            &&& !b.gt(a)
            &&& a.gt(b) || order@[j] < order@[k]
        },
        scores@[order@[j] as int].is_nan() ==> order@[j] == j,
{
    if forall|m: int| j <= m <= k ==> !scores@[#[trigger] order@[m] as int].is_nan() {
        lemma_runs_are_ranked(scores@, scores@.len() as int, j, k);
        assert(!scores@[order@[j] as int].is_nan());
        assert(!scores@[order@[k] as int].is_nan());
    }
    if scores@[order@[j] as int].is_nan() {
        law_what_is_not_a_number_stays(scores@, order@[j] as int);
        let i = order@[j] as int;
        assert(order@[i] == i);
        if i < j {
            assert(order@[i] != order@[j]);
        } else if j < i {
            assert(order@[j] != order@[i]);
        }
    }
}

} // verus!
