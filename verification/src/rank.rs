//! Ranking: the matches in the order of their scores, highest first.
//!
//! The order is stable: matches of one score stay in the order in which the
//! search found them.

use vstd::prelude::*;
use vstd::seq_lib::to_multiset_build;
use crate::frecency::MatchResult;

verus! {

/// The matches of `ms` that have the score `score`, in their order.
pub open spec fn with_score(ms: Seq<MatchResult>, score: u128) -> Seq<MatchResult>
    decreases ms.len(),
{
    if ms.len() == 0 {
        Seq::<MatchResult>::empty()
    } else if ms.last().frecency_score == score {
        with_score(ms.drop_last(), score).push(ms.last())
    } else {
        with_score(ms.drop_last(), score)
    }
}

/// No match stands before one with a higher score.
pub open spec fn is_descending(ms: Seq<MatchResult>) -> bool {
    forall|i: int, j: int|
        0 <= i < j < ms.len() ==> ms[i].frecency_score >= ms[j].frecency_score
}

/// `ranked` is `ms` in the order of the scores, highest first, with the
/// matches of each score in the order that they have in `ms`.
pub open spec fn is_ranking_of(ranked: Seq<MatchResult>, ms: Seq<MatchResult>) -> bool {
    &&& ranked.len() == ms.len()
    &&& is_descending(ranked)
    &&& forall|score: u128| #[trigger] with_score(ranked, score) == with_score(ms, score)
}

/// A match put behind the others is the last of its score.
pub proof fn lemma_with_score_push(ms: Seq<MatchResult>, m: MatchResult, score: u128)
    ensures
        with_score(ms.push(m), score) == if m.frecency_score == score {
            with_score(ms, score).push(m)
        } else {
            with_score(ms, score)
        },
{
    assert(ms.push(m).drop_last() =~= ms);
}

/// Of two sequences in a row, the matches of a score are those of the first
/// and then those of the second.
pub proof fn lemma_with_score_concat(a: Seq<MatchResult>, b: Seq<MatchResult>, score: u128)
    ensures
        with_score(a + b, score) == with_score(a, score) + with_score(b, score),
    decreases b.len(),
{
    if b.len() == 0 {
        assert(a + b =~= a);
        assert(with_score(a, score) + with_score(b, score) =~= with_score(a, score));
    } else {
        lemma_with_score_concat(a, b.drop_last(), score);
        assert((a + b).drop_last() =~= a + b.drop_last());
        assert((a + b).last() == b.last());
        if b.last().frecency_score == score {
            assert(with_score(a, score) + with_score(b.drop_last(), score).push(b.last())
                =~= (with_score(a, score) + with_score(b.drop_last(), score)).push(
                b.last(),
            ));
        }
    }
}

/// Where no match has the score, there are no matches of that score.
pub proof fn lemma_with_score_none(ms: Seq<MatchResult>, score: u128)
    requires
        forall|k: int| 0 <= k < ms.len() ==> ms[k].frecency_score != score,
    ensures
        with_score(ms, score) == Seq::<MatchResult>::empty(),
    decreases ms.len(),
{
    if ms.len() > 0 {
        lemma_with_score_none(ms.drop_last(), score);
    }
}

/// Each match of a score is a match of the sequence, and has that score.
pub proof fn lemma_with_score_members(ms: Seq<MatchResult>, score: u128, at: int)
    requires
        0 <= at < with_score(ms, score).len(),
    ensures
        exists|i: int|
            0 <= i < ms.len() && #[trigger] ms[i] == with_score(ms, score)[at]
                && ms[i].frecency_score == score,
    decreases ms.len(),
{
    if ms.len() > 0 {
        let rest = ms.drop_last();
        if ms.last().frecency_score == score && at == with_score(rest, score).len() {
            assert(ms[ms.len() - 1] == with_score(ms, score)[at]);
        } else {
            lemma_with_score_members(rest, score, at);
            let i = choose|i: int|
                0 <= i < rest.len() && #[trigger] rest[i] == with_score(rest, score)[at]
                    && rest[i].frecency_score == score;
            assert(ms[i] == with_score(ms, score)[at]);
        }
    }
}

/// Two sequences in descending order that hold, for each score, the same
/// matches in the same order are one sequence.
pub proof fn lemma_same_groups_same_order(a: Seq<MatchResult>, b: Seq<MatchResult>)
    requires
        a.len() == b.len(),
        is_descending(a),
        is_descending(b),
        forall|score: u128| #[trigger] with_score(a, score) == with_score(b, score),
    ensures
        a == b,
    decreases a.len(),
{
    if a.len() == 0 {
        assert(a =~= b);
    } else {
        let low_a = a.last().frecency_score;
        let low_b = b.last().frecency_score;
        assert(with_score(a, low_a) == with_score(b, low_a));
        assert(with_score(a, low_b) == with_score(b, low_b));
        assert(low_b <= low_a) by {
            let at = with_score(b, low_a).len() - 1;
            lemma_with_score_members(b, low_a, at);
        }
        assert(low_a <= low_b) by {
            let at = with_score(a, low_b).len() - 1;
            lemma_with_score_members(a, low_b, at);
        }
        assert(a.last() == b.last()) by {
            assert(with_score(a, low_a).last() == a.last());
            assert(with_score(b, low_a).last() == b.last());
        }
        let a_rest = a.drop_last();
        let b_rest = b.drop_last();
        assert forall|score: u128| #[trigger]
            with_score(a_rest, score) == with_score(b_rest, score) by {
            assert(with_score(a, score) == with_score(b, score));
            if score == low_a {
                assert(with_score(a_rest, score) =~= with_score(a, score).drop_last());
                assert(with_score(b_rest, score) =~= with_score(b, score).drop_last());
            }
        }
        lemma_same_groups_same_order(a_rest, b_rest);
        assert(a =~= a_rest.push(a.last()));
        assert(b =~= b_rest.push(b.last()));
    }
}

/// A sequence of matches has one ranking only.
pub proof fn lemma_ranking_is_unique(
    first: Seq<MatchResult>,
    second: Seq<MatchResult>,
    ms: Seq<MatchResult>,
)
    requires
        is_ranking_of(first, ms),
        is_ranking_of(second, ms),
    ensures
        first == second,
{
    assert forall|score: u128| #[trigger] with_score(first, score) == with_score(second, score) by {
        assert(with_score(first, score) == with_score(ms, score));
        assert(with_score(second, score) == with_score(ms, score));
    }
    lemma_same_groups_same_order(first, second);
}

/// A match occurs in a sequence as often as among the matches of its score.
pub proof fn lemma_count_by_score(ms: Seq<MatchResult>, m: MatchResult)
    ensures
        ms.to_multiset().count(m) == with_score(ms, m.frecency_score).to_multiset().count(m),
    decreases ms.len(),
{
    let score = m.frecency_score;
    if ms.len() == 0 {
        assert(with_score(ms, score) =~= ms);
    } else {
        let rest = ms.drop_last();
        let last = ms.last();
        lemma_count_by_score(rest, m);
        assert(ms =~= rest.push(last));
        to_multiset_build(rest, last);
        if last.frecency_score == score {
            to_multiset_build(with_score(rest, score), last);
        }
    }
}

/// A ranking holds each match as often as it came: it is a rearrangement of
/// the matches.
pub proof fn lemma_ranking_is_a_rearrangement(ranked: Seq<MatchResult>, ms: Seq<MatchResult>)
    requires
        is_ranking_of(ranked, ms),
    ensures
        ranked.to_multiset() == ms.to_multiset(),
{
    assert forall|m: MatchResult| ranked.to_multiset().count(m) == ms.to_multiset().count(m) by {
        lemma_count_by_score(ranked, m);
        lemma_count_by_score(ms, m);
        assert(with_score(ranked, m.frecency_score) == with_score(ms, m.frecency_score));
    }
    assert(ranked.to_multiset() =~= ms.to_multiset());
}

/// Where one match alone has a score, it alone is the matches of that score.
pub proof fn lemma_with_score_single(ms: Seq<MatchResult>, at: int)
    requires
        0 <= at < ms.len(),
        forall|j: int|
            0 <= j < ms.len() && j != at ==> ms[j].frecency_score != ms[at].frecency_score,
    ensures
        with_score(ms, ms[at].frecency_score) == seq![ms[at]],
    decreases ms.len(),
{
    let score = ms[at].frecency_score;
    let rest = ms.drop_last();
    if at == ms.len() - 1 {
        lemma_with_score_none(rest, score);
        assert(Seq::<MatchResult>::empty().push(ms[at]) =~= seq![ms[at]]);
    } else {
        assert(rest[at] == ms[at]);
        lemma_with_score_single(rest, at);
    }
}

/// The two sequences hold the same matches, in whatever order.
pub open spec fn have_the_same_members(a: Seq<MatchResult>, b: Seq<MatchResult>) -> bool {
    &&& a.len() == b.len()
    &&& forall|i: int| 0 <= i < a.len() ==> exists|k: int| 0 <= k < b.len() && #[trigger] a[i] == b[k]
    &&& forall|k: int| 0 <= k < b.len() ==> exists|i: int| 0 <= i < a.len() && #[trigger] b[k] == a[i]
}

/// Each match stands before every match with a lower score, and no two have
/// the same score.
pub open spec fn is_strictly_descending(ms: Seq<MatchResult>) -> bool {
    forall|i: int, j: int| 0 <= i < j < ms.len() ==> ms[i].frecency_score > ms[j].frecency_score
}

/// Matches of which no two have the same score are ranked by their scores
/// alone: in whatever order they came, the ranking is the one sequence that
/// holds them from the highest score down.
pub proof fn lemma_ranking_of_distinct_scores(
    ranked: Seq<MatchResult>,
    ms: Seq<MatchResult>,
    want: Seq<MatchResult>,
)
    requires
        is_ranking_of(ranked, ms),
        is_strictly_descending(want),
        have_the_same_members(ms, want),
        forall|i: int, j: int|
            0 <= i < j < ms.len() ==> ms[i].frecency_score != ms[j].frecency_score,
    ensures
        ranked == want,
{
    assert forall|score: u128| #[trigger] with_score(want, score) == with_score(ms, score) by {
        if exists|k: int| 0 <= k < want.len() && want[k].frecency_score == score {
            let k = choose|k: int| 0 <= k < want.len() && want[k].frecency_score == score;
            let i = choose|i: int| 0 <= i < ms.len() && #[trigger] want[k] == ms[i];
            lemma_with_score_single(want, k);
            lemma_with_score_single(ms, i);
        } else {
            lemma_with_score_none(want, score);
            assert forall|i: int| 0 <= i < ms.len() implies ms[i].frecency_score != score by {
                let k = choose|k: int| 0 <= k < want.len() && #[trigger] ms[i] == want[k];
                assert(want[k].frecency_score == ms[i].frecency_score);
            }
            lemma_with_score_none(ms, score);
        }
    }
    assert(is_descending(want));
    assert(is_ranking_of(want, ms));
    lemma_ranking_is_unique(ranked, want, ms);
}

/// The matches in the opposite order.
fn reversed(matches: Vec<MatchResult>) -> (turned: Vec<MatchResult>)
    ensures
        turned@.len() == matches@.len(),
        forall|k: int| 0 <= k < turned@.len() ==> turned@[k] == matches@[matches@.len() - 1 - k],
{
    let ghost given = matches@;
    let mut rest: Vec<MatchResult> = matches;
    let mut turned: Vec<MatchResult> = Vec::new();
    while rest.len() > 0
        invariant
            rest@.len() + turned@.len() == given.len(),
            forall|k: int| 0 <= k < rest@.len() ==> rest@[k] == given[k],
            forall|k: int| 0 <= k < turned@.len() ==> turned@[k] == given[given.len() - 1 - k],
        decreases rest@.len(),
    {
        let m: MatchResult = rest.pop().unwrap();
        turned.push(m);
    }
    turned
}

/// Merges two rankings into one; on equal scores the matches of `left` go
/// first.
fn merge(left: Vec<MatchResult>, right: Vec<MatchResult>) -> (out: Vec<MatchResult>)
    requires
        is_descending(left@),
        is_descending(right@),
    ensures
        out@.len() == left@.len() + right@.len(),
        is_descending(out@),
        forall|score: u128| #[trigger]
            with_score(out@, score) == with_score(left@, score) + with_score(right@, score),
{
    let ghost a = left@;
    let ghost b = right@;
    let mut l: Vec<MatchResult> = reversed(left);
    let mut r: Vec<MatchResult> = reversed(right);
    let mut out: Vec<MatchResult> = Vec::new();
    while l.len() > 0 || r.len() > 0
        invariant
            is_descending(a),
            is_descending(b),
            l@.len() <= a.len(),
            r@.len() <= b.len(),
            forall|k: int| 0 <= k < l@.len() ==> l@[k] == a[a.len() - 1 - k],
            forall|k: int| 0 <= k < r@.len() ==> r@[k] == b[b.len() - 1 - k],
            out@.len() == (a.len() - l@.len()) + (b.len() - r@.len()),
            is_descending(out@),
            forall|k: int, t: int|
                0 <= k < out@.len() && a.len() - l@.len() <= t < a.len()
                    ==> out@[k].frecency_score >= a[t].frecency_score,
            forall|k: int, t: int|
                0 <= k < out@.len() && b.len() - r@.len() <= t < b.len()
                    ==> out@[k].frecency_score >= b[t].frecency_score,
            forall|k: int, t: int|
                0 <= k < b.len() - r@.len() && a.len() - l@.len() <= t < a.len()
                    ==> b[k].frecency_score > a[t].frecency_score,
            forall|score: u128| #[trigger]
                with_score(out@, score) == with_score(a.take(a.len() - l@.len()), score)
                    + with_score(b.take(b.len() - r@.len()), score),
        decreases l@.len() + r@.len(),
    {
        let ghost i: int = a.len() - l@.len();
        let ghost j: int = b.len() - r@.len();
        let from_left: bool = if r.len() == 0 {
            true
        } else if l.len() == 0 {
            false
        } else {
            l[l.len() - 1].frecency_score >= r[r.len() - 1].frecency_score
        };
        if from_left {
            let m: MatchResult = l.pop().unwrap();
            proof {
                assert(m == a[i]);
                assert(a.take(i + 1) =~= a.take(i).push(m));
                assert forall|score: u128| #[trigger]
                    with_score(out@.push(m), score) == with_score(a.take(i + 1), score)
                        + with_score(b.take(j), score) by {
                    lemma_with_score_push(out@, m, score);
                    lemma_with_score_push(a.take(i), m, score);
                    if m.frecency_score == score {
                        lemma_with_score_none(b.take(j), score);
                        assert(with_score(a.take(i), score).push(m) + Seq::<
                            MatchResult,
                        >::empty() =~= (with_score(a.take(i), score) + Seq::<
                            MatchResult,
                        >::empty()).push(m));
                    }
                }
            }
            out.push(m);
        } else {
            let m: MatchResult = r.pop().unwrap();
            proof {
                assert(m == b[j]);
                assert(b.take(j + 1) =~= b.take(j).push(m));
                assert forall|score: u128| #[trigger]
                    with_score(out@.push(m), score) == with_score(a.take(i), score) + with_score(
                        b.take(j + 1),
                        score,
                    ) by {
                    lemma_with_score_push(out@, m, score);
                    lemma_with_score_push(b.take(j), m, score);
                    if m.frecency_score == score {
                        assert(with_score(a.take(i), score) + with_score(b.take(j), score).push(m)
                            =~= (with_score(a.take(i), score) + with_score(b.take(j), score)).push(
                            m,
                        ));
                    }
                }
            }
            out.push(m);
        }
    }
    proof {
        assert(a.take(a.len() as int) =~= a);
        assert(b.take(b.len() as int) =~= b);
    }
    out
}

/// Ranks the matches: highest score first, and matches of one score in the
/// order in which they came.
pub fn sort_matches(matches: Vec<MatchResult>) -> (ranked: Vec<MatchResult>)
    ensures
        is_ranking_of(ranked@, matches@),
    decreases matches@.len(),
{
    let n: usize = matches.len();
    if n <= 1 {
        return matches;
    }
    let ghost given = matches@;
    let mut left: Vec<MatchResult> = matches;
    let right: Vec<MatchResult> = left.split_off(n / 2);
    let ghost first = left@;
    let ghost second = right@;
    assert(given =~= first + second);
    let left: Vec<MatchResult> = sort_matches(left);
    let right: Vec<MatchResult> = sort_matches(right);
    let ranked: Vec<MatchResult> = merge(left, right);
    proof {
        assert forall|score: u128| #[trigger]
            with_score(ranked@, score) == with_score(given, score) by {
            lemma_with_score_concat(first, second, score);
            assert(with_score(left@, score) == with_score(first, score));
            assert(with_score(right@, score) == with_score(second, score));
        }
    }
    ranked
}

} // verus!
