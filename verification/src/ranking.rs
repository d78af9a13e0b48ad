//! Ranking matches: by descending confidence, and among equally confident
//! matches in the order in which they were found.

use vstd::prelude::*;
use crate::detecting::{LicenseMatch, MatchView};

verus! {

/// `ranked` with `m` put behind every match that is at least as confident:
/// the place that keeps a descending list descending and leaves equally
/// confident matches in the order in which they came.
pub open spec fn insert_ranked(ranked: Seq<MatchView>, m: MatchView) -> Seq<MatchView>
    decreases ranked.len(),
{
    if ranked.len() == 0 {
        seq![m]
    } else if ranked.last().confidence >= m.confidence {
        ranked.push(m)
    } else {
        insert_ranked(ranked.drop_last(), m).push(ranked.last())
    }
}

/// The matches `found`, by descending confidence; among equals, in the order
/// in which they were found.
pub open spec fn rank(found: Seq<MatchView>) -> Seq<MatchView>
    decreases found.len(),
{
    if found.len() == 0 {
        Seq::empty()
    } else {
        insert_ranked(rank(found.drop_last()), found.last())
    }
}

/// Whether no match is followed by a more confident one.
pub open spec fn is_descending(matches: Seq<MatchView>) -> bool {
    forall|i: int, j: int|
        0 <= i < j < matches.len() ==> matches[i].confidence >= matches[j].confidence
}

/// Whether no two matches carry the same name.
pub open spec fn names_distinct(matches: Seq<MatchView>) -> bool {
    forall|i: int, j: int| 0 <= i < j < matches.len() ==> matches[i].name != matches[j].name
}

/// Whether a match stands in a list.
pub open spec fn holds(matches: Seq<MatchView>, m: MatchView) -> bool {
    exists|k: int| 0 <= k < matches.len() && matches[k] == m
}

/// The confidence of the first match, and 0 where there is none.
pub open spec fn top_confidence(matches: Seq<MatchView>) -> u32 {
    if matches.len() == 0 {
        0
    } else {
        matches[0].confidence
    }
}

/// Where `m` goes: the tail of `ranked` from `at` on is less confident than
/// `m`, and what stands before `at` ends in a match at least as confident.
pub proof fn lemma_insert_ranked_at(ranked: Seq<MatchView>, m: MatchView, at: int)
    requires
        0 <= at <= ranked.len(),
        forall|k: int| at <= k < ranked.len() ==> ranked[k].confidence < m.confidence,
        at > 0 ==> ranked[at - 1].confidence >= m.confidence,
    ensures
        insert_ranked(ranked, m) == ranked.insert(at, m),
    decreases ranked.len(),
{
    if ranked.len() == 0 {
        assert(ranked.insert(at, m) == seq![m]);
    } else if at == ranked.len() {
        assert(ranked.insert(at, m) == ranked.push(m));
    } else {
        lemma_insert_ranked_at(ranked.drop_last(), m, at);
        assert(ranked.drop_last().insert(at, m).push(ranked.last()) == ranked.insert(at, m));
    }
}

/// An insertion makes the list one longer, and every match of the longer
/// list is the new one or was there.
pub proof fn lemma_insert_ranked_members(ranked: Seq<MatchView>, m: MatchView)
    ensures
        insert_ranked(ranked, m).len() == ranked.len() + 1,
        forall|k: int|
            0 <= k < insert_ranked(ranked, m).len() ==> (insert_ranked(ranked, m)[k] == m || holds(
                ranked,
                #[trigger] insert_ranked(ranked, m)[k],
            )),
    decreases ranked.len(),
{
    let out = insert_ranked(ranked, m);
    if ranked.len() == 0 {
    } else if ranked.last().confidence >= m.confidence {
        assert forall|k: int| 0 <= k < out.len() implies (out[k] == m || holds(
            ranked,
            #[trigger] out[k],
        )) by {
            if k < ranked.len() {
                assert(ranked[k] == out[k]);
            }
        }
    } else {
        let front = ranked.drop_last();
        let inner = insert_ranked(front, m);
        lemma_insert_ranked_members(front, m);
        assert forall|k: int| 0 <= k < out.len() implies (out[k] == m || holds(
            ranked,
            #[trigger] out[k],
        )) by {
            if k < inner.len() {
                assert(out[k] == inner[k]);
                if inner[k] != m {
                    let j = choose|j: int| 0 <= j < front.len() && front[j] == inner[k];
                    assert(ranked[j] == out[k]);
                }
            } else {
                assert(ranked[ranked.len() - 1] == out[k]);
            }
        }
    }
}

/// After an insertion the list holds the new match and all that it held.
pub proof fn lemma_insert_ranked_keeps(ranked: Seq<MatchView>, m: MatchView)
    ensures
        holds(insert_ranked(ranked, m), m),
        forall|j: int| 0 <= j < ranked.len() ==> holds(insert_ranked(ranked, m), #[trigger] ranked[j]),
    decreases ranked.len(),
{
    let out = insert_ranked(ranked, m);
    if ranked.len() == 0 {
        assert(out[0] == m);
    } else if ranked.last().confidence >= m.confidence {
        assert(out[ranked.len() as int] == m);
        assert forall|j: int| 0 <= j < ranked.len() implies holds(out, #[trigger] ranked[j]) by {
            assert(out[j] == ranked[j]);
        }
    } else {
        let front = ranked.drop_last();
        let inner = insert_ranked(front, m);
        lemma_insert_ranked_keeps(front, m);
        let k = choose|k: int| 0 <= k < inner.len() && inner[k] == m;
        assert(out[k] == m);
        assert forall|j: int| 0 <= j < ranked.len() implies holds(out, #[trigger] ranked[j]) by {
            if j < front.len() {
                assert(holds(inner, front[j]));
                let k = choose|k: int| 0 <= k < inner.len() && inner[k] == front[j];
                assert(out[k] == ranked[j]);
            } else {
                assert(out[inner.len() as int] == ranked[j]);
            }
        }
    }
}

/// Inserting keeps every match, adds the new one and nothing else.
pub proof fn lemma_insert_ranked_multiset(ranked: Seq<MatchView>, m: MatchView)
    ensures
        insert_ranked(ranked, m).to_multiset() == ranked.to_multiset().insert(m),
    decreases ranked.len(),
{
    broadcast use vstd::seq_lib::group_to_multiset_ensures;

    if ranked.len() == 0 {
        assert(ranked == Seq::<MatchView>::empty());
        assert(seq![m] == Seq::<MatchView>::empty().push(m));
    } else if ranked.last().confidence >= m.confidence {
    } else {
        lemma_insert_ranked_multiset(ranked.drop_last(), m);
        assert(ranked == ranked.drop_last().push(ranked.last()));
    }
}

/// Inserting into a descending list leaves it descending.
pub proof fn lemma_insert_ranked_descending(ranked: Seq<MatchView>, m: MatchView)
    requires
        is_descending(ranked),
    ensures
        is_descending(insert_ranked(ranked, m)),
    decreases ranked.len(),
{
    let out = insert_ranked(ranked, m);
    if ranked.len() == 0 {
    } else if ranked.last().confidence >= m.confidence {
        assert forall|i: int, j: int| 0 <= i < j < out.len() implies out[i].confidence
            >= out[j].confidence by {
            if j == ranked.len() {
                assert(ranked[i].confidence >= ranked.last().confidence || i == ranked.len() - 1);
            }
        }
    } else {
        let front = ranked.drop_last();
        let inner = insert_ranked(front, m);
        assert(is_descending(front)) by {
            assert forall|i: int, j: int| 0 <= i < j < front.len() implies front[i].confidence
                >= front[j].confidence by {
                assert(front[i] == ranked[i] && front[j] == ranked[j]);
            }
        }
        lemma_insert_ranked_descending(front, m);
        lemma_insert_ranked_members(front, m);
        assert forall|i: int, j: int| 0 <= i < j < out.len() implies out[i].confidence
            >= out[j].confidence by {
            if j == inner.len() {
                assert(out[i] == inner[i]);
                if inner[i] != m {
                    let k = choose|k: int| 0 <= k < front.len() && front[k] == inner[i];
                    assert(ranked[k].confidence >= ranked[ranked.len() - 1].confidence);
                }
            } else {
                assert(out[i] == inner[i] && out[j] == inner[j]);
            }
        }
    }
}

/// Inserting a match under a new name leaves the names distinct.
pub proof fn lemma_insert_ranked_distinct(ranked: Seq<MatchView>, m: MatchView)
    requires
        names_distinct(ranked),
        forall|j: int| 0 <= j < ranked.len() ==> (#[trigger] ranked[j]).name != m.name,
    ensures
        names_distinct(insert_ranked(ranked, m)),
    decreases ranked.len(),
{
    let out = insert_ranked(ranked, m);
    if ranked.len() == 0 {
    } else if ranked.last().confidence >= m.confidence {
        assert forall|i: int, j: int| 0 <= i < j < out.len() implies out[i].name
            != out[j].name by {
            assert(out[i] == ranked[i]);
            if j < ranked.len() {
                assert(out[j] == ranked[j]);
            }
        }
    } else {
        let front = ranked.drop_last();
        let inner = insert_ranked(front, m);
        assert(names_distinct(front)) by {
            assert forall|i: int, j: int| 0 <= i < j < front.len() implies front[i].name
                != front[j].name by {
                assert(front[i] == ranked[i] && front[j] == ranked[j]);
            }
        }
        assert forall|j: int| 0 <= j < front.len() implies (#[trigger] front[j]).name
            != m.name by {
            assert(front[j] == ranked[j]);
        }
        lemma_insert_ranked_distinct(front, m);
        lemma_insert_ranked_members(front, m);
        assert forall|i: int, j: int| 0 <= i < j < out.len() implies out[i].name
            != out[j].name by {
            assert(out[i] == inner[i]);
            if j < inner.len() {
                assert(out[j] == inner[j]);
            } else {
                if inner[i] != m {
                    let k = choose|k: int| 0 <= k < front.len() && front[k] == inner[i];
                    assert(ranked[k].name != ranked[ranked.len() - 1].name);
                } else {
                    assert(ranked[ranked.len() - 1].name != m.name);
                }
            }
        }
    }
}

/// A ranking holds what was found, each match as often as it was found, and
/// never ascends.
pub proof fn lemma_rank_is_sorted_permutation(found: Seq<MatchView>)
    ensures
        is_descending(rank(found)),
        rank(found).to_multiset() == found.to_multiset(),
        rank(found).len() == found.len(),
    decreases found.len(),
{
    broadcast use vstd::seq_lib::group_to_multiset_ensures;

    if found.len() == 0 {
        assert(found == Seq::<MatchView>::empty());
    } else {
        lemma_rank_is_sorted_permutation(found.drop_last());
        lemma_insert_ranked_descending(rank(found.drop_last()), found.last());
        lemma_insert_ranked_multiset(rank(found.drop_last()), found.last());
        lemma_insert_ranked_members(rank(found.drop_last()), found.last());
        assert(found == found.drop_last().push(found.last()));
    }
}

/// Every match of a ranking was found.
pub proof fn lemma_rank_members(found: Seq<MatchView>, k: int)
    requires
        0 <= k < rank(found).len(),
    ensures
        holds(found, rank(found)[k]),
    decreases found.len(),
{
    if found.len() > 0 {
        let front = found.drop_last();
        lemma_insert_ranked_members(rank(front), found.last());
        let out = rank(found);
        if out[k] == found.last() {
            assert(found[found.len() - 1] == out[k]);
        } else {
            let j = choose|j: int| 0 <= j < rank(front).len() && rank(front)[j] == out[k];
            lemma_rank_members(front, j);
            let i = choose|i: int| 0 <= i < front.len() && front[i] == rank(front)[j];
            assert(found[i] == out[k]);
        }
    }
}

/// A ranking holds everything that was found.
pub proof fn lemma_rank_keeps(found: Seq<MatchView>, j: int)
    requires
        0 <= j < found.len(),
    ensures
        holds(rank(found), found[j]),
    decreases found.len(),
{
    let front = found.drop_last();
    lemma_insert_ranked_keeps(rank(front), found.last());
    if j < front.len() {
        lemma_rank_keeps(front, j);
        let k = choose|k: int| 0 <= k < rank(front).len() && rank(front)[k] == front[j];
        assert(holds(rank(found), rank(front)[k]));
    }
}

/// Puts `m` into the ranked list `ranked`, behind every match that is at
/// least as confident.
pub fn insert_match(ranked: &mut Vec<LicenseMatch>, m: LicenseMatch)
    ensures
        final(ranked).deep_view() == insert_ranked(old(ranked).deep_view(), m@),
{
    let ghost before = ranked.deep_view();
    let ghost mv = m@;
    let mut at: usize = ranked.len();
    while at > 0 && ranked[at - 1].confidence < m.confidence
        invariant
            at <= ranked.len(),
            ranked.deep_view() == before,
            before.len() == ranked.len(),
            mv == m@,
            forall|k: int| at <= k < before.len() ==> before[k].confidence < mv.confidence,
        decreases at,
    {
        assert(before[at - 1] == ranked[at - 1]@);
        at -= 1;
    }
    proof {
        if at > 0 {
            assert(before[at - 1] == ranked[at - 1]@);
        }
        lemma_insert_ranked_at(before, mv, at as int);
    }
    ranked.insert(at, m);
    assert(ranked.deep_view() == before.insert(at as int, mv));
}

} // verus!
