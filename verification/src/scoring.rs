//! Positional and approval scores, as functions of the ballots.

use vstd::prelude::*;

use crate::seq_util::strs_view;

verus! {

/// Points that the ranking `r` gives `a` under the Borda rule with `m`
/// alternatives: `m - 1 - i` for each position `i` of `r` that holds `a`.
pub open spec fn ranking_points(r: Seq<Seq<char>>, m: int, a: Seq<char>) -> int
    decreases r.len(),
{
    if r.len() == 0 {
        0
    } else {
        ranking_points(r.drop_last(), m, a) + if r.last() == a {
            m - 1 - (r.len() - 1)
        } else {
            0
        }
    }
}

/// Borda score of `a`: the points that all ballots give it.
pub open spec fn borda_score(ballots: Seq<Seq<Seq<char>>>, m: int, a: Seq<char>) -> int
    decreases ballots.len(),
{
    if ballots.len() == 0 {
        0
    } else {
        borda_score(ballots.drop_last(), m, a) + ranking_points(ballots.last(), m, a)
    }
}

/// Every position of `a` in `r` lies below `m`.
pub open spec fn positions_below(r: Seq<Seq<char>>, m: int, a: Seq<char>) -> bool {
    forall|i: int| 0 <= i < r.len() && #[trigger] r[i] == a ==> i < m
}

/// Number of times `a` occurs in `r`.
pub open spec fn occurrences(r: Seq<Seq<char>>, a: Seq<char>) -> nat
    decreases r.len(),
{
    if r.len() == 0 {
        0
    } else {
        occurrences(r.drop_last(), a) + if r.last() == a {
            1nat
        } else {
            0nat
        }
    }
}

/// Number of approvals that `a` receives over all ballots (an alternative
/// listed twice on one ballot counts twice).
pub open spec fn approval_count(ballots: Seq<Seq<Seq<char>>>, a: Seq<char>) -> nat
    decreases ballots.len(),
{
    if ballots.len() == 0 {
        0
    } else {
        approval_count(ballots.drop_last(), a) + occurrences(ballots.last(), a)
    }
}

/// The approved lists of a set of approval ballots, as string views.
pub open spec fn approval_ballots(approvals: Seq<(String, Vec<String>)>) -> Seq<Seq<Seq<char>>> {
    approvals.map_values(|e: (String, Vec<String>)| strs_view(e.1@))
}

/// The points of a prefix of a ranking never exceed those of the whole
/// ranking, and are not negative.
pub proof fn lemma_ranking_points_prefix(r: Seq<Seq<char>>, m: int, a: Seq<char>, j: int)
    requires
        0 <= j <= r.len(),
        positions_below(r, m, a),
    ensures
        0 <= ranking_points(r.take(j), m, a) <= ranking_points(r, m, a),
    decreases r.len(),
{
    if r.len() > 0 {
        let d = r.drop_last();
        assert(positions_below(d, m, a)) by {
            assert forall|i: int| 0 <= i < d.len() && #[trigger] d[i] == a implies i < m by {
                assert(r[i] == d[i]);
            }
        }
        if r.last() == a {
            assert(r[r.len() - 1] == a);
        }
        if j == r.len() {
            lemma_ranking_points_prefix(d, m, a, d.len() as int);
            assert(d.take(d.len() as int) =~= d);
            assert(r.take(j) =~= r);
        } else {
            lemma_ranking_points_prefix(d, m, a, j);
            assert(d.take(j) =~= r.take(j));
            lemma_ranking_points_prefix(d, m, a, d.len() as int);
            assert(d.take(d.len() as int) =~= d);
        }
    } else {
        assert(r.take(j) =~= r);
    }
}

/// The Borda score over a prefix of the ballots never exceeds that over all
/// of them, and is not negative.
pub proof fn lemma_borda_prefix(ballots: Seq<Seq<Seq<char>>>, m: int, a: Seq<char>, j: int)
    requires
        0 <= j <= ballots.len(),
        forall|p: int| 0 <= p < ballots.len() ==> positions_below(#[trigger] ballots[p], m, a),
    ensures
        0 <= borda_score(ballots.take(j), m, a) <= borda_score(ballots, m, a),
    decreases ballots.len(),
{
    if ballots.len() > 0 {
        let d = ballots.drop_last();
        assert forall|p: int| 0 <= p < d.len() implies positions_below(#[trigger] d[p], m, a) by {
            assert(d[p] == ballots[p]);
        }
        let last = ballots.last();
        assert(positions_below(ballots[ballots.len() - 1], m, a));
        lemma_ranking_points_prefix(last, m, a, last.len() as int);
        assert(last.take(last.len() as int) =~= last);
        if j == ballots.len() {
            lemma_borda_prefix(d, m, a, d.len() as int);
            assert(d.take(d.len() as int) =~= d);
            assert(ballots.take(j) =~= ballots);
        } else {
            lemma_borda_prefix(d, m, a, j);
            assert(d.take(j) =~= ballots.take(j));
            lemma_borda_prefix(d, m, a, d.len() as int);
            assert(d.take(d.len() as int) =~= d);
        }
    } else {
        assert(ballots.take(j) =~= ballots);
    }
}

/// The occurrences in a prefix never exceed those in the whole sequence.
pub proof fn lemma_occurrences_prefix(r: Seq<Seq<char>>, a: Seq<char>, j: int)
    requires
        0 <= j <= r.len(),
    ensures
        occurrences(r.take(j), a) <= occurrences(r, a),
    decreases r.len(),
{
    if j == r.len() {
        assert(r.take(j) =~= r);
    } else {
        let d = r.drop_last();
        lemma_occurrences_prefix(d, a, j);
        assert(d.take(j) =~= r.take(j));
    }
}

/// The approvals over a prefix of the ballots never exceed those over all of
/// them.
pub proof fn lemma_approval_prefix(ballots: Seq<Seq<Seq<char>>>, a: Seq<char>, j: int)
    requires
        0 <= j <= ballots.len(),
    ensures
        approval_count(ballots.take(j), a) <= approval_count(ballots, a),
    decreases ballots.len(),
{
    if j == ballots.len() {
        assert(ballots.take(j) =~= ballots);
    } else {
        let d = ballots.drop_last();
        lemma_approval_prefix(d, a, j);
        assert(d.take(j) =~= ballots.take(j));
    }
}

} // verus!
