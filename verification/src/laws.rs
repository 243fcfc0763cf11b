//! Properties that hold of the voting rules on every input.

use vstd::prelude::*;

use crate::seq_util::{
    is_first_position, lemma_position_of_absent, lemma_position_of_first, lemma_position_of_present,
    lemma_position_of_some, position_of,
};
use crate::scoring::{approval_count, borda_score, occurrences, ranking_points};
use crate::social_choice::{
    count_preferring, dictatorial_rule, is_condorcet_winner_in, is_permutation,
    is_stable_descending, prefers_in, ranks_before, PreferenceProfile,
};

verus! {

/// No alternative is preferred to itself.
pub proof fn lemma_prefers_irreflexive(r: Seq<Seq<char>>, a: Seq<char>)
    ensures
        !prefers_in(r, a, a),
{
}

/// If `a` is preferred to `b`, then `b` is not preferred to `a`.
pub proof fn lemma_prefers_asymmetric(r: Seq<Seq<char>>, a: Seq<char>, b: Seq<char>)
    requires
        prefers_in(r, a, b),
    ensures
        !prefers_in(r, b, a),
{
}

/// Preference within one ranking is transitive.
pub proof fn lemma_prefers_transitive(r: Seq<Seq<char>>, a: Seq<char>, b: Seq<char>, c: Seq<char>)
    requires
        prefers_in(r, a, b),
        prefers_in(r, b, c),
    ensures
        prefers_in(r, a, c),
{
}

/// Of two different alternatives that a ranking both lists, one is
/// preferred to the other.
pub proof fn lemma_prefers_total(r: Seq<Seq<char>>, a: Seq<char>, b: Seq<char>)
    requires
        a != b,
        r.contains(a),
        r.contains(b),
    ensures
        prefers_in(r, a, b) || prefers_in(r, b, a),
{
    let i = choose|i: int| 0 <= i < r.len() && r[i] == a;
    let j = choose|j: int| 0 <= j < r.len() && r[j] == b;
    lemma_position_of_present(r, a, i);
    lemma_position_of_present(r, b, j);
    lemma_position_of_some(r, a);
    lemma_position_of_some(r, b);
}

/// Of all the agents, those who prefer `a` to `b` and those who prefer `b` to
/// `a` are never more than all of them.
pub proof fn lemma_pairwise_counts_bounded(ballots: Seq<Seq<Seq<char>>>, a: Seq<char>, b: Seq<char>)
    ensures
        count_preferring(ballots, a, b) + count_preferring(ballots, b, a) <= ballots.len(),
    decreases ballots.len(),
{
    if ballots.len() > 0 {
        lemma_pairwise_counts_bounded(ballots.drop_last(), a, b);
    }
}

/// When every ranking lists both of two different alternatives, every agent
/// prefers one of them to the other: the two pairwise counts add up to the
/// number of agents.
pub proof fn lemma_pairwise_counts_complete(ballots: Seq<Seq<Seq<char>>>, a: Seq<char>, b: Seq<char>)
    requires
        a != b,
        forall|p: int|
            0 <= p < ballots.len() ==> (#[trigger] ballots[p]).contains(a) && ballots[p].contains(b),
    ensures
        count_preferring(ballots, a, b) + count_preferring(ballots, b, a) == ballots.len(),
    decreases ballots.len(),
{
    if ballots.len() > 0 {
        let d = ballots.drop_last();
        assert forall|p: int| 0 <= p < d.len() implies (#[trigger] d[p]).contains(a) && d[p].contains(
            b,
        ) by {
            assert(d[p] == ballots[p]);
        }
        lemma_pairwise_counts_complete(d, a, b);
        let last = ballots[ballots.len() - 1];
        lemma_prefers_total(last, a, b);
    }
}

/// A profile has at most one Condorcet winner among its alternatives.
pub proof fn lemma_condorcet_winner_unique(
    ballots: Seq<Seq<Seq<char>>>,
    alts: Seq<Seq<char>>,
    a: Seq<char>,
    b: Seq<char>,
)
    requires
        alts.contains(a),
        alts.contains(b),
        is_condorcet_winner_in(ballots, alts, a),
        is_condorcet_winner_in(ballots, alts, b),
    ensures
        a == b,
{
    if a != b {
        let ka = choose|k: int| 0 <= k < alts.len() && alts[k] == a;
        let kb = choose|k: int| 0 <= k < alts.len() && alts[k] == b;
        assert(alts[kb] == b);
        assert(alts[ka] == a);
        assert(count_preferring(ballots, a, b) > ballots.len() / 2);
        assert(count_preferring(ballots, b, a) > ballots.len() / 2);
        lemma_pairwise_counts_bounded(ballots, a, b);
    }
}

/// When every agent prefers `a` to `b`, the pairwise count of `a` over `b` is
/// the number of agents.
proof fn lemma_count_unanimous(ballots: Seq<Seq<Seq<char>>>, a: Seq<char>, b: Seq<char>)
    requires
        forall|p: int| 0 <= p < ballots.len() ==> prefers_in(#[trigger] ballots[p], a, b),
    ensures
        count_preferring(ballots, a, b) == ballots.len(),
    decreases ballots.len(),
{
    if ballots.len() > 0 {
        let d = ballots.drop_last();
        assert forall|p: int| 0 <= p < d.len() implies prefers_in(#[trigger] d[p], a, b) by {
            assert(d[p] == ballots[p]);
        }
        lemma_count_unanimous(d, a, b);
        assert(prefers_in(ballots[ballots.len() - 1], a, b));
    }
}

/// If there is at least one agent, and every agent ranks `a` first and lists
/// every alternative, then `a` is a Condorcet winner.
pub proof fn lemma_unanimous_top_is_condorcet_winner(
    ballots: Seq<Seq<Seq<char>>>,
    alts: Seq<Seq<char>>,
    a: Seq<char>,
)
    requires
        ballots.len() > 0,
        forall|p: int|
            0 <= p < ballots.len() ==> (#[trigger] ballots[p]).len() > 0 && ballots[p][0] == a,
        forall|p: int, k: int|
            0 <= p < ballots.len() && 0 <= k < alts.len() ==> (#[trigger] ballots[p]).contains(
                #[trigger] alts[k],
            ),
    ensures
        is_condorcet_winner_in(ballots, alts, a),
{
    assert forall|k: int| 0 <= k < alts.len() implies (#[trigger] alts[k] == a || count_preferring(
        ballots,
        a,
        alts[k],
    ) > ballots.len() / 2) by {
        let b = alts[k];
        if b != a {
            assert forall|p: int| 0 <= p < ballots.len() implies prefers_in(
                #[trigger] ballots[p],
                a,
                b,
            ) by {
                let r = ballots[p];
                assert(r.len() > 0 && r[0] == a);
                lemma_position_of_first(r, a, 0);
                assert(r.contains(b));
                let j = choose|j: int| 0 <= j < r.len() && r[j] == b;
                lemma_position_of_present(r, b, j);
                lemma_position_of_some(r, b);
                let y = position_of(r, b)->0;
                assert(r[y] == b);
            }
            lemma_count_unanimous(ballots, a, b);
        }
    }
}

/// The dictatorial rule always returns the first agent's ranking, so it
/// passes the dictatorship test on every profile that has an agent.
pub proof fn lemma_dictatorial_rule_is_dictatorial(profile: PreferenceProfile, out: Vec<String>)
    requires
        call_ensures(dictatorial_rule, (&profile,), out),
        profile.preferences@.len() > 0,
    ensures
        crate::seq_util::strs_view(out@) == profile.preferences@[0].ranking_view(),
{
}

/// A permutation of the indices below `n` lists every one of them.
pub proof fn lemma_permutation_covers(perm: Seq<int>, n: int)
    requires
        is_permutation(perm, n),
    ensures
        forall|k: int| 0 <= k < n ==> perm.contains(k),
{
    assert(perm.no_duplicates()) by {
        assert forall|i: int, j: int|
            0 <= i < perm.len() && 0 <= j < perm.len() && i != j implies perm[i] != perm[j] by {}
    }
    perm.unique_seq_to_set();
    vstd::set_lib::lemma_int_range(0, n);
    vstd::seq_lib::seq_to_set_is_finite(perm);
    assert(perm.to_set().subset_of(vstd::set_lib::set_int_range(0, n))) by {
        assert forall|x: int| perm.to_set().contains(x) implies vstd::set_lib::set_int_range(
            0,
            n,
        ).contains(x) by {
            let i = choose|i: int| 0 <= i < perm.len() && perm[i] == x;
            assert(0 <= perm[i] < n);
        }
    }
    vstd::set_lib::lemma_subset_equality(perm.to_set(), vstd::set_lib::set_int_range(0, n));
    assert forall|k: int| 0 <= k < n implies perm.contains(k) by {
        assert(vstd::set_lib::set_int_range(0, n).contains(k));
        assert(perm.to_set().contains(k));
    }
}

/// A stable descending order puts first an index whose key is the largest.
pub proof fn lemma_stable_descending_first_is_max(perm: Seq<int>, keys: Seq<int>)
    requires
        is_stable_descending(perm, keys),
        keys.len() > 0,
    ensures
        forall|k: int| 0 <= k < keys.len() ==> #[trigger] keys[k] <= keys[perm[0]],
{
    lemma_permutation_covers(perm, keys.len() as int);
    assert forall|k: int| 0 <= k < keys.len() implies #[trigger] keys[k] <= keys[perm[0]] by {
        assert(perm.contains(k));
        let j = choose|j: int| 0 <= j < perm.len() && perm[j] == k;
        if j > 0 {
            assert(ranks_before(keys, perm[0], perm[j]));
        }
    }
}

/// What the Borda rule returns lists every alternative, and starts with an
/// alternative of the highest Borda score.
pub proof fn lemma_borda_rule_ranks_winner_first(profile: PreferenceProfile, res: Seq<Seq<char>>)
    requires
        res.len() == profile.alternatives@.len(),
        exists|perm: Seq<int>|
            is_stable_descending(perm, profile.borda_scores()) && forall|i: int|
                0 <= i < res.len() ==> #[trigger] res[i] == profile.alternatives_view()[perm[i]],
    ensures
        forall|k: int|
            0 <= k < profile.alternatives@.len() ==> res.contains(
                #[trigger] profile.alternatives_view()[k],
            ),
        res.len() > 0 ==> forall|k: int|
            0 <= k < profile.alternatives@.len() ==> profile.borda_of(
                #[trigger] profile.alternatives_view()[k],
            ) <= profile.borda_of(res[0]),
{
    let perm = choose|perm: Seq<int>|
        is_stable_descending(perm, profile.borda_scores()) && forall|i: int|
            0 <= i < res.len() ==> #[trigger] res[i] == profile.alternatives_view()[perm[i]];
    let keys = profile.borda_scores();
    lemma_permutation_covers(perm, keys.len() as int);
    assert forall|k: int| 0 <= k < profile.alternatives@.len() implies res.contains(
        #[trigger] profile.alternatives_view()[k],
    ) by {
        assert(perm.contains(k));
        let j = choose|j: int| 0 <= j < perm.len() && perm[j] == k;
        assert(res[j] == profile.alternatives_view()[k]);
    }
    if res.len() > 0 {
        lemma_stable_descending_first_is_max(perm, keys);
        assert forall|k: int| 0 <= k < profile.alternatives@.len() implies profile.borda_of(
            #[trigger] profile.alternatives_view()[k],
        ) <= profile.borda_of(res[0]) by {
            assert(keys[k] == profile.borda_of(profile.alternatives_view()[k]));
            assert(res[0] == profile.alternatives_view()[perm[0]]);
            assert(keys[perm[0]] == profile.borda_of(res[0]));
        }
    }
}

/// In a ranking that lists nothing twice, an alternative at position `i`
/// gets `m - 1 - i` Borda points.
proof fn lemma_points_at(r: Seq<Seq<char>>, m: int, x: Seq<char>, i: int)
    requires
        r.no_duplicates(),
        0 <= i < r.len(),
        r[i] == x,
    ensures
        ranking_points(r, m, x) == m - 1 - i,
    decreases r.len(),
{
    let d = r.drop_last();
    if i == r.len() - 1 {
        lemma_points_absent(d, m, x);
    } else {
        assert(r.last() != x);
        assert(d[i] == x);
        assert(d.no_duplicates());
        lemma_points_at(d, m, x, i);
    }
}

/// An alternative that a ranking does not list gets no Borda points from it.
proof fn lemma_points_absent(r: Seq<Seq<char>>, m: int, x: Seq<char>)
    requires
        forall|j: int| 0 <= j < r.len() ==> r[j] != x,
    ensures
        ranking_points(r, m, x) == 0,
    decreases r.len(),
{
    if r.len() > 0 {
        let d = r.drop_last();
        assert(r[r.len() - 1] != x);
        assert forall|j: int| 0 <= j < d.len() implies d[j] != x by {
            assert(d[j] == r[j]);
        }
        lemma_points_absent(d, m, x);
    }
}

/// When every ballot gives `a` more Borda points than `b`, and there is at
/// least one ballot, `a` has the higher Borda score.
proof fn lemma_borda_strict_dominance(
    ballots: Seq<Seq<Seq<char>>>,
    m: int,
    a: Seq<char>,
    b: Seq<char>,
)
    requires
        ballots.len() > 0,
        forall|p: int|
            0 <= p < ballots.len() ==> ranking_points(#[trigger] ballots[p], m, b) < ranking_points(
                ballots[p],
                m,
                a,
            ),
    ensures
        borda_score(ballots, m, b) < borda_score(ballots, m, a),
    decreases ballots.len(),
{
    let d = ballots.drop_last();
    assert(ranking_points(ballots[ballots.len() - 1], m, b) < ranking_points(
        ballots[ballots.len() - 1],
        m,
        a,
    ));
    if d.len() > 0 {
        assert forall|p: int| 0 <= p < d.len() implies ranking_points(#[trigger] d[p], m, b)
            < ranking_points(d[p], m, a) by {
            assert(d[p] == ballots[p]);
        }
        lemma_borda_strict_dominance(d, m, a, b);
    } else {
        assert(borda_score(d, m, a) == 0 && borda_score(d, m, b) == 0);
    }
    assert(ballots.last() == ballots[ballots.len() - 1]);
}

/// If there is at least one agent, `a` is an alternative, and every agent
/// ranks `a` first and lists nothing twice, then every other alternative has
/// a strictly lower Borda score than `a`: `a` is the only Borda winner.
pub proof fn lemma_unanimous_top_is_borda_winner(profile: PreferenceProfile, a: Seq<char>)
    requires
        profile.ballots().len() > 0,
        profile.alternatives_view().contains(a),
        forall|p: int|
            0 <= p < profile.ballots().len() ==> (#[trigger] profile.ballots()[p]).no_duplicates()
                && profile.ballots()[p].len() > 0 && profile.ballots()[p][0] == a,
    ensures
        forall|k: int|
            0 <= k < profile.alternatives@.len() && #[trigger] profile.alternatives_view()[k] != a
                ==> profile.borda_of(profile.alternatives_view()[k]) < profile.borda_of(a),
{
    let m = profile.alternatives@.len() as int;
    let ballots = profile.ballots();
    assert(m >= 1);
    assert forall|k: int|
        0 <= k < profile.alternatives@.len() && #[trigger] profile.alternatives_view()[k] != a
            implies profile.borda_of(profile.alternatives_view()[k]) < profile.borda_of(a) by {
        let b = profile.alternatives_view()[k];
        assert forall|p: int| 0 <= p < ballots.len() implies ranking_points(
            #[trigger] ballots[p],
            m,
            b,
        ) < ranking_points(ballots[p], m, a) by {
            let r = ballots[p];
            lemma_points_at(r, m, a, 0);
            if r.contains(b) {
                let i = choose|i: int| 0 <= i < r.len() && r[i] == b;
                lemma_points_at(r, m, b, i);
                assert(i != 0);
            } else {
                lemma_points_absent(r, m, b);
            }
        }
        lemma_borda_strict_dominance(ballots, m, a, b);
    }
}

/// The rank of `x` in `s` is `Some(i)` exactly when `s[i]` is `x` and no
/// earlier position holds `x`; it is `None` exactly when `s` does not list `x`.
pub proof fn lemma_rank_is_first_listing(s: Seq<Seq<char>>, x: Seq<char>, i: int)
    ensures
        position_of(s, x) == Some(i) <==> (0 <= i < s.len() && s[i] == x && forall|j: int|
            0 <= j < i ==> s[j] != x),
        position_of(s, x) is None <==> !s.contains(x),
{
    if 0 <= i < s.len() && s[i] == x && forall|j: int| 0 <= j < i ==> s[j] != x {
        lemma_position_of_first(s, x, i);
    }
    if position_of(s, x) is Some {
        lemma_position_of_some(s, x);
    }
    if s.contains(x) {
        let k = choose|k: int| 0 <= k < s.len() && s[k] == x;
        lemma_position_of_present(s, x, k);
    } else {
        assert forall|j: int| 0 <= j < s.len() implies s[j] != x by {
            if s[j] == x {
                assert(s.contains(x));
            }
        }
        lemma_position_of_absent(s, x);
    }
}

/// An agent prefers `a` to `b` exactly when the ranking lists `b`, and lists
/// `a` at some position before the first listing of `b`.
pub proof fn lemma_prefers_iff_listed_earlier(r: Seq<Seq<char>>, a: Seq<char>, b: Seq<char>)
    ensures
        prefers_in(r, a, b) <==> (r.contains(b) && exists|i: int|
            0 <= i < r.len() && r[i] == a && forall|j: int| 0 <= j <= i ==> r[j] != b),
{
    if prefers_in(r, a, b) {
        lemma_position_of_some(r, a);
        lemma_position_of_some(r, b);
        let x = position_of(r, a)->0;
        let y = position_of(r, b)->0;
        assert(r[y] == b);
        assert(r[x] == a && forall|j: int| 0 <= j <= x ==> r[j] != b);
    }
    if r.contains(b) && exists|i: int|
        0 <= i < r.len() && r[i] == a && forall|j: int| 0 <= j <= i ==> r[j] != b {
        let i = choose|i: int|
            0 <= i < r.len() && r[i] == a && forall|j: int| 0 <= j <= i ==> r[j] != b;
        let k = choose|k: int| 0 <= k < r.len() && r[k] == b;
        lemma_position_of_present(r, a, i);
        lemma_position_of_present(r, b, k);
        lemma_position_of_some(r, a);
        lemma_position_of_some(r, b);
        let x = position_of(r, a)->0;
        let y = position_of(r, b)->0;
        if i < x {
            assert(r[i] != a);
        }
        if y <= i {
            assert(r[y] != b);
        }
    }
}

/// In a ranking that lists nothing twice, the alternative at an earlier
/// position is preferred to the one at any later position.
pub proof fn lemma_prefers_by_position(r: Seq<Seq<char>>, i: int, j: int)
    requires
        r.no_duplicates(),
        0 <= i < j < r.len(),
    ensures
        prefers_in(r, r[i], r[j]),
        !prefers_in(r, r[j], r[i]),
{
    lemma_prefers_iff_listed_earlier(r, r[i], r[j]);
    assert(r.contains(r[j]));
    assert forall|k: int| 0 <= k <= i implies r[k] != r[j] by {}
    lemma_prefers_asymmetric(r, r[i], r[j]);
}

/// The pairwise count of `a` over `b` is the number of ballots under which
/// `a` is preferred to `b`.
pub proof fn lemma_count_is_number_preferring(
    ballots: Seq<Seq<Seq<char>>>,
    a: Seq<char>,
    b: Seq<char>,
)
    ensures
        count_preferring(ballots, a, b) == ballots.filter(
            |r: Seq<Seq<char>>| prefers_in(r, a, b),
        ).len(),
    decreases ballots.len(),
{
    reveal(Seq::filter);
    if ballots.len() > 0 {
        lemma_count_is_number_preferring(ballots.drop_last(), a, b);
    }
}

/// An alternative is a Condorcet winner exactly when, against every other
/// alternative, a strict majority of the agents (more than half) prefer it.
pub proof fn lemma_condorcet_strict_majority(
    ballots: Seq<Seq<Seq<char>>>,
    alts: Seq<Seq<char>>,
    a: Seq<char>,
)
    ensures
        is_condorcet_winner_in(ballots, alts, a) <==> forall|k: int|
            0 <= k < alts.len() && #[trigger] alts[k] != a ==> 2 * count_preferring(
                ballots,
                a,
                alts[k],
            ) > ballots.len(),
{
    assert forall|k: int| 0 <= k < alts.len() implies (count_preferring(ballots, a, #[trigger] alts[k])
        > ballots.len() / 2 <==> 2 * count_preferring(ballots, a, alts[k]) > ballots.len()) by {}
}

/// With no ballots, every alternative has Borda score 0.
pub proof fn lemma_borda_no_ballots(m: int, a: Seq<char>)
    ensures
        borda_score(Seq::empty(), m, a) == 0,
{
}

/// Adding a ballot that lists nothing twice raises the Borda score of the
/// alternative at its position `i` by exactly `m - 1 - i`, whatever the other
/// ballots are.
pub proof fn lemma_borda_add_ballot(ballots: Seq<Seq<Seq<char>>>, m: int, r: Seq<Seq<char>>, i: int)
    requires
        r.no_duplicates(),
        0 <= i < r.len(),
    ensures
        borda_score(ballots.push(r), m, r[i]) == borda_score(ballots, m, r[i]) + m - 1 - i,
{
    assert(ballots.push(r).drop_last() =~= ballots);
    lemma_points_at(r, m, r[i], i);
}

/// Adding a ballot that does not list `a` leaves the Borda score of `a`
/// unchanged.
pub proof fn lemma_borda_add_ballot_unlisted(
    ballots: Seq<Seq<Seq<char>>>,
    m: int,
    r: Seq<Seq<char>>,
    a: Seq<char>,
)
    requires
        !r.contains(a),
    ensures
        borda_score(ballots.push(r), m, a) == borda_score(ballots, m, a),
{
    assert(ballots.push(r).drop_last() =~= ballots);
    assert forall|j: int| 0 <= j < r.len() implies r[j] != a by {
        if r[j] == a {
            assert(r.contains(a));
        }
    }
    lemma_points_absent(r, m, a);
}

/// The occurrences of `a` in `r` are the entries of `r` equal to `a`.
proof fn lemma_occurrences_count(r: Seq<Seq<char>>, a: Seq<char>)
    ensures
        occurrences(r, a) == r.filter(|x: Seq<char>| x == a).len(),
    decreases r.len(),
{
    reveal(Seq::filter);
    if r.len() > 0 {
        lemma_occurrences_count(r.drop_last(), a);
    }
}

/// With no ballots, no alternative has an approval.
pub proof fn lemma_approval_no_ballots(a: Seq<char>)
    ensures
        approval_count(Seq::empty(), a) == 0,
{
}

/// Each approval counts: adding a voter's list `r` raises the approvals of
/// `a` by the number of times `r` lists `a`, whatever the other ballots are.
pub proof fn lemma_approval_add_ballot(ballots: Seq<Seq<Seq<char>>>, r: Seq<Seq<char>>, a: Seq<char>)
    ensures
        approval_count(ballots.push(r), a) == approval_count(ballots, a) + r.filter(
            |x: Seq<char>| x == a,
        ).len(),
{
    assert(ballots.push(r).drop_last() =~= ballots);
    lemma_occurrences_count(r, a);
}

/// A ranking that lists nothing gives no Borda points, and listing `x` at the
/// next position `i` gives `x` exactly `m - 1 - i` more points and every
/// other alternative none.
pub proof fn lemma_points_per_listing(r: Seq<Seq<char>>, m: int, x: Seq<char>, a: Seq<char>)
    ensures
        ranking_points(Seq::empty(), m, a) == 0,
        ranking_points(r.push(x), m, a) == ranking_points(r, m, a) + if x == a {
            m - 1 - r.len()
        } else {
            0
        },
{
    assert(r.push(x).drop_last() =~= r);
}

/// Every ballot carries the same weight: adding a ballot adds exactly the
/// points that ballot gives, whatever the other ballots are.
pub proof fn lemma_borda_additive(ballots: Seq<Seq<Seq<char>>>, m: int, r: Seq<Seq<char>>, a: Seq<char>)
    ensures
        borda_score(ballots.push(r), m, a) == borda_score(ballots, m, a) + ranking_points(r, m, a),
{
    assert(ballots.push(r).drop_last() =~= ballots);
}

/// In a stable descending order, scores never increase along the order, and
/// alternatives with equal scores keep their relative order.
pub proof fn lemma_stable_descending_order(perm: Seq<int>, keys: Seq<int>, i: int, j: int)
    requires
        is_stable_descending(perm, keys),
        0 <= i < j < perm.len(),
    ensures
        keys[perm[i]] >= keys[perm[j]],
        keys[perm[i]] == keys[perm[j]] ==> perm[i] < perm[j],
{
    assert(ranks_before(keys, perm[i], perm[j]));
}

/// Lexicographic order on equal-length index lists is decided by the first
/// position at which they differ.
pub proof fn lemma_lex_first_difference(a: Seq<usize>, b: Seq<usize>, k: int)
    requires
        a.len() == b.len(),
        0 <= k < a.len(),
        a[k] != b[k],
        forall|j: int| 0 <= j < k ==> a[j] == b[j],
    ensures
        crate::grid::lex_less(a, b) <==> a[k] < b[k],
{
    if a[k] < b[k] {
        assert(a.take(k) =~= b.take(k));
    }
    if crate::grid::lex_less(a, b) {
        let k2 = choose|k2: int|
            0 <= k2 < a.len() && k2 < b.len() && a.take(k2) == b.take(k2) && #[trigger] a[k2] < b[k2];
        if k2 < k {
            assert(a[k2] == b[k2]);
        } else if k < k2 {
            assert(a.take(k2)[k] == b.take(k2)[k]);
        }
    }
}

/// No index list comes before itself.
pub proof fn lemma_lex_irreflexive(a: Seq<usize>)
    ensures
        !crate::grid::lex_less(a, a),
{
}

} // verus!
