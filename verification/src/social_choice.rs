//! Social choice theory: preference profiles, voting rules, impossibility results.

use vstd::prelude::*;

use crate::scoring::{
    approval_ballots, approval_count, borda_score, lemma_approval_prefix, lemma_borda_prefix,
    lemma_occurrences_prefix, lemma_ranking_points_prefix, occurrences, positions_below,
    ranking_points,
};
use crate::seq_util::{find_string, opt_index, position_of, strs_view};
use crate::tally::{distinct_strings, lemma_tally_lookup, Tally};

verus! {

/// `a` is preferred to `b` in the ranking `r`: both are ranked, and the first
/// position of `a` comes before the first position of `b`.
pub open spec fn prefers_in(r: Seq<Seq<char>>, a: Seq<char>, b: Seq<char>) -> bool {
    match (position_of(r, a), position_of(r, b)) {
        (Some(ra), Some(rb)) => ra < rb,
        _ => false,
    }
}

/// A single agent's preference ordering over alternatives.
///
/// `rankings[0]` is the most-preferred alternative, `rankings[1]` the second,
/// and so on.
pub struct Preference {
    /// Agent identifier.
    pub agent: String,
    /// Alternatives ranked from most to least preferred.
    pub rankings: Vec<String>,
}

impl Preference {
    /// The ranking as a sequence of string views.
    pub open spec fn ranking_view(self) -> Seq<Seq<char>> {
        strs_view(self.rankings@)
    }

    /// Create a new preference ordering for an agent.
    pub fn new(agent: &str, rankings: Vec<String>) -> (p: Self)
        ensures
            p.agent@ == agent@,
            p.rankings@ == rankings@,
    {
        Preference { agent: agent.to_owned(), rankings }
    }

    /// The rank of an alternative (0 = most preferred): its first position in
    /// the ranking, or `None` if it is not ranked.
    pub fn rank_of(&self, alt: &str) -> (r: Option<usize>)
        ensures
            opt_index(r) == position_of(self.ranking_view(), alt@),
    {
        let target = alt.to_owned();
        find_string(&self.rankings, &target)
    }

    /// Whether `a` is preferred to `b` under this preference.
    pub fn prefers(&self, a: &str, b: &str) -> (res: bool)
        ensures
            res == prefers_in(self.ranking_view(), a@, b@),
    {
        match (self.rank_of(a), self.rank_of(b)) {
            (Some(ra), Some(rb)) => ra < rb,
            _ => false,
        }
    }
}

/// Number of ballots in `ballots` under which `a` is preferred to `b`.
pub open spec fn count_preferring(ballots: Seq<Seq<Seq<char>>>, a: Seq<char>, b: Seq<char>) -> nat
    decreases ballots.len(),
{
    if ballots.len() == 0 {
        0
    } else {
        count_preferring(ballots.drop_last(), a, b) + if prefers_in(ballots.last(), a, b) {
            1nat
        } else {
            0nat
        }
    }
}

/// `alt` beats every other alternative of `alts` in a strict pairwise majority
/// over `ballots` (more than half of the ballots, rounded down, prefer it).
pub open spec fn is_condorcet_winner_in(
    ballots: Seq<Seq<Seq<char>>>,
    alts: Seq<Seq<char>>,
    alt: Seq<char>,
) -> bool {
    forall|k: int|
        0 <= k < alts.len() ==> (#[trigger] alts[k] == alt || count_preferring(ballots, alt, alts[k])
            > ballots.len() / 2)
}

/// A complete preference profile: every agent's ranking over all alternatives.
pub struct PreferenceProfile {
    /// Each agent's preference ordering.
    pub preferences: Vec<Preference>,
    /// The set of alternatives.
    pub alternatives: Vec<String>,
}

impl PreferenceProfile {
    /// Every agent's ranking, in agent order.
    pub open spec fn ballots(self) -> Seq<Seq<Seq<char>>> {
        self.preferences@.map_values(|p: Preference| p.ranking_view())
    }

    /// The alternatives as string views.
    pub open spec fn alternatives_view(self) -> Seq<Seq<char>> {
        strs_view(self.alternatives@)
    }

    /// Create a new preference profile.
    pub fn new(preferences: Vec<Preference>, alternatives: Vec<String>) -> (p: Self)
        ensures
            p.preferences@ == preferences@,
            p.alternatives@ == alternatives@,
    {
        PreferenceProfile { preferences, alternatives }
    }

    /// Number of agents.
    pub fn num_agents(&self) -> (n: usize)
        ensures
            n == self.preferences@.len(),
    {
        self.preferences.len()
    }

    /// Number of alternatives.
    pub fn num_alternatives(&self) -> (n: usize)
        ensures
            n == self.alternatives@.len(),
    {
        self.alternatives.len()
    }

    /// Count how many agents prefer `a` over `b` in pairwise comparison.
    pub fn pairwise_count(&self, a: &str, b: &str) -> (c: usize)
        ensures
            c == count_preferring(self.ballots(), a@, b@),
    {
        let ghost ballots = self.ballots();
        let mut count: usize = 0;
        let mut i: usize = 0;
        while i < self.preferences.len()
            invariant
                i <= self.preferences.len(),
                ballots == self.ballots(),
                count == count_preferring(ballots.take(i as int), a@, b@),
                count <= i,
            decreases self.preferences.len() - i,
        {
            let pref = self.preferences[i].prefers(a, b);
            proof {
                assert(ballots.take(i + 1).drop_last() =~= ballots.take(i as int));
                assert(ballots.take(i + 1).last() == self.preferences@[i as int].ranking_view());
            }
            if pref {
                count = count + 1;
            }
            i = i + 1;
        }
        assert(ballots.take(i as int) =~= ballots);
        count
    }

    /// Whether `alt` is a **Condorcet winner**: it beats every other
    /// alternative in pairwise majority contests.
    pub fn is_condorcet_winner(&self, alt: &str) -> (res: bool)
        ensures
            res == is_condorcet_winner_in(self.ballots(), self.alternatives_view(), alt@),
    {
        let n = self.num_agents();
        let target = alt.to_owned();
        let ghost alts = self.alternatives_view();
        let mut k: usize = 0;
        while k < self.alternatives.len()
            invariant
                k <= self.alternatives.len(),
                n == self.ballots().len(),
                target@ == alt@,
                alts == self.alternatives_view(),
                forall|j: int|
                    0 <= j < k ==> (#[trigger] alts[j] == alt@ || count_preferring(
                        self.ballots(),
                        alt@,
                        alts[j],
                    ) > self.ballots().len() / 2),
            decreases self.alternatives.len() - k,
        {
            let other = &self.alternatives[k];
            assert(alts[k as int] == other@);
            if *other != target {
                if self.pairwise_count(alt, other.as_str()) <= n / 2 {
                    return false;
                }
            }
            k = k + 1;
        }
        true
    }

    /// Find the Condorcet winner, if one exists: the first alternative, in
    /// the order of `alternatives`, that is a Condorcet winner.
    pub fn condorcet_winner(&self) -> (res: Option<String>)
        ensures
            res is None <==> forall|k: int|
                0 <= k < self.alternatives@.len() ==> !is_condorcet_winner_in(
                    self.ballots(),
                    self.alternatives_view(),
                    #[trigger] self.alternatives_view()[k],
                ),
            res matches Some(w) ==> exists|k: int|
                0 <= k < self.alternatives@.len() && w@ == #[trigger] self.alternatives_view()[k]
                    && is_condorcet_winner_in(self.ballots(), self.alternatives_view(), w@)
                    && forall|j: int|
                    0 <= j < k ==> !is_condorcet_winner_in(
                        self.ballots(),
                        self.alternatives_view(),
                        #[trigger] self.alternatives_view()[j],
                    ),
    {
        let ghost alts = self.alternatives_view();
        let mut k: usize = 0;
        while k < self.alternatives.len()
            invariant
                k <= self.alternatives.len(),
                alts == self.alternatives_view(),
                forall|j: int|
                    0 <= j < k ==> !is_condorcet_winner_in(
                        self.ballots(),
                        alts,
                        #[trigger] alts[j],
                    ),
            decreases self.alternatives.len() - k,
        {
            if self.is_condorcet_winner(self.alternatives[k].as_str()) {
                let w = self.alternatives[k].clone();
                assert(w@ == alts[k as int]);
                return Some(w);
            }
            k = k + 1;
        }
        None
    }
}

impl PreferenceProfile {
    /// Under the Borda rule no alternative is ranked at a position at or
    /// beyond the number of alternatives, and every alternative's score fits
    /// in a `usize`.
    pub open spec fn borda_defined(self) -> bool {
        &&& forall|p: int, i: int|
            0 <= p < self.ballots().len() && 0 <= i < self.ballots()[p].len()
                && self.alternatives_view().contains(#[trigger] self.ballots()[p][i]) ==> i
                < self.alternatives@.len()
        &&& forall|k: int|
            0 <= k < self.alternatives@.len() ==> borda_score(
                self.ballots(),
                self.alternatives@.len() as int,
                #[trigger] self.alternatives_view()[k],
            ) <= usize::MAX
    }

    /// The Borda score of `a` in this profile.
    pub open spec fn borda_of(self, a: Seq<char>) -> int {
        borda_score(self.ballots(), self.alternatives@.len() as int, a)
    }

    /// The Borda score of each alternative, in the order of `alternatives`.
    pub open spec fn borda_scores(self) -> Seq<int> {
        self.alternatives_view().map_values(|a: Seq<char>| self.borda_of(a))
    }

    proof fn lemma_borda_bounds(self, a: Seq<char>)
        requires
            self.borda_defined(),
            self.alternatives_view().contains(a),
        ensures
            forall|p: int|
                0 <= p < self.ballots().len() ==> positions_below(
                    #[trigger] self.ballots()[p],
                    self.alternatives@.len() as int,
                    a,
                ),
            0 <= self.borda_of(a) <= usize::MAX,
    {
        let m = self.alternatives@.len() as int;
        let ballots = self.ballots();
        assert forall|p: int| 0 <= p < ballots.len() implies positions_below(
            #[trigger] ballots[p],
            m,
            a,
        ) by {
            assert forall|i: int| 0 <= i < ballots[p].len() && #[trigger] ballots[p][i] == a implies i
                < m by {
                assert(self.alternatives_view().contains(ballots[p][i]));
            }
        }
        let k = choose|k: int|
            0 <= k < self.alternatives_view().len() && self.alternatives_view()[k] == a;
        assert(self.alternatives_view()[k] == a);
        lemma_borda_prefix(ballots, m, a, 0);
    }

    /// The Borda score of one alternative.
    fn borda_score_of(&self, alt: &String) -> (s: usize)
        requires
            self.borda_defined(),
            self.alternatives_view().contains(alt@),
        ensures
            s == self.borda_of(alt@),
    {
        let m = self.alternatives.len();
        let ghost ballots = self.ballots();
        let ghost mi = m as int;
        let ghost a = alt@;
        proof {
            self.lemma_borda_bounds(a);
        }
        let mut total: usize = 0;
        let mut p: usize = 0;
        while p < self.preferences.len()
            invariant
                p <= self.preferences.len(),
                ballots == self.ballots(),
                mi == m,
                a == alt@,
                forall|q: int| 0 <= q < ballots.len() ==> positions_below(#[trigger] ballots[q], mi, a),
                total == borda_score(ballots.take(p as int), mi, a),
                borda_score(ballots, mi, a) <= usize::MAX,
            decreases self.preferences.len() - p,
        {
            let rankings = &self.preferences[p].rankings;
            let ghost r = ballots[p as int];
            proof {
                assert(r == strs_view(rankings@));
                assert(ballots.take(p + 1).drop_last() =~= ballots.take(p as int));
                assert(ballots.take(p + 1).last() == r);
                lemma_borda_prefix(ballots, mi, a, p + 1);
                assert(positions_below(ballots[p as int], mi, a));
                lemma_ranking_points_prefix(r, mi, a, 0);
            }
            let mut pts: usize = 0;
            let mut i: usize = 0;
            while i < rankings.len()
                invariant
                    i <= rankings.len(),
                    r == strs_view(rankings@),
                    mi == m,
                    a == alt@,
                    positions_below(r, mi, a),
                    pts == ranking_points(r.take(i as int), mi, a),
                    total + ranking_points(r, mi, a) <= usize::MAX,
                decreases rankings.len() - i,
            {
                proof {
                    lemma_ranking_points_prefix(r, mi, a, i + 1);
                    assert(r.take(i + 1).drop_last() =~= r.take(i as int));
                    assert(r.take(i + 1).last() == r[i as int]);
                    assert(r[i as int] == rankings@[i as int]@);
                }
                if rankings[i] == *alt {
                    assert(r[i as int] == a);
                    pts = pts + (m - 1 - i);
                }
                i += 1;
            }
            assert(r.take(i as int) =~= r);
            total = total + pts;
            p += 1;
        }
        assert(ballots.take(p as int) =~= ballots);
        total
    }

    /// Compute the **Borda count**.
    ///
    /// Each agent awards `m - 1 - rank` points to each alternative (where `m`
    /// is the number of alternatives). The tally has one entry per distinct
    /// alternative.
    pub fn borda_count(&self) -> (res: Tally)
        requires
            self.borda_defined(),
        ensures
            res.has_distinct_keys(),
            forall|i: int|
                0 <= i < res.entries@.len() ==> self.alternatives_view().contains(
                    #[trigger] res.keys()[i],
                ) && res.entries@[i].1 == self.borda_of(res.keys()[i]),
            forall|a: Seq<char>| self.alternatives_view().contains(a) ==> res.keys().contains(a),
            forall|a: Seq<char>|
                #[trigger] res.lookup(a) == if self.alternatives_view().contains(a) {
                    Some(self.borda_of(a) as usize)
                } else {
                    None
                },
    {
        let keys = distinct_strings(self.alternatives.as_slice());
        let ghost kv = strs_view(keys@);
        let mut entries: Vec<(String, usize)> = Vec::new();
        let mut j: usize = 0;
        while j < keys.len()
            invariant
                j <= keys.len(),
                kv == strs_view(keys@),
                kv.no_duplicates(),
                forall|a: Seq<char>| kv.contains(a) <==> self.alternatives_view().contains(a),
                self.borda_defined(),
                entries@.len() == j,
                forall|q: int|
                    0 <= q < j ==> (#[trigger] entries@[q]).0@ == kv[q] && entries@[q].1
                        == self.borda_of(kv[q]),
            decreases keys.len() - j,
        {
            assert(kv[j as int] == keys@[j as int]@);
            assert(kv.contains(kv[j as int]));
            let score = self.borda_score_of(&keys[j]);
            entries.push((keys[j].clone(), score));
            j += 1;
        }
        let res = Tally { entries };
        proof {
            assert(res.keys() =~= kv);
            lemma_tally_lookup(res, self.alternatives_view(), |a: Seq<char>| self.borda_of(a));
        }
        res
    }

    /// The Borda winner: an alternative with the highest Borda score, or
    /// `None` when there are no alternatives.
    pub fn borda_winner(&self) -> (res: Option<String>)
        requires
            self.borda_defined(),
        ensures
            res is None <==> self.alternatives@.len() == 0,
            res matches Some(w) ==> self.alternatives_view().contains(w@) && forall|k: int|
                0 <= k < self.alternatives@.len() ==> self.borda_of(
                    #[trigger] self.alternatives_view()[k],
                ) <= self.borda_of(w@),
    {
        let scores = self.borda_count();
        let ghost kv = scores.keys();
        if scores.entries.len() == 0 {
            proof {
                if self.alternatives@.len() > 0 {
                    assert(self.alternatives_view().contains(self.alternatives_view()[0]));
                    assert(kv.contains(self.alternatives_view()[0]));
                }
            }
            return None;
        }
        let mut best: usize = 0;
        let mut i: usize = 1;
        assert(self.alternatives_view().contains(kv[0]));
        while i < scores.entries.len()
            invariant
                0 < i <= scores.entries.len(),
                best < i,
                kv == scores.keys(),
                forall|q: int|
                    0 <= q < scores.entries@.len() ==> self.alternatives_view().contains(
                        #[trigger] kv[q],
                    ) && scores.entries@[q].1 == self.borda_of(kv[q]),
                forall|q: int| 0 <= q < i ==> #[trigger] scores.entries@[q].1 <= scores.entries@[best as int].1,
            decreases scores.entries.len() - i,
        {
            if scores.entries[i].1 >= scores.entries[best].1 {
                best = i;
            }
            i += 1;
        }
        let w = scores.entries[best].0.clone();
        proof {
            assert(w@ == kv[best as int]);
            assert(self.alternatives_view().contains(kv[best as int]));
            assert forall|k: int| 0 <= k < self.alternatives@.len() implies self.borda_of(
                #[trigger] self.alternatives_view()[k],
            ) <= self.borda_of(w@) by {
                let a = self.alternatives_view()[k];
                assert(self.alternatives_view().contains(a));
                assert(kv.contains(a));
                let q = choose|q: int| 0 <= q < kv.len() && kv[q] == a;
                assert(scores.entries@[q].1 <= scores.entries@[best as int].1);
            }
        }
        Some(w)
    }
}

/// Number of approvals of `alt` over the approval ballots.
fn approvals_of(approvals: &[(String, Vec<String>)], alt: &String) -> (c: usize)
    requires
        approval_count(approval_ballots(approvals@), alt@) <= usize::MAX,
    ensures
        c == approval_count(approval_ballots(approvals@), alt@),
{
    let ghost ballots = approval_ballots(approvals@);
    let ghost a = alt@;
    let mut total: usize = 0;
    let mut p: usize = 0;
    while p < approvals.len()
        invariant
            p <= approvals.len(),
            ballots == approval_ballots(approvals@),
            a == alt@,
            total == approval_count(ballots.take(p as int), a),
            approval_count(ballots, a) <= usize::MAX,
        decreases approvals.len() - p,
    {
        let approved = &approvals[p].1;
        let ghost r = ballots[p as int];
        proof {
            assert(r == strs_view(approved@));
            assert(ballots.take(p + 1).drop_last() =~= ballots.take(p as int));
            assert(ballots.take(p + 1).last() == r);
            lemma_approval_prefix(ballots, a, p + 1);
        }
        let mut count: usize = 0;
        let mut i: usize = 0;
        while i < approved.len()
            invariant
                i <= approved.len(),
                r == strs_view(approved@),
                a == alt@,
                count == occurrences(r.take(i as int), a),
                total + occurrences(r, a) <= usize::MAX,
            decreases approved.len() - i,
        {
            proof {
                lemma_occurrences_prefix(r, a, i + 1);
                assert(r.take(i + 1).drop_last() =~= r.take(i as int));
                assert(r.take(i + 1).last() == r[i as int]);
                assert(r[i as int] == approved@[i as int]@);
            }
            if approved[i] == *alt {
                count = count + 1;
            }
            i += 1;
        }
        assert(r.take(i as int) =~= r);
        total = total + count;
        p += 1;
    }
    assert(ballots.take(p as int) =~= ballots);
    total
}

impl PreferenceProfile {
    /// Compute **approval voting** results.
    ///
    /// Each entry of `approvals` is a voter with the alternatives that the
    /// voter approves. The tally has one entry per distinct alternative, with
    /// the number of approvals it received; approved names that are not
    /// alternatives are ignored.
    pub fn approval_vote(approvals: &[(String, Vec<String>)], alternatives: &[String]) -> (res:
        Tally)
        requires
            forall|k: int|
                0 <= k < alternatives@.len() ==> approval_count(
                    approval_ballots(approvals@),
                    #[trigger] strs_view(alternatives@)[k],
                ) <= usize::MAX,
        ensures
            res.has_distinct_keys(),
            forall|a: Seq<char>|
                #[trigger] res.lookup(a) == if strs_view(alternatives@).contains(a) {
                    Some(approval_count(approval_ballots(approvals@), a) as usize)
                } else {
                    None
                },
    {
        let ghost alts = strs_view(alternatives@);
        let keys = distinct_strings(alternatives);
        let ghost kv = strs_view(keys@);
        let mut entries: Vec<(String, usize)> = Vec::new();
        let mut j: usize = 0;
        while j < keys.len()
            invariant
                j <= keys.len(),
                kv == strs_view(keys@),
                alts == strs_view(alternatives@),
                kv.no_duplicates(),
                forall|a: Seq<char>| kv.contains(a) <==> alts.contains(a),
                forall|k: int|
                    0 <= k < alternatives@.len() ==> approval_count(
                        approval_ballots(approvals@),
                        #[trigger] alts[k],
                    ) <= usize::MAX,
                entries@.len() == j,
                forall|q: int|
                    0 <= q < j ==> (#[trigger] entries@[q]).0@ == kv[q] && entries@[q].1
                        == approval_count(approval_ballots(approvals@), kv[q]),
            decreases keys.len() - j,
        {
            assert(kv[j as int] == keys@[j as int]@);
            assert(kv.contains(kv[j as int]));
            assert(alts.contains(kv[j as int]));
            let count = approvals_of(approvals, &keys[j]);
            entries.push((keys[j].clone(), count));
            j += 1;
        }
        let res = Tally { entries };
        proof {
            assert(res.keys() =~= kv);
            lemma_tally_lookup(
                res,
                alts,
                |a: Seq<char>| approval_count(approval_ballots(approvals@), a) as int,
            );
        }
        res
    }
}

/// Dictatorship rule: the first agent's preference determines the outcome.
/// Satisfies unanimity and IIA, but is dictatorial.
pub fn dictatorial_rule(profile: &PreferenceProfile) -> (res: Vec<String>)
    ensures
        profile.preferences@.len() > 0 ==> res@ == profile.preferences@[0].rankings@,
        profile.preferences@.len() == 0 ==> res@.len() == 0,
{
    if profile.preferences.len() > 0 {
        let r = profile.preferences[0].rankings.clone();
        assert(r@ =~= profile.preferences@[0].rankings@);
        r
    } else {
        Vec::new()
    }
}

/// Properties of a social welfare function, for Arrow's theorem checking.
pub struct ArrowProperties {
    /// Does the rule respect unanimity?
    pub unanimity: bool,
    /// Does the rule satisfy Independence of Irrelevant Alternatives?
    pub iia: bool,
    /// Is the rule non-dictatorial?
    pub non_dictatorial: bool,
}

impl ArrowProperties {
    /// Whether unanimity, IIA and non-dictatorship all hold at once.
    pub fn all_satisfied(&self) -> (res: bool)
        ensures
            res == (self.unanimity && self.iia && self.non_dictatorial),
    {
        self.unanimity && self.iia && self.non_dictatorial
    }

    /// Arrow's theorem holds for these properties when at least one of them fails.
    pub fn theorem_holds(&self) -> (res: bool)
        ensures
            res == !(self.unanimity && self.iia && self.non_dictatorial),
    {
        !self.all_satisfied()
    }
}

/// `perm` lists every index below `n` exactly once.
pub open spec fn is_permutation(perm: Seq<int>, n: int) -> bool {
    &&& perm.len() == n
    &&& forall|i: int| 0 <= i < n ==> 0 <= #[trigger] perm[i] < n
    &&& forall|i: int, j: int| 0 <= i < j < n ==> perm[i] != perm[j]
}

/// Index `x` comes before index `y` when indices are ordered by descending
/// key, ties kept in ascending index order.
pub open spec fn ranks_before(keys: Seq<int>, x: int, y: int) -> bool {
    keys[x] > keys[y] || (keys[x] == keys[y] && x < y)
}

/// `perm` orders the indices of `keys` by descending key, as a stable sort
/// does: equal keys keep their relative order.
pub open spec fn is_stable_descending(perm: Seq<int>, keys: Seq<int>) -> bool {
    &&& is_permutation(perm, keys.len() as int)
    &&& forall|i: int, j: int|
        0 <= i < j < perm.len() ==> ranks_before(keys, #[trigger] perm[i], #[trigger] perm[j])
}

/// Borda rule: rank alternatives by Borda score (descending). Alternatives
/// with equal scores keep their order in `alternatives`.
pub fn borda_rule(profile: &PreferenceProfile) -> (res: Vec<String>)
    requires
        profile.borda_defined(),
    ensures
        res@.len() == profile.alternatives@.len(),
        exists|perm: Seq<int>|
            is_stable_descending(perm, profile.borda_scores()) && forall|i: int|
                0 <= i < res@.len() ==> (#[trigger] res@[i])@ == profile.alternatives_view()[perm[i]],
{
    let n = profile.alternatives.len();
    let ghost alts = profile.alternatives_view();
    let ghost keys = profile.borda_scores();
    let mut scores: Vec<usize> = Vec::new();
    let mut k: usize = 0;
    while k < n
        invariant
            k <= n,
            n == profile.alternatives@.len(),
            alts == profile.alternatives_view(),
            keys == profile.borda_scores(),
            profile.borda_defined(),
            scores@.len() == k,
            forall|q: int| 0 <= q < k ==> #[trigger] scores@[q] == keys[q],
        decreases n - k,
    {
        assert(alts[k as int] == profile.alternatives@[k as int]@);
        assert(alts.contains(alts[k as int]));
        let sc = profile.borda_score_of(&profile.alternatives[k]);
        scores.push(sc);
        k += 1;
    }
    let mut order: Vec<usize> = Vec::new();
    let mut i: usize = 0;
    while i < n
        invariant
            i <= n,
            n == scores@.len(),
            keys.len() == n,
            forall|q: int| 0 <= q < n ==> #[trigger] scores@[q] == keys[q],
            order@.len() == i,
            forall|q: int| 0 <= q < i ==> #[trigger] order@[q] < i,
            forall|q: int, r: int| 0 <= q < r < i ==> order@[q] != order@[r],
            forall|q: int, r: int|
                0 <= q < r < i ==> ranks_before(
                    keys,
                    #[trigger] order@[q] as int,
                    #[trigger] order@[r] as int,
                ),
        decreases n - i,
    {
        let mut p: usize = 0;
        while p < order.len() && scores[order[p]] >= scores[i]
            invariant
                p <= order@.len(),
                order@.len() == i,
                i < n,
                n == scores@.len(),
                forall|q: int| 0 <= q < i ==> #[trigger] order@[q] < i,
                forall|q: int| 0 <= q < p ==> scores@[#[trigger] order@[q] as int] >= scores@[i as int],
            decreases order@.len() - p,
        {
            p += 1;
        }
        let ghost old_order = order@;
        order.insert(p, i);
        proof {
            assert(order@ == old_order.insert(p as int, i));
            assert forall|q: int| 0 <= q < i + 1 implies #[trigger] order@[q] < i + 1 by {
                if q < p {
                    assert(order@[q] == old_order[q]);
                } else if q > p {
                    assert(order@[q] == old_order[q - 1]);
                }
            }
            assert forall|q: int, r: int| 0 <= q < r < i + 1 implies order@[q] != order@[r] by {
                if q < p && r < p {
                    assert(order@[q] == old_order[q] && order@[r] == old_order[r]);
                } else if q < p && r == p {
                    assert(order@[q] == old_order[q]);
                } else if q < p && r > p {
                    assert(order@[q] == old_order[q] && order@[r] == old_order[r - 1]);
                } else if q == p {
                    assert(order@[r] == old_order[r - 1]);
                } else {
                    assert(order@[q] == old_order[q - 1] && order@[r] == old_order[r - 1]);
                }
            }
            assert forall|q: int, r: int| 0 <= q < r < i + 1 implies ranks_before(
                keys,
                #[trigger] order@[q] as int,
                #[trigger] order@[r] as int,
            ) by {
                if q < p && r < p {
                    assert(order@[q] == old_order[q] && order@[r] == old_order[r]);
                } else if q < p && r == p {
                    assert(order@[q] == old_order[q]);
                    assert(scores@[old_order[q] as int] >= scores@[i as int]);
                } else if q < p && r > p {
                    assert(order@[q] == old_order[q] && order@[r] == old_order[r - 1]);
                } else if q == p {
                    assert(order@[r] == old_order[r - 1]);
                    assert(p < old_order.len());
                    assert(scores@[old_order[p as int] as int] < scores@[i as int]);
                    if r - 1 > p {
                        assert(ranks_before(keys, old_order[p as int] as int, old_order[r - 1] as int));
                    }
                } else {
                    assert(order@[q] == old_order[q - 1] && order@[r] == old_order[r - 1]);
                }
            }
        }
        i += 1;
    }
    let mut res: Vec<String> = Vec::new();
    let mut j: usize = 0;
    while j < n
        invariant
            j <= n,
            n == profile.alternatives@.len(),
            alts == profile.alternatives_view(),
            order@.len() == n,
            forall|q: int| 0 <= q < n ==> #[trigger] order@[q] < n,
            res@.len() == j,
            forall|q: int| 0 <= q < j ==> (#[trigger] res@[q])@ == alts[order@[q] as int],
        decreases n - j,
    {
        let s = profile.alternatives[order[j]].clone();
        assert(alts[order@[j as int] as int] == profile.alternatives@[order@[j as int] as int]@);
        res.push(s);
        j += 1;
    }
    proof {
        let perm = order@.map_values(|x: usize| x as int);
        assert(is_stable_descending(perm, keys)) by {
            assert forall|q: int, r: int| 0 <= q < r < perm.len() implies ranks_before(
                keys,
                #[trigger] perm[q],
                #[trigger] perm[r],
            ) by {
                assert(perm[q] == order@[q] as int && perm[r] == order@[r] as int);
            }
        }
        assert forall|q: int| 0 <= q < res@.len() implies (#[trigger] res@[q])@ == alts[perm[q]] by {}
    }
    res
}

/// Whether a voting rule is a dictatorship across the given profiles: every
/// profile has a first agent and the rule's ranking equals that agent's
/// ranking. `false` when there are no profiles.
pub fn is_dictatorial(
    rule: impl Fn(&PreferenceProfile) -> Vec<String>,
    profiles: &[PreferenceProfile],
) -> (res: bool)
    requires
        forall|i: int| 0 <= i < profiles@.len() ==> call_requires(rule, (&#[trigger] profiles@[i],)),
    ensures
        res ==> profiles@.len() > 0,
        res ==> forall|i: int|
            0 <= i < profiles@.len() ==> (#[trigger] profiles@[i]).preferences@.len() > 0
                && exists|out: Vec<String>|
                call_ensures(rule, (&profiles@[i],), out) && strs_view(out@)
                    == profiles@[i].preferences@[0].ranking_view(),
        !res && profiles@.len() > 0 ==> exists|i: int|
            0 <= i < profiles@.len() && ((#[trigger] profiles@[i]).preferences@.len() == 0
                || exists|out: Vec<String>|
                call_ensures(rule, (&profiles@[i],), out) && strs_view(out@)
                    != profiles@[i].preferences@[0].ranking_view()),
{
    if profiles.len() == 0 {
        return false;
    }
    let mut i: usize = 0;
    while i < profiles.len()
        invariant
            i <= profiles@.len(),
            forall|j: int| 0 <= j < profiles@.len() ==> call_requires(rule, (&#[trigger] profiles@[j],)),
            forall|j: int|
                0 <= j < i ==> (#[trigger] profiles@[j]).preferences@.len() > 0 && exists|out: Vec<
                    String,
                >|
                    call_ensures(rule, (&profiles@[j],), out) && strs_view(out@)
                        == profiles@[j].preferences@[0].ranking_view(),
        decreases profiles@.len() - i,
    {
        let p = &profiles[i];
        let result = rule(p);
        if p.preferences.len() == 0 {
            return false;
        }
        if !same_strings(&p.preferences[0].rankings, &result) {
            assert(strs_view(result@) != profiles@[i as int].preferences@[0].ranking_view());
            return false;
        }
        assert(strs_view(result@) == profiles@[i as int].preferences@[0].ranking_view());
        i += 1;
    }
    true
}

/// Whether two lists of strings are equal, element by element.
fn same_strings(a: &Vec<String>, b: &Vec<String>) -> (res: bool)
    ensures
        res == (strs_view(a@) == strs_view(b@)),
{
    if a.len() != b.len() {
        proof {
            assert(strs_view(a@).len() != strs_view(b@).len());
        }
        return false;
    }
    let mut i: usize = 0;
    while i < a.len()
        invariant
            i <= a.len(),
            a.len() == b.len(),
            forall|j: int| 0 <= j < i ==> a@[j]@ == b@[j]@,
        decreases a.len() - i,
    {
        if a[i] != b[i] {
            proof {
                assert(strs_view(a@)[i as int] != strs_view(b@)[i as int]);
            }
            return false;
        }
        i += 1;
    }
    assert(strs_view(a@) =~= strs_view(b@));
    true
}

} // verus!
