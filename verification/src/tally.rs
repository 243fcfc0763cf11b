//! A tally: a score for each alternative, one entry per distinct alternative.

use vstd::prelude::*;

use crate::seq_util::{
    find_string, lemma_position_of_absent, lemma_position_of_distinct, opt_index, position_of,
    strs_view,
};

verus! {

broadcast use vstd::seq_lib::lemma_seq_contains_after_push;

/// Scores keyed by alternative. Each alternative has at most one entry.
pub struct Tally {
    /// `(alternative, score)` pairs.
    pub entries: Vec<(String, usize)>,
}

impl Tally {
    /// The alternatives that have an entry, in entry order.
    pub open spec fn keys(self) -> Seq<Seq<char>> {
        self.entries@.map_values(|e: (String, usize)| e.0@)
    }

    /// No alternative has two entries.
    pub open spec fn has_distinct_keys(self) -> bool {
        self.keys().no_duplicates()
    }

    /// The score recorded for `alt`: that of its first entry, if it has one.
    pub open spec fn lookup(self, alt: Seq<char>) -> Option<usize> {
        match position_of(self.keys(), alt) {
            Some(i) => Some(self.entries@[i].1),
            None => None,
        }
    }

    /// The score recorded for `alt`, if it has an entry.
    pub fn get(&self, alt: &str) -> (r: Option<usize>)
        ensures
            r == self.lookup(alt@),
    {
        let target = alt.to_owned();
        let ghost keys = self.keys();
        let mut i: usize = 0;
        while i < self.entries.len()
            invariant
                i <= self.entries.len(),
                keys == self.keys(),
                target@ == alt@,
                forall|j: int| 0 <= j < i ==> keys[j] != alt@,
            decreases self.entries.len() - i,
        {
            if self.entries[i].0 == target {
                proof {
                    assert(keys[i as int] == alt@);
                    crate::seq_util::lemma_position_of_first(keys, alt@, i as int);
                }
                return Some(self.entries[i].1);
            }
            assert(keys[i as int] != alt@);
            i += 1;
        }
        proof {
            lemma_position_of_absent(keys, alt@);
        }
        None
    }

    /// Number of entries.
    pub fn len(&self) -> (n: usize)
        ensures
            n == self.entries@.len(),
    {
        self.entries.len()
    }

    /// Whether the tally has no entries.
    pub fn is_empty(&self) -> (b: bool)
        ensures
            b == (self.entries@.len() == 0),
    {
        self.entries.len() == 0
    }
}

/// With distinct keys, the entry at `i` is what `lookup` finds for its key.
pub proof fn lemma_lookup_entry(t: Tally, i: int)
    requires
        t.has_distinct_keys(),
        0 <= i < t.entries@.len(),
    ensures
        t.lookup(t.keys()[i]) == Some(t.entries@[i].1),
{
    lemma_position_of_distinct(t.keys(), i);
}

/// An alternative without an entry has nothing recorded.
pub proof fn lemma_lookup_absent(t: Tally, alt: Seq<char>)
    requires
        !t.keys().contains(alt),
    ensures
        t.lookup(alt) is None,
{
    assert forall|j: int| 0 <= j < t.keys().len() implies t.keys()[j] != alt by {
        if t.keys()[j] == alt {
            assert(t.keys().contains(alt));
        }
    }
    lemma_position_of_absent(t.keys(), alt);
}

/// A tally with distinct keys, whose keys are exactly the values of `alts`
/// and whose entries hold `score` of their key, records exactly `score` for
/// each value of `alts` and nothing for anything else.
pub proof fn lemma_tally_lookup(t: Tally, alts: Seq<Seq<char>>, score: spec_fn(Seq<char>) -> int)
    requires
        t.has_distinct_keys(),
        forall|a: Seq<char>| t.keys().contains(a) <==> alts.contains(a),
        forall|q: int|
            0 <= q < t.entries@.len() ==> (#[trigger] t.entries@[q]).1 == score(t.keys()[q]),
    ensures
        forall|a: Seq<char>|
            #[trigger] t.lookup(a) == if alts.contains(a) {
                Some(score(a) as usize)
            } else {
                None
            },
{
    assert forall|a: Seq<char>|
        #[trigger] t.lookup(a) == if alts.contains(a) {
            Some(score(a) as usize)
        } else {
            None
        } by {
        if alts.contains(a) {
            assert(t.keys().contains(a));
            let q = choose|q: int| 0 <= q < t.keys().len() && t.keys()[q] == a;
            lemma_lookup_entry(t, q);
            assert(t.entries@[q].1 == score(t.keys()[q]));
        } else {
            lemma_lookup_absent(t, a);
        }
    }
}

/// The distinct strings of `v`, each once, in order of first occurrence.
pub(crate) fn distinct_strings(v: &[String]) -> (res: Vec<String>)
    ensures
        strs_view(res@).no_duplicates(),
        forall|a: Seq<char>| strs_view(res@).contains(a) <==> strs_view(v@).contains(a),
{
    let ghost sv = strs_view(v@);
    let mut res: Vec<String> = Vec::new();
    let mut i: usize = 0;
    while i < v.len()
        invariant
            i <= v.len(),
            sv == strs_view(v@),
            strs_view(res@).no_duplicates(),
            forall|a: Seq<char>| strs_view(res@).contains(a) <==> sv.take(i as int).contains(a),
        decreases v.len() - i,
    {
        let ghost before = strs_view(res@);
        let found = find_string(&res, &v[i]);
        let ghost vi = v@[i as int]@;
        assert(sv[i as int] == vi);
        assert(sv.take(i + 1) =~= sv.take(i as int).push(vi));
        if found.is_none() {
            proof {
                if before.contains(vi) {
                    let k = choose|k: int| 0 <= k < before.len() && before[k] == vi;
                    crate::seq_util::lemma_position_of_present(before, vi, k);
                }
            }
            let s = v[i].clone();
            res.push(s);
            proof {
                assert(strs_view(res@) =~= before.push(vi));
            }
        } else {
            proof {
                let p = opt_index(found)->0;
                crate::seq_util::lemma_position_of_some(before, vi);
                assert(before[p] == vi);
                assert(before.contains(vi));
            }
        }
        i += 1;
    }
    assert(sv.take(i as int) =~= sv);
    res
}

} // verus!
