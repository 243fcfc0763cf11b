//! Positions of values in sequences, and the string views that the voting
//! rules are stated over.

use vstd::prelude::*;

verus! {

/// The views of a sequence of strings.
pub open spec fn strs_view(v: Seq<String>) -> Seq<Seq<char>> {
    v.map_values(|s: String| s@)
}

/// `i` is the first position at which `x` occurs in `s`.
pub open spec fn is_first_position<A>(s: Seq<A>, x: A, i: int) -> bool {
    &&& 0 <= i < s.len()
    &&& s[i] == x
    &&& forall|j: int| 0 <= j < i ==> s[j] != x
}

/// The first position of `x` in `s`, or `None` when `x` does not occur in `s`.
pub open spec fn position_of<A>(s: Seq<A>, x: A) -> Option<int> {
    if exists|i: int| is_first_position(s, x, i) {
        Some(choose|i: int| is_first_position(s, x, i))
    } else {
        None
    }
}

/// An optional index read as an optional integer.
pub open spec fn opt_index(r: Option<usize>) -> Option<int> {
    match r {
        Some(i) => Some(i as int),
        None => None,
    }
}

pub proof fn lemma_position_of_first<A>(s: Seq<A>, x: A, i: int)
    requires
        is_first_position(s, x, i),
    ensures
        position_of(s, x) == Some(i),
{
    let k = choose|k: int| is_first_position(s, x, k);
    assert(is_first_position(s, x, k));
    if k < i {
        assert(s[k] != x);
    } else if i < k {
        assert(s[i] != x);
    }
}

pub proof fn lemma_position_of_absent<A>(s: Seq<A>, x: A)
    requires
        forall|j: int| 0 <= j < s.len() ==> s[j] != x,
    ensures
        position_of(s, x) is None,
{
    if exists|i: int| is_first_position(s, x, i) {
        let k = choose|i: int| is_first_position(s, x, i);
        assert(s[k] != x);
    }
}

pub proof fn lemma_position_of_some<A>(s: Seq<A>, x: A)
    requires
        position_of(s, x) is Some,
    ensures
        is_first_position(s, x, position_of(s, x)->0),
{
}

/// A value that occurs has a first position.
pub proof fn lemma_position_of_present<A>(s: Seq<A>, x: A, i: int)
    requires
        0 <= i < s.len(),
        s[i] == x,
    ensures
        position_of(s, x) is Some,
    decreases i,
{
    if exists|j: int| 0 <= j < i && s[j] == x {
        let j = choose|j: int| 0 <= j < i && s[j] == x;
        lemma_position_of_present(s, x, j);
    } else {
        lemma_position_of_first(s, x, i);
    }
}

/// In a sequence without duplicates, a value's first position is its only one.
pub proof fn lemma_position_of_distinct<A>(s: Seq<A>, i: int)
    requires
        s.no_duplicates(),
        0 <= i < s.len(),
    ensures
        position_of(s, s[i]) == Some(i),
{
    assert forall|j: int| 0 <= j < i implies s[j] != s[i] by {}
    lemma_position_of_first(s, s[i], i);
}

/// The first position of `target` among the strings of `v`.
pub(crate) fn find_string(v: &Vec<String>, target: &String) -> (r: Option<usize>)
    ensures
        opt_index(r) == position_of(strs_view(v@), target@),
{
    let ghost sv = strs_view(v@);
    let mut i: usize = 0;
    while i < v.len()
        invariant
            i <= v.len(),
            sv == strs_view(v@),
            forall|j: int| 0 <= j < i ==> sv[j] != target@,
        decreases v.len() - i,
    {
        if v[i] == *target {
            proof {
                assert(sv[i as int] == target@);
                lemma_position_of_first(sv, target@, i as int);
            }
            return Some(i);
        }
        assert(sv[i as int] != target@);
        i += 1;
    }
    proof {
        lemma_position_of_absent(sv, target@);
    }
    None
}

} // verus!
