//! Enumeration of every way to pick one grid value per label, as used for
//! grid-search misreports.

use vstd::arithmetic::power::pow;
use vstd::prelude::*;

verus! {

broadcast use vstd::seq_lib::lemma_seq_contains_after_push;

/// `a` comes before `b` in lexicographic order: they agree up to some
/// position, where `a` holds the smaller value.
pub open spec fn lex_less(a: Seq<usize>, b: Seq<usize>) -> bool {
    exists|k: int|
        0 <= k < a.len() && k < b.len() && a.take(k) == b.take(k) && #[trigger] a[k] < b[k]
}

/// `s` is a list of `n` indices, each below `g`.
pub open spec fn is_grid_point(s: Seq<usize>, g: int, n: int) -> bool {
    &&& s.len() == n
    &&& forall|j: int| 0 <= j < n ==> #[trigger] s[j] < g
}

/// `res` lists the grid points of length `n` over indices below `g`: `g^n`
/// of them, each such point at least once, in strictly increasing
/// lexicographic order (so each exactly once, the first label varying
/// slowest).
pub open spec fn is_grid_enumeration(res: Seq<Seq<usize>>, g: int, n: int) -> bool {
    &&& n >= 0
    &&& res.len() == pow(g, n as nat)
    &&& forall|i: int| 0 <= i < res.len() ==> is_grid_point(#[trigger] res[i], g, n)
    &&& forall|q: Seq<usize>| #[trigger] is_grid_point(q, g, n) ==> res.contains(q)
    &&& forall|i: int, j: int| 0 <= i < j < res.len() ==> lex_less(#[trigger] res[i], #[trigger] res[j])
}

/// `s` with `v` put in front.
pub open spec fn prepend(v: usize, s: Seq<usize>) -> Seq<usize> {
    seq![v] + s
}

/// The index lists held by a list of vectors.
pub open spec fn points_of(v: Seq<Vec<usize>>) -> Seq<Seq<usize>> {
    v.map_values(|p: Vec<usize>| p@)
}

proof fn lemma_lex_first(a: Seq<usize>, b: Seq<usize>)
    requires
        a.len() > 0,
        b.len() > 0,
        a[0] < b[0],
    ensures
        lex_less(a, b),
{
    assert(a.take(0) =~= b.take(0));
    assert(a[0] < b[0]);
}

proof fn lemma_lex_prepend(v: usize, a: Seq<usize>, b: Seq<usize>)
    requires
        lex_less(a, b),
    ensures
        lex_less(seq![v] + a, seq![v] + b),
{
    let k = choose|k: int|
        0 <= k < a.len() && k < b.len() && a.take(k) == b.take(k) && #[trigger] a[k] < b[k];
    let x = seq![v] + a;
    let y = seq![v] + b;
    assert(x.take(k + 1) =~= seq![v] + a.take(k));
    assert(y.take(k + 1) =~= seq![v] + b.take(k));
    assert(x[k + 1] == a[k]);
    assert(y[k + 1] == b[k]);
}

/// Every way to pick, for each of `n_labels` labels, one index of a grid of
/// `grid_len` values. Entry `i` lists the chosen index for each label, in
/// label order; entries come in lexicographic order, so the first label
/// varies slowest and the last label fastest.
pub fn grid_assignments(grid_len: usize, n_labels: usize) -> (res: Vec<Vec<usize>>)
    ensures
        is_grid_enumeration(points_of(res@), grid_len as int, n_labels as int),
{
    let ghost g = grid_len as int;
    let mut res: Vec<Vec<usize>> = Vec::new();
    res.push(Vec::new());
    proof {
        vstd::arithmetic::power::lemma_pow0(g);
        assert(points_of(res@)[0] =~= Seq::<usize>::empty());
        assert forall|q: Seq<usize>| #[trigger] is_grid_point(q, g, 0) implies points_of(
            res@,
        ).contains(q) by {
            assert(q =~= points_of(res@)[0]);
        }
    }
    let mut level: usize = 0;
    while level < n_labels
        invariant
            level <= n_labels,
            g == grid_len,
            is_grid_enumeration(points_of(res@), g, level as int),
        decreases n_labels - level,
    {
        let ghost rv = points_of(res@);
        let ghost l = res@.len() as int;
        let mut next: Vec<Vec<usize>> = Vec::new();
        let mut v: usize = 0;
        while v < grid_len
            invariant
                v <= grid_len,
                g == grid_len,
                rv == points_of(res@),
                l == res@.len(),
                is_grid_enumeration(rv, g, level as int),
                next@.len() == v * l,
                forall|a: int|
                    0 <= a < next@.len() ==> is_grid_point(
                        #[trigger] next@[a]@,
                        g,
                        level + 1,
                    ) && next@[a]@[0] < v,
                forall|a: int, b: int|
                    0 <= a < b < next@.len() ==> lex_less(#[trigger] next@[a]@, #[trigger] next@[b]@),
                forall|v2: usize, s: int|
                    0 <= v2 < v && 0 <= s < l ==> points_of(next@).contains(
                        #[trigger] prepend(v2, rv[s]),
                    ),
            decreases grid_len - v,
        {
            let mut t: usize = 0;
            while t < res.len()
                invariant
                    t <= res@.len(),
                    v < grid_len,
                    g == grid_len,
                    rv == points_of(res@),
                    l == res@.len(),
                    is_grid_enumeration(rv, g, level as int),
                    next@.len() == v * l + t,
                    forall|a: int|
                        0 <= a < next@.len() ==> is_grid_point(#[trigger] next@[a]@, g, level + 1) && (
                        next@[a]@[0] < v || (next@[a]@[0] == v && exists|s: int|
                            0 <= s < t && next@[a]@ == seq![v] + #[trigger] rv[s])),
                    forall|a: int, b: int|
                        0 <= a < b < next@.len() ==> lex_less(
                            #[trigger] next@[a]@,
                            #[trigger] next@[b]@,
                        ),
                    forall|v2: usize, s: int|
                        (0 <= v2 < v && 0 <= s < l) || (v2 == v && 0 <= s < t) ==> points_of(
                            next@,
                        ).contains(#[trigger] prepend(v2, rv[s])),
                decreases res@.len() - t,
            {
                let mut p = res[t].clone();
                proof {
                    assert(p@ == rv[t as int]);
                }
                p.insert(0, v);
                let ghost x = p@;
                proof {
                    assert(x =~= seq![v] + rv[t as int]);
                    assert(is_grid_point(rv[t as int], g, level as int));
                    assert(is_grid_point(x, g, level + 1)) by {
                        assert forall|j: int| 0 <= j < level + 1 implies #[trigger] x[j] < g by {
                            if j > 0 {
                                assert(x[j] == rv[t as int][j - 1]);
                            }
                        }
                    }
                    assert forall|a: int| 0 <= a < next@.len() implies lex_less(
                        #[trigger] next@[a]@,
                        x,
                    ) by {
                        let y = next@[a]@;
                        if y[0] < v {
                            lemma_lex_first(y, x);
                        } else {
                            let s = choose|s: int| 0 <= s < t && y == seq![v] + #[trigger] rv[s];
                            assert(lex_less(rv[s], rv[t as int]));
                            lemma_lex_prepend(v, rv[s], rv[t as int]);
                        }
                    }
                }
                let ghost old_next = next@;
                next.push(p);
                proof {
                    assert(next@[old_next.len() as int]@ == x);
                    assert(points_of(next@) =~= points_of(old_next).push(x));
                    assert(x == prepend(v, rv[t as int]));
                    assert forall|a: int| 0 <= a < next@.len() implies is_grid_point(
                        #[trigger] next@[a]@,
                        g,
                        level + 1,
                    ) && (next@[a]@[0] < v || (next@[a]@[0] == v && exists|s: int|
                        0 <= s < t + 1 && next@[a]@ == seq![v] + #[trigger] rv[s])) by {
                        if a < old_next.len() {
                            assert(next@[a] == old_next[a]);
                        } else {
                            assert(x == seq![v] + rv[t as int]);
                        }
                    }
                    assert forall|a: int, b: int| 0 <= a < b < next@.len() implies lex_less(
                        #[trigger] next@[a]@,
                        #[trigger] next@[b]@,
                    ) by {
                        if b < old_next.len() {
                            assert(next@[a] == old_next[a] && next@[b] == old_next[b]);
                        } else {
                            assert(next@[a] == old_next[a]);
                        }
                    }
                }
                t += 1;
            }
            proof {
                assert(next@.len() == (v + 1) * l) by (nonlinear_arith)
                    requires
                        next@.len() == v * l + l,
                ;
            }
            v += 1;
        }
        proof {
            let nv = next@.map_values(|p: Vec<usize>| p@);
            assert(pow(g, (level + 1) as nat) == g * pow(g, level as nat)) by {
                reveal(pow);
            }
            assert(next@.len() == g * l) by (nonlinear_arith)
                requires
                    next@.len() == v * l,
                    v == g,
            ;
            assert forall|i: int| 0 <= i < nv.len() implies is_grid_point(
                #[trigger] nv[i],
                g,
                level + 1,
            ) by {
                assert(nv[i] == next@[i]@);
            }
            assert forall|i: int, j: int| 0 <= i < j < nv.len() implies lex_less(
                #[trigger] nv[i],
                #[trigger] nv[j],
            ) by {
                assert(nv[i] == next@[i]@ && nv[j] == next@[j]@);
            }
            assert forall|q: Seq<usize>| #[trigger] is_grid_point(q, g, level + 1) implies nv.contains(
                q,
            ) by {
                let rest = q.drop_first();
                assert(is_grid_point(rest, g, level as int)) by {
                    assert forall|j: int| 0 <= j < level implies #[trigger] rest[j] < g by {
                        assert(rest[j] == q[j + 1]);
                    }
                }
                assert(rv.contains(rest));
                let s = choose|s: int| 0 <= s < rv.len() && rv[s] == rest;
                assert(q[0] < g);
                assert(prepend(q[0], rv[s]) =~= q);
            }
        }
        res = next;
        level += 1;
    }
    res
}

} // verus!
