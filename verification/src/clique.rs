//! Clique complexes of a proximity graph: the combinatorial part of the
//! Vietoris-Rips and Čech constructions. Which pairs of points are close
//! enough is decided from their distances beforehand and handed in as a
//! boolean matrix; only its upper triangle (`within[a][b]` for `a < b`) is read.

use vstd::prelude::*;
use crate::order::{strictly_increasing, vset, is_face_of, lemma_sorted_same_set_equal, lemma_remove_sorted};
use crate::complex::{
    Simplex, SimplicialComplex, face_closure, spec_dim, has_dim, top_vertex, views, closure_of_prefix,
};
use crate::combinations::{index_combinations, is_combination, lemma_increasing_bounded};
use crate::alpha::{vertex_set, faces_of};
use crate::order::lex_lt;

verus! {

/// Rows of the proximity matrix as sequences.
pub open spec fn rows(within: Seq<Vec<bool>>) -> Seq<Seq<bool>> {
    Seq::new(within.len(), |i: int| within[i]@)
}

/// Every two vertices of `t` (taken in increasing order) are close.
pub open spec fn is_clique(w: Seq<Seq<bool>>, t: Seq<usize>) -> bool {
    forall|a: int, b: int| 0 <= a < b < t.len() ==> #[trigger] w[t[a] as int][t[b] as int]
}

/// Vertices `a` and `b` are close, read from the upper triangle.
pub open spec fn close(w: Seq<Seq<bool>>, a: usize, b: usize) -> bool {
    if a < b {
        w[a as int][b as int]
    } else {
        w[b as int][a as int]
    }
}

/// The cliques on the vertices `0..n` with between 1 and `max_size` vertices.
pub open spec fn clique_complex(n: nat, w: Seq<Seq<bool>>, max_size: nat) -> Set<Seq<usize>> {
    Set::new(|t: Seq<usize>| 1 <= t.len() <= max_size && is_combination(t, n, t.len()) && is_clique(w, t))
}

/// A list of vertices is a simplex of the clique complex exactly when it has
/// between 1 and `max_size` vertices, is strictly increasing, has every
/// vertex below `n`, and every two of its vertices are close.
pub proof fn lemma_clique_complex_law(n: nat, w: Seq<Seq<bool>>, max_size: nat, t: Seq<usize>)
    ensures
        clique_complex(n, w, max_size).contains(t) <==> {
            &&& 1 <= t.len() <= max_size
            &&& forall|a: int, b: int| 0 <= a < b < t.len() ==> t[a] < t[b]
            &&& forall|a: int| 0 <= a < t.len() ==> #[trigger] t[a] < n
            &&& forall|a: int, b: int| 0 <= a < b < t.len() ==> close(w, #[trigger] t[a], #[trigger] t[b])
        },
{
    if forall|a: int, b: int| 0 <= a < b < t.len() ==> t[a] < t[b] {
        assert forall|a: int, b: int| 0 <= a < b < t.len() implies close(w, #[trigger] t[a], #[trigger] t[b])
            == w[t[a] as int][t[b] as int] by {
            assert(t[a] < t[b]);
        }
    }
}

/// The matrix is `n` by `n`.
pub open spec fn square(within: Seq<Vec<bool>>, n: nat) -> bool {
    within.len() == n && forall|i: int| 0 <= i < n ==> (#[trigger] within[i])@.len() == n
}

/// Faces of a clique are cliques.
pub(crate) proof fn lemma_clique_faces(n: nat, w: Seq<Seq<bool>>, m: nat, c: Seq<usize>)
    requires
        clique_complex(n, w, m).contains(c),
    ensures
        face_closure(c).subset_of(clique_complex(n, w, m)),
{
    assert forall|t: Seq<usize>| face_closure(c).contains(t) implies clique_complex(n, w, m).contains(t) by {
        if t != c {
            assert forall|i: int| 0 <= i < t.len() implies exists|j: int| 0 <= j < c.len() && c[j] == #[trigger] t[i] by {
                assert(vset(t).contains(t[i]));
            }
            assert forall|i: int| 0 <= i < t.len() implies #[trigger] t[i] < n by {
                let j = choose|j: int| 0 <= j < c.len() && c[j] == t[i];
            }
            assert forall|a: int, b: int| 0 <= a < b < t.len() implies #[trigger] w[t[a] as int][t[b] as int] by {
                let ja = choose|ja: int| 0 <= ja < c.len() && c[ja] == t[a];
                let jb = choose|jb: int| 0 <= jb < c.len() && c[jb] == t[b];
                assert(t[a] < t[b]);
                if jb <= ja {
                    if jb < ja {
                        assert(c[jb] < c[ja]);
                    }
                }
                assert(ja < jb);
            }
            // a face has no more vertices than the simplex
            lemma_increasing_bounded(t, n);
            lemma_face_len(t, c);
        }
    }
}

/// A sorted sequence whose entries all lie in a sorted `c` is no longer than `c`.
pub(crate) proof fn lemma_face_len(t: Seq<usize>, c: Seq<usize>)
    requires
        strictly_increasing(t),
        strictly_increasing(c),
        vset(t).subset_of(vset(c)),
    ensures
        t.len() <= c.len(),
    decreases c.len(),
{
    if t.len() > 0 {
        assert(vset(t).contains(t.last()));
        let j = choose|j: int| 0 <= j < c.len() && c[j] == t.last();
        let t1 = t.drop_last();
        let c1 = c.remove(j);
        lemma_remove_sorted(c, j);
        assert(strictly_increasing(t1));
        assert forall|x: usize| vset(t1).contains(x) implies vset(c1).contains(x) by {
            let p = choose|p: int| 0 <= p < t1.len() && t1[p] == x;
            assert(t[p] == x);
            assert(t[p] < t.last());
            assert(vset(t).contains(x));
        }
        lemma_face_len(t1, c1);
    }
}

/// The complex holds exactly the vertices `0..n`.
pub(crate) fn add_vertices(n: usize) -> (c: SimplicialComplex)
    ensures
        forall|t: Seq<usize>| #[trigger] c.simplex_set().contains(t) <==> (t.len() == 1 && t[0] < n),
        c.spec_n_vertices() == n,
{
    let mut complex = SimplicialComplex::new();
    let mut i: usize = 0;
    while i < n
        invariant
            0 <= i <= n,
            complex.spec_n_vertices() == i,
            forall|t: Seq<usize>| #[trigger] complex.simplex_set().contains(t) <==> (t.len() == 1 && t[0] < i),
        decreases n - i,
    {
        let v = Simplex::vertex(i);
        complex.add_simplex(&v);
        proof {
            assert(face_closure(v@) =~= set![v@]) by {
                assert forall|t: Seq<usize>| face_closure(v@).contains(t) implies t == v@ by {
                    crate::order::lemma_face_of_short(t, v@);
                }
            }
            assert forall|t: Seq<usize>| #[trigger] complex.simplex_set().contains(t) <==> (t.len() == 1 && t[0] < i + 1) by {
                if t.len() == 1 && t[0] == i {
                    assert(t =~= v@);
                }
            }
        }
        i = i + 1;
    }
    complex
}

/// Whether `v` is close to every vertex of `s`.
fn close_to_all(within: &Vec<Vec<bool>>, n: usize, s: &Simplex, v: usize) -> (b: bool)
    requires
        square(within@, n as nat),
        v < n,
        forall|k: int| 0 <= k < s@.len() ==> #[trigger] s@[k] < n,
    ensures
        b == forall|k: int| 0 <= k < s@.len() ==> #[trigger] close(rows(within@), s@[k], v),
{
    let mut k: usize = 0;
    while k < s.len()
        invariant
            0 <= k <= s@.len(),
            square(within@, n as nat),
            v < n,
            forall|q: int| 0 <= q < s@.len() ==> #[trigger] s@[q] < n,
            forall|q: int| 0 <= q < k ==> #[trigger] close(rows(within@), s@[q], v),
        decreases s@.len() - k,
    {
        let u = s.get(k);
        let lo = if u < v { u } else { v };
        let hi = if u < v { v } else { u };
        assert(rows(within@)[lo as int] == within@[lo as int]@);
        if !within[lo][hi] {
            assert(!close(rows(within@), s@[k as int], v));
            return false;
        }
        assert(close(rows(within@), s@[k as int], v));
        k = k + 1;
    }
    true
}

/// Add the edges between close pairs to the complex of vertices `0..n`.
pub(crate) fn add_edges(complex: &mut SimplicialComplex, within: &Vec<Vec<bool>>, n: usize)
    requires
        square(within@, n as nat),
        old(complex).simplex_set() == clique_complex(n as nat, rows(within@), 1),
        old(complex).spec_n_vertices() == n,
    ensures
        final(complex).simplex_set() == clique_complex(n as nat, rows(within@), 2),
        final(complex).spec_n_vertices() == n,
{
    let ghost w = rows(within@);
    let ghost base = clique_complex(n as nat, w, 1);
    let mut i: usize = 0;
    while i < n
        invariant
            square(within@, n as nat),
            w == rows(within@),
            base == clique_complex(n as nat, w, 1),
            0 <= i <= n,
            complex.spec_n_vertices() == n,
            forall|t: Seq<usize>| #[trigger] complex.simplex_set().contains(t) <==> base.contains(t)
                || (clique_complex(n as nat, w, 2).contains(t) && t.len() == 2 && t[0] < i),
        decreases n - i,
    {
        let mut j: usize = i + 1;
        while j < n
            invariant
                square(within@, n as nat),
                w == rows(within@),
                base == clique_complex(n as nat, w, 1),
                0 <= i < n,
                i + 1 <= j <= n,
                complex.spec_n_vertices() == n,
                forall|t: Seq<usize>| #[trigger] complex.simplex_set().contains(t) <==> base.contains(t)
                    || (clique_complex(n as nat, w, 2).contains(t) && t.len() == 2 && (t[0] < i || (t[0] == i && t[1] < j))),
            decreases n - j,
        {
            assert(w[i as int] == within@[i as int]@);
            if within[i][j] {
                let e = Simplex::edge(i, j);
                let ghost before = complex.simplex_set();
                complex.add_simplex(&e);
                proof {
                    assert(clique_complex(n as nat, w, 2).contains(e@)) by {
                        assert(is_clique(w, e@));
                    }
                    lemma_clique_faces(n as nat, w, 2, e@);
                    assert forall|t: Seq<usize>| #[trigger] complex.simplex_set().contains(t) <==> base.contains(t)
                        || (clique_complex(n as nat, w, 2).contains(t) && t.len() == 2 && (t[0] < i || (t[0] == i && t[1] < j + 1))) by {
                        if face_closure(e@).contains(t) && t != e@ {
                            assert(clique_complex(n as nat, w, 2).contains(t));
                            lemma_face_len(t, e@);
                            if t.len() == 2 {
                                assert(vset(t) =~= vset(e@)) by {
                                    assert(vset(t).contains(t[0]));
                                    assert(vset(t).contains(t[1]));
                                    assert forall|x: usize| vset(e@).contains(x) implies vset(t).contains(x) by {
                                        assert(vset(e@).contains(t[0]));
                                        assert(vset(e@).contains(t[1]));
                                        assert(t[0] != t[1]);
                                    }
                                }
                                lemma_sorted_same_set_equal(t, e@);
                            }
                        }
                        if t.len() == 2 && t[0] == i && t[1] == j {
                            assert(t =~= e@);
                        }
                    }
                }
            } else {
                proof {
                    assert forall|t: Seq<usize>| #[trigger] complex.simplex_set().contains(t) <==> base.contains(t)
                        || (clique_complex(n as nat, w, 2).contains(t) && t.len() == 2 && (t[0] < i || (t[0] == i && t[1] < j + 1))) by {
                        if clique_complex(n as nat, w, 2).contains(t) && t.len() == 2 && t[0] == i && t[1] == j {
                            assert(is_clique(w, t));
                            assert(w[t[0] as int][t[1] as int]);
                        }
                    }
                }
            }
            j = j + 1;
        }
        proof {
            assert forall|t: Seq<usize>| #[trigger] complex.simplex_set().contains(t) <==> base.contains(t)
                || (clique_complex(n as nat, w, 2).contains(t) && t.len() == 2 && t[0] < i + 1) by {
                if clique_complex(n as nat, w, 2).contains(t) && t.len() == 2 && t[0] == i {
                    assert(t[1] < n);
                }
            }
        }
        i = i + 1;
    }
    proof {
        assert forall|t: Seq<usize>| #[trigger] complex.simplex_set().contains(t) <==> clique_complex(n as nat, w, 2).contains(t) by {
            if clique_complex(n as nat, w, 2).contains(t) {
                if t.len() == 2 {
                    assert(t[0] < n);
                } else {
                    assert(base.contains(t));
                }
            }
            if base.contains(t) {
                assert(clique_complex(n as nat, w, 2).contains(t));
            }
        }
        assert(complex.simplex_set() =~= clique_complex(n as nat, w, 2));
    }
}

/// Adding a vertex close to all vertices of a clique gives a clique.
proof fn lemma_candidate_clique(n: nat, w: Seq<Seq<bool>>, dim: nat, s: Seq<usize>, v: usize, c: Seq<usize>)
    requires
        clique_complex(n, w, dim).contains(s),
        s.len() == dim,
        v < n,
        !vset(s).contains(v),
        forall|k: int| 0 <= k < s.len() ==> #[trigger] close(w, s[k], v),
        strictly_increasing(c),
        vset(c) == vset(s).insert(v),
        c.len() == s.len() + 1,
    ensures
        clique_complex(n, w, dim + 1).contains(c),
{
    assert forall|i: int| 0 <= i < c.len() implies #[trigger] c[i] < n by {
        assert(vset(c).contains(c[i]));
        if c[i] != v {
            let j = choose|j: int| 0 <= j < s.len() && s[j] == c[i];
        }
    }
    assert forall|a: int, b: int| 0 <= a < b < c.len() implies #[trigger] w[c[a] as int][c[b] as int] by {
        assert(vset(c).contains(c[a]));
        assert(vset(c).contains(c[b]));
        assert(c[a] < c[b]);
        if c[a] == v {
            let jb = choose|jb: int| 0 <= jb < s.len() && s[jb] == c[b];
            assert(close(w, s[jb], v));
        } else if c[b] == v {
            let ja = choose|ja: int| 0 <= ja < s.len() && s[ja] == c[a];
            assert(close(w, s[ja], v));
        } else {
            let ja = choose|ja: int| 0 <= ja < s.len() && s[ja] == c[a];
            let jb = choose|jb: int| 0 <= jb < s.len() && s[jb] == c[b];
            if jb <= ja {
                if jb < ja {
                    assert(s[jb] < s[ja]);
                }
            }
            assert(is_clique(w, s));
            assert(w[s[ja] as int][s[jb] as int]);
        }
    }
}

/// Some candidate has the vertices of `s` together with `v`.
pub open spec fn has_candidate(cands: Seq<Seq<usize>>, s: Seq<usize>, v: usize) -> bool {
    exists|q: int| 0 <= q < cands.len() && vset(#[trigger] cands[q]) == vset(s).insert(v)
}

/// `v` may extend `s`: it is not a vertex of `s` and is close to all of them.
pub open spec fn extends(w: Seq<Seq<bool>>, s: Seq<usize>, v: usize) -> bool {
    !vset(s).contains(v) && forall|k: int| 0 <= k < s.len() ==> #[trigger] close(w, s[k], v)
}

/// One more level of the clique complex: from the cliques with at most `dim`
/// vertices, extend each clique of `dim` vertices by each vertex close to all
/// of them.
fn extend_cliques(complex: &mut SimplicialComplex, within: &Vec<Vec<bool>>, n: usize, dim: usize)
    requires
        square(within@, n as nat),
        dim >= 2,
        old(complex).simplex_set() == clique_complex(n as nat, rows(within@), dim as nat),
        old(complex).spec_n_vertices() == n,
    ensures
        final(complex).simplex_set() == clique_complex(n as nat, rows(within@), dim as nat + 1),
        final(complex).spec_n_vertices() == n,
{
    let ghost w = rows(within@);
    let ghost lowset = clique_complex(n as nat, w, dim as nat);
    let ghost all = complex@;
    let mut cands: Vec<Simplex> = Vec::new();
    let lower = complex.simplices_of_dim(dim - 1);
    let ghost lv = Seq::new(lower@.len(), |i: int| lower@[i]@);
    proof {
        broadcast use vstd::seq_lib::group_filter_ensures;
        assert forall|i: int| 0 <= i < lv.len() implies lowset.contains(#[trigger] lv[i]) && lv[i].len() == dim by {
            assert(lv.contains(lv[i]));
            all.lemma_filter_contains_rev(has_dim((dim - 1) as nat), lv[i]);
            all.lemma_filter_pred(has_dim((dim - 1) as nat), i);
            assert(all.to_set().contains(lv[i]));
        }
    }
    let mut p: usize = 0;
    while p < lower.len()
        invariant
            square(within@, n as nat),
            w == rows(within@),
            dim >= 2,
            0 <= p <= lower@.len(),
            lv == Seq::new(lower@.len(), |i: int| lower@[i]@),
            forall|i: int| 0 <= i < lv.len() ==> lowset.contains(#[trigger] lv[i]) && lv[i].len() == dim,
            lowset == clique_complex(n as nat, w, dim as nat),
            forall|q: int| 0 <= q < cands@.len() ==> clique_complex(n as nat, w, dim as nat + 1).contains(#[trigger] cands@[q]@)
                && cands@[q]@.len() == dim + 1,
            forall|pp: int, vv: usize| 0 <= pp < p && vv < n && extends(w, lv[pp], vv)
                ==> #[trigger] has_candidate(views(cands@), lv[pp], vv),
        decreases lower@.len() - p,
    {
        let s = lower[p];
        assert(lv[p as int] == s@);
        let mut v: usize = 0;
        while v < n
            invariant
                square(within@, n as nat),
                w == rows(within@),
                dim >= 2,
                0 <= p < lower@.len(),
                0 <= v <= n,
                lv == Seq::new(lower@.len(), |i: int| lower@[i]@),
                lv[p as int] == s@,
                forall|i: int| 0 <= i < lv.len() ==> lowset.contains(#[trigger] lv[i]) && lv[i].len() == dim,
                lowset == clique_complex(n as nat, w, dim as nat),
                forall|q: int| 0 <= q < cands@.len() ==> clique_complex(n as nat, w, dim as nat + 1).contains(#[trigger] cands@[q]@)
                    && cands@[q]@.len() == dim + 1,
                forall|pp: int, vv: usize| 0 <= pp < p && vv < n && extends(w, lv[pp], vv)
                    ==> #[trigger] has_candidate(views(cands@), lv[pp], vv),
                forall|vv: usize| vv < v && extends(w, s@, vv) ==> #[trigger] has_candidate(views(cands@), s@, vv),
            decreases n - v,
        {
            let ghost before = views(cands@);
            assert(lowset.contains(s@));
            if !s.has_vertex(v) && close_to_all(within, n, s, v) {
                let c = s.with_vertex(v);
                proof {
                    use_type_invariant(&c);
                    lemma_candidate_clique(n as nat, w, dim as nat, s@, v, c@);
                }
                cands.push(c);
                proof {
                    let after = views(cands@);
                    assert forall|pp: int, vv: usize| 0 <= pp < p && vv < n && extends(w, lv[pp], vv)
                        implies #[trigger] has_candidate(after, lv[pp], vv) by {
                        assert(has_candidate(before, lv[pp], vv));
                        let q = choose|q: int| 0 <= q < before.len() && vset(#[trigger] before[q]) == vset(lv[pp]).insert(vv);
                        assert(after[q] == before[q]);
                    }
                    assert forall|vv: usize| vv < v + 1 && extends(w, s@, vv) implies #[trigger] has_candidate(after, s@, vv) by {
                        if vv < v {
                            assert(has_candidate(before, s@, vv));
                            let q = choose|q: int| 0 <= q < before.len() && vset(#[trigger] before[q]) == vset(s@).insert(vv);
                            assert(after[q] == before[q]);
                        } else {
                            assert(after[after.len() - 1] == c@);
                        }
                    }
                }
            }
            v = v + 1;
        }
        p = p + 1;
    }
    let ghost cv = views(cands@);
    let ghost start = complex.simplex_set();
    assert(start.union(closure_of_prefix(cv, 0)) =~= start);
    let mut q: usize = 0;
    while q < cands.len()
        invariant
            0 <= q <= cands@.len(),
            cv == views(cands@),
            complex.spec_n_vertices() == n,
            forall|k: int| 0 <= k < cands@.len() ==> clique_complex(n as nat, w, dim as nat + 1).contains(#[trigger] cands@[k]@)
                && cands@[k]@.len() == dim + 1,
            complex.simplex_set() == start.union(closure_of_prefix(cv, q as int)),
        decreases cands@.len() - q,
    {
        let c = &cands[q];
        proof {
            assert(cv[q as int] == c@);
            assert(clique_complex(n as nat, w, dim as nat + 1).contains(c@));
            assert(c@[c@.len() - 1] < n);
        }
        complex.add_simplex(c);
        proof {
            assert(complex.simplex_set() =~= start.union(closure_of_prefix(cv, q + 1))) by {
                assert forall|t: Seq<usize>| #[trigger] closure_of_prefix(cv, q + 1).contains(t)
                    <==> closure_of_prefix(cv, q as int).contains(t) || face_closure(c@).contains(t) by {
                    if closure_of_prefix(cv, q + 1).contains(t) {
                        let j = choose|j: int| 0 <= j < q + 1 && is_face_of(t, #[trigger] cv[j]);
                        if j < q {
                            assert(closure_of_prefix(cv, q as int).contains(t));
                        }
                    }
                    if closure_of_prefix(cv, q as int).contains(t) {
                        let j = choose|j: int| 0 <= j < q && is_face_of(t, #[trigger] cv[j]);
                        assert(closure_of_prefix(cv, q + 1).contains(t));
                    }
                    if face_closure(c@).contains(t) {
                        assert(is_face_of(t, cv[q as int]));
                    }
                }
            }
        }
        q = q + 1;
    }
    proof {
        let target = clique_complex(n as nat, w, dim as nat + 1);
        assert forall|t: Seq<usize>| #[trigger] complex.simplex_set().contains(t) <==> target.contains(t) by {
            if closure_of_prefix(cv, q as int).contains(t) {
                let j = choose|j: int| 0 <= j < q && is_face_of(t, #[trigger] cv[j]);
                assert(cv[j] == cands@[j]@);
                lemma_clique_faces(n as nat, w, dim as nat + 1, cv[j]);
                assert(face_closure(cv[j]).contains(t));
            }
            if target.contains(t) && !start.contains(t) {
                assert(t.len() == dim + 1);
                let s = t.drop_last();
                let v = t.last();
                assert(lowset.contains(s)) by {
                    assert forall|a: int, b: int| 0 <= a < b < s.len() implies #[trigger] w[s[a] as int][s[b] as int] by {
                        assert(w[t[a] as int][t[b] as int]);
                    }
                }
                assert(all.to_set().contains(s));
                let i = choose|i: int| 0 <= i < all.len() && all[i] == s;
                broadcast use vstd::seq_lib::group_filter_ensures;
                all.lemma_filter_contains(has_dim((dim - 1) as nat), i);
                assert(lv.contains(s));
                let pp = choose|pp: int| 0 <= pp < lv.len() && lv[pp] == s;
                assert(extends(w, lv[pp], v)) by {
                    assert(!vset(s).contains(v)) by {
                        if vset(s).contains(v) {
                            let k = choose|k: int| 0 <= k < s.len() && s[k] == v;
                            assert(t[k] < t[t.len() - 1]);
                        }
                    }
                    assert forall|k: int| 0 <= k < s.len() implies #[trigger] close(w, s[k], v) by {
                        assert(t[k] < t[t.len() - 1]);
                        assert(w[t[k] as int][t[t.len() - 1] as int]);
                    }
                }
                assert(has_candidate(cv, lv[pp], v));
                let qq = choose|qq: int| 0 <= qq < cv.len() && vset(#[trigger] cv[qq]) == vset(lv[pp]).insert(v);
                assert(vset(t) =~= vset(s).insert(v)) by {
                    assert(t =~= s.push(v));
                    s.lemma_push_to_set_commute(v);
                }
                assert(cv[qq] == cands@[qq]@);
                lemma_sorted_same_set_equal(cv[qq], t);
                assert(is_face_of(t, cv[qq]));
                assert(closure_of_prefix(cv, q as int).contains(t));
            }
        }
        assert(complex.simplex_set() =~= target);
    }
}

/// The Vietoris-Rips complex of a proximity graph on the points `0..n`: all
/// vertices, the edges between close points, and then, one dimension at a
/// time up to `max_dim`, every simplex obtained by adding to a simplex a
/// vertex close to all of its vertices. The result holds exactly the cliques
/// of at most `max_dim + 1` vertices.
pub fn vietoris_rips_from_graph(n: usize, within: &Vec<Vec<bool>>, max_dim: usize) -> (c: SimplicialComplex)
    requires
        square(within@, n as nat),
    ensures
        c.simplex_set() == clique_complex(n as nat, rows(within@), max_dim as nat + 1),
        c.spec_n_vertices() == n,
{
    let ghost w = rows(within@);
    let mut complex = add_vertices(n);
    proof {
        assert forall|t: Seq<usize>| #[trigger] complex.simplex_set().contains(t) <==> clique_complex(n as nat, w, 1).contains(t) by {
            if t.len() == 1 && t[0] < n {
                assert(is_combination(t, n as nat, 1));
            }
        }
        assert(complex.simplex_set() =~= clique_complex(n as nat, w, 1));
    }
    if max_dim == 0 {
        return complex;
    }
    add_edges(&mut complex, within, n);
    let mut dim: usize = 2;
    while dim <= max_dim
        invariant
            square(within@, n as nat),
            w == rows(within@),
            2 <= dim <= max_dim + 1,
            complex.simplex_set() == clique_complex(n as nat, w, dim as nat),
            complex.spec_n_vertices() == n,
        decreases max_dim - dim + 1,
    {
        extend_cliques(&mut complex, within, n, dim);
        if dim == max_dim {
            return complex;
        }
        dim = dim + 1;
    }
    complex
}

/// The candidate simplices of a Čech complex on the points `0..n` up to
/// dimension `max_dim`: every sorted set of 2 to `max_dim + 1` of the
/// points, by size and then in lexicographic order.
pub fn cech_candidates(n: usize, max_dim: usize) -> (cands: Vec<Vec<usize>>)
    requires
        max_dim < usize::MAX,
    ensures
        forall|i: int|
            0 <= i < cands@.len() ==> 2 <= (#[trigger] cands@[i])@.len() <= max_dim + 1 && is_combination(
                cands@[i]@,
                n as nat,
                cands@[i]@.len(),
            ),
        forall|t: Seq<usize>|
            2 <= t.len() <= max_dim + 1 && #[trigger] is_combination(t, n as nat, t.len()) ==> exists|i: int|
                0 <= i < cands@.len() && #[trigger] cands@[i]@ == t,
        forall|i: int, j: int|
            0 <= i < j < cands@.len() ==> (#[trigger] cands@[i])@.len() < (#[trigger] cands@[j])@.len() || (
            cands@[i]@.len() == cands@[j]@.len() && lex_lt(cands@[i]@, cands@[j]@)),
{
    let mut cands: Vec<Vec<usize>> = Vec::new();
    // sizes beyond `n` have no combinations
    let top = if max_dim < n { max_dim + 1 } else { n };
    let mut j: usize = 1;
    while j < top
        invariant
            max_dim < usize::MAX,
            top <= n,
            top <= max_dim + 1,
            top == max_dim + 1 || top == n,
            1 <= j <= max_dim + 1,
            forall|i: int|
                0 <= i < cands@.len() ==> 2 <= (#[trigger] cands@[i])@.len() <= j && is_combination(
                    cands@[i]@,
                    n as nat,
                    cands@[i]@.len(),
                ),
            forall|t: Seq<usize>|
                2 <= t.len() <= j && #[trigger] is_combination(t, n as nat, t.len()) ==> exists|i: int|
                    0 <= i < cands@.len() && #[trigger] cands@[i]@ == t,
            forall|i: int, i2: int|
                0 <= i < i2 < cands@.len() ==> (#[trigger] cands@[i])@.len() < (#[trigger] cands@[i2])@.len() || (
                cands@[i]@.len() == cands@[i2]@.len() && lex_lt(cands@[i]@, cands@[i2]@)),
        decreases top - j,
    {
        let k = j + 1;
        let combos = index_combinations(n, k);
        let ghost prev = cands@;
        let ghost start = cands@.len();
        let mut q: usize = 0;
        while q < combos.len()
            invariant
                k == j + 1,
                0 <= q <= combos@.len(),
                start == prev.len(),
                cands@.len() == start + q,
                forall|m: int| 0 <= m < combos@.len() ==> is_combination(#[trigger] combos@[m]@, n as nat, k as nat),
                forall|i: int| 0 <= i < start ==> #[trigger] cands@[i] == prev[i],
                forall|i: int| start <= i < cands@.len() ==> (#[trigger] cands@[i])@ == combos@[i - start]@,
            decreases combos@.len() - q,
        {
            cands.push(combos[q].clone());
            q = q + 1;
        }
        proof {
            assert forall|i: int|
                0 <= i < cands@.len() implies 2 <= (#[trigger] cands@[i])@.len() <= j + 1 && is_combination(
                    cands@[i]@,
                    n as nat,
                    cands@[i]@.len(),
                ) by {
                if i >= start {
                    assert(cands@[i]@ == combos@[i - start]@);
                    assert(is_combination(combos@[i - start]@, n as nat, k as nat));
                } else {
                    assert(cands@[i] == prev[i]);
                }
            }
            assert forall|t: Seq<usize>|
                2 <= t.len() <= j + 1 && #[trigger] is_combination(t, n as nat, t.len()) implies exists|i: int|
                    0 <= i < cands@.len() && #[trigger] cands@[i]@ == t by {
                if t.len() == k {
                    let m = choose|m: int| 0 <= m < combos@.len() && #[trigger] combos@[m]@ == t;
                    assert(cands@[start + m]@ == combos@[m]@);
                } else {
                    let i = choose|i: int| 0 <= i < prev.len() && #[trigger] prev[i]@ == t;
                    assert(cands@[i] == prev[i]);
                }
            }
            assert forall|i: int, i2: int|
                0 <= i < i2 < cands@.len() implies (#[trigger] cands@[i])@.len() < (#[trigger] cands@[i2])@.len() || (
                cands@[i]@.len() == cands@[i2]@.len() && lex_lt(cands@[i]@, cands@[i2]@)) by {
                if i2 >= start {
                    assert(cands@[i2]@ == combos@[i2 - start]@);
                    assert(is_combination(combos@[i2 - start]@, n as nat, k as nat));
                    if i >= start {
                        assert(cands@[i]@ == combos@[i - start]@);
                        assert(lex_lt(combos@[i - start]@, combos@[i2 - start]@));
                    } else {
                        assert(cands@[i] == prev[i]);
                    }
                } else {
                    assert(cands@[i] == prev[i]);
                    assert(cands@[i2] == prev[i2]);
                }
            }
        }
        j = j + 1;
    }
    proof {
        assert forall|t: Seq<usize>|
            2 <= t.len() <= max_dim + 1 && #[trigger] is_combination(t, n as nat, t.len()) implies exists|i: int|
                0 <= i < cands@.len() && #[trigger] cands@[i]@ == t by {
            lemma_increasing_bounded(t, n as nat);
        }
    }
    cands
}

/// The candidates before `m` whose entry in `meets` holds.
pub open spec fn chosen_before(cands: Seq<Vec<usize>>, meets: Seq<bool>, m: int) -> Set<Seq<usize>> {
    Set::new(|t: Seq<usize>| exists|i: int| 0 <= i < m && meets[i] && #[trigger] cands[i]@ == t)
}

/// The candidates whose entry in `meets` holds.
pub open spec fn chosen_candidates(cands: Seq<Vec<usize>>, meets: Seq<bool>) -> Set<Seq<usize>> {
    chosen_before(cands, meets, cands.len() as int)
}

/// The Čech complex on the points `0..n` from its candidate simplices: the
/// points themselves, and every candidate whose balls share a point
/// (`meets[i]`), with all its faces.
pub fn cech_from_candidates(n: usize, cands: &Vec<Vec<usize>>, meets: &Vec<bool>) -> (c: SimplicialComplex)
    requires
        meets@.len() == cands@.len(),
        forall|i: int|
            0 <= i < cands@.len() ==> 1 <= (#[trigger] cands@[i])@.len() && is_combination(
                cands@[i]@,
                n as nat,
                cands@[i]@.len(),
            ),
    ensures
        c.simplex_set() == vertex_set(n as nat).union(faces_of(chosen_candidates(cands@, meets@))),
        c.spec_n_vertices() == n,
{
    let ghost vs = vertex_set(n as nat);
    let mut complex = add_vertices(n);
    proof {
        assert(chosen_before(cands@, meets@, 0) =~= Set::empty());
        assert(faces_of(Set::<Seq<usize>>::empty()) =~= Set::empty());
    }
    let mut q: usize = 0;
    while q < cands.len()
        invariant
            vs == vertex_set(n as nat),
            meets@.len() == cands@.len(),
            forall|i: int|
                0 <= i < cands@.len() ==> 1 <= (#[trigger] cands@[i])@.len() && is_combination(
                    cands@[i]@,
                    n as nat,
                    cands@[i]@.len(),
                ),
            0 <= q <= cands@.len(),
            complex.spec_n_vertices() == n,
            forall|t: Seq<usize>| #[trigger] complex.simplex_set().contains(t) <==> vs.contains(t)
                || faces_of(chosen_before(cands@, meets@, q as int)).contains(t),
        decreases cands@.len() - q,
    {
        let ghost before = chosen_before(cands@, meets@, q as int);
        let ghost after = chosen_before(cands@, meets@, q + 1);
        let ghost cq = cands@[q as int]@;
        proof {
            assert forall|t: Seq<usize>| #[trigger] before.contains(t) implies after.contains(t) by {
                let i = choose|i: int| 0 <= i < q && meets@[i] && #[trigger] cands@[i]@ == t;
            }
        }
        if meets[q] {
            let copy = cands[q].clone();
            assert(copy@ =~= cq);
            let simplex = Simplex::new(copy);
            proof {
                use_type_invariant(&simplex);
                lemma_sorted_same_set_equal(simplex@, cq);
                assert(cq[cq.len() - 1] < n);
                assert(after.contains(cq));
            }
            complex.add_simplex(&simplex);
            proof {
                assert forall|t: Seq<usize>| #[trigger] complex.simplex_set().contains(t) <==> vs.contains(t)
                    || faces_of(after).contains(t) by {
                    if faces_of(before).contains(t) {
                        let x = choose|x: Seq<usize>| #[trigger] before.contains(x) && is_face_of(t, x);
                        assert(after.contains(x));
                    }
                    if face_closure(cq).contains(t) {
                        assert(after.contains(cq));
                    }
                    if faces_of(after).contains(t) {
                        let x = choose|x: Seq<usize>| #[trigger] after.contains(x) && is_face_of(t, x);
                        let i = choose|i: int| 0 <= i < q + 1 && meets@[i] && #[trigger] cands@[i]@ == x;
                        if i < q {
                            assert(before.contains(x));
                        } else {
                            assert(x == cq);
                            assert(face_closure(cq).contains(t));
                        }
                    }
                }
            }
        } else {
            proof {
                assert forall|t: Seq<usize>| #[trigger] complex.simplex_set().contains(t) <==> vs.contains(t)
                    || faces_of(after).contains(t) by {
                    if faces_of(before).contains(t) {
                        let x = choose|x: Seq<usize>| #[trigger] before.contains(x) && is_face_of(t, x);
                        assert(after.contains(x));
                    }
                    if faces_of(after).contains(t) {
                        let x = choose|x: Seq<usize>| #[trigger] after.contains(x) && is_face_of(t, x);
                        let i = choose|i: int| 0 <= i < q + 1 && meets@[i] && #[trigger] cands@[i]@ == x;
                        assert(i < q);
                        assert(before.contains(x));
                    }
                }
            }
        }
        q = q + 1;
    }
    proof {
        assert(complex.simplex_set() =~= vs.union(faces_of(chosen_candidates(cands@, meets@))));
    }
    complex
}

} // verus!
