//! Covers and their nerves.

use vstd::prelude::*;
use crate::order::{strictly_increasing, vset, is_face_of, lemma_sorted_same_set_equal};
use crate::complex::{Simplex, SimplicialComplex, face_closure, closed_under_faces, top_vertex};
use std::collections::BTreeSet;
use crate::mapper::MapperGraph;
use crate::combinations::{index_combinations, is_combination, lemma_increasing_bounded};

verus! {

broadcast use vstd::std_specs::btree::group_btree_axioms, vstd::laws_cmp::group_laws_cmp;

/// A cover of a set: a collection of subsets whose union is the whole set.
#[derive(Debug, Clone)]
pub struct Cover {
    /// Each set is a list of point indices.
    pub sets: Vec<Vec<usize>>,
    /// Total number of points.
    pub n_points: usize,
}

/// The sets of a cover as sequences.
pub open spec fn cover_sets(sets: Seq<Vec<usize>>) -> Seq<Seq<usize>> {
    Seq::new(sets.len(), |i: int| sets[i]@)
}

/// The point `p` lies in every set named by `t`.
pub open spec fn in_all(sets: Seq<Seq<usize>>, t: Seq<usize>, p: usize) -> bool {
    forall|i: int| 0 <= i < t.len() ==> #[trigger] sets[t[i] as int].contains(p)
}

/// Some point lies in every set named by `t`.
pub open spec fn have_common_point(sets: Seq<Seq<usize>>, t: Seq<usize>) -> bool {
    exists|p: usize| #[trigger] in_all(sets, t, p)
}

/// The nerve of a family of sets: the nonempty sorted index sets, below the
/// number of sets, whose sets have a point in common.
pub open spec fn nerve_of(sets: Seq<Seq<usize>>) -> Set<Seq<usize>> {
    Set::new(|t: Seq<usize>| t.len() >= 1 && is_combination(t, sets.len(), t.len()) && have_common_point(sets, t))
}

/// A list of set indices is a simplex of the nerve exactly when it is
/// nonempty, strictly increasing, names only sets of the family, and some
/// point of the first set it names lies in every set it names.
pub proof fn lemma_nerve_law(sets: Seq<Seq<usize>>, t: Seq<usize>)
    ensures
        nerve_of(sets).contains(t) <==> {
            &&& t.len() >= 1
            &&& forall|a: int, b: int| 0 <= a < b < t.len() ==> t[a] < t[b]
            &&& forall|a: int| 0 <= a < t.len() ==> #[trigger] t[a] < sets.len()
            &&& exists|p: usize|
                #[trigger] sets[t[0] as int].contains(p) && forall|a: int|
                    0 <= a < t.len() ==> #[trigger] sets[t[a] as int].contains(p)
        },
{
    if t.len() >= 1 && exists|p: usize|
        #[trigger] sets[t[0] as int].contains(p) && forall|a: int|
            0 <= a < t.len() ==> #[trigger] sets[t[a] as int].contains(p) {
        let p = choose|p: usize|
            #[trigger] sets[t[0] as int].contains(p) && forall|a: int|
                0 <= a < t.len() ==> #[trigger] sets[t[a] as int].contains(p);
        assert(in_all(sets, t, p));
    }
    if nerve_of(sets).contains(t) {
        assert(have_common_point(sets, t));
        let p = choose|p: usize| #[trigger] in_all(sets, t, p);
        assert(sets[t[0] as int].contains(p));
    }
}

/// One more than the largest index below `m` of a nonempty set, or 0 when
/// the first `m` sets are all empty: the vertex count of the nerve.
pub open spec fn nonempty_bound(sets: Seq<Seq<usize>>, m: int) -> nat
    decreases m,
{
    if m <= 0 {
        0
    } else if sets[m - 1].len() > 0 {
        m as nat
    } else {
        nonempty_bound(sets, m - 1)
    }
}

/// An index of a nonempty set lies below the bound.
proof fn lemma_nonempty_below_bound(sets: Seq<Seq<usize>>, m: int, j: int)
    requires
        0 <= j < m,
        sets[j].len() > 0,
    ensures
        j < nonempty_bound(sets, m),
    decreases m,
{
    if j < m - 1 && sets[m - 1].len() == 0 {
        lemma_nonempty_below_bound(sets, m - 1, j);
    }
}

/// The bound over the first `m` sets is at most `m`.
proof fn lemma_bound_at_most(sets: Seq<Seq<usize>>, m: int)
    requires
        m >= 0,
    ensures
        nonempty_bound(sets, m) <= m,
    decreases m,
{
    if m > 0 {
        lemma_bound_at_most(sets, m - 1);
    }
}

/// The vertices of a simplex of the nerve lie below the bound.
proof fn lemma_nerve_simplex_below_bound(sets: Seq<Seq<usize>>, t: Seq<usize>)
    requires
        nerve_of(sets).contains(t),
    ensures
        t.last() < nonempty_bound(sets, sets.len() as int),
{
    let p = choose|p: usize| #[trigger] in_all(sets, t, p);
    assert(sets[t[t.len() - 1] as int].contains(p));
    lemma_nonempty_below_bound(sets, sets.len() as int, t.last() as int);
}

/// The point `x` lies in some set.
pub open spec fn covered(sets: Seq<Seq<usize>>, x: usize) -> bool {
    exists|i: int| 0 <= i < sets.len() && #[trigger] sets[i].contains(x)
}

/// Every point below `n` lies in some set.
pub open spec fn covers(sets: Seq<Seq<usize>>, n: nat) -> bool {
    forall|x: usize| x < n ==> #[trigger] covered(sets, x)
}

/// Whether `x` is an entry of `v`.
fn vec_contains(v: &Vec<usize>, x: usize) -> (b: bool)
    ensures
        b == v@.contains(x),
{
    let mut k: usize = 0;
    while k < v.len()
        invariant
            0 <= k <= v@.len(),
            forall|j: int| 0 <= j < k ==> v@[j] != x,
        decreases v@.len() - k,
    {
        if v[k] == x {
            assert(v@[k as int] == x);
            return true;
        }
        k = k + 1;
    }
    false
}

/// The entries of `cur` that are also entries of `other`.
fn keep_common(cur: &Vec<usize>, other: &Vec<usize>) -> (out: Vec<usize>)
    ensures
        forall|x: usize| #[trigger] out@.contains(x) <==> (cur@.contains(x) && other@.contains(x)),
{
    let mut out: Vec<usize> = Vec::new();
    let mut q: usize = 0;
    while q < cur.len()
        invariant
            0 <= q <= cur@.len(),
            forall|x: usize| #[trigger] out@.contains(x) <==> (exists|r: int| 0 <= r < q && #[trigger] cur@[r] == x)
                && other@.contains(x),
        decreases cur@.len() - q,
    {
        let ghost before = out@;
        let y = cur[q];
        if vec_contains(other, y) {
            out.push(y);
        }
        proof {
            assert forall|x: usize| #[trigger] out@.contains(x) <==> (exists|r: int| 0 <= r < q + 1 && #[trigger] cur@[r] == x)
                && other@.contains(x) by {
                if out@.contains(x) {
                    let p = choose|p: int| 0 <= p < out@.len() && #[trigger] out@[p] == x;
                    if p < before.len() {
                        assert(before[p] == x);
                        assert(before.contains(x));
                    } else {
                        assert(cur@[q as int] == x);
                    }
                }
                if (exists|r: int| 0 <= r < q + 1 && #[trigger] cur@[r] == x) && other@.contains(x) {
                    let r = choose|r: int| 0 <= r < q + 1 && #[trigger] cur@[r] == x;
                    if r < q {
                        assert(before.contains(x));
                        let p = choose|p: int| 0 <= p < before.len() && #[trigger] before[p] == x;
                        assert(out@[p] == x);
                    } else {
                        assert(out@[out@.len() - 1] == x);
                    }
                }
            }
        }
        q = q + 1;
    }
    proof {
        assert forall|x: usize| #[trigger] out@.contains(x) <==> (cur@.contains(x) && other@.contains(x)) by {
            if cur@.contains(x) {
                let r = choose|r: int| 0 <= r < cur@.len() && #[trigger] cur@[r] == x;
            }
        }
    }
    out
}

/// Whether the sets named by `combo` have a point in common: intersect them
/// one after the other and test the result for emptiness.
fn common_point_exists(sets: &Vec<Vec<usize>>, combo: &Vec<usize>) -> (b: bool)
    requires
        combo@.len() >= 1,
        forall|i: int| 0 <= i < combo@.len() ==> #[trigger] combo@[i] < sets@.len(),
    ensures
        b == have_common_point(cover_sets(sets@), combo@),
{
    let ghost ss = cover_sets(sets@);
    let first = &sets[combo[0]];
    let mut inter: Vec<usize> = keep_common(first, first);
    assert forall|x: usize| #[trigger] inter@.contains(x) <==> in_all(ss, combo@.take(1), x) by {
        assert(combo@.take(1)[0] == combo@[0]);
        assert(ss[combo@[0] as int] == first@);
        if inter@.contains(x) {
            assert forall|i: int| 0 <= i < 1 implies #[trigger] ss[combo@.take(1)[i] as int].contains(x) by {}
        }
        if in_all(ss, combo@.take(1), x) {
            assert(ss[combo@.take(1)[0] as int].contains(x));
        }
    }
    let mut m: usize = 1;
    while m < combo.len()
        invariant
            1 <= m <= combo@.len(),
            ss == cover_sets(sets@),
            forall|i: int| 0 <= i < combo@.len() ==> #[trigger] combo@[i] < sets@.len(),
            forall|x: usize| #[trigger] inter@.contains(x) <==> in_all(ss, combo@.take(m as int), x),
        decreases combo@.len() - m,
    {
        let other = &sets[combo[m]];
        assert(ss[combo@[m as int] as int] == other@);
        inter = keep_common(&inter, other);
        assert forall|x: usize| #[trigger] inter@.contains(x) <==> in_all(ss, combo@.take(m + 1), x) by {
            if in_all(ss, combo@.take(m + 1), x) {
                assert(combo@.take(m + 1)[m as int] == combo@[m as int]);
                assert forall|i: int| 0 <= i < m implies #[trigger] ss[combo@.take(m as int)[i] as int].contains(x) by {
                    assert(combo@.take(m as int)[i] == combo@.take(m + 1)[i]);
                }
            }
            if inter@.contains(x) {
                assert forall|i: int| 0 <= i < m + 1 implies #[trigger] ss[combo@.take(m + 1)[i] as int].contains(x) by {
                    if i < m {
                        assert(combo@.take(m as int)[i] == combo@.take(m + 1)[i]);
                    }
                }
            }
        }
        m = m + 1;
    }
    assert(combo@.take(m as int) =~= combo@);
    if inter.len() > 0 {
        assert(inter@.contains(inter@[0]));
        assert(in_all(ss, combo@, inter@[0]));
        true
    } else {
        proof {
            if have_common_point(ss, combo@) {
                let p = choose|p: usize| #[trigger] in_all(ss, combo@, p);
                assert(inter@.contains(p));
            }
        }
        false
    }
}

/// The faces of a simplex of the nerve lie in the nerve.
pub proof fn lemma_nerve_face_closed(sets: Seq<Seq<usize>>, s: Seq<usize>)
    requires
        nerve_of(sets).contains(s),
    ensures
        face_closure(s).subset_of(nerve_of(sets)),
{
    assert forall|t: Seq<usize>| face_closure(s).contains(t) implies nerve_of(sets).contains(t) by {
        if t != s {
            let p = choose|p: usize| #[trigger] in_all(sets, s, p);
            assert forall|i: int| 0 <= i < t.len() implies #[trigger] t[i] < sets.len() && sets[t[i] as int].contains(p) by {
                assert(vset(t).contains(t[i]));
                assert(vset(s).contains(t[i]));
                let j = choose|j: int| 0 <= j < s.len() && s[j] == t[i];
                assert(sets[s[j] as int].contains(p));
            }
            assert(in_all(sets, t, p));
        }
    }
}

/// Combinations of the same size with equal entry sets are equal.
proof fn lemma_simplex_of_combination(c: Seq<usize>, s: Seq<usize>)
    requires
        strictly_increasing(c),
        strictly_increasing(s),
        vset(s) == vset(c),
    ensures
        s == c,
{
    lemma_sorted_same_set_equal(s, c);
}

/// The first `k` entries of a nerve simplex form a nerve simplex.
proof fn lemma_nerve_prefix(sets: Seq<Seq<usize>>, t: Seq<usize>, k: int)
    requires
        nerve_of(sets).contains(t),
        1 <= k <= t.len(),
    ensures
        nerve_of(sets).contains(t.take(k)),
        is_combination(t.take(k), sets.len(), k as nat),
{
    let p = choose|p: usize| #[trigger] in_all(sets, t, p);
    let u = t.take(k);
    assert forall|i: int| 0 <= i < u.len() implies #[trigger] sets[u[i] as int].contains(p) by {
        assert(u[i] == t[i]);
    }
    assert(in_all(sets, u, p));
    assert forall|i: int| 0 <= i < u.len() implies #[trigger] u[i] < sets.len() by {
        assert(u[i] == t[i]);
    }
}

impl Cover {
    pub fn new(sets: Vec<Vec<usize>>, n_points: usize) -> (c: Cover)
        ensures
            c.sets == sets,
            c.n_points == n_points,
    {
        Cover { sets, n_points }
    }

    /// Check if the cover actually covers all points `0..n_points`.
    pub fn is_valid(&self) -> (b: bool)
        ensures
            b == covers(cover_sets(self.sets@), self.n_points as nat),
    {
        let ghost ss = cover_sets(self.sets@);
        let mut covered_pts: BTreeSet<usize> = BTreeSet::new();
        let mut i: usize = 0;
        while i < self.sets.len()
            invariant
                0 <= i <= self.sets@.len(),
                ss == cover_sets(self.sets@),
                forall|x: usize| #[trigger] covered_pts@.contains(x) <==> exists|j: int| 0 <= j < i && #[trigger] ss[j].contains(x),
            decreases self.sets@.len() - i,
        {
            let set = &self.sets[i];
            assert(ss[i as int] == set@);
            let mut q: usize = 0;
            let ghost start = covered_pts@;
            while q < set.len()
                invariant
                    0 <= q <= set@.len(),
                    forall|x: usize| #[trigger] covered_pts@.contains(x) <==> start.contains(x)
                        || exists|r: int| 0 <= r < q && #[trigger] set@[r] == x,
                decreases set@.len() - q,
            {
                covered_pts.insert(set[q]);
                proof {
                    assert forall|x: usize| #[trigger] covered_pts@.contains(x) <==> start.contains(x)
                        || exists|r: int| 0 <= r < q + 1 && #[trigger] set@[r] == x by {
                        if exists|r: int| 0 <= r < q + 1 && #[trigger] set@[r] == x {
                            let r = choose|r: int| 0 <= r < q + 1 && #[trigger] set@[r] == x;
                            if r < q {
                            } else {
                                assert(x == set@[q as int]);
                            }
                        }
                    }
                }
                q = q + 1;
            }
            proof {
                assert forall|x: usize| #[trigger] covered_pts@.contains(x) <==> exists|j: int| 0 <= j < i + 1 && #[trigger] ss[j].contains(x) by {
                    if covered_pts@.contains(x) && !start.contains(x) {
                        let r = choose|r: int| 0 <= r < q && #[trigger] set@[r] == x;
                        assert(ss[i as int].contains(x));
                    }
                    if exists|j: int| 0 <= j < i + 1 && #[trigger] ss[j].contains(x) {
                        let j = choose|j: int| 0 <= j < i + 1 && #[trigger] ss[j].contains(x);
                        if j == i {
                            let r = choose|r: int| 0 <= r < set@.len() && set@[r] == x;
                        }
                    }
                }
            }
            i = i + 1;
        }
        let mut x: usize = 0;
        while x < self.n_points
            invariant
                0 <= x <= self.n_points,
                i == self.sets@.len(),
                ss == cover_sets(self.sets@),
                forall|y: usize| #[trigger] covered_pts@.contains(y) <==> exists|j: int| 0 <= j < i && #[trigger] ss[j].contains(y),
                forall|y: usize| y < x ==> #[trigger] covered(ss, y),
            decreases self.n_points - x,
        {
            if !covered_pts.contains(&x) {
                assert(!covered(ss, x));
                return false;
            }
            x = x + 1;
        }
        true
    }

    /// Compute the nerve of this cover: a simplicial complex where a simplex
    /// is included iff the corresponding sets have non-empty intersection.
    pub fn nerve(&self) -> (c: SimplicialComplex)
        ensures
            c.simplex_set() == nerve_of(cover_sets(self.sets@)),
            c.spec_n_vertices() == nonempty_bound(cover_sets(self.sets@), self.sets@.len() as int),
    {
        let ghost ss = cover_sets(self.sets@);
        let ghost nv = nerve_of(ss);
        let n_sets = self.sets.len();
        let mut complex = SimplicialComplex::new();
        assert(complex.simplex_set() =~= Set::empty());

        // Vertices: each non-empty set
        let mut i: usize = 0;
        while i < n_sets
            invariant
                n_sets == self.sets@.len(),
                ss == cover_sets(self.sets@),
                nv == nerve_of(ss),
                0 <= i <= n_sets,
                complex.spec_n_vertices() == nonempty_bound(ss, i as int),
                complex.simplex_set().subset_of(nv),
                forall|t: Seq<usize>| nv.contains(t) && t.len() == 1 && t[0] < i ==> #[trigger] complex.simplex_set().contains(t),
            decreases n_sets - i,
        {
            if self.sets[i].len() > 0 {
                let v = Simplex::vertex(i);
                proof {
                    assert(ss[i as int] == self.sets@[i as int]@);
                    assert(in_all(ss, v@, self.sets@[i as int]@[0]));
                    assert(nv.contains(v@));
                    lemma_nerve_face_closed(ss, v@);
                }
                complex.add_simplex(&v);
                proof {
                    if i > 0 {
                        lemma_bound_at_most(ss, i as int);
                    }
                }
            } else {
                proof {
                    assert forall|t: Seq<usize>| nv.contains(t) && t.len() == 1 && t[0] == i implies false by {
                        let p = choose|p: usize| #[trigger] in_all(ss, t, p);
                        assert(ss[t[0] as int].contains(p));
                    }
                }
            }
            proof {
                assert forall|t: Seq<usize>| nv.contains(t) && t.len() == 1 && t[0] < i + 1 implies #[trigger] complex.simplex_set().contains(t) by {
                    if t[0] == i {
                        assert(t =~= seq![i]);
                    }
                }
            }
            i = i + 1;
        }

        // Edges: pairs with non-empty intersection
        let mut i: usize = 0;
        while i < n_sets
            invariant
                n_sets == self.sets@.len(),
                ss == cover_sets(self.sets@),
                nv == nerve_of(ss),
                0 <= i <= n_sets,
                complex.spec_n_vertices() == nonempty_bound(ss, n_sets as int),
                complex.simplex_set().subset_of(nv),
                forall|t: Seq<usize>| nv.contains(t) && t.len() == 1 ==> #[trigger] complex.simplex_set().contains(t),
                forall|t: Seq<usize>| nv.contains(t) && t.len() == 2 && t[0] < i ==> #[trigger] complex.simplex_set().contains(t),
            decreases n_sets - i,
        {
            let mut j: usize = i + 1;
            while j < n_sets
                invariant
                    n_sets == self.sets@.len(),
                    ss == cover_sets(self.sets@),
                    nv == nerve_of(ss),
                    0 <= i < n_sets,
                    i + 1 <= j <= n_sets,
                    complex.spec_n_vertices() == nonempty_bound(ss, n_sets as int),
                    complex.simplex_set().subset_of(nv),
                    forall|t: Seq<usize>| nv.contains(t) && t.len() == 1 ==> #[trigger] complex.simplex_set().contains(t),
                    forall|t: Seq<usize>| nv.contains(t) && t.len() == 2 && (t[0] < i || (t[0] == i && t[1] < j))
                        ==> #[trigger] complex.simplex_set().contains(t),
                decreases n_sets - j,
            {
                let mut pair: Vec<usize> = Vec::new();
                pair.push(i);
                pair.push(j);
                let meet = common_point_exists(&self.sets, &pair);
                if meet {
                    let e = Simplex::edge(i, j);
                    proof {
                        assert(e@ == pair@);
                        assert(nv.contains(e@));
                        lemma_nerve_face_closed(ss, e@);
                        lemma_nerve_simplex_below_bound(ss, e@);
                    }
                    complex.add_simplex(&e);
                }
                proof {
                    assert forall|t: Seq<usize>| nv.contains(t) && t.len() == 2 && (t[0] < i || (t[0] == i && t[1] < j + 1))
                        implies #[trigger] complex.simplex_set().contains(t) by {
                        if t[0] == i && t[1] == j {
                            assert(t =~= pair@);
                        }
                    }
                }
                j = j + 1;
            }
            i = i + 1;
        }

        // Higher simplices: all k-tuples with non-empty common intersection
        let mut k: usize = 3;
        let mut stop = n_sets < 3;
        proof {
            if n_sets < 3 {
                assert forall|t: Seq<usize>| nv.contains(t) implies #[trigger] complex.simplex_set().contains(t) by {
                    lemma_increasing_bounded(t, n_sets as nat);
                }
            }
        }
        while !stop
            invariant
                n_sets == self.sets@.len(),
                ss == cover_sets(self.sets@),
                nv == nerve_of(ss),
                3 <= k <= n_sets || stop,
                complex.spec_n_vertices() == nonempty_bound(ss, n_sets as int),
                complex.simplex_set().subset_of(nv),
                forall|t: Seq<usize>| nv.contains(t) && t.len() < k ==> #[trigger] complex.simplex_set().contains(t),
                stop ==> forall|t: Seq<usize>| nv.contains(t) ==> #[trigger] complex.simplex_set().contains(t),
                n_sets < 3 ==> stop,
            decreases n_sets - k + (if stop { 0int } else { 1int }),
        {
            let combos = index_combinations(n_sets, k);
            let mut found = false;
            let mut q: usize = 0;
            while q < combos.len()
                invariant
                    n_sets == self.sets@.len(),
                    ss == cover_sets(self.sets@),
                    nv == nerve_of(ss),
                    3 <= k <= n_sets,
                    0 <= q <= combos@.len(),
                    forall|m: int| 0 <= m < combos@.len() ==> is_combination(#[trigger] combos@[m]@, n_sets as nat, k as nat),
                    complex.spec_n_vertices() == nonempty_bound(ss, n_sets as int),
                    complex.simplex_set().subset_of(nv),
                    forall|t: Seq<usize>| nv.contains(t) && t.len() < k ==> #[trigger] complex.simplex_set().contains(t),
                    forall|m: int| 0 <= m < q && have_common_point(ss, #[trigger] combos@[m]@)
                        ==> complex.simplex_set().contains(combos@[m]@),
                    found == exists|m: int| 0 <= m < q && have_common_point(ss, #[trigger] combos@[m]@),
                decreases combos@.len() - q,
            {
                let combo = &combos[q];
                let ghost cq = combo@;
                assert(is_combination(cq, n_sets as nat, k as nat));
                if common_point_exists(&self.sets, combo) {
                    let simplex = Simplex::new(combo.clone());
                    proof {
                        assert(combo@ =~= cq);
                        use_type_invariant(&simplex);
                        lemma_simplex_of_combination(cq, simplex@);
                        assert(nv.contains(cq));
                        lemma_nerve_face_closed(ss, cq);
                        lemma_nerve_simplex_below_bound(ss, cq);
                        assert(top_vertex(simplex@) < usize::MAX) by {
                            assert(cq[k - 1] < n_sets);
                        }
                    }
                    complex.add_simplex(&simplex);
                    found = true;
                }
                q = q + 1;
            }
            proof {
                assert forall|t: Seq<usize>| nv.contains(t) && t.len() == k implies #[trigger] complex.simplex_set().contains(t) by {
                    assert(t.take(k as int) =~= t);
                    lemma_nerve_prefix(ss, t, k as int);
                    let m = choose|m: int| 0 <= m < combos@.len() && #[trigger] combos@[m]@ == t;
                }
                if !found {
                    assert forall|t: Seq<usize>| nv.contains(t) implies #[trigger] complex.simplex_set().contains(t) by {
                        if t.len() >= k {
                            lemma_nerve_prefix(ss, t, k as int);
                            let u = t.take(k as int);
                            let m = choose|m: int| 0 <= m < combos@.len() && #[trigger] combos@[m]@ == u;
                            assert(have_common_point(ss, combos@[m]@));
                            assert(false);
                        }
                    }
                }
                if k == n_sets {
                    assert forall|t: Seq<usize>| nv.contains(t) implies #[trigger] complex.simplex_set().contains(t) by {
                        lemma_increasing_bounded(t, n_sets as nat);
                    }
                }
            }
            if !found || k == n_sets {
                stop = true;
            } else {
                k = k + 1;
            }
        }
        proof {
            assert(complex.simplex_set() =~= nv);
        }
        complex
    }
}

/// Result of nerve theorem verification.
#[derive(Debug)]
pub struct NerveVerification {
    pub nerve: SimplicialComplex,
    pub cover_is_valid: bool,
    pub contractibility_assumed: bool,
}

/// Verify the nerve theorem for a given cover: compute its nerve and check
/// that the cover covers all points. Contractibility of the sets and their
/// intersections cannot be checked and is taken as given.
pub fn verify_nerve_theorem(cover: &Cover) -> (v: NerveVerification)
    ensures
        v.nerve.simplex_set() == nerve_of(cover_sets(cover.sets@)),
        v.nerve.spec_n_vertices() == nonempty_bound(cover_sets(cover.sets@), cover.sets@.len() as int),
        v.cover_is_valid == covers(cover_sets(cover.sets@), cover.n_points as nat),
        v.contractibility_assumed,
{
    let nerve = cover.nerve();
    let is_valid = cover.is_valid();
    NerveVerification { nerve, cover_is_valid: is_valid, contractibility_assumed: true }
}

/// Build a cover from a Mapper graph: one set per node, holding its points.
pub fn mapper_graph_to_cover(graph: &MapperGraph, n_points: usize) -> (c: Cover)
    ensures
        c.n_points == n_points,
        cover_sets(c.sets@) == Seq::new(graph.nodes@.len(), |i: int| graph.nodes@[i].points@),
{
    let mut sets: Vec<Vec<usize>> = Vec::new();
    let mut i: usize = 0;
    while i < graph.nodes.len()
        invariant
            0 <= i <= graph.nodes@.len(),
            sets@.len() == i,
            forall|k: int| 0 <= k < i ==> (#[trigger] sets@[k])@ == graph.nodes@[k].points@,
        decreases graph.nodes@.len() - i,
    {
        let copy = graph.nodes[i].points.clone();
        assert(copy@ =~= graph.nodes@[i as int].points@);
        sets.push(copy);
        i = i + 1;
    }
    let c = Cover::new(sets, n_points);
    assert(cover_sets(c.sets@) =~= Seq::new(graph.nodes@.len(), |i: int| graph.nodes@[i].points@));
    c
}

} // verus!
