//! Boundary matrices of simplicial complexes over Z2.

use vstd::prelude::*;
use crate::order::{strictly_increasing, lex_lt, vset, lemma_remove_sorted, lemma_lex_irreflexive, lemma_lex_transitive};
use crate::complex::{Simplex, SimplicialComplex, spec_faces, spec_dim, has_dim, sorted_distinct, all_sorted};

verus! {

/// A matrix of integers, held column by column.
#[derive(Debug)]
pub struct BoundaryMatrix {
    nrows: usize,
    columns: Vec<Vec<i32>>,
}

impl BoundaryMatrix {
    /// The columns, each a sequence of `nrows` entries.
    pub closed spec fn spec_columns(&self) -> Seq<Seq<i32>> {
        Seq::new(self.columns@.len(), |j: int| self.columns@[j]@)
    }

    pub closed spec fn spec_nrows(&self) -> nat {
        self.nrows as nat
    }

    /// Every column has `nrows` entries.
    #[verifier::type_invariant]
    pub open spec fn shape_inv(&self) -> bool {
        forall|j: int| 0 <= j < self.spec_columns().len() ==> (#[trigger] self.spec_columns()[j]).len() == self.spec_nrows()
    }

    /// Number of rows.
    pub fn nrows(&self) -> (r: usize)
        ensures
            r == self.spec_nrows(),
    {
        self.nrows
    }

    /// Number of columns.
    pub fn ncols(&self) -> (c: usize)
        ensures
            c == self.spec_columns().len(),
    {
        self.columns.len()
    }

    /// The entry in row `i` and column `j`.
    pub fn get(&self, i: usize, j: usize) -> (x: i32)
        requires
            i < self.spec_nrows(),
            j < self.spec_columns().len(),
        ensures
            x == self.spec_columns()[j as int][i as int],
    {
        proof {
            use_type_invariant(self);
        }
        assert(self.spec_columns()[j as int] == self.columns@[j as int]@);
        self.columns[j][i]
    }
}

/// Entry of the boundary matrix: 1 when the row simplex is a codimension-1
/// face of the column simplex, else 0.
pub open spec fn incidence(row: Seq<usize>, col: Seq<usize>) -> i32 {
    if spec_faces(col).contains(row) {
        1
    } else {
        0
    }
}

/// Distinct positions give distinct codimension-1 faces.
proof fn lemma_faces_distinct(s: Seq<usize>, a: int, b: int)
    requires
        strictly_increasing(s),
        0 <= a < b < s.len(),
    ensures
        s.remove(a) != s.remove(b),
{
    lemma_remove_sorted(s, a);
    assert(s.remove(b)[a] == s[a]);
    assert(vset(s.remove(b)).contains(s[a]));
    assert(!vset(s.remove(a)).contains(s[a]));
}

/// Keeping part of a strictly increasing list keeps it strictly increasing.
proof fn lemma_filter_sorted(ss: Seq<Seq<usize>>, p: spec_fn(Seq<usize>) -> bool)
    requires
        sorted_distinct(ss),
    ensures
        sorted_distinct(ss.filter(p)),
    decreases ss.len(),
{
    reveal_with_fuel(Seq::<_>::filter, 1);
    if ss.len() > 0 {
        let init = ss.drop_last();
        assert(sorted_distinct(init));
        lemma_filter_sorted(init, p);
        let fi = init.filter(p);
        if p(ss.last()) {
            let f = fi.push(ss.last());
            assert forall|i: int, j: int| 0 <= i < j < f.len() implies lex_lt(#[trigger] f[i], #[trigger] f[j]) by {
                if j == f.len() - 1 {
                    broadcast use vstd::seq_lib::group_filter_ensures;
                    assert(fi.contains(f[i]));
                    init.lemma_filter_contains_rev(p, f[i]);
                    let k = choose|k: int| 0 <= k < init.len() && init[k] == f[i];
                    assert(lex_lt(ss[k], ss[ss.len() - 1]));
                }
            }
        }
    }
}

impl SimplicialComplex {
    /// Boundary matrix for dimension `dim` over Z2: columns are the
    /// `dim`-simplices, rows the `(dim-1)`-simplices, both in increasing
    /// order; an entry is 1 when the row simplex is a face of the column simplex.
    pub fn boundary_matrix(&self, dim: usize) -> (m: BoundaryMatrix)
        requires
            dim >= 1,
        ensures
            m.spec_nrows() == self@.filter(has_dim((dim - 1) as nat)).len(),
            m.spec_columns().len() == self@.filter(has_dim(dim as nat)).len(),
            forall|i: int, j: int| 0 <= i < m.spec_nrows() && 0 <= j < m.spec_columns().len()
                ==> #[trigger] m.spec_columns()[j][i] == incidence(
                    self@.filter(has_dim((dim - 1) as nat))[i], self@.filter(has_dim(dim as nat))[j]),
    {
        proof {
            use_type_invariant(self);
        }
        let rows = self.simplices_of_dim(dim - 1);
        let cols = self.simplices_of_dim(dim);
        let ghost rv = self@.filter(has_dim((dim - 1) as nat));
        let ghost cv = self@.filter(has_dim(dim as nat));
        proof {
            lemma_filter_sorted(self@, has_dim((dim - 1) as nat));
            assert(rv.len() == rows@.len());
            assert forall|i: int| 0 <= i < rv.len() implies #[trigger] rv[i] == rows@[i]@ by {
                assert(Seq::new(rows@.len(), |k: int| rows@[k]@)[i] == rows@[i]@);
            }
            assert forall|j: int| 0 <= j < cv.len() implies #[trigger] cv[j] == cols@[j]@ by {
                assert(Seq::new(cols@.len(), |k: int| cols@[k]@)[j] == cols@[j]@);
            }
        }
        let nrows = rows.len();
        let mut columns: Vec<Vec<i32>> = Vec::new();
        let mut j: usize = 0;
        while j < cols.len()
            invariant
                0 <= j <= cols@.len(),
                nrows == rows@.len(),
                rv.len() == nrows,
                cv.len() == cols@.len(),
                sorted_distinct(rv),
                forall|i: int| 0 <= i < rv.len() ==> #[trigger] rv[i] == rows@[i]@,
                forall|k: int| 0 <= k < cv.len() ==> #[trigger] cv[k] == cols@[k]@,
                columns@.len() == j,
                forall|k: int| 0 <= k < j ==> (#[trigger] columns@[k])@.len() == nrows,
                forall|i: int, k: int| 0 <= i < nrows && 0 <= k < j ==> #[trigger] columns@[k]@[i] == incidence(rv[i], cv[k]),
            decreases cols@.len() - j,
        {
            let col_simplex = cols[j];
            proof {
                use_type_invariant(col_simplex);
            }
            let mut column: Vec<i32> = Vec::new();
            let mut z: usize = 0;
            while z < nrows
                invariant
                    0 <= z <= nrows,
                    column@.len() == z,
                    forall|i: int| 0 <= i < z ==> #[trigger] column@[i] == 0,
                decreases nrows - z,
            {
                column.push(0);
                z = z + 1;
            }
            let faces = col_simplex.faces();
            let ghost fs = spec_faces(col_simplex@);
            let mut k: usize = 0;
            while k < faces.len()
                invariant
                    0 <= k <= faces@.len(),
                    faces@.len() == fs.len(),
                    fs == spec_faces(col_simplex@),
                    strictly_increasing(col_simplex@),
                    forall|q: int| 0 <= q < faces@.len() ==> #[trigger] faces@[q]@ == fs[q],
                    nrows == rows@.len(),
                    rv.len() == nrows,
                    sorted_distinct(rv),
                    forall|i: int| 0 <= i < rv.len() ==> #[trigger] rv[i] == rows@[i]@,
                    column@.len() == nrows,
                    forall|i: int| 0 <= i < nrows ==> #[trigger] column@[i] == (if exists|q: int| 0 <= q < k && fs[q] == rv[i] {
                        1i32
                    } else {
                        0i32
                    }),
                decreases faces@.len() - k,
            {
                let face = &faces[k];
                let mut i: usize = 0;
                while i < nrows && rows[i].compare(face) != crate::complex::Cmp::Equal
                    invariant
                        0 <= i <= nrows,
                        nrows == rows@.len(),
                        forall|r: int| 0 <= r < i ==> rows@[r]@ != face@,
                    decreases nrows - i,
                {
                    i = i + 1;
                }
                if i < nrows {
                    let cur = column[i];
                    let next: i32 = if cur == 0 { 1 } else { 0 };
                    proof {
                        assert(rv[i as int] == fs[k as int]);
                        if exists|q: int| 0 <= q < k && fs[q] == rv[i as int] {
                            let q = choose|q: int| 0 <= q < k && fs[q] == rv[i as int];
                            assert(fs[q] == col_simplex@.remove(q));
                            assert(fs[k as int] == col_simplex@.remove(k as int));
                            lemma_faces_distinct(col_simplex@, q, k as int);
                        }
                    }
                    column.set(i, next);
                    proof {
                        assert forall|r: int| 0 <= r < nrows implies #[trigger] column@[r] == (if exists|q: int| 0 <= q < k + 1 && fs[q] == rv[r] {
                            1i32
                        } else {
                            0i32
                        }) by {
                            if r != i {
                                if fs[k as int] == rv[r] {
                                    lemma_lex_irreflexive(rv[r]);
                                    if r < i {
                                        assert(lex_lt(rv[r], rv[i as int]));
                                    } else {
                                        assert(lex_lt(rv[i as int], rv[r]));
                                    }
                                }
                                if exists|q: int| 0 <= q < k + 1 && fs[q] == rv[r] {
                                    let q = choose|q: int| 0 <= q < k + 1 && fs[q] == rv[r];
                                    if q < k {
                                        assert(exists|q: int| 0 <= q < k && fs[q] == rv[r]);
                                    }
                                }
                            } else {
                                assert(fs[k as int] == rv[r]);
                            }
                        }
                    }
                } else {
                    proof {
                        assert forall|r: int| 0 <= r < nrows implies #[trigger] column@[r] == (if exists|q: int| 0 <= q < k + 1 && fs[q] == rv[r] {
                            1i32
                        } else {
                            0i32
                        }) by {
                            if exists|q: int| 0 <= q < k + 1 && fs[q] == rv[r] {
                                let q = choose|q: int| 0 <= q < k + 1 && fs[q] == rv[r];
                                if q == k {
                                    assert(rows@[r]@ == face@);
                                }
                                assert(exists|q: int| 0 <= q < k && fs[q] == rv[r]);
                            }
                        }
                    }
                }
                k = k + 1;
            }
            proof {
                assert forall|i: int| 0 <= i < nrows implies #[trigger] column@[i] == incidence(rv[i], cv[j as int]) by {
                    if fs.contains(rv[i]) {
                        let q = choose|q: int| 0 <= q < fs.len() && fs[q] == rv[i];
                    }
                }
            }
            columns.push(column);
            proof {
                assert forall|i: int, q: int| 0 <= i < nrows && 0 <= q < j + 1 implies #[trigger] columns@[q]@[i] == incidence(rv[i], cv[q]) by {}
            }
            j = j + 1;
        }
        let m = BoundaryMatrix { nrows, columns };
        proof {
            assert forall|i: int, q: int| 0 <= i < m.spec_nrows() && 0 <= q < m.spec_columns().len()
                implies #[trigger] m.spec_columns()[q][i] == incidence(rv[i], cv[q]) by {
                assert(m.spec_columns()[q] == columns@[q]@);
            }
        }
        m
    }
}

} // verus!
