//! The persistence pairing does not depend on the reduction: any two
//! reduced forms of a boundary matrix, obtained by adding earlier columns to
//! later ones, have the same lowest row in every column.
//!
//! The proof compares, for each prefix of the columns, the set of rows that
//! are the lowest row of some Z2 sum of those columns. This set depends only
//! on the matrix, and for a reduced form it is the set of lowest rows of its
//! own nonzero columns in that prefix.

use vstd::prelude::*;
use crate::order::{strictly_increasing, vset};
use crate::persistence::{
    sym_diff, xor_fold, combination_for, low_of, is_reduction, pairing, finite_pairs, essential_pairs, is_paired,
    lemma_xor_fold_concat, lemma_xor_fold_single,
};

verus! {

/// Sum over Z2 of the columns `c[k]` with `k < m` that `sel` picks.
pub open spec fn xor_upto(c: Seq<Set<usize>>, sel: spec_fn(int) -> bool, m: int) -> Set<usize>
    decreases m,
{
    if m <= 0 {
        Set::empty()
    } else if sel(m - 1) {
        sym_diff(xor_upto(c, sel, m - 1), c[m - 1])
    } else {
        xor_upto(c, sel, m - 1)
    }
}

/// `x` is a Z2 sum of some of the first `m` columns.
pub open spec fn in_span(c: Seq<Set<usize>>, m: int, x: Set<usize>) -> bool {
    exists|sel: spec_fn(int) -> bool| #[trigger] xor_upto(c, sel, m) == x
}

proof fn lemma_sym_diff_empty(a: Set<usize>)
    ensures
        sym_diff(a, Set::empty()) == a,
        sym_diff(Set::empty(), a) == a,
{
    assert(sym_diff(a, Set::empty()) =~= a);
    assert(sym_diff(Set::empty(), a) =~= a);
}

/// Two sums of picked columns add up to the sum of the columns picked by
/// exactly one of them.
proof fn lemma_xor_upto_add(c: Seq<Set<usize>>, s1: spec_fn(int) -> bool, s2: spec_fn(int) -> bool, m: int)
    ensures
        sym_diff(xor_upto(c, s1, m), xor_upto(c, s2, m)) == xor_upto(c, |k: int| s1(k) != s2(k), m),
    decreases m,
{
    let s3 = |k: int| s1(k) != s2(k);
    if m <= 0 {
        lemma_sym_diff_empty(Set::empty());
    } else {
        lemma_xor_upto_add(c, s1, s2, m - 1);
        let a = xor_upto(c, s1, m - 1);
        let b = xor_upto(c, s2, m - 1);
        let col = c[m - 1];
        assert(sym_diff(xor_upto(c, s1, m), xor_upto(c, s2, m)) =~= xor_upto(c, s3, m));
    }
}

/// The sum of the first `m` columns picked by a predicate that picks only
/// columns before `m0 <= m` is the sum up to `m0`.
proof fn lemma_xor_upto_prefix(c: Seq<Set<usize>>, sel: spec_fn(int) -> bool, m0: int, m: int)
    requires
        0 <= m0 <= m,
    ensures
        xor_upto(c, |k: int| sel(k) && k < m0, m) == xor_upto(c, sel, m0),
    decreases m,
{
    let s2 = |k: int| sel(k) && k < m0;
    if m == m0 {
        lemma_xor_upto_same(c, sel, s2, m);
    } else {
        lemma_xor_upto_prefix(c, sel, m0, m - 1);
    }
}

/// Predicates that agree below `m` give the same sum up to `m`.
proof fn lemma_xor_upto_same(c: Seq<Set<usize>>, s1: spec_fn(int) -> bool, s2: spec_fn(int) -> bool, m: int)
    requires
        forall|k: int| 0 <= k < m ==> #[trigger] s1(k) == s2(k),
    ensures
        xor_upto(c, s1, m) == xor_upto(c, s2, m),
    decreases m,
{
    if m > 0 {
        lemma_xor_upto_same(c, s1, s2, m - 1);
    }
}

/// Picking one column gives that column.
proof fn lemma_xor_upto_one(c: Seq<Set<usize>>, k: int, m: int)
    requires
        0 <= k,
    ensures
        xor_upto(c, |i: int| i == k, m) == (if k < m {
            c[k]
        } else {
            Set::<usize>::empty()
        }),
    decreases m,
{
    if m > 0 {
        lemma_xor_upto_one(c, k, m - 1);
        if m - 1 == k {
            lemma_sym_diff_empty(c[k]);
        }
    }
}

/// The empty set is a sum (of no columns).
proof fn lemma_span_empty(c: Seq<Set<usize>>, m: int)
    ensures
        in_span(c, m, Set::empty()),
    decreases m,
{
    let none = |k: int| false;
    assert(xor_upto(c, none, m) == Set::<usize>::empty()) by {
        lemma_xor_upto_none(c, m);
    }
}

proof fn lemma_xor_upto_none(c: Seq<Set<usize>>, m: int)
    ensures
        xor_upto(c, |k: int| false, m) == Set::<usize>::empty(),
    decreases m,
{
    if m > 0 {
        lemma_xor_upto_none(c, m - 1);
    }
}

/// Each of the first `m` columns is a sum.
proof fn lemma_span_column(c: Seq<Set<usize>>, k: int, m: int)
    requires
        0 <= k < m,
    ensures
        in_span(c, m, c[k]),
{
    lemma_xor_upto_one(c, k, m);
    let s = |i: int| i == k;
    assert(xor_upto(c, s, m) == c[k]);
}

/// Sums are closed under addition.
proof fn lemma_span_add(c: Seq<Set<usize>>, m: int, x: Set<usize>, y: Set<usize>)
    requires
        in_span(c, m, x),
        in_span(c, m, y),
    ensures
        in_span(c, m, sym_diff(x, y)),
{
    let s1 = choose|s: spec_fn(int) -> bool| #[trigger] xor_upto(c, s, m) == x;
    let s2 = choose|s: spec_fn(int) -> bool| #[trigger] xor_upto(c, s, m) == y;
    lemma_xor_upto_add(c, s1, s2, m);
    let s3 = |k: int| s1(k) != s2(k);
    assert(xor_upto(c, s3, m) == sym_diff(x, y));
}

/// A sum of the first `m0` columns is a sum of the first `m` columns, for
/// `m0 <= m`.
proof fn lemma_span_grow(c: Seq<Set<usize>>, m0: int, m: int, x: Set<usize>)
    requires
        0 <= m0 <= m,
        in_span(c, m0, x),
    ensures
        in_span(c, m, x),
{
    let s = choose|s: spec_fn(int) -> bool| #[trigger] xor_upto(c, s, m0) == x;
    lemma_xor_upto_prefix(c, s, m0, m);
    let s2 = |k: int| s(k) && k < m0;
    assert(xor_upto(c, s2, m) == x);
}

/// A fold of columns before `m` is a sum of the first `m` columns.
proof fn lemma_span_fold(c: Seq<Set<usize>>, ks: Seq<int>, m: int)
    requires
        forall|i: int| 0 <= i < ks.len() ==> 0 <= #[trigger] ks[i] < m,
    ensures
        in_span(c, m, xor_fold(c, ks)),
    decreases ks.len(),
{
    if ks.len() == 0 {
        lemma_span_empty(c, m);
    } else {
        let init = ks.drop_last();
        assert forall|i: int| 0 <= i < init.len() implies 0 <= #[trigger] init[i] < m by {
            assert(init[i] == ks[i]);
        }
        lemma_span_fold(c, init, m);
        assert(0 <= ks[ks.len() - 1] < m);
        lemma_span_column(c, ks.last(), m);
        lemma_span_add(c, m, xor_fold(c, init), c[ks.last()]);
    }
}


/// The columns of a reduced matrix as sets of rows.
pub open spec fn column_sets(r: Seq<Seq<usize>>) -> Seq<Set<usize>> {
    Seq::new(r.len(), |k: int| vset(r[k]))
}

/// Each reduced column is a sum of the columns of `d` up to its own.
proof fn lemma_reduced_in_span(d: Seq<Set<usize>>, r: Seq<Seq<usize>>, v: Seq<Seq<int>>, k: int)
    requires
        is_reduction(d, r, v),
        0 <= k < r.len(),
    ensures
        in_span(d, k + 1, vset(r[k])),
{
    assert(combination_for(v[k], k));
    assert forall|i: int| 0 <= i < v[k].len() implies 0 <= #[trigger] v[k][i] < k + 1 by {}
    lemma_span_fold(d, v[k], k + 1);
}

/// A fold of columns of `d`, each a sum of the first `m` reduced columns,
/// is itself such a sum.
proof fn lemma_fold_in_reduced_span(d: Seq<Set<usize>>, rc: Seq<Set<usize>>, ks: Seq<int>, m: int)
    requires
        forall|i: int| 0 <= i < ks.len() ==> in_span(rc, m, d[#[trigger] ks[i]]),
    ensures
        in_span(rc, m, xor_fold(d, ks)),
    decreases ks.len(),
{
    if ks.len() == 0 {
        lemma_span_empty(rc, m);
    } else {
        let init = ks.drop_last();
        assert forall|i: int| 0 <= i < init.len() implies in_span(rc, m, d[#[trigger] init[i]]) by {
            assert(init[i] == ks[i]);
        }
        lemma_fold_in_reduced_span(d, rc, init, m);
        assert(in_span(rc, m, d[ks[ks.len() - 1]]));
        lemma_span_add(rc, m, xor_fold(d, init), d[ks.last()]);
    }
}

/// Each column of `d` is a sum of the reduced columns up to its own.
proof fn lemma_column_in_reduced_span(d: Seq<Set<usize>>, r: Seq<Seq<usize>>, v: Seq<Seq<int>>, k: int)
    requires
        is_reduction(d, r, v),
        0 <= k < r.len(),
    ensures
        in_span(column_sets(r), k + 1, d[k]),
    decreases k,
{
    let rc = column_sets(r);
    let ks = v[k];
    assert(combination_for(ks, k));
    let rest = ks.drop_first();
    assert forall|i: int| 0 <= i < rest.len() implies in_span(rc, k, d[#[trigger] rest[i]]) by {
        let e = rest[i];
        assert(e == ks[i + 1]);
        assert(0 <= e < k);
        lemma_column_in_reduced_span(d, r, v, e);
        lemma_span_grow(rc, e + 1, k, d[e]);
    }
    lemma_fold_in_reduced_span(d, rc, rest, k);
    lemma_span_grow(rc, k, k + 1, xor_fold(d, rest));
    // the reduced column is the column plus the rest
    assert(ks =~= seq![k] + rest);
    lemma_xor_fold_concat(d, seq![k], rest);
    lemma_xor_fold_single(d, k);
    assert(rc[k] == vset(r[k]));
    assert(rc[k] == sym_diff(d[k], xor_fold(d, rest)));
    lemma_span_column(rc, k, k + 1);
    lemma_span_add(rc, k + 1, rc[k], xor_fold(d, rest));
    assert(sym_diff(rc[k], xor_fold(d, rest)) =~= d[k]);
}

/// Sums of columns of `d` up to `m` are sums of reduced columns up to `m`.
proof fn lemma_span_to_reduced(d: Seq<Set<usize>>, r: Seq<Seq<usize>>, v: Seq<Seq<int>>, sel: spec_fn(int) -> bool, m: int)
    requires
        is_reduction(d, r, v),
        0 <= m <= r.len(),
    ensures
        in_span(column_sets(r), m, xor_upto(d, sel, m)),
    decreases m,
{
    let rc = column_sets(r);
    if m == 0 {
        lemma_span_empty(rc, 0);
    } else {
        lemma_span_to_reduced(d, r, v, sel, m - 1);
        lemma_span_grow(rc, m - 1, m, xor_upto(d, sel, m - 1));
        if sel(m - 1) {
            lemma_column_in_reduced_span(d, r, v, m - 1);
            lemma_span_add(rc, m, xor_upto(d, sel, m - 1), d[m - 1]);
        }
    }
}

/// The largest lowest row among the nonzero reduced columns below `m` that
/// `sel` picks, if there is one.
pub open spec fn picked_top(r: Seq<Seq<usize>>, sel: spec_fn(int) -> bool, m: int) -> Option<usize>
    decreases m,
{
    if m <= 0 {
        None
    } else {
        let prev = picked_top(r, sel, m - 1);
        if sel(m - 1) && r[m - 1].len() > 0 {
            let l = r[m - 1].last();
            match prev {
                None => Some(l),
                Some(t) => Some(if t < l { l } else { t }),
            }
        } else {
            prev
        }
    }
}

/// `t` is the largest element of `x`.
pub open spec fn is_top(x: Set<usize>, t: usize) -> bool {
    x.contains(t) && forall|y: usize| #[trigger] x.contains(y) ==> y <= t
}

/// In a reduced matrix, a sum of picked columns is empty when no picked
/// column is nonzero, and otherwise its largest row is the largest lowest
/// row of the picked nonzero columns, which is the lowest row of one of them.
proof fn lemma_picked_sum_top(d: Seq<Set<usize>>, r: Seq<Seq<usize>>, v: Seq<Seq<int>>, sel: spec_fn(int) -> bool, m: int)
    requires
        is_reduction(d, r, v),
        0 <= m <= r.len(),
    ensures
        match picked_top(r, sel, m) {
            None => xor_upto(column_sets(r), sel, m) == Set::<usize>::empty(),
            Some(t) => is_top(xor_upto(column_sets(r), sel, m), t) && exists|k: int|
                0 <= k < m && r[k].len() > 0 && #[trigger] r[k].last() == t,
        },
    decreases m,
{
    let rc = column_sets(r);
    if m > 0 {
        lemma_picked_sum_top(d, r, v, sel, m - 1);
        let prev = xor_upto(rc, sel, m - 1);
        let col = rc[m - 1];
        assert(col == vset(r[m - 1]));
        if sel(m - 1) {
            if r[m - 1].len() == 0 {
                assert(col =~= Set::<usize>::empty());
                lemma_sym_diff_empty(prev);
            } else {
                let l = r[m - 1].last();
                assert(strictly_increasing(r[m - 1]));
                let rm = r[m - 1];
                assert(is_top(col, l)) by {
                    assert(rm[rm.len() - 1] == l);
                    assert forall|y: usize| #[trigger] col.contains(y) implies y <= l by {
                        let q = choose|q: int| 0 <= q < rm.len() && #[trigger] rm[q] == y;
                        if q < rm.len() - 1 {
                            assert(rm[q] < rm[rm.len() - 1]);
                        }
                    }
                }
                match picked_top(r, sel, m - 1) {
                    None => {
                        lemma_sym_diff_empty(col);
                    },
                    Some(t) => {
                        let k = choose|k: int| 0 <= k < m - 1 && r[k].len() > 0 && #[trigger] r[k].last() == t;
                        assert(r[k].last() != r[m - 1].last());
                        let x = sym_diff(prev, col);
                        if t < l {
                            assert(!prev.contains(l));
                            assert(is_top(x, l));
                        } else {
                            assert(!col.contains(t));
                            assert(is_top(x, t));
                        }
                    },
                }
            }
        }
    }
}

/// The rows that are the largest row of some nonzero sum of the first `m`
/// columns of `d`.
pub open spec fn top_rows(d: Seq<Set<usize>>, m: int) -> Set<usize> {
    Set::new(|i: usize| exists|x: Set<usize>| #[trigger] in_span(d, m, x) && is_top(x, i))
}

/// The lowest rows of the nonzero reduced columns below `m`.
pub open spec fn reduced_lows(r: Seq<Seq<usize>>, m: int) -> Set<usize> {
    Set::new(|i: usize| exists|k: int| 0 <= k < m && r[k].len() > 0 && #[trigger] r[k].last() == i)
}

/// For a reduction, the lowest rows of its nonzero columns below `m` are the
/// largest rows of the nonzero sums of the first `m` columns of `d`.
proof fn lemma_reduced_lows_are_top_rows(d: Seq<Set<usize>>, r: Seq<Seq<usize>>, v: Seq<Seq<int>>, m: int)
    requires
        is_reduction(d, r, v),
        0 <= m <= r.len(),
    ensures
        reduced_lows(r, m) == top_rows(d, m),
{
    let rc = column_sets(r);
    assert forall|i: usize| #[trigger] reduced_lows(r, m).contains(i) implies top_rows(d, m).contains(i) by {
        let k = choose|k: int| 0 <= k < m && r[k].len() > 0 && #[trigger] r[k].last() == i;
        lemma_reduced_in_span(d, r, v, k);
        lemma_span_grow(d, k + 1, m, vset(r[k]));
        let sel = |q: int| q == k;
        assert(picked_top(r, sel, m) == Some(i)) by {
            lemma_picked_top_one(r, k, m);
        }
        lemma_picked_sum_top(d, r, v, sel, m);
        lemma_xor_upto_one(rc, k, m);
        assert(rc[k] == vset(r[k]));
        assert(is_top(vset(r[k]), i));
    }
    assert forall|i: usize| #[trigger] top_rows(d, m).contains(i) implies reduced_lows(r, m).contains(i) by {
        let x = choose|x: Set<usize>| #[trigger] in_span(d, m, x) && is_top(x, i);
        let sel = choose|s: spec_fn(int) -> bool| #[trigger] xor_upto(d, s, m) == x;
        lemma_span_to_reduced(d, r, v, sel, m);
        let sel2 = choose|s: spec_fn(int) -> bool| #[trigger] xor_upto(rc, s, m) == x;
        lemma_picked_sum_top(d, r, v, sel2, m);
        match picked_top(r, sel2, m) {
            None => {
                assert(x.contains(i));
            },
            Some(t) => {
                assert(x.contains(t));
                assert(t <= i);
                assert(i <= t);
                let k = choose|k: int| 0 <= k < m && r[k].len() > 0 && #[trigger] r[k].last() == t;
            },
        }
    }
    assert(reduced_lows(r, m) =~= top_rows(d, m));
}

/// Picking one nonzero column gives its lowest row.
proof fn lemma_picked_top_one(r: Seq<Seq<usize>>, k: int, m: int)
    requires
        0 <= k < m,
        r[k].len() > 0,
    ensures
        picked_top(r, |q: int| q == k, m) == Some(r[k].last()),
    decreases m,
{
    if m - 1 > k {
        lemma_picked_top_one(r, k, m - 1);
    } else {
        lemma_picked_top_none(r, k, k);
    }
}

proof fn lemma_picked_top_none(r: Seq<Seq<usize>>, k: int, m: int)
    requires
        m <= k,
    ensures
        picked_top(r, |q: int| q == k, m) == None::<usize>,
    decreases m,
{
    if m > 0 {
        lemma_picked_top_none(r, k, m - 1);
    }
}

/// Any two reductions of the same matrix have the same lowest row (or none)
/// in every column.
pub proof fn lemma_reduction_lows_unique(
    d: Seq<Set<usize>>,
    r1: Seq<Seq<usize>>,
    v1: Seq<Seq<int>>,
    r2: Seq<Seq<usize>>,
    v2: Seq<Seq<int>>,
    j: int,
)
    requires
        is_reduction(d, r1, v1),
        is_reduction(d, r2, v2),
        0 <= j < d.len(),
    ensures
        low_of(r1[j]) == low_of(r2[j]),
{
    lemma_reduced_lows_are_top_rows(d, r1, v1, j);
    lemma_reduced_lows_are_top_rows(d, r1, v1, j + 1);
    lemma_reduced_lows_are_top_rows(d, r2, v2, j);
    lemma_reduced_lows_are_top_rows(d, r2, v2, j + 1);
    lemma_lows_step(r1, j);
    lemma_lows_step(r2, j);
    if r1[j].len() > 0 && r2[j].len() > 0 {
        assert(reduced_lows(r2, j + 1).contains(r1[j].last()));
    } else if r1[j].len() > 0 {
        assert(reduced_lows(r1, j + 1).contains(r1[j].last()));
    } else if r2[j].len() > 0 {
        assert(reduced_lows(r2, j + 1).contains(r2[j].last()));
    }
}

/// Adding column `j`: its lowest row, if any, joins the lows, and it is new.
proof fn lemma_lows_step(r: Seq<Seq<usize>>, j: int)
    requires
        0 <= j < r.len(),
        forall|k: int, q: int| 0 <= k < q < r.len() && r[k].len() > 0 && r[q].len() > 0
            ==> #[trigger] r[k].last() != #[trigger] r[q].last(),
    ensures
        r[j].len() == 0 ==> reduced_lows(r, j + 1) == reduced_lows(r, j),
        r[j].len() > 0 ==> reduced_lows(r, j + 1) == reduced_lows(r, j).insert(r[j].last()),
        r[j].len() > 0 ==> !reduced_lows(r, j).contains(r[j].last()),
{
    assert(reduced_lows(r, j + 1) =~= if r[j].len() > 0 {
        reduced_lows(r, j).insert(r[j].last())
    } else {
        reduced_lows(r, j)
    });
    if r[j].len() > 0 && reduced_lows(r, j).contains(r[j].last()) {
        let k = choose|k: int| 0 <= k < j && r[k].len() > 0 && #[trigger] r[k].last() == r[j].last();
        assert(r[k].last() != r[j].last());
    }
}


/// Reduced matrices with the same lowest rows give the same finite pairs.
proof fn lemma_finite_pairs_same(steps: Seq<Seq<usize>>, r1: Seq<Seq<usize>>, r2: Seq<Seq<usize>>, m: int)
    requires
        0 <= m <= r1.len(),
        r1.len() == r2.len(),
        forall|j: int| 0 <= j < r1.len() ==> #[trigger] low_of(r1[j]) == low_of(r2[j]),
    ensures
        finite_pairs(steps, r1, m) == finite_pairs(steps, r2, m),
    decreases m,
{
    if m > 0 {
        lemma_finite_pairs_same(steps, r1, r2, m - 1);
        assert(low_of(r1[m - 1]) == low_of(r2[m - 1]));
    }
}

/// Reduced matrices with the same lowest rows give the same essential
/// features.
proof fn lemma_essential_pairs_same(steps: Seq<Seq<usize>>, r1: Seq<Seq<usize>>, r2: Seq<Seq<usize>>, m: int)
    requires
        0 <= m <= r1.len(),
        r1.len() == r2.len(),
        forall|j: int| 0 <= j < r1.len() ==> #[trigger] low_of(r1[j]) == low_of(r2[j]),
    ensures
        essential_pairs(steps, r1, m) == essential_pairs(steps, r2, m),
    decreases m,
{
    if m > 0 {
        lemma_essential_pairs_same(steps, r1, r2, m - 1);
        let i = m - 1;
        assert(low_of(r1[i]) == low_of(r2[i]));
        assert(is_paired(r1, i) == is_paired(r2, i)) by {
            if exists|k: int| 0 <= k < r1.len() && low_of(#[trigger] r1[k]) == Some(i as usize) {
                let k = choose|k: int| 0 <= k < r1.len() && low_of(#[trigger] r1[k]) == Some(i as usize);
                assert(low_of(r2[k]) == Some(i as usize));
            }
            if exists|k: int| 0 <= k < r2.len() && low_of(#[trigger] r2[k]) == Some(i as usize) {
                let k = choose|k: int| 0 <= k < r2.len() && low_of(#[trigger] r2[k]) == Some(i as usize);
                assert(low_of(r1[k]) == Some(i as usize));
            }
        }
    }
}

/// The persistence pairs read off a reduced boundary matrix are the same
/// for every reduction of it.
pub proof fn lemma_pairing_unique(
    steps: Seq<Seq<usize>>,
    d: Seq<Set<usize>>,
    r1: Seq<Seq<usize>>,
    v1: Seq<Seq<int>>,
    r2: Seq<Seq<usize>>,
    v2: Seq<Seq<int>>,
)
    requires
        is_reduction(d, r1, v1),
        is_reduction(d, r2, v2),
    ensures
        pairing(steps, r1) == pairing(steps, r2),
{
    assert forall|j: int| 0 <= j < r1.len() implies #[trigger] low_of(r1[j]) == low_of(r2[j]) by {
        lemma_reduction_lows_unique(d, r1, v1, r2, v2, j);
    }
    lemma_finite_pairs_same(steps, r1, r2, r1.len() as int);
    lemma_essential_pairs_same(steps, r1, r2, r1.len() as int);
}

} // verus!
