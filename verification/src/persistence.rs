//! Persistent homology by reduction of the boundary matrix over Z2.
//!
//! A filtration is given as its simplices in filtration order; the
//! reduction pairs the step that gives birth to a feature with the step that
//! kills it. Filtration values themselves play no part in the reduction:
//! they are attached to the step indices afterwards.

use vstd::prelude::*;
use crate::order::{strictly_increasing, vset};
use crate::complex::{Simplex, views, spec_faces, spec_dim, insert_sorted};

verus! {

/// Symmetric difference of two sets.
pub open spec fn sym_diff(a: Set<usize>, b: Set<usize>) -> Set<usize> {
    Set::new(|x: usize| a.contains(x) != b.contains(x))
}

/// Merge of two sequences keeping the entries found in exactly one of them:
/// the result of merging two sorted vectors while dropping common entries.
pub open spec fn merge_sym_diff(a: Seq<usize>, b: Seq<usize>) -> Seq<usize>
    decreases a.len() + b.len(),
{
    if a.len() == 0 {
        b
    } else if b.len() == 0 {
        a
    } else if a[0] < b[0] {
        seq![a[0]] + merge_sym_diff(a.drop_first(), b)
    } else if a[0] > b[0] {
        seq![b[0]] + merge_sym_diff(a, b.drop_first())
    } else {
        merge_sym_diff(a.drop_first(), b.drop_first())
    }
}

/// Every entry of the merge comes from one of the two inputs.
pub proof fn lemma_merge_entries(a: Seq<usize>, b: Seq<usize>)
    ensures
        vset(merge_sym_diff(a, b)).subset_of(vset(a).union(vset(b))),
    decreases a.len() + b.len(),
{
    let m = merge_sym_diff(a, b);
    if a.len() == 0 || b.len() == 0 {
    } else if a[0] < b[0] {
        lemma_merge_entries(a.drop_first(), b);
        assert forall|x: usize| vset(m).contains(x) implies vset(a).union(vset(b)).contains(x) by {
            let k = choose|k: int| 0 <= k < m.len() && m[k] == x;
            if k > 0 {
                assert(vset(merge_sym_diff(a.drop_first(), b)).contains(m[k]));
                if vset(a.drop_first()).contains(x) {
                    let p = choose|p: int| 0 <= p < a.drop_first().len() && a.drop_first()[p] == x;
                    assert(a[p + 1] == x);
                }
            } else {
                assert(a[0] == x);
            }
        }
    } else if a[0] > b[0] {
        lemma_merge_entries(a, b.drop_first());
        assert forall|x: usize| vset(m).contains(x) implies vset(a).union(vset(b)).contains(x) by {
            let k = choose|k: int| 0 <= k < m.len() && m[k] == x;
            if k > 0 {
                assert(vset(merge_sym_diff(a, b.drop_first())).contains(m[k]));
                if vset(b.drop_first()).contains(x) {
                    let p = choose|p: int| 0 <= p < b.drop_first().len() && b.drop_first()[p] == x;
                    assert(b[p + 1] == x);
                }
            } else {
                assert(b[0] == x);
            }
        }
    } else {
        lemma_merge_entries(a.drop_first(), b.drop_first());
        assert forall|x: usize| vset(m).contains(x) implies vset(a).union(vset(b)).contains(x) by {
            if vset(a.drop_first()).contains(x) {
                let p = choose|p: int| 0 <= p < a.drop_first().len() && a.drop_first()[p] == x;
                assert(a[p + 1] == x);
            }
            if vset(b.drop_first()).contains(x) {
                let p = choose|p: int| 0 <= p < b.drop_first().len() && b.drop_first()[p] == x;
                assert(b[p + 1] == x);
            }
        }
    }
}

/// Merging two strictly increasing sequences gives the strictly increasing
/// sequence of their symmetric difference.
pub proof fn lemma_merge_sym_diff_sorted(a: Seq<usize>, b: Seq<usize>)
    requires
        strictly_increasing(a),
        strictly_increasing(b),
    ensures
        strictly_increasing(merge_sym_diff(a, b)),
        vset(merge_sym_diff(a, b)) == sym_diff(vset(a), vset(b)),
    decreases a.len() + b.len(),
{
    let m = merge_sym_diff(a, b);
    if a.len() == 0 {
        assert(vset(m) =~= sym_diff(vset(a), vset(b)));
    } else if b.len() == 0 {
        assert(vset(m) =~= sym_diff(vset(a), vset(b)));
    } else {
        let a1 = a.drop_first();
        let b1 = b.drop_first();
        assert(strictly_increasing(a1));
        assert(strictly_increasing(b1));
        if a[0] < b[0] {
            let rest = merge_sym_diff(a1, b);
            lemma_merge_sym_diff_sorted(a1, b);
            lemma_merge_entries(a1, b);
            assert forall|k: int| 0 <= k < rest.len() implies a[0] < #[trigger] rest[k] by {
                assert(vset(rest).contains(rest[k]));
                if vset(a1).contains(rest[k]) {
                    let p = choose|p: int| 0 <= p < a1.len() && a1[p] == rest[k];
                    assert(a[0] < a[p + 1]);
                } else {
                    let p = choose|p: int| 0 <= p < b.len() && b[p] == rest[k];
                    assert(b[0] <= b[p]);
                }
            }
            assert forall|i: int, j: int| 0 <= i < j < m.len() implies m[i] < m[j] by {
                if i > 0 {
                    assert(m[i] == rest[i - 1]);
                }
                assert(m[j] == rest[j - 1]);
            }
            assert forall|x: usize| vset(m).contains(x) <==> #[trigger] sym_diff(vset(a), vset(b)).contains(x) by {
                lemma_seq_cons_set(a);
                if x == a[0] {
                    assert(m[0] == x);
                    if vset(b).contains(x) {
                        let p = choose|p: int| 0 <= p < b.len() && b[p] == x;
                        assert(b[0] <= b[p]);
                    }
                    assert(!vset(a1).contains(x)) by {
                        if vset(a1).contains(x) {
                            let p = choose|p: int| 0 <= p < a1.len() && a1[p] == x;
                            assert(a[0] < a[p + 1]);
                        }
                    }
                } else {
                    if vset(m).contains(x) {
                        let k = choose|k: int| 0 <= k < m.len() && m[k] == x;
                        assert(k > 0);
                        assert(vset(rest).contains(rest[k - 1]));
                    }
                    if vset(rest).contains(x) {
                        let k = choose|k: int| 0 <= k < rest.len() && rest[k] == x;
                        assert(m[k + 1] == x);
                    }
                }
            }
            assert(vset(m) =~= sym_diff(vset(a), vset(b)));
        } else if a[0] > b[0] {
            let rest = merge_sym_diff(a, b1);
            lemma_merge_sym_diff_sorted(a, b1);
            lemma_merge_entries(a, b1);
            assert forall|k: int| 0 <= k < rest.len() implies b[0] < #[trigger] rest[k] by {
                assert(vset(rest).contains(rest[k]));
                if vset(b1).contains(rest[k]) {
                    let p = choose|p: int| 0 <= p < b1.len() && b1[p] == rest[k];
                    assert(b[0] < b[p + 1]);
                } else {
                    let p = choose|p: int| 0 <= p < a.len() && a[p] == rest[k];
                    assert(a[0] <= a[p]);
                }
            }
            assert forall|i: int, j: int| 0 <= i < j < m.len() implies m[i] < m[j] by {
                if i > 0 {
                    assert(m[i] == rest[i - 1]);
                }
                assert(m[j] == rest[j - 1]);
            }
            assert forall|x: usize| vset(m).contains(x) <==> #[trigger] sym_diff(vset(a), vset(b)).contains(x) by {
                lemma_seq_cons_set(b);
                if x == b[0] {
                    assert(m[0] == x);
                    if vset(a).contains(x) {
                        let p = choose|p: int| 0 <= p < a.len() && a[p] == x;
                        assert(a[0] <= a[p]);
                    }
                    assert(!vset(b1).contains(x)) by {
                        if vset(b1).contains(x) {
                            let p = choose|p: int| 0 <= p < b1.len() && b1[p] == x;
                            assert(b[0] < b[p + 1]);
                        }
                    }
                } else {
                    if vset(m).contains(x) {
                        let k = choose|k: int| 0 <= k < m.len() && m[k] == x;
                        assert(k > 0);
                        assert(vset(rest).contains(rest[k - 1]));
                    }
                    if vset(rest).contains(x) {
                        let k = choose|k: int| 0 <= k < rest.len() && rest[k] == x;
                        assert(m[k + 1] == x);
                    }
                }
            }
            assert(vset(m) =~= sym_diff(vset(a), vset(b)));
        } else {
            lemma_merge_sym_diff_sorted(a1, b1);
            assert forall|x: usize| vset(m).contains(x) <==> #[trigger] sym_diff(vset(a), vset(b)).contains(x) by {
                lemma_seq_cons_set(a);
                lemma_seq_cons_set(b);
                if x == a[0] {
                    assert(!vset(a1).contains(x)) by {
                        if vset(a1).contains(x) {
                            let p = choose|p: int| 0 <= p < a1.len() && a1[p] == x;
                            assert(a[0] < a[p + 1]);
                        }
                    }
                    assert(!vset(b1).contains(x)) by {
                        if vset(b1).contains(x) {
                            let p = choose|p: int| 0 <= p < b1.len() && b1[p] == x;
                            assert(b[0] < b[p + 1]);
                        }
                    }
                }
            }
            assert(vset(m) =~= sym_diff(vset(a), vset(b)));
        }
    }
}

/// The entries of a nonempty sequence are its first entry and the entries
/// of the rest.
proof fn lemma_seq_cons_set(a: Seq<usize>)
    requires
        a.len() > 0,
    ensures
        vset(a) == vset(a.drop_first()).insert(a[0]),
{
    assert forall|x: usize| vset(a).contains(x) <==> #[trigger] vset(a.drop_first()).insert(a[0]).contains(x) by {
        if vset(a).contains(x) && x != a[0] {
            let k = choose|k: int| 0 <= k < a.len() && a[k] == x;
            assert(a.drop_first()[k - 1] == x);
        }
        if vset(a.drop_first()).contains(x) {
            let k = choose|k: int| 0 <= k < a.drop_first().len() && a.drop_first()[k] == x;
            assert(a[k + 1] == x);
        }
        if x == a[0] {
            assert(a[0] == x);
        }
    }
    assert(vset(a) =~= vset(a.drop_first()).insert(a[0]));
}

/// Symmetric difference of two sorted vectors.
pub fn symmetric_difference(a: &[usize], b: &[usize]) -> (result: Vec<usize>)
    ensures
        result@ == merge_sym_diff(a@, b@),
        strictly_increasing(a@) && strictly_increasing(b@) ==> strictly_increasing(result@)
            && vset(result@) == sym_diff(vset(a@), vset(b@)),
{
    let mut result: Vec<usize> = Vec::new();
    let mut i: usize = 0;
    let mut j: usize = 0;
    assert(a@.skip(0) =~= a@);
    assert(b@.skip(0) =~= b@);
    while i < a.len() && j < b.len()
        invariant
            0 <= i <= a@.len(),
            0 <= j <= b@.len(),
            result@ + merge_sym_diff(a@.skip(i as int), b@.skip(j as int)) == merge_sym_diff(a@, b@),
        decreases a@.len() - i + b@.len() - j,
    {
        let ghost ra = a@.skip(i as int);
        let ghost rb = b@.skip(j as int);
        assert(ra.drop_first() =~= a@.skip(i + 1));
        assert(rb.drop_first() =~= b@.skip(j + 1));
        if a[i] < b[j] {
            assert(merge_sym_diff(ra, rb) == seq![ra[0]] + merge_sym_diff(ra.drop_first(), rb));
            result.push(a[i]);
            i = i + 1;
            assert(result@ + merge_sym_diff(a@.skip(i as int), b@.skip(j as int)) =~= merge_sym_diff(a@, b@));
        } else if a[i] > b[j] {
            assert(merge_sym_diff(ra, rb) == seq![rb[0]] + merge_sym_diff(ra, rb.drop_first()));
            result.push(b[j]);
            j = j + 1;
            assert(result@ + merge_sym_diff(a@.skip(i as int), b@.skip(j as int)) =~= merge_sym_diff(a@, b@));
        } else {
            i = i + 1;
            j = j + 1;
        }
    }
    while i < a.len()
        invariant
            0 <= i <= a@.len(),
            0 <= j <= b@.len(),
            i < a@.len() ==> j == b@.len(),
            result@ + merge_sym_diff(a@.skip(i as int), b@.skip(j as int)) == merge_sym_diff(a@, b@),
        decreases a@.len() - i,
    {
        let ghost ra = a@.skip(i as int);
        assert(b@.skip(j as int).len() == 0);
        assert(merge_sym_diff(ra, b@.skip(j as int)) == ra);
        result.push(a[i]);
        i = i + 1;
        assert(merge_sym_diff(a@.skip(i as int), b@.skip(j as int)) == a@.skip(i as int));
        assert(result@ + merge_sym_diff(a@.skip(i as int), b@.skip(j as int)) =~= merge_sym_diff(a@, b@));
    }
    while j < b.len()
        invariant
            i == a@.len(),
            0 <= j <= b@.len(),
            result@ + merge_sym_diff(a@.skip(i as int), b@.skip(j as int)) == merge_sym_diff(a@, b@),
        decreases b@.len() - j,
    {
        let ghost rb = b@.skip(j as int);
        assert(a@.skip(i as int).len() == 0);
        assert(merge_sym_diff(a@.skip(i as int), rb) == rb);
        result.push(b[j]);
        j = j + 1;
        assert(merge_sym_diff(a@.skip(i as int), b@.skip(j as int)) == b@.skip(j as int));
        assert(result@ + merge_sym_diff(a@.skip(i as int), b@.skip(j as int)) =~= merge_sym_diff(a@, b@));
    }
    assert(a@.skip(i as int).len() == 0);
    assert(b@.skip(j as int).len() == 0);
    assert(merge_sym_diff(a@.skip(i as int), b@.skip(j as int)) == b@.skip(j as int));
    assert(result@ =~= merge_sym_diff(a@, b@));
    proof {
        if strictly_increasing(a@) && strictly_increasing(b@) {
            lemma_merge_sym_diff_sorted(a@, b@);
        }
    }
    result
}

/// Index of the last step whose simplex is `t`, if any.
pub open spec fn last_index_of(steps: Seq<Seq<usize>>, t: Seq<usize>) -> Option<int>
    decreases steps.len(),
{
    if steps.len() == 0 {
        None
    } else if steps.last() == t {
        Some(steps.len() - 1)
    } else {
        last_index_of(steps.drop_last(), t)
    }
}

/// What `last_index_of` finds is a step holding `t`, and later steps do not.
proof fn lemma_last_index_of(steps: Seq<Seq<usize>>, t: Seq<usize>)
    ensures
        match last_index_of(steps, t) {
            Some(i) => 0 <= i < steps.len() && steps[i] == t && forall|k: int| i < k < steps.len() ==> steps[k] != t,
            None => forall|k: int| 0 <= k < steps.len() ==> steps[k] != t,
        },
    decreases steps.len(),
{
    if steps.len() > 0 && steps.last() != t {
        lemma_last_index_of(steps.drop_last(), t);
        assert(forall|k: int| 0 <= k < steps.len() - 1 ==> steps.drop_last()[k] == steps[k]);
    }
}

/// Boundary of step `j` over Z2: the steps holding the codimension-1 faces
/// of its simplex (the last such step where a face occurs more than once).
pub open spec fn boundary_set(steps: Seq<Seq<usize>>, j: int) -> Set<usize> {
    Set::new(|i: usize| exists|k: int| 0 <= k < spec_faces(steps[j]).len()
        && last_index_of(steps, #[trigger] spec_faces(steps[j])[k]) == Some(i as int))
}

/// The boundary matrix of the filtration, column by column.
pub open spec fn boundary_sets(steps: Seq<Seq<usize>>) -> Seq<Set<usize>> {
    Seq::new(steps.len(), |j: int| boundary_set(steps, j))
}

/// Z2 sum of the columns `d[ks[0]], d[ks[1]], ...`.
pub open spec fn xor_fold(d: Seq<Set<usize>>, ks: Seq<int>) -> Set<usize>
    decreases ks.len(),
{
    if ks.len() == 0 {
        Set::empty()
    } else {
        sym_diff(xor_fold(d, ks.drop_last()), d[ks.last()])
    }
}

/// `ks` names column `j` followed by columns before it: the sum it gives
/// is column `j` plus a combination of earlier columns.
pub open spec fn combination_for(ks: Seq<int>, j: int) -> bool {
    &&& ks.len() >= 1
    &&& ks[0] == j
    &&& forall|i: int| 1 <= i < ks.len() ==> 0 <= #[trigger] ks[i] < j
}

/// Lowest (largest) row index of a sorted column, if it is not empty.
pub open spec fn low_of(s: Seq<usize>) -> Option<usize> {
    if s.len() == 0 {
        None
    } else {
        Some(s.last())
    }
}

/// `r` is a reduced form of the matrix `d`, through the combinations `v`:
/// each column of `r` is sorted and equals its own column of `d` plus earlier
/// columns of `d` (over Z2), and no two nonzero columns of `r` share their
/// lowest row.
pub open spec fn is_reduction(d: Seq<Set<usize>>, r: Seq<Seq<usize>>, v: Seq<Seq<int>>) -> bool {
    &&& r.len() == d.len()
    &&& v.len() == d.len()
    &&& forall|j: int| 0 <= j < r.len() ==> strictly_increasing(#[trigger] r[j])
    &&& forall|j: int| 0 <= j < r.len() ==> combination_for(#[trigger] v[j], j)
    &&& forall|j: int| 0 <= j < r.len() ==> vset(#[trigger] r[j]) == xor_fold(d, v[j])
    &&& forall|k: int, j: int| 0 <= k < j < r.len() && r[k].len() > 0 && r[j].len() > 0
        ==> #[trigger] r[k].last() != #[trigger] r[j].last()
}

pub(crate) proof fn lemma_sym_diff_assoc(a: Set<usize>, b: Set<usize>, c: Set<usize>)
    ensures
        sym_diff(sym_diff(a, b), c) == sym_diff(a, sym_diff(b, c)),
{
    assert(sym_diff(sym_diff(a, b), c) =~= sym_diff(a, sym_diff(b, c)));
}

/// Summing the columns of `a` then those of `b` is the sum of the two sums.
pub(crate) proof fn lemma_xor_fold_concat(d: Seq<Set<usize>>, a: Seq<int>, b: Seq<int>)
    ensures
        xor_fold(d, a + b) == sym_diff(xor_fold(d, a), xor_fold(d, b)),
    decreases b.len(),
{
    if b.len() == 0 {
        assert(a + b =~= a);
        assert(sym_diff(xor_fold(d, a), Set::empty()) =~= xor_fold(d, a));
    } else {
        let b1 = b.drop_last();
        assert((a + b).drop_last() =~= a + b1);
        assert((a + b).last() == b.last());
        lemma_xor_fold_concat(d, a, b1);
        lemma_sym_diff_assoc(xor_fold(d, a), xor_fold(d, b1), d[b.last()]);
    }
}

/// A single column sums to itself.
pub(crate) proof fn lemma_xor_fold_single(d: Seq<Set<usize>>, j: int)
    ensures
        xor_fold(d, seq![j]) == d[j],
{
    reveal_with_fuel(xor_fold, 2);
    assert(seq![j].drop_last() =~= Seq::<int>::empty());
    assert(seq![j].last() == j);
    assert(sym_diff(Set::empty(), d[j]) =~= d[j]);
}

/// The step at which simplex `t` last occurs, if any.
pub fn find_last(steps: &Vec<Simplex>, t: &Simplex) -> (r: Option<usize>)
    ensures
        match r {
            Some(i) => last_index_of(views(steps@), t@) == Some(i as int),
            None => last_index_of(views(steps@), t@) is None,
        },
{
    let ghost all = views(steps@);
    let mut i: usize = steps.len();
    assert(all.take(i as int) =~= all);
    while i > 0
        invariant
            0 <= i <= steps@.len(),
            all == views(steps@),
            last_index_of(all, t@) == last_index_of(all.take(i as int), t@),
        decreases i,
    {
        let ghost pre = all.take(i as int);
        assert(pre.drop_last() =~= all.take(i - 1));
        assert(pre.last() == steps@[i - 1]@);
        if steps[i - 1].compare(t) == crate::complex::Cmp::Equal {
            return Some(i - 1);
        }
        i = i - 1;
    }
    None
}

/// Column `j` of the boundary matrix, as a sorted vector of step indices.
pub fn boundary_column(steps: &Vec<Simplex>, j: usize) -> (col: Vec<usize>)
    requires
        j < steps@.len(),
    ensures
        strictly_increasing(col@),
        vset(col@) == boundary_set(views(steps@), j as int),
        forall|k: int| 0 <= k < col@.len() ==> #[trigger] col@[k] < steps@.len(),
{
    let ghost all = views(steps@);
    let faces = steps[j].faces();
    let ghost fs = spec_faces(all[j as int]);
    let mut col: Vec<usize> = Vec::new();
    let mut k: usize = 0;
    while k < faces.len()
        invariant
            0 <= k <= faces@.len(),
            all == views(steps@),
            j < steps@.len(),
            fs == spec_faces(all[j as int]),
            faces@.len() == fs.len(),
            forall|m: int| 0 <= m < faces@.len() ==> #[trigger] faces@[m]@ == fs[m],
            strictly_increasing(col@),
            forall|x: usize| vset(col@).contains(x) <==> exists|m: int| 0 <= m < k
                && last_index_of(all, #[trigger] fs[m]) == Some(x as int),
            forall|m: int| 0 <= m < col@.len() ==> #[trigger] col@[m] < steps@.len(),
        decreases faces@.len() - k,
    {
        let found = find_last(steps, &faces[k]);
        proof {
            lemma_last_index_of(all, fs[k as int]);
        }
        match found {
            Some(i) => {
                let ghost before = col@;
                insert_sorted(&mut col, i);
                assert forall|m: int| 0 <= m < col@.len() implies #[trigger] col@[m] < steps@.len() by {
                    assert(vset(col@).contains(col@[m]));
                    if col@[m] != i {
                        assert(vset(before).contains(col@[m]));
                        let p = choose|p: int| 0 <= p < before.len() && before[p] == col@[m];
                    }
                }
                assert forall|x: usize| vset(col@).contains(x) <==> exists|m: int| 0 <= m < k + 1
                    && last_index_of(all, #[trigger] fs[m]) == Some(x as int) by {
                    if vset(col@).contains(x) && x != i {
                        assert(vset(before).contains(x));
                    }
                    if exists|m: int| 0 <= m < k + 1 && last_index_of(all, #[trigger] fs[m]) == Some(x as int) {
                        let m = choose|m: int| 0 <= m < k + 1 && last_index_of(all, #[trigger] fs[m]) == Some(x as int);
                        if m < k {
                            assert(vset(before).contains(x));
                        }
                    }
                }
            },
            None => {
                assert forall|x: usize| vset(col@).contains(x) <==> exists|m: int| 0 <= m < k + 1
                    && last_index_of(all, #[trigger] fs[m]) == Some(x as int) by {
                    if exists|m: int| 0 <= m < k + 1 && last_index_of(all, #[trigger] fs[m]) == Some(x as int) {
                        let m = choose|m: int| 0 <= m < k + 1 && last_index_of(all, #[trigger] fs[m]) == Some(x as int);
                        assert(m != k);
                    }
                }
            },
        }
        k = k + 1;
    }
    assert(vset(col@) =~= boundary_set(all, j as int));
    col
}

/// The columns of a matrix held as sorted vectors.
pub open spec fn col_views(cols: Seq<Vec<usize>>) -> Seq<Seq<usize>> {
    Seq::new(cols.len(), |j: int| cols[j]@)
}

/// The columns of a matrix held as sorted vectors, as sets of row indices.
pub open spec fn col_sets(cols: Seq<Vec<usize>>) -> Seq<Set<usize>> {
    Seq::new(cols.len(), |j: int| vset(cols[j]@))
}

/// Adding two sorted columns with the same lowest row leaves a column whose
/// lowest row, if any, is higher.
proof fn lemma_low_drops(a: Seq<usize>, b: Seq<usize>)
    requires
        strictly_increasing(a),
        strictly_increasing(b),
        a.len() > 0,
        b.len() > 0,
        a.last() == b.last(),
    ensures
        merge_sym_diff(a, b).len() == 0 || merge_sym_diff(a, b).last() < a.last(),
{
    let m = merge_sym_diff(a, b);
    lemma_merge_sym_diff_sorted(a, b);
    if m.len() > 0 {
        let x = m.last();
        assert(vset(m).contains(x));
        assert(sym_diff(vset(a), vset(b)).contains(x));
        assert(vset(a).contains(a.last()));
        assert(vset(b).contains(b.last()));
        if vset(a).contains(x) {
            let p = choose|p: int| 0 <= p < a.len() && a[p] == x;
            if p < a.len() - 1 {
                assert(a[p] < a[a.len() - 1]);
            }
        } else {
            let p = choose|p: int| 0 <= p < b.len() && b[p] == x;
            if p < b.len() - 1 {
                assert(b[p] < b[b.len() - 1]);
            }
        }
    }
}

/// Lowest row of a sorted column, if it is not empty.
fn column_low(col: &Vec<usize>) -> (l: Option<usize>)
    ensures
        l == low_of(col@),
{
    if col.len() == 0 {
        None
    } else {
        Some(col[col.len() - 1])
    }
}

/// Whether a column's lowest row is `l`.
fn low_is(low: &Option<usize>, l: usize) -> (b: bool)
    ensures
        b == (*low == Some(l)),
{
    match low {
        Some(x) => *x == l,
        None => false,
    }
}

/// Standard reduction: working through the columns from left to right, add
/// to the current column the earliest column with the same lowest row,
/// until no earlier column shares its lowest row or it becomes zero.
pub fn reduce_columns(boundary: Vec<Vec<usize>>) -> (reduced: Vec<Vec<usize>>)
    requires
        forall|j: int| 0 <= j < boundary@.len() ==> strictly_increasing(#[trigger] boundary@[j]@),
        forall|j: int, k: int| 0 <= j < boundary@.len() && 0 <= k < boundary@[j]@.len()
            ==> #[trigger] boundary@[j]@[k] < boundary@.len(),
    ensures
        exists|v: Seq<Seq<int>>| is_reduction(col_sets(boundary@), col_views(reduced@), v),
        forall|j: int, k: int| 0 <= j < reduced@.len() && 0 <= k < reduced@[j]@.len()
            ==> #[trigger] reduced@[j]@[k] < reduced@.len(),
{
    let n = boundary.len();
    let ghost d = col_sets(boundary@);
    let mut lows: Vec<Option<usize>> = Vec::new();
    let mut i: usize = 0;
    while i < n
        invariant
            n == boundary@.len(),
            0 <= i <= n,
            lows@.len() == i,
            forall|c: int| 0 <= c < i ==> #[trigger] lows@[c] == low_of(boundary@[c]@),
        decreases n - i,
    {
        lows.push(column_low(&boundary[i]));
        i = i + 1;
    }
    let mut cols = boundary;
    let ghost mut v: Seq<Seq<int>> = Seq::new(n as nat, |c: int| seq![c]);
    proof {
        assert forall|c: int| 0 <= c < n implies vset(#[trigger] cols@[c]@) == xor_fold(d, v[c]) by {
            lemma_xor_fold_single(d, c);
        }
    }
    let mut j: usize = 0;
    while j < n
        invariant
            n == cols@.len(),
            n == lows@.len(),
            n == d.len(),
            v.len() == n,
            0 <= j <= n,
            forall|c: int| 0 <= c < n ==> strictly_increasing(#[trigger] cols@[c]@),
            forall|c: int| 0 <= c < n ==> #[trigger] lows@[c] == low_of(cols@[c]@),
            forall|c: int, k: int| 0 <= c < n && 0 <= k < cols@[c]@.len() ==> #[trigger] cols@[c]@[k] < n,
            forall|c: int| 0 <= c < n ==> combination_for(#[trigger] v[c], c),
            forall|c: int| 0 <= c < n ==> vset(#[trigger] cols@[c]@) == xor_fold(d, v[c]),
            forall|a: int, b: int| 0 <= a < b < j && lows@[a] is Some && lows@[b] is Some
                ==> #[trigger] lows@[a] != #[trigger] lows@[b],
        decreases n - j,
    {
        loop
            invariant
                n == cols@.len(),
                n == lows@.len(),
                n == d.len(),
                v.len() == n,
                0 <= j < n,
                forall|c: int| 0 <= c < n ==> strictly_increasing(#[trigger] cols@[c]@),
                forall|c: int| 0 <= c < n ==> #[trigger] lows@[c] == low_of(cols@[c]@),
                forall|c: int, k: int| 0 <= c < n && 0 <= k < cols@[c]@.len() ==> #[trigger] cols@[c]@[k] < n,
                forall|c: int| 0 <= c < n ==> combination_for(#[trigger] v[c], c),
                forall|c: int| 0 <= c < n ==> vset(#[trigger] cols@[c]@) == xor_fold(d, v[c]),
                forall|a: int, b: int| 0 <= a < b < j && lows@[a] is Some && lows@[b] is Some
                    ==> #[trigger] lows@[a] != #[trigger] lows@[b],
            ensures
                n == cols@.len(),
                n == lows@.len(),
                v.len() == n,
                forall|c: int| 0 <= c < n ==> strictly_increasing(#[trigger] cols@[c]@),
                forall|c: int| 0 <= c < n ==> #[trigger] lows@[c] == low_of(cols@[c]@),
                forall|c: int, k: int| 0 <= c < n && 0 <= k < cols@[c]@.len() ==> #[trigger] cols@[c]@[k] < n,
                forall|c: int| 0 <= c < n ==> combination_for(#[trigger] v[c], c),
                forall|c: int| 0 <= c < n ==> vset(#[trigger] cols@[c]@) == xor_fold(d, v[c]),
                forall|a: int, b: int| 0 <= a < b < j + 1 && lows@[a] is Some && lows@[b] is Some
                    ==> #[trigger] lows@[a] != #[trigger] lows@[b],
            decreases (match lows@[j as int] {
                Some(l) => l + 1,
                None => 0,
            }),
        {
            let l = match lows[j] {
                Some(l) => l,
                None => break,
            };
            let mut k: usize = 0;
            while k < j && !low_is(&lows[k], l)
                invariant
                    0 <= k <= j,
                    j < n,
                    n == lows@.len(),
                    forall|c: int| 0 <= c < k ==> #[trigger] lows@[c] != Some(l),
                decreases j - k,
            {
                k = k + 1;
            }
            if k == j {
                break;
            }
            let ghost cj = cols@[j as int]@;
            let ghost ck = cols@[k as int]@;
            let new_col = symmetric_difference(cols[j].as_slice(), cols[k].as_slice());
            proof {
                lemma_low_drops(cj, ck);
                lemma_merge_entries(cj, ck);
                lemma_xor_fold_concat(d, v[j as int], v[k as int]);
                assert forall|x: int| 0 <= x < new_col@.len() implies #[trigger] new_col@[x] < n by {
                    assert(vset(new_col@).contains(new_col@[x]));
                    if vset(cj).contains(new_col@[x]) {
                        let p = choose|p: int| 0 <= p < cj.len() && cj[p] == new_col@[x];
                    } else {
                        let p = choose|p: int| 0 <= p < ck.len() && ck[p] == new_col@[x];
                    }
                }
                let nv = v[j as int] + v[k as int];
                assert forall|q: int| 1 <= q < nv.len() implies 0 <= #[trigger] nv[q] < j by {
                    if q >= v[j as int].len() {
                        let qq = q - v[j as int].len();
                        if qq >= 1 {
                            assert(v[k as int][qq] < k);
                        }
                    }
                }
                v = v.update(j as int, nv);
            }
            let new_low = column_low(&new_col);
            cols.set(j, new_col);
            lows.set(j, new_low);
        }
        j = j + 1;
    }
    proof {
        assert(is_reduction(d, col_views(cols@), v)) by {
            let r = col_views(cols@);
            assert forall|a: int, b: int| 0 <= a < b < r.len() && r[a].len() > 0 && r[b].len() > 0
                implies #[trigger] r[a].last() != #[trigger] r[b].last() by {
                assert(lows@[a] == low_of(cols@[a]@));
                assert(lows@[b] == low_of(cols@[b]@));
            }
            assert forall|c: int| 0 <= c < r.len() implies vset(#[trigger] r[c]) == xor_fold(d, v[c]) by {
                assert(r[c] == cols@[c]@);
            }
        }
    }
    cols
}

/// A persistence pair by filtration step: the feature is born at step
/// `birth` and dies at step `death`, or never when `death` is `None`.
#[derive(Debug, Clone, Copy, PartialEq, Eq, Structural)]
pub struct PersistenceIndexPair {
    pub dim: usize,
    pub birth: usize,
    pub death: Option<usize>,
}

/// The pairs found in the first `m` reduced columns: column `j` with lowest
/// row `l` kills at step `j` the feature born at step `l`.
pub open spec fn finite_pairs(steps: Seq<Seq<usize>>, r: Seq<Seq<usize>>, m: int) -> Seq<PersistenceIndexPair>
    decreases m,
{
    if m <= 0 {
        Seq::empty()
    } else {
        let prev = finite_pairs(steps, r, m - 1);
        match low_of(r[m - 1]) {
            Some(l) => prev.push(PersistenceIndexPair {
                dim: spec_dim(steps[l as int]) as usize,
                birth: l,
                death: Some((m - 1) as usize),
            }),
            None => prev,
        }
    }
}

/// Step `i` takes part in a finite pair: its reduced column is nonzero, or
/// it is the lowest row of some reduced column.
pub open spec fn is_paired(r: Seq<Seq<usize>>, i: int) -> bool {
    r[i].len() > 0 || exists|k: int| 0 <= k < r.len() && low_of(#[trigger] r[k]) == Some(i as usize)
}

/// The steps among the first `m` that take part in no finite pair: features
/// that never die.
pub open spec fn essential_pairs(steps: Seq<Seq<usize>>, r: Seq<Seq<usize>>, m: int) -> Seq<PersistenceIndexPair>
    decreases m,
{
    if m <= 0 {
        Seq::empty()
    } else {
        let prev = essential_pairs(steps, r, m - 1);
        if is_paired(r, m - 1) {
            prev
        } else {
            prev.push(PersistenceIndexPair {
                dim: spec_dim(steps[m - 1]) as usize,
                birth: (m - 1) as usize,
                death: None,
            })
        }
    }
}

/// The persistence diagram read off a reduced matrix: the finite pairs in
/// the order of their death steps, then the essential features in the order
/// of their birth steps.
pub open spec fn pairing(steps: Seq<Seq<usize>>, r: Seq<Seq<usize>>) -> Seq<PersistenceIndexPair> {
    finite_pairs(steps, r, r.len() as int) + essential_pairs(steps, r, r.len() as int)
}

/// Read the persistence pairs off the reduced matrix.
pub fn extract_pairs(steps: &Vec<Simplex>, reduced: &Vec<Vec<usize>>) -> (pairs: Vec<PersistenceIndexPair>)
    requires
        reduced@.len() == steps@.len(),
        forall|j: int| 0 <= j < reduced@.len() ==> strictly_increasing(#[trigger] reduced@[j]@),
        forall|j: int, k: int| 0 <= j < reduced@.len() && 0 <= k < reduced@[j]@.len()
            ==> #[trigger] reduced@[j]@[k] < reduced@.len(),
    ensures
        pairs@ == pairing(views(steps@), col_views(reduced@)),
{
    let n = reduced.len();
    let ghost st = views(steps@);
    let ghost r = col_views(reduced@);
    let mut paired: Vec<bool> = Vec::new();
    let mut i: usize = 0;
    while i < n
        invariant
            0 <= i <= n,
            paired@.len() == i,
            forall|c: int| 0 <= c < i ==> !#[trigger] paired@[c],
        decreases n - i,
    {
        paired.push(false);
        i = i + 1;
    }
    let mut pairs: Vec<PersistenceIndexPair> = Vec::new();
    let mut j: usize = 0;
    while j < n
        invariant
            n == reduced@.len(),
            n == steps@.len(),
            st == views(steps@),
            r == col_views(reduced@),
            0 <= j <= n,
            paired@.len() == n,
            forall|c: int| 0 <= c < reduced@.len() ==> strictly_increasing(#[trigger] reduced@[c]@),
            forall|c: int, k: int| 0 <= c < reduced@.len() && 0 <= k < reduced@[c]@.len()
                ==> #[trigger] reduced@[c]@[k] < reduced@.len(),
            forall|c: int| 0 <= c < n ==> #[trigger] paired@[c] == ((c < j && r[c].len() > 0)
                || exists|k: int| 0 <= k < j && low_of(#[trigger] r[k]) == Some(c as usize)),
            pairs@ == finite_pairs(st, r, j as int),
        decreases n - j,
    {
        assert(r[j as int] == reduced@[j as int]@);
        match column_low(&reduced[j]) {
            Some(l) => {
                assert(reduced@[j as int]@.last() < n);
                paired.set(l, true);
                paired.set(j, true);
                let d = steps[l].dim();
                pairs.push(PersistenceIndexPair { dim: d, birth: l, death: Some(j) });
            },
            None => {},
        }
        assert forall|c: int| 0 <= c < n implies #[trigger] paired@[c] == ((c < j + 1 && r[c].len() > 0)
            || exists|k: int| 0 <= k < j + 1 && low_of(#[trigger] r[k]) == Some(c as usize)) by {
            if exists|k: int| 0 <= k < j + 1 && low_of(#[trigger] r[k]) == Some(c as usize) {
                let k = choose|k: int| 0 <= k < j + 1 && low_of(#[trigger] r[k]) == Some(c as usize);
                if k < j {
                    assert(exists|k: int| 0 <= k < j && low_of(#[trigger] r[k]) == Some(c as usize));
                }
            }
        }
        j = j + 1;
    }
    assert forall|c: int| 0 <= c < n implies #[trigger] paired@[c] == is_paired(r, c) by {}
    let mut e: usize = 0;
    let ghost fin = pairs@;
    while e < n
        invariant
            n == steps@.len(),
            n == reduced@.len(),
            st == views(steps@),
            r == col_views(reduced@),
            0 <= e <= n,
            paired@.len() == n,
            forall|c: int| 0 <= c < n ==> #[trigger] paired@[c] == is_paired(r, c),
            fin == finite_pairs(st, r, n as int),
            pairs@ == fin + essential_pairs(st, r, e as int),
        decreases n - e,
    {
        if !paired[e] {
            let d = steps[e].dim();
            pairs.push(PersistenceIndexPair { dim: d, birth: e, death: None });
            assert(pairs@ =~= fin + essential_pairs(st, r, e + 1));
        } else {
            assert(pairs@ =~= fin + essential_pairs(st, r, e + 1));
        }
        e = e + 1;
    }
    pairs
}

/// Compute persistent homology of a filtration given by its simplices in
/// filtration order: build the boundary matrix, reduce it, and read off the
/// pairs. A reduced form exists, and the result is the pairing of every
/// reduced form of the boundary matrix (they all give the same pairs).
pub fn compute_persistence_pairs(steps: &Vec<Simplex>) -> (pairs: Vec<PersistenceIndexPair>)
    ensures
        exists|r: Seq<Seq<usize>>, v: Seq<Seq<int>>| is_reduction(boundary_sets(views(steps@)), r, v),
        forall|r: Seq<Seq<usize>>, v: Seq<Seq<int>>|
            #[trigger] is_reduction(boundary_sets(views(steps@)), r, v) ==> pairs@ == pairing(views(steps@), r),
{
    let n = steps.len();
    let mut boundary: Vec<Vec<usize>> = Vec::new();
    let mut j: usize = 0;
    while j < n
        invariant
            n == steps@.len(),
            0 <= j <= n,
            boundary@.len() == j,
            forall|c: int| 0 <= c < j ==> strictly_increasing(#[trigger] boundary@[c]@),
            forall|c: int| 0 <= c < j ==> vset(#[trigger] boundary@[c]@) == boundary_set(views(steps@), c),
            forall|c: int, k: int| 0 <= c < j && 0 <= k < boundary@[c]@.len() ==> #[trigger] boundary@[c]@[k] < n,
        decreases n - j,
    {
        let col = boundary_column(steps, j);
        boundary.push(col);
        j = j + 1;
    }
    assert(col_sets(boundary@) =~= boundary_sets(views(steps@)));
    let reduced = reduce_columns(boundary);
    proof {
        let v = choose|v: Seq<Seq<int>>| is_reduction(boundary_sets(views(steps@)), col_views(reduced@), v);
        assert forall|c: int| 0 <= c < reduced@.len() implies strictly_increasing(#[trigger] reduced@[c]@) by {
            assert(col_views(reduced@)[c] == reduced@[c]@);
        }
    }
    let pairs = extract_pairs(steps, &reduced);
    proof {
        let d = boundary_sets(views(steps@));
        let v = choose|v: Seq<Seq<int>>| is_reduction(d, col_views(reduced@), v);
        assert(is_reduction(d, col_views(reduced@), v));
        assert forall|r: Seq<Seq<usize>>, v2: Seq<Seq<int>>| #[trigger] is_reduction(d, r, v2) implies pairs@ == pairing(
            views(steps@),
            r,
        ) by {
            crate::pairing::lemma_pairing_unique(views(steps@), d, col_views(reduced@), v, r, v2);
        }
    }
    pairs
}


/// Every face of each simplex that occurs in the filtration occurs (for the
/// last time) at an earlier step: the filtration is a growing sequence of
/// complexes.
pub open spec fn faces_come_first(steps: Seq<Seq<usize>>) -> bool {
    forall|j: int, k: int|
        0 <= j < steps.len() && 0 <= k < spec_faces(steps[j]).len() ==> match last_index_of(
            steps,
            #[trigger] spec_faces(steps[j])[k],
        ) {
            Some(i) => i < j,
            None => true,
        }
}

/// An entry of a sum of columns lies in one of the columns summed.
proof fn lemma_xor_fold_entry(d: Seq<Set<usize>>, ks: Seq<int>, x: usize)
    requires
        xor_fold(d, ks).contains(x),
    ensures
        exists|q: int| 0 <= q < ks.len() && (#[trigger] d[ks[q]]).contains(x),
    decreases ks.len(),
{
    if ks.len() > 0 {
        let last = ks.len() - 1;
        if !d[ks[last]].contains(x) {
            lemma_xor_fold_entry(d, ks.drop_last(), x);
            let q = choose|q: int| 0 <= q < ks.drop_last().len() && (#[trigger] d[ks.drop_last()[q]]).contains(x);
            assert(ks.drop_last()[q] == ks[q]);
        }
    }
}

/// The first `m` finite pairs come from nonzero reduced columns before `m`:
/// each is born at the lowest row of the column of its death step.
proof fn lemma_finite_pairs_shape(steps: Seq<Seq<usize>>, r: Seq<Seq<usize>>, m: int, p: int)
    requires
        0 <= p < finite_pairs(steps, r, m).len(),
        m <= usize::MAX + 1,
    ensures
        ({
            let e = finite_pairs(steps, r, m)[p];
            &&& e.death is Some
            &&& 0 <= e.death->0 < m
            &&& r[e.death->0 as int].len() > 0
            &&& e.birth == r[e.death->0 as int].last()
        }),
    decreases m,
{
    if m > 0 {
        let prev = finite_pairs(steps, r, m - 1);
        if p < prev.len() {
            lemma_finite_pairs_shape(steps, r, m - 1, p);
            match low_of(r[m - 1]) {
                Some(l) => assert(finite_pairs(steps, r, m)[p] == prev[p]),
                None => {},
            }
        } else {
            match low_of(r[m - 1]) {
                Some(l) => {
                    assert(finite_pairs(steps, r, m)[p].death == Some((m - 1) as usize));
                    assert(r[m - 1].len() > 0);
                },
                None => {},
            }
        }
    }
}

/// The essential features never die.
proof fn lemma_essential_pairs_never_die(steps: Seq<Seq<usize>>, r: Seq<Seq<usize>>, m: int, p: int)
    requires
        0 <= p < essential_pairs(steps, r, m).len(),
    ensures
        essential_pairs(steps, r, m)[p].death is None,
    decreases m,
{
    if m > 0 {
        let prev = essential_pairs(steps, r, m - 1);
        if p < prev.len() {
            lemma_essential_pairs_never_die(steps, r, m - 1, p);
            if !is_paired(r, m - 1) {
                assert(essential_pairs(steps, r, m)[p] == prev[p]);
            }
        }
    }
}

/// When the faces of every simplex come before it in the filtration, each
/// feature that dies was born at an earlier step: for every reduction of
/// the boundary matrix, every finite pair read off it has `birth < death`.
pub proof fn lemma_birth_before_death(steps: Seq<Seq<usize>>, r: Seq<Seq<usize>>, v: Seq<Seq<int>>, p: int)
    requires
        steps.len() <= usize::MAX,
        faces_come_first(steps),
        is_reduction(boundary_sets(steps), r, v),
        0 <= p < pairing(steps, r).len(),
        pairing(steps, r)[p].death is Some,
    ensures
        pairing(steps, r)[p].birth < pairing(steps, r)[p].death->0,
{
    let d = boundary_sets(steps);
    let fin = finite_pairs(steps, r, r.len() as int);
    let ess = essential_pairs(steps, r, r.len() as int);
    if p >= fin.len() {
        assert(pairing(steps, r)[p] == ess[p - fin.len()]);
        lemma_essential_pairs_never_die(steps, r, r.len() as int, p - fin.len());
    } else {
        assert(pairing(steps, r)[p] == fin[p]);
        lemma_finite_pairs_shape(steps, r, r.len() as int, p);
        let j = fin[p].death->0 as int;
        let x = r[j].last();
        assert(vset(r[j]).contains(x)) by {
            assert(r[j][r[j].len() - 1] == x);
        }
        assert(xor_fold(d, v[j]).contains(x));
        lemma_xor_fold_entry(d, v[j], x);
        let q = choose|q: int| 0 <= q < v[j].len() && (#[trigger] d[v[j][q]]).contains(x);
        let c = v[j][q];
        assert(combination_for(v[j], j));
        assert(0 <= c <= j);
        assert(boundary_set(steps, c).contains(x));
        let k = choose|k: int|
            0 <= k < spec_faces(steps[c]).len() && last_index_of(steps, #[trigger] spec_faces(steps[c])[k]) == Some(
                x as int,
            );
        assert(x < c);
    }
}

} // verus!
