//! Lexicographic order on the arrangements of a multiset of entries: the
//! non-decreasing arrangement comes first, the non-increasing one last, and
//! `next_permutation` moves to the very next one, so that repeated calls
//! from the first arrangement run through all of them once, in order.

use vstd::prelude::*;
use crate::order::{lex_lt, lex_witness, agree_upto, lemma_lex_asymmetric, lemma_lex_transitive, lemma_lex_total};
use crate::distance::{has_ascent, is_last_ascent, is_swap_partner, next_from, lemma_swap_multiset, lemma_reverse_suffix_multiset};

verus! {

broadcast use vstd::seq_lib::to_multiset_len, vstd::seq_lib::to_multiset_contains;

/// Every entry is at least every later one.
pub open spec fn non_increasing(s: Seq<usize>) -> bool {
    forall|i: int, j: int| 0 <= i < j < s.len() ==> s[i] >= s[j]
}

/// Every entry is at most every later one.
pub open spec fn non_decreasing(s: Seq<usize>) -> bool {
    forall|i: int, j: int| 0 <= i < j < s.len() ==> s[i] <= s[j]
}

/// `b` is an arrangement of the entries of `a`.
pub open spec fn same_entries(a: Seq<usize>, b: Seq<usize>) -> bool {
    a.to_multiset() == b.to_multiset()
}

/// Arrangements of the same entries have the same length.
proof fn lemma_same_len(a: Seq<usize>, b: Seq<usize>)
    requires
        same_entries(a, b),
    ensures
        a.len() == b.len(),
{
    vstd::seq_lib::to_multiset_len(a);
    vstd::seq_lib::to_multiset_len(b);
}

/// Removing the first entries of two arrangements of the same entries,
/// when they are equal, leaves arrangements of the same entries.
proof fn lemma_drop_first_same(a: Seq<usize>, b: Seq<usize>)
    requires
        same_entries(a, b),
        a.len() > 0,
        a[0] == b[0],
    ensures
        same_entries(a.drop_first(), b.drop_first()),
{
    lemma_same_len(a, b);
    vstd::seq_lib::to_multiset_remove(a, 0);
    vstd::seq_lib::to_multiset_remove(b, 0);
    assert(a.remove(0) =~= a.drop_first());
    assert(b.remove(0) =~= b.drop_first());
}

/// Two arrangements of the same entries that agree on the first `m` entries
/// have their rests arranged from the same entries.
proof fn lemma_skip_same(a: Seq<usize>, b: Seq<usize>, m: int)
    requires
        same_entries(a, b),
        0 <= m <= a.len(),
        agree_upto(a, b, m),
    ensures
        same_entries(a.skip(m), b.skip(m)),
    decreases m,
{
    if m > 0 {
        lemma_same_len(a, b);
        lemma_drop_first_same(a, b);
        lemma_skip_same(a.drop_first(), b.drop_first(), m - 1);
        assert(a.drop_first().skip(m - 1) =~= a.skip(m));
        assert(b.drop_first().skip(m - 1) =~= b.skip(m));
    } else {
        assert(a.skip(0) =~= a);
        assert(b.skip(0) =~= b);
    }
}

/// The non-increasing arrangement comes after no other arrangement.
pub proof fn lemma_non_increasing_is_last(a: Seq<usize>, b: Seq<usize>)
    requires
        non_increasing(a),
        same_entries(a, b),
    ensures
        !lex_lt(a, b),
    decreases a.len(),
{
    lemma_same_len(a, b);
    if lex_lt(a, b) {
        let k = choose|k: int| lex_witness(a, b, k);
        if k == 0 {
            assert(b.contains(b[0]));
            assert(b.to_multiset().count(b[0]) > 0);
            assert(a.to_multiset().count(b[0]) > 0);
            assert(a.contains(b[0]));
            let m = choose|m: int| 0 <= m < a.len() && a[m] == b[0];
            if m > 0 {
                assert(a[0] >= a[m]);
            }
        } else {
            lemma_drop_first_same(a, b);
            assert(lex_witness(a.drop_first(), b.drop_first(), k - 1));
            lemma_non_increasing_is_last(a.drop_first(), b.drop_first());
        }
    }
}

/// The non-decreasing arrangement comes before every other arrangement.
pub proof fn lemma_non_decreasing_is_first(a: Seq<usize>, b: Seq<usize>)
    requires
        non_decreasing(a),
        same_entries(a, b),
    ensures
        !lex_lt(b, a),
    decreases a.len(),
{
    lemma_same_len(a, b);
    if lex_lt(b, a) {
        let k = choose|k: int| lex_witness(b, a, k);
        if k == 0 {
            assert(b.contains(b[0]));
            assert(b.to_multiset().count(b[0]) > 0);
            assert(a.to_multiset().count(b[0]) > 0);
            assert(a.contains(b[0]));
            let m = choose|m: int| 0 <= m < a.len() && a[m] == b[0];
            if m > 0 {
                assert(a[0] <= a[m]);
            }
        } else {
            lemma_drop_first_same(a, b);
            assert(lex_witness(b.drop_first(), a.drop_first(), k - 1));
            lemma_non_decreasing_is_first(a.drop_first(), b.drop_first());
        }
    }
}


/// After the last ascent the entries do not increase.
proof fn lemma_tail_non_increasing(a: Seq<usize>, i: int, p: int, q: int)
    requires
        is_last_ascent(a, i),
        i < p <= q < a.len(),
    ensures
        a[p] >= a[q],
    decreases q - p,
{
    if p < q {
        lemma_tail_non_increasing(a, i, p, q - 1);
        assert(a[q - 1] >= a[(q - 1) + 1]);
    }
}

/// The entries of the next arrangement, position by position.
proof fn lemma_next_entries(a: Seq<usize>, i: int, j: int)
    requires
        is_last_ascent(a, i),
        is_swap_partner(a, i, j),
    ensures
        next_from(a, i, j).len() == a.len(),
        forall|p: int| 0 <= p < i ==> #[trigger] next_from(a, i, j)[p] == a[p],
        next_from(a, i, j)[i] == a[j],
        forall|p: int| i < p < a.len() ==> #[trigger] next_from(a, i, j)[p] == a.update(i, a[j]).update(j, a[i])[
            a.len() + i - p],
        same_entries(a, next_from(a, i, j)),
{
    let bs = a.update(i, a[j]).update(j, a[i]);
    let n = a.len();
    assert forall|p: int| i < p < n implies #[trigger] next_from(a, i, j)[p] == bs[n + i - p] by {
        assert(bs.skip(i + 1).reverse()[p - i - 1] == bs.skip(i + 1)[(n - i - 1) - 1 - (p - i - 1)]);
    }
    lemma_swap_multiset(a, i, j);
    lemma_reverse_suffix_multiset(bs, i + 1);
}

/// The next arrangement comes after the current one.
pub proof fn lemma_next_is_later(a: Seq<usize>, i: int, j: int)
    requires
        is_last_ascent(a, i),
        is_swap_partner(a, i, j),
    ensures
        lex_lt(a, next_from(a, i, j)),
        same_entries(a, next_from(a, i, j)),
{
    lemma_next_entries(a, i, j);
    assert(lex_witness(a, next_from(a, i, j), i));
}

/// No arrangement of the same entries lies strictly between an arrangement
/// and the next one.
pub proof fn lemma_next_is_successor(a: Seq<usize>, b: Seq<usize>, i: int, j: int)
    requires
        is_last_ascent(a, i),
        is_swap_partner(a, i, j),
        same_entries(a, b),
        lex_lt(a, b),
    ensures
        !lex_lt(b, next_from(a, i, j)),
{
    let c = next_from(a, i, j);
    let n = a.len();
    lemma_next_entries(a, i, j);
    lemma_same_len(a, b);
    let k = choose|k: int| lex_witness(a, b, k);
    if k < i {
        assert(lex_witness(c, b, k));
        lemma_lex_asymmetric(c, b);
    } else if k > i {
        lemma_skip_same(a, b, i + 1);
        let sa = a.skip(i + 1);
        assert forall|p: int, q: int| 0 <= p < q < sa.len() implies #[trigger] sa[p] >= #[trigger] sa[q] by {
            lemma_tail_non_increasing(a, i, p + i + 1, q + i + 1);
        }
        assert(lex_witness(a.skip(i + 1), b.skip(i + 1), k - i - 1));
        lemma_non_increasing_is_last(a.skip(i + 1), b.skip(i + 1));
    } else {
        // b[i] is one of the entries of a from i on, above a[i]
        lemma_skip_same(a, b, i);
        let sb = b.skip(i);
        assert(sb[0] == b[i]);
        assert(sb.contains(b[i]));
        assert(sb.to_multiset().count(b[i]) > 0);
        assert(a.skip(i).to_multiset().count(b[i]) > 0);
        assert(a.skip(i).contains(b[i]));
        let m = choose|m: int| 0 <= m < a.skip(i).len() && a.skip(i)[m] == b[i];
        let mm = m + i;
        assert(a[mm] == b[i]);
        assert(mm > i);
        assert(mm <= j);
        if mm < j {
            lemma_tail_non_increasing(a, i, mm, j);
        }
        assert(b[i] >= c[i]);
        if b[i] > c[i] {
            assert(lex_witness(c, b, i));
            lemma_lex_asymmetric(c, b);
        } else {
            let bs = a.update(i, a[j]).update(j, a[i]);
            let sc = c.skip(i + 1);
            assert(non_decreasing(sc)) by {
                assert forall|x: int, y: int| 0 <= x < y < sc.len() implies #[trigger] sc[x] <= #[trigger] sc[y] by {
                    let px = x + i + 1;
                    let py = y + i + 1;
                    assert(sc[x] == bs[n + i - px]);
                    assert(sc[y] == bs[n + i - py]);
                    let qx = n + i - px;
                    let qy = n + i - py;
                    // qy < qx, both after i
                    if qy != j && qx != j {
                        lemma_tail_non_increasing(a, i, qy, qx);
                    } else if qy == j {
                        assert(a[qx] <= a[i]);
                    } else {
                        lemma_tail_non_increasing(a, i, qy, j);
                    }
                }
            }
            assert(agree_upto(c, b, i + 1));
            assert(same_entries(c, b));
            lemma_skip_same(c, b, i + 1);
            if lex_lt(b, c) {
                let k2 = choose|k2: int| lex_witness(b, c, k2);
                assert(k2 >= i + 1);
                assert(lex_witness(b.skip(i + 1), sc, k2 - i - 1));
                lemma_non_decreasing_is_first(sc, b.skip(i + 1));
            }
        }
    }
}


/// `b` is the arrangement that `next_permutation` makes of `a`.
pub open spec fn next_step(a: Seq<usize>, b: Seq<usize>) -> bool {
    exists|i: int, j: int| is_last_ascent(a, i) && is_swap_partner(a, i, j) && #[trigger] next_from(a, i, j) == b
}

/// `s` lists the arrangements met by calling `next_permutation` again and
/// again on `s[0]`: each one is made from the one before, and the last has
/// no ascent, so that the call returns false on it.
pub open spec fn permutation_run(s: Seq<Seq<usize>>) -> bool {
    &&& s.len() >= 1
    &&& forall|k1: int, k2: int| 0 <= k1 && k2 == k1 + 1 && k2 < s.len() ==> #[trigger] next_step(s[k1], s[k2])
    &&& !has_ascent(s.last())
}

/// Without an ascent the entries do not increase.
proof fn lemma_no_ascent_non_increasing(a: Seq<usize>)
    requires
        !has_ascent(a),
    ensures
        non_increasing(a),
{
    assert forall|p: int, q: int| 0 <= p < q < a.len() implies a[p] >= a[q] by {
        lemma_no_ascent_pair(a, p, q);
    }
}

proof fn lemma_no_ascent_pair(a: Seq<usize>, p: int, q: int)
    requires
        !has_ascent(a),
        0 <= p <= q < a.len(),
    ensures
        a[p] >= a[q],
    decreases q - p,
{
    if p < q {
        lemma_no_ascent_pair(a, p, q - 1);
        let r = q - 1;
        assert(!(a[r] < a[r + 1]));
    }
}

/// Along a run, every arrangement has the entries of the first, and comes
/// after all those before it.
proof fn lemma_run_prefix(s: Seq<Seq<usize>>, k: int)
    requires
        permutation_run(s),
        0 <= k < s.len(),
    ensures
        same_entries(s[0], s[k]),
        forall|k1: int| 0 <= k1 < k ==> lex_lt(#[trigger] s[k1], s[k]),
    decreases k,
{
    if k > 0 {
        lemma_run_prefix(s, k - 1);
        let km = k - 1;
        assert(next_step(s[km], s[km + 1]));
        let (i, j) = choose|i: int, j: int|
            is_last_ascent(s[km], i) && is_swap_partner(s[km], i, j) && #[trigger] next_from(s[km], i, j) == s[km + 1];
        lemma_next_is_later(s[km], i, j);
        assert forall|k1: int| 0 <= k1 < k implies lex_lt(#[trigger] s[k1], s[k]) by {
            if k1 < km {
                lemma_lex_transitive(s[k1], s[km], s[k]);
            }
        }
    }
}

/// Every arrangement at or after `s[k]` is met at or after position `k`.
proof fn lemma_run_reaches(s: Seq<Seq<usize>>, q: Seq<usize>, k: int)
    requires
        permutation_run(s),
        0 <= k < s.len(),
        same_entries(s[k], q),
        !lex_lt(q, s[k]),
    ensures
        exists|k2: int| k <= k2 < s.len() && s[k2] == q,
    decreases s.len() - k,
{
    if s[k] != q {
        lemma_lex_total(s[k], q);
        if k == s.len() - 1 {
            lemma_no_ascent_non_increasing(s[k]);
            lemma_non_increasing_is_last(s[k], q);
        } else {
            assert(next_step(s[k], s[k + 1]));
            let (i, j) = choose|i: int, j: int|
                is_last_ascent(s[k], i) && is_swap_partner(s[k], i, j) && #[trigger] next_from(s[k], i, j) == s[k + 1];
            lemma_next_is_later(s[k], i, j);
            lemma_next_is_successor(s[k], q, i, j);
            lemma_run_reaches(s, q, k + 1);
        }
    }
}

/// Calling `next_permutation` again and again on the non-decreasing
/// arrangement of some entries, until it returns false, meets every
/// arrangement of those entries exactly once, in increasing lexicographic
/// order, and stops at the non-increasing arrangement.
pub proof fn lemma_permutation_run(s: Seq<Seq<usize>>)
    requires
        permutation_run(s),
        non_decreasing(s[0]),
    ensures
        forall|k: int| 0 <= k < s.len() ==> same_entries(s[0], #[trigger] s[k]),
        forall|k1: int, k2: int| 0 <= k1 < k2 < s.len() ==> lex_lt(#[trigger] s[k1], #[trigger] s[k2]),
        forall|q: Seq<usize>| #[trigger] same_entries(s[0], q) ==> exists|k: int| 0 <= k < s.len() && s[k] == q,
        non_increasing(s.last()),
{
    assert forall|k: int| 0 <= k < s.len() implies same_entries(s[0], #[trigger] s[k]) by {
        lemma_run_prefix(s, k);
    }
    assert forall|k1: int, k2: int| 0 <= k1 < k2 < s.len() implies lex_lt(#[trigger] s[k1], #[trigger] s[k2]) by {
        lemma_run_prefix(s, k2);
    }
    assert forall|q: Seq<usize>| #[trigger] same_entries(s[0], q) implies exists|k: int| 0 <= k < s.len() && s[k] == q by {
        lemma_non_decreasing_is_first(s[0], q);
        lemma_run_reaches(s, q, 0);
    }
    lemma_no_ascent_non_increasing(s.last());
}

} // verus!
