//! Sorted sequences of vertex indices and the lexicographic order on them.

use vstd::prelude::*;

verus! {

/// `s` is strictly increasing: the sorted form of a finite set of indices.
pub open spec fn strictly_increasing(s: Seq<usize>) -> bool {
    forall|i: int, j: int| 0 <= i < j < s.len() ==> s[i] < s[j]
}

/// `a` and `b` agree on their first `k` entries.
pub open spec fn agree_upto(a: Seq<usize>, b: Seq<usize>, k: int) -> bool {
    forall|i: int| 0 <= i < k ==> a[i] == b[i]
}

/// `k` is a position at which `a` is found to come before `b`:
/// the sequences agree before `k`, and at `k` either `a` has ended
/// while `b` goes on, or both go on and `a` holds the smaller entry.
pub open spec fn lex_witness(a: Seq<usize>, b: Seq<usize>, k: int) -> bool {
    &&& 0 <= k <= a.len()
    &&& k <= b.len()
    &&& agree_upto(a, b, k)
    &&& ((k == a.len() && k < b.len()) || (k < a.len() && k < b.len() && a[k] < b[k]))
}

/// Lexicographic order on sequences, a proper prefix coming first
/// (the order of sorted vertex sets).
pub open spec fn lex_lt(a: Seq<usize>, b: Seq<usize>) -> bool {
    exists|k: int| lex_witness(a, b, k)
}

/// The entries of `s` seen as a set.
pub open spec fn vset(s: Seq<usize>) -> Set<usize> {
    s.to_set()
}

/// No sequence comes before itself.
pub proof fn lemma_lex_irreflexive(a: Seq<usize>)
    ensures
        !lex_lt(a, a),
{
    if lex_lt(a, a) {
        let k = choose|k: int| lex_witness(a, a, k);
        assert(false);
    }
}

/// Of two different sequences, one comes before the other.
pub proof fn lemma_lex_total(a: Seq<usize>, b: Seq<usize>)
    requires
        a != b,
    ensures
        lex_lt(a, b) || lex_lt(b, a),
{
    lemma_lex_total_from(a, b, 0);
}

proof fn lemma_lex_total_from(a: Seq<usize>, b: Seq<usize>, k: int)
    requires
        a != b,
        0 <= k <= a.len(),
        k <= b.len(),
        agree_upto(a, b, k),
    ensures
        lex_lt(a, b) || lex_lt(b, a),
    decreases a.len() - k,
{
    if k < a.len() && k < b.len() {
        if a[k] == b[k] {
            lemma_lex_total_from(a, b, k + 1);
        } else if a[k] < b[k] {
            assert(lex_witness(a, b, k));
        } else {
            assert(agree_upto(b, a, k));
            assert(lex_witness(b, a, k));
        }
    } else if a.len() == b.len() {
        assert(a =~= b);
    } else if k == a.len() {
        assert(lex_witness(a, b, k));
    } else {
        assert(agree_upto(b, a, k));
        assert(lex_witness(b, a, k));
    }
}

/// The order is transitive.
pub proof fn lemma_lex_transitive(a: Seq<usize>, b: Seq<usize>, c: Seq<usize>)
    requires
        lex_lt(a, b),
        lex_lt(b, c),
    ensures
        lex_lt(a, c),
{
    let k1 = choose|k: int| lex_witness(a, b, k);
    let k2 = choose|k: int| lex_witness(b, c, k);
    if k1 < k2 {
        assert(agree_upto(a, c, k1));
        assert(lex_witness(a, c, k1));
    } else if k2 < k1 {
        assert(agree_upto(a, c, k2));
        assert(lex_witness(a, c, k2));
    } else {
        assert(agree_upto(a, c, k1));
        assert(lex_witness(a, c, k1));
    }
}

/// The order is asymmetric.
pub proof fn lemma_lex_asymmetric(a: Seq<usize>, b: Seq<usize>)
    requires
        lex_lt(a, b),
    ensures
        !lex_lt(b, a),
{
    if lex_lt(b, a) {
        lemma_lex_transitive(a, b, a);
        lemma_lex_irreflexive(a);
    }
}

/// Two strictly increasing sequences with the same entries are equal.
pub proof fn lemma_sorted_same_set_equal(a: Seq<usize>, b: Seq<usize>)
    requires
        strictly_increasing(a),
        strictly_increasing(b),
        vset(a) == vset(b),
    ensures
        a == b,
    decreases a.len() + b.len(),
{
    if a.len() == 0 {
        if b.len() > 0 {
            assert(vset(b).contains(b[0]));
            assert(!vset(a).contains(b[0]));
        }
        assert(a =~= b);
    } else if b.len() == 0 {
        assert(vset(a).contains(a[0]));
        assert(!vset(b).contains(a[0]));
    } else {
        // the least entries agree
        assert(vset(a).contains(a[0]));
        assert(vset(b).contains(b[0]));
        let i = choose|i: int| 0 <= i < b.len() && b[i] == a[0];
        let j = choose|j: int| 0 <= j < a.len() && a[j] == b[0];
        if i > 0 {
            assert(b[0] < b[i]);
            assert(a[0] <= a[j]);
        }
        if j > 0 {
            assert(a[0] < a[j]);
            assert(b[0] <= b[i]);
        }
        assert(a[0] == b[0]);
        let ra = a.drop_first();
        let rb = b.drop_first();
        assert forall|x: usize| vset(ra).contains(x) implies vset(rb).contains(x) by {
            let p = choose|p: int| 0 <= p < ra.len() && ra[p] == x;
            assert(a[p + 1] == x);
            assert(vset(a).contains(x));
            let q = choose|q: int| 0 <= q < b.len() && b[q] == x;
            assert(a[0] < a[p + 1]);
            assert(q != 0);
            assert(rb[q - 1] == x);
        }
        assert forall|x: usize| vset(rb).contains(x) implies vset(ra).contains(x) by {
            let p = choose|p: int| 0 <= p < rb.len() && rb[p] == x;
            assert(b[p + 1] == x);
            assert(vset(b).contains(x));
            let q = choose|q: int| 0 <= q < a.len() && a[q] == x;
            assert(b[0] < b[p + 1]);
            assert(q != 0);
            assert(ra[q - 1] == x);
        }
        assert(vset(ra) =~= vset(rb));
        lemma_sorted_same_set_equal(ra, rb);
        assert(a =~= seq![a[0]] + ra);
        assert(b =~= seq![b[0]] + rb);
    }
}

/// Removing one entry of a strictly increasing sequence keeps it strictly
/// increasing, and drops exactly that entry from its set.
pub proof fn lemma_remove_sorted(s: Seq<usize>, i: int)
    requires
        strictly_increasing(s),
        0 <= i < s.len(),
    ensures
        strictly_increasing(s.remove(i)),
        vset(s.remove(i)) == vset(s).remove(s[i]),
        s.remove(i).len() == s.len() - 1,
{
    let r = s.remove(i);
    assert forall|a: int, b: int| 0 <= a < b < r.len() implies r[a] < r[b] by {
        let sa = if a < i { a } else { a + 1 };
        let sb = if b < i { b } else { b + 1 };
        assert(r[a] == s[sa]);
        assert(r[b] == s[sb]);
    }
    assert forall|x: usize| vset(r).contains(x) implies vset(s).remove(s[i]).contains(x) by {
        let p = choose|p: int| 0 <= p < r.len() && r[p] == x;
        let sp = if p < i { p } else { p + 1 };
        assert(s[sp] == x);
        assert(sp != i);
        assert(s[sp] != s[i]);
    }
    assert forall|x: usize| vset(s).remove(s[i]).contains(x) implies vset(r).contains(x) by {
        let p = choose|p: int| 0 <= p < s.len() && s[p] == x;
        assert(p != i);
        if p < i {
            assert(r[p] == x);
        } else {
            assert(r[p - 1] == x);
        }
    }
    assert(vset(r) =~= vset(s).remove(s[i]));
}

/// `t` is a face of `s` (for sorted vertex sequences): `s` itself, or a
/// nonempty sorted sequence whose vertices are all vertices of `s`.
pub open spec fn is_face_of(t: Seq<usize>, s: Seq<usize>) -> bool {
    t == s || (t.len() >= 1 && strictly_increasing(t) && vset(t).subset_of(vset(s)))
}

/// A strictly increasing sequence of length 1 or more whose entries all lie
/// in a set of one element is that one element.
pub proof fn lemma_face_of_short(t: Seq<usize>, s: Seq<usize>)
    requires
        strictly_increasing(s),
        s.len() < 2,
        is_face_of(t, s),
    ensures
        t == s,
{
    if t != s {
        assert(vset(t).contains(t[0]));
        if s.len() == 0 {
            assert(!vset(s).contains(t[0]));
        } else {
            assert(vset(s).contains(t[0]));
            assert(vset(t) =~= vset(s)) by {
                assert forall|x: usize| vset(s).contains(x) implies vset(t).contains(x) by {
                    assert(x == s[0]);
                    assert(t[0] == s[0]);
                }
            }
            lemma_sorted_same_set_equal(t, s);
        }
    }
}

/// A face of a codimension-1 face is a face.
pub proof fn lemma_face_of_removed(t: Seq<usize>, s: Seq<usize>, i: int)
    requires
        strictly_increasing(s),
        s.len() >= 2,
        0 <= i < s.len(),
        is_face_of(t, s.remove(i)),
    ensures
        is_face_of(t, s),
{
    lemma_remove_sorted(s, i);
    if t == s.remove(i) {
        assert(t.len() >= 1);
    }
}

/// A face of `s` other than `s` lies in some codimension-1 face of `s`.
pub proof fn lemma_face_in_some_removed(t: Seq<usize>, s: Seq<usize>) -> (i: int)
    requires
        strictly_increasing(s),
        is_face_of(t, s),
        t != s,
    ensures
        s.len() >= 2,
        0 <= i < s.len(),
        is_face_of(t, s.remove(i)),
{
    if forall|k: int| 0 <= k < s.len() ==> vset(t).contains(#[trigger] s[k]) {
        assert(vset(t) =~= vset(s)) by {
            assert forall|x: usize| vset(s).contains(x) implies vset(t).contains(x) by {
                let k = choose|k: int| 0 <= k < s.len() && s[k] == x;
            }
        }
        lemma_sorted_same_set_equal(t, s);
        assert(false);
        0
    } else {
        let i = choose|k: int| 0 <= k < s.len() && !vset(t).contains(#[trigger] s[k]);
        assert(vset(t).contains(t[0]));
        assert(vset(s).contains(t[0]));
        assert(t[0] != s[i]);
        let k0 = choose|k: int| 0 <= k < s.len() && s[k] == t[0];
        assert(k0 != i);
        lemma_remove_sorted(s, i);
        assert(vset(t).subset_of(vset(s.remove(i))));
        i
    }
}

} // verus!
