//! Simplices and simplicial complexes.

use vstd::prelude::*;
use crate::order::{
    strictly_increasing, lex_lt, lex_witness, agree_upto, vset, is_face_of, lemma_remove_sorted,
    lemma_lex_total, lemma_lex_irreflexive, lemma_lex_transitive, lemma_lex_asymmetric,
    lemma_face_of_short, lemma_face_of_removed, lemma_face_in_some_removed,
};

verus! {

/// Result of comparing two simplices in their (lexicographic) order.
#[derive(PartialEq, Eq, Structural, Debug, Clone, Copy)]
pub enum Cmp {
    Less,
    Equal,
    Greater,
}

/// Dimension of a simplex with vertex sequence `s`: one less than its number
/// of vertices, and 0 for the empty simplex.
pub open spec fn spec_dim(s: Seq<usize>) -> nat {
    if s.len() == 0 {
        0
    } else {
        (s.len() - 1) as nat
    }
}

/// The codimension-1 faces of a simplex: the vertex sequence with one entry
/// removed, for each entry in turn; none for a simplex of dimension 0.
pub open spec fn spec_faces(s: Seq<usize>) -> Seq<Seq<usize>> {
    if spec_dim(s) == 0 {
        Seq::empty()
    } else {
        Seq::new(s.len(), |i: int| s.remove(i))
    }
}

/// Inserting `x` into the strictly increasing `v` keeps it strictly increasing
/// and adds `x` to its set of entries.
pub(crate) fn insert_sorted(v: &mut Vec<usize>, x: usize)
    requires
        strictly_increasing(old(v)@),
    ensures
        strictly_increasing(final(v)@),
        vset(final(v)@) == vset(old(v)@).insert(x),
        !vset(old(v)@).contains(x) ==> final(v)@.len() == old(v)@.len() + 1,
{
    let mut i: usize = 0;
    while i < v.len() && v[i] < x
        invariant
            0 <= i <= v.len(),
            forall|j: int| 0 <= j < i ==> v[j] < x,
        decreases v.len() - i,
    {
        i = i + 1;
    }
    if i < v.len() && v[i] == x {
        assert(vset(v@).contains(v@[i as int]));
        assert(vset(v@) =~= vset(v@).insert(x));
    } else {
        let ghost before = v@;
        v.insert(i, x);
        assert forall|a: int, b: int| 0 <= a < b < v@.len() implies v@[a] < v@[b] by {
            if b < i {
            } else if b == i {
            } else if a < i {
                assert(before[b - 1] >= before[i as int]);
            } else if a == i {
                assert(before[b - 1] >= before[i as int]);
            } else {
            }
        }
        assert forall|y: usize| vset(v@).contains(y) <==> vset(before).insert(x).contains(y) by {
            if vset(v@).contains(y) {
                let p = choose|p: int| 0 <= p < v@.len() && v@[p] == y;
                if p < i {
                    assert(before[p] == y);
                } else if p > i {
                    assert(before[p - 1] == y);
                }
            }
            if vset(before).contains(y) {
                let p = choose|p: int| 0 <= p < before.len() && before[p] == y;
                if p < i {
                    assert(v@[p] == y);
                } else {
                    assert(v@[p + 1] == y);
                }
            }
            if y == x {
                assert(v@[i as int] == x);
            }
        }
        assert(vset(v@) =~= vset(before).insert(x));
    }
}

/// The vertex count after adding the simplex `s` to a complex with `n`
/// vertices: it grows to exceed every vertex of `s`.
pub open spec fn count_after_adding(n: nat, s: Seq<usize>) -> nat {
    if s.len() > 0 && n < s.last() + 1 {
        (s.last() + 1) as nat
    } else {
        n
    }
}

/// Adding the same simplex a second time changes nothing: the simplices
/// (the old ones with all faces of `s`) and the vertex count stay as they are.
pub proof fn lemma_add_simplex_twice(before: Set<Seq<usize>>, n: nat, s: Seq<usize>)
    ensures
        before.union(face_closure(s)).union(face_closure(s)) == before.union(face_closure(s)),
        count_after_adding(count_after_adding(n, s), s) == count_after_adding(n, s),
{
    assert(before.union(face_closure(s)).union(face_closure(s)) =~= before.union(face_closure(s)));
}

/// A simplex: a finite set of vertex indices.
///
/// The set is held as a strictly increasing `Vec` rather than an ordered set
/// type. The contracts of this crate read a simplex as its increasing sequence
/// of vertices: the `i`-th face drops the `i`-th vertex, boundary entries are
/// found by position, and simplices are compared lexicographically. A sorted
/// `Vec` gives that sequence and its indexing directly, and its invariant
/// (strictly increasing) gives the uniqueness and order that a set would.
#[derive(Debug, PartialEq, Eq, Hash, PartialOrd, Ord)]
pub struct Simplex(Vec<usize>);

impl View for Simplex {
    type V = Seq<usize>;

    open spec fn view(&self) -> Seq<usize> {
        self.spec_vertices()
    }
}

impl Simplex {
    /// The vertices, in increasing order.
    pub closed spec fn spec_vertices(&self) -> Seq<usize> {
        self.0@
    }

    /// A simplex holds its vertices strictly increasing.
    #[verifier::type_invariant]
    pub open spec fn sorted_inv(&self) -> bool {
        strictly_increasing(self.spec_vertices())
    }

    /// The simplex on the given vertices (repeated ones counted once).
    pub fn new(vertices: Vec<usize>) -> (s: Simplex)
        ensures
            vset(s@) == vset(vertices@),
    {
        let mut out: Vec<usize> = Vec::new();
        let mut k: usize = 0;
        while k < vertices.len()
            invariant
                0 <= k <= vertices.len(),
                strictly_increasing(out@),
                vset(out@) == vset(vertices@.take(k as int)),
            decreases vertices.len() - k,
        {
            insert_sorted(&mut out, vertices[k]);
            assert(vertices@.take(k + 1) =~= vertices@.take(k as int).push(vertices@[k as int]));
            assert(vset(vertices@.take(k + 1)) =~= vset(vertices@.take(k as int)).insert(vertices@[k as int])) by {
                vertices@.take(k as int).lemma_push_to_set_commute(vertices@[k as int]);
            }
            k = k + 1;
        }
        assert(vertices@.take(k as int) =~= vertices@);
        Simplex(out)
    }

    /// The simplex on one vertex.
    pub fn vertex(i: usize) -> (s: Simplex)
        ensures
            s@ == seq![i],
    {
        let mut v: Vec<usize> = Vec::new();
        v.push(i);
        Simplex(v)
    }

    /// The simplex on the two vertices `i` and `j` (one vertex if they are equal).
    pub fn edge(i: usize, j: usize) -> (s: Simplex)
        ensures
            s@ == (if i < j {
                seq![i, j]
            } else if j < i {
                seq![j, i]
            } else {
                seq![i]
            }),
    {
        let mut v: Vec<usize> = Vec::new();
        if i < j {
            v.push(i);
            v.push(j);
        } else if j < i {
            v.push(j);
            v.push(i);
        } else {
            v.push(i);
        }
        Simplex(v)
    }

    /// Dimension of the simplex (number of vertices - 1).
    pub fn dim(&self) -> (d: usize)
        ensures
            d == spec_dim(self@),
    {
        if self.0.len() == 0 {
            0
        } else {
            self.0.len() - 1
        }
    }

    /// Number of vertices.
    pub fn len(&self) -> (n: usize)
        ensures
            n == self@.len(),
    {
        self.0.len()
    }

    /// The vertex at position `i` in increasing order.
    pub fn get(&self, i: usize) -> (v: usize)
        requires
            i < self@.len(),
        ensures
            v == self@[i as int],
    {
        self.0[i]
    }

    /// Vertices as a sorted vector.
    pub fn vertices(&self) -> (v: Vec<usize>)
        ensures
            v@ == self@,
    {
        let mut out: Vec<usize> = Vec::new();
        let mut k: usize = 0;
        while k < self.0.len()
            invariant
                0 <= k <= self.0.len(),
                out@ == self@.take(k as int),
            decreases self.0.len() - k,
        {
            out.push(self.0[k]);
            assert(self@.take(k + 1) =~= self@.take(k as int).push(self@[k as int]));
            k = k + 1;
        }
        assert(self@.take(k as int) =~= self@);
        out
    }

    /// The simplex with the vertex `v` added.
    pub fn with_vertex(&self, v: usize) -> (s: Simplex)
        ensures
            vset(s@) == vset(self@).insert(v),
            !vset(self@).contains(v) ==> s@.len() == self@.len() + 1,
    {
        proof {
            use_type_invariant(self);
        }
        let mut verts = self.vertices();
        insert_sorted(&mut verts, v);
        Simplex(verts)
    }

    /// A second simplex with the same vertices.
    pub fn duplicate(&self) -> (s: Simplex)
        ensures
            s@ == self@,
    {
        proof {
            use_type_invariant(self);
        }
        Simplex(self.vertices())
    }

    /// All faces of codimension 1 (boundary simplices): for each vertex in
    /// increasing order, the simplex without it.
    pub fn faces(&self) -> (fs: Vec<Simplex>)
        ensures
            fs@.len() == spec_faces(self@).len(),
            forall|i: int| 0 <= i < fs@.len() ==> #[trigger] fs@[i]@ == spec_faces(self@)[i],
    {
        proof {
            use_type_invariant(self);
        }
        let mut out: Vec<Simplex> = Vec::new();
        if self.dim() == 0 {
            return out;
        }
        let n = self.0.len();
        let mut i: usize = 0;
        while i < n
            invariant
                n == self@.len(),
                n >= 2,
                strictly_increasing(self@),
                0 <= i <= n,
                out@.len() == i,
                forall|j: int| 0 <= j < i ==> #[trigger] out@[j]@ == self@.remove(j),
            decreases n - i,
        {
            let mut face = self.vertices();
            face.remove(i);
            proof {
                lemma_remove_sorted(self@, i as int);
            }
            out.push(Simplex(face));
            i = i + 1;
        }
        out
    }

    /// Whether `x` is a vertex of this simplex.
    pub fn has_vertex(&self, x: usize) -> (b: bool)
        ensures
            b == vset(self@).contains(x),
    {
        let mut k: usize = 0;
        while k < self.0.len()
            invariant
                0 <= k <= self.0.len(),
                forall|j: int| 0 <= j < k ==> self@[j] != x,
            decreases self.0.len() - k,
        {
            if self.0[k] == x {
                assert(self@[k as int] == x);
                return true;
            }
            k = k + 1;
        }
        false
    }

    /// Check if this simplex contains another as a face: every vertex of
    /// `other` is a vertex of this simplex.
    pub fn contains_face(&self, other: &Simplex) -> (b: bool)
        ensures
            b == vset(other@).subset_of(vset(self@)),
    {
        let mut k: usize = 0;
        while k < other.0.len()
            invariant
                0 <= k <= other.0.len(),
                forall|j: int| 0 <= j < k ==> vset(self@).contains(#[trigger] other@[j]),
            decreases other.0.len() - k,
        {
            if !self.has_vertex(other.0[k]) {
                assert(vset(other@).contains(other@[k as int]));
                return false;
            }
            k = k + 1;
        }
        true
    }

    /// Compare two simplices in the order of their sorted vertex sequences
    /// (lexicographic, a proper prefix first).
    pub fn compare(&self, other: &Simplex) -> (c: Cmp)
        ensures
            c == Cmp::Less <==> lex_lt(self@, other@),
            c == Cmp::Equal <==> self@ == other@,
            c == Cmp::Greater <==> lex_lt(other@, self@),
    {
        let a = &self.0;
        let b = &other.0;
        let mut k: usize = 0;
        while k < a.len() && k < b.len() && a[k] == b[k]
            invariant
                0 <= k <= a.len(),
                k <= b.len(),
                agree_upto(a@, b@, k as int),
            decreases a.len() - k,
        {
            k = k + 1;
        }
        proof {
            lemma_lex_irreflexive(a@);
        }
        if k < a.len() && k < b.len() {
            if a[k] < b[k] {
                assert(lex_witness(a@, b@, k as int));
                assert(a@ != b@);
                proof { crate::order::lemma_lex_asymmetric(a@, b@); }
                Cmp::Less
            } else {
                assert(agree_upto(b@, a@, k as int));
                assert(lex_witness(b@, a@, k as int));
                assert(a@ != b@);
                proof { crate::order::lemma_lex_asymmetric(b@, a@); }
                Cmp::Greater
            }
        } else if a.len() == b.len() {
            assert(a@ =~= b@);
            Cmp::Equal
        } else if k == a.len() {
            assert(lex_witness(a@, b@, k as int));
            assert(a@ != b@);
            proof { crate::order::lemma_lex_asymmetric(a@, b@); }
            Cmp::Less
        } else {
            assert(agree_upto(b@, a@, k as int));
            assert(lex_witness(b@, a@, k as int));
            assert(a@ != b@);
            proof { crate::order::lemma_lex_asymmetric(b@, a@); }
            Cmp::Greater
        }
    }
}

/// The vertex sequences of a list of simplices.
pub open spec fn views(v: Seq<Simplex>) -> Seq<Seq<usize>> {
    Seq::new(v.len(), |i: int| v[i]@)
}

/// The list is in strictly increasing lexicographic order (so no simplex
/// occurs twice).
pub open spec fn sorted_distinct(ss: Seq<Seq<usize>>) -> bool {
    forall|i: int, j: int| 0 <= i < j < ss.len() ==> lex_lt(#[trigger] ss[i], #[trigger] ss[j])
}

/// Every vertex sequence in the list is strictly increasing.
pub open spec fn all_sorted(ss: Seq<Seq<usize>>) -> bool {
    forall|i: int| 0 <= i < ss.len() ==> strictly_increasing(#[trigger] ss[i])
}

/// The set holds every codimension-1 face of each of its simplices.
pub open spec fn closed_under_faces(ss: Set<Seq<usize>>) -> bool {
    forall|s: Seq<usize>, i: int|
        #![trigger ss.contains(s), s.remove(i)]
        ss.contains(s) && s.len() >= 2 && 0 <= i < s.len() ==> ss.contains(s.remove(i))
}

/// All faces of the simplex `s` (itself included).
pub open spec fn face_closure(s: Seq<usize>) -> Set<Seq<usize>> {
    Set::new(|t: Seq<usize>| is_face_of(t, s))
}

/// All faces of the simplices `ss[0..k]`.
pub open spec fn closure_of_prefix(ss: Seq<Seq<usize>>, k: int) -> Set<Seq<usize>> {
    Set::new(|t: Seq<usize>| exists|j: int| 0 <= j < k && is_face_of(t, #[trigger] ss[j]))
}

/// All faces of all the simplices in `ss`.
pub open spec fn closure_of_all(ss: Seq<Seq<usize>>) -> Set<Seq<usize>> {
    closure_of_prefix(ss, ss.len() as int)
}

/// The simplices built from a list are exactly the listed simplices and
/// their nonempty sorted vertex subsets: `t` is one of them when, for some
/// listed `s`, `t` is `s` itself or a nonempty strictly increasing list of
/// vertices of `s`.
pub proof fn lemma_closure_law(ss: Seq<Seq<usize>>, t: Seq<usize>)
    ensures
        closure_of_all(ss).contains(t) <==> exists|j: int|
            0 <= j < ss.len() && (t == #[trigger] ss[j] || (t.len() >= 1 && (forall|a: int, b: int|
                0 <= a < b < t.len() ==> t[a] < t[b]) && forall|a: int| 0 <= a < t.len() ==> ss[j].contains(#[trigger] t[a]))),
{
    assert forall|j: int| 0 <= j < ss.len() implies is_face_of(t, #[trigger] ss[j]) == (t == ss[j] || (t.len() >= 1 && (
    forall|a: int, b: int| 0 <= a < b < t.len() ==> t[a] < t[b]) && forall|a: int|
        0 <= a < t.len() ==> ss[j].contains(#[trigger] t[a]))) by {
        if forall|a: int| 0 <= a < t.len() ==> ss[j].contains(#[trigger] t[a]) {
            assert forall|x: usize| vset(t).contains(x) implies vset(ss[j]).contains(x) by {
                let a = choose|a: int| 0 <= a < t.len() && t[a] == x;
                assert(ss[j].contains(t[a]));
            }
        }
        if vset(t).subset_of(vset(ss[j])) {
            assert forall|a: int| 0 <= a < t.len() implies ss[j].contains(#[trigger] t[a]) by {
                assert(t.contains(t[a]));
                assert(vset(t).contains(t[a]));
            }
        }
    }
}

/// A set of simplices closed under codimension-1 faces holds every face of
/// each of its simplices: it is closed under taking faces.
pub proof fn lemma_closed_contains_faces(ss: Set<Seq<usize>>, s: Seq<usize>, t: Seq<usize>)
    requires
        closed_under_faces(ss),
        ss.contains(s),
        strictly_increasing(s),
        is_face_of(t, s),
    ensures
        ss.contains(t),
    decreases s.len(),
{
    if t != s {
        let i = lemma_face_in_some_removed(t, s);
        assert(ss.contains(s.remove(i)));
        lemma_remove_sorted(s, i);
        lemma_closed_contains_faces(ss, s.remove(i), t);
    }
}

/// The faces of a simplex with two or more vertices are the simplex and the
/// faces of its codimension-1 faces.
proof fn lemma_face_closure_split(s: Seq<usize>)
    requires
        strictly_increasing(s),
        s.len() >= 2,
    ensures
        face_closure(s) == closure_of_prefix(spec_faces(s), s.len() as int).insert(s),
{
    let fs = spec_faces(s);
    assert forall|t: Seq<usize>| #[trigger] face_closure(s).contains(t)
        <==> closure_of_prefix(fs, s.len() as int).insert(s).contains(t) by {
        if face_closure(s).contains(t) && t != s {
            let i = lemma_face_in_some_removed(t, s);
            assert(fs[i] == s.remove(i));
            assert(closure_of_prefix(fs, s.len() as int).contains(t));
        }
        if closure_of_prefix(fs, s.len() as int).contains(t) {
            let j = choose|j: int| 0 <= j < s.len() && is_face_of(t, #[trigger] fs[j]);
            assert(fs[j] == s.remove(j));
            lemma_face_of_removed(t, s, j);
        }
    }
    assert(face_closure(s) =~= closure_of_prefix(fs, s.len() as int).insert(s));
}

/// Where `s` would go in the sorted list `all`: every simplex before the
/// returned position comes before `s`; `found` tells whether `s` is there.
fn find_position(all: &Vec<Simplex>, s: &Simplex) -> (r: (usize, bool))
    requires
        sorted_distinct(views(all@)),
    ensures
        r.0 <= all@.len(),
        forall|j: int| 0 <= j < r.0 ==> lex_lt(#[trigger] views(all@)[j], s@),
        r.1 ==> r.0 < all@.len() && views(all@)[r.0 as int] == s@,
        !r.1 ==> r.0 == all@.len() || lex_lt(s@, views(all@)[r.0 as int]),
        r.1 == views(all@).contains(s@),
{
    let mut i: usize = 0;
    let ghost vs = views(all@);
    while i < all.len() && all[i].compare(s) == Cmp::Less
        invariant
            0 <= i <= all@.len(),
            vs == views(all@),
            forall|j: int| 0 <= j < i ==> lex_lt(#[trigger] vs[j], s@),
        decreases all.len() - i,
    {
        assert(vs[i as int] == all@[i as int]@);
        i = i + 1;
    }
    let found = i < all.len() && all[i].compare(s) == Cmp::Equal;
    proof {
        if i < all.len() {
            assert(vs[i as int] == all@[i as int]@);
        }
        if found {
            assert(vs.contains(s@));
        } else {
            if i < all.len() {
                assert(lex_lt(s@, vs[i as int]));
            }
            if vs.contains(s@) {
                let k = choose|k: int| 0 <= k < vs.len() && vs[k] == s@;
                lemma_lex_irreflexive(s@);
                if k >= i {
                    if k > i {
                        assert(lex_lt(vs[i as int], vs[k]));
                        lemma_lex_transitive(s@, vs[i as int], vs[k]);
                    }
                }
            }
        }
    }
    (i, found)
}

/// Insert `s` into the sorted list `all` unless it is already there.
fn insert_if_absent(all: &mut Vec<Simplex>, s: Simplex)
    requires
        sorted_distinct(views(old(all)@)),
        all_sorted(views(old(all)@)),
    ensures
        sorted_distinct(views(final(all)@)),
        all_sorted(views(final(all)@)),
        views(final(all)@).to_set() == views(old(all)@).to_set().insert(s@),
{
    proof {
        use_type_invariant(&s);
    }
    let (p, found) = find_position(all, &s);
    if found {
        assert(views(all@).to_set() =~= views(all@).to_set().insert(s@));
        return ;
    }
    let ghost before = views(all@);
    let ghost sv = s@;
    all.insert(p, s);
    let ghost after = views(all@);
    assert(after =~= before.insert(p as int, sv)) by {
        assert forall|k: int| 0 <= k < after.len() implies after[k] == before.insert(p as int, sv)[k] by {
            assert(after[k] == all@[k]@);
        }
    }
    assert forall|a: int, b: int| 0 <= a < b < after.len() implies lex_lt(#[trigger] after[a], #[trigger] after[b]) by {
        if b < p {
        } else if b == p {
            assert(after[a] == before[a]);
        } else if a < p {
            assert(after[a] == before[a]);
            assert(after[b] == before[b - 1]);
            assert(lex_lt(sv, before[p as int]));
            if b - 1 > p {
                assert(lex_lt(before[p as int], before[b - 1]));
                lemma_lex_transitive(sv, before[p as int], before[b - 1]);
            }
            lemma_lex_transitive(before[a], sv, before[b - 1]);
        } else if a == p {
            assert(after[b] == before[b - 1]);
            assert(lex_lt(sv, before[p as int]));
            if b - 1 > p {
                assert(lex_lt(before[p as int], before[b - 1]));
                lemma_lex_transitive(sv, before[p as int], before[b - 1]);
            }
        } else {
            assert(after[a] == before[a - 1]);
            assert(after[b] == before[b - 1]);
        }
    }
    assert forall|k: int| 0 <= k < after.len() implies strictly_increasing(#[trigger] after[k]) by {
        if k < p {
            assert(after[k] == before[k]);
        } else if k > p {
            assert(after[k] == before[k - 1]);
        }
    }
    assert(after.to_set() =~= before.to_set().insert(sv)) by {
        assert forall|x: Seq<usize>| after.to_set().contains(x) <==> before.to_set().insert(sv).contains(x) by {
            if after.contains(x) {
                let k = choose|k: int| 0 <= k < after.len() && after[k] == x;
                if k < p {
                    assert(before[k] == x);
                } else if k > p {
                    assert(before[k - 1] == x);
                }
            }
            if before.contains(x) {
                let k = choose|k: int| 0 <= k < before.len() && before[k] == x;
                if k < p {
                    assert(after[k] == x);
                } else {
                    assert(after[k + 1] == x);
                }
            }
            if x == sv {
                assert(after[p as int] == x);
            }
        }
    }
}

/// Add `s` and all its faces to the sorted, face-closed list `all`.
fn add_with_faces(all: &mut Vec<Simplex>, s: &Simplex)
    requires
        sorted_distinct(views(old(all)@)),
        all_sorted(views(old(all)@)),
        closed_under_faces(views(old(all)@).to_set()),
    ensures
        sorted_distinct(views(final(all)@)),
        all_sorted(views(final(all)@)),
        closed_under_faces(views(final(all)@).to_set()),
        views(final(all)@).to_set() == views(old(all)@).to_set().union(face_closure(s@)),
    decreases s@.len(),
{
    proof {
        use_type_invariant(s);
    }
    let ghost start = views(all@).to_set();
    let (_, found) = find_position(all, s);
    if found {
        proof {
            assert forall|t: Seq<usize>| face_closure(s@).contains(t) implies start.contains(t) by {
                lemma_closed_contains_faces(start, s@, t);
            }
            assert(start.union(face_closure(s@)) =~= start);
        }
        return ;
    }
    let faces = s.faces();
    let ghost fs = spec_faces(s@);
    let mut i: usize = 0;
    while i < faces.len()
        invariant
            0 <= i <= faces@.len(),
            faces@.len() == fs.len(),
            forall|k: int| 0 <= k < faces@.len() ==> #[trigger] faces@[k]@ == fs[k],
            strictly_increasing(s@),
            fs == spec_faces(s@),
            sorted_distinct(views(all@)),
            all_sorted(views(all@)),
            closed_under_faces(views(all@).to_set()),
            views(all@).to_set() == start.union(closure_of_prefix(fs, i as int)),
        decreases faces@.len() - i,
    {
        let ghost mid = views(all@).to_set();
        assert(faces@[i as int]@.len() < s@.len());
        add_with_faces(all, &faces[i]);
        assert(views(all@).to_set() =~= start.union(closure_of_prefix(fs, i + 1))) by {
            assert forall|t: Seq<usize>| #[trigger] views(all@).to_set().contains(t)
                <==> start.union(closure_of_prefix(fs, i + 1)).contains(t) by {
                if closure_of_prefix(fs, i + 1).contains(t) {
                    let j = choose|j: int| 0 <= j < i + 1 && is_face_of(t, #[trigger] fs[j]);
                    if j < i {
                        assert(closure_of_prefix(fs, i as int).contains(t));
                    } else {
                        assert(face_closure(faces@[i as int]@).contains(t));
                    }
                }
                if closure_of_prefix(fs, i as int).contains(t) {
                    let j = choose|j: int| 0 <= j < i && is_face_of(t, #[trigger] fs[j]);
                    assert(closure_of_prefix(fs, i + 1).contains(t));
                }
                if face_closure(faces@[i as int]@).contains(t) {
                    assert(is_face_of(t, fs[i as int]));
                    assert(closure_of_prefix(fs, i + 1).contains(t));
                }
            }
        }
        i = i + 1;
    }
    let ghost before = views(all@).to_set();
    insert_if_absent(all, s.duplicate());
    proof {
        let after = views(all@).to_set();
        assert(after == before.insert(s@));
        if s@.len() >= 2 {
            lemma_face_closure_split(s@);
            assert(fs.len() == s@.len());
        } else {
            assert(face_closure(s@) =~= set![s@]) by {
                assert forall|t: Seq<usize>| face_closure(s@).contains(t) implies t == s@ by {
                    lemma_face_of_short(t, s@);
                }
            }
            assert(fs.len() == 0);
            assert(closure_of_prefix(fs, 0) =~= Set::empty());
        }
        assert(after =~= start.union(face_closure(s@)));
        assert forall|u: Seq<usize>, k: int|
            after.contains(u) && u.len() >= 2 && 0 <= k < u.len() implies after.contains(#[trigger] u.remove(k)) by {
            if u == s@ {
                assert(fs[k] == s@.remove(k));
                lemma_remove_sorted(s@, k);
                assert(is_face_of(fs[k], fs[k]));
                assert(closure_of_prefix(fs, fs.len() as int).contains(fs[k]));
            } else {
                assert(before.contains(u));
                assert(before.contains(u.remove(k)));
            }
        }
    }
}

/// Largest vertex of a sorted vertex sequence (its last entry), or 0 when empty.
pub open spec fn top_vertex(s: Seq<usize>) -> nat {
    if s.len() == 0 {
        0
    } else {
        s.last() as nat
    }
}

/// Largest vertex over a list of sorted vertex sequences, or 0 when there is none.
pub open spec fn max_vertex(ss: Seq<Seq<usize>>) -> nat
    decreases ss.len(),
{
    if ss.len() == 0 {
        0
    } else {
        let m = max_vertex(ss.drop_last());
        let t = top_vertex(ss.last());
        if m < t {
            t
        } else {
            m
        }
    }
}

/// Every vertex of every simplex in the list is below `n`.
pub open spec fn vertices_below(ss: Seq<Seq<usize>>, n: nat) -> bool {
    forall|i: int, k: int| 0 <= i < ss.len() && 0 <= k < ss[i].len() ==> #[trigger] ss[i][k] < n
}

/// The vertices of a sorted sequence are at most its last entry.
proof fn lemma_vertex_le_top(s: Seq<usize>, x: usize)
    requires
        strictly_increasing(s),
        vset(s).contains(x),
    ensures
        x <= top_vertex(s),
{
    let k = choose|k: int| 0 <= k < s.len() && s[k] == x;
    if k < s.len() - 1 {
        assert(s[k] < s[s.len() - 1]);
    }
}

/// The faces of `s` have their vertices among those of `s`.
proof fn lemma_face_closure_below(s: Seq<usize>, t: Seq<usize>, k: int)
    requires
        strictly_increasing(s),
        face_closure(s).contains(t),
        0 <= k < t.len(),
    ensures
        t[k] <= top_vertex(s),
{
    assert(vset(t).contains(t[k]));
    assert(vset(s).contains(t[k]));
    lemma_vertex_le_top(s, t[k]);
}

/// Test for simplices of dimension `d`.
pub open spec fn has_dim(d: nat) -> spec_fn(Seq<usize>) -> bool {
    |s: Seq<usize>| spec_dim(s) == d
}

/// Number of simplices of dimension `d` in the list.
pub open spec fn count_of_dim(ss: Seq<Seq<usize>>, d: nat) -> nat {
    ss.filter(has_dim(d)).len()
}

/// Largest dimension of a simplex in the list, or 0 when there is none.
pub open spec fn max_dim(ss: Seq<Seq<usize>>) -> nat
    decreases ss.len(),
{
    if ss.len() == 0 {
        0
    } else {
        let m = max_dim(ss.drop_last());
        let d = spec_dim(ss.last());
        if m < d {
            d
        } else {
            m
        }
    }
}

/// Alternating sum of the numbers of simplices of dimensions `0..=d`:
/// even dimensions counted with +, odd ones with -.
pub open spec fn alternating_count(ss: Seq<Seq<usize>>, d: nat) -> int
    decreases d,
{
    let c = count_of_dim(ss, d) as int;
    let term = if d % 2 == 0 {
        c
    } else {
        -c
    };
    if d == 0 {
        term
    } else {
        alternating_count(ss, (d - 1) as nat) + term
    }
}

/// Euler characteristic: alternating sum of simplex counts by dimension,
/// up to the largest dimension present.
pub open spec fn euler_characteristic_of(ss: Seq<Seq<usize>>) -> int {
    alternating_count(ss, max_dim(ss))
}

/// Each simplex counted once, with sign `(-1)^dim`: `+1` for even
/// dimensions, `-1` for odd ones.
pub open spec fn signed_simplex_count(ss: Seq<Seq<usize>>) -> int
    decreases ss.len(),
{
    if ss.len() == 0 {
        0
    } else {
        signed_simplex_count(ss.drop_last()) + if spec_dim(ss.last()) % 2 == 0 {
            1int
        } else {
            -1int
        }
    }
}

proof fn lemma_alternating_empty(ss: Seq<Seq<usize>>, d: nat)
    requires
        ss.len() == 0,
    ensures
        alternating_count(ss, d) == 0,
    decreases d,
{
    reveal_with_fuel(Seq::<_>::filter, 1);
    if d > 0 {
        lemma_alternating_empty(ss, (d - 1) as nat);
    }
}

proof fn lemma_alternating_step(ss: Seq<Seq<usize>>, d: nat)
    requires
        ss.len() > 0,
    ensures
        alternating_count(ss, d) == alternating_count(ss.drop_last(), d) + if spec_dim(ss.last()) <= d {
            if spec_dim(ss.last()) % 2 == 0 {
                1int
            } else {
                -1int
            }
        } else {
            0int
        },
    decreases d,
{
    lemma_count_of_dim_step(ss, d);
    if d > 0 {
        lemma_alternating_step(ss, (d - 1) as nat);
    }
}

proof fn lemma_alternating_is_signed(ss: Seq<Seq<usize>>, d: nat)
    requires
        max_dim(ss) <= d,
    ensures
        alternating_count(ss, d) == signed_simplex_count(ss),
    decreases ss.len(),
{
    if ss.len() == 0 {
        lemma_alternating_empty(ss, d);
    } else {
        lemma_alternating_step(ss, d);
        lemma_alternating_is_signed(ss.drop_last(), d);
    }
}

/// The Euler characteristic counts every simplex of the list once, whatever
/// its dimension, with sign `(-1)^dim`.
pub proof fn lemma_euler_is_signed_count(ss: Seq<Seq<usize>>)
    ensures
        euler_characteristic_of(ss) == signed_simplex_count(ss),
{
    lemma_alternating_is_signed(ss, max_dim(ss));
}

/// Number of simplices of dimensions `0..=d`.
spec fn count_upto(ss: Seq<Seq<usize>>, d: nat) -> nat
    decreases d,
{
    if d == 0 {
        count_of_dim(ss, 0)
    } else {
        count_upto(ss, (d - 1) as nat) + count_of_dim(ss, d)
    }
}

proof fn lemma_count_of_dim_step(ss: Seq<Seq<usize>>, d: nat)
    requires
        ss.len() > 0,
    ensures
        count_of_dim(ss, d) == count_of_dim(ss.drop_last(), d) + (if spec_dim(ss.last()) == d {
            1nat
        } else {
            0nat
        }),
{
    reveal_with_fuel(Seq::<_>::filter, 1);
}

proof fn lemma_count_upto_step(ss: Seq<Seq<usize>>, d: nat)
    requires
        ss.len() > 0,
    ensures
        count_upto(ss, d) == count_upto(ss.drop_last(), d) + (if spec_dim(ss.last()) <= d {
            1nat
        } else {
            0nat
        }),
    decreases d,
{
    lemma_count_of_dim_step(ss, d);
    if d > 0 {
        lemma_count_upto_step(ss, (d - 1) as nat);
    }
}

proof fn lemma_count_upto_le_len(ss: Seq<Seq<usize>>, d: nat)
    ensures
        count_upto(ss, d) <= ss.len(),
    decreases ss.len(),
{
    if ss.len() == 0 {
        lemma_count_upto_empty(ss, d);
    } else {
        lemma_count_upto_step(ss, d);
        lemma_count_upto_le_len(ss.drop_last(), d);
    }
}

proof fn lemma_count_upto_empty(ss: Seq<Seq<usize>>, d: nat)
    requires
        ss.len() == 0,
    ensures
        count_upto(ss, d) == 0,
    decreases d,
{
    reveal_with_fuel(Seq::<_>::filter, 1);
    if d > 0 {
        lemma_count_upto_empty(ss, (d - 1) as nat);
    }
}

proof fn lemma_alternating_bounded(ss: Seq<Seq<usize>>, d: nat)
    ensures
        -(count_upto(ss, d) as int) <= alternating_count(ss, d) <= count_upto(ss, d) as int,
    decreases d,
{
    if d > 0 {
        lemma_alternating_bounded(ss, (d - 1) as nat);
    }
}

/// The dimensions of the listed simplices are at most their maximum.
proof fn lemma_max_dim_bounds(ss: Seq<Seq<usize>>, i: int)
    requires
        0 <= i < ss.len(),
    ensures
        spec_dim(ss[i]) <= max_dim(ss),
    decreases ss.len(),
{
    if i < ss.len() - 1 {
        lemma_max_dim_bounds(ss.drop_last(), i);
    }
}

/// The largest dimension is the dimension of one of the simplices.
proof fn lemma_max_dim_witness(ss: Seq<Seq<usize>>)
    requires
        max_dim(ss) > 0,
    ensures
        exists|i: int| 0 <= i < ss.len() && spec_dim(#[trigger] ss[i]) == max_dim(ss),
    decreases ss.len(),
{
    if max_dim(ss.drop_last()) < spec_dim(ss.last()) {
        assert(spec_dim(ss[ss.len() - 1]) == max_dim(ss));
    } else {
        lemma_max_dim_witness(ss.drop_last());
        let i = choose|i: int| 0 <= i < ss.drop_last().len() && spec_dim(#[trigger] ss.drop_last()[i]) == max_dim(ss.drop_last());
        assert(ss[i] == ss.drop_last()[i]);
    }
}

/// Some simplex of the set has a vertex.
pub open spec fn has_a_vertex(ss: Set<Seq<usize>>) -> bool {
    exists|t: Seq<usize>| #[trigger] ss.contains(t) && t.len() > 0
}

/// The vertex count `n` is one more than some vertex of the set when the set
/// has a vertex (so, with every vertex below `n`, one more than the largest
/// vertex), and at most 1 when it has none.
pub open spec fn count_is_tight(ss: Set<Seq<usize>>, n: nat) -> bool {
    if has_a_vertex(ss) {
        exists|t: Seq<usize>, k: int| #[trigger] ss.contains(t) && 0 <= k < t.len() && #[trigger] t[k] + 1 == n
    } else {
        n <= 1
    }
}

/// `m` is a vertex of some simplex of the set, and no vertex exceeds it.
pub open spec fn is_largest_vertex(ss: Set<Seq<usize>>, m: int) -> bool {
    &&& exists|t: Seq<usize>, k: int| #[trigger] ss.contains(t) && 0 <= k < t.len() && #[trigger] t[k] == m
    &&& forall|t: Seq<usize>, k: int| #[trigger] ss.contains(t) && 0 <= k < t.len() ==> #[trigger] t[k] <= m
}

/// The largest vertex of the simplices of the set (meaningful when the set
/// has a vertex).
pub open spec fn largest_vertex(ss: Set<Seq<usize>>) -> int {
    choose|m: int| is_largest_vertex(ss, m)
}

/// Some simplex of the list has a vertex; then one with the largest top
/// vertex has the largest vertex.
proof fn lemma_max_vertex_witness(ss: Seq<Seq<usize>>)
    ensures
        (exists|i: int| 0 <= i < ss.len() && #[trigger] ss[i].len() > 0) ==> exists|i: int|
            0 <= i < ss.len() && #[trigger] ss[i].len() > 0 && top_vertex(ss[i]) == max_vertex(ss),
        !(exists|i: int| 0 <= i < ss.len() && #[trigger] ss[i].len() > 0) ==> max_vertex(ss) == 0,
    decreases ss.len(),
{
    if ss.len() > 0 {
        let init = ss.drop_last();
        lemma_max_vertex_witness(init);
        let last = ss.len() - 1;
        if exists|i: int| 0 <= i < init.len() && #[trigger] init[i].len() > 0 {
            let i = choose|i: int| 0 <= i < init.len() && #[trigger] init[i].len() > 0 && top_vertex(init[i]) == max_vertex(init);
            assert(ss[i] == init[i]);
            if max_vertex(init) < top_vertex(ss[last]) {
                assert(ss[last].len() > 0);
            }
        } else {
            assert forall|i: int| 0 <= i < init.len() implies #[trigger] ss[i].len() == 0 by {
                assert(ss[i] == init[i]);
            }
            if ss[last].len() == 0 {
                assert(!(exists|i: int| 0 <= i < ss.len() && #[trigger] ss[i].len() > 0));
            }
        }
    }
}

/// A simplicial complex: a set of simplices closed under taking faces.
///
/// The simplices are held in a `Vec` kept in strictly increasing
/// lexicographic order, in place of an ordered set keyed by `Simplex`: the
/// order of such a set rests on the `Ord` that `derive` writes, which the
/// verifier does not read, so nothing about its contents or its iteration
/// order could be proved. The invariant of the `Vec` states that order.
#[derive(Debug)]
pub struct SimplicialComplex {
    simplices: Vec<Simplex>,
    n_vertices: usize,
}

impl View for SimplicialComplex {
    type V = Seq<Seq<usize>>;

    /// The simplices, as sorted vertex sequences, in increasing
    /// lexicographic order.
    open spec fn view(&self) -> Seq<Seq<usize>> {
        self.spec_simplices()
    }
}

impl SimplicialComplex {
    pub closed spec fn spec_simplices(&self) -> Seq<Seq<usize>> {
        views(self.simplices@)
    }

    pub closed spec fn spec_n_vertices(&self) -> nat {
        self.n_vertices as nat
    }

    /// The simplices as a set.
    pub open spec fn simplex_set(&self) -> Set<Seq<usize>> {
        self@.to_set()
    }

    /// The simplices are kept in increasing order without repetition, each
    /// sorted, the set is closed under taking faces, every vertex is below
    /// the vertex count, and the count is one more than the largest vertex
    /// (at most 1 when there is no vertex).
    #[verifier::type_invariant]
    pub open spec fn complex_inv(&self) -> bool {
        &&& sorted_distinct(self@)
        &&& all_sorted(self@)
        &&& closed_under_faces(self@.to_set())
        &&& vertices_below(self@, self.spec_n_vertices())
        &&& count_is_tight(self@.to_set(), self.spec_n_vertices())
    }

    /// The empty complex.
    pub fn new() -> (c: SimplicialComplex)
        ensures
            c@ == Seq::<Seq<usize>>::empty(),
            c.spec_n_vertices() == 0,
    {
        let c = SimplicialComplex { simplices: Vec::new(), n_vertices: 0 };
        assert(c@ =~= Seq::<Seq<usize>>::empty());
        c
    }

    /// Build from a set of simplices, automatically adding all faces.
    /// The vertex count is one more than the largest vertex given (1 when
    /// there is none).
    pub fn from_simplices(simplices: Vec<Simplex>) -> (c: SimplicialComplex)
        requires
            forall|i: int| 0 <= i < simplices@.len() ==> top_vertex(#[trigger] simplices@[i]@) < usize::MAX,
        ensures
            c.simplex_set() == closure_of_all(views(simplices@)),
            forall|i: int| 0 <= i < simplices@.len() ==> c.simplex_set().contains(#[trigger] simplices@[i]@),
            c.spec_n_vertices() == max_vertex(views(simplices@)) + 1,
            closed_under_faces(c.simplex_set()),
    {
        let mut all: Vec<Simplex> = Vec::new();
        let mut max_v: usize = 0;
        let ghost inputs = views(simplices@);
        assert(views(all@).to_set() =~= closure_of_prefix(inputs, 0));
        let mut i: usize = 0;
        while i < simplices.len()
            invariant
                0 <= i <= simplices@.len(),
                inputs == views(simplices@),
                forall|j: int| 0 <= j < simplices@.len() ==> top_vertex(#[trigger] simplices@[j]@) < usize::MAX,
                sorted_distinct(views(all@)),
                all_sorted(views(all@)),
                closed_under_faces(views(all@).to_set()),
                views(all@).to_set() == closure_of_prefix(inputs, i as int),
                max_v == max_vertex(inputs.take(i as int)),
                max_v < usize::MAX,
                vertices_below(views(all@), max_v as nat + 1),
            decreases simplices@.len() - i,
        {
            let s = &simplices[i];
            proof {
                use_type_invariant(s);
            }
            let ghost before = views(all@);
            add_with_faces(&mut all, s);
            let mut k: usize = 0;
            let ghost old_max = max_v;
            while k < s.len()
                invariant
                    0 <= k <= s@.len(),
                    strictly_increasing(s@),
                    top_vertex(s@) < usize::MAX,
                    old_max < usize::MAX,
                    max_v < usize::MAX,
                    max_v == (if k == 0 {
                        old_max as nat
                    } else if old_max < s@[k - 1] {
                        s@[k - 1] as nat
                    } else {
                        old_max as nat
                    }),
                decreases s@.len() - k,
            {
                let v = s.get(k);
                assert(v <= top_vertex(s@));
                if v > max_v {
                    max_v = v;
                }
                k = k + 1;
            }
            proof {
                assert(inputs.take(i + 1).drop_last() =~= inputs.take(i as int));
                assert(inputs.take(i + 1).last() == s@);
                assert(max_v == max_vertex(inputs.take(i + 1)));
                assert(views(all@).to_set() =~= closure_of_prefix(inputs, i + 1)) by {
                    assert forall|t: Seq<usize>| #[trigger] views(all@).to_set().contains(t)
                        <==> closure_of_prefix(inputs, i + 1).contains(t) by {
                        if closure_of_prefix(inputs, i + 1).contains(t) {
                            let j = choose|j: int| 0 <= j < i + 1 && is_face_of(t, #[trigger] inputs[j]);
                            if j < i {
                                assert(closure_of_prefix(inputs, i as int).contains(t));
                            } else {
                                assert(face_closure(s@).contains(t));
                            }
                        }
                        if closure_of_prefix(inputs, i as int).contains(t) {
                            let j = choose|j: int| 0 <= j < i && is_face_of(t, #[trigger] inputs[j]);
                            assert(closure_of_prefix(inputs, i + 1).contains(t));
                        }
                        if face_closure(s@).contains(t) {
                            assert(is_face_of(t, inputs[i as int]));
                            assert(closure_of_prefix(inputs, i + 1).contains(t));
                        }
                    }
                }
                assert forall|a: int, b: int| 0 <= a < views(all@).len() && 0 <= b < views(all@)[a].len()
                    implies #[trigger] views(all@)[a][b] < max_v as nat + 1 by {
                    let t = views(all@)[a];
                    assert(views(all@).to_set().contains(t));
                    if before.to_set().contains(t) {
                        let p = choose|p: int| 0 <= p < before.len() && before[p] == t;
                        assert(before[p][b] < old_max as nat + 1);
                    } else {
                        lemma_face_closure_below(s@, t, b);
                    }
                }
            }
            i = i + 1;
        }
        proof {
            assert(inputs.take(i as int) =~= inputs);
            let cl = views(all@).to_set();
            lemma_max_vertex_witness(inputs);
            if exists|j: int| 0 <= j < inputs.len() && #[trigger] inputs[j].len() > 0 {
                let j = choose|j: int| 0 <= j < inputs.len() && #[trigger] inputs[j].len() > 0 && top_vertex(inputs[j]) == max_vertex(inputs);
                assert(is_face_of(inputs[j], inputs[j]));
                assert(cl.contains(inputs[j]));
                let k = inputs[j].len() - 1;
                assert(inputs[j][k] + 1 == max_v + 1);
                assert(count_is_tight(cl, (max_v + 1) as nat));
            } else {
                assert(!has_a_vertex(cl)) by {
                    if has_a_vertex(cl) {
                        let t = choose|t: Seq<usize>| #[trigger] cl.contains(t) && t.len() > 0;
                        let j = choose|j: int| 0 <= j < inputs.len() && is_face_of(t, #[trigger] inputs[j]);
                        assert(inputs[j].len() == 0);
                        lemma_face_of_short(t, inputs[j]);
                    }
                }
            }
            assert forall|q: int| 0 <= q < simplices@.len() implies closure_of_all(inputs).contains(
                #[trigger] simplices@[q]@,
            ) by {
                assert(is_face_of(simplices@[q]@, inputs[q]));
            }
        }
        SimplicialComplex { simplices: all, n_vertices: max_v + 1 }
    }

    /// Add a simplex and all its faces. The vertex count grows to exceed
    /// every vertex of the simplex.
    pub fn add_simplex(&mut self, simplex: &Simplex)
        requires
            top_vertex(simplex@) < usize::MAX,
        ensures
            final(self).simplex_set() == old(self).simplex_set().union(face_closure(simplex@)),
            final(self).simplex_set().contains(simplex@),
            final(self).spec_n_vertices() == count_after_adding(old(self).spec_n_vertices(), simplex@),
            closed_under_faces(final(self).simplex_set()),
    {
        proof {
            use_type_invariant(&*self);
            use_type_invariant(simplex);
        }
        let ghost old_n = self.n_vertices;
        let mut k: usize = 0;
        let mut n = self.n_vertices;
        while k < simplex.len()
            invariant
                0 <= k <= simplex@.len(),
                strictly_increasing(simplex@),
                top_vertex(simplex@) < usize::MAX,
                n == (if k == 0 {
                    old_n as nat
                } else if old_n < simplex@[k - 1] + 1 {
                    (simplex@[k - 1] + 1) as nat
                } else {
                    old_n as nat
                }),
            decreases simplex@.len() - k,
        {
            let v = simplex.get(k);
            assert(v <= top_vertex(simplex@));
            if v + 1 > n {
                n = v + 1;
            }
            k = k + 1;
        }
        assert(k == simplex@.len());
        assert(n >= old_n);
        assert(simplex@.len() > 0 ==> n == top_vertex(simplex@) + 1 || n > top_vertex(simplex@) + 1);
        let ghost before = self@;
        let mut taken = SimplicialComplex::new();
        std::mem::swap(&mut taken, self);
        let mut all = taken.simplices;
        assert(views(all@) == before);
        add_with_faces(&mut all, simplex);
        proof {
            let bs = before.to_set();
            let ns = views(all@).to_set();
            assert(count_is_tight(bs, old_n as nat));
            if simplex@.len() > 0 {
                let k = simplex@.len() - 1;
                assert(face_closure(simplex@).contains(simplex@));
                assert(ns.contains(simplex@));
                if old_n < simplex@.last() + 1 {
                    assert(simplex@[k] + 1 == n);
                } else if has_a_vertex(bs) {
                    let (t, kk) = choose|t: Seq<usize>, kk: int| #[trigger] bs.contains(t) && 0 <= kk < t.len() && #[trigger] t[kk] + 1 == old_n;
                    assert(ns.contains(t));
                } else {
                    assert(simplex@[k] + 1 == n);
                }
                assert(count_is_tight(ns, n as nat));
            } else {
                assert forall|t: Seq<usize>| #[trigger] ns.contains(t) && t.len() > 0 implies bs.contains(t) by {
                    if !bs.contains(t) {
                        lemma_face_of_short(t, simplex@);
                    }
                }
                if has_a_vertex(ns) {
                    let t0 = choose|t: Seq<usize>| #[trigger] ns.contains(t) && t.len() > 0;
                    assert(bs.contains(t0));
                    let (t, kk) = choose|t: Seq<usize>, kk: int| #[trigger] bs.contains(t) && 0 <= kk < t.len() && #[trigger] t[kk] + 1 == old_n;
                    assert(ns.contains(t));
                } else {
                    if has_a_vertex(bs) {
                        let t = choose|t: Seq<usize>| #[trigger] bs.contains(t) && t.len() > 0;
                        assert(ns.contains(t));
                    }
                }
                assert(count_is_tight(ns, n as nat));
            }
        }
        proof {
            assert forall|a: int, b: int| 0 <= a < views(all@).len() && 0 <= b < views(all@)[a].len()
                implies #[trigger] views(all@)[a][b] < n as nat by {
                let t = views(all@)[a];
                assert(views(all@).to_set().contains(t));
                if before.to_set().contains(t) {
                    let p = choose|p: int| 0 <= p < before.len() && before[p] == t;
                    assert(before[p][b] < old_n as nat);
                } else {
                    assert(face_closure(simplex@).contains(t));
                    if simplex@.len() == 0 {
                        lemma_face_of_short(t, simplex@);
                    }
                    lemma_face_closure_below(simplex@, t, b);
                }
            }
        }
        *self = SimplicialComplex { simplices: all, n_vertices: n };
        assert(face_closure(simplex@).contains(simplex@));
    }

    /// The simplices, in increasing order.
    pub fn simplices(&self) -> (v: &Vec<Simplex>)
        ensures
            views(v@) == self@,
    {
        &self.simplices
    }

    /// Number of vertices: one more than the largest vertex of a simplex,
    /// when some simplex has a vertex; every vertex lies below it.
    pub fn n_vertices(&self) -> (n: usize)
        ensures
            n == self.spec_n_vertices(),
            vertices_below(self@, n as nat),
            count_is_tight(self.simplex_set(), n as nat),
            has_a_vertex(self.simplex_set()) ==> n == largest_vertex(self.simplex_set()) + 1,
    {
        proof {
            use_type_invariant(self);
            let ss = self.simplex_set();
            let n = self.spec_n_vertices();
            if has_a_vertex(ss) {
                assert forall|t: Seq<usize>, k: int| #[trigger] ss.contains(t) && 0 <= k < t.len() implies #[trigger] t[k] <= n - 1 by {
                    let i = choose|i: int| 0 <= i < self@.len() && self@[i] == t;
                    assert(self@[i][k] < n);
                }
                assert(is_largest_vertex(ss, n - 1));
                let m = largest_vertex(ss);
                assert(is_largest_vertex(ss, m));
                let (t1, k1) = choose|t: Seq<usize>, k: int| #[trigger] ss.contains(t) && 0 <= k < t.len() && #[trigger] t[k] == m;
                let (t2, k2) = choose|t: Seq<usize>, k: int| #[trigger] ss.contains(t) && 0 <= k < t.len() && #[trigger] t[k] == n - 1;
                assert(t1[k1] <= n - 1);
                assert(t2[k2] <= m);
            }
        }
        self.n_vertices
    }

    /// Number of simplices.
    pub fn n_simplices(&self) -> (n: usize)
        ensures
            n == self@.len(),
    {
        self.simplices.len()
    }

    /// The simplices of dimension `dim`, in increasing order.
    pub fn simplices_of_dim(&self, dim: usize) -> (v: Vec<&Simplex>)
        ensures
            Seq::new(v@.len(), |i: int| v@[i]@) == self@.filter(has_dim(dim as nat)),
    {
        let mut out: Vec<&Simplex> = Vec::new();
        let ghost all = self@;
        let mut i: usize = 0;
        while i < self.simplices.len()
            invariant
                0 <= i <= self.simplices@.len(),
                all == self@,
                all == views(self.simplices@),
                Seq::new(out@.len(), |k: int| out@[k]@) == all.take(i as int).filter(has_dim(dim as nat)),
            decreases self.simplices@.len() - i,
        {
            let s = &self.simplices[i];
            let ghost prev = Seq::new(out@.len(), |k: int| out@[k]@);
            proof {
                reveal_with_fuel(Seq::<_>::filter, 1);
                assert(all.take(i + 1).drop_last() =~= all.take(i as int));
                assert(all.take(i + 1).last() == s@);
            }
            if s.dim() == dim {
                out.push(s);
                assert(Seq::new(out@.len(), |k: int| out@[k]@) =~= prev.push(s@));
            }
            i = i + 1;
        }
        assert(all.take(i as int) =~= all);
        out
    }

    /// Euler characteristic: alternating sum of simplex counts by dimension.
    pub fn euler_characteristic(&self) -> (chi: i64)
        requires
            self@.len() <= i64::MAX,
        ensures
            chi == euler_characteristic_of(self@),
            chi == signed_simplex_count(self@),
    {
        proof {
            lemma_euler_is_signed_count(self@);
        }
        let mut max_d: usize = 0;
        let mut i: usize = 0;
        let ghost all = self@;
        while i < self.simplices.len()
            invariant
                0 <= i <= self.simplices@.len(),
                all == self@,
                all == views(self.simplices@),
                max_d == max_dim(all.take(i as int)),
            decreases self.simplices@.len() - i,
        {
            let d = self.simplices[i].dim();
            assert(all.take(i + 1).drop_last() =~= all.take(i as int));
            if d > max_d {
                max_d = d;
            }
            i = i + 1;
        }
        assert(all.take(i as int) =~= all);
        proof {
            if all.len() > 0 {
                lemma_max_dim_bounds(all, all.len() - 1);
            }
            // a dimension is one less than a length
            assert(max_d < usize::MAX) by {
                if max_d > 0 {
                    lemma_max_dim_witness(all);
                    let k = choose|k: int| 0 <= k < all.len() && spec_dim(#[trigger] all[k]) == max_dim(all);
                    assert(all[k] == self.simplices@[k].0@);
                    assert(self.simplices@[k].0@.len() == self.simplices@[k].0.len());
                }
            }
        }
        let mut chi: i64 = 0;
        let mut d: usize = 0;
        while d <= max_d
            invariant
                0 <= d <= max_d + 1,
                max_d < usize::MAX,
                all == self@,
                all.len() <= i64::MAX,
                d == 0 ==> chi == 0,
                d > 0 ==> chi == alternating_count(all, (d - 1) as nat),
            decreases max_d + 1 - d,
        {
            let count = self.simplices_of_dim(d).len();
            proof {
                lemma_count_upto_le_len(all, d as nat);
                lemma_alternating_bounded(all, d as nat);
                assert(count == count_of_dim(all, d as nat));
                if d > 0 {
                    assert(count_upto(all, d as nat) == count_upto(all, (d - 1) as nat) + count);
                    lemma_alternating_bounded(all, (d - 1) as nat);
                }
            }
            let c = count as i64;
            if d % 2 == 0 {
                chi = chi + c;
            } else {
                chi = chi - c;
            }
            d = d + 1;
        }
        chi
    }

    /// Whether the complex holds the simplex.
    pub fn contains(&self, simplex: &Simplex) -> (b: bool)
        ensures
            b == self.simplex_set().contains(simplex@),
    {
        proof {
            use_type_invariant(self);
        }
        let (_, found) = find_position(&self.simplices, simplex);
        found
    }
}

} // verus!
