//! The combinatorial part of the alpha complex. Which pairs of points are
//! within `alpha` of their midpoint, which triples have a circumradius of at
//! most `alpha`, and (in the plane) which triples are Delaunay triangles is
//! decided from the coordinates beforehand and handed in as boolean arrays;
//! only entries with increasing indices (`pairs[a][b]` for `a < b`,
//! `triples[a][b][c]` for `a < b < c`) are read.

use vstd::prelude::*;
use crate::order::{strictly_increasing, vset, is_face_of, lemma_sorted_same_set_equal, lemma_face_in_some_removed};
use crate::complex::{Simplex, SimplicialComplex, face_closure};
use crate::clique::{rows, is_clique, clique_complex, square, add_vertices, add_edges, lemma_clique_faces, lemma_face_len};
use crate::combinations::is_combination;

verus! {

/// The array is `n` by `n` by `n`.
pub open spec fn cube(triples: Seq<Vec<Vec<bool>>>, n: nat) -> bool {
    &&& triples.len() == n
    &&& forall|i: int| 0 <= i < n ==> (#[trigger] triples[i])@.len() == n
    &&& forall|i: int, j: int| 0 <= i < n && 0 <= j < n ==> (#[trigger] triples[i]@[j])@.len() == n
}

/// The entry of the triple array at `(x, y, z)`.
pub open spec fn entry3(triples: Seq<Vec<Vec<bool>>>, x: usize, y: usize, z: usize) -> bool {
    triples[x as int]@[y as int]@[z as int]
}

/// The entry of the triple array for a sorted triangle `t`.
pub open spec fn triple_entry(triples: Seq<Vec<Vec<bool>>>, t: Seq<usize>) -> bool {
    entry3(triples, t[0], t[1], t[2])
}

/// The triangles on `0..n` whose three edges are close pairs and whose
/// entry in `triples` holds.
pub open spec fn good_triangles(n: nat, w: Seq<Seq<bool>>, triples: Seq<Vec<Vec<bool>>>) -> Set<Seq<usize>> {
    Set::new(|t: Seq<usize>| is_combination(t, n, 3) && is_clique(w, t) && triple_entry(triples, t))
}

/// The triangle `t` comes before `(i, j, k)` in the order in which triples
/// are visited.
pub open spec fn visited_before(t: Seq<usize>, i: usize, j: usize, k: usize) -> bool {
    t[0] < i || (t[0] == i && (t[1] < j || (t[1] == j && t[2] < k)))
}

/// A face of `s` other than `s` has fewer vertices.
proof fn lemma_proper_face_shorter(t: Seq<usize>, s: Seq<usize>)
    requires
        strictly_increasing(s),
        is_face_of(t, s),
        t != s,
    ensures
        t.len() < s.len(),
{
    let i = lemma_face_in_some_removed(t, s);
    crate::order::lemma_remove_sorted(s, i);
    if t != s.remove(i) {
        lemma_face_len(t, s.remove(i));
    }
}

/// The simplex on three increasing vertices.
fn triangle(i: usize, j: usize, k: usize) -> (s: Simplex)
    requires
        i < j < k,
    ensures
        s@ == seq![i, j, k],
{
    let v = vec![i, j, k];
    let s = Simplex::new(v);
    proof {
        use_type_invariant(&s);
        let t = seq![i, j, k];
        assert(v@ =~= t);
        lemma_sorted_same_set_equal(s@, t);
    }
    s
}

/// Whether the sorted triangle `(i, j, k)` has three close edges.
fn all_close3(within: &Vec<Vec<bool>>, n: usize, i: usize, j: usize, k: usize) -> (b: bool)
    requires
        square(within@, n as nat),
        i < j < k < n,
    ensures
        b == is_clique(rows(within@), seq![i, j, k]),
{
    let ghost w = rows(within@);
    let ghost t = seq![i, j, k];
    assert(w[i as int] == within@[i as int]@);
    assert(w[j as int] == within@[j as int]@);
    let b = within[i][j] && within[i][k] && within[j][k];
    proof {
        if b {
            assert forall|a: int, c: int| 0 <= a < c < t.len() implies #[trigger] w[t[a] as int][t[c] as int] by {
                if a == 0 && c == 1 {
                } else if a == 0 {
                } else {
                }
            }
        } else {
            if !within@[i as int]@[j as int] {
                assert(!w[t[0] as int][t[1] as int]);
            } else if !within@[i as int]@[k as int] {
                assert(!w[t[0] as int][t[2] as int]);
            } else {
                assert(!w[t[1] as int][t[2] as int]);
            }
        }
    }
    b
}

/// The alpha complex away from the plane: the vertices `0..n`, the edges
/// between pairs with `within`, and the triangles whose three edges are
/// there and whose entry in `triples` holds.
pub fn alpha_from_graph(n: usize, within: &Vec<Vec<bool>>, triples: &Vec<Vec<Vec<bool>>>) -> (c: SimplicialComplex)
    requires
        square(within@, n as nat),
        cube(triples@, n as nat),
    ensures
        c.simplex_set() == clique_complex(n as nat, rows(within@), 2).union(
            good_triangles(n as nat, rows(within@), triples@),
        ),
        c.spec_n_vertices() == n,
{
    let ghost w = rows(within@);
    let ghost c2 = clique_complex(n as nat, w, 2);
    let ghost good = good_triangles(n as nat, w, triples@);
    let mut complex = add_vertices(n);
    proof {
        assert forall|t: Seq<usize>| #[trigger] complex.simplex_set().contains(t) <==> clique_complex(n as nat, w, 1).contains(t) by {
            if t.len() == 1 && t[0] < n {
                assert(is_combination(t, n as nat, 1));
            }
        }
        assert(complex.simplex_set() =~= clique_complex(n as nat, w, 1));
    }
    add_edges(&mut complex, within, n);
    let mut i: usize = 0;
    while i < n
        invariant
            square(within@, n as nat),
            cube(triples@, n as nat),
            w == rows(within@),
            c2 == clique_complex(n as nat, w, 2),
            good == good_triangles(n as nat, w, triples@),
            0 <= i <= n,
            complex.spec_n_vertices() == n,
            forall|t: Seq<usize>| #[trigger] complex.simplex_set().contains(t) <==> c2.contains(t)
                || (good.contains(t) && t[0] < i),
        decreases n - i,
    {
        let mut j: usize = i + 1;
        while j < n
            invariant
                square(within@, n as nat),
                cube(triples@, n as nat),
                w == rows(within@),
                c2 == clique_complex(n as nat, w, 2),
                good == good_triangles(n as nat, w, triples@),
                0 <= i < n,
                i + 1 <= j <= n,
                complex.spec_n_vertices() == n,
                forall|t: Seq<usize>| #[trigger] complex.simplex_set().contains(t) <==> c2.contains(t)
                    || (good.contains(t) && visited_before(t, i, j, 0)),
            decreases n - j,
        {
            let mut k: usize = j + 1;
            while k < n
                invariant
                    square(within@, n as nat),
                    cube(triples@, n as nat),
                    w == rows(within@),
                    c2 == clique_complex(n as nat, w, 2),
                    good == good_triangles(n as nat, w, triples@),
                    0 <= i < j < n,
                    j + 1 <= k <= n,
                    complex.spec_n_vertices() == n,
                    forall|t: Seq<usize>| #[trigger] complex.simplex_set().contains(t) <==> c2.contains(t)
                        || (good.contains(t) && visited_before(t, i, j, k)),
                decreases n - k,
            {
                let cl = all_close3(within, n, i, j, k);
                let ghost s = seq![i, j, k];
                if cl && triples[i][j][k] {
                    let tri = triangle(i, j, k);
                    complex.add_simplex(&tri);
                    proof {
                        assert(is_combination(s, n as nat, 3));
                        assert(good.contains(s));
                        assert(clique_complex(n as nat, w, 3).contains(s));
                        lemma_clique_faces(n as nat, w, 3, s);
                        assert forall|t: Seq<usize>| #[trigger] complex.simplex_set().contains(t) <==> c2.contains(t)
                            || (good.contains(t) && visited_before(t, i, j, (k + 1) as usize)) by {
                            if face_closure(s).contains(t) && t != s {
                                lemma_proper_face_shorter(t, s);
                                assert(clique_complex(n as nat, w, 3).contains(t));
                            }
                            if good.contains(t) && t[0] == i && t[1] == j && t[2] == k {
                                assert(t =~= s);
                            }
                        }
                    }
                } else {
                    proof {
                        assert forall|t: Seq<usize>| #[trigger] complex.simplex_set().contains(t) <==> c2.contains(t)
                            || (good.contains(t) && visited_before(t, i, j, (k + 1) as usize)) by {
                            if good.contains(t) && t[0] == i && t[1] == j && t[2] == k {
                                assert(t =~= s);
                                assert(triple_entry(triples@, t) == triples@[i as int]@[j as int]@[k as int]);
                            }
                        }
                    }
                }
                k = k + 1;
            }
            proof {
                assert forall|t: Seq<usize>| #[trigger] complex.simplex_set().contains(t) <==> c2.contains(t)
                    || (good.contains(t) && visited_before(t, i, (j + 1) as usize, 0)) by {
                    if good.contains(t) && t[0] == i && t[1] == j {
                        assert(t[2] < n);
                    }
                }
            }
            j = j + 1;
        }
        proof {
            assert forall|t: Seq<usize>| #[trigger] complex.simplex_set().contains(t) <==> c2.contains(t)
                || (good.contains(t) && t[0] < i + 1) by {
                if good.contains(t) && t[0] == i {
                    assert(t[1] < n);
                    assert(t[0] < t[1]);
                }
            }
        }
        i = i + 1;
    }
    proof {
        assert forall|t: Seq<usize>| #[trigger] complex.simplex_set().contains(t) <==> c2.union(good).contains(t) by {
            if good.contains(t) {
                assert(t[0] < n);
            }
        }
        assert(complex.simplex_set() =~= c2.union(good));
    }
    complex
}


/// The vertices `0..n`.
pub open spec fn vertex_set(n: nat) -> Set<Seq<usize>> {
    Set::new(|t: Seq<usize>| t.len() == 1 && t[0] < n)
}

/// Some triangle on `0..n` with its entry of `triples` set has both `a`
/// and `b` among its vertices.
pub open spec fn on_triangle(n: nat, triples: Seq<Vec<Vec<bool>>>, a: usize, b: usize) -> bool {
    exists|t: Seq<usize>|
        is_combination(t, n, 3) && #[trigger] triple_entry(triples, t) && vset(t).contains(a) && vset(t).contains(b)
}

/// The edges between close pairs that are sides of a Delaunay triangle.
pub open spec fn delaunay_edges(n: nat, w: Seq<Seq<bool>>, delaunay: Seq<Vec<Vec<bool>>>) -> Set<Seq<usize>> {
    Set::new(|t: Seq<usize>| is_combination(t, n, 2) && w[t[0] as int][t[1] as int] && on_triangle(n, delaunay, t[0], t[1]))
}

/// The Delaunay triangles whose entry in `triples` holds.
pub open spec fn chosen_triangles(n: nat, delaunay: Seq<Vec<Vec<bool>>>, triples: Seq<Vec<Vec<bool>>>) -> Set<Seq<usize>> {
    Set::new(|t: Seq<usize>| is_combination(t, n, 3) && triple_entry(delaunay, t) && triple_entry(triples, t))
}

/// All faces of the simplices of a set.
pub open spec fn faces_of(ss: Set<Seq<usize>>) -> Set<Seq<usize>> {
    Set::new(|t: Seq<usize>| exists|s: Seq<usize>| #[trigger] ss.contains(s) && is_face_of(t, s))
}

/// The edge `t` comes before `(a, b)` in the order in which pairs are
/// visited.
pub open spec fn pair_before(t: Seq<usize>, a: usize, b: usize) -> bool {
    t[0] < a || (t[0] == a && t[1] < b)
}

/// The entry of the triple array for three distinct vertices, whatever
/// their order.
fn entry_of(triples: &Vec<Vec<Vec<bool>>>, n: usize, a: usize, b: usize, c: usize) -> (r: bool)
    requires
        cube(triples@, n as nat),
        a < b < n,
        c < n,
        c != a,
        c != b,
    ensures
        c < a ==> r == triple_entry(triples@, seq![c, a, b]),
        a < c < b ==> r == triple_entry(triples@, seq![a, c, b]),
        b < c ==> r == triple_entry(triples@, seq![a, b, c]),
{
    if c < a {
        triples[c][a][b]
    } else if c < b {
        triples[a][c][b]
    } else {
        triples[a][b][c]
    }
}

/// Whether some triangle on `0..n` with its entry set has `a < b` among its
/// vertices.
fn on_some_triangle(triples: &Vec<Vec<Vec<bool>>>, n: usize, a: usize, b: usize) -> (r: bool)
    requires
        cube(triples@, n as nat),
        a < b < n,
    ensures
        r == on_triangle(n as nat, triples@, a, b),
{
    let mut c: usize = 0;
    while c < n
        invariant
            cube(triples@, n as nat),
            a < b < n,
            0 <= c <= n,
            forall|d: usize| d < c && d < a ==> !#[trigger] entry3(triples@, d, a, b),
            forall|d: usize| d < c && a < d < b ==> !#[trigger] entry3(triples@, a, d, b),
            forall|d: usize| d < c && b < d ==> !#[trigger] entry3(triples@, a, b, d),
        decreases n - c,
    {
        if c != a && c != b {
            if entry_of(triples, n, a, b, c) {
                proof {
                    let t = if c < a {
                        seq![c, a, b]
                    } else if c < b {
                        seq![a, c, b]
                    } else {
                        seq![a, b, c]
                    };
                    assert(is_combination(t, n as nat, 3));
                    assert(vset(t).contains(t[0]) && vset(t).contains(t[1]) && vset(t).contains(t[2]));
                    assert(triple_entry(triples@, t));
                }
                return true;
            }
        }
        c = c + 1;
    }
    proof {
        if on_triangle(n as nat, triples@, a, b) {
            let t = choose|t: Seq<usize>|
                is_combination(t, n as nat, 3) && #[trigger] triple_entry(triples@, t) && vset(t).contains(a) && vset(
                    t,
                ).contains(b);
            let pa = choose|p: int| 0 <= p < t.len() && t[p] == a;
            let pb = choose|p: int| 0 <= p < t.len() && t[p] == b;
            if pa == 0 && pb == 1 {
                assert(entry3(triples@, a, b, t[2]));
            } else if pa == 0 && pb == 2 {
                assert(entry3(triples@, a, t[1], b));
            } else {
                assert(pa == 1 && pb == 2);
                assert(entry3(triples@, t[0], a, b));
            }
        }
    }
    false
}

/// Faces of an edge other than the edge are its vertices.
proof fn lemma_edge_faces(s: Seq<usize>, n: nat)
    requires
        is_combination(s, n, 2),
    ensures
        forall|t: Seq<usize>| #[trigger] face_closure(s).contains(t) && t != s ==> vertex_set(n).contains(t),
{
    assert forall|t: Seq<usize>| #[trigger] face_closure(s).contains(t) && t != s implies vertex_set(n).contains(t) by {
        lemma_proper_face_shorter(t, s);
        assert(vset(t).contains(t[0]));
    }
}

/// The alpha complex in the plane: the vertices `0..n`, the sides of
/// Delaunay triangles between pairs with `within`, and the Delaunay
/// triangles whose entry in `triples` holds, with all their faces.
pub fn alpha_planar(
    n: usize,
    within: &Vec<Vec<bool>>,
    delaunay: &Vec<Vec<Vec<bool>>>,
    triples: &Vec<Vec<Vec<bool>>>,
) -> (c: SimplicialComplex)
    requires
        square(within@, n as nat),
        cube(delaunay@, n as nat),
        cube(triples@, n as nat),
    ensures
        c.simplex_set() == vertex_set(n as nat).union(delaunay_edges(n as nat, rows(within@), delaunay@)).union(
            faces_of(chosen_triangles(n as nat, delaunay@, triples@)),
        ),
        c.spec_n_vertices() == n,
{
    let ghost w = rows(within@);
    let ghost vs = vertex_set(n as nat);
    let ghost es = delaunay_edges(n as nat, w, delaunay@);
    let ghost ts = chosen_triangles(n as nat, delaunay@, triples@);
    let mut complex = add_vertices(n);
    let mut a: usize = 0;
    while a < n
        invariant
            square(within@, n as nat),
            cube(delaunay@, n as nat),
            w == rows(within@),
            vs == vertex_set(n as nat),
            es == delaunay_edges(n as nat, w, delaunay@),
            0 <= a <= n,
            complex.spec_n_vertices() == n,
            forall|t: Seq<usize>| #[trigger] complex.simplex_set().contains(t) <==> vs.contains(t)
                || (es.contains(t) && t[0] < a),
        decreases n - a,
    {
        let mut b: usize = a + 1;
        while b < n
            invariant
                square(within@, n as nat),
                cube(delaunay@, n as nat),
                w == rows(within@),
                vs == vertex_set(n as nat),
                es == delaunay_edges(n as nat, w, delaunay@),
                0 <= a < n,
                a + 1 <= b <= n,
                complex.spec_n_vertices() == n,
                forall|t: Seq<usize>| #[trigger] complex.simplex_set().contains(t) <==> vs.contains(t)
                    || (es.contains(t) && pair_before(t, a, b)),
            decreases n - b,
        {
            let ghost s = seq![a, b];
            assert(w[a as int] == within@[a as int]@);
            if within[a][b] && on_some_triangle(delaunay, n, a, b) {
                let e = Simplex::edge(a, b);
                complex.add_simplex(&e);
                proof {
                    assert(is_combination(s, n as nat, 2));
                    assert(es.contains(s));
                    lemma_edge_faces(s, n as nat);
                    assert forall|t: Seq<usize>| #[trigger] complex.simplex_set().contains(t) <==> vs.contains(t)
                        || (es.contains(t) && pair_before(t, a, (b + 1) as usize)) by {
                        if es.contains(t) && t[0] == a && t[1] == b {
                            assert(t =~= s);
                        }
                    }
                }
            } else {
                proof {
                    assert forall|t: Seq<usize>| #[trigger] complex.simplex_set().contains(t) <==> vs.contains(t)
                        || (es.contains(t) && pair_before(t, a, (b + 1) as usize)) by {
                        if es.contains(t) && t[0] == a && t[1] == b {
                            assert(t =~= s);
                        }
                    }
                }
            }
            b = b + 1;
        }
        proof {
            assert forall|t: Seq<usize>| #[trigger] complex.simplex_set().contains(t) <==> vs.contains(t)
                || (es.contains(t) && t[0] < a + 1) by {
                if es.contains(t) && t[0] == a {
                    assert(t[1] < n);
                }
            }
        }
        a = a + 1;
    }
    let ghost base = vs.union(es);
    proof {
        assert forall|t: Seq<usize>| #[trigger] complex.simplex_set().contains(t) <==> base.contains(t) by {
            if es.contains(t) {
                assert(t[0] < n);
            }
        }
    }
    let mut i: usize = 0;
    while i < n
        invariant
            cube(delaunay@, n as nat),
            cube(triples@, n as nat),
            ts == chosen_triangles(n as nat, delaunay@, triples@),
            0 <= i <= n,
            complex.spec_n_vertices() == n,
            forall|t: Seq<usize>| #[trigger] complex.simplex_set().contains(t) <==> base.contains(t)
                || faces_of(ts.filter(|s: Seq<usize>| s[0] < i)).contains(t),
        decreases n - i,
    {
        proof {
            let prev = ts.filter(|x: Seq<usize>| x[0] < i);
            let cur = ts.filter(|x: Seq<usize>| visited_before(x, i, (i + 1) as usize, 0));
            assert(prev =~= cur) by {
                assert forall|x: Seq<usize>| #[trigger] cur.contains(x) implies prev.contains(x) by {
                    if x[0] == i {
                        assert(x[0] < x[1]);
                    }
                }
            }
        }
        let mut j: usize = i + 1;
        while j < n
            invariant
                cube(delaunay@, n as nat),
                cube(triples@, n as nat),
                ts == chosen_triangles(n as nat, delaunay@, triples@),
                0 <= i < n,
                i + 1 <= j <= n,
                complex.spec_n_vertices() == n,
                forall|t: Seq<usize>| #[trigger] complex.simplex_set().contains(t) <==> base.contains(t)
                    || faces_of(ts.filter(|s: Seq<usize>| visited_before(s, i, j, 0))).contains(t),
            decreases n - j,
        {
            proof {
                let prev = ts.filter(|x: Seq<usize>| visited_before(x, i, j, 0));
                let cur = ts.filter(|x: Seq<usize>| visited_before(x, i, j, (j + 1) as usize));
                assert(prev =~= cur) by {
                    assert forall|x: Seq<usize>| #[trigger] cur.contains(x) implies prev.contains(x) by {
                        if x[0] == i && x[1] == j {
                            assert(x[1] < x[2]);
                        }
                    }
                }
            }
            let mut k: usize = j + 1;
            while k < n
                invariant
                    cube(delaunay@, n as nat),
                    cube(triples@, n as nat),
                    ts == chosen_triangles(n as nat, delaunay@, triples@),
                    0 <= i < j < n,
                    j + 1 <= k <= n,
                    complex.spec_n_vertices() == n,
                    forall|t: Seq<usize>| #[trigger] complex.simplex_set().contains(t) <==> base.contains(t)
                        || faces_of(ts.filter(|s: Seq<usize>| visited_before(s, i, j, k))).contains(t),
                decreases n - k,
            {
                let ghost s = seq![i, j, k];
                let ghost before = ts.filter(|x: Seq<usize>| visited_before(x, i, j, k));
                let ghost after = ts.filter(|x: Seq<usize>| visited_before(x, i, j, (k + 1) as usize));
                if delaunay[i][j][k] && triples[i][j][k] {
                    let tri = triangle(i, j, k);
                    complex.add_simplex(&tri);
                    proof {
                        assert(is_combination(s, n as nat, 3));
                        assert(ts.contains(s));
                        assert forall|t: Seq<usize>| #[trigger] complex.simplex_set().contains(t) <==> base.contains(t)
                            || faces_of(after).contains(t) by {
                            if face_closure(s).contains(t) {
                                assert(after.contains(s));
                            }
                            if faces_of(before).contains(t) {
                                let x = choose|x: Seq<usize>| #[trigger] before.contains(x) && is_face_of(t, x);
                                assert(after.contains(x));
                            }
                            if faces_of(after).contains(t) {
                                let x = choose|x: Seq<usize>| #[trigger] after.contains(x) && is_face_of(t, x);
                                if x[0] == i && x[1] == j && x[2] == k {
                                    assert(x =~= s);
                                    assert(face_closure(s).contains(t));
                                } else {
                                    assert(before.contains(x));
                                }
                            }
                        }
                    }
                } else {
                    proof {
                        assert forall|t: Seq<usize>| #[trigger] complex.simplex_set().contains(t) <==> base.contains(t)
                            || faces_of(after).contains(t) by {
                            if faces_of(before).contains(t) {
                                let x = choose|x: Seq<usize>| #[trigger] before.contains(x) && is_face_of(t, x);
                                assert(after.contains(x));
                            }
                            if faces_of(after).contains(t) {
                                let x = choose|x: Seq<usize>| #[trigger] after.contains(x) && is_face_of(t, x);
                                if x[0] == i && x[1] == j && x[2] == k {
                                    assert(x =~= s);
                                    assert(triple_entry(delaunay@, x) == delaunay@[i as int]@[j as int]@[k as int]);
                                } else {
                                    assert(before.contains(x));
                                }
                            }
                        }
                    }
                }
                k = k + 1;
            }
            proof {
                let before = ts.filter(|x: Seq<usize>| visited_before(x, i, j, n));
                let after = ts.filter(|x: Seq<usize>| visited_before(x, i, (j + 1) as usize, 0));
                assert(before =~= after) by {
                    assert forall|x: Seq<usize>| #[trigger] after.contains(x) implies before.contains(x) by {
                        if x[0] == i && x[1] == j {
                            assert(x[2] < n);
                        }
                    }
                }
            }
            j = j + 1;
        }
        proof {
            let before = ts.filter(|x: Seq<usize>| visited_before(x, i, n, 0));
            let after = ts.filter(|x: Seq<usize>| x[0] < i + 1);
            assert(before =~= after) by {
                assert forall|x: Seq<usize>| #[trigger] after.contains(x) implies before.contains(x) by {
                    if x[0] == i {
                        assert(x[1] < n);
                        assert(x[0] < x[1]);
                    }
                }
            }
        }
        i = i + 1;
    }
    proof {
        assert(ts.filter(|x: Seq<usize>| x[0] < n) =~= ts) by {
            assert forall|x: Seq<usize>| #[trigger] ts.contains(x) implies x[0] < n by {}
        }
        assert(complex.simplex_set() =~= vs.union(es).union(faces_of(ts)));
    }
    complex
}

} // verus!
