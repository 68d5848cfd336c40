//! Combinatorial parts of the distances between persistence diagrams:
//! permutations for exhaustive assignment, and bipartite matching for the
//! bottleneck test.

use vstd::prelude::*;
use crate::order::{lex_lt, lex_witness, agree_upto};
use crate::clique::rows;

verus! {

/// There is a position where an entry is smaller than the next one.
pub open spec fn has_ascent(a: Seq<usize>) -> bool {
    exists|i: int| 0 <= i < a.len() - 1 && #[trigger] a[i] < a[i + 1]
}

/// `i` is the last position where an entry is smaller than the next one.
pub open spec fn is_last_ascent(a: Seq<usize>, i: int) -> bool {
    &&& 0 <= i < a.len() - 1
    &&& a[i] < a[i + 1]
    &&& forall|k: int| i < k < a.len() - 1 ==> #[trigger] a[k] >= a[k + 1]
}

/// `j` is the last position after `i` holding an entry greater than `a[i]`.
pub open spec fn is_swap_partner(a: Seq<usize>, i: int, j: int) -> bool {
    &&& i < j < a.len()
    &&& a[j] > a[i]
    &&& forall|k: int| j < k < a.len() ==> #[trigger] a[k] <= a[i]
}

/// Swap positions `i` and `j`, then reverse everything after `i`.
pub open spec fn next_from(a: Seq<usize>, i: int, j: int) -> Seq<usize> {
    let b = a.update(i, a[j]).update(j, a[i]);
    b.take(i + 1) + b.skip(i + 1).reverse()
}

/// Swapping two entries keeps the multiset of entries.
pub(crate) proof fn lemma_swap_multiset(a: Seq<usize>, i: int, j: int)
    requires
        0 <= i < j < a.len(),
    ensures
        a.update(i, a[j]).update(j, a[i]).to_multiset() == a.to_multiset(),
{
    broadcast use vstd::multiset::group_multiset_axioms;
    vstd::seq_lib::to_multiset_update(a, i, a[j]);
    let a1 = a.update(i, a[j]);
    vstd::seq_lib::to_multiset_update(a1, j, a[i]);
    assert(a1[j] == a[j]);
    assert(a.contains(a[i]));
    assert(a.contains(a[j]));
    vstd::seq_lib::to_multiset_contains(a, a[i]);
    vstd::seq_lib::to_multiset_contains(a, a[j]);
    assert(a.update(i, a[j]).update(j, a[i]).to_multiset() =~= a.to_multiset());
}

/// Reversing a suffix keeps the multiset of entries.
pub(crate) proof fn lemma_reverse_suffix_multiset(b: Seq<usize>, m: int)
    requires
        0 <= m <= b.len(),
    ensures
        (b.take(m) + b.skip(m).reverse()).to_multiset() == b.to_multiset(),
{
    broadcast use vstd::multiset::group_multiset_axioms;
    b.skip(m).lemma_reverse_to_multiset();
    vstd::seq_lib::lemma_multiset_commutative(b.take(m), b.skip(m).reverse());
    vstd::seq_lib::lemma_multiset_commutative(b.take(m), b.skip(m));
    assert(b.take(m) + b.skip(m) =~= b);
}

/// Rearrange `arr` into the next permutation in lexicographic order, and
/// tell whether there was one (when there is none, `arr` is left as it is).
#[verifier::spinoff_prover]
pub fn next_permutation(arr: &mut Vec<usize>) -> (r: bool)
    ensures
        r == has_ascent(old(arr)@),
        !r ==> final(arr)@ == old(arr)@,
        r ==> exists|i: int, j: int|
            is_last_ascent(old(arr)@, i) && is_swap_partner(old(arr)@, i, j)
                && #[trigger] next_from(old(arr)@, i, j) == final(arr)@,
        final(arr)@.to_multiset() == old(arr)@.to_multiset(),
        r ==> lex_lt(old(arr)@, final(arr)@),
{
    let ghost a = arr@;
    let n = arr.len();
    if n < 2 {
        return false;
    }
    let mut i: usize = n - 2;
    while arr[i] >= arr[i + 1]
        invariant
            arr@ == a,
            n == a.len(),
            n >= 2,
            0 <= i <= n - 2,
            forall|k: int| i < k < n - 1 ==> #[trigger] a[k] >= a[k + 1],
        decreases i,
    {
        if i == 0 {
            proof {
                assert(!has_ascent(a)) by {
                    if has_ascent(a) {
                        let k = choose|k: int| 0 <= k < a.len() - 1 && #[trigger] a[k] < a[k + 1];
                        assert(a[k] >= a[k + 1]);
                    }
                }
            }
            return false;
        }
        i = i - 1;
    }
    assert(is_last_ascent(a, i as int));
    let mut j: usize = n - 1;
    while arr[j] <= arr[i]
        invariant
            arr@ == a,
            n == a.len(),
            0 <= i < n - 1,
            a[i as int] < a[i + 1],
            i < j <= n - 1,
            forall|k: int| j < k < n ==> #[trigger] a[k] <= a[i as int],
        decreases j,
    {
        j = j - 1;
    }
    assert(is_swap_partner(a, i as int, j as int));
    let ai = arr[i];
    let aj = arr[j];
    arr.set(i, aj);
    arr.set(j, ai);
    let ghost b = arr@;
    assert(b == a.update(i as int, a[j as int]).update(j as int, a[i as int]));
    let mut lo: usize = i + 1;
    let mut hi: usize = n - 1;
    while lo < hi
        invariant
            n == arr@.len(),
            n == b.len(),
            0 <= i < n - 1,
            i + 1 <= lo <= n,
            hi < n,
            lo <= hi + 1,
            lo + hi == n + i,
            forall|k: int| 0 <= k <= i ==> #[trigger] arr@[k] == b[k],
            forall|k: int| i < k < lo ==> #[trigger] arr@[k] == b[n + i - k],
            forall|k: int| hi < k < n ==> #[trigger] arr@[k] == b[n + i - k],
            forall|k: int| lo <= k <= hi ==> #[trigger] arr@[k] == b[k],
        decreases hi + 1 - lo,
    {
        let x = arr[lo];
        let y = arr[hi];
        arr.set(lo, y);
        arr.set(hi, x);
        lo = lo + 1;
        hi = hi - 1;
    }
    proof {
        let expected = next_from(a, i as int, j as int);
        assert(b.take(i + 1) + b.skip(i + 1).reverse() == expected);
        assert forall|k: int| 0 <= k < n implies #[trigger] arr@[k] == expected[k] by {
            if k > i {
                assert(b.skip(i + 1).reverse()[k - i - 1] == b.skip(i + 1)[(n - i - 1) - 1 - (k - i - 1)]);
                if lo <= k <= hi {
                    assert(k == n + i - k);
                }
            }
        }
        assert(arr@ =~= expected);
        // a permutation of the entries
        lemma_swap_multiset(a, i as int, j as int);
        lemma_reverse_suffix_multiset(b, i + 1);
        // lexicographically after
        assert(agree_upto(a, arr@, i as int));
        assert(lex_witness(a, arr@, i as int));
    }
    true
}

/// Number of positions not yet visited.
pub open spec fn count_unvisited(vis: Seq<bool>) -> nat
    decreases vis.len(),
{
    if vis.len() == 0 {
        0
    } else {
        count_unvisited(vis.drop_last()) + if vis.last() {
            0nat
        } else {
            1nat
        }
    }
}

/// Visiting more positions, at least one new, leaves fewer unvisited.
proof fn lemma_count_unvisited_drops(a: Seq<bool>, b: Seq<bool>, x: int)
    requires
        a.len() == b.len(),
        forall|i: int| 0 <= i < a.len() && #[trigger] a[i] ==> b[i],
        0 <= x < a.len(),
        !a[x],
        b[x],
    ensures
        count_unvisited(b) < count_unvisited(a),
    decreases a.len(),
{
    if x < a.len() - 1 {
        lemma_count_unvisited_drops(a.drop_last(), b.drop_last(), x);
    } else {
        lemma_count_unvisited_mono(a.drop_last(), b.drop_last());
    }
}

proof fn lemma_count_unvisited_mono(a: Seq<bool>, b: Seq<bool>)
    requires
        a.len() == b.len(),
        forall|i: int| 0 <= i < a.len() && #[trigger] a[i] ==> b[i],
    ensures
        count_unvisited(b) <= count_unvisited(a),
    decreases a.len(),
{
    if a.len() > 0 {
        lemma_count_unvisited_mono(a.drop_last(), b.drop_last());
    }
}

/// Every matched pair is an edge of the bipartite graph `adj` (left vertex
/// `i` adjacent to the right vertices `adj[i]`).
pub open spec fn valid_edges(adj: Seq<Seq<usize>>, mt: Seq<Option<usize>>) -> bool {
    forall|v: int| 0 <= v < mt.len() && (#[trigger] mt[v]) is Some ==> mt[v]->0 < adj.len() && adj[mt[v]->0 as int].contains(v as usize)
}

/// No left vertex is matched to two right vertices.
pub open spec fn injective(mt: Seq<Option<usize>>) -> bool {
    forall|v1: int, v2: int| 0 <= v1 < mt.len() && 0 <= v2 < mt.len() && v1 != v2 && (#[trigger] mt[v1]) is Some
        ==> mt[v1] != #[trigger] mt[v2]
}

/// The left vertex `i` is matched.
pub open spec fn left_matched(mt: Seq<Option<usize>>, i: usize) -> bool {
    exists|v: int| 0 <= v < mt.len() && #[trigger] mt[v] == Some(i)
}

/// A matching of the bipartite graph given by `adj`: pairs are edges, and
/// each vertex on either side is in at most one pair.
pub open spec fn is_matching(adj: Seq<Seq<usize>>, mt: Seq<Option<usize>>) -> bool {
    valid_edges(adj, mt) && injective(mt)
}

/// Adjacency lists as sequences.
pub open spec fn adj_view(adj: Seq<Vec<usize>>) -> Seq<Seq<usize>> {
    Seq::new(adj.len(), |i: int| adj[i]@)
}

/// Moving the only other occurrence of `w` keeps a matching injective.
proof fn lemma_move(m: Seq<Option<usize>>, a: int, b: int, w: usize)
    requires
        0 <= a < m.len(),
        0 <= b < m.len(),
        a != b,
        m[a] == Some(w),
        m[b] == Some(w),
        injective(m.update(b, None)),
        forall|x: int| 0 <= x < m.len() && x != b && #[trigger] m[x] == Some(w) ==> x == a,
    ensures
        injective(m.update(a, None)),
{
    let ma = m.update(a, None);
    let mb = m.update(b, None);
    assert forall|v1: int, v2: int| 0 <= v1 < ma.len() && 0 <= v2 < ma.len() && v1 != v2 && (#[trigger] ma[v1]) is Some
        implies ma[v1] != #[trigger] ma[v2] by {
        if v2 == a {
        } else if v1 == b {
            if m[v2] == Some(w) {
                assert(v2 == a);
            }
        } else if v2 == b {
            if m[v1] == Some(w) {
                assert(v1 == a);
            }
        } else {
            assert(mb[v1] == ma[v1]);
            assert(mb[v2] == ma[v2]);
        }
    }
}

/// After a successful search from `u`: `u` holds a right vertex `v0` that was
/// unvisited when the search began, no other left vertex is held twice, and
/// `u` holds no other new right vertex.
spec fn placed(mt0: Seq<Option<usize>>, vis0: Seq<bool>, mt: Seq<Option<usize>>, u: usize) -> bool {
    exists|v0: int|
        0 <= v0 < mt.len() && v0 < vis0.len() && !vis0[v0] && #[trigger] mt[v0] == Some(u) && injective(mt.update(v0, None))
            && (forall|x: int| 0 <= x < mt.len() && x != v0 && #[trigger] mt[x] == Some(u) ==> mt0[x] == Some(u))
}

/// Each pair that changed holds `u`, or a left vertex that was matched before
/// to a right vertex unvisited when the search began.
spec fn changes_from(mt0: Seq<Option<usize>>, vis0: Seq<bool>, mt: Seq<Option<usize>>, u: usize) -> bool {
    forall|x: int|
        0 <= x < mt.len() && (#[trigger] mt[x]) is Some && mt0[x] != mt[x] ==> mt[x] == Some(u) || exists|y: int|
            0 <= y < vis0.len() && y < mt0.len() && !vis0[y] && #[trigger] mt0[y] == mt[x]
}

/// What a search never undoes: pairs at visited right vertices stay, matched
/// right vertices stay matched, matched left vertices stay matched.
spec fn keeps(mt0: Seq<Option<usize>>, vis0: Seq<bool>, mt: Seq<Option<usize>>) -> bool {
    &&& mt.len() == mt0.len()
    &&& forall|v: int| 0 <= v < vis0.len() && v < mt0.len() && #[trigger] vis0[v] ==> mt[v] == mt0[v]
    &&& forall|v: int| 0 <= v < mt0.len() && (#[trigger] mt0[v]) is Some ==> mt[v] is Some
    &&& forall|w: usize| #[trigger] left_matched(mt0, w) ==> left_matched(mt, w)
}

/// Giving the right vertex `v` to `u`, after its former holder (if any) was
/// moved by a successful search, completes a successful search from `u`.
proof fn lemma_assign(
    g: Seq<Seq<usize>>,
    mt0: Seq<Option<usize>>,
    vis0: Seq<bool>,
    vis1: Seq<bool>,
    mt1: Seq<Option<usize>>,
    u: usize,
    v: int,
)
    requires
        vis1.len() == vis0.len(),
        0 <= v < mt0.len(),
        v < vis0.len(),
        !vis0[v],
        vis1[v],
        forall|x: int| 0 <= x < vis0.len() && #[trigger] vis0[x] ==> vis1[x],
        u < g.len(),
        g[u as int].contains(v as usize),
        is_matching(g, mt0),
        forall|x: int| 0 <= x < mt0.len() && #[trigger] mt0[x] == Some(u) ==> vis0[x],
        mt0[v] is None ==> mt1 == mt0,
        mt0[v] is Some ==> {
            let w = mt0[v]->0;
            &&& valid_edges(g, mt1)
            &&& keeps(mt0, vis1, mt1)
            &&& placed(mt0, vis1, mt1, w)
            &&& changes_from(mt0, vis1, mt1, w)
        },
    ensures
        ({
            let mt2 = mt1.update(v, Some(u));
            &&& valid_edges(g, mt2)
            &&& keeps(mt0, vis0, mt2)
            &&& placed(mt0, vis0, mt2, u)
            &&& changes_from(mt0, vis0, mt2, u)
        }),
{
    let mt2 = mt1.update(v, Some(u));
    assert(mt1.len() == mt0.len());
    if mt0[v] is None {
        assert(injective(mt1.update(v, None))) by {
            let m2 = mt1.update(v, None);
            assert forall|v1: int, v2: int|
                0 <= v1 < m2.len() && 0 <= v2 < m2.len() && v1 != v2 && (#[trigger] m2[v1]) is Some implies m2[v1]
                != #[trigger] m2[v2] by {
                assert(m2[v1] == mt0[v1]);
                if v2 != v {
                    assert(m2[v2] == mt0[v2]);
                }
            }
        }
    } else {
        let w = mt0[v]->0;
        assert(w != u) by {
            if w == u {
                assert(vis0[v]);
            }
        }
        let v0 = choose|v0: int|
            0 <= v0 < mt1.len() && !vis1[v0] && #[trigger] mt1[v0] == Some(w) && injective(mt1.update(v0, None))
                && (forall|x: int| 0 <= x < mt1.len() && x != v0 && #[trigger] mt1[x] == Some(w) ==> mt0[x] == Some(w));
        assert(vis1[v]);
        assert(mt1[v] == Some(w));
        assert forall|x: int| 0 <= x < mt1.len() && x != v0 && #[trigger] mt1[x] == Some(w) implies x == v by {
            assert(mt0[x] == Some(w));
            if x != v {
                assert(mt0[v] == Some(w));
            }
        }
        lemma_move(mt1, v, v0, w);
    }
    assert(mt2.update(v, None) =~= mt1.update(v, None));
    assert(mt2[v] == Some(u));
    // `u` holds no other new right vertex
    assert forall|x: int| 0 <= x < mt2.len() && x != v && #[trigger] mt2[x] == Some(u) implies mt0[x] == Some(u) by {
        assert(mt1[x] == Some(u));
        if mt0[x] != Some(u) && mt0[v] is Some {
            let w = mt0[v]->0;
            assert(mt1[x] is Some && mt0[x] != mt1[x]);
            if mt1[x] != Some(w) {
                let y = choose|y: int| 0 <= y < vis1.len() && y < mt0.len() && !vis1[y] && #[trigger] mt0[y] == mt1[x];
                assert(vis0[y]);
            }
        }
    }
    assert(placed(mt0, vis0, mt2, u));
    assert forall|x: int| 0 <= x < mt2.len() && (#[trigger] mt2[x]) is Some && mt0[x] != mt2[x] implies mt2[x] == Some(u)
        || exists|y: int| 0 <= y < vis0.len() && y < mt0.len() && !vis0[y] && #[trigger] mt0[y] == mt2[x] by {
        if x != v && mt0[v] is Some {
            let w = mt0[v]->0;
            assert(mt1[x] == mt2[x]);
            if mt2[x] == Some(w) {
                assert(mt0[v] == mt2[x]);
            } else {
                let y = choose|y: int| 0 <= y < vis1.len() && y < mt0.len() && !vis1[y] && #[trigger] mt0[y] == mt1[x];
                assert(!vis0[y]);
            }
        }
    }
    assert forall|x: int| 0 <= x < vis0.len() && x < mt0.len() && #[trigger] vis0[x] implies mt2[x] == mt0[x] by {
        assert(vis1[x]);
    }
    assert forall|x: int| 0 <= x < mt0.len() && (#[trigger] mt0[x]) is Some implies mt2[x] is Some by {
        if x != v {
            assert(mt1[x] is Some);
        }
    }
    assert forall|w: usize| #[trigger] left_matched(mt0, w) implies left_matched(mt2, w) by {
        let x = choose|x: int| 0 <= x < mt0.len() && #[trigger] mt0[x] == Some(w);
        if mt0[v] is Some {
            let w0 = mt0[v]->0;
            assert(left_matched(mt1, w));
            if w == w0 {
                let v0 = choose|v0: int|
                    0 <= v0 < mt1.len() && !vis1[v0] && #[trigger] mt1[v0] == Some(w0) && injective(mt1.update(v0, None))
                        && (forall|x: int| 0 <= x < mt1.len() && x != v0 && #[trigger] mt1[x] == Some(w0) ==> mt0[x] == Some(w0));
                assert(v0 != v);
                assert(mt2[v0] == Some(w));
            } else {
                let x1 = choose|x1: int| 0 <= x1 < mt1.len() && #[trigger] mt1[x1] == Some(w);
                assert(x1 != v);
                assert(mt2[x1] == Some(w));
            }
        } else {
            assert(x != v);
            assert(mt2[x] == Some(w));
        }
    }
    assert forall|x: int| 0 <= x < mt2.len() && (#[trigger] mt2[x]) is Some implies mt2[x]->0 < g.len()
        && g[mt2[x]->0 as int].contains(x as usize) by {
        if x != v {
            if mt0[v] is Some {
                assert(mt1[x] is Some);
            } else {
                assert(mt0[x] is Some);
            }
        }
    }
}

/// Every neighbour of the left vertex `w` is visited.
pub open spec fn neighbours_visited(adj: Seq<Vec<usize>>, vis: Seq<bool>, w: int) -> bool {
    forall|k: int| 0 <= k < adj[w]@.len() ==> #[trigger] vis[adj[w]@[k] as int]
}

/// Each right vertex visited since `vis0` is matched, and every neighbour of
/// its partner is visited.
pub open spec fn visited_closed(adj: Seq<Vec<usize>>, vis0: Seq<bool>, vis: Seq<bool>, mt: Seq<Option<usize>>) -> bool {
    forall|v: int|
        0 <= v < vis.len() && v < mt.len() && #[trigger] vis[v] && !vis0[v] ==> mt[v] is Some && neighbours_visited(
            adj,
            vis,
            mt[v]->0 as int,
        )
}

/// After a successful search from a left vertex that held no right vertex,
/// the matching is again injective.
proof fn lemma_placed_injective(mt0: Seq<Option<usize>>, vis0: Seq<bool>, mt: Seq<Option<usize>>, u: usize)
    requires
        placed(mt0, vis0, mt, u),
        mt0.len() == mt.len(),
        forall|v: int| 0 <= v < mt0.len() ==> mt0[v] != Some(u),
    ensures
        injective(mt),
{
    let v0 = choose|v0: int|
        0 <= v0 < mt.len() && v0 < vis0.len() && !vis0[v0] && #[trigger] mt[v0] == Some(u) && injective(mt.update(v0, None))
            && (forall|x: int| 0 <= x < mt.len() && x != v0 && #[trigger] mt[x] == Some(u) ==> mt0[x] == Some(u));
    let m2 = mt.update(v0, None);
    assert forall|v1: int, v2: int| 0 <= v1 < mt.len() && 0 <= v2 < mt.len() && v1 != v2 && (#[trigger] mt[v1]) is Some
        implies mt[v1] != #[trigger] mt[v2] by {
        if v1 != v0 && v2 != v0 {
            assert(m2[v1] == mt[v1]);
            assert(m2[v2] == mt[v2]);
        } else if v1 == v0 {
            if mt[v2] == Some(u) {
                assert(mt0[v2] == Some(u));
            }
        } else {
            if mt[v1] == Some(u) {
                assert(mt0[v1] == Some(u));
            }
        }
    }
}

/// Exactly one right vertex that was free and unvisited in `vis0` became
/// matched, and every other right vertex is matched as before.
pub open spec fn filled_one(mt0: Seq<Option<usize>>, vis0: Seq<bool>, mt: Seq<Option<usize>>) -> bool {
    exists|v0: int|
        0 <= v0 < mt0.len() && v0 < vis0.len() && !vis0[v0] && (#[trigger] mt0[v0]) is None && mt[v0] is Some
            && forall|x: int| 0 <= x < mt0.len() && x != v0 ==> ((#[trigger] mt0[x]) is Some <==> mt[x] is Some)
}

/// Giving the right vertex `v` to `u`, after its holder (if any) found
/// another right vertex, fills one free right vertex, keeps the pairs at
/// vertices visited before, and adds `u` to the matched left vertices.
proof fn lemma_fill(mt0: Seq<Option<usize>>, vis0: Seq<bool>, vis1: Seq<bool>, mt1: Seq<Option<usize>>, u: usize, v: int)
    requires
        mt1.len() == mt0.len(),
        vis1.len() == vis0.len(),
        0 <= v < mt0.len(),
        v < vis0.len(),
        !vis0[v],
        vis1[v],
        forall|x: int| 0 <= x < vis0.len() && #[trigger] vis0[x] ==> vis1[x],
        mt0[v] is None ==> mt1 == mt0,
        mt0[v] is Some ==> {
            let w = mt0[v]->0;
            &&& forall|x: int| 0 <= x < vis1.len() && x < mt0.len() && #[trigger] vis1[x] ==> mt1[x] == mt0[x]
            &&& filled_one(mt0, vis1, mt1)
            &&& exists|s: int| 0 <= s < vis1.len() && s < mt1.len() && !vis1[s] && #[trigger] mt1[s] == Some(w)
            &&& forall|z: usize| #[trigger] left_matched(mt1, z) <==> (left_matched(mt0, z) || z == w)
        },
    ensures
        ({
            let mt2 = mt1.update(v, Some(u));
            &&& forall|x: int| 0 <= x < vis0.len() && x < mt0.len() && #[trigger] vis0[x] ==> mt2[x] == mt0[x]
            &&& filled_one(mt0, vis0, mt2)
            &&& exists|s: int| 0 <= s < vis0.len() && s < mt2.len() && !vis0[s] && #[trigger] mt2[s] == Some(u)
            &&& forall|z: usize| #[trigger] left_matched(mt2, z) <==> (left_matched(mt0, z) || z == u)
        }),
{
    let mt2 = mt1.update(v, Some(u));
    assert(mt2[v] == Some(u));
    assert forall|x: int| 0 <= x < vis0.len() && x < mt0.len() && #[trigger] vis0[x] implies mt2[x] == mt0[x] by {
        assert(vis1[x]);
    }
    if mt0[v] is None {
        assert forall|x: int| 0 <= x < mt0.len() && x != v implies ((#[trigger] mt0[x]) is Some <==> mt2[x] is Some) by {}
        assert(filled_one(mt0, vis0, mt2));
        assert forall|z: usize| #[trigger] left_matched(mt2, z) <==> (left_matched(mt0, z) || z == u) by {
            if left_matched(mt2, z) {
                let y = choose|y: int| 0 <= y < mt2.len() && #[trigger] mt2[y] == Some(z);
                if y != v {
                    assert(mt0[y] == Some(z));
                }
            }
            if left_matched(mt0, z) {
                let y = choose|y: int| 0 <= y < mt0.len() && #[trigger] mt0[y] == Some(z);
                assert(y != v);
                assert(mt2[y] == Some(z));
            }
        }
    } else {
        let w = mt0[v]->0;
        assert(mt1[v] == mt0[v]);
        let v0 = choose|v0: int|
            0 <= v0 < mt0.len() && v0 < vis1.len() && !vis1[v0] && (#[trigger] mt0[v0]) is None && mt1[v0] is Some
                && forall|x: int| 0 <= x < mt0.len() && x != v0 ==> ((#[trigger] mt0[x]) is Some <==> mt1[x] is Some);
        assert(v0 != v);
        assert forall|x: int| 0 <= x < mt0.len() && x != v0 implies ((#[trigger] mt0[x]) is Some <==> mt2[x] is Some) by {
            if x != v {
                assert(mt0[x] is Some <==> mt1[x] is Some);
            }
        }
        assert(mt2[v0] is Some);
        assert(filled_one(mt0, vis0, mt2));
        let s1 = choose|s: int| 0 <= s < vis1.len() && s < mt1.len() && !vis1[s] && #[trigger] mt1[s] == Some(w);
        assert(s1 != v);
        assert(mt2[s1] == Some(w));
        assert forall|z: usize| #[trigger] left_matched(mt2, z) <==> (left_matched(mt0, z) || z == u) by {
            if left_matched(mt2, z) {
                let y = choose|y: int| 0 <= y < mt2.len() && #[trigger] mt2[y] == Some(z);
                if y != v {
                    assert(mt1[y] == Some(z));
                    assert(left_matched(mt1, z));
                    if z == w {
                        assert(mt0[v] == Some(w));
                    }
                }
            }
            if left_matched(mt0, z) {
                assert(left_matched(mt1, z));
                let y = choose|y: int| 0 <= y < mt1.len() && #[trigger] mt1[y] == Some(z);
                if y != v {
                    assert(mt2[y] == Some(z));
                } else {
                    assert(z == w);
                }
            }
        }
    }
    assert(mt2[v] == Some(u));
}

/// A search from `u` starts from a sound state: the pairs form a matching,
/// and every right vertex held by `u` is already visited.
pub open spec fn search_ready(g: Seq<Seq<usize>>, mt0: Seq<Option<usize>>, vis0: Seq<bool>, u: usize) -> bool {
    &&& is_matching(g, mt0)
    &&& forall|v: int| 0 <= v < mt0.len() && #[trigger] mt0[v] == Some(u) ==> vis0[v]
}

/// Try to match the left vertex `u` by an augmenting path through right
/// vertices not yet visited in this search: for each neighbour `v` of `u` in
/// turn, if `v` is unvisited, visit it, and if it is free or its holder can
/// be matched elsewhere, give it to `u`.
fn augment(u: usize, adj: &Vec<Vec<usize>>, match_to: &mut Vec<Option<usize>>, visited: &mut Vec<bool>) -> (r: bool)
    requires
        u < adj@.len(),
        forall|i: int, k: int|
            0 <= i < adj@.len() && 0 <= k < adj@[i]@.len() ==> #[trigger] adj@[i]@[k] < old(visited)@.len()
                && adj@[i]@[k] < old(match_to)@.len(),
        forall|v: int| 0 <= v < old(match_to)@.len() && (#[trigger] old(match_to)@[v]) is Some ==> old(match_to)@[v]->0
            < adj@.len(),
    ensures
        final(match_to)@.len() == old(match_to)@.len(),
        final(visited)@.len() == old(visited)@.len(),
        forall|v: int| 0 <= v < old(visited)@.len() && #[trigger] old(visited)@[v] ==> final(visited)@[v],
        forall|v: int| 0 <= v < old(visited)@.len() && v < old(match_to)@.len() && #[trigger] old(visited)@[v]
            ==> final(match_to)@[v] == old(match_to)@[v],
        forall|v: int| 0 <= v < final(match_to)@.len() && (#[trigger] final(match_to)@[v]) is Some ==> final(match_to)@[v]->0
            < adj@.len(),
        !r ==> final(match_to)@ == old(match_to)@,
        !r ==> neighbours_visited(adj@, final(visited)@, u as int),
        !r ==> visited_closed(adj@, old(visited)@, final(visited)@, final(match_to)@),
        // on success one free right vertex became matched, and `u` joined the matched left vertices
        r ==> filled_one(old(match_to)@, old(visited)@, final(match_to)@),
        r ==> exists|s: int|
            0 <= s < old(visited)@.len() && s < final(match_to)@.len() && !old(visited)@[s] && #[trigger] final(match_to)@[s]
                == Some(u),
        r ==> forall|w: usize| #[trigger] left_matched(final(match_to)@, w) <==> (left_matched(old(match_to)@, w) || w == u),
        // a matching stays a matching when `u` held no right vertex
        is_matching(adj_view(adj@), old(match_to)@) && (forall|v: int|
            0 <= v < old(match_to)@.len() ==> old(match_to)@[v] != Some(u)) ==> is_matching(adj_view(adj@), final(match_to)@),
        // from a sound state, the finer facts that the search relies on
        search_ready(adj_view(adj@), old(match_to)@, old(visited)@, u) ==> {
            &&& valid_edges(adj_view(adj@), final(match_to)@)
            &&& keeps(old(match_to)@, old(visited)@, final(match_to)@)
            &&& (r ==> placed(old(match_to)@, old(visited)@, final(match_to)@, u))
            &&& (r ==> changes_from(old(match_to)@, old(visited)@, final(match_to)@, u))
        },
    decreases count_unvisited(old(visited)@),
{
    let ghost mt0 = match_to@;
    let ghost vis0 = visited@;
    let ghost g = adj_view(adj@);
    let ghost ready = search_ready(g, mt0, vis0, u);
    let mut k: usize = 0;
    while k < adj[u].len()
        invariant
            g == adj_view(adj@),
            vis0 == old(visited)@,
            mt0 == old(match_to)@,
            ready == search_ready(g, mt0, vis0, u),
            u < adj@.len(),
            visited@.len() == vis0.len(),
            match_to@ == mt0,
            0 <= k <= adj@[u as int]@.len(),
            forall|i: int, q: int|
                0 <= i < adj@.len() && 0 <= q < adj@[i]@.len() ==> #[trigger] adj@[i]@[q] < vis0.len() && adj@[i]@[q]
                    < mt0.len(),
            forall|v: int| 0 <= v < mt0.len() && (#[trigger] mt0[v]) is Some ==> mt0[v]->0 < adj@.len(),
            forall|v: int| 0 <= v < vis0.len() && #[trigger] vis0[v] ==> visited@[v],
            forall|q: int| 0 <= q < k ==> #[trigger] visited@[adj@[u as int]@[q] as int],
            visited_closed(adj@, vis0, visited@, match_to@),
        decreases adj@[u as int]@.len() - k,
    {
        let v = adj[u][k];
        assert(g[u as int] == adj@[u as int]@);
        if visited[v] {
            assert(visited@[adj@[u as int]@[k as int] as int]);
            k = k + 1;
            continue;
        }
        let ghost vis_pre = visited@;
        visited.set(v, true);
        let ghost vis1 = visited@;
        proof {
            lemma_count_unvisited_drops(vis0, vis1, v as int);
            assert(!vis0[v as int]);
        }
        let owner = match_to[v];
        let found = match owner {
            None => true,
            Some(w) => {
                proof {
                    if ready {
                        assert forall|x: int| 0 <= x < mt0.len() && #[trigger] mt0[x] == Some(w) implies vis1[x] by {
                            if x != v {
                                assert(mt0[v as int] == Some(w));
                            }
                        }
                        assert(search_ready(g, mt0, vis1, w));
                    }
                }
                let ok = augment(w, adj, match_to, visited);
                proof {
                    assert forall|x: int| 0 <= x < vis0.len() && #[trigger] vis0[x] implies visited@[x] by {
                        assert(vis1[x]);
                    }
                    if !ok {
                        let vis2 = visited@;
                        assert forall|x: int| 0 <= x < vis2.len() && x < match_to@.len() && #[trigger] vis2[x] && !vis0[x] implies match_to@[x] is Some
                            && neighbours_visited(adj@, vis2, match_to@[x]->0 as int) by {
                            if vis1[x] && x != v {
                                assert(vis_pre[x]);
                                let w2 = match_to@[x]->0 as int;
                                assert forall|k2: int| 0 <= k2 < adj@[w2]@.len() implies #[trigger] vis2[adj@[w2]@[k2] as int] by {
                                    assert(vis_pre[adj@[w2]@[k2] as int]);
                                    assert(vis1[adj@[w2]@[k2] as int]);
                                }
                            }
                        }
                        assert forall|q: int| 0 <= q < k + 1 implies #[trigger] vis2[adj@[u as int]@[q] as int] by {
                            if q < k {
                                assert(vis_pre[adj@[u as int]@[q] as int]);
                                assert(vis1[adj@[u as int]@[q] as int]);
                            } else {
                                assert(adj@[u as int]@[q] == v);
                                assert(vis1[v as int]);
                            }
                        }
                    }
                }
                ok
            },
        };
        if found {
            let ghost mt1 = match_to@;
            proof {
                assert(adj@[u as int]@[k as int] == v);
                if ready {
                    lemma_assign(g, mt0, vis0, vis1, mt1, u, v as int);
                }
            }
            match_to.set(v, Some(u));
            proof {
                let mt2 = match_to@;
                lemma_fill(mt0, vis0, vis1, mt1, u, v as int);
                if is_matching(g, mt0) && (forall|x: int| 0 <= x < mt0.len() ==> mt0[x] != Some(u)) {
                    assert(ready);
                    lemma_placed_injective(mt0, vis0, mt2, u);
                }
            }
            return true;
        }
        k = k + 1;
    }
    false
}

/// The pairs of a matching are entries `close[i][j]` that hold, and each
/// vertex on either side is in at most one pair.
pub open spec fn close_matching(close: Seq<Seq<bool>>, mt: Seq<Option<usize>>) -> bool {
    &&& injective(mt)
    &&& forall|v: int|
        0 <= v < mt.len() && (#[trigger] mt[v]) is Some ==> mt[v]->0 < close.len() && v < close[mt[v]->0 as int].len()
            && close[mt[v]->0 as int][v]
}

/// Every unmatched left vertex `i` has `near1[i]`, and every unmatched right
/// vertex `j` has `near2[j]`.
pub open spec fn unmatched_are_near(mt: Seq<Option<usize>>, near1: Seq<bool>, near2: Seq<bool>) -> bool {
    &&& forall|i: int| 0 <= i < near1.len() ==> left_matched(mt, i as usize) || #[trigger] near1[i]
    &&& forall|j: int| 0 <= j < near2.len() ==> (#[trigger] mt[j]) is Some || near2[j]
}

/// A matching of `g` (right vertices `0..p.len()`) in which every left
/// vertex is matched.
pub open spec fn saturates_left(g: Seq<Seq<usize>>, p: Seq<Option<usize>>) -> bool {
    is_matching(g, p) && forall|w: int| 0 <= w < g.len() ==> #[trigger] left_matched(p, w as usize)
}

/// The partner of a matched left vertex.
spec fn partner_of(p: Seq<Option<usize>>, w: usize) -> usize {
    (choose|v: int| 0 <= v < p.len() && p[v] == Some(w)) as usize
}

/// Hall's condition fails: a failed search from an unmatched left vertex
/// `u` visits right vertices whose partners, with `u`, have no neighbours
/// outside them; these are one more left vertices than right vertices, so
/// no matching matches them all.
proof fn lemma_failed_search_blocks(adj: Seq<Vec<usize>>, mt: Seq<Option<usize>>, vis: Seq<bool>, u: usize, p: Seq<Option<usize>>)
    requires
        mt.len() == vis.len(),
        p.len() == mt.len(),
        mt.len() <= usize::MAX,
        0 <= u < adj.len(),
        forall|i: int, k: int| 0 <= i < adj.len() && 0 <= k < adj[i]@.len() ==> #[trigger] adj[i]@[k] < mt.len(),
        is_matching(adj_view(adj), mt),
        !left_matched(mt, u),
        neighbours_visited(adj, vis, u as int),
        forall|v: int| 0 <= v < vis.len() && #[trigger] vis[v] ==> mt[v] is Some && neighbours_visited(adj, vis, mt[v]->0 as int),
    ensures
        !saturates_left(adj_view(adj), p),
{
    let g = adj_view(adj);
    if saturates_left(g, p) {
        let nr = mt.len();
        let vs = Set::new(|v: usize| v < nr && vis[v as int]);
        let owner = |v: usize| mt[v as int]->0;
        let os = vs.map(owner);
        let ss = os.insert(u);
        crate::mapper::lemma_ids_below_len(nr);
        vstd::set_lib::lemma_len_subset(vs, crate::mapper::ids_below(nr));
        assert(vstd::relations::injective_on(owner, vs)) by {
            assert forall|a: usize, b: usize| vs.contains(a) && vs.contains(b) && #[trigger] owner(a) == #[trigger] owner(b)
                implies a == b by {
                assert(mt[a as int] is Some);
                assert(mt[b as int] is Some);
                if a != b {
                    assert(mt[a as int] != mt[b as int]);
                }
            }
        }
        vstd::set_lib::lemma_map_size(vs, os, owner);
        assert(!os.contains(u)) by {
            if os.contains(u) {
                let v = choose|v: usize| vs.contains(v) && owner(v) == u;
                assert(mt[v as int] == Some(u));
            }
        }
        assert(ss.len() == vs.len() + 1);
        // every member of `ss` is a left vertex whose neighbours are visited
        assert forall|w: usize| #[trigger] ss.contains(w) implies w < adj.len() && neighbours_visited(adj, vis, w as int) by {
            if w != u {
                let v = choose|v: usize| vs.contains(v) && owner(v) == w;
                assert(mt[v as int] is Some);
                assert(mt[v as int]->0 < g.len());
            }
        }
        let pm = |w: usize| partner_of(p, w);
        assert forall|w: usize| #[trigger] ss.contains(w) implies vs.contains(pm(w)) by {
            let wi = w as int;
            assert(0 <= wi < g.len());
            assert(left_matched(p, wi as usize));
            let v = choose|v: int| 0 <= v < p.len() && p[v] == Some(w);
            assert(0 <= v < p.len() && p[v] == Some(w));
            assert(g[w as int].contains(v as usize));
            let k = choose|k: int| 0 <= k < g[w as int].len() && g[w as int][k] == v as usize;
            assert(adj[w as int]@[k] == v as usize);
            assert(vis[adj[w as int]@[k] as int]);
        }
        assert(vstd::relations::injective_on(pm, ss)) by {
            assert forall|a: usize, b: usize| ss.contains(a) && ss.contains(b) && #[trigger] pm(a) == #[trigger] pm(b)
                implies a == b by {
                let ai = a as int;
                let bi = b as int;
                assert(0 <= ai < g.len() && 0 <= bi < g.len());
                assert(left_matched(p, ai as usize));
                assert(left_matched(p, bi as usize));
                let va = choose|v: int| 0 <= v < p.len() && p[v] == Some(a);
                let vb = choose|v: int| 0 <= v < p.len() && p[v] == Some(b);
            }
        }
        let img = ss.map(pm);
        vstd::set_lib::lemma_map_size(ss, img, pm);
        assert(img.subset_of(vs)) by {
            assert forall|v: usize| img.contains(v) implies vs.contains(v) by {
                let w = choose|w: usize| ss.contains(w) && pm(w) == v;
            }
        }
        vstd::set_lib::lemma_len_subset(img, vs);
        assert(false);
    }
}


/// Whether the bipartite graph `adj` (left vertices `0..adj.len()`, right
/// vertices `0..nr`) has a matching in which every left vertex is matched.
/// An augmenting path is sought from each left vertex in turn; a search
/// that fails shows that no such matching exists.
pub fn saturating_matching_exists(adj: &Vec<Vec<usize>>, nr: usize) -> (r: bool)
    requires
        forall|i: int, k: int| 0 <= i < adj@.len() && 0 <= k < adj@[i]@.len() ==> #[trigger] adj@[i]@[k] < nr,
    ensures
        r == exists|p: Seq<Option<usize>>| p.len() == nr && #[trigger] saturates_left(adj_view(adj@), p),
{
    let ghost g = adj_view(adj@);
    let mut match_to: Vec<Option<usize>> = Vec::new();
    let mut z: usize = 0;
    while z < nr
        invariant
            0 <= z <= nr,
            match_to@.len() == z,
            forall|v: int| 0 <= v < z ==> #[trigger] match_to@[v] is None,
        decreases nr - z,
    {
        match_to.push(None);
        z = z + 1;
    }
    let mut i: usize = 0;
    while i < adj.len()
        invariant
            g == adj_view(adj@),
            0 <= i <= adj@.len(),
            match_to@.len() == nr,
            forall|a: int, k: int| 0 <= a < adj@.len() && 0 <= k < adj@[a]@.len() ==> #[trigger] adj@[a]@[k] < nr,
            is_matching(g, match_to@),
            forall|v: int| 0 <= v < nr && (#[trigger] match_to@[v]) is Some ==> match_to@[v]->0 < i,
            forall|w: int| 0 <= w < i ==> #[trigger] left_matched(match_to@, w as usize),
        decreases adj@.len() - i,
    {
        let mut visited: Vec<bool> = Vec::new();
        let mut z: usize = 0;
        while z < nr
            invariant
                0 <= z <= nr,
                visited@.len() == z,
                forall|v: int| 0 <= v < z ==> !#[trigger] visited@[v],
            decreases nr - z,
        {
            visited.push(false);
            z = z + 1;
        }
        let ghost mt0 = match_to@;
        let ghost vis0 = visited@;
        proof {
            assert forall|v: int| 0 <= v < nr && #[trigger] mt0[v] == Some(i) implies vis0[v] by {
                assert(mt0[v]->0 < i);
            }
        }
        let ok = augment(i, adj, &mut match_to, &mut visited);
        if !ok {
            proof {
                let mt = match_to@;
                let vis = visited@;
                assert(!left_matched(mt, i)) by {
                    if left_matched(mt, i) {
                        let v = choose|v: int| 0 <= v < mt.len() && #[trigger] mt[v] == Some(i);
                        assert(mt0[v]->0 < i);
                    }
                }
                assert forall|v: int| 0 <= v < vis.len() && #[trigger] vis[v] implies mt[v] is Some && neighbours_visited(
                    adj@,
                    vis,
                    mt[v]->0 as int,
                ) by {
                    assert(!vis0[v]);
                }
                assert forall|p: Seq<Option<usize>>| p.len() == nr implies !#[trigger] saturates_left(g, p) by {
                    lemma_failed_search_blocks(adj@, mt, vis, i, p);
                }
            }
            return false;
        }
        proof {
            let mt = match_to@;
            assert(g[i as int] == adj@[i as int]@);
            let v0 = choose|v0: int|
                0 <= v0 < mt.len() && !vis0[v0] && #[trigger] mt[v0] == Some(i) && injective(mt.update(v0, None))
                    && (forall|x: int| 0 <= x < mt.len() && x != v0 && #[trigger] mt[x] == Some(i) ==> mt0[x] == Some(i));
            assert forall|v1: int, v2: int|
                0 <= v1 < mt.len() && 0 <= v2 < mt.len() && v1 != v2 && (#[trigger] mt[v1]) is Some implies mt[v1]
                != #[trigger] mt[v2] by {
                let m2 = mt.update(v0, None);
                if v1 != v0 && v2 != v0 {
                    assert(m2[v1] == mt[v1]);
                    assert(m2[v2] == mt[v2]);
                } else if v1 == v0 {
                    if mt[v2] == Some(i) {
                        assert(mt0[v2] == Some(i));
                    }
                } else {
                    if mt[v1] == Some(i) {
                        assert(mt0[v1] == Some(i));
                    }
                }
            }
            assert forall|v: int| 0 <= v < nr && (#[trigger] mt[v]) is Some implies mt[v]->0 < i + 1 by {
                if mt0[v] != mt[v] {
                    if mt[v] != Some(i) {
                        let y = choose|y: int| 0 <= y < vis0.len() && !vis0[y] && #[trigger] mt0[y] == mt[v];
                    }
                }
            }
            assert forall|w: int| 0 <= w < i + 1 implies #[trigger] left_matched(mt, w as usize) by {
                if w == i {
                    assert(mt[v0] == Some(i));
                } else {
                    assert(left_matched(mt0, w as usize));
                }
            }
        }
        i = i + 1;
    }
    proof {
        assert(saturates_left(g, match_to@));
    }
    true
}


/// The graph extended by diagonal copies: left vertices are the `n1` points
/// of the first diagram, then a copy of each of the `n2` points of the
/// second; right vertices are the points of the second diagram, then a copy
/// of each point of the first. A point is joined to the points it is close
/// to and, when it is near the diagonal, to its own copy; copies are joined
/// to each other.
pub open spec fn ext_edge(c: Seq<Seq<bool>>, near1: Seq<bool>, near2: Seq<bool>, n2: int, w: int, v: int) -> bool {
    let n1 = c.len() as int;
    if w < n1 {
        (0 <= v < n2 && c[w][v]) || (v == n2 + w && near1[w])
    } else {
        (v == w - n1 && near2[w - n1]) || (n2 <= v < n2 + n1)
    }
}

/// `g` is the graph extended by diagonal copies, with `n1 + n2` vertices on
/// each side.
pub open spec fn is_extension(g: Seq<Seq<usize>>, c: Seq<Seq<bool>>, near1: Seq<bool>, near2: Seq<bool>, n2: int) -> bool {
    &&& g.len() == c.len() + n2
    &&& forall|w: int, x: usize| 0 <= w < g.len() ==> (#[trigger] g[w].contains(x) <==> (x < g.len() && ext_edge(
        c,
        near1,
        near2,
        n2,
        w,
        x as int,
    )))
}

/// Build the graph extended by diagonal copies.
fn diagonal_extension(close: &Vec<Vec<bool>>, n2: usize, near1: &Vec<bool>, near2: &Vec<bool>) -> (adj: Vec<Vec<usize>>)
    requires
        forall|i: int| 0 <= i < close@.len() ==> (#[trigger] close@[i])@.len() == n2,
        near1@.len() == close@.len(),
        near2@.len() == n2,
        close@.len() + n2 <= usize::MAX,
    ensures
        is_extension(adj_view(adj@), rows(close@), near1@, near2@, n2 as int),
        forall|i: int, k: int| 0 <= i < adj@.len() && 0 <= k < adj@[i]@.len() ==> #[trigger] adj@[i]@[k] < adj@.len(),
{
    let n1 = close.len();
    let total = n1 + n2;
    let ghost c = rows(close@);
    let mut adj: Vec<Vec<usize>> = Vec::new();
    let mut w: usize = 0;
    while w < total
        invariant
            n1 == close@.len(),
            total == n1 + n2,
            c == rows(close@),
            forall|i: int| 0 <= i < close@.len() ==> (#[trigger] close@[i])@.len() == n2,
            near1@.len() == n1,
            near2@.len() == n2,
            0 <= w <= total,
            adj@.len() == w,
            forall|a: int, k: int| 0 <= a < w && 0 <= k < adj@[a]@.len() ==> #[trigger] adj@[a]@[k] < total,
            forall|a: int, x: usize| 0 <= a < w ==> (#[trigger] adj@[a]@.contains(x) <==> (x < total && ext_edge(
                c,
                near1@,
                near2@,
                n2 as int,
                a,
                x as int,
            ))),
        decreases total - w,
    {
        let mut row: Vec<usize> = Vec::new();
        let mut v: usize = 0;
        while v < total
            invariant
                n1 == close@.len(),
                total == n1 + n2,
                c == rows(close@),
                forall|i: int| 0 <= i < close@.len() ==> (#[trigger] close@[i])@.len() == n2,
                near1@.len() == n1,
                near2@.len() == n2,
                0 <= w < total,
                0 <= v <= total,
                forall|k: int| 0 <= k < row@.len() ==> #[trigger] row@[k] < v,
                forall|x: usize| #[trigger] row@.contains(x) <==> (x < v && ext_edge(c, near1@, near2@, n2 as int, w as int, x as int)),
            decreases total - v,
        {
            let joined = if w < n1 {
                if v < n2 {
                    assert(c[w as int] == close@[w as int]@);
                    close[w][v]
                } else {
                    v == n2 + w && near1[w]
                }
            } else {
                (v == w - n1 && near2[w - n1]) || n2 <= v
            };
            assert(joined == ext_edge(c, near1@, near2@, n2 as int, w as int, v as int));
            if joined {
                let ghost before = row@;
                row.push(v);
                assert forall|x: usize| #[trigger] row@.contains(x) <==> (x < v + 1 && ext_edge(c, near1@, near2@, n2 as int, w as int, x as int)) by {
                    if before.contains(x) {
                        let k = choose|k: int| 0 <= k < before.len() && before[k] == x;
                        assert(row@[k] == x);
                    }
                    if x == v {
                        assert(row@[before.len() as int] == x);
                    }
                    if row@.contains(x) && x != v {
                        let k = choose|k: int| 0 <= k < row@.len() && row@[k] == x;
                        assert(k < before.len());
                        assert(before.contains(x));
                    }
                }
            }
            v = v + 1;
        }
        let ghost prev = adj@;
        adj.push(row);
        proof {
            assert forall|a: int, x: usize| 0 <= a < w + 1 implies (#[trigger] adj@[a]@.contains(x) <==> (x < total && ext_edge(
                c,
                near1@,
                near2@,
                n2 as int,
                a,
                x as int,
            ))) by {
                if a < w {
                    assert(adj@[a] == prev[a]);
                }
            }
            assert forall|a: int, k: int| 0 <= a < w + 1 && 0 <= k < adj@[a]@.len() implies #[trigger] adj@[a]@[k] < total by {
                if a < w {
                    assert(adj@[a] == prev[a]);
                }
            }
        }
        w = w + 1;
    }
    adj
}


/// A matching that matches all `n` left vertices of a graph with `n` right
/// vertices matches every right vertex too.
proof fn lemma_saturating_is_perfect(g: Seq<Seq<usize>>, p: Seq<Option<usize>>)
    requires
        p.len() == g.len(),
        g.len() <= usize::MAX,
        saturates_left(g, p),
    ensures
        forall|v: int| 0 <= v < p.len() ==> (#[trigger] p[v]) is Some,
{
    let n = g.len();
    let ls = crate::mapper::ids_below(n);
    crate::mapper::lemma_ids_below_len(n);
    let f = |w: usize| partner_of(p, w);
    assert forall|w: usize| #[trigger] ls.contains(w) implies 0 <= f(w) < n && p[f(w) as int] == Some(w) by {
        let wi = w as int;
        assert(left_matched(p, wi as usize));
    }
    assert(vstd::relations::injective_on(f, ls)) by {
        assert forall|a: usize, b: usize| ls.contains(a) && ls.contains(b) && #[trigger] f(a) == #[trigger] f(b) implies a == b by {}
    }
    let img = ls.map(f);
    vstd::set_lib::lemma_map_size(ls, img, f);
    assert(img.subset_of(ls)) by {
        assert forall|v: usize| img.contains(v) implies ls.contains(v) by {
            let w = choose|w: usize| ls.contains(w) && f(w) == v;
        }
    }
    vstd::set_lib::lemma_subset_equality(img, ls);
    assert forall|v: int| 0 <= v < p.len() implies (#[trigger] p[v]) is Some by {
        assert(ls.contains(v as usize));
        assert(img.contains(v as usize));
        let w = choose|w: usize| ls.contains(w) && f(w) == v as usize;
    }
}

/// A matching of the extended graph that matches every left vertex gives a
/// matching of the close pairs that leaves only points near the diagonal
/// unmatched: its pairs between points of the two diagrams.
proof fn lemma_extension_to_valid(
    g: Seq<Seq<usize>>,
    c: Seq<Seq<bool>>,
    near1: Seq<bool>,
    near2: Seq<bool>,
    n2: int,
    p: Seq<Option<usize>>,
)
    requires
        0 <= n2,
        forall|i: int| 0 <= i < c.len() ==> (#[trigger] c[i]).len() == n2,
        near1.len() == c.len(),
        near2.len() == n2,
        g.len() <= usize::MAX,
        is_extension(g, c, near1, near2, n2),
        p.len() == g.len(),
        saturates_left(g, p),
    ensures
        exists|m: Seq<Option<usize>>|
            m.len() == n2 && close_matching(c, m) && #[trigger] unmatched_are_near(m, near1, near2),
{
    let n1 = c.len() as int;
    lemma_saturating_is_perfect(g, p);
    let m = Seq::new(n2 as nat, |j: int| if p[j] is Some && (p[j]->0 as int) < n1 { p[j] } else { None });
    assert forall|v: int| 0 <= v < m.len() && (#[trigger] m[v]) is Some implies m[v]->0 < c.len() && v < c[m[v]->0 as int].len()
        && c[m[v]->0 as int][v] by {
        let i = p[v]->0 as int;
        assert(g[i].contains(v as usize));
    }
    assert(injective(m)) by {
        assert forall|v1: int, v2: int| 0 <= v1 < m.len() && 0 <= v2 < m.len() && v1 != v2 && (#[trigger] m[v1]) is Some
            implies m[v1] != #[trigger] m[v2] by {
            assert(p[v1] != p[v2]);
        }
    }
    assert forall|i: int| 0 <= i < near1.len() implies left_matched(m, i as usize) || #[trigger] near1[i] by {
        assert(left_matched(p, i as usize));
        let v = choose|v: int| 0 <= v < p.len() && #[trigger] p[v] == Some(i as usize);
        assert(g[i].contains(v as usize));
        if v < n2 {
            assert(m[v] == Some(i as usize));
        }
    }
    assert forall|j: int| 0 <= j < near2.len() implies (#[trigger] m[j]) is Some || near2[j] by {
        assert(p[j] is Some);
        let w = p[j]->0 as int;
        if w >= n1 {
            assert(g[w].contains(j as usize));
        }
    }
    assert(unmatched_are_near(m, near1, near2));
}

/// A matching of the close pairs that leaves only points near the diagonal
/// unmatched extends to a matching of the extended graph that matches every
/// left vertex: an unmatched point goes to its own copy, the copy of an
/// unmatched point of the second diagram takes that point, and the copy of
/// a matched point of the second diagram takes the copy of its partner.
proof fn lemma_valid_to_extension(
    g: Seq<Seq<usize>>,
    c: Seq<Seq<bool>>,
    near1: Seq<bool>,
    near2: Seq<bool>,
    n2: int,
    m: Seq<Option<usize>>,
)
    requires
        0 <= n2,
        forall|i: int| 0 <= i < c.len() ==> (#[trigger] c[i]).len() == n2,
        near1.len() == c.len(),
        near2.len() == n2,
        g.len() <= usize::MAX,
        is_extension(g, c, near1, near2, n2),
        m.len() == n2,
        close_matching(c, m),
        unmatched_are_near(m, near1, near2),
    ensures
        exists|p: Seq<Option<usize>>| p.len() == g.len() && #[trigger] saturates_left(g, p),
{
    let n1 = c.len() as int;
    let total = n1 + n2;
    let p = Seq::new(
        total as nat,
        |v: int|
            if v < n2 {
                if m[v] is Some {
                    m[v]
                } else {
                    Some((n1 + v) as usize)
                }
            } else if left_matched(m, (v - n2) as usize) {
                Some((n1 + partner_of(m, (v - n2) as usize)) as usize)
            } else {
                Some((v - n2) as usize)
            },
    );
    // the partner of a matched point of the first diagram
    assert forall|i: int| 0 <= i < n1 && #[trigger] left_matched(m, i as usize) implies 0 <= partner_of(m, i as usize) < n2
        && m[partner_of(m, i as usize) as int] == Some(i as usize) by {
        let j = choose|j: int| 0 <= j < m.len() && m[j] == Some(i as usize);
    }
    assert forall|v: int| 0 <= v < p.len() && (#[trigger] p[v]) is Some implies p[v]->0 < g.len() && g[p[v]->0 as int].contains(
        v as usize,
    ) by {
        if v < n2 {
            if m[v] is Some {
                let i = m[v]->0 as int;
                assert(ext_edge(c, near1, near2, n2, i, v));
            } else {
                assert(near2[v]);
                assert(ext_edge(c, near1, near2, n2, n1 + v, v));
            }
        } else {
            let i = v - n2;
            if left_matched(m, i as usize) {
                let j = partner_of(m, i as usize) as int;
                assert(ext_edge(c, near1, near2, n2, n1 + j, v));
            } else {
                assert(near1[i]);
                assert(ext_edge(c, near1, near2, n2, i, v));
            }
        }
    }
    assert(injective(p)) by {
        assert forall|v1: int, v2: int| 0 <= v1 < p.len() && 0 <= v2 < p.len() && v1 != v2 && (#[trigger] p[v1]) is Some
            implies p[v1] != #[trigger] p[v2] by {
            if p[v1] == p[v2] {
                if v1 < n2 && v2 < n2 {
                    if m[v1] is Some && m[v2] is Some {
                        assert(m[v1] != m[v2]);
                    }
                } else if v1 >= n2 && v2 >= n2 {
                    let i1 = v1 - n2;
                    let i2 = v2 - n2;
                    if left_matched(m, i1 as usize) && left_matched(m, i2 as usize) {
                        assert(m[partner_of(m, i1 as usize) as int] == Some(i1 as usize));
                        assert(m[partner_of(m, i2 as usize) as int] == Some(i2 as usize));
                    }
                } else {
                    let (a, b) = if v1 < n2 { (v1, v2) } else { (v2, v1) };
                    let i = b - n2;
                    if m[a] is Some {
                        if !left_matched(m, i as usize) {
                            assert(m[a] == Some(i as usize));
                            assert(left_matched(m, i as usize));
                        }
                    } else if left_matched(m, i as usize) {
                        assert(partner_of(m, i as usize) == a);
                        assert(m[a] == Some(i as usize));
                    }
                }
            }
        }
    }
    assert forall|w: int| 0 <= w < g.len() implies #[trigger] left_matched(p, w as usize) by {
        if w < n1 {
            if left_matched(m, w as usize) {
                let j = partner_of(m, w as usize) as int;
                assert(p[j] == Some(w as usize));
            } else {
                assert(p[n2 + w] == Some(w as usize));
            }
        } else {
            let j = w - n1;
            if m[j] is Some {
                let i = m[j]->0 as int;
                assert(left_matched(m, i as usize));
                let j2 = partner_of(m, i as usize) as int;
                if j2 != j {
                    assert(m[j2] == m[j]);
                }
                assert(p[n2 + i] == Some(w as usize));
            } else {
                assert(p[j] == Some(w as usize));
            }
        }
    }
    assert(saturates_left(g, p));
}

/// Whether the points of two diagrams can be matched so that every pair is
/// within a threshold and every unmatched point is within it of the
/// diagonal: `close[i][j]` says that point `i` of the first diagram and
/// point `j` of the second are within the threshold, `near1` and `near2`
/// that a point is within it of the diagonal. This holds exactly when the
/// graph extended by diagonal copies has a matching of all its left
/// vertices, which augmenting paths decide.
pub fn is_valid_matching(close: &Vec<Vec<bool>>, n2: usize, near1: &Vec<bool>, near2: &Vec<bool>) -> (r: bool)
    requires
        forall|i: int| 0 <= i < close@.len() ==> (#[trigger] close@[i])@.len() == n2,
        near1@.len() == close@.len(),
        near2@.len() == n2,
        close@.len() + n2 <= usize::MAX,
    ensures
        r == can_match(rows(close@), n2 as nat, near1@, near2@),
{
    let adj = diagonal_extension(close, n2, near1, near2);
    let total = close.len() + n2;
    let ghost g = adj_view(adj@);
    let ghost c = rows(close@);
    let r = saturating_matching_exists(&adj, total);
    proof {
        assert forall|i: int| 0 <= i < c.len() implies (#[trigger] c[i]).len() == n2 by {
            assert(c[i] == close@[i]@);
        }
        if r {
            let p = choose|p: Seq<Option<usize>>| p.len() == total && #[trigger] saturates_left(g, p);
            lemma_extension_to_valid(g, c, near1@, near2@, n2 as int, p);
        } else {
            if exists|mt: Seq<Option<usize>>|
                mt.len() == n2 && close_matching(c, mt) && #[trigger] unmatched_are_near(mt, near1@, near2@) {
                let mt = choose|mt: Seq<Option<usize>>|
                    mt.len() == n2 && close_matching(c, mt) && #[trigger] unmatched_are_near(mt, near1@, near2@);
                lemma_valid_to_extension(g, c, near1@, near2@, n2 as int, mt);
            }
        }
    }
    r
}


/// The points of two diagrams can be matched so that every pair is close
/// and every unmatched point is near the diagonal.
pub open spec fn can_match(c: Seq<Seq<bool>>, n2: nat, near1: Seq<bool>, near2: Seq<bool>) -> bool {
    exists|mt: Seq<Option<usize>>| mt.len() == n2 && close_matching(c, mt) && #[trigger] unmatched_are_near(mt, near1, near2)
}

/// The closeness matrix seen from the second diagram.
pub open spec fn transpose(c: Seq<Seq<bool>>, n2: nat) -> Seq<Seq<bool>> {
    Seq::new(n2, |j: int| Seq::new(c.len(), |i: int| c[i][j]))
}

/// A matching of the first diagram to the second, read the other way round.
proof fn lemma_can_match_transposed(c: Seq<Seq<bool>>, n2: nat, near1: Seq<bool>, near2: Seq<bool>)
    requires
        forall|i: int| 0 <= i < c.len() ==> (#[trigger] c[i]).len() == n2,
        near1.len() == c.len(),
        near2.len() == n2,
        c.len() <= usize::MAX,
        n2 <= usize::MAX,
        can_match(c, n2, near1, near2),
    ensures
        can_match(transpose(c, n2), c.len(), near2, near1),
{
    let mt = choose|mt: Seq<Option<usize>>| mt.len() == n2 && close_matching(c, mt) && #[trigger] unmatched_are_near(mt, near1, near2);
    let n1 = c.len();
    let t = transpose(c, n2);
    let back = Seq::new(n1, |i: int| if left_matched(mt, i as usize) { Some(partner_of(mt, i as usize)) } else { None });
    assert forall|i: int| 0 <= i < n1 && #[trigger] left_matched(mt, i as usize) implies 0 <= partner_of(mt, i as usize) < n2
        && mt[partner_of(mt, i as usize) as int] == Some(i as usize) by {
        let j = choose|j: int| 0 <= j < mt.len() && mt[j] == Some(i as usize);
    }
    assert(injective(back)) by {
        assert forall|i1: int, i2: int| 0 <= i1 < back.len() && 0 <= i2 < back.len() && i1 != i2 && (#[trigger] back[i1]) is Some
            implies back[i1] != #[trigger] back[i2] by {
            if back[i2] is Some && back[i1] == back[i2] {
                assert(mt[partner_of(mt, i1 as usize) as int] == Some(i1 as usize));
                assert(mt[partner_of(mt, i2 as usize) as int] == Some(i2 as usize));
            }
        }
    }
    assert forall|i: int| 0 <= i < back.len() && (#[trigger] back[i]) is Some implies back[i]->0 < t.len() && i < t[back[i]->0 as int].len()
        && t[back[i]->0 as int][i] by {
        let j = partner_of(mt, i as usize) as int;
        assert(mt[j] == Some(i as usize));
    }
    assert forall|j: int| 0 <= j < near2.len() implies left_matched(back, j as usize) || #[trigger] near2[j] by {
        if mt[j] is Some {
            let i = mt[j]->0 as int;
            assert(left_matched(mt, i as usize));
            let j2 = partner_of(mt, i as usize) as int;
            if j2 != j {
                assert(mt[j2] == mt[j]);
            }
            assert(back[i] == Some(j as usize));
        }
    }
    assert forall|i: int| 0 <= i < near1.len() implies (#[trigger] back[i]) is Some || near1[i] by {}
    assert(unmatched_are_near(back, near2, near1));
}

/// Whether the points of two diagrams can be matched within a threshold
/// does not depend on which diagram comes first.
pub proof fn lemma_can_match_symmetric(c: Seq<Seq<bool>>, n2: nat, near1: Seq<bool>, near2: Seq<bool>)
    requires
        forall|i: int| 0 <= i < c.len() ==> (#[trigger] c[i]).len() == n2,
        near1.len() == c.len(),
        near2.len() == n2,
        c.len() <= usize::MAX,
        n2 <= usize::MAX,
    ensures
        can_match(c, n2, near1, near2) == can_match(transpose(c, n2), c.len(), near2, near1),
{
    let t = transpose(c, n2);
    if can_match(c, n2, near1, near2) {
        lemma_can_match_transposed(c, n2, near1, near2);
    }
    if can_match(t, c.len(), near2, near1) {
        assert forall|j: int| 0 <= j < t.len() implies (#[trigger] t[j]).len() == c.len() by {}
        lemma_can_match_transposed(t, c.len(), near2, near1);
        assert(transpose(t, c.len()) =~= c) by {
            assert forall|i: int| 0 <= i < c.len() implies #[trigger] transpose(t, c.len())[i] =~= c[i] by {}
        }
    }
}

} // verus!
