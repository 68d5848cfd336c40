//! Mapper graphs: nodes holding clusters of point indices, joined by edges,
//! and their connectivity.

use vstd::prelude::*;
use std::collections::{HashMap, HashSet};

verus! {

broadcast use vstd::std_specs::hash::group_hash_axioms;

/// A node in the Mapper graph: the indices of the points of one cluster.
#[derive(Debug, Clone)]
pub struct MapperNode {
    pub id: usize,
    pub points: Vec<usize>,
}

/// An edge in the Mapper graph.
#[derive(Debug, Clone, Copy)]
pub struct MapperEdge {
    pub source: usize,
    pub target: usize,
}

/// The Mapper graph output.
#[derive(Debug, Clone)]
pub struct MapperGraph {
    pub nodes: Vec<MapperNode>,
    pub edges: Vec<MapperEdge>,
}

/// Neighbours of `v` in edge order: for each edge, its target when `v` is
/// its source, then its source when `v` is its target.
pub open spec fn adj_list(edges: Seq<MapperEdge>, v: usize) -> Seq<usize>
    decreases edges.len(),
{
    if edges.len() == 0 {
        Seq::empty()
    } else {
        let prev = adj_list(edges.drop_last(), v);
        let e = edges.last();
        let a = if e.source == v {
            prev.push(e.target)
        } else {
            prev
        };
        if e.target == v {
            a.push(e.source)
        } else {
            a
        }
    }
}

/// `v` is an endpoint of some edge.
pub open spec fn is_endpoint(edges: Seq<MapperEdge>, v: usize) -> bool {
    exists|i: int| 0 <= i < edges.len() && (#[trigger] edges[i].source == v || edges[i].target == v)
}

/// Some edge joins `a` and `b` (in either direction).
pub open spec fn adjacent(edges: Seq<MapperEdge>, a: usize, b: usize) -> bool {
    exists|i: int| 0 <= i < edges.len() && ((#[trigger] edges[i].source == a && edges[i].target == b)
        || (edges[i].target == a && edges[i].source == b))
}

/// `p` is a walk: consecutive ids are adjacent.
pub open spec fn is_walk(edges: Seq<MapperEdge>, p: Seq<usize>) -> bool {
    forall|i: int| 0 <= i < p.len() - 1 ==> #[trigger] adjacent(edges, p[i], p[i + 1])
}

/// `p` is a walk from `a` to `b`.
pub open spec fn walk_from_to(edges: Seq<MapperEdge>, p: Seq<usize>, a: usize, b: usize) -> bool {
    p.len() >= 1 && p[0] == a && p.last() == b && is_walk(edges, p)
}

/// `b` can be reached from `a` along edges.
pub open spec fn reachable(edges: Seq<MapperEdge>, a: usize, b: usize) -> bool {
    exists|p: Seq<usize>| #[trigger] walk_from_to(edges, p, a, b)
}

/// The ids reachable from `a`.
pub open spec fn reach_set(edges: Seq<MapperEdge>, a: usize) -> Set<usize> {
    Set::new(|b: usize| reachable(edges, a, b))
}

/// Every neighbour of a member is a member.
pub open spec fn closed_set(edges: Seq<MapperEdge>, s: Set<usize>) -> bool {
    forall|a: usize, b: usize| s.contains(a) && #[trigger] adjacent(edges, a, b) ==> s.contains(b)
}

/// Number of nodes that start a new component when the nodes are visited in
/// order: those whose id cannot be reached from the id of an earlier node.
pub open spec fn component_starts(edges: Seq<MapperEdge>, ids: Seq<usize>, m: int) -> nat
    decreases m,
{
    if m <= 0 {
        0
    } else {
        component_starts(edges, ids, m - 1) + if forall|j: int| 0 <= j < m - 1 ==> !reachable(edges, #[trigger] ids[j], ids[m - 1]) {
            1nat
        } else {
            0nat
        }
    }
}

/// The node ids in order.
pub open spec fn node_ids(nodes: Seq<MapperNode>) -> Seq<usize> {
    Seq::new(nodes.len(), |i: int| nodes[i].id)
}

/// The map holds, for each endpoint of an edge, its neighbours in edge order.
pub open spec fn is_adjacency(edges: Seq<MapperEdge>, m: Map<usize, Vec<usize>>) -> bool {
    &&& forall|v: usize| #[trigger] m.contains_key(v) <==> is_endpoint(edges, v)
    &&& forall|v: usize| #[trigger] m.contains_key(v) ==> m[v]@ == adj_list(edges, v)
}

/// The neighbour list of `v` holds exactly the ids adjacent to `v`.
proof fn lemma_adj_list(edges: Seq<MapperEdge>, v: usize, b: usize)
    ensures
        adj_list(edges, v).contains(b) <==> adjacent(edges, v, b),
    decreases edges.len(),
{
    if edges.len() > 0 {
        let init = edges.drop_last();
        let e = edges.last();
        lemma_adj_list(init, v, b);
        let prev = adj_list(init, v);
        let a = if e.source == v { prev.push(e.target) } else { prev };
        if adjacent(init, v, b) {
            let i = choose|i: int| 0 <= i < init.len() && ((#[trigger] init[i].source == v && init[i].target == b)
                || (init[i].target == v && init[i].source == b));
            assert(edges[i] == init[i]);
        }
        if adjacent(edges, v, b) && !adjacent(init, v, b) {
            let i = choose|i: int| 0 <= i < edges.len() && ((#[trigger] edges[i].source == v && edges[i].target == b)
                || (edges[i].target == v && edges[i].source == b));
            if i < edges.len() - 1 {
                assert(init[i] == edges[i]);
            }
        }
        if adj_list(edges, v).contains(b) && !prev.contains(b) {
            assert(adjacent(edges, v, b)) by {
                assert(edges[edges.len() - 1] == e);
            }
        }
        if prev.contains(b) {
            let k = choose|k: int| 0 <= k < prev.len() && prev[k] == b;
            assert(a[k] == b);
            if e.target == v {
                assert(a.push(e.source)[k] == b);
            }
        }
        if adjacent(edges, v, b) && !adjacent(init, v, b) {
            if e.source == v && e.target == b {
                assert(a[a.len() - 1] == b);
                if e.target == v {
                    assert(a.push(e.source)[a.len() - 1] == b);
                }
            } else {
                assert(a.push(e.source)[a.len() as int] == b);
            }
        }
    }
}

/// An id on no edge has no neighbours.
proof fn lemma_adj_list_empty(edges: Seq<MapperEdge>, v: usize)
    requires
        !is_endpoint(edges, v),
    ensures
        adj_list(edges, v) == Seq::<usize>::empty(),
    decreases edges.len(),
{
    if edges.len() > 0 {
        let init = edges.drop_last();
        assert(!is_endpoint(init, v)) by {
            if is_endpoint(init, v) {
                let i = choose|i: int| 0 <= i < init.len() && (#[trigger] init[i].source == v || init[i].target == v);
                assert(edges[i] == init[i]);
            }
        }
        lemma_adj_list_empty(init, v);
        assert(edges[edges.len() - 1] == edges.last());
    }
}

/// Every id is reachable from itself.
proof fn lemma_reach_self(edges: Seq<MapperEdge>, a: usize)
    ensures
        reachable(edges, a, a),
{
    assert(walk_from_to(edges, seq![a], a, a));
}

/// One more edge extends a walk.
proof fn lemma_reach_step(edges: Seq<MapperEdge>, a: usize, c: usize, b: usize)
    requires
        reachable(edges, a, c),
        adjacent(edges, c, b),
    ensures
        reachable(edges, a, b),
{
    let p = choose|p: Seq<usize>| #[trigger] walk_from_to(edges, p, a, c);
    let q = p.push(b);
    assert forall|i: int| 0 <= i < q.len() - 1 implies #[trigger] adjacent(edges, q[i], q[i + 1]) by {
        if i < p.len() - 1 {
            assert(adjacent(edges, p[i], p[i + 1]));
        }
    }
    assert(walk_from_to(edges, q, a, b));
}

/// Reachability is transitive.
pub proof fn lemma_reach_trans(edges: Seq<MapperEdge>, a: usize, b: usize, c: usize)
    requires
        reachable(edges, a, b),
        reachable(edges, b, c),
    ensures
        reachable(edges, a, c),
{
    let p1 = choose|p: Seq<usize>| #[trigger] walk_from_to(edges, p, a, b);
    let p2 = choose|p: Seq<usize>| #[trigger] walk_from_to(edges, p, b, c);
    let q = p1 + p2.drop_first();
    assert forall|i: int| 0 <= i < q.len() - 1 implies #[trigger] adjacent(edges, q[i], q[i + 1]) by {
        if i < p1.len() - 1 {
            assert(adjacent(edges, p1[i], p1[i + 1]));
        } else if i == p1.len() - 1 {
            assert(q[i] == b);
            assert(q[i + 1] == p2[1]);
            assert(adjacent(edges, p2[0], p2[1]));
        } else {
            let k = i - p1.len() + 1;
            assert(q[i] == p2[k]);
            assert(q[i + 1] == p2[k + 1]);
            assert(adjacent(edges, p2[k], p2[k + 1]));
        }
    }
    if p2.len() == 1 {
        assert(q =~= p1);
    }
    assert(walk_from_to(edges, q, a, c));
}

/// A set closed under neighbours holds everything reachable from its members.
proof fn lemma_closed_reach(edges: Seq<MapperEdge>, s: Set<usize>, a: usize, b: usize)
    requires
        closed_set(edges, s),
        s.contains(a),
        reachable(edges, a, b),
    ensures
        s.contains(b),
{
    let p = choose|p: Seq<usize>| #[trigger] walk_from_to(edges, p, a, b);
    lemma_walk_in_closed(edges, s, p, p.len() - 1);
}

proof fn lemma_walk_in_closed(edges: Seq<MapperEdge>, s: Set<usize>, p: Seq<usize>, i: int)
    requires
        closed_set(edges, s),
        p.len() >= 1,
        s.contains(p[0]),
        is_walk(edges, p),
        0 <= i < p.len(),
    ensures
        s.contains(p[i]),
    decreases i,
{
    if i > 0 {
        lemma_walk_in_closed(edges, s, p, i - 1);
        let j = i - 1;
        assert(adjacent(edges, p[j], p[j + 1]));
    }
}

/// The endpoints of the edges, and `start`, as a finite set.
spec fn universe(edges: Seq<MapperEdge>, start: usize) -> Set<usize> {
    Seq::new(edges.len(), |i: int| edges[i].source).to_set()
        .union(Seq::new(edges.len(), |i: int| edges[i].target).to_set()).insert(start)
}

proof fn lemma_universe(edges: Seq<MapperEdge>, start: usize, a: usize, b: usize)
    ensures
        universe(edges, start).finite(),
        universe(edges, start).contains(start),
        adjacent(edges, a, b) ==> universe(edges, start).contains(b),
{
    let srcs = Seq::new(edges.len(), |i: int| edges[i].source);
    let tgts = Seq::new(edges.len(), |i: int| edges[i].target);
    vstd::seq_lib::seq_to_set_is_finite(srcs);
    vstd::seq_lib::seq_to_set_is_finite(tgts);
    if adjacent(edges, a, b) {
        let i = choose|i: int| 0 <= i < edges.len() && ((#[trigger] edges[i].source == a && edges[i].target == b)
            || (edges[i].target == a && edges[i].source == b));
        if edges[i].target == b {
            assert(tgts[i] == b);
            assert(tgts.to_set().contains(b));
        } else {
            assert(srcs[i] == b);
            assert(srcs.to_set().contains(b));
        }
    }
}

/// Depth-first search from `start` with an explicit stack, marking every id
/// reachable from `start` as visited.
fn explore(
    adj: &HashMap<usize, Vec<usize>>,
    Ghost(edges): Ghost<Seq<MapperEdge>>,
    start: usize,
    visited: &mut HashSet<usize>,
)
    requires
        is_adjacency(edges, adj@),
        closed_set(edges, old(visited)@),
    ensures
        final(visited)@ == old(visited)@.union(reach_set(edges, start)),
        closed_set(edges, final(visited)@),
{
    let ghost v0 = visited@;
    let ghost u = universe(edges, start);
    let mut stack: Vec<usize> = Vec::new();
    stack.push(start);
    assert(stack@[0] == start);
    proof {
        lemma_universe(edges, start, start, start);
        lemma_reach_self(edges, start);
    }
    while stack.len() > 0
        invariant
            is_adjacency(edges, adj@),
            closed_set(edges, v0),
            u == universe(edges, start),
            u.finite(),
            v0.subset_of(visited@),
            forall|x: usize| #[trigger] visited@.contains(x) ==> v0.contains(x) || reachable(edges, start, x),
            forall|k: int| 0 <= k < stack@.len() ==> reachable(edges, start, #[trigger] stack@[k]) && u.contains(stack@[k]),
            forall|a: usize, b: usize| visited@.contains(a) && #[trigger] adjacent(edges, a, b) ==> visited@.contains(b)
                || stack@.contains(b),
            visited@.contains(start) || stack@.contains(start),
        decreases u.difference(visited@).len(), stack@.len(),
    {
        let ghost old_stack = stack@;
        let v = stack.pop().unwrap();
        let ghost popped = stack@.push(v);
        assert(popped =~= old_stack);
        if visited.contains(&v) {
            proof {
                assert forall|a: usize, b: usize| visited@.contains(a) && #[trigger] adjacent(edges, a, b) implies visited@.contains(b)
                    || stack@.contains(b) by {
                    if popped.contains(b) && b != v {
                        let k = choose|k: int| 0 <= k < popped.len() && popped[k] == b;
                        assert(stack@[k] == b);
                    }
                }
                if stack@.contains(start) || start == v {
                } else {
                    assert(popped.contains(start) ==> (start == v || stack@.contains(start))) by {
                        if popped.contains(start) {
                            let k = choose|k: int| 0 <= k < popped.len() && popped[k] == start;
                            if k < stack@.len() {
                                assert(stack@[k] == start);
                            }
                        }
                    }
                }
            }
            continue;
        }
        let ghost before_visit = visited@;
        proof {
            assert(popped[popped.len() - 1] == v);
            u.lemma_set_insert_diff_decreases(visited@, v);
        }
        visited.insert(v);
        let ghost after_visit = visited@;
        proof {
            assert forall|k: int| 0 <= k < stack@.len() implies #[trigger] stack@[k] == popped[k] by {}
        }
        match adj.get(&v) {
            Some(neighbors) => {
                let ghost nb = adj_list(edges, v);
                assert(neighbors@ == nb);
                let mut k: usize = 0;
                while k < neighbors.len()
                    invariant
                        is_adjacency(edges, adj@),
                        neighbors@ == adj_list(edges, v),
                        0 <= k <= neighbors@.len(),
                        visited@ == after_visit,
                        u == universe(edges, start),
                        reachable(edges, start, v),
                        forall|q: int| 0 <= q < stack@.len() ==> reachable(edges, start, #[trigger] stack@[q]) && u.contains(stack@[q]),
                        forall|q: int| 0 <= q < popped.len() - 1 ==> stack@.contains(#[trigger] popped[q]),
                        forall|q: int| 0 <= q < k ==> visited@.contains(#[trigger] neighbors@[q]) || stack@.contains(neighbors@[q]),
                    decreases neighbors@.len() - k,
                {
                    let x = neighbors[k];
                    proof {
                        assert(neighbors@.contains(x));
                        lemma_adj_list(edges, v, x);
                        lemma_reach_step(edges, start, v, x);
                        lemma_universe(edges, start, v, x);
                    }
                    if !visited.contains(&x) {
                        let ghost sbefore = stack@;
                        stack.push(x);
                        proof {
                            assert forall|q: int| 0 <= q < popped.len() - 1 implies stack@.contains(#[trigger] popped[q]) by {
                                let r = choose|r: int| 0 <= r < sbefore.len() && sbefore[r] == popped[q];
                                assert(stack@[r] == popped[q]);
                            }
                            assert forall|q: int| 0 <= q < k + 1 implies visited@.contains(#[trigger] neighbors@[q]) || stack@.contains(neighbors@[q]) by {
                                if q < k && !visited@.contains(neighbors@[q]) {
                                    let r = choose|r: int| 0 <= r < sbefore.len() && sbefore[r] == neighbors@[q];
                                    assert(stack@[r] == neighbors@[q]);
                                }
                                if q == k {
                                    assert(stack@[stack@.len() - 1] == x);
                                }
                            }
                        }
                    }
                    k = k + 1;
                }
                proof {
                    assert forall|a: usize, b: usize| visited@.contains(a) && #[trigger] adjacent(edges, a, b) implies visited@.contains(b)
                        || stack@.contains(b) by {
                        if a == v {
                            lemma_adj_list(edges, v, b);
                            let q = choose|q: int| 0 <= q < neighbors@.len() && neighbors@[q] == b;
                        } else {
                            assert(before_visit.contains(a));
                            if !before_visit.contains(b) && b != v {
                                let q = choose|q: int| 0 <= q < popped.len() && popped[q] == b;
                                assert(q < popped.len() - 1);
                            }
                        }
                    }
                }
            },
            None => {
                proof {
                    assert forall|a: usize, b: usize| visited@.contains(a) && #[trigger] adjacent(edges, a, b) implies visited@.contains(b)
                        || stack@.contains(b) by {
                        if a == v {
                            assert(is_endpoint(edges, v)) by {
                                let i = choose|i: int| 0 <= i < edges.len() && ((#[trigger] edges[i].source == a && edges[i].target == b)
                                    || (edges[i].target == a && edges[i].source == b));
                            }
                        } else {
                            assert(before_visit.contains(a));
                            if !before_visit.contains(b) && b != v {
                                let q = choose|q: int| 0 <= q < popped.len() && popped[q] == b;
                                assert(q < popped.len() - 1);
                                assert(stack@[q] == b);
                            }
                        }
                    }
                }
            },
        }
        proof {
            if !visited@.contains(start) {
                let q = choose|q: int| 0 <= q < popped.len() && popped[q] == start;
                assert(q < popped.len() - 1);
                assert(stack@.contains(popped[q]));
            }
        }
    }
    proof {
        assert(closed_set(edges, visited@));
        assert forall|x: usize| #[trigger] visited@.contains(x) <==> v0.union(reach_set(edges, start)).contains(x) by {
            if reach_set(edges, start).contains(x) {
                lemma_closed_reach(edges, visited@, start, x);
            }
        }
        assert(visited@ =~= v0.union(reach_set(edges, start)));
    }
}

/// The ids reachable from the ids of the first `i` nodes.
pub open spec fn reach_from_prefix(edges: Seq<MapperEdge>, ids: Seq<usize>, i: int) -> Set<usize> {
    Set::new(|x: usize| exists|j: int| 0 <= j < i && reachable(edges, #[trigger] ids[j], x))
}

/// A list of neighbours taken from the map, or an empty one.
fn take_list(adj: &mut HashMap<usize, Vec<usize>>, key: usize) -> (l: Vec<usize>)
    ensures
        final(adj)@ == old(adj)@.remove(key),
        old(adj)@.contains_key(key) ==> l@ == old(adj)@[key]@,
        !old(adj)@.contains_key(key) ==> l@ == Seq::<usize>::empty(),
{
    match adj.remove(&key) {
        Some(l) => l,
        None => Vec::new(),
    }
}

impl MapperGraph {
    /// Number of nodes.
    pub fn n_nodes(&self) -> (n: usize)
        ensures
            n == self.nodes@.len(),
    {
        self.nodes.len()
    }

    /// Number of edges.
    pub fn n_edges(&self) -> (n: usize)
        ensures
            n == self.edges@.len(),
    {
        self.edges.len()
    }

    /// Get adjacency list representation: each endpoint of an edge with its
    /// neighbours in edge order (an edge counts in both directions).
    pub fn adjacency(&self) -> (m: HashMap<usize, Vec<usize>>)
        ensures
            is_adjacency(self.edges@, m@),
    {
        let ghost edges = self.edges@;
        let mut adj: HashMap<usize, Vec<usize>> = HashMap::new();
        proof {
            assert(edges.take(0) =~= Seq::<MapperEdge>::empty());
        }
        let mut k: usize = 0;
        while k < self.edges.len()
            invariant
                0 <= k <= edges.len(),
                edges == self.edges@,
                is_adjacency(edges.take(k as int), adj@),
            decreases edges.len() - k,
        {
            let e = self.edges[k];
            let ghost pre = edges.take(k as int);
            let ghost cur = edges.take(k + 1);
            assert(cur.drop_last() =~= pre);
            assert(cur.last() == e);
            let ghost adj0 = adj@;
            let mut l = take_list(&mut adj, e.source);
            l.push(e.target);
            adj.insert(e.source, l);
            let ghost adj1 = adj@;
            let mut l2 = take_list(&mut adj, e.target);
            l2.push(e.source);
            adj.insert(e.target, l2);
            proof {
                assert forall|v: usize| #[trigger] adj@.contains_key(v) <==> is_endpoint(cur, v) by {
                    if is_endpoint(pre, v) {
                        let i = choose|i: int| 0 <= i < pre.len() && (#[trigger] pre[i].source == v || pre[i].target == v);
                        assert(cur[i] == pre[i]);
                        assert(adj0.contains_key(v));
                    }
                    if is_endpoint(cur, v) {
                        let i = choose|i: int| 0 <= i < cur.len() && (#[trigger] cur[i].source == v || cur[i].target == v);
                        if i < pre.len() {
                            assert(pre[i] == cur[i]);
                        }
                    }
                    if v == e.source || v == e.target {
                        assert(cur[k as int] == e);
                    }
                }
                assert forall|v: usize| #[trigger] adj@.contains_key(v) implies adj@[v]@ == adj_list(cur, v) by {
                    let prev = adj_list(pre, v);
                    if !adj0.contains_key(v) {
                        lemma_adj_list_empty(pre, v);
                    }
                    if v != e.source && v != e.target {
                        assert(adj0.contains_key(v));
                    }
                }
            }
            k = k + 1;
        }
        assert(edges.take(k as int) =~= edges);
        adj
    }

    /// Check if the graph is connected: whether the depth-first search from
    /// id 0 reaches as many ids as there are nodes.
    pub fn is_connected(&self) -> (b: bool)
        ensures
            b == (self.nodes@.len() == 0 || reach_set(self.edges@, 0).len() == self.nodes@.len()),
    {
        if self.nodes.len() == 0 {
            return true;
        }
        let adj = self.adjacency();
        let mut visited: HashSet<usize> = HashSet::new();
        explore(&adj, Ghost(self.edges@), 0, &mut visited);
        assert(visited@ =~= reach_set(self.edges@, 0));
        visited.len() == self.nodes.len()
    }

    /// Number of connected components: a depth-first search is started from
    /// each node whose id has not been reached yet, in node order.
    pub fn n_components(&self) -> (c: usize)
        ensures
            c == component_starts(self.edges@, node_ids(self.nodes@), self.nodes@.len() as int),
    {
        let ghost edges = self.edges@;
        let ghost ids = node_ids(self.nodes@);
        if self.nodes.len() == 0 {
            return 0;
        }
        let adj = self.adjacency();
        let mut visited: HashSet<usize> = HashSet::new();
        let mut components: usize = 0;
        assert(visited@ =~= reach_from_prefix(edges, ids, 0));
        let mut i: usize = 0;
        while i < self.nodes.len()
            invariant
                0 <= i <= self.nodes@.len(),
                edges == self.edges@,
                ids == node_ids(self.nodes@),
                is_adjacency(edges, adj@),
                visited@ == reach_from_prefix(edges, ids, i as int),
                closed_set(edges, visited@),
                components == component_starts(edges, ids, i as int),
                components <= i,
            decreases self.nodes@.len() - i,
        {
            let id = self.nodes[i].id;
            assert(ids[i as int] == id);
            if visited.contains(&id) {
                proof {
                    let j = choose|j: int| 0 <= j < i && reachable(edges, #[trigger] ids[j], id);
                    assert(!(forall|jj: int| 0 <= jj < i ==> !reachable(edges, #[trigger] ids[jj], ids[i as int])));
                    assert(reach_from_prefix(edges, ids, i + 1) =~= reach_from_prefix(edges, ids, i as int)) by {
                        assert forall|x: usize| #[trigger] reach_from_prefix(edges, ids, i + 1).contains(x)
                            implies reach_from_prefix(edges, ids, i as int).contains(x) by {
                            let jj = choose|jj: int| 0 <= jj < i + 1 && reachable(edges, #[trigger] ids[jj], x);
                            if jj == i {
                                lemma_reach_trans(edges, ids[j], id, x);
                            }
                        }
                    }
                }
            } else {
                proof {
                    assert forall|jj: int| 0 <= jj < i implies !reachable(edges, #[trigger] ids[jj], ids[i as int]) by {
                        if reachable(edges, ids[jj], ids[i as int]) {
                            assert(reach_from_prefix(edges, ids, i as int).contains(id));
                        }
                    }
                }
                components = components + 1;
                explore(&adj, Ghost(edges), id, &mut visited);
                proof {
                    assert(visited@ =~= reach_from_prefix(edges, ids, i + 1)) by {
                        assert forall|x: usize| #[trigger] visited@.contains(x) <==> reach_from_prefix(edges, ids, i + 1).contains(x) by {
                            if reach_set(edges, id).contains(x) {
                                assert(reachable(edges, ids[i as int], x));
                            }
                            if reach_from_prefix(edges, ids, i + 1).contains(x) {
                                let jj = choose|jj: int| 0 <= jj < i + 1 && reachable(edges, #[trigger] ids[jj], x);
                                if jj < i {
                                    assert(reach_from_prefix(edges, ids, i as int).contains(x));
                                }
                            }
                        }
                    }
                }
            }
            i = i + 1;
        }
        components
    }
}


/// The edge from `i` to `j`.
pub open spec fn edge_between(i: int, j: int) -> MapperEdge {
    MapperEdge { source: i as usize, target: j as usize }
}

/// The point lists of the clusters.
pub open spec fn member_lists(clusters: Seq<Vec<usize>>) -> Seq<Seq<usize>> {
    Seq::new(clusters.len(), |i: int| clusters[i]@)
}

/// Two point lists have a point in common.
pub open spec fn share_point(a: Seq<usize>, b: Seq<usize>) -> bool {
    exists|x: usize| a.contains(x) && b.contains(x)
}

/// Clusters `i` and `j` come from different intervals and share a point.
pub open spec fn joined(clusters: Seq<Seq<usize>>, intervals: Seq<usize>, i: int, j: int) -> bool {
    intervals[i] != intervals[j] && share_point(clusters[i], clusters[j])
}

/// Edges ordered by source, then by target.
pub open spec fn edge_lt(a: MapperEdge, b: MapperEdge) -> bool {
    a.source < b.source || (a.source == b.source && a.target < b.target)
}

/// Edges in strictly increasing order.
pub open spec fn edges_increasing(edges: Seq<MapperEdge>) -> bool {
    forall|p: int, q: int| 0 <= p < q < edges.len() ==> edge_lt(#[trigger] edges[p], #[trigger] edges[q])
}

/// The edges between clusters: one for each pair `i < j` of joined
/// clusters, in increasing order.
pub open spec fn cluster_edges_spec(clusters: Seq<Seq<usize>>, intervals: Seq<usize>, edges: Seq<MapperEdge>) -> bool {
    &&& edges_increasing(edges)
    &&& forall|k: int|
        0 <= k < edges.len() ==> (#[trigger] edges[k]).source < edges[k].target < clusters.len() && joined(
            clusters,
            intervals,
            edges[k].source as int,
            edges[k].target as int,
        )
    &&& forall|i: int, j: int|
        0 <= i < j < clusters.len() && #[trigger] joined(clusters, intervals, i, j) ==> exists|k: int|
            0 <= k < edges.len() && #[trigger] edges[k] == edge_between(i, j)
}

/// The edges between clusters are exactly the pairs `i < j` of clusters
/// from different intervals that have some point in common, each given once
/// as the edge from `i` to `j`.
pub proof fn lemma_cluster_edges_law(clusters: Seq<Seq<usize>>, intervals: Seq<usize>, edges: Seq<MapperEdge>)
    requires
        intervals.len() == clusters.len(),
        clusters.len() <= usize::MAX,
        cluster_edges_spec(clusters, intervals, edges),
    ensures
        forall|k: int| 0 <= k < edges.len() ==> (#[trigger] edges[k]).source < edges[k].target < clusters.len(),
        forall|i: int, j: int|
            0 <= i < j < clusters.len() ==> ((exists|k: int| 0 <= k < edges.len() && #[trigger] edges[k] == edge_between(i, j))
                <==> (intervals[i] != intervals[j] && exists|x: usize| #[trigger] clusters[i].contains(x) && clusters[j].contains(x))),
        forall|p: int, q: int| 0 <= p < q < edges.len() ==> #[trigger] edges[p] != #[trigger] edges[q],
{
    assert forall|i: int, j: int| 0 <= i < j < clusters.len() implies ((exists|k: int|
        0 <= k < edges.len() && #[trigger] edges[k] == edge_between(i, j)) <==> (intervals[i] != intervals[j] && exists|x: usize|
        #[trigger] clusters[i].contains(x) && clusters[j].contains(x))) by {
        if exists|k: int| 0 <= k < edges.len() && #[trigger] edges[k] == edge_between(i, j) {
            let k = choose|k: int| 0 <= k < edges.len() && #[trigger] edges[k] == edge_between(i, j);
            assert(joined(clusters, intervals, edges[k].source as int, edges[k].target as int));
            assert(edges[k].source as int == i && edges[k].target as int == j);
        }
        if intervals[i] != intervals[j] && exists|x: usize| #[trigger] clusters[i].contains(x) && clusters[j].contains(x) {
            assert(joined(clusters, intervals, i, j));
        }
    }
    assert forall|p: int, q: int| 0 <= p < q < edges.len() implies #[trigger] edges[p] != #[trigger] edges[q] by {
        assert(edge_lt(edges[p], edges[q]));
    }
}

/// Whether two point lists have a point in common.
fn share(a: &Vec<usize>, b: &Vec<usize>) -> (r: bool)
    ensures
        r == share_point(a@, b@),
{
    let mut p: usize = 0;
    while p < a.len()
        invariant
            0 <= p <= a@.len(),
            forall|pp: int| 0 <= pp < p ==> !b@.contains(#[trigger] a@[pp]),
        decreases a@.len() - p,
    {
        let mut q: usize = 0;
        while q < b.len()
            invariant
                0 <= p < a@.len(),
                0 <= q <= b@.len(),
                forall|qq: int| 0 <= qq < q ==> b@[qq] != a@[p as int],
            decreases b@.len() - q,
        {
            if a[p] == b[q] {
                assert(a@.contains(a@[p as int]));
                assert(b@.contains(a@[p as int]));
                return true;
            }
            q = q + 1;
        }
        p = p + 1;
    }
    proof {
        if share_point(a@, b@) {
            let x = choose|x: usize| a@.contains(x) && b@.contains(x);
            let pp = choose|pp: int| 0 <= pp < a@.len() && a@[pp] == x;
            assert(!b@.contains(a@[pp]));
        }
    }
    false
}

/// The edges of a Mapper graph: clusters `i < j` are joined when they come
/// from different intervals (`intervals[i] != intervals[j]`) and share a
/// point.
pub fn cluster_edges(clusters: &Vec<Vec<usize>>, intervals: &Vec<usize>) -> (edges: Vec<MapperEdge>)
    requires
        intervals@.len() == clusters@.len(),
    ensures
        cluster_edges_spec(member_lists(clusters@), intervals@, edges@),
        forall|i: int, j: int|
            0 <= i < j < clusters@.len() ==> ((exists|k: int| 0 <= k < edges@.len() && #[trigger] edges@[k] == edge_between(i, j))
                <==> (intervals@[i] != intervals@[j] && exists|x: usize|
                #[trigger] clusters@[i]@.contains(x) && clusters@[j]@.contains(x))),
{
    let ghost cs = member_lists(clusters@);
    let m = clusters.len();
    let mut edges: Vec<MapperEdge> = Vec::new();
    let mut i: usize = 0;
    while i < m
        invariant
            m == clusters@.len(),
            m == intervals@.len(),
            cs == member_lists(clusters@),
            0 <= i <= m,
            edges_increasing(edges@),
            forall|k: int|
                0 <= k < edges@.len() ==> (#[trigger] edges@[k]).source < i && edges@[k].source < edges@[k].target < m
                    && joined(cs, intervals@, edges@[k].source as int, edges@[k].target as int),
            forall|a: int, b: int|
                0 <= a < i && a < b < m && #[trigger] joined(cs, intervals@, a, b) ==> exists|k: int|
                    0 <= k < edges@.len() && #[trigger] edges@[k] == edge_between(a, b),
        decreases m - i,
    {
        let mut j: usize = i + 1;
        while j < m
            invariant
                m == clusters@.len(),
                m == intervals@.len(),
                cs == member_lists(clusters@),
                0 <= i < m,
                i + 1 <= j <= m,
                edges_increasing(edges@),
                forall|k: int|
                    0 <= k < edges@.len() ==> ((#[trigger] edges@[k]).source < i || (edges@[k].source == i
                        && edges@[k].target < j)) && edges@[k].source < edges@[k].target < m && joined(
                        cs,
                        intervals@,
                        edges@[k].source as int,
                        edges@[k].target as int,
                    ),
                forall|a: int, b: int|
                    0 <= a < i && a < b < m && #[trigger] joined(cs, intervals@, a, b) ==> exists|k: int|
                        0 <= k < edges@.len() && #[trigger] edges@[k] == edge_between(a, b),
                forall|b: int|
                    i < b < j && #[trigger] joined(cs, intervals@, i as int, b) ==> exists|k: int|
                        0 <= k < edges@.len() && #[trigger] edges@[k] == edge_between(i as int, b),
            decreases m - j,
        {
            let sh = share(&clusters[i], &clusters[j]);
            if intervals[i] != intervals[j] && sh {
                let ghost before = edges@;
                let e = MapperEdge { source: i, target: j };
                edges.push(e);
                proof {
                    assert(cs[i as int] == clusters@[i as int]@);
                    assert(cs[j as int] == clusters@[j as int]@);
                    assert(edges@[before.len() as int] == e);
                    assert forall|p: int, q: int| 0 <= p < q < edges@.len() implies edge_lt(
                        #[trigger] edges@[p],
                        #[trigger] edges@[q],
                    ) by {
                        if q < before.len() {
                            assert(edges@[p] == before[p]);
                            assert(edges@[q] == before[q]);
                        } else {
                            assert(edges@[p] == before[p]);
                        }
                    }
                    assert forall|a: int, b: int|
                        0 <= a < i && a < b < m && #[trigger] joined(cs, intervals@, a, b) implies exists|k: int|
                            0 <= k < edges@.len() && #[trigger] edges@[k] == edge_between(a, b) by {
                        let k = choose|k: int|
                            0 <= k < before.len() && #[trigger] before[k] == edge_between(a, b);
                        assert(edges@[k] == before[k]);
                    }
                    assert forall|b: int|
                        i < b < j + 1 && #[trigger] joined(cs, intervals@, i as int, b) implies exists|k: int|
                            0 <= k < edges@.len() && #[trigger] edges@[k] == edge_between(i as int, b) by {
                        if b < j {
                            let k = choose|k: int|
                                0 <= k < before.len() && #[trigger] before[k] == edge_between(i as int, b);
                            assert(edges@[k] == before[k]);
                        } else {
                            assert(edges@[before.len() as int] == edge_between(i as int, b));
                        }
                    }
                }
            } else {
                proof {
                    assert(cs[i as int] == clusters@[i as int]@);
                    assert(cs[j as int] == clusters@[j as int]@);
                    assert(!joined(cs, intervals@, i as int, j as int));
                }
            }
            j = j + 1;
        }
        i = i + 1;
    }
    proof {
        lemma_cluster_edges_law(cs, intervals@, edges@);
        assert forall|i: int, j: int| 0 <= i < j < clusters@.len() implies ((exists|k: int|
            0 <= k < edges@.len() && #[trigger] edges@[k] == edge_between(i, j)) <==> (intervals@[i] != intervals@[j]
            && exists|x: usize| #[trigger] clusters@[i]@.contains(x) && clusters@[j]@.contains(x))) by {
            assert(cs[i] == clusters@[i]@);
            assert(cs[j] == clusters@[j]@);
            if exists|x: usize| #[trigger] cs[i].contains(x) && cs[j].contains(x) {
                let x = choose|x: usize| #[trigger] cs[i].contains(x) && cs[j].contains(x);
                assert(clusters@[i]@.contains(x) && clusters@[j]@.contains(x));
            }
            if exists|x: usize| #[trigger] clusters@[i]@.contains(x) && clusters@[j]@.contains(x) {
                let x = choose|x: usize| #[trigger] clusters@[i]@.contains(x) && clusters@[j]@.contains(x);
                assert(cs[i].contains(x) && cs[j].contains(x));
            }
        }
    }
    edges
}

/// The points `indices[idx]` whose `assignments[idx] == c`, in order, over
/// the first `n` positions.
pub open spec fn members_upto(indices: Seq<usize>, assignments: Seq<usize>, c: usize, n: int) -> Seq<usize>
    decreases n,
{
    if n <= 0 {
        Seq::empty()
    } else if assignments[n - 1] == c {
        members_upto(indices, assignments, c, n - 1).push(indices[n - 1])
    } else {
        members_upto(indices, assignments, c, n - 1)
    }
}

/// The clusters of an assignment of points to `k` labels: for each label in
/// turn, the points assigned to it in order, leaving out empty clusters.
pub open spec fn grouped(indices: Seq<usize>, assignments: Seq<usize>, k: nat) -> Seq<Seq<usize>> {
    Seq::new(k, |c: int| members_upto(indices, assignments, c as usize, indices.len() as int)).filter(
        |s: Seq<usize>| s.len() > 0,
    )
}

/// Total number of points over all the lists.
pub open spec fn total_size(ss: Seq<Seq<usize>>) -> int
    decreases ss.len(),
{
    if ss.len() == 0 {
        0
    } else {
        total_size(ss.drop_last()) + ss.last().len()
    }
}

/// Leaving out empty lists keeps the total number of points.
proof fn lemma_total_size_nonempty(ss: Seq<Seq<usize>>)
    ensures
        total_size(ss.filter(|s: Seq<usize>| s.len() > 0)) == total_size(ss),
    decreases ss.len(),
{
    reveal_with_fuel(Seq::<_>::filter, 1);
    if ss.len() > 0 {
        lemma_total_size_nonempty(ss.drop_last());
        let f = ss.drop_last().filter(|s: Seq<usize>| s.len() > 0);
        assert(f.push(ss.last()).drop_last() =~= f);
    }
}

/// The nonempty lists kept are lists of the original sequence.
proof fn lemma_nonempty_kept_from(ss: Seq<Seq<usize>>, i: int)
    requires
        0 <= i < ss.filter(|s: Seq<usize>| s.len() > 0).len(),
    ensures
        ss.contains(ss.filter(|s: Seq<usize>| s.len() > 0)[i]),
        ss.filter(|s: Seq<usize>| s.len() > 0)[i].len() > 0,
    decreases ss.len(),
{
    reveal_with_fuel(Seq::<_>::filter, 1);
    let f = ss.drop_last().filter(|s: Seq<usize>| s.len() > 0);
    if i < f.len() {
        lemma_nonempty_kept_from(ss.drop_last(), i);
        let p = choose|p: int| 0 <= p < ss.drop_last().len() && ss.drop_last()[p] == f[i];
        assert(ss[p] == f[i]);
    } else {
        assert(ss[ss.len() - 1] == ss.last());
    }
}

/// Lists with no points hold no points in total.
proof fn lemma_total_size_zero(a: Seq<Seq<usize>>)
    requires
        forall|c: int| 0 <= c < a.len() ==> (#[trigger] a[c]).len() == 0,
    ensures
        total_size(a) == 0,
    decreases a.len(),
{
    if a.len() > 0 {
        lemma_total_size_zero(a.drop_last());
    }
}

/// Lists that agree in size but for one more point in list `l` hold one
/// more point in total.
proof fn lemma_total_size_one_more(a: Seq<Seq<usize>>, b: Seq<Seq<usize>>, l: int)
    requires
        a.len() == b.len(),
        forall|c: int| 0 <= c < a.len() ==> (#[trigger] a[c]).len() == b[c].len() + if c == l {
            1int
        } else {
            0int
        },
    ensures
        total_size(a) == total_size(b) + if 0 <= l < a.len() {
            1int
        } else {
            0int
        },
    decreases a.len(),
{
    if a.len() > 0 {
        let n = a.len() - 1;
        assert(a[n].len() == b[n].len() + if n == l { 1int } else { 0int });
        lemma_total_size_one_more(a.drop_last(), b.drop_last(), l);
    }
}

/// The label lists over the first `n` positions.
spec fn label_lists(indices: Seq<usize>, assignments: Seq<usize>, k: nat, n: int) -> Seq<Seq<usize>> {
    Seq::new(k, |c: int| members_upto(indices, assignments, c as usize, n))
}

/// Every position below `n` is in exactly one label list, so the lists hold
/// `n` points in total.
proof fn lemma_label_lists_total(indices: Seq<usize>, assignments: Seq<usize>, k: nat, n: int)
    requires
        0 <= n <= assignments.len(),
        k <= usize::MAX,
        forall|idx: int| 0 <= idx < assignments.len() ==> #[trigger] assignments[idx] < k,
    ensures
        total_size(label_lists(indices, assignments, k, n)) == n,
    decreases n,
{
    let a = label_lists(indices, assignments, k, n);
    if n == 0 {
        lemma_total_size_zero(a);
    } else {
        let b = label_lists(indices, assignments, k, n - 1);
        lemma_label_lists_total(indices, assignments, k, n - 1);
        let l = assignments[n - 1] as int;
        assert forall|c: int| 0 <= c < a.len() implies (#[trigger] a[c]).len() == b[c].len() + if c == l {
            1int
        } else {
            0int
        } by {
            assert((c as usize) as int == c);
        }
        lemma_total_size_one_more(a, b, l);
    }
}

/// The point at a position below `n` is in the list of its label.
proof fn lemma_member_in_own_list(indices: Seq<usize>, assignments: Seq<usize>, n: int, idx: int)
    requires
        0 <= idx < n <= assignments.len(),
    ensures
        members_upto(indices, assignments, assignments[idx], n).contains(indices[idx]),
    decreases n,
{
    let l = assignments[idx];
    if idx < n - 1 {
        lemma_member_in_own_list(indices, assignments, n - 1, idx);
        let m = members_upto(indices, assignments, l, n - 1);
        let p = choose|p: int| 0 <= p < m.len() && m[p] == indices[idx];
        if assignments[n - 1] == l {
            assert(m.push(indices[n - 1])[p] == indices[idx]);
        }
    } else {
        let m = members_upto(indices, assignments, l, n - 1);
        assert(m.push(indices[idx])[m.len() as int] == indices[idx]);
    }
}

/// A point in the list of label `l` sits at a position with that label.
proof fn lemma_list_member_has_label(indices: Seq<usize>, assignments: Seq<usize>, l: usize, n: int, x: usize)
    requires
        0 <= n <= assignments.len(),
        members_upto(indices, assignments, l, n).contains(x),
    ensures
        exists|idx: int| 0 <= idx < n && indices[idx] == x && #[trigger] assignments[idx] == l,
    decreases n,
{
    if n > 0 {
        let m = members_upto(indices, assignments, l, n - 1);
        if assignments[n - 1] == l && x == indices[n - 1] {
            assert(assignments[n - 1] == l);
        } else {
            if assignments[n - 1] == l {
                let mp = m.push(indices[n - 1]);
                let p = choose|p: int| 0 <= p < mp.len() && #[trigger] mp[p] == x;
                assert(p < m.len());
                assert(m[p] == x);
                assert(m.contains(x));
            }
            lemma_list_member_has_label(indices, assignments, l, n - 1, x);
        }
    }
}

/// Every point of `s` sits at a position of label `l`.
pub open spec fn drawn_from_label(indices: Seq<usize>, assignments: Seq<usize>, s: Seq<usize>, l: usize) -> bool {
    forall|x: usize|
        s.contains(x) ==> exists|idx: int| 0 <= idx < indices.len() && indices[idx] == x && #[trigger] assignments[idx] == l
}

/// All points of `s` sit at positions of one label below `k`.
pub open spec fn single_label(indices: Seq<usize>, assignments: Seq<usize>, k: nat, s: Seq<usize>) -> bool {
    exists|l: usize| l < k && #[trigger] drawn_from_label(indices, assignments, s, l)
}

/// Grouping by label loses no point and invents none: every cluster is
/// nonempty and holds points of a single label, every point is in a cluster,
/// and the cluster sizes add up to the number of points.
pub proof fn lemma_group_by_label_law(indices: Seq<usize>, assignments: Seq<usize>, k: nat)
    requires
        assignments.len() == indices.len(),
        k <= usize::MAX,
        forall|idx: int| 0 <= idx < assignments.len() ==> #[trigger] assignments[idx] < k,
    ensures
        forall|c: int| 0 <= c < grouped(indices, assignments, k).len() ==> (#[trigger] grouped(indices, assignments, k)[c]).len()
            > 0,
        forall|c: int|
            0 <= c < grouped(indices, assignments, k).len() ==> single_label(
                indices,
                assignments,
                k,
                #[trigger] grouped(indices, assignments, k)[c],
            ),
        forall|idx: int|
            0 <= idx < indices.len() ==> exists|c: int|
                0 <= c < grouped(indices, assignments, k).len() && (#[trigger] grouped(indices, assignments, k)[c]).contains(
                    #[trigger] indices[idx],
                ),
        total_size(grouped(indices, assignments, k)) == indices.len(),
{
    broadcast use vstd::seq_lib::group_filter_ensures;
    let n = indices.len() as int;
    let full = label_lists(indices, assignments, k, n);
    let g = grouped(indices, assignments, k);
    assert(g == full.filter(|s: Seq<usize>| s.len() > 0));
    lemma_label_lists_total(indices, assignments, k, n);
    lemma_total_size_nonempty(full);
    assert forall|c: int| 0 <= c < g.len() implies (#[trigger] g[c]).len() > 0 by {
        lemma_nonempty_kept_from(full, c);
    }
    assert forall|idx: int| 0 <= idx < indices.len() implies exists|c: int|
        0 <= c < g.len() && (#[trigger] g[c]).contains(#[trigger] indices[idx]) by {
        let l = assignments[idx];
        lemma_member_in_own_list(indices, assignments, n, idx);
        assert(full[l as int] == members_upto(indices, assignments, l, n));
        assert(full[l as int].len() > 0);
        assert(g.contains(full[l as int]));
    }
    assert forall|c: int| 0 <= c < g.len() implies single_label(indices, assignments, k, #[trigger] g[c]) by {
        lemma_nonempty_kept_from(full, c);
        assert(full.contains(g[c]));
        let p = choose|p: int| 0 <= p < full.len() && full[p] == g[c];
        let l = p as usize;
        assert(full[p] == members_upto(indices, assignments, l, n));
        assert forall|x: usize| g[c].contains(x) implies exists|idx: int|
            0 <= idx < indices.len() && indices[idx] == x && #[trigger] assignments[idx] == l by {
            lemma_list_member_has_label(indices, assignments, l, n, x);
        }
        assert(l < k);
        assert(drawn_from_label(indices, assignments, g[c], l));
    }
}

/// Group points by their cluster label: `indices[idx]` goes to cluster
/// `assignments[idx]`, clusters keep the order of the points, and empty
/// clusters are left out.
pub fn group_by_label(indices: &Vec<usize>, assignments: &Vec<usize>, k: usize) -> (clusters: Vec<Vec<usize>>)
    requires
        assignments@.len() == indices@.len(),
        forall|idx: int| 0 <= idx < assignments@.len() ==> #[trigger] assignments@[idx] < k,
    ensures
        member_lists(clusters@) == grouped(indices@, assignments@, k as nat),
        total_size(member_lists(clusters@)) == indices@.len(),
        forall|c: int| 0 <= c < clusters@.len() ==> (#[trigger] clusters@[c])@.len() > 0,
        forall|idx: int|
            0 <= idx < indices@.len() ==> exists|c: int|
                0 <= c < clusters@.len() && (#[trigger] clusters@[c])@.contains(#[trigger] indices@[idx]),
{
    let ghost full = Seq::new(k as nat, |c: int| members_upto(indices@, assignments@, c as usize, indices@.len() as int));
    let mut out: Vec<Vec<usize>> = Vec::new();
    let mut c: usize = 0;
    while c < k
        invariant
            0 <= c <= k,
            assignments@.len() == indices@.len(),
            full == Seq::new(k as nat, |c: int| members_upto(indices@, assignments@, c as usize, indices@.len() as int)),
            member_lists(out@) == full.take(c as int).filter(|s: Seq<usize>| s.len() > 0),
        decreases k - c,
    {
        let mut members: Vec<usize> = Vec::new();
        let mut idx: usize = 0;
        while idx < indices.len()
            invariant
                0 <= idx <= indices@.len(),
                assignments@.len() == indices@.len(),
                members@ == members_upto(indices@, assignments@, c, idx as int),
            decreases indices@.len() - idx,
        {
            if assignments[idx] == c {
                members.push(indices[idx]);
            }
            idx = idx + 1;
        }
        proof {
            assert(full[c as int] == members@);
            assert(full.take(c + 1).drop_last() =~= full.take(c as int));
            assert(full.take(c + 1).last() == members@);
            reveal(Seq::filter);
        }
        if members.len() > 0 {
            let ghost before = out@;
            out.push(members);
            proof {
                assert(member_lists(out@) =~= member_lists(before).push(out@[before.len() as int]@));
            }
        }
        c = c + 1;
    }
    proof {
        assert(full.take(k as int) =~= full);
        lemma_group_by_label_law(indices@, assignments@, k as nat);
        let g = grouped(indices@, assignments@, k as nat);
        assert(member_lists(out@) == g);
        assert forall|c: int| 0 <= c < out@.len() implies (#[trigger] out@[c])@.len() > 0 by {
            assert(g[c] == out@[c]@);
        }
        assert forall|idx: int| 0 <= idx < indices@.len() implies exists|c: int|
            0 <= c < out@.len() && (#[trigger] out@[c])@.contains(#[trigger] indices@[idx]) by {
            let c = choose|c: int| 0 <= c < g.len() && (#[trigger] g[c]).contains(#[trigger] indices@[idx]);
            assert(g[c] == out@[c]@);
        }
    }
    out
}

/// A Mapper graph from its clusters: node `i` holds cluster `i`, and the
/// edges are those of `cluster_edges`.
pub fn graph_from_clusters(clusters: &Vec<Vec<usize>>, intervals: &Vec<usize>) -> (g: MapperGraph)
    requires
        intervals@.len() == clusters@.len(),
    ensures
        g.nodes@.len() == clusters@.len(),
        forall|i: int| 0 <= i < g.nodes@.len() ==> (#[trigger] g.nodes@[i]).id == i && g.nodes@[i].points@ == clusters@[i]@,
        cluster_edges_spec(member_lists(clusters@), intervals@, g.edges@),
{
    let edges = cluster_edges(clusters, intervals);
    let mut nodes: Vec<MapperNode> = Vec::new();
    let mut id: usize = 0;
    while id < clusters.len()
        invariant
            0 <= id <= clusters@.len(),
            id == nodes@.len(),
            forall|i: int| 0 <= i < id ==> (#[trigger] nodes@[i]).id == i && nodes@[i].points@ == clusters@[i]@,
        decreases clusters@.len() - id,
    {
        let points = clusters[id].clone();
        assert(points@ == clusters@[id as int]@);
        nodes.push(MapperNode { id, points });
        id = id + 1;
    }
    MapperGraph { nodes, edges }
}


/// The ids below `k`.
pub open spec fn ids_below(k: nat) -> Set<usize> {
    Set::new(|x: usize| x < k)
}

/// There are `k` ids below `k`.
pub(crate) proof fn lemma_ids_below_len(k: nat)
    requires
        k <= usize::MAX + 1,
    ensures
        ids_below(k).finite(),
        ids_below(k).len() == k,
    decreases k,
{
    if k == 0 {
        assert(ids_below(0) =~= Set::<usize>::empty());
    } else {
        lemma_ids_below_len((k - 1) as nat);
        assert(ids_below(k) =~= ids_below((k - 1) as nat).insert((k - 1) as usize));
    }
}

/// Counting starts over the nodes `0..m` (for `m >= 1`): one start exactly
/// when every node is reached from node 0.
proof fn lemma_one_start(edges: Seq<MapperEdge>, ids: Seq<usize>, m: int)
    requires
        1 <= m <= ids.len(),
        forall|i: int| 0 <= i < ids.len() ==> #[trigger] ids[i] == i,
    ensures
        component_starts(edges, ids, m) >= 1,
        component_starts(edges, ids, m) == 1 <==> forall|i: int| 0 <= i < m ==> #[trigger] reachable(edges, 0, ids[i]),
    decreases m,
{
    if m == 1 {
        assert(component_starts(edges, ids, 0) == 0);
        lemma_reach_self(edges, 0);
        assert(ids[0] == 0);
    } else {
        lemma_one_start(edges, ids, m - 1);
        let last = ids[m - 1];
        let fresh = forall|j: int| 0 <= j < m - 1 ==> !reachable(edges, #[trigger] ids[j], ids[m - 1]);
        if component_starts(edges, ids, m) == 1 {
            assert(!fresh);
            let j = choose|j: int| 0 <= j < m - 1 && reachable(edges, #[trigger] ids[j], ids[m - 1]);
            assert(reachable(edges, 0, ids[j]));
            lemma_reach_trans(edges, 0, ids[j], last);
        }
        if forall|i: int| 0 <= i < m ==> #[trigger] reachable(edges, 0, ids[i]) {
            assert(reachable(edges, 0, ids[m - 1]));
            assert(ids[0] == 0);
            assert(!fresh);
        }
    }
}

/// Every id reached from `a` is `a` or an endpoint of an edge.
proof fn lemma_reached_is_endpoint(edges: Seq<MapperEdge>, a: usize, b: usize)
    requires
        reachable(edges, a, b),
        a != b,
    ensures
        is_endpoint(edges, b),
{
    let p = choose|p: Seq<usize>| #[trigger] walk_from_to(edges, p, a, b);
    assert(p.len() >= 2);
    let k = p.len() - 2;
    assert(adjacent(edges, p[k], p[k + 1]));
    assert(p[k + 1] == b);
    let i = choose|i: int| 0 <= i < edges.len() && ((#[trigger] edges[i].source == p[k] && edges[i].target
        == p[k + 1]) || (edges[i].target == p[k] && edges[i].source == p[k + 1]));
    assert(edges[i].source == b || edges[i].target == b);
}

/// For a graph whose nodes are numbered `0..n` in order and whose edges
/// join such nodes, the graph is connected (it has no nodes, or every node
/// is reached from node 0) exactly when it has at most one component.
pub proof fn lemma_connected_iff_one_component(g: MapperGraph)
    requires
        forall|i: int| 0 <= i < g.nodes@.len() ==> (#[trigger] g.nodes@[i]).id == i,
        forall|k: int|
            0 <= k < g.edges@.len() ==> (#[trigger] g.edges@[k]).source < g.nodes@.len() && g.edges@[k].target
                < g.nodes@.len(),
    ensures
        (g.nodes@.len() == 0 || reach_set(g.edges@, 0).len() == g.nodes@.len()) <==> component_starts(
            g.edges@,
            node_ids(g.nodes@),
            g.nodes@.len() as int,
        ) <= 1,
{
    let n = g.nodes@.len();
    let edges = g.edges@;
    let ids = node_ids(g.nodes@);
    if n == 0 {
        assert(component_starts(edges, ids, 0) == 0);
    } else {
        assert(g.nodes@[n - 1].id == n - 1);
        assert forall|i: int| 0 <= i < ids.len() implies #[trigger] ids[i] == i by {
            assert(g.nodes@[i].id == i);
        }
        lemma_one_start(edges, ids, n as int);
        let r = reach_set(edges, 0);
        let u = ids_below(n);
        lemma_ids_below_len(n);
        assert(r.subset_of(u)) by {
            assert forall|b: usize| r.contains(b) implies u.contains(b) by {
                if b != 0 {
                    lemma_reached_is_endpoint(edges, 0, b);
                    let k = choose|k: int| 0 <= k < edges.len() && (#[trigger] edges[k].source == b || edges[k].target == b);
                }
            }
        }
        vstd::set_lib::lemma_len_subset(r, u);
        if r.len() == n {
            vstd::set_lib::lemma_subset_equality(r, u);
            assert forall|i: int| 0 <= i < n implies #[trigger] reachable(edges, 0, ids[i]) by {
                assert(u.contains(ids[i]));
            }
        }
        if forall|i: int| 0 <= i < n ==> #[trigger] reachable(edges, 0, ids[i]) {
            assert(r =~= u) by {
                assert forall|b: usize| u.contains(b) implies r.contains(b) by {
                    assert(ids[b as int] == b);
                    assert(reachable(edges, 0, ids[b as int]));
                }
            }
        }
    }
}

} // verus!
