//! A* search over the airway graph, with the straight-chord heuristic.

use vstd::prelude::*;
use crate::graph::{Edge, Graph, Vec3};

verus! {

/// The largest edge length.
pub open spec fn max_edge() -> int {
    u64::MAX as int
}

/// Cost standing for "not reached yet".
pub const UNREACHED: u128 = 0xffff_ffff_ffff_ffff_ffff_ffff_ffff_ffff;

/// `w` is a walk from `from` to `to`: each step names a vertex and one of
/// its outgoing edges, and each edge ends where the next step starts.
pub open spec fn is_walk(adj: Seq<Seq<Edge>>, from: int, to: int, w: Seq<(usize, usize)>) -> bool
    decreases w.len(),
{
    if w.len() == 0 {
        from == to
    } else {
        &&& w[0].0 == from
        &&& 0 <= from < adj.len()
        &&& w[0].1 < adj[from].len()
        &&& is_walk(adj, adj[from][w[0].1 as int].target as int, to, w.drop_first())
    }
}

/// Total length of the edges of a walk.
pub open spec fn walk_cost(adj: Seq<Seq<Edge>>, w: Seq<(usize, usize)>) -> int
    decreases w.len(),
{
    if w.len() == 0 {
        0
    } else {
        adj[w[0].0 as int][w[0].1 as int].distance + walk_cost(adj, w.drop_first())
    }
}

/// The vertices a walk passes through, ending at `to`.
pub open spec fn walk_vertices(w: Seq<(usize, usize)>, to: usize) -> Seq<usize> {
    Seq::new(w.len(), |i: int| w[i].0).push(to)
}

/// Each step of the walk takes an edge no longer than any other edge between
/// the same two vertices.
pub open spec fn takes_shortest_edges(adj: Seq<Seq<Edge>>, w: Seq<(usize, usize)>) -> bool {
    forall|i: int, j: int|
        0 <= i < w.len() && 0 <= j < adj[w[i].0 as int].len() && (#[trigger] adj[w[i].0 as int][j]).target
            == adj[w[i].0 as int][w[i].1 as int].target ==> adj[w[i].0 as int][w[i].1 as int].distance
            <= adj[w[i].0 as int][j].distance
}

/// Some walk leads from `from` to `to`.
pub open spec fn reachable(adj: Seq<Seq<Edge>>, from: int, to: int) -> bool {
    exists|w: Seq<(usize, usize)>| is_walk(adj, from, to, w)
}

/// For each vertex, whether some walk leads to it from `from`.
pub open spec fn reach_flags(adj: Seq<Seq<Edge>>, from: int) -> Seq<bool> {
    Seq::new(adj.len(), |v: int| reachable(adj, from, v))
}

/// Number of `true` entries.
pub open spec fn count_true(s: Seq<bool>) -> nat
    decreases s.len(),
{
    if s.len() == 0 {
        0
    } else {
        count_true(s.drop_last()) + if s.last() {
            1nat
        } else {
            0nat
        }
    }
}

proof fn lemma_count_true_bound(s: Seq<bool>)
    ensures
        count_true(s) <= s.len(),
    decreases s.len(),
{
    if s.len() > 0 {
        lemma_count_true_bound(s.drop_last());
    }
}

proof fn lemma_count_true_subset(a: Seq<bool>, b: Seq<bool>)
    requires
        a.len() == b.len(),
        forall|j: int| 0 <= j < a.len() && #[trigger] a[j] ==> b[j],
    ensures
        count_true(a) <= count_true(b),
        forall|i: int| 0 <= i < a.len() && !a[i] && #[trigger] b[i] ==> count_true(a) < count_true(b),
    decreases a.len(),
{
    if a.len() > 0 {
        let a2 = a.drop_last();
        let b2 = b.drop_last();
        assert forall|j: int| 0 <= j < a2.len() && #[trigger] a2[j] implies b2[j] by {
            assert(a[j]);
        }
        lemma_count_true_subset(a2, b2);
        assert forall|i: int| 0 <= i < a.len() && !a[i] && #[trigger] b[i] implies count_true(a) < count_true(b) by {
            if i < a.len() - 1 {
                assert(!a2[i] && b2[i]);
            }
        }
    }
}

proof fn lemma_count_indicator(len: nat, s: Seq<usize>)
    requires
        len <= usize::MAX,
        s.no_duplicates(),
        forall|i: int| 0 <= i < s.len() ==> (#[trigger] s[i]) < len,
    ensures
        count_true(Seq::new(len, |v: int| s.contains(v as usize))) == s.len(),
    decreases s.len(),
{
    let b = Seq::new(len, |v: int| s.contains(v as usize));
    if s.len() == 0 {
        lemma_count_false_prefix(b, len);
        assert(b.subrange(0, len as int) =~= b);
    } else {
        let t = s.drop_last();
        let x = s.last();
        assert(t.no_duplicates()) by {
            assert forall|i: int, j: int| 0 <= i < t.len() && 0 <= j < t.len() && i != j implies t[i] != t[j] by {
                assert(t[i] == s[i] && t[j] == s[j]);
            }
        }
        assert forall|i: int| 0 <= i < t.len() implies (#[trigger] t[i]) < len by {
            assert(t[i] == s[i]);
        }
        lemma_count_indicator(len, t);
        let bt = Seq::new(len, |v: int| t.contains(v as usize));
        assert(!t.contains(x)) by {
            if t.contains(x) {
                let k = choose|k: int| 0 <= k < t.len() && t[k] == x;
                assert(s[k] == s[s.len() - 1]);
            }
        }
        assert(b =~= bt.update(x as int, true)) by {
            assert forall|v: int| 0 <= v < len implies b[v] == bt.update(x as int, true)[v] by {
                if s.contains(v as usize) && v != x as int {
                    let k = choose|k: int| 0 <= k < s.len() && s[k] == v as usize;
                    assert(t[k] == v as usize);
                }
                if t.contains(v as usize) {
                    let k = choose|k: int| 0 <= k < t.len() && t[k] == v as usize;
                    assert(s[k] == v as usize);
                }
                if v == x as int {
                    assert(s[s.len() - 1] == x);
                }
            }
        }
        assert(s[s.len() - 1] < len);
        lemma_count_true_set(bt, x as int);
    }
}

/// At least as many flags are set as there are distinct indices whose flag is set.
proof fn lemma_count_true_at_least(flags: Seq<bool>, s: Seq<usize>)
    requires
        flags.len() <= usize::MAX,
        s.no_duplicates(),
        forall|i: int| 0 <= i < s.len() ==> (#[trigger] s[i]) < flags.len() && flags[s[i] as int],
    ensures
        count_true(flags) >= s.len(),
{
    let b = Seq::new(flags.len(), |v: int| s.contains(v as usize));
    lemma_count_indicator(flags.len(), s);
    assert forall|j: int| 0 <= j < b.len() && #[trigger] b[j] implies flags[j] by {
        let k = choose|k: int| 0 <= k < s.len() && s[k] == j as usize;
        assert(flags[s[k] as int]);
    }
    lemma_count_true_subset(b, flags);
}

/// Number of edges of the graph.
pub open spec fn edge_count(adj: Seq<Seq<Edge>>) -> nat
    decreases adj.len(),
{
    if adj.len() == 0 {
        0
    } else {
        edge_count(adj.drop_last()) + adj.last().len()
    }
}

/// Number of edges leaving the vertices whose flag is set (among the first
/// `flags.len()` vertices).
pub open spec fn flagged_edges(adj: Seq<Seq<Edge>>, flags: Seq<bool>) -> nat
    decreases flags.len(),
{
    if flags.len() == 0 {
        0
    } else {
        flagged_edges(adj, flags.drop_last()) + if flags.last() {
            adj[flags.len() - 1].len()
        } else {
            0
        }
    }
}

proof fn lemma_flagged_edges_set(adj: Seq<Seq<Edge>>, s: Seq<bool>, i: int)
    requires
        0 <= i < s.len(),
        !s[i],
    ensures
        flagged_edges(adj, s.update(i, true)) == flagged_edges(adj, s) + adj[i].len(),
    decreases s.len(),
{
    let t = s.update(i, true);
    if i == s.len() - 1 {
        assert(t.drop_last() =~= s.drop_last());
    } else {
        assert(t.drop_last() =~= s.drop_last().update(i, true));
        lemma_flagged_edges_set(adj, s.drop_last(), i);
    }
}

proof fn lemma_flagged_edges_bound(adj: Seq<Seq<Edge>>, s: Seq<bool>)
    requires
        s.len() == adj.len(),
    ensures
        flagged_edges(adj, s) <= edge_count(adj),
    decreases s.len(),
{
    if s.len() > 0 {
        lemma_flagged_edges_prefix(adj, s.drop_last());
        lemma_flagged_edges_bound(adj.drop_last(), s.drop_last());
    }
}

proof fn lemma_flagged_edges_prefix(adj: Seq<Seq<Edge>>, s: Seq<bool>)
    requires
        s.len() < adj.len(),
    ensures
        flagged_edges(adj, s) == flagged_edges(adj.drop_last(), s),
    decreases s.len(),
{
    if s.len() > 0 {
        lemma_flagged_edges_prefix(adj, s.drop_last());
    }
}

proof fn lemma_flagged_edges_none(adj: Seq<Seq<Edge>>, s: Seq<bool>)
    requires
        forall|i: int| 0 <= i < s.len() ==> !s[i],
    ensures
        flagged_edges(adj, s) == 0,
    decreases s.len(),
{
    if s.len() > 0 {
        lemma_flagged_edges_none(adj, s.drop_last());
    }
}

proof fn lemma_count_false_prefix(s: Seq<bool>, m: nat)
    requires
        m <= s.len(),
        forall|i: int| 0 <= i < s.len() ==> !s[i],
    ensures
        count_true(s.subrange(0, m as int)) == 0,
    decreases m,
{
    if m > 0 {
        lemma_count_false_prefix(s, (m - 1) as nat);
        assert(s.subrange(0, m as int).drop_last() =~= s.subrange(0, m - 1));
    }
}

proof fn lemma_count_true_set(s: Seq<bool>, i: int)
    requires
        0 <= i < s.len(),
        !s[i],
    ensures
        count_true(s.update(i, true)) == count_true(s) + 1,
    decreases s.len(),
{
    let t = s.update(i, true);
    if i == s.len() - 1 {
        assert(t.drop_last() =~= s.drop_last());
    } else {
        assert(t.drop_last() =~= s.drop_last().update(i, true));
        lemma_count_true_set(s.drop_last(), i);
    }
}

proof fn lemma_walk_cost_nonneg(adj: Seq<Seq<Edge>>, w: Seq<(usize, usize)>)
    ensures
        walk_cost(adj, w) >= 0,
    decreases w.len(),
{
    if w.len() > 0 {
        lemma_walk_cost_nonneg(adj, w.drop_first());
    }
}

proof fn lemma_walk_push(adj: Seq<Seq<Edge>>, s: int, x: usize, p: Seq<(usize, usize)>, k: usize)
    requires
        is_walk(adj, s, x as int, p),
        x < adj.len(),
        k < adj[x as int].len(),
    ensures
        is_walk(adj, s, adj[x as int][k as int].target as int, p.push((x, k))),
        walk_cost(adj, p.push((x, k))) == walk_cost(adj, p) + adj[x as int][k as int].distance,
    decreases p.len(),
{
    let q = p.push((x, k));
    if p.len() == 0 {
        let t = adj[x as int][k as int].target as int;
        assert(q.drop_first() =~= Seq::<(usize, usize)>::empty());
        assert(is_walk(adj, t, t, q.drop_first()));
        assert(walk_cost(adj, q.drop_first()) == 0);
        assert(q[0] == (x, k));
    } else {
        assert(q.drop_first() =~= p.drop_first().push((x, k)));
        lemma_walk_push(adj, adj[s][p[0].1 as int].target as int, x, p.drop_first(), k);
        assert(q[0] == p[0]);
    }
}

proof fn lemma_rank_increasing_distinct(path: Seq<usize>, rank: Seq<int>)
    requires
        forall|i: int| 0 <= i < path.len() - 1 ==> rank[#[trigger] path[i] as int] < rank[path[i + 1] as int],
    ensures
        path.no_duplicates(),
{
    assert forall|i: int, j: int| 0 <= i < j < path.len() implies rank[path[i] as int] < rank[path[j] as int] by {
        lemma_rank_increasing(path, rank, i, j);
    }
}

proof fn lemma_rank_increasing(path: Seq<usize>, rank: Seq<int>, i: int, j: int)
    requires
        forall|k: int| 0 <= k < path.len() - 1 ==> rank[#[trigger] path[k] as int] < rank[path[k + 1] as int],
        0 <= i < j < path.len(),
    ensures
        rank[path[i] as int] < rank[path[j] as int],
    decreases j - i,
{
    assert(rank[path[j - 1] as int] < rank[path[j] as int]);
    if i < j - 1 {
        lemma_rank_increasing(path, rank, i, j - 1);
    }
}

/// The walk along `path`, taking at each step the edge recorded in `via`
/// for the next vertex.
pub open spec fn path_walk(path: Seq<usize>, via: Seq<int>) -> Seq<(usize, usize)> {
    Seq::new((path.len() - 1) as nat, |i: int| (path[i], via[path[i + 1] as int] as usize))
}

proof fn lemma_path_walk(adj: Seq<Seq<Edge>>, g: Seq<u128>, via: Seq<int>, path: Seq<usize>, j: int)
    requires
        path.len() >= 1,
        0 <= j < path.len(),
        forall|i: int| 0 <= i < path.len() ==> (#[trigger] path[i]) < adj.len() && path[i] < g.len() && path[i] < via.len(),
        forall|i: int|
            0 <= i < path.len() - 1 ==> {
                let v = #[trigger] path[i + 1] as int;
                let p = path[i] as int;
                &&& 0 <= via[v] < adj[p].len()
                &&& via[v] <= usize::MAX
                &&& adj[p][via[v]].target == v
                &&& g[v] == g[p] + adj[p][via[v]].distance
            },
    ensures
        is_walk(adj, path[j] as int, path.last() as int, path_walk(path, via).skip(j)),
        walk_cost(adj, path_walk(path, via).skip(j)) == g[path.last() as int] - g[path[j] as int],
    decreases path.len() - j,
{
    let w = path_walk(path, via);
    if j == path.len() - 1 {
        assert(w.skip(j) =~= Seq::<(usize, usize)>::empty());
    } else {
        lemma_path_walk(adj, g, via, path, j + 1);
        assert(w.skip(j).drop_first() =~= w.skip(j + 1));
        let v = path[j + 1] as int;
        assert(path[j + 1] == v);
        assert(w.skip(j)[0] == (path[j], via[v] as usize));
    }
}

/// Index of an entry with the smallest priority.
fn min_index(pq: &Vec<(u128, usize)>) -> (i: usize)
    requires
        pq@.len() > 0,
    ensures
        i < pq@.len(),
        forall|j: int| 0 <= j < pq@.len() ==> pq@[i as int].0 <= (#[trigger] pq@[j]).0,
{
    let mut best: usize = 0;
    let mut j: usize = 1;
    while j < pq.len()
        invariant
            best < j <= pq@.len(),
            forall|k: int| 0 <= k < j ==> pq@[best as int].0 <= (#[trigger] pq@[k]).0,
        decreases pq@.len() - j,
    {
        if pq[j].0 < pq[best].0 {
            best = j;
        }
        j += 1;
    }
    best
}

impl Graph {
    /// Chord heuristic from `v` toward `target`, in thousandths of a nautical mile.
    pub open spec fn heuristic(&self, v: int, target: int) -> int {
        self.vertices@[v].pos3.spec_chord(self.vertices@[target].pos3)
    }

    /// The search's estimate from `v` toward `target`: the chord heuristic
    /// when `guided`, zero otherwise.
    pub open spec fn guide(&self, guided: bool, v: int, target: int) -> int {
        if guided {
            self.heuristic(v, target)
        } else {
            0
        }
    }

    /// The estimate toward `target` is consistent: always so unguided, and
    /// guided when the chord heuristic is.
    pub open spec fn guide_consistent(&self, guided: bool, target: int) -> bool {
        guided ==> self.heuristic_consistent(target)
    }

    /// The heuristic toward `target` never drops by more than an edge's length
    /// along that edge.
    pub open spec fn heuristic_consistent(&self, target: int) -> bool {
        forall|u: int, k: int|
            0 <= u < self.adjacency().len() && 0 <= k < self.adjacency()[u].len() ==> self.heuristic(
                u,
                target,
            ) <= #[trigger] self.adjacency()[u][k].distance + self.heuristic(
                self.adjacency()[u][k].target as int,
                target,
            )
    }

    /// Checks that the chord heuristic toward `target` is consistent, so that
    /// the search from any vertex to `target` returns a shortest route.
    pub fn heuristic_is_consistent(&self, target: usize) -> (b: bool)
        requires
            self.wf(),
            target < self.num_vertices(),
        ensures
            b == self.heuristic_consistent(target as int),
    {
        let n = self.edges.len();
        let t = self.vertices[target].pos3;
        let mut u: usize = 0;
        while u < n
            invariant
                self.wf(),
                n == self.adjacency().len(),
                target < self.num_vertices(),
                t == self.vertices@[target as int].pos3,
                u <= n,
                forall|x: int, k: int|
                    0 <= x < u && 0 <= k < self.adjacency()[x].len() ==> self.heuristic(x, target as int)
                        <= #[trigger] self.adjacency()[x][k].distance + self.heuristic(
                        self.adjacency()[x][k].target as int,
                        target as int,
                    ),
            decreases n - u,
        {
            let hu = self.vertices[u].pos3.chord_distance_nm(&t);
            let deg = self.edges[u].len();
            let mut k: usize = 0;
            while k < deg
                invariant
                    self.wf(),
                    n == self.adjacency().len(),
                    target < self.num_vertices(),
                    u < n,
                    deg == self.adjacency()[u as int].len(),
                    hu == self.heuristic(u as int, target as int),
                    t == self.vertices@[target as int].pos3,
                    k <= deg,
                    forall|x: int, j: int|
                        0 <= x < u && 0 <= j < self.adjacency()[x].len() ==> self.heuristic(x, target as int)
                            <= #[trigger] self.adjacency()[x][j].distance + self.heuristic(
                            self.adjacency()[x][j].target as int,
                            target as int,
                        ),
                    forall|j: int|
                        0 <= j < k ==> self.heuristic(u as int, target as int)
                            <= #[trigger] self.adjacency()[u as int][j].distance + self.heuristic(
                            self.adjacency()[u as int][j].target as int,
                            target as int,
                        ),
                decreases deg - k,
            {
                let e = self.edges[u][k];
                assert(e == self.adjacency()[u as int][k as int]);
                let hv = self.vertices[e.target].pos3.chord_distance_nm(&t);
                if (hu as u128) > (e.distance as u128) + (hv as u128) {
                    return false;
                }
                k += 1;
            }
            u += 1;
        }
        true
    }

    proof fn lemma_heuristic_telescope(&self, guided: bool, y: int, u: int, target: int, w: Seq<(usize, usize)>)
        requires
            self.wf(),
            self.guide_consistent(guided, target),
            is_walk(self.adjacency(), y, u, w),
        ensures
            self.guide(guided, y, target) <= walk_cost(self.adjacency(), w) + self.guide(guided, u, target),
        decreases w.len(),
    {
        if w.len() > 0 {
            let adj = self.adjacency();
            let z = adj[y][w[0].1 as int].target as int;
            assert(self.guide(guided, y, target) <= adj[y][w[0].1 as int].distance + self.guide(guided, z, target));
            self.lemma_heuristic_telescope(guided, z, u, target, w.drop_first());
        }
    }

    /// The recorded parent of `v` is a settled vertex, joined to `v` by the
    /// recorded edge, and `v`'s cost is the parent's plus that edge.
    spec fn parent_ok(
        &self,
        g: Seq<u128>,
        prev: Seq<usize>,
        visited: Seq<bool>,
        via: Seq<int>,
        rank: Seq<int>,
        v: int,
    ) -> bool {
        let p = prev[v] as int;
        let adj = self.adjacency();
        &&& 0 <= p < self.num_vertices()
        &&& visited[p]
        &&& 0 <= via[v] < adj[p].len()
        &&& adj[p][via[v]].target == v
        &&& g[v] == g[p] + adj[p][via[v]].distance
        &&& visited[v] ==> rank[p] < rank[v]
    }

    /// Some queue entry holds `v` with priority `key`.
    spec fn has_entry(pq: Seq<(u128, usize)>, v: int, key: int) -> bool {
        exists|i: int| 0 <= i < pq.len() && (#[trigger] pq[i]).1 == v && pq[i].0 == key
    }

    /// The state of the search between steps. Edges `done..` of the vertex
    /// `cur` are not relaxed yet; every other settled vertex has all its
    /// edges relaxed.
    spec fn search_inv(
        &self,
        guided: bool,
        start: int,
        target: int,
        g: Seq<u128>,
        prev: Seq<usize>,
        visited: Seq<bool>,
        pq: Seq<(u128, usize)>,
        via: Seq<int>,
        rank: Seq<int>,
        expanded: int,
        cur: int,
        done: int,
        unfresh: int,
    ) -> bool {
        let n = self.num_vertices() as int;
        let adj = self.adjacency();
        &&& self.wf()
        &&& 0 <= start < n
        &&& 0 <= target < n
        &&& g.len() == n
        &&& prev.len() == n
        &&& visited.len() == n
        &&& via.len() == n
        &&& rank.len() == n
        &&& g[start] == 0
        &&& expanded == count_true(visited)
        &&& !visited[target]
        &&& forall|v: int|
            0 <= v < n && #[trigger] visited[v] ==> g[v] != UNREACHED && 0 <= rank[v] < expanded
        &&& forall|v: int|
            0 <= v < n && #[trigger] g[v] != UNREACHED ==> g[v] <= expanded * max_edge() && reachable(adj, start, v)
        &&& forall|v: int|
            0 <= v < n && g[v] != UNREACHED && v != start ==> #[trigger] self.parent_ok(
                g,
                prev,
                visited,
                via,
                rank,
                v,
            )
        &&& forall|i: int|
            0 <= i < pq.len() ==> {
                &&& (#[trigger] pq[i]).1 < n
                &&& g[pq[i].1 as int] != UNREACHED
                &&& g[pq[i].1 as int] + self.guide(guided, pq[i].1 as int, target) <= pq[i].0
            }
        &&& forall|v: int|
            0 <= v < n && v != unfresh && !visited[v] && #[trigger] g[v] != UNREACHED ==> Self::has_entry(
                pq,
                v,
                g[v] + self.guide(guided, v, target),
            )
        &&& forall|x: int, k: int|
            0 <= x < n && visited[x] && 0 <= k < adj[x].len() && !(x == cur && k >= done) ==> {
                let y = (#[trigger] adj[x][k]).target as int;
                (visited[y] && rank[y] < rank[x]) || (g[y] != UNREACHED && g[y] <= g[x] + adj[x][k].distance)
            }
        &&& 0 <= cur < n ==> visited[cur] && forall|v: int|
            0 <= v < n && #[trigger] visited[v] && v != cur ==> rank[v] < rank[cur]
        &&& !visited[start] ==> forall|v: int| 0 <= v < n && v != start ==> #[trigger] g[v] == UNREACHED
        &&& self.guide_consistent(guided, target) ==> forall|x: int, w: Seq<(usize, usize)>|
            0 <= x < n && visited[x] && #[trigger] is_walk(adj, start, x, w) ==> g[x] <= walk_cost(
                adj,
                w,
            )
    }

    proof fn lemma_exit_bound(
        &self,
        guided: bool,
        start: int,
        target: int,
        g: Seq<u128>,
        prev: Seq<usize>,
        visited: Seq<bool>,
        pq: Seq<(u128, usize)>,
        via: Seq<int>,
        rank: Seq<int>,
        expanded: int,
        fmin: int,
        p: Seq<(usize, usize)>,
        x: int,
        w: Seq<(usize, usize)>,
        u: int,
    )
        requires
            self.search_inv(guided, start, target, g, prev, visited, pq, via, rank, expanded, self.num_vertices() as int, 0, self.num_vertices() as int),
            self.guide_consistent(guided, target),
            forall|i: int| 0 <= i < pq.len() ==> fmin <= (#[trigger] pq[i]).0,
            0 <= x < self.num_vertices(),
            visited[x],
            is_walk(self.adjacency(), start, x, p),
            is_walk(self.adjacency(), x, u, w),
            0 <= u < self.num_vertices(),
            !visited[u],
        ensures
            walk_cost(self.adjacency(), p) + walk_cost(self.adjacency(), w) + self.guide(guided, u, target) >= fmin,
        decreases w.len(),
    {
        let adj = self.adjacency();
        assert(w.len() > 0);
        let k = w[0].1;
        let y = adj[x][k as int].target as int;
        let d = adj[x][k as int].distance as int;
        lemma_walk_push(adj, start, x as usize, p, k);
        let p2 = p.push((x as usize, k));
        assert(walk_cost(adj, w) == d + walk_cost(adj, w.drop_first()));
        if visited[y] {
            self.lemma_exit_bound(guided, start, target, g, prev, visited, pq, via, rank, expanded, fmin, p2, y, w.drop_first(), u);
        } else {
            assert(g[x] <= walk_cost(adj, p));
            assert(g[y] != UNREACHED && g[y] <= g[x] + d);
            assert(Self::has_entry(pq, y, g[y] + self.guide(guided, y, target)));
            let i = choose|i: int| 0 <= i < pq.len() && (#[trigger] pq[i]).1 == y && pq[i].0 == g[y] + self.guide(guided, y, target);
            assert(fmin <= pq[i].0);
            self.lemma_heuristic_telescope(guided, y, u, target, w.drop_first());
        }
    }

    proof fn lemma_pop_optimal(
        &self,
        guided: bool,
        start: int,
        target: int,
        g: Seq<u128>,
        prev: Seq<usize>,
        visited: Seq<bool>,
        pq: Seq<(u128, usize)>,
        via: Seq<int>,
        rank: Seq<int>,
        expanded: int,
        fmin: int,
        u: int,
    )
        requires
            self.search_inv(guided, start, target, g, prev, visited, pq, via, rank, expanded, self.num_vertices() as int, 0, self.num_vertices() as int),
            self.guide_consistent(guided, target),
            forall|i: int| 0 <= i < pq.len() ==> fmin <= (#[trigger] pq[i]).0,
            0 <= u < self.num_vertices(),
            !visited[u],
            g[u] != UNREACHED,
            g[u] + self.guide(guided, u, target) <= fmin,
        ensures
            forall|w: Seq<(usize, usize)>| #[trigger] is_walk(self.adjacency(), start, u, w) ==> g[u] <= walk_cost(self.adjacency(), w),
    {
        let adj = self.adjacency();
        assert forall|w: Seq<(usize, usize)>| #[trigger] is_walk(adj, start, u, w) implies g[u] <= walk_cost(adj, w) by {
            lemma_walk_cost_nonneg(adj, w);
            if visited[start] {
                let p = Seq::<(usize, usize)>::empty();
                assert(is_walk(adj, start, start, p));
                self.lemma_exit_bound(guided, start, target, g, prev, visited, pq, via, rank, expanded, fmin, p, start, w, u);
            } else {
                assert(u == start);
            }
        }
    }

    proof fn lemma_all_reached(
        &self,
        guided: bool,
        start: int,
        target: int,
        g: Seq<u128>,
        prev: Seq<usize>,
        visited: Seq<bool>,
        pq: Seq<(u128, usize)>,
        via: Seq<int>,
        rank: Seq<int>,
        expanded: int,
        x: int,
        w: Seq<(usize, usize)>,
        y: int,
    )
        requires
            self.search_inv(guided, start, target, g, prev, visited, pq, via, rank, expanded, self.num_vertices() as int, 0, self.num_vertices() as int),
            pq.len() == 0,
            0 <= x < self.num_vertices(),
            visited[x],
            is_walk(self.adjacency(), x, y, w),
        ensures
            visited[y],
        decreases w.len(),
    {
        if w.len() > 0 {
            let adj = self.adjacency();
            let k = w[0].1 as int;
            let z = adj[x][k].target as int;
            if !visited[z] {
                assert(g[z] != UNREACHED);
                assert(Self::has_entry(pq, z, g[z] + self.guide(guided, z, target)));
            }
            self.lemma_all_reached(guided, start, target, g, prev, visited, pq, via, rank, expanded, z, w.drop_first(), y);
        }
    }

    proof fn lemma_entry_after_swap_remove(pq: Seq<(u128, usize)>, i: int, v: int, key: int)
        requires
            0 <= i < pq.len(),
            pq[i].1 != v,
            Self::has_entry(pq, v, key),
        ensures
            Self::has_entry(pq.update(i, pq.last()).drop_last(), v, key),
    {
        let q = pq.update(i, pq.last()).drop_last();
        let j = choose|j: int| 0 <= j < pq.len() && (#[trigger] pq[j]).1 == v && pq[j].0 == key;
        if j == pq.len() - 1 {
            assert(q[i] == pq[j]);
        } else {
            assert(q[j] == pq[j]);
        }
    }

    /// Follows the parent links back from `target` to `start`.
    fn reconstruct_path(
        start: usize,
        target: usize,
        prev: &Vec<usize>,
        Ghost(reach): Ghost<Seq<bool>>,
        Ghost(rank): Ghost<Seq<int>>,
    ) -> (path: Vec<usize>)
        requires
            start < prev.len(),
            target < prev.len(),
            reach.len() == prev.len(),
            rank.len() == prev.len(),
            reach[target as int] || (prev@[target as int] == usize::MAX && start != target),
            forall|v: int| 0 <= v < prev.len() && #[trigger] reach[v] ==> rank[v] >= 0,
            forall|v: int|
                0 <= v < prev.len() && #[trigger] reach[v] && v != start ==> {
                    &&& prev[v] < prev.len()
                    &&& reach[prev[v] as int]
                    &&& rank[prev[v] as int] < rank[v]
                },
        ensures
            prev@[target as int] == usize::MAX && start != target ==> path@.len() == 0,
            !(prev@[target as int] == usize::MAX && start != target) ==> {
                &&& path@.len() >= 1
                &&& path@[0] == start
                &&& path@.last() == target
                &&& forall|i: int| 0 <= i < path@.len() ==> (#[trigger] path@[i]) < prev.len() && reach[path@[i] as int]
                &&& forall|i: int|
                    0 <= i < path@.len() - 1 ==> #[trigger] path@[i + 1] != start && prev@[path@[i + 1] as int]
                        == path@[i]
            },
    {
        if prev[target] == usize::MAX && start != target {
            return Vec::new();
        }
        let mut rev: Vec<usize> = Vec::new();
        let mut cur = target;
        while cur != start
            invariant
                start < prev.len(),
                target < prev.len(),
                reach.len() == prev.len(),
                rank.len() == prev.len(),
                forall|v: int| 0 <= v < prev.len() && #[trigger] reach[v] ==> rank[v] >= 0,
                forall|v: int|
                    0 <= v < prev.len() && #[trigger] reach[v] && v != start ==> {
                        &&& prev[v] < prev.len()
                        &&& reach[prev[v] as int]
                        &&& rank[prev[v] as int] < rank[v]
                    },
                cur < prev.len(),
                reach[cur as int],
                rev@.len() == 0 ==> cur == target,
                rev@.len() > 0 ==> rev@[0] == target && prev@[rev@.last() as int] == cur,
                forall|i: int| 0 <= i < rev@.len() ==> (#[trigger] rev@[i]) < prev.len() && reach[rev@[i] as int] && rev@[i] != start,
                forall|i: int| 0 <= i < rev@.len() - 1 ==> prev@[#[trigger] rev@[i] as int] == rev@[i + 1],
            decreases rank[cur as int],
        {
            rev.push(cur);
            cur = prev[cur];
        }
        rev.push(start);
        let len = rev.len();
        let mut path: Vec<usize> = Vec::new();
        while path.len() < len
            invariant
                len == rev@.len(),
                path@.len() <= len,
                forall|i: int| 0 <= i < path@.len() ==> #[trigger] path@[i] == rev@[len - 1 - i],
            decreases len - path@.len(),
        {
            let j = len - 1 - path.len();
            path.push(rev[j]);
        }
        proof {
            assert forall|i: int| 0 <= i < path@.len() - 1 implies #[trigger] path@[i + 1] != start && prev@[path@[i + 1] as int]
                == path@[i] by {
                assert(path@[i + 1] == rev@[len - 2 - i]);
                assert(path@[i] == rev@[len - 1 - i]);
            }
        }
        path
    }

    proof fn lemma_unreachable(
        &self,
        guided: bool,
        start: int,
        target: int,
        g: Seq<u128>,
        prev: Seq<usize>,
        visited: Seq<bool>,
        pq: Seq<(u128, usize)>,
        via: Seq<int>,
        rank: Seq<int>,
        expanded: int,
    )
        requires
            self.search_inv(guided, start, target, g, prev, visited, pq, via, rank, expanded, self.num_vertices() as int, 0, self.num_vertices() as int),
            pq.len() == 0,
        ensures
            !reachable(self.adjacency(), start, target),
    {
        if !visited[start] {
            assert(g[start] != UNREACHED);
            assert(Self::has_entry(pq, start, g[start] + self.guide(guided, start, target)));
        }
        assert forall|w: Seq<(usize, usize)>| !is_walk(self.adjacency(), start, target, w) by {
            if is_walk(self.adjacency(), start, target, w) {
                self.lemma_all_reached(guided, start, target, g, prev, visited, pq, via, rank, expanded, start, w, target);
            }
        }
    }

    /// Settled vertices are reachable, and the reachable `v` that is not
    /// settled makes them fewer than all reachable vertices.
    proof fn lemma_settled_within_reach(
        &self,
        guided: bool,
        start: int,
        target: int,
        g: Seq<u128>,
        prev: Seq<usize>,
        visited: Seq<bool>,
        pq: Seq<(u128, usize)>,
        via: Seq<int>,
        rank: Seq<int>,
        expanded: int,
        v: int,
    )
        requires
            self.search_inv(guided, start, target, g, prev, visited, pq, via, rank, expanded, self.num_vertices() as int, 0, v),
            0 <= v < self.num_vertices(),
            !visited[v],
            g[v] != UNREACHED,
        ensures
            expanded < count_true(reach_flags(self.adjacency(), start)),
    {
        let adj = self.adjacency();
        let flags = reach_flags(adj, start);
        assert forall|j: int| 0 <= j < visited.len() && #[trigger] visited[j] implies flags[j] by {
            assert(g[j] != UNREACHED);
        }
        lemma_count_true_subset(visited, flags);
        assert(flags[v]);
    }

    /// Once the queue is empty, the settled vertices are exactly those
    /// reachable from `start`.
    proof fn lemma_settled_all_reachable(
        &self,
        guided: bool,
        start: int,
        target: int,
        g: Seq<u128>,
        prev: Seq<usize>,
        visited: Seq<bool>,
        pq: Seq<(u128, usize)>,
        via: Seq<int>,
        rank: Seq<int>,
        expanded: int,
    )
        requires
            self.search_inv(guided, start, target, g, prev, visited, pq, via, rank, expanded, self.num_vertices() as int, 0, self.num_vertices() as int),
            pq.len() == 0,
        ensures
            expanded == count_true(reach_flags(self.adjacency(), start)),
    {
        let adj = self.adjacency();
        let flags = reach_flags(adj, start);
        if !visited[start] {
            assert(g[start] != UNREACHED);
            assert(Self::has_entry(pq, start, g[start] + self.guide(guided, start, target)));
        }
        assert forall|j: int| 0 <= j < visited.len() implies visited[j] == flags[j] by {
            if visited[j] {
                assert(g[j] != UNREACHED);
            }
            if flags[j] {
                let w = choose|w: Seq<(usize, usize)>| is_walk(adj, start, j, w);
                self.lemma_all_reached(guided, start, target, g, prev, visited, pq, via, rank, expanded, start, w, j);
            }
        }
        assert(visited =~= flags);
    }

    proof fn lemma_after_pop(
        &self,
        guided: bool,
        start: int,
        target: int,
        g: Seq<u128>,
        prev: Seq<usize>,
        visited: Seq<bool>,
        old_pq: Seq<(u128, usize)>,
        pq: Seq<(u128, usize)>,
        via: Seq<int>,
        rank: Seq<int>,
        expanded: int,
        i: int,
    )
        requires
            self.search_inv(guided, start, target, g, prev, visited, old_pq, via, rank, expanded, self.num_vertices() as int, 0, self.num_vertices() as int),
            0 <= i < old_pq.len(),
            forall|j: int| 0 <= j < old_pq.len() ==> old_pq[i].0 <= (#[trigger] old_pq[j]).0,
            pq == old_pq.update(i, old_pq.last()).drop_last(),
        ensures
            ({
                let u = old_pq[i].1 as int;
                &&& self.search_inv(guided, start, target, g, prev, visited, pq, via, rank, expanded, self.num_vertices() as int, 0, u)
                &&& 0 <= u < self.num_vertices()
                &&& g[u] != UNREACHED
                &&& !visited[u] && self.guide_consistent(guided, target) ==> forall|w: Seq<(usize, usize)>|
                    #[trigger] is_walk(self.adjacency(), start, u, w) ==> g[u] <= walk_cost(self.adjacency(), w)
            }),
    {
        let n = self.num_vertices() as int;
        let (f, u) = old_pq[i];
        if !visited[u as int] && self.guide_consistent(guided, target) {
            self.lemma_pop_optimal(guided, start, target, g, prev, visited, old_pq, via, rank, expanded, f as int, u as int);
        }
        assert forall|v: int| 0 <= v < n && v != u && !visited[v] && #[trigger] g[v] != UNREACHED implies Self::has_entry(
            pq,
            v,
            g[v] + self.guide(guided, v, target),
        ) by {
            Self::lemma_entry_after_swap_remove(old_pq, i, v, g[v] + self.guide(guided, v, target));
        }
        assert forall|j: int| 0 <= j < pq.len() implies old_pq.contains(#[trigger] pq[j]) by {
            if j == i {
                assert(old_pq[old_pq.len() - 1] == pq[j]);
            } else {
                assert(old_pq[j] == pq[j]);
            }
        }
    }

    /// The route to `target` once it leaves the queue: its vertices, and a
    /// walk through them whose cost is `target`'s cost.
    fn found_path(
        &self,
        guided: bool,
        start: usize,
        target: usize,
        g: &Vec<u128>,
        prev: &Vec<usize>,
        Ghost(visited): Ghost<Seq<bool>>,
        Ghost(pq): Ghost<Seq<(u128, usize)>>,
        Ghost(via): Ghost<Seq<int>>,
        Ghost(rank): Ghost<Seq<int>>,
        expanded: usize,
    ) -> (path: Vec<usize>)
        requires
            self.search_inv(guided, start as int, target as int, g@, prev@, visited, pq, via, rank, expanded as int, self.num_vertices() as int, 0, target as int),
            g@[target as int] != UNREACHED,
        ensures
            path@.len() > 0,
            path@.no_duplicates(),
            expanded >= path@.len() - 1,
            exists|w: Seq<(usize, usize)>|
                {
                    &&& is_walk(self.adjacency(), start as int, target as int, w)
                    &&& walk_cost(self.adjacency(), w) == g@[target as int]
                    &&& walk_vertices(w, target) == path@
                    &&& takes_shortest_edges(self.adjacency(), w)
                },
    {
        let ghost n = self.num_vertices() as int;
        let ghost adj = self.adjacency();
        let ghost reach: Seq<bool> = Seq::new(n as nat, |v: int| g@[v] != UNREACHED && (visited[v] || v == target));
        let ghost rank2: Seq<int> = rank.update(target as int, expanded as int);
        proof {
            assert forall|v: int| 0 <= v < n && #[trigger] reach[v] && v != start implies {
                &&& prev@[v] < n
                &&& reach[prev@[v] as int]
                &&& rank2[prev@[v] as int] < rank2[v]
            } by {
                assert(self.parent_ok(g@, prev@, visited, via, rank, v));
            }
        }
        proof {
            assert(reach[target as int]);
            if target != start {
                assert(self.parent_ok(g@, prev@, visited, via, rank, target as int));
                assert(prev@[target as int] < prev@.len());
                assert(prev@.len() == prev.len());
            }
            assert(!(prev@[target as int] == usize::MAX && start != target));
        }
        let path = Self::reconstruct_path(start, target, prev, Ghost(reach), Ghost(rank2));
        proof {
            let p = path@;
            assert forall|k: int|
                0 <= k < p.len() - 1 implies {
                    let v = #[trigger] p[k + 1] as int;
                    let q = p[k] as int;
                    &&& 0 <= via[v] < adj[q].len()
                    &&& via[v] <= usize::MAX
                    &&& adj[q][via[v]].target == v
                    &&& g@[v] == g@[q] + adj[q][via[v]].distance
                } by {
                let v = p[k + 1] as int;
                let q = p[k] as int;
                assert(reach[v]);
                assert(self.parent_ok(g@, prev@, visited, via, rank, v));
                assert(self.edges@[q].len() == self.edges@[q]@.len());
            }
            assert forall|k: int| 0 <= k < p.len() - 1 implies rank2[#[trigger] p[k] as int] < rank2[p[k + 1] as int] by {
                let v = p[k + 1] as int;
                assert(reach[v] && v != start);
            }
            lemma_rank_increasing_distinct(p, rank2);
            let inner = p.take(p.len() - 1);
            assert forall|i: int| 0 <= i < inner.len() implies (#[trigger] inner[i]) < visited.len() && visited[inner[i] as int] by {
                assert(inner[i] == p[i]);
                assert(reach[p[i] as int]);
                assert(p[i] != p[p.len() - 1]);
            }
            assert(inner.no_duplicates()) by {
                assert forall|i: int, j: int| 0 <= i < inner.len() && 0 <= j < inner.len() && i != j implies inner[i] != inner[j] by {
                    assert(inner[i] == p[i] && inner[j] == p[j]);
                }
            }
            assert(visited.len() == prev@.len() && prev@.len() == prev.len());
            lemma_count_true_at_least(visited, inner);
            lemma_path_walk(adj, g@, via, p, 0);
            let w = path_walk(p, via);
            assert(w.skip(0) =~= w);
            assert(walk_vertices(w, target) =~= p);
            assert forall|i: int, j: int|
                0 <= i < w.len() && 0 <= j < adj[w[i].0 as int].len() && (#[trigger] adj[w[i].0 as int][j]).target
                    == adj[w[i].0 as int][w[i].1 as int].target implies adj[w[i].0 as int][w[i].1 as int].distance
                    <= adj[w[i].0 as int][j].distance by {
                let q = p[i] as int;
                let v = p[i + 1] as int;
                assert(w[i] == (p[i], via[v] as usize));
                assert(reach[v]);
                assert(self.parent_ok(g@, prev@, visited, via, rank, v));
                assert(adj[q][j] == adj[q][j]);
            }
        }
        path
    }

    /// A* search from `start` to `target` along the edges, guided by the
    /// chord heuristic. Returns the cost of the route found, its vertices
    /// from `start` to `target`, and how many vertices were expanded.
    pub fn a_star(&self, start: usize, target: usize) -> (res: (Option<u128>, Vec<usize>, usize))
        requires
            self.wf(),
            start < self.num_vertices(),
            target < self.num_vertices(),
        ensures
            res.0 is Some <==> res.1@.len() > 0,
            res.1@.no_duplicates(),
            res.0 is Some <==> reachable(self.adjacency(), start as int, target as int),
            res.0 matches Some(c) ==> exists|w: Seq<(usize, usize)>|
                {
                    &&& is_walk(self.adjacency(), start as int, target as int, w)
                    &&& walk_cost(self.adjacency(), w) == c
                    &&& walk_vertices(w, target) == res.1@
                    &&& takes_shortest_edges(self.adjacency(), w)
                },
            res.0 matches Some(c) ==> (self.heuristic_consistent(target as int) ==> forall|w: Seq<(usize, usize)>|
                #[trigger] is_walk(self.adjacency(), start as int, target as int, w) ==> c <= walk_cost(self.adjacency(), w)),
            res.0 is None ==> res.2 == count_true(reach_flags(self.adjacency(), start as int)),
            res.0 is Some ==> res.2 < count_true(reach_flags(self.adjacency(), start as int)),
            res.0 is Some ==> res.2 >= res.1@.len() - 1,
            res.2 <= self.num_vertices(),
    {
        let (cost, path, expanded, _pushes) = self.guided_search(true, start, target);
        (cost, path, expanded)
    }

    /// The search from `start` to `target`, guided by the chord heuristic
    /// when `guided` and unguided (a uniform-cost search) otherwise.
    pub fn guided_search(&self, guided: bool, start: usize, target: usize) -> (res: (
        Option<u128>,
        Vec<usize>,
        usize,
        Ghost<nat>,
    ))
        requires
            self.wf(),
            start < self.num_vertices(),
            target < self.num_vertices(),
        ensures
            res.0 is Some <==> res.1@.len() > 0,
            res.1@.no_duplicates(),
            res.0 is Some <==> reachable(self.adjacency(), start as int, target as int),
            res.0 matches Some(c) ==> exists|w: Seq<(usize, usize)>|
                {
                    &&& is_walk(self.adjacency(), start as int, target as int, w)
                    &&& walk_cost(self.adjacency(), w) == c
                    &&& walk_vertices(w, target) == res.1@
                    &&& takes_shortest_edges(self.adjacency(), w)
                },
            res.0 matches Some(c) ==> (self.guide_consistent(guided, target as int) ==> forall|w: Seq<(usize, usize)>|
                #[trigger] is_walk(self.adjacency(), start as int, target as int, w) ==> c <= walk_cost(self.adjacency(), w)),
            res.0 is None ==> res.2 == count_true(reach_flags(self.adjacency(), start as int)),
            res.0 is Some ==> res.2 < count_true(reach_flags(self.adjacency(), start as int)),
            res.0 is Some ==> res.2 >= res.1@.len() - 1,
            res.2 <= self.num_vertices(),
    {
        let n = self.vertices.len();
        let target_pos = self.vertices[target].pos3;
        let mut g: Vec<u128> = vec![UNREACHED; n];
        let mut prev: Vec<usize> = vec![usize::MAX; n];
        let mut visited: Vec<bool> = vec![false; n];
        g[start] = 0;
        let start_h = if guided {
            self.vertices[start].pos3.chord_distance_nm(&target_pos)
        } else {
            0
        };
        let mut pq: Vec<(u128, usize)> = Vec::new();
        pq.push((start_h as u128, start));
        let mut expanded: usize = 0;
        let ghost mut via: Seq<int> = Seq::new(n as nat, |i: int| 0int);
        let ghost mut rank: Seq<int> = Seq::new(n as nat, |i: int| 0int);
        let ghost mut pushes: nat = 1;
        proof {
            assert(count_true(visited@) == 0) by {
                assert forall|m: nat| m <= n implies count_true(visited@.subrange(0, m as int)) == 0 by {
                    lemma_count_false_prefix(visited@, m);
                }
                assert(visited@.subrange(0, n as int) =~= visited@);
            }
            assert(Self::has_entry(pq@, start as int, g@[start as int] + self.guide(guided, start as int, target as int))) by {
                assert(pq@[0].1 == start);
            }
            assert(is_walk(self.adjacency(), start as int, start as int, Seq::<(usize, usize)>::empty()));
            lemma_flagged_edges_none(self.adjacency(), visited@);
        }
        while pq.len() > 0
            invariant
                self.search_inv(guided, start as int, target as int, g@, prev@, visited@, pq@, via, rank, expanded as int, n as int, 0, n as int),
                n == self.num_vertices(),
                target_pos == self.vertices@[target as int].pos3,
                pushes <= 1 + flagged_edges(self.adjacency(), visited@),
            decreases n - expanded, pq@.len(),
        {
            let i = min_index(&pq);
            let ghost old_pq = pq@;
            let (f, u) = pq.swap_remove(i);
            proof {
                self.lemma_after_pop(guided, start as int, target as int, g@, prev@, visited@, old_pq, pq@, via, rank, expanded as int, i as int);
            }
            if u == target {
                let path = self.found_path(guided, start, target, &g, &prev, Ghost(visited@), Ghost(pq@), Ghost(via), Ghost(rank), expanded);
                proof {
                    lemma_count_true_bound(visited@);
                    self.lemma_settled_within_reach(guided, start as int, target as int, g@, prev@, visited@, pq@, via, rank, expanded as int, target as int);
                    lemma_flagged_edges_bound(self.adjacency(), visited@);
                }
                return (Some(g[target]), path, expanded, Ghost(pushes));
            }
            if visited[u] {
                continue;
            }
            let (Ghost(via2), Ghost(rank2), Ghost(pushed2)) = self.expand(guided, start, target, &target_pos, u, &mut g, &mut prev, &mut visited, &mut pq, &mut expanded, Ghost(via), Ghost(rank), Ghost(pushes));
            proof {
                via = via2;
                rank = rank2;
                pushes = pushed2;
            }
        }
        proof {
            self.lemma_unreachable(guided, start as int, target as int, g@, prev@, visited@, pq@, via, rank, expanded as int);
            self.lemma_settled_all_reachable(guided, start as int, target as int, g@, prev@, visited@, pq@, via, rank, expanded as int);
            lemma_count_true_bound(visited@);
            lemma_flagged_edges_bound(self.adjacency(), visited@);
        }
        (None, Vec::new(), expanded, Ghost(pushes))
    }

    /// Settles `u` and relaxes its outgoing edges.
    fn expand(
        &self,
        guided: bool,
        start: usize,
        target: usize,
        target_pos: &Vec3,
        u: usize,
        g: &mut Vec<u128>,
        prev: &mut Vec<usize>,
        visited: &mut Vec<bool>,
        pq: &mut Vec<(u128, usize)>,
        expanded: &mut usize,
        Ghost(via): Ghost<Seq<int>>,
        Ghost(rank): Ghost<Seq<int>>,
        Ghost(pushes): Ghost<nat>,
    ) -> (res: (Ghost<Seq<int>>, Ghost<Seq<int>>, Ghost<nat>))
        requires
            pushes <= 1 + flagged_edges(self.adjacency(), old(visited)@),
            self.search_inv(guided, start as int, target as int, old(g)@, old(prev)@, old(visited)@, old(pq)@, via, rank, *old(expanded) as int, self.num_vertices() as int, 0, u as int),
            u < self.num_vertices(),
            u != target,
            !old(visited)@[u as int],
            old(g)@[u as int] != UNREACHED,
            *target_pos == self.vertices@[target as int].pos3,
            self.guide_consistent(guided, target as int) ==> forall|w: Seq<(usize, usize)>|
                #[trigger] is_walk(self.adjacency(), start as int, u as int, w) ==> old(g)@[u as int] <= walk_cost(self.adjacency(), w),
        ensures
            self.search_inv(guided, start as int, target as int, final(g)@, final(prev)@, final(visited)@, final(pq)@, res.0@, res.1@, *final(expanded) as int, self.num_vertices() as int, 0, self.num_vertices() as int),
            *final(expanded) == *old(expanded) + 1,
            *final(expanded) <= self.num_vertices(),
            res.2@ <= 1 + flagged_edges(self.adjacency(), final(visited)@),
    {
        let ghost n = self.num_vertices() as int;
        let ghost old_visited = visited@;
        visited[u] = true;
        proof {
            assert(visited@ == old_visited.update(u as int, true));
            lemma_count_true_set(old_visited, u as int);
            lemma_flagged_edges_set(self.adjacency(), old_visited, u as int);
            lemma_count_true_bound(visited@);
            assert(visited@.len() == visited.len());
        }
        let ghost rank2 = rank.update(u as int, *expanded as int);
        *expanded = *expanded + 1;
        proof {
            self.lemma_settle(guided, start as int, target as int, g@, prev@, old_visited, visited@, pq@, via, rank, rank2, (*expanded - 1) as int, u as int);
        }
        let deg = self.edges[u].len();
        let mut k: usize = 0;
        let ghost mut via2 = via;
        let ghost mut pushed: nat = pushes;
        while k < deg
            invariant
                pushed <= pushes + k,
                pushes + deg <= 1 + flagged_edges(self.adjacency(), visited@),
                self.search_inv(guided, start as int, target as int, g@, prev@, visited@, pq@, via2, rank2, *expanded as int, u as int, k as int, n),
                n == self.num_vertices(),
                u < n,
                visited@[u as int],
                k <= deg,
                deg == self.adjacency()[u as int].len(),
                g@[u as int] <= (*expanded - 1) * max_edge(),
                *expanded == *old(expanded) + 1,
                *expanded <= n,
                *target_pos == self.vertices@[target as int].pos3,
            decreases deg - k,
        {
            let e = self.edges[u][k];
            let v = e.target;
            let ghost g0 = g@;
            let ghost prev0 = prev@;
            let ghost pq0 = pq@;
            let ghost via0 = via2;
            assert(e == self.adjacency()[u as int][k as int]);
            if !visited[v] {
                assert(g@[u as int] + e.distance <= *expanded * max_edge()) by (nonlinear_arith)
                    requires
                        g@[u as int] <= (*expanded - 1) * max_edge(),
                        e.distance <= max_edge(),
                ;
                assert(*expanded * max_edge() <= 18446744073709551615int * 18446744073709551615int) by (nonlinear_arith)
                    requires
                        *expanded <= 18446744073709551615int,
                        max_edge() == 18446744073709551615int,
                ;
                let new_g = g[u] + e.distance as u128;
                if new_g < g[v] {
                    g[v] = new_g;
                    prev[v] = u;
                    proof {
                        via2 = via2.update(v as int, k as int);
                    }
                    let h = if guided {
                        self.vertices[v].pos3.chord_distance_nm(target_pos)
                    } else {
                        0
                    };
                    assert(new_g + h < 340282366920938463463374607431768211455int) by (nonlinear_arith)
                        requires
                            new_g <= 18446744073709551615int * 18446744073709551615int,
                            h < 9007199254740992int,
                    ;
                    let f = new_g + h as u128;
                    pq.push((f, v));
                    proof {
                        pushed = pushed + 1;
                        self.lemma_relax_update(guided, start as int, target as int, g0, g@, prev0, prev@, visited@, pq0, pq@, via0, via2, rank2, *expanded as int, u, k, new_g, f);
                    }
                } else {
                    proof {
                        self.lemma_relax_skip(guided, start as int, target as int, g@, prev@, visited@, pq@, via2, rank2, *expanded as int, u as int, k as int);
                    }
                }
            } else {
                proof {
                    self.lemma_relax_skip(guided, start as int, target as int, g@, prev@, visited@, pq@, via2, rank2, *expanded as int, u as int, k as int);
                }
            }
            k += 1;
        }
        proof {
            assert(self.search_inv(guided, start as int, target as int, g@, prev@, visited@, pq@, via2, rank2, *expanded as int, u as int, deg as int, n));
        }
        (Ghost(via2), Ghost(rank2), Ghost(pushed))
    }

    proof fn lemma_settle(
        &self,
        guided: bool,
        start: int,
        target: int,
        g: Seq<u128>,
        prev: Seq<usize>,
        visited: Seq<bool>,
        visited2: Seq<bool>,
        pq: Seq<(u128, usize)>,
        via: Seq<int>,
        rank: Seq<int>,
        rank2: Seq<int>,
        expanded: int,
        u: int,
    )
        requires
            self.search_inv(guided, start, target, g, prev, visited, pq, via, rank, expanded, self.num_vertices() as int, 0, u),
            0 <= u < self.num_vertices(),
            u != target,
            !visited[u],
            g[u] != UNREACHED,
            visited2 == visited.update(u, true),
            rank2 == rank.update(u, expanded),
            count_true(visited2) == expanded + 1,
            count_true(visited2) <= self.num_vertices(),
            self.guide_consistent(guided, target) ==> forall|w: Seq<(usize, usize)>|
                #[trigger] is_walk(self.adjacency(), start, u, w) ==> g[u] <= walk_cost(self.adjacency(), w),
        ensures
            self.search_inv(guided, start, target, g, prev, visited2, pq, via, rank2, expanded + 1, u, 0, self.num_vertices() as int),
            g[u] <= expanded * max_edge(),
    {
        let n = self.num_vertices() as int;
        assert forall|v: int| 0 <= v < n && #[trigger] g[v] != UNREACHED implies g[v] <= (expanded + 1) * max_edge() by {
            assert(g[v] <= expanded * max_edge());
            assert(expanded * max_edge() <= (expanded + 1) * max_edge()) by (nonlinear_arith)
                requires
                    expanded >= 0,
            ;
        }
        assert forall|v: int| 0 <= v < n && g[v] != UNREACHED && v != start implies #[trigger] self.parent_ok(
            g,
            prev,
            visited2,
            via,
            rank2,
            v,
        ) by {
            assert(self.parent_ok(g, prev, visited, via, rank, v));
            let p = prev[v] as int;
            assert(p != u);
        }
        if !visited[start] {
            assert(u == start);
        }
    }

    proof fn lemma_relax_skip(
        &self,
        guided: bool,
        start: int,
        target: int,
        g: Seq<u128>,
        prev: Seq<usize>,
        visited: Seq<bool>,
        pq: Seq<(u128, usize)>,
        via: Seq<int>,
        rank: Seq<int>,
        expanded: int,
        u: int,
        k: int,
    )
        requires
            self.search_inv(guided, start, target, g, prev, visited, pq, via, rank, expanded, u, k, self.num_vertices() as int),
            0 <= u < self.num_vertices(),
            visited[u],
            0 <= k < self.adjacency()[u].len(),
            ({
                let y = self.adjacency()[u][k].target as int;
                visited[y] || (g[y] != UNREACHED && g[y] <= g[u] + self.adjacency()[u][k].distance)
            }),
        ensures
            self.search_inv(guided, start, target, g, prev, visited, pq, via, rank, expanded, u, k + 1, self.num_vertices() as int),
    {
    }

    proof fn lemma_relax_update(
        &self,
        guided: bool,
        start: int,
        target: int,
        g: Seq<u128>,
        g2: Seq<u128>,
        prev: Seq<usize>,
        prev2: Seq<usize>,
        visited: Seq<bool>,
        pq: Seq<(u128, usize)>,
        pq2: Seq<(u128, usize)>,
        via: Seq<int>,
        via2: Seq<int>,
        rank: Seq<int>,
        expanded: int,
        u: usize,
        k: usize,
        ng: u128,
        f: u128,
    )
        requires
            self.search_inv(guided, start, target, g, prev, visited, pq, via, rank, expanded, u as int, k as int, self.num_vertices() as int),
            u < self.num_vertices(),
            visited[u as int],
            k < self.adjacency()[u as int].len(),
            ({
                let e = self.adjacency()[u as int][k as int];
                let v = e.target;
                &&& !visited[v as int]
                &&& ng == g[u as int] + e.distance
                &&& ng < g[v as int]
                &&& ng <= expanded * max_edge()
                &&& f == ng + self.guide(guided, v as int, target)
                &&& g2 == g.update(v as int, ng)
                &&& prev2 == prev.update(v as int, u)
                &&& via2 == via.update(v as int, k as int)
                &&& pq2 == pq.push((f, v))
            }),
        ensures
            self.search_inv(guided, start, target, g2, prev2, visited, pq2, via2, rank, expanded, u as int, k + 1, self.num_vertices() as int),
    {
        let n = self.num_vertices() as int;
        let adj = self.adjacency();
        let e = adj[u as int][k as int];
        let v = e.target as int;
        assert(visited[start]) by {
            if !visited[start] {
                assert(u == start);
            }
        }
        assert(v != start);
        assert forall|w: int| 0 <= w < n && #[trigger] visited[w] implies g2[w] == g[w] && g2[w] != UNREACHED && 0 <= rank[w] < expanded by {}
        assert(reachable(adj, start, v)) by {
            assert(g[u as int] != UNREACHED);
            let p = choose|p: Seq<(usize, usize)>| is_walk(adj, start, u as int, p);
            lemma_walk_push(adj, start, u, p, k);
        }
        assert forall|w: int| 0 <= w < n && #[trigger] g2[w] != UNREACHED implies g2[w] <= expanded * max_edge()
            && reachable(adj, start, w) by {
            if w != v {
                assert(g[w] != UNREACHED);
            }
        }
        assert forall|w: int| 0 <= w < n && g2[w] != UNREACHED && w != start implies #[trigger] self.parent_ok(
            g2,
            prev2,
            visited,
            via2,
            rank,
            w,
        ) by {
            if w != v {
                assert(g[w] != UNREACHED);
                assert(self.parent_ok(g, prev, visited, via, rank, w));
            }
        }
        assert forall|i: int|
            0 <= i < pq2.len() implies {
                &&& (#[trigger] pq2[i]).1 < n
                &&& g2[pq2[i].1 as int] != UNREACHED
                &&& g2[pq2[i].1 as int] + self.guide(guided, pq2[i].1 as int, target) <= pq2[i].0
            } by {
            if i < pq.len() {
                assert(pq2[i] == pq[i]);
            }
        }
        assert forall|w: int|
            0 <= w < n && w != n && !visited[w] && #[trigger] g2[w] != UNREACHED implies Self::has_entry(
                pq2,
                w,
                g2[w] + self.guide(guided, w, target),
            ) by {
            if w == v {
                assert(pq2[pq.len() as int].1 == v);
            } else {
                assert(Self::has_entry(pq, w, g[w] + self.guide(guided, w, target)));
                let j = choose|j: int| 0 <= j < pq.len() && (#[trigger] pq[j]).1 == w && pq[j].0 == g[w] + self.guide(guided, w, target);
                assert(pq2[j] == pq[j]);
            }
        }
        assert forall|x: int, k2: int|
            0 <= x < n && visited[x] && 0 <= k2 < adj[x].len() && !(x == u as int && k2 >= k + 1) implies {
                let y = (#[trigger] adj[x][k2]).target as int;
                visited[y] || (g2[y] != UNREACHED && g2[y] <= g2[x] + adj[x][k2].distance)
            } by {
            if !(x == u as int && k2 == k as int) {
                let y = adj[x][k2].target as int;
                if y == v {
                    assert(g[y] != UNREACHED && g[y] <= g[x] + adj[x][k2].distance);
                }
            }
        }
        if self.guide_consistent(guided, target) {
            assert forall|x: int, w: Seq<(usize, usize)>|
                0 <= x < n && visited[x] && #[trigger] is_walk(adj, start, x, w) implies g2[x] <= walk_cost(adj, w) by {
                assert(g[x] <= walk_cost(adj, w));
            }
        }
    }
}

} // verus!
