//! The airway graph and its A* search.
//!
//! Distances are whole thousandths of a nautical mile. Positions on the
//! globe are unit vectors in fixed point, each coordinate scaled by
//! `UNIT_VECTOR_SCALE`.

use vstd::prelude::*;
use vstd::hash_map::*;
use vstd::string::*;

verus! {

/// Fixed-point scale of the coordinates of a unit vector.
pub const UNIT_VECTOR_SCALE: i64 = 1073741824;

/// Earth radius in thousandths of a nautical mile (6378.137 km / 1.852).
pub const EARTH_RADIUS_MILLI_NM: u64 = 3443918;

/// Position on the unit sphere, each coordinate scaled by `UNIT_VECTOR_SCALE`.
#[derive(Debug, Clone, Copy)]
pub struct Vec3 {
    pub x: i64,
    pub y: i64,
    pub z: i64,
}

/// `r` is the integer square root of `n`, rounded down.
pub open spec fn is_floor_sqrt(n: int, r: int) -> bool {
    0 <= r && r * r <= n && n < (r + 1) * (r + 1)
}

/// The integer square root of `n`, rounded down.
pub open spec fn floor_sqrt(n: int) -> int {
    choose|r: int| is_floor_sqrt(n, r)
}

proof fn lemma_floor_sqrt_unique(n: int, r: int, s: int)
    requires
        is_floor_sqrt(n, r),
        is_floor_sqrt(n, s),
    ensures
        r == s,
{
    if r < s {
        assert((r + 1) * (r + 1) <= s * s) by (nonlinear_arith)
            requires
                0 <= r < s,
        ;
    } else if s < r {
        assert((s + 1) * (s + 1) <= r * r) by (nonlinear_arith)
            requires
                0 <= s < r,
        ;
    }
}

/// Computes the integer square root of `n`, rounded down.
pub fn isqrt(n: u64) -> (r: u64)
    ensures
        is_floor_sqrt(n as int, r as int),
        r as int == floor_sqrt(n as int),
{
    let mut lo: u64 = 0;
    let mut hi: u64 = 4294967296;
    assert(n < 4294967296int * 4294967296int);
    while hi - lo > 1
        invariant
            lo < hi <= 4294967296,
            lo * lo <= n,
            n < hi * hi,
        decreases hi - lo,
    {
        let mid: u64 = lo + (hi - lo) / 2;
        assert(mid * mid < 4294967296int * 4294967296int) by (nonlinear_arith)
            requires
                mid < 4294967296int,
        ;
        if mid * mid <= n {
            lo = mid;
        } else {
            hi = mid;
        }
    }
    proof {
        assert(hi == lo + 1);
        assert(is_floor_sqrt(n as int, lo as int));
        lemma_floor_sqrt_unique(n as int, lo as int, floor_sqrt(n as int));
    }
    lo
}

impl Vec3 {
    /// Every coordinate lies within one unit.
    pub open spec fn valid(&self) -> bool {
        &&& -UNIT_VECTOR_SCALE <= self.x <= UNIT_VECTOR_SCALE
        &&& -UNIT_VECTOR_SCALE <= self.y <= UNIT_VECTOR_SCALE
        &&& -UNIT_VECTOR_SCALE <= self.z <= UNIT_VECTOR_SCALE
    }

    /// Squared distance between the two fixed-point positions.
    pub open spec fn spec_sq_dist(&self, other: Vec3) -> int {
        (self.x - other.x) * (self.x - other.x) + (self.y - other.y) * (self.y - other.y) + (
        self.z - other.z) * (self.z - other.z)
    }

    /// Chord length between the two positions on the Earth sphere, in
    /// thousandths of a nautical mile, rounded down.
    pub open spec fn spec_chord(&self, other: Vec3) -> int {
        floor_sqrt(self.spec_sq_dist(other)) * EARTH_RADIUS_MILLI_NM / UNIT_VECTOR_SCALE as int
    }

    /// Chord (straight-line) distance in thousandths of a nautical mile,
    /// rounded down. It estimates the great-circle distance from below, up
    /// to the rounding of the fixed-point positions.
    pub fn chord_distance_nm(&self, other: &Vec3) -> (d: u64)
        requires
            self.valid(),
            other.valid(),
        ensures
            d as int == self.spec_chord(*other),
            d < 9007199254740992,
    {
        let dx: i64 = self.x - other.x;
        let dy: i64 = self.y - other.y;
        let dz: i64 = self.z - other.z;
        assert(dx * dx <= 4611686018427387904) by (nonlinear_arith)
            requires
                -2147483648 <= dx <= 2147483648,
        ;
        assert(dy * dy <= 4611686018427387904) by (nonlinear_arith)
            requires
                -2147483648 <= dy <= 2147483648,
        ;
        assert(dz * dz <= 4611686018427387904) by (nonlinear_arith)
            requires
                -2147483648 <= dz <= 2147483648,
        ;
        assert(0 <= dx * dx && 0 <= dy * dy && 0 <= dz * dz) by (nonlinear_arith);
        let sq: u64 = (dx * dx) as u64 + (dy * dy) as u64 + (dz * dz) as u64;
        let r = isqrt(sq);
        assert(r < 4294967296) by (nonlinear_arith)
            requires
                r * r <= sq,
                sq < 4294967296int * 4294967296int,
        ;
        assert(r * EARTH_RADIUS_MILLI_NM < 4294967296int * 3443918) by (nonlinear_arith)
            requires
                r < 4294967296int,
        ;
        let d = r * EARTH_RADIUS_MILLI_NM / (UNIT_VECTOR_SCALE as u64);
        d
    }
}

/// Name of the departure-procedure pseudo route.
pub open spec fn sid_name() -> Seq<char> {
    seq!['S', 'I', 'D']
}

/// Name of the arrival-procedure pseudo route.
pub open spec fn star_name() -> Seq<char> {
    seq!['S', 'T', 'A', 'R']
}

/// Name of the direct-leg pseudo route.
pub open spec fn dct_name() -> Seq<char> {
    seq!['D', 'C', 'T']
}

/// A vertex of the graph: an airport or a waypoint.
#[derive(Debug)]
pub struct Vertex {
    pub id: usize,
    pub name: String,
    pub pos3: Vec3,
}

/// A directed edge, with its length in thousandths of a nautical mile.
#[derive(Debug, Clone, Copy)]
pub struct Edge {
    pub target: usize,
    pub distance: u64,
    pub route_id: usize,
}

/// The ids, in increasing order, of the names among the first `n` that equal `name`.
pub open spec fn ids_named(names: Seq<Seq<char>>, name: Seq<char>, n: nat) -> Seq<usize>
    decreases n,
{
    if n == 0 {
        Seq::empty()
    } else {
        let before = ids_named(names, name, (n - 1) as nat);
        if names[n - 1] == name {
            before.push((n - 1) as usize)
        } else {
            before
        }
    }
}

proof fn lemma_ids_named_prefix(names: Seq<Seq<char>>, x: Seq<char>, name: Seq<char>, n: nat)
    requires
        n <= names.len(),
    ensures
        ids_named(names.push(x), name, n) == ids_named(names, name, n),
    decreases n,
{
    if n > 0 {
        lemma_ids_named_prefix(names, x, name, (n - 1) as nat);
    }
}

/// Adding a vertex named `x` extends the ids of the name `x` by the new id
/// and leaves the ids of every other name as they were: a lookup after
/// `add_vertex` finds exactly the earlier vertices and the new one.
pub proof fn lemma_ids_named_after_add(names: Seq<Seq<char>>, x: Seq<char>, name: Seq<char>)
    ensures
        ids_named(names.push(x), name, names.len() + 1) == if x == name {
            ids_named(names, name, names.len()).push(names.len() as usize)
        } else {
            ids_named(names, name, names.len())
        },
{
    lemma_ids_named_prefix(names, x, name, names.len());
}

/// The ids of a name are exactly the ids, below `n`, of the vertices of that
/// name, each once, in increasing order: the name index lists every vertex
/// of a name and nothing else.
pub proof fn lemma_ids_named_exact(names: Seq<Seq<char>>, name: Seq<char>, n: nat)
    requires
        n <= names.len(),
        n <= usize::MAX,
    ensures
        forall|i: int|
            0 <= i < ids_named(names, name, n).len() ==> {
                &&& (#[trigger] ids_named(names, name, n)[i]) < n
                &&& names[ids_named(names, name, n)[i] as int] == name
            },
        forall|i: int, j: int|
            0 <= i < j < ids_named(names, name, n).len() ==> #[trigger] ids_named(names, name, n)[i]
                < #[trigger] ids_named(names, name, n)[j],
        forall|v: int| 0 <= v < n && names[v] == name ==> ids_named(names, name, n).contains(v as usize),
    decreases n,
{
    if n > 0 {
        let m = (n - 1) as nat;
        lemma_ids_named_exact(names, name, m);
        let before = ids_named(names, name, m);
        let ids = ids_named(names, name, n);
        assert forall|i: int| 0 <= i < before.len() implies #[trigger] ids[i] == before[i] by {}
        assert forall|v: int| 0 <= v < n && names[v] == name implies ids.contains(v as usize) by {
            if v < m {
                let k = choose|k: int| 0 <= k < before.len() && before[k] == v as usize;
                assert(ids[k] == v as usize);
            } else {
                assert(ids[before.len() as int] == v as usize);
            }
        }
    }
}

/// The chord from a point to itself is zero: the heuristic vanishes at the target.
pub proof fn lemma_chord_to_self(p: Vec3)
    ensures
        p.spec_chord(p) == 0,
{
    assert(p.spec_sq_dist(p) == 0);
    assert(is_floor_sqrt(0, 0));
    lemma_floor_sqrt_unique(0, 0, floor_sqrt(0));
}

/// The graph of airports and waypoints, with the airway network's edges.
pub struct Graph {
    pub vertices: Vec<Vertex>,
    pub edges: Vec<Vec<Edge>>,
    pub name_index: StringHashMap<Vec<usize>>,
    pub route_ids: StringHashMap<usize>,
    pub route_names: Vec<String>,
}

impl Graph {
    /// The vertex names in id order.
    pub open spec fn names(&self) -> Seq<Seq<char>> {
        Seq::new(self.vertices@.len(), |i: int| self.vertices@[i].name@)
    }

    /// The outgoing edges of each vertex.
    pub open spec fn adjacency(&self) -> Seq<Seq<Edge>> {
        Seq::new(self.edges@.len(), |u: int| self.edges@[u]@)
    }

    /// The route names in id order.
    pub open spec fn routes(&self) -> Seq<Seq<char>> {
        Seq::new(self.route_names@.len(), |i: int| self.route_names@[i]@)
    }

    /// Number of vertices.
    pub open spec fn num_vertices(&self) -> nat {
        self.vertices@.len()
    }

    /// The indexes agree with the vertex and route lists, and every edge
    /// joins two vertices of the graph along a known route.
    pub open spec fn wf(&self) -> bool {
        &&& self.edges@.len() == self.vertices@.len()
        &&& forall|i: int|
            0 <= i < self.vertices@.len() ==> {
                &&& (#[trigger] self.vertices@[i]).id == i
                &&& self.vertices@[i].pos3.valid()
            }
        &&& forall|u: int, k: int|
            0 <= u < self.adjacency().len() && 0 <= k < self.adjacency()[u].len() ==> {
                &&& (#[trigger] self.adjacency()[u][k]).target < self.vertices@.len()
                &&& self.adjacency()[u][k].route_id < self.route_names@.len()
            }
        &&& forall|name: Seq<char>|
            #[trigger] self.name_index@.contains_key(name) <==> ids_named(
                self.names(),
                name,
                self.num_vertices(),
            ).len() > 0
        &&& forall|name: Seq<char>|
            #[trigger] self.name_index@.contains_key(name) ==> self.name_index@[name]@
                == ids_named(self.names(), name, self.num_vertices())
        &&& forall|j: int, k: int|
            0 <= j < self.routes().len() && 0 <= k < self.routes().len() && j != k
                ==> #[trigger] self.routes()[j] != #[trigger] self.routes()[k]
        &&& forall|name: Seq<char>|
            #[trigger] self.route_ids@.contains_key(name) <==> self.routes().contains(name)
        &&& forall|name: Seq<char>|
            #[trigger] self.route_ids@.contains_key(name) ==> {
                &&& self.route_ids@[name] < self.routes().len()
                &&& self.routes()[self.route_ids@[name] as int] == name
            }
    }

    /// Creates an empty graph.
    pub fn new() -> (g: Graph)
        ensures
            g.wf(),
            g.vertices@.len() == 0,
            g.routes().len() == 0,
    {
        let g = Graph {
            vertices: Vec::new(),
            edges: Vec::new(),
            name_index: StringHashMap::new(),
            route_ids: StringHashMap::new(),
            route_names: Vec::new(),
        };
        assert forall|name: Seq<char>| #[trigger] g.route_ids@.contains_key(name) <==> g.routes().contains(name) by {}
        g
    }

    /// Adds a vertex named `name` at `pos` and returns its id.
    pub fn add_vertex(&mut self, name: &str, pos: Vec3) -> (id: usize)
        requires
            old(self).wf(),
            pos.valid(),
            old(self).vertices@.len() < usize::MAX,
        ensures
            final(self).wf(),
            id == old(self).vertices@.len(),
            final(self).vertices@.len() == id + 1,
            forall|i: int| 0 <= i < id ==> #[trigger] final(self).vertices@[i] == old(self).vertices@[i],
            final(self).vertices@[id as int].id == id,
            final(self).vertices@[id as int].name@ == name@,
            final(self).vertices@[id as int].pos3 == pos,
            final(self).names() == old(self).names().push(name@),
            final(self).adjacency() == old(self).adjacency().push(Seq::<Edge>::empty()),
            final(self).routes() == old(self).routes(),
    {
        let id = self.vertices.len();
        let ghost old_names = self.names();
        self.vertices.push(Vertex { id, name: String::from_str(name), pos3: pos });
        self.edges.push(Vec::new());
        let mut ids: Vec<usize> = match self.name_index.get(name) {
            Some(v) => {
                let c = v.clone();
                assert(c@ =~= v@);
                c
            },
            None => Vec::new(),
        };
        ids.push(id);
        self.name_index.insert(String::from_str(name), ids);
        proof {
            assert(self.names() =~= old_names.push(name@));
            assert forall|nm: Seq<char>| true implies ids_named(self.names(), nm, id as nat)
                == ids_named(old_names, nm, id as nat) by {
                lemma_ids_named_prefix(old_names, name@, nm, id as nat);
            }
            assert(self.adjacency() =~= old(self).adjacency().push(Seq::<Edge>::empty()));
            assert(self.routes() =~= old(self).routes());
            assert forall|u: int, k: int|
                0 <= u < self.adjacency().len() && 0 <= k < self.adjacency()[u].len() implies {
                &&& (#[trigger] self.adjacency()[u][k]).target < self.vertices@.len()
                &&& self.adjacency()[u][k].route_id < self.route_names@.len()
            } by {
                assert(self.adjacency()[u] == old(self).adjacency()[u]);
            }
            assert forall|nm: Seq<char>|
                #[trigger] self.name_index@.contains_key(nm) <==> ids_named(
                    self.names(),
                    nm,
                    self.num_vertices(),
                ).len() > 0 by {
                assert(ids_named(self.names(), nm, id as nat) == ids_named(old_names, nm, id as nat));
            }
            assert forall|nm: Seq<char>|
                #[trigger] self.name_index@.contains_key(nm) implies self.name_index@[nm]@
                == ids_named(self.names(), nm, self.num_vertices()) by {
                assert(ids_named(self.names(), nm, id as nat) == ids_named(old_names, nm, id as nat));
                if nm != name@ {
                    assert(old(self).name_index@.contains_key(nm));
                } else if !old(self).name_index@.contains_key(nm) {
                    assert(ids_named(old_names, nm, id as nat) =~= Seq::<usize>::empty());
                }
            }
        }
        id
    }
    /// Returns the id of the route named `name`, adding the route when it is new.
    pub fn get_or_add_route(&mut self, name: &str) -> (id: usize)
        requires
            old(self).wf(),
            old(self).route_names@.len() < usize::MAX,
        ensures
            final(self).wf(),
            final(self).vertices@ == old(self).vertices@,
            final(self).adjacency() == old(self).adjacency(),
            final(self).name_index@ == old(self).name_index@,
            old(self).routes().contains(name@) ==> {
                &&& final(self).routes() == old(self).routes()
                &&& id == old(self).route_ids@[name@]
            },
            !old(self).routes().contains(name@) ==> {
                &&& final(self).routes() == old(self).routes().push(name@)
                &&& id == old(self).routes().len()
            },
            id < final(self).routes().len(),
            final(self).routes()[id as int] == name@,
    {
        match self.route_ids.get(name) {
            Some(id) => *id,
            None => {
                let id = self.route_names.len();
                self.route_names.push(String::from_str(name));
                self.route_ids.insert(String::from_str(name), id);
                proof {
                    assert(self.routes() =~= old(self).routes().push(name@));
                    assert(self.names() =~= old(self).names());
                    assert(self.adjacency() =~= old(self).adjacency());
                    assert forall|j: int, k: int|
                        0 <= j < self.routes().len() && 0 <= k < self.routes().len() && j != k
                        implies #[trigger] self.routes()[j] != #[trigger] self.routes()[k] by {
                        if j == id {
                            assert(old(self).routes()[k] == self.routes()[k]);
                        } else if k == id {
                            assert(old(self).routes()[j] == self.routes()[j]);
                        }
                    }
                    assert forall|nm: Seq<char>|
                        #[trigger] self.route_ids@.contains_key(nm) <==> self.routes().contains(nm) by {
                        assert(self.routes()[id as int] == name@);
                        if old(self).routes().contains(nm) {
                            let j = choose|j: int| 0 <= j < old(self).routes().len() && old(self).routes()[j] == nm;
                            assert(self.routes()[j] == nm);
                        }
                        if self.routes().contains(nm) && nm != name@ {
                            let j = choose|j: int| 0 <= j < self.routes().len() && self.routes()[j] == nm;
                            assert(old(self).routes()[j] == nm);
                        }
                    }
                }
                id
            },
        }
    }

    /// A route's id is its position in the route list: once `get_or_add_route`
    /// has given `id` for `name`, a later call for `name` gives `id` again and
    /// adds no route.
    pub proof fn lemma_route_id_is_position(&self, name: Seq<char>, id: usize)
        requires
            self.wf(),
            id < self.routes().len(),
            self.routes()[id as int] == name,
        ensures
            self.routes().contains(name),
            self.route_ids@.contains_key(name),
            self.route_ids@[name] == id,
    {
        assert(self.routes().contains(name));
        assert(self.route_ids@.contains_key(name));
        let j = self.route_ids@[name] as int;
        assert(self.routes()[j] == name);
        if j != id as int {
            assert(self.routes()[j] != self.routes()[id as int]);
        }
    }

    /// Adds the edge `v1 -> v2` and the edge `v2 -> v1`, both `distance` long.
    pub fn add_undirected_edge(&mut self, v1: usize, v2: usize, route_id: usize, distance: u64)
        requires
            old(self).wf(),
            v1 < old(self).vertices@.len(),
            v2 < old(self).vertices@.len(),
            route_id < old(self).route_names@.len(),
        ensures
            final(self).wf(),
            final(self).vertices@ == old(self).vertices@,
            final(self).routes() == old(self).routes(),
            final(self).route_ids@ == old(self).route_ids@,
            final(self).name_index@ == old(self).name_index@,
            ({
                let a = old(self).adjacency();
                let e1 = Edge { target: v2, distance, route_id };
                let e2 = Edge { target: v1, distance, route_id };
                let mid = a.update(v1 as int, a[v1 as int].push(e1));
                final(self).adjacency() == mid.update(v2 as int, mid[v2 as int].push(e2))
            }),
    {
        self.add_directed_edge(v1, v2, route_id, distance);
        self.add_directed_edge(v2, v1, route_id, distance);
    }

    /// Adds the edge `from -> to`, `distance` long.
    pub fn add_directed_edge(&mut self, from: usize, to: usize, route_id: usize, distance: u64)
        requires
            old(self).wf(),
            from < old(self).vertices@.len(),
            to < old(self).vertices@.len(),
            route_id < old(self).route_names@.len(),
        ensures
            final(self).wf(),
            final(self).vertices@ == old(self).vertices@,
            final(self).routes() == old(self).routes(),
            final(self).route_ids@ == old(self).route_ids@,
            final(self).name_index@ == old(self).name_index@,
            final(self).adjacency() == old(self).adjacency().update(
                from as int,
                old(self).adjacency()[from as int].push(Edge { target: to, distance, route_id }),
            ),
    {
        let e = Edge { target: to, distance, route_id };
        self.edges[from].push(e);
        proof {
            assert(self.adjacency() =~= old(self).adjacency().update(
                from as int,
                old(self).adjacency()[from as int].push(e),
            ));
            assert(self.names() =~= old(self).names());
            assert(self.routes() =~= old(self).routes());
            assert forall|u: int, k: int|
                0 <= u < self.adjacency().len() && 0 <= k < self.adjacency()[u].len() implies {
                &&& (#[trigger] self.adjacency()[u][k]).target < self.vertices@.len()
                &&& self.adjacency()[u][k].route_id < self.route_names@.len()
            } by {
                if u != from || k < old(self).adjacency()[u].len() {
                    assert(self.adjacency()[u][k] == old(self).adjacency()[u][k]);
                }
            }
        }
    }

    /// The ids of the vertices named `name`, in increasing order.
    pub fn find_vertex_ids(&self, name: &str) -> (ids: Vec<usize>)
        requires
            self.wf(),
        ensures
            ids@ == ids_named(self.names(), name@, self.num_vertices()),
    {
        match self.name_index.get(name) {
            Some(v) => {
                let c = v.clone();
                assert(c@ =~= v@);
                c
            },
            None => {
                assert(ids_named(self.names(), name@, self.num_vertices()) =~= Seq::<usize>::empty());
                Vec::new()
            },
        }
    }

    /// The smallest id of a vertex named `name`.
    pub fn find_first_id(&self, name: &str) -> (id: Option<usize>)
        requires
            self.wf(),
        ensures
            ({
                let ids = ids_named(self.names(), name@, self.num_vertices());
                &&& id is None <==> ids.len() == 0
                &&& id matches Some(i) ==> i == ids[0]
            }),
    {
        match self.name_index.get(name) {
            Some(v) => {
                if v.len() > 0 {
                    Some(v[0])
                } else {
                    None
                }
            },
            None => None,
        }
    }

    /// For the step `u -> v` of a route: the airway and length of the
    /// chosen edge. Starting from `best`, scans the edges of `u` from index
    /// `i` on; an edge to `v` on an airway is taken at once, an edge to `v`
    /// on a terminal procedure is remembered and the scan goes on.
    pub open spec fn scan_leg(
        &self,
        u: int,
        v: usize,
        i: int,
        best_route: Seq<char>,
        best_dist: u64,
    ) -> (Seq<char>, u64)
        decreases self.adjacency()[u].len() - i,
    {
        if i < 0 || i >= self.adjacency()[u].len() {
            (best_route, best_dist)
        } else {
            let e = self.adjacency()[u][i];
            if e.target == v {
                let rn = self.routes()[e.route_id as int];
                if rn != sid_name() && rn != star_name() {
                    (rn, e.distance)
                } else {
                    self.scan_leg(u, v, i + 1, rn, e.distance)
                }
            } else {
                self.scan_leg(u, v, i + 1, best_route, best_dist)
            }
        }
    }

    /// Edge `k` of `u` leads to `v`.
    pub open spec fn edge_to(&self, u: int, v: usize, k: int) -> bool {
        0 <= k < self.adjacency()[u].len() && self.adjacency()[u][k].target == v
    }

    /// Edge `k` of `u` leads to `v` on an airway: a route other than SID and STAR.
    pub open spec fn airway_edge_to(&self, u: int, v: usize, k: int) -> bool {
        &&& self.edge_to(u, v, k)
        &&& self.routes()[self.adjacency()[u][k].route_id as int] != sid_name()
        &&& self.routes()[self.adjacency()[u][k].route_id as int] != star_name()
    }

    /// The route name and length of edge `k` of `u`.
    pub open spec fn edge_leg(&self, u: int, k: int) -> (Seq<char>, u64) {
        (self.routes()[self.adjacency()[u][k].route_id as int], self.adjacency()[u][k].distance)
    }

    /// The scan from edge `i` on takes the first edge to `v` on an airway;
    /// when there is none, the last edge to `v` (on SID or STAR); when no
    /// edge leads to `v`, what it started with.
    pub proof fn lemma_scan_leg_picks(&self, u: int, v: usize, i: int, best_route: Seq<char>, best_dist: u64)
        requires
            0 <= u < self.adjacency().len(),
            0 <= i,
        ensures
            ({
                let r = self.scan_leg(u, v, i, best_route, best_dist);
                &&& (exists|k: int| i <= k && #[trigger] self.airway_edge_to(u, v, k)) ==> exists|k: int|
                    {
                        &&& i <= k
                        &&& #[trigger] self.airway_edge_to(u, v, k)
                        &&& forall|j: int| i <= j < k ==> !#[trigger] self.airway_edge_to(u, v, j)
                        &&& r == self.edge_leg(u, k)
                    }
                &&& (!exists|k: int| i <= k && #[trigger] self.airway_edge_to(u, v, k)) && (exists|k: int|
                    i <= k && #[trigger] self.edge_to(u, v, k)) ==> exists|k: int|
                    {
                        &&& i <= k
                        &&& #[trigger] self.edge_to(u, v, k)
                        &&& forall|j: int| k < j ==> !#[trigger] self.edge_to(u, v, j)
                        &&& r == self.edge_leg(u, k)
                    }
                &&& (!exists|k: int| i <= k && #[trigger] self.edge_to(u, v, k)) ==> r == (best_route, best_dist)
            }),
        decreases self.adjacency()[u].len() - i,
    {
        let len = self.adjacency()[u].len();
        if i >= len {
            assert forall|k: int| i <= k implies !#[trigger] self.edge_to(u, v, k) by {}
            assert forall|k: int| i <= k implies !#[trigger] self.airway_edge_to(u, v, k) by {}
        } else {
            let e = self.adjacency()[u][i];
            if e.target == v {
                let rn = self.routes()[e.route_id as int];
                assert(self.edge_to(u, v, i));
                if rn != sid_name() && rn != star_name() {
                    assert(self.airway_edge_to(u, v, i));
                } else {
                    self.lemma_scan_leg_picks(u, v, i + 1, rn, e.distance);
                    assert(!self.airway_edge_to(u, v, i));
                    assert forall|k: int| i <= k && #[trigger] self.airway_edge_to(u, v, k) implies i + 1 <= k by {}
                    if !exists|k: int| i + 1 <= k && #[trigger] self.edge_to(u, v, k) {
                        assert forall|j: int| i < j implies !#[trigger] self.edge_to(u, v, j) by {}
                    }
                }
            } else {
                self.lemma_scan_leg_picks(u, v, i + 1, best_route, best_dist);
                assert(!self.edge_to(u, v, i));
                assert forall|k: int| i <= k && #[trigger] self.airway_edge_to(u, v, k) implies i + 1 <= k by {}
                assert forall|k: int| i <= k && #[trigger] self.edge_to(u, v, k) implies i + 1 <= k by {}
            }
        }
    }

    /// The leg from `path[i]` to `path[i + 1]`: the two names, the airway
    /// (or SID, STAR or DCT when no named edge joins them) and the length.
    pub open spec fn spec_leg(&self, path: Seq<usize>, i: int, dep_vid: usize, arr_vid: usize) -> (
        Seq<char>,
        Seq<char>,
        Seq<char>,
        u64,
    ) {
        let u = path[i];
        let v = path[i + 1];
        let (rn, d) = self.scan_leg(u as int, v, 0, Seq::empty(), 0);
        let route = if rn.len() > 0 {
            rn
        } else if u == dep_vid {
            sid_name()
        } else if v == arr_vid {
            star_name()
        } else {
            dct_name()
        };
        (self.names()[u as int], self.names()[v as int], route, d)
    }

    /// Splits a route of vertices into legs between consecutive vertices.
    pub fn extract_legs(&self, path: &Vec<usize>, dep_vid: usize, arr_vid: usize) -> (legs: Vec<
        (String, String, String, u64),
    >)
        requires
            self.wf(),
            forall|i: int| 0 <= i < path@.len() ==> #[trigger] path@[i] < self.num_vertices(),
        ensures
            legs@.len() == if path@.len() == 0 {
                0
            } else {
                path@.len() - 1
            },
            forall|i: int|
                0 <= i < legs@.len() ==> {
                    let l = #[trigger] legs@[i];
                    (l.0@, l.1@, l.2@, l.3) == self.spec_leg(path@, i, dep_vid, arr_vid)
                },
    {
        let mut legs: Vec<(String, String, String, u64)> = Vec::new();
        let sid = String::from_str("SID");
        let star = String::from_str("STAR");
        proof {
            reveal_strlit("SID");
            reveal_strlit("STAR");
            reveal_strlit("DCT");
        }
        let count = if path.len() == 0 {
            0
        } else {
            path.len() - 1
        };
        let mut i: usize = 0;
        while i < count
            invariant
                self.wf(),
                forall|j: int| 0 <= j < path@.len() ==> #[trigger] path@[j] < self.num_vertices(),
                count == if path@.len() == 0 {
                    0
                } else {
                    path@.len() - 1
                },
                i <= count,
                legs@.len() == i,
                sid@ == sid_name(),
                star@ == star_name(),
                forall|j: int|
                    0 <= j < legs@.len() ==> {
                        let l = #[trigger] legs@[j];
                        (l.0@, l.1@, l.2@, l.3) == self.spec_leg(path@, j, dep_vid, arr_vid)
                    },
            decreases count - i,
        {
            let u = path[i];
            let v = path[i + 1];
            let is_first = u == dep_vid;
            let is_last = v == arr_vid;
            let mut best_route = String::new();
            let mut best_dist: u64 = 0;
            let deg = self.edges[u].len();
            let mut k: usize = 0;
            while k < deg
                invariant
                    self.wf(),
                    u < self.num_vertices(),
                    deg == self.adjacency()[u as int].len(),
                    k <= deg,
                    sid@ == sid_name(),
                    star@ == star_name(),
                    self.scan_leg(u as int, v, 0, Seq::empty(), 0) == self.scan_leg(
                        u as int,
                        v,
                        k as int,
                        best_route@,
                        best_dist,
                    ),
                ensures
                    self.scan_leg(u as int, v, 0, Seq::empty(), 0) == (best_route@, best_dist),
                decreases deg - k,
            {
                let e = self.edges[u][k];
                assert(e == self.adjacency()[u as int][k as int]);
                if e.target == v {
                    let rn = &self.route_names[e.route_id];
                    assert(rn@ == self.routes()[e.route_id as int]);
                    best_dist = e.distance;
                    if !(*rn == sid) && !(*rn == star) {
                        best_route = rn.clone();
                        break;
                    } else {
                        best_route = rn.clone();
                    }
                }
                k += 1;
            }
            let ghost scanned = best_route@;
            proof {
                reveal_strlit("SID");
                reveal_strlit("STAR");
                reveal_strlit("DCT");
            }
            if best_route.as_str().unicode_len() == 0 {
                if is_first {
                    best_route = String::from_str("SID");
                } else if is_last {
                    best_route = String::from_str("STAR");
                } else {
                    best_route = String::from_str("DCT");
                }
            }
            let ghost old_legs = legs@;
            let from_name = self.vertices[u].name.clone();
            let to_name = self.vertices[v].name.clone();
            proof {
                assert(from_name@ == self.names()[u as int]);
                assert(to_name@ == self.names()[v as int]);
                assert(path@[i as int] == u);
                assert(path@[i + 1] == v);
                assert(scanned.len() > 0 ==> best_route@ == scanned);
                assert(scanned.len() == 0 && is_first ==> best_route@ == sid_name());
                assert(scanned.len() == 0 && !is_first && is_last ==> best_route@ == star_name());
                assert(scanned.len() == 0 && !is_first && !is_last ==> best_route@ == dct_name());
                assert((from_name@, to_name@, best_route@, best_dist) == self.spec_leg(path@, i as int, dep_vid, arr_vid));
            }
            legs.push((from_name, to_name, best_route, best_dist));
            proof {
                assert forall|j: int| 0 <= j < legs@.len() implies {
                    let l = #[trigger] legs@[j];
                    (l.0@, l.1@, l.2@, l.3) == self.spec_leg(path@, j, dep_vid, arr_vid)
                } by {
                    if j < i {
                        assert(legs@[j] == old_legs[j]);
                    }
                }
            }
            i += 1;
        }
        legs
    }

    /// Consecutive legs of a route meet: each leg ends where the next begins.
    pub proof fn lemma_legs_connect(&self, path: Seq<usize>, i: int, dep_vid: usize, arr_vid: usize)
        requires
            0 <= i,
            i + 2 < path.len(),
        ensures
            self.spec_leg(path, i, dep_vid, arr_vid).1 == self.spec_leg(path, i + 1, dep_vid, arr_vid).0,
    {
    }
}

} // verus!
