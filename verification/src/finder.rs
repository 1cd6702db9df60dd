//! Route assembly: route text, legs and waypoints of a planned route.

use vstd::prelude::*;
use vstd::string::*;
use crate::models::Leg;
use crate::graph::{Edge, Graph, Vec3, ids_named, sid_name, star_name, dct_name};
use crate::search::{is_walk, walk_cost, walk_vertices, reachable, takes_shortest_edges};
use std::collections::{HashMap, HashSet};

verus! {

/// The words joined by single spaces.
pub open spec fn join_words(parts: Seq<Seq<char>>) -> Seq<char>
    decreases parts.len(),
{
    if parts.len() == 0 {
        Seq::empty()
    } else if parts.len() == 1 {
        parts[0]
    } else {
        join_words(parts.drop_last()) + seq![' '] + parts.last()
    }
}

/// Words of the route text after reading legs `0..k` (`k >= 1`), with the
/// airway last written. A leg whose airway equals the last written one adds
/// nothing, so a run of legs on one airway is written once; otherwise the
/// leg's start and its airway are written.
pub open spec fn airway_words(legs: Seq<Leg>, k: nat) -> (Seq<Seq<char>>, Seq<char>)
    decreases k,
{
    if k <= 1 {
        (seq![legs[0].from_name@, legs[0].route@], legs[0].route@)
    } else {
        let (words, last) = airway_words(legs, (k - 1) as nat);
        let r = legs[k - 1].route@;
        if r == last {
            (words, last)
        } else {
            (words.push(legs[k - 2].to_name@).push(r), r)
        }
    }
}

/// The airway last written is the airway of the last leg read, so a leg adds
/// words exactly when its airway differs from the previous leg's: then it
/// adds its start and its airway, and a run of legs on one airway is
/// written once.
pub proof fn lemma_airway_words_runs(legs: Seq<Leg>, k: nat)
    requires
        1 <= k < legs.len(),
    ensures
        airway_words(legs, k).1 == legs[k - 1].route@,
        airway_words(legs, k + 1).0 == if legs[k as int].route@ == legs[k - 1].route@ {
            airway_words(legs, k).0
        } else {
            airway_words(legs, k).0 + seq![legs[k - 1].to_name@, legs[k as int].route@]
        },
    decreases k,
{
    if k > 1 {
        lemma_airway_words_runs(legs, (k - 1) as nat);
    }
    assert(airway_words(legs, k).0.push(legs[k - 1].to_name@).push(legs[k as int].route@) =~= airway_words(legs, k).0
        + seq![legs[k - 1].to_name@, legs[k as int].route@]);
}

/// Words of the route text: empty for no leg, `from route to` for one leg,
/// and otherwise the first waypoint, the airways each with the waypoint where
/// it is joined, and the last waypoint.
pub open spec fn route_words(legs: Seq<Leg>) -> Seq<Seq<char>> {
    if legs.len() == 0 {
        Seq::empty()
    } else if legs.len() == 1 {
        seq![legs[0].from_name@, legs[0].route@, legs[0].to_name@]
    } else {
        airway_words(legs, legs.len()).0.push(legs.last().to_name@)
    }
}

/// The route text of a list of legs.
pub open spec fn route_text(legs: Seq<Leg>) -> Seq<char> {
    join_words(route_words(legs))
}

/// Joins the words with single spaces.
pub fn join_with_spaces(parts: &Vec<String>) -> (s: String)
    ensures
        s@ == join_words(parts@.map_values(|p: String| p@)),
{
    let ghost views = parts@.map_values(|p: String| p@);
    let mut s = String::new();
    let mut i: usize = 0;
    proof {
        reveal_strlit(" ");
        assert(views.take(0) =~= Seq::<Seq<char>>::empty());
    }
    while i < parts.len()
        invariant
            i <= parts@.len(),
            views == parts@.map_values(|p: String| p@),
            s@ == join_words(views.take(i as int)),
            " "@ == seq![' '],
        decreases parts@.len() - i,
    {
        assert(views.take(i + 1).drop_last() =~= views.take(i as int));
        if i > 0 {
            s.append(" ");
        }
        s.append(parts[i].as_str());
        i += 1;
    }
    assert(views.take(parts@.len() as int) =~= views);
    s
}

/// The route text of a list of legs, as in "ZBAA SID DUGEB W40 BTO A461 LIG STAR ZGGG".
pub fn generate_route_string(legs: &[Leg]) -> (s: String)
    ensures
        s@ == route_text(legs@),
{
    if legs.len() == 0 {
        return String::new();
    }
    let mut parts: Vec<String> = Vec::new();
    if legs.len() == 1 {
        parts.push(legs[0].from_name.clone());
        parts.push(legs[0].route.clone());
        parts.push(legs[0].to_name.clone());
        assert(parts@.map_values(|p: String| p@) =~= route_words(legs@));
        return join_with_spaces(&parts);
    }
    parts.push(legs[0].from_name.clone());
    parts.push(legs[0].route.clone());
    let mut last = legs[0].route.clone();
    let mut i: usize = 1;
    assert(parts@.map_values(|p: String| p@) =~= airway_words(legs@, 1).0);
    while i < legs.len()
        invariant
            1 <= i <= legs@.len(),
            parts@.map_values(|p: String| p@) == airway_words(legs@, i as nat).0,
            last@ == airway_words(legs@, i as nat).1,
        decreases legs@.len() - i,
    {
        if legs[i].route == last {
            i += 1;
            continue;
        }
        last = legs[i].route.clone();
        parts.push(legs[i - 1].to_name.clone());
        parts.push(legs[i].route.clone());
        assert(parts@.map_values(|p: String| p@) =~= airway_words(legs@, (i + 1) as nat).0);
        i += 1;
    }
    parts.push(legs[legs.len() - 1].to_name.clone());
    assert(parts@.map_values(|p: String| p@) =~= route_words(legs@));
    join_with_spaces(&parts)
}


/// The route names with `name` added at the end when it is not there yet.
pub open spec fn with_route(routes: Seq<Seq<char>>, name: Seq<char>) -> Seq<Seq<char>> {
    if routes.contains(name) {
        routes
    } else {
        routes.push(name)
    }
}

/// The airway network: the graph, the vertex of each waypoint and airport
/// id of the navigation database, and the airport vertices already joined
/// to the fixes of their terminal procedures.
pub struct NavNetwork {
    pub graph: Graph,
    pub wpt_id_to_vid: HashMap<i32, usize>,
    pub airport_id_to_vid: HashMap<i32, usize>,
    pub attached: HashSet<usize>,
}

impl NavNetwork {
    /// The graph is well formed and the id maps point at its vertices.
    pub open spec fn wf(&self) -> bool {
        &&& self.graph.wf()
        &&& forall|id: i32| #[trigger] self.wpt_id_to_vid@.contains_key(id) ==> self.wpt_id_to_vid@[id] < self.graph.num_vertices()
        &&& forall|id: i32| #[trigger] self.airport_id_to_vid@.contains_key(id) ==> self.airport_id_to_vid@[id] < self.graph.num_vertices()
    }

    /// An empty network.
    pub fn new() -> (net: NavNetwork)
        ensures
            net.wf(),
            net.graph.num_vertices() == 0,
            net.graph.routes().len() == 0,
            net.wpt_id_to_vid@ == Map::<i32, usize>::empty(),
            net.airport_id_to_vid@ == Map::<i32, usize>::empty(),
            net.attached@ == Set::<usize>::empty(),
    {
        NavNetwork {
            graph: Graph::new(),
            wpt_id_to_vid: HashMap::new(),
            airport_id_to_vid: HashMap::new(),
            attached: HashSet::new(),
        }
    }

    /// Adds the airport `id` as a vertex named `icao`.
    pub fn add_airport(&mut self, id: i32, icao: &str, pos: Vec3) -> (vid: usize)
        requires
            old(self).wf(),
            pos.valid(),
            old(self).graph.num_vertices() < usize::MAX,
        ensures
            final(self).wf(),
            vid == old(self).graph.num_vertices(),
            final(self).graph.num_vertices() == vid + 1,
            final(self).graph.names() == old(self).graph.names().push(icao@),
            final(self).graph.vertices@[vid as int].pos3 == pos,
            forall|i: int| 0 <= i < vid ==> #[trigger] final(self).graph.vertices@[i] == old(self).graph.vertices@[i],
            final(self).graph.adjacency() == old(self).graph.adjacency().push(Seq::empty()),
            final(self).graph.routes() == old(self).graph.routes(),
            final(self).airport_id_to_vid@ == old(self).airport_id_to_vid@.insert(id, vid),
            final(self).wpt_id_to_vid@ == old(self).wpt_id_to_vid@,
            final(self).attached@ == old(self).attached@,
    {
        broadcast use vstd::std_specs::hash::group_hash_axioms;
        let ghost old_names = self.graph.names();
        let vid = self.graph.add_vertex(icao, pos);
        self.airport_id_to_vid.insert(id, vid);
        assert(self.graph.names() =~= old_names.push(icao@));
        vid
    }

    /// Adds the waypoint `id` as a vertex named `ident`.
    pub fn add_waypoint(&mut self, id: i32, ident: &str, pos: Vec3) -> (vid: usize)
        requires
            old(self).wf(),
            pos.valid(),
            old(self).graph.num_vertices() < usize::MAX,
        ensures
            final(self).wf(),
            vid == old(self).graph.num_vertices(),
            final(self).graph.num_vertices() == vid + 1,
            final(self).graph.names() == old(self).graph.names().push(ident@),
            final(self).graph.vertices@[vid as int].pos3 == pos,
            forall|i: int| 0 <= i < vid ==> #[trigger] final(self).graph.vertices@[i] == old(self).graph.vertices@[i],
            final(self).graph.adjacency() == old(self).graph.adjacency().push(Seq::empty()),
            final(self).graph.routes() == old(self).graph.routes(),
            final(self).wpt_id_to_vid@ == old(self).wpt_id_to_vid@.insert(id, vid),
            final(self).airport_id_to_vid@ == old(self).airport_id_to_vid@,
            final(self).attached@ == old(self).attached@,
    {
        broadcast use vstd::std_specs::hash::group_hash_axioms;
        let ghost old_names = self.graph.names();
        let vid = self.graph.add_vertex(ident, pos);
        self.wpt_id_to_vid.insert(id, vid);
        assert(self.graph.names() =~= old_names.push(ident@));
        vid
    }

    /// The vertex of the waypoint `id`.
    pub fn waypoint_vertex(&self, id: i32) -> (vid: Option<usize>)
        requires
            self.wf(),
        ensures
            vid is Some <==> self.wpt_id_to_vid@.contains_key(id),
            vid matches Some(v) ==> v == self.wpt_id_to_vid@[id] && v < self.graph.num_vertices(),
    {
        broadcast use vstd::std_specs::hash::group_hash_axioms;
        match self.wpt_id_to_vid.get(&id) {
            Some(v) => Some(*v),
            None => None,
        }
    }

    /// Joins the waypoints `w1` and `w2` both ways along `airway`, when both
    /// are known; returns whether they were.
    pub fn connect_waypoints(&mut self, airway: &str, w1: i32, w2: i32, distance: u64) -> (added: bool)
        requires
            old(self).wf(),
            old(self).graph.route_names@.len() < usize::MAX,
        ensures
            final(self).wf(),
            added == (old(self).wpt_id_to_vid@.contains_key(w1) && old(self).wpt_id_to_vid@.contains_key(w2)),
            final(self).graph.names() == old(self).graph.names(),
            final(self).wpt_id_to_vid@ == old(self).wpt_id_to_vid@,
            final(self).airport_id_to_vid@ == old(self).airport_id_to_vid@,
            final(self).attached@ == old(self).attached@,
            !added ==> final(self).graph.adjacency() == old(self).graph.adjacency()
                && final(self).graph.routes() == old(self).graph.routes(),
            added ==> {
                let v1 = old(self).wpt_id_to_vid@[w1];
                let v2 = old(self).wpt_id_to_vid@[w2];
                let r = final(self).graph.routes();
                let a = old(self).graph.adjacency();
                &&& (old(self).graph.routes().contains(airway@) ==> r == old(self).graph.routes())
                &&& (!old(self).graph.routes().contains(airway@) ==> r == old(self).graph.routes().push(airway@))
                &&& exists|rid: usize| {
                    &&& rid < r.len()
                    &&& r[rid as int] == airway@
                    &&& ({
                        let e1 = Edge { target: v2, distance, route_id: rid };
                        let e2 = Edge { target: v1, distance, route_id: rid };
                        let mid = a.update(v1 as int, a[v1 as int].push(e1));
                        final(self).graph.adjacency() == mid.update(v2 as int, mid[v2 as int].push(e2))
                    })
                }
            },
    {
        broadcast use vstd::std_specs::hash::group_hash_axioms;
        let v1 = match self.wpt_id_to_vid.get(&w1) {
            Some(v) => *v,
            None => return false,
        };
        let v2 = match self.wpt_id_to_vid.get(&w2) {
            Some(v) => *v,
            None => return false,
        };
        let ghost old_names = self.graph.names();
        let rid = self.graph.get_or_add_route(airway);
        self.graph.add_undirected_edge(v1, v2, rid, distance);
        assert(self.graph.names() =~= old_names);
        true
    }

    /// Adds the pseudo routes `DCT`, `SID` and `STAR`, those not there yet.
    pub fn add_pseudo_routes(&mut self)
        requires
            old(self).wf(),
            old(self).graph.route_names@.len() + 3 < usize::MAX,
        ensures
            final(self).wf(),
            final(self).graph.names() == old(self).graph.names(),
            final(self).graph.adjacency() == old(self).graph.adjacency(),
            final(self).wpt_id_to_vid@ == old(self).wpt_id_to_vid@,
            final(self).airport_id_to_vid@ == old(self).airport_id_to_vid@,
            final(self).attached@ == old(self).attached@,
            final(self).graph.routes() == with_route(
                with_route(with_route(old(self).graph.routes(), dct_name()), sid_name()),
                star_name(),
            ),
            final(self).graph.routes().contains(dct_name()),
            final(self).graph.routes().contains(sid_name()),
            final(self).graph.routes().contains(star_name()),
    {
        let ghost old_names = self.graph.names();
        proof {
            reveal_strlit("DCT");
            reveal_strlit("SID");
            reveal_strlit("STAR");
        }
        let d = self.graph.get_or_add_route("DCT");
        let ghost r1 = self.graph.routes();
        let s = self.graph.get_or_add_route("SID");
        let ghost r2 = self.graph.routes();
        let t = self.graph.get_or_add_route("STAR");
        proof {
            assert(self.graph.names() =~= old_names);
            assert(self.graph.routes()[t as int] == star_name());
            assert(r2[s as int] == sid_name());
            assert(r1[d as int] == dct_name());
            assert(r2.len() <= self.graph.routes().len());
            assert(self.graph.routes()[s as int] == sid_name());
            assert(self.graph.routes()[d as int] == dct_name());
        }
    }
}


/// The edges joining the airport vertex `av` to those procedure fixes that
/// have a length, in order: `av -> fix` when `outbound`, `fix -> av`
/// otherwise.
pub open spec fn procedure_edges(av: usize, fixes: Seq<(usize, Option<u64>)>, outbound: bool) -> Seq<(usize, usize, u64)>
    decreases fixes.len(),
{
    if fixes.len() == 0 {
        Seq::empty()
    } else {
        let rest = procedure_edges(av, fixes.drop_last(), outbound);
        let fix = fixes.last().0;
        match fixes.last().1 {
            Some(d) => rest.push(
                if outbound {
                    (av, fix, d)
                } else {
                    (fix, av, d)
                },
            ),
            None => rest,
        }
    }
}

/// The adjacency after adding the listed edges `(from, to, length)` in
/// order, all on route `rid`.
pub open spec fn with_edges(adj: Seq<Seq<Edge>>, edges: Seq<(usize, usize, u64)>, rid: usize) -> Seq<Seq<Edge>>
    decreases edges.len(),
{
    if edges.len() == 0 {
        adj
    } else {
        let before = with_edges(adj, edges.drop_last(), rid);
        let (from, to, d) = edges.last();
        before.update(from as int, before[from as int].push(Edge { target: to, distance: d, route_id: rid }))
    }
}

/// The edge that a procedure fix with a length gives: from the airport
/// `av` to the fix when `outbound`, from the fix to the airport otherwise.
pub open spec fn fix_edge(av: usize, outbound: bool, f: (usize, Option<u64>)) -> Option<(usize, usize, u64)> {
    match f.1 {
        Some(d) => Some(
            if outbound {
                (av, f.0, d)
            } else {
                (f.0, av, d)
            },
        ),
        None => None,
    }
}

/// Every fix with a length gives exactly one edge, in the order of the
/// fixes, and a fix without a length gives none: the edges are the fixes'
/// edges with the lengthless fixes dropped. So each fix `i` with length `d`
/// is joined, `av -> fix` (outbound) or `fix -> av`, by an edge of length `d`.
pub proof fn lemma_procedure_edges_one_per_fix(av: usize, fixes: Seq<(usize, Option<u64>)>, outbound: bool)
    ensures
        procedure_edges(av, fixes, outbound) == fixes.filter_map(|f: (usize, Option<u64>)| fix_edge(av, outbound, f)),
        forall|i: int|
            0 <= i < fixes.len() && (#[trigger] fixes[i]).1 is Some ==> procedure_edges(av, fixes, outbound).contains(
                if outbound {
                    (av, fixes[i].0, fixes[i].1->Some_0)
                } else {
                    (fixes[i].0, av, fixes[i].1->Some_0)
                },
            ),
        forall|k: int|
            0 <= k < procedure_edges(av, fixes, outbound).len() ==> if outbound {
                (#[trigger] procedure_edges(av, fixes, outbound)[k]).0 == av
            } else {
                procedure_edges(av, fixes, outbound)[k].1 == av
            },
    decreases fixes.len(),
{
    let pe = procedure_edges(av, fixes, outbound);
    if fixes.len() > 0 {
        let rest = fixes.drop_last();
        lemma_procedure_edges_one_per_fix(av, rest, outbound);
        let pr = procedure_edges(av, rest, outbound);
        assert forall|i: int|
            0 <= i < fixes.len() && (#[trigger] fixes[i]).1 is Some implies pe.contains(
                if outbound {
                    (av, fixes[i].0, fixes[i].1->Some_0)
                } else {
                    (fixes[i].0, av, fixes[i].1->Some_0)
                },
            ) by {
            let e = if outbound {
                (av, fixes[i].0, fixes[i].1->Some_0)
            } else {
                (fixes[i].0, av, fixes[i].1->Some_0)
            };
            if i == fixes.len() - 1 {
                assert(pe[pr.len() as int] == e);
            } else {
                assert(rest[i] == fixes[i]);
                assert(pr.contains(e));
                let k = choose|k: int| 0 <= k < pr.len() && pr[k] == e;
                assert(pe[k] == e);
            }
        }
        assert forall|k: int| 0 <= k < pe.len() implies if outbound {
            (#[trigger] pe[k]).0 == av
        } else {
            pe[k].1 == av
        } by {
            if k < pr.len() {
                assert(pe[k] == pr[k]);
            }
        }
        match fix_edge(av, outbound, fixes.last()) {
            Some(x) => {
                assert(pe =~= pr + seq![x]);
            },
            None => {},
        }
    }
}

/// Adding edges on route `rid` appends to each vertex's edges exactly the
/// listed edges that leave it, in order, and changes nothing else.
pub proof fn lemma_with_edges_per_vertex(adj: Seq<Seq<Edge>>, edges: Seq<(usize, usize, u64)>, rid: usize, u: int)
    requires
        0 <= u < adj.len(),
        forall|k: int| 0 <= k < edges.len() ==> (#[trigger] edges[k]).0 < adj.len(),
    ensures
        with_edges(adj, edges, rid).len() == adj.len(),
        with_edges(adj, edges, rid)[u] == adj[u] + edges.filter_map(
            |e: (usize, usize, u64)|
                if e.0 as int == u {
                    Some(Edge { target: e.1, distance: e.2, route_id: rid })
                } else {
                    None
                },
        ),
    decreases edges.len(),
{
    let f = |e: (usize, usize, u64)|
        if e.0 as int == u {
            Some(Edge { target: e.1, distance: e.2, route_id: rid })
        } else {
            None
        };
    if edges.len() == 0 {
        assert(adj[u] + edges.filter_map(f) =~= adj[u]);
    } else {
        let rest = edges.drop_last();
        assert forall|k: int| 0 <= k < rest.len() implies (#[trigger] rest[k]).0 < adj.len() by {
            assert(rest[k] == edges[k]);
        }
        lemma_with_edges_per_vertex(adj, rest, rid, u);
        assert(edges.last() == edges[edges.len() - 1]);
        let (from, to, d) = edges.last();
        if from as int == u {
            assert(adj[u] + edges.filter_map(f) =~= (adj[u] + rest.filter_map(f)).push(
                Edge { target: to, distance: d, route_id: rid },
            ));
        } else {
            assert(edges.filter_map(f) == rest.filter_map(f));
        }
    }
}

proof fn lemma_with_edges_keeps(adj: Seq<Seq<Edge>>, edges: Seq<(usize, usize, u64)>, rid: usize, u: int, e: Edge)
    requires
        0 <= u < adj.len(),
        forall|k: int| 0 <= k < edges.len() ==> (#[trigger] edges[k]).0 < adj.len(),
        adj[u].contains(e),
    ensures
        with_edges(adj, edges, rid)[u].contains(e),
    decreases edges.len(),
{
    if edges.len() > 0 {
        let rest = edges.drop_last();
        assert forall|k: int| 0 <= k < rest.len() implies (#[trigger] rest[k]).0 < adj.len() by {
            assert(rest[k] == edges[k]);
        }
        lemma_with_edges_keeps(adj, rest, rid, u, e);
        lemma_with_edges_per_vertex(adj, rest, rid, u);
        let before = with_edges(adj, rest, rid);
        let j = choose|j: int| 0 <= j < before[u].len() && before[u][j] == e;
        assert(edges.last() == edges[edges.len() - 1]);
        let (from, to, d) = edges.last();
        if from as int == u {
            assert(with_edges(adj, edges, rid)[u][j] == e);
        }
    }
}

proof fn lemma_with_edges_adds(adj: Seq<Seq<Edge>>, edges: Seq<(usize, usize, u64)>, rid: usize, k: int)
    requires
        forall|m: int| 0 <= m < edges.len() ==> (#[trigger] edges[m]).0 < adj.len(),
        0 <= k < edges.len(),
    ensures
        with_edges(adj, edges, rid)[edges[k].0 as int].contains(
            Edge { target: edges[k].1, distance: edges[k].2, route_id: rid },
        ),
    decreases edges.len(),
{
    let rest = edges.drop_last();
    assert forall|m: int| 0 <= m < rest.len() implies (#[trigger] rest[m]).0 < adj.len() by {
        assert(rest[m] == edges[m]);
    }
    let e = Edge { target: edges[k].1, distance: edges[k].2, route_id: rid };
    let u = edges[k].0 as int;
    lemma_with_edges_per_vertex(adj, rest, rid, u);
    let before = with_edges(adj, rest, rid);
    assert(edges.last() == edges[edges.len() - 1]);
    let (from, to, d) = edges.last();
    if k == edges.len() - 1 {
        assert(with_edges(adj, edges, rid)[u][before[u].len() as int] == e);
    } else {
        assert(rest[k] == edges[k]);
        lemma_with_edges_adds(adj, rest, rid, k);
        let j = choose|j: int| 0 <= j < before[u].len() && before[u][j] == e;
        if from as int == u {
            assert(with_edges(adj, edges, rid)[u][j] == e);
        }
    }
}

/// Joining an airport to its procedure fixes gives, for each departure fix
/// with a length `d`, an edge from the airport to the fix of length `d` on
/// the route `SID`, and for each arrival fix with a length `d`, an edge
/// from the fix to the airport of length `d` on the route `STAR`.
pub proof fn lemma_procedure_edges_joined(
    adj: Seq<Seq<Edge>>,
    route_ids: Map<Seq<char>, usize>,
    av: usize,
    sid_fixes: Seq<(usize, Option<u64>)>,
    star_fixes: Seq<(usize, Option<u64>)>,
)
    requires
        av < adj.len(),
        forall|i: int| 0 <= i < sid_fixes.len() ==> (#[trigger] sid_fixes[i]).0 < adj.len(),
        forall|i: int| 0 <= i < star_fixes.len() ==> (#[trigger] star_fixes[i]).0 < adj.len(),
        route_ids.contains_key(sid_name()),
        route_ids.contains_key(star_name()),
    ensures
        forall|i: int|
            0 <= i < sid_fixes.len() && (#[trigger] sid_fixes[i]).1 is Some ==> with_procedure_edges(
                adj,
                route_ids,
                av,
                sid_fixes,
                star_fixes,
            )[av as int].contains(
                Edge { target: sid_fixes[i].0, distance: sid_fixes[i].1->Some_0, route_id: route_ids[sid_name()] },
            ),
        forall|i: int|
            0 <= i < star_fixes.len() && (#[trigger] star_fixes[i]).1 is Some ==> with_procedure_edges(
                adj,
                route_ids,
                av,
                sid_fixes,
                star_fixes,
            )[star_fixes[i].0 as int].contains(
                Edge { target: av, distance: star_fixes[i].1->Some_0, route_id: route_ids[star_name()] },
            ),
{
    let se = procedure_edges(av, sid_fixes, true);
    let te = procedure_edges(av, star_fixes, false);
    let srid = route_ids[sid_name()];
    let trid = route_ids[star_name()];
    lemma_procedure_edges_one_per_fix(av, sid_fixes, true);
    lemma_procedure_edges_one_per_fix(av, star_fixes, false);
    assert forall|k: int| 0 <= k < se.len() implies (#[trigger] se[k]).0 < adj.len() by {}
    let a1 = with_edges(adj, se, srid);
    lemma_with_edges_per_vertex(adj, se, srid, 0);
    assert forall|k: int| 0 <= k < te.len() implies (#[trigger] te[k]).0 < a1.len() by {
        assert(te[k].1 == av);
        assert(te.contains(te[k]));
        lemma_procedure_edges_fixes_in_range(av, star_fixes, adj.len(), k);
    }
    assert forall|i: int|
        0 <= i < sid_fixes.len() && (#[trigger] sid_fixes[i]).1 is Some implies with_edges(a1, te, trid)[av as int].contains(
            Edge { target: sid_fixes[i].0, distance: sid_fixes[i].1->Some_0, route_id: srid },
        ) by {
        let x = (av, sid_fixes[i].0, sid_fixes[i].1->Some_0);
        assert(se.contains(x));
        let k = choose|k: int| 0 <= k < se.len() && se[k] == x;
        lemma_with_edges_adds(adj, se, srid, k);
        lemma_with_edges_keeps(a1, te, trid, av as int, Edge { target: sid_fixes[i].0, distance: sid_fixes[i].1->Some_0, route_id: srid });
    }
    assert forall|i: int|
        0 <= i < star_fixes.len() && (#[trigger] star_fixes[i]).1 is Some implies with_edges(a1, te, trid)[star_fixes[i].0 as int].contains(
            Edge { target: av, distance: star_fixes[i].1->Some_0, route_id: trid },
        ) by {
        let x = (star_fixes[i].0, av, star_fixes[i].1->Some_0);
        assert(te.contains(x));
        let k = choose|k: int| 0 <= k < te.len() && te[k] == x;
        lemma_with_edges_adds(a1, te, trid, k);
    }
}

proof fn lemma_procedure_edges_fixes_in_range(av: usize, fixes: Seq<(usize, Option<u64>)>, n: nat, k: int)
    requires
        av < n,
        forall|i: int| 0 <= i < fixes.len() ==> (#[trigger] fixes[i]).0 < n,
        0 <= k < procedure_edges(av, fixes, false).len(),
    ensures
        procedure_edges(av, fixes, false)[k].0 < n,
        procedure_edges(av, fixes, false)[k].1 < n,
    decreases fixes.len(),
{
    let rest = fixes.drop_last();
    let pr = procedure_edges(av, rest, false);
    assert forall|i: int| 0 <= i < rest.len() implies (#[trigger] rest[i]).0 < n by {
        assert(rest[i] == fixes[i]);
    }
    if k < pr.len() {
        lemma_procedure_edges_fixes_in_range(av, rest, n, k);
    } else {
        assert(fixes.last() == fixes[fixes.len() - 1]);
    }
}

/// The adjacency after the airport vertex `av` is joined to its procedure
/// fixes: departure fixes on the route `SID`, arrival fixes on `STAR`, each
/// side only when `route_ids` has its route.
pub open spec fn with_procedure_edges(
    adj: Seq<Seq<Edge>>,
    route_ids: Map<Seq<char>, usize>,
    av: usize,
    sid_fixes: Seq<(usize, Option<u64>)>,
    star_fixes: Seq<(usize, Option<u64>)>,
) -> Seq<Seq<Edge>> {
    let a1 = if route_ids.contains_key(sid_name()) {
        with_edges(adj, procedure_edges(av, sid_fixes, true), route_ids[sid_name()])
    } else {
        adj
    };
    if route_ids.contains_key(star_name()) {
        with_edges(a1, procedure_edges(av, star_fixes, false), route_ids[star_name()])
    } else {
        a1
    }
}

impl NavNetwork {
    /// Joins the airport vertex `av` to the fixes of its terminal
    /// procedures: each departure fix with a length by an edge from the
    /// airport on `SID`, each arrival fix with a length by an edge to the
    /// airport on `STAR`. A fix without a length (out of range, or off the
    /// bearing to the other end of the route) is left out, and so is a side
    /// whose pseudo route the graph lacks. An airport already joined is left
    /// as it is: its procedure edges are added once.
    pub fn attach_procedures(
        &mut self,
        av: usize,
        sid_fixes: &Vec<(usize, Option<u64>)>,
        star_fixes: &Vec<(usize, Option<u64>)>,
    )
        requires
            old(self).wf(),
            av < old(self).graph.num_vertices(),
            forall|i: int| 0 <= i < sid_fixes@.len() ==> (#[trigger] sid_fixes@[i]).0 < old(self).graph.num_vertices(),
            forall|i: int| 0 <= i < star_fixes@.len() ==> (#[trigger] star_fixes@[i]).0 < old(self).graph.num_vertices(),
        ensures
            final(self).wf(),
            final(self).graph.names() == old(self).graph.names(),
            final(self).graph.routes() == old(self).graph.routes(),
            final(self).graph.route_ids@ == old(self).graph.route_ids@,
            final(self).wpt_id_to_vid@ == old(self).wpt_id_to_vid@,
            final(self).airport_id_to_vid@ == old(self).airport_id_to_vid@,
            final(self).attached@ == old(self).attached@.insert(av),
            old(self).attached@.contains(av) ==> final(self).graph.adjacency() == old(self).graph.adjacency(),
            !old(self).attached@.contains(av) ==> final(self).graph.adjacency() == with_procedure_edges(
                old(self).graph.adjacency(),
                old(self).graph.route_ids@,
                av,
                sid_fixes@,
                star_fixes@,
            ),
    {
        broadcast use vstd::std_specs::hash::group_hash_axioms;
        if self.attached.contains(&av) {
            proof {
                assert(old(self).attached@.insert(av) =~= old(self).attached@);
            }
            return;
        }
        self.attached.insert(av);
        proof {
            reveal_strlit("SID");
            reveal_strlit("STAR");
            assert("SID"@ =~= sid_name());
            assert("STAR"@ =~= star_name());
        }
        let sid_rid = match self.graph.route_ids.get("SID") {
            Some(r) => Some(*r),
            None => None,
        };
        let star_rid = match self.graph.route_ids.get("STAR") {
            Some(r) => Some(*r),
            None => None,
        };
        if let Some(rid) = sid_rid {
            self.add_fix_edges(rid, av, sid_fixes, true);
        }
        if let Some(rid) = star_rid {
            self.add_fix_edges(rid, av, star_fixes, false);
        }
        assert(self.graph.names() =~= old(self).graph.names());
    }

    /// Whether the airport vertex `av` is already joined to its procedure fixes.
    pub fn is_attached(&self, av: usize) -> (b: bool)
        ensures
            b == self.attached@.contains(av),
    {
        broadcast use vstd::std_specs::hash::group_hash_axioms;
        self.attached.contains(&av)
    }

    /// Adds the edges `procedure_edges(av, fixes, outbound)` on route `rid`.
    fn add_fix_edges(&mut self, rid: usize, av: usize, fixes: &Vec<(usize, Option<u64>)>, outbound: bool)
        requires
            old(self).wf(),
            rid < old(self).graph.route_names@.len(),
            av < old(self).graph.num_vertices(),
            forall|i: int| 0 <= i < fixes@.len() ==> (#[trigger] fixes@[i]).0 < old(self).graph.num_vertices(),
        ensures
            final(self).wf(),
            final(self).graph.vertices@ == old(self).graph.vertices@,
            final(self).graph.routes() == old(self).graph.routes(),
            final(self).graph.route_names@.len() == old(self).graph.route_names@.len(),
            final(self).graph.route_ids@ == old(self).graph.route_ids@,
            final(self).wpt_id_to_vid@ == old(self).wpt_id_to_vid@,
            final(self).airport_id_to_vid@ == old(self).airport_id_to_vid@,
            final(self).attached@ == old(self).attached@,
            final(self).graph.adjacency() == with_edges(old(self).graph.adjacency(), procedure_edges(av, fixes@, outbound), rid),
    {
        let mut i: usize = 0;
        assert(fixes@.take(0) =~= Seq::<(usize, Option<u64>)>::empty());
        while i < fixes.len()
            invariant
                self.wf(),
                i <= fixes@.len(),
                rid < self.graph.route_names@.len(),
                av < self.graph.num_vertices(),
                self.graph.vertices@ == old(self).graph.vertices@,
                self.graph.routes() == old(self).graph.routes(),
                self.graph.route_names@.len() == old(self).graph.route_names@.len(),
                self.graph.route_ids@ == old(self).graph.route_ids@,
                self.wpt_id_to_vid@ == old(self).wpt_id_to_vid@,
                self.airport_id_to_vid@ == old(self).airport_id_to_vid@,
                self.attached@ == old(self).attached@,
                forall|j: int| 0 <= j < fixes@.len() ==> (#[trigger] fixes@[j]).0 < self.graph.num_vertices(),
                self.graph.adjacency() == with_edges(
                    old(self).graph.adjacency(),
                    procedure_edges(av, fixes@.take(i as int), outbound),
                    rid,
                ),
            decreases fixes@.len() - i,
        {
            let (fix, len) = fixes[i];
            let ghost before = procedure_edges(av, fixes@.take(i as int), outbound);
            assert(fixes@.take(i + 1).drop_last() =~= fixes@.take(i as int));
            assert(fixes@.take(i + 1).last() == fixes@[i as int]);
            match len {
                Some(d) => {
                    let ghost e = if outbound { (av, fix, d) } else { (fix, av, d) };
                    assert(before.push(e).drop_last() =~= before);
                    if outbound {
                        self.graph.add_directed_edge(av, fix, rid, d);
                    } else {
                        self.graph.add_directed_edge(fix, av, rid, d);
                    }
                },
                None => {},
            }
            i += 1;
        }
        assert(fixes@.take(fixes@.len() as int) =~= fixes@);
    }
}

impl NavNetwork {
    /// The vertices named `dep` and `arr` (the first of each name), or which
    /// of the two is missing.
    pub fn resolve_endpoints(&self, dep: &str, arr: &str) -> (res: Result<(usize, usize), RouteError>)
        requires
            self.wf(),
        ensures
            ({
                let d = ids_named(self.graph.names(), dep@, self.graph.num_vertices());
                let a = ids_named(self.graph.names(), arr@, self.graph.num_vertices());
                &&& d.len() == 0 ==> (res matches Err(RouteError::DepartureNotFound(name)) && name@ == dep@)
                &&& d.len() > 0 && a.len() == 0 ==> (res matches Err(RouteError::ArrivalNotFound(name)) && name@ == arr@)
                &&& d.len() > 0 && a.len() > 0 ==> res == Ok::<(usize, usize), RouteError>((d[0], a[0]))
            }),
    {
        let dep_vids = self.graph.find_vertex_ids(dep);
        let arr_vids = self.graph.find_vertex_ids(arr);
        if dep_vids.len() == 0 {
            return Err(RouteError::DepartureNotFound(String::from_str(dep)));
        }
        if arr_vids.len() == 0 {
            return Err(RouteError::ArrivalNotFound(String::from_str(arr)));
        }
        Ok((dep_vids[0], arr_vids[0]))
    }

    /// Plans the shortest route from `dep_vid` to `arr_vid`: A* with the
    /// chord heuristic when that heuristic is consistent on the graph, a
    /// uniform-cost search otherwise. When no route exists, the plan is a
    /// single direct leg of `direct_distance`.
    pub fn plan_route(&self, dep_vid: usize, arr_vid: usize, dep: &str, arr: &str, direct_distance: u64) -> (plan: RoutePlan)
        requires
            self.wf(),
            dep_vid < self.graph.num_vertices(),
            arr_vid < self.graph.num_vertices(),
        ensures
            plan.path@.len() > 0 <==> reachable(self.graph.adjacency(), dep_vid as int, arr_vid as int),
            plan.path@.no_duplicates(),
            plan.path@.len() > 0 ==> exists|w: Seq<(usize, usize)>|
                {
                    &&& is_walk(self.graph.adjacency(), dep_vid as int, arr_vid as int, w)
                    &&& walk_vertices(w, arr_vid) == plan.path@
                    &&& takes_shortest_edges(self.graph.adjacency(), w)
                    &&& forall|w2: Seq<(usize, usize)>|
                        #[trigger] is_walk(self.graph.adjacency(), dep_vid as int, arr_vid as int, w2)
                            ==> walk_cost(self.graph.adjacency(), w) <= walk_cost(self.graph.adjacency(), w2)
                },
            plan.path@.len() > 0 ==> {
                &&& plan.stops@ == plan.path@
                &&& plan.legs@.len() == plan.path@.len() - 1
                &&& forall|i: int|
                    0 <= i < plan.legs@.len() ==> {
                        let l = #[trigger] plan.legs@[i];
                        (l.from_name@, l.to_name@, l.route@, l.distance) == self.graph.spec_leg(plan.path@, i, dep_vid, arr_vid)
                    }
            },
            plan.path@.len() == 0 ==> {
                &&& plan.stops@ == seq![dep_vid, arr_vid]
                &&& plan.legs@.len() == 1
                &&& plan.legs@[0].from_name@ == dep@
                &&& plan.legs@[0].to_name@ == arr@
                &&& plan.legs@[0].route@ == dct_name()
                &&& plan.legs@[0].distance == direct_distance
            },
            plan.route@ == route_text(plan.legs@),
            plan.stop_names@.len() == plan.stops@.len(),
            plan.path@.len() > 0 ==> forall|i: int|
                0 <= i < plan.stops@.len() ==> (#[trigger] plan.stop_names@[i])@ == self.graph.names()[plan.stops@[i] as int],
            plan.path@.len() == 0 ==> plan.stop_names@[0]@ == dep@ && plan.stop_names@[1]@ == arr@,
    {
        let consistent = self.graph.heuristic_is_consistent(arr_vid);
        let (cost, path, _expanded, _pushes) = self.graph.guided_search(consistent, dep_vid, arr_vid);
        let mut legs: Vec<Leg> = Vec::new();
        let mut stops: Vec<usize> = Vec::new();
        let mut stop_names: Vec<String> = Vec::new();
        if path.len() == 0 {
            proof {
                reveal_strlit("DCT");
            }
            legs.push(Leg {
                from_name: String::from_str(dep),
                to_name: String::from_str(arr),
                route: String::from_str("DCT"),
                distance: direct_distance,
            });
            stops.push(dep_vid);
            stops.push(arr_vid);
            stop_names.push(String::from_str(dep));
            stop_names.push(String::from_str(arr));
            assert(stops@ =~= seq![dep_vid, arr_vid]);
        } else {
            proof {
                let c = cost->Some_0;
                let w = choose|w: Seq<(usize, usize)>| {
                    &&& is_walk(self.graph.adjacency(), dep_vid as int, arr_vid as int, w)
                    &&& walk_cost(self.graph.adjacency(), w) == c
                    &&& walk_vertices(w, arr_vid) == path@
                };
                assert forall|i: int| 0 <= i < path@.len() implies #[trigger] path@[i] < self.graph.num_vertices() by {
                    lemma_walk_vertices_in_graph(self.graph.adjacency(), dep_vid as int, arr_vid as int, w, i);
                }
            }
            let parts = self.graph.extract_legs(&path, dep_vid, arr_vid);
            let mut i: usize = 0;
            while i < parts.len()
                invariant
                    i <= parts@.len(),
                    legs@.len() == i,
                    forall|j: int|
                        0 <= j < i ==> {
                            let l = #[trigger] legs@[j];
                            let t = parts@[j];
                            (l.from_name@, l.to_name@, l.route@, l.distance) == (t.0@, t.1@, t.2@, t.3)
                        },
                decreases parts@.len() - i,
            {
                legs.push(Leg {
                    from_name: parts[i].0.clone(),
                    to_name: parts[i].1.clone(),
                    route: parts[i].2.clone(),
                    distance: parts[i].3,
                });
                i += 1;
            }
            let mut k: usize = 0;
            while k < path.len()
                invariant
                    k <= path@.len(),
                    stops@ == path@.subrange(0, k as int),
                    stop_names@.len() == k,
                    self.wf(),
                    forall|i: int| 0 <= i < path@.len() ==> #[trigger] path@[i] < self.graph.num_vertices(),
                    forall|i: int|
                        0 <= i < k ==> (#[trigger] stop_names@[i])@ == self.graph.names()[path@[i] as int],
                decreases path@.len() - k,
            {
                stops.push(path[k]);
                stop_names.push(self.graph.vertices[path[k]].name.clone());
                k += 1;
                assert(stops@ =~= path@.subrange(0, k as int));
            }
            assert(path@.subrange(0, path@.len() as int) =~= path@);
        }
        let route = generate_route_string(legs.as_slice());
        RoutePlan { route, legs, path, stops, stop_names }
    }
}

/// A planned route: its text, legs, the vertices of the route found by the
/// search (empty when there is none), and the vertices to list as waypoints
/// with the identifier under which each is listed.
pub struct RoutePlan {
    pub route: String,
    pub legs: Vec<Leg>,
    pub path: Vec<usize>,
    pub stops: Vec<usize>,
    pub stop_names: Vec<String>,
}

/// Why a route could not be planned.
#[derive(Debug)]
pub enum RouteError {
    DepartureNotFound(String),
    ArrivalNotFound(String),
}

proof fn lemma_walk_vertices_in_graph(adj: Seq<Seq<crate::graph::Edge>>, from: int, to: int, w: Seq<(usize, usize)>, i: int)
    requires
        is_walk(adj, from, to, w),
        0 <= i <= w.len(),
        forall|u: int, k: int| 0 <= u < adj.len() && 0 <= k < adj[u].len() ==> (#[trigger] adj[u][k]).target < adj.len(),
        0 <= from < adj.len(),
    ensures
        walk_vertices(w, to as usize)[i] < adj.len(),
        to < adj.len(),
    decreases w.len(),
{
    if w.len() > 0 {
        let t = adj[from][w[0].1 as int].target as int;
        if i > 0 {
            lemma_walk_vertices_in_graph(adj, t, to, w.drop_first(), i - 1);
            assert(walk_vertices(w, to as usize)[i] == walk_vertices(w.drop_first(), to as usize)[i - 1]);
        } else {
            lemma_walk_vertices_in_graph(adj, t, to, w.drop_first(), 0);
        }
    }
}


impl RouteError {
    /// The error message: `Departure 'X' not found` or `Arrival 'X' not found`.
    pub open spec fn spec_message(&self) -> Seq<char> {
        match self {
            RouteError::DepartureNotFound(name) => "Departure '"@ + name@ + "' not found"@,
            RouteError::ArrivalNotFound(name) => "Arrival '"@ + name@ + "' not found"@,
        }
    }

    /// The error message.
    pub fn message(&self) -> (m: String)
        ensures
            m@ == self.spec_message(),
    {
        match self {
            RouteError::DepartureNotFound(name) => String::from_str("Departure '").concat(name.as_str()).concat("' not found"),
            RouteError::ArrivalNotFound(name) => String::from_str("Arrival '").concat(name.as_str()).concat("' not found"),
        }
    }
}

/// Total length of the legs.
pub open spec fn legs_total(legs: Seq<Leg>) -> int
    decreases legs.len(),
{
    if legs.len() == 0 {
        0
    } else {
        legs_total(legs.drop_last()) + legs.last().distance
    }
}

/// The total counts every leg's full length, whatever its route: adding a
/// leg adds its length, and no leg totals zero.
pub proof fn lemma_legs_total_adds_each_leg(legs: Seq<Leg>, l: Leg)
    ensures
        legs_total(Seq::<Leg>::empty()) == 0,
        legs_total(legs.push(l)) == legs_total(legs) + l.distance,
        legs_total(seq![l]) == l.distance,
{
    assert(legs.push(l).drop_last() =~= legs);
    assert(seq![l].drop_last() =~= Seq::<Leg>::empty());
}

/// The total is the plain sum of the leg lengths, in any route.
pub proof fn lemma_legs_total_is_sum(legs: Seq<Leg>)
    ensures
        legs_total(legs) == legs.fold_left(0int, |acc: int, l: Leg| acc + l.distance),
    decreases legs.len(),
{
    if legs.len() > 0 {
        lemma_legs_total_is_sum(legs.drop_last());
    }
}

proof fn lemma_legs_total_bound(legs: Seq<Leg>)
    ensures
        0 <= legs_total(legs) <= legs.len() * 18446744073709551615int,
    decreases legs.len(),
{
    if legs.len() > 0 {
        lemma_legs_total_bound(legs.drop_last());
        assert((legs.len() - 1) * 18446744073709551615int + 18446744073709551615int == legs.len() * 18446744073709551615int) by (nonlinear_arith);
    }
}

impl RoutePlan {
    /// Total length of the route, in thousandths of a nautical mile.
    pub fn total_distance(&self) -> (d: u128)
        ensures
            d == legs_total(self.legs@),
    {
        let mut total: u128 = 0;
        let mut i: usize = 0;
        while i < self.legs.len()
            invariant
                i <= self.legs@.len(),
                total == legs_total(self.legs@.take(i as int)),
            decreases self.legs@.len() - i,
        {
            proof {
                assert(self.legs@.take(i + 1).drop_last() =~= self.legs@.take(i as int));
                lemma_legs_total_bound(self.legs@.take(i + 1));
                assert((i + 1) * 18446744073709551615int <= 18446744073709551616int * 18446744073709551615int) by (nonlinear_arith)
                    requires
                        i < 18446744073709551616int,
                ;
            }
            total = total + self.legs[i].distance as u128;
            i += 1;
        }
        assert(self.legs@.take(self.legs@.len() as int) =~= self.legs@);
        total
    }

    /// The vertex after the departure, where the departure procedure ends.
    pub fn departure_fix(&self) -> (v: Option<usize>)
        ensures
            v == if self.path@.len() >= 2 {
                Some(self.path@[1])
            } else {
                None::<usize>
            },
    {
        if self.path.len() >= 2 {
            Some(self.path[1])
        } else {
            None
        }
    }

    /// The vertex before the arrival, where the arrival procedure starts.
    pub fn arrival_fix(&self) -> (v: Option<usize>)
        ensures
            v == if self.path@.len() >= 2 {
                Some(self.path@[self.path@.len() - 2])
            } else {
                None::<usize>
            },
    {
        if self.path.len() >= 2 {
            Some(self.path[self.path.len() - 2])
        } else {
            None
        }
    }
}

/// Where the display name of a route waypoint comes from.
#[derive(Debug, PartialEq, Eq, Clone, Copy)]
pub enum WaypointLabel {
    /// The departure airport's name.
    Departure,
    /// The arrival airport's name.
    Arrival,
    /// The waypoint's own name in the database.
    Lookup,
}

/// The label source of waypoint `i` of `count`: the first waypoint named
/// like the departure takes the departure airport's name, the last one named
/// like the arrival takes the arrival airport's name, any other is looked up.
pub fn waypoint_label(i: usize, count: usize, ident: &String, dep: &String, arr: &String) -> (label: WaypointLabel)
    requires
        i < count,
    ensures
        label == if i == 0 && ident@ == dep@ {
            WaypointLabel::Departure
        } else if i == count - 1 && ident@ == arr@ {
            WaypointLabel::Arrival
        } else {
            WaypointLabel::Lookup
        },
{
    if i == 0 && *ident == *dep {
        WaypointLabel::Departure
    } else if i == count - 1 && *ident == *arr {
        WaypointLabel::Arrival
    } else {
        WaypointLabel::Lookup
    }
}

} // verus!
