use routefinder_api::graph::{isqrt, Graph, Vec3, EARTH_RADIUS_MILLI_NM, UNIT_VECTOR_SCALE};

const U: i64 = UNIT_VECTOR_SCALE;

fn p(x: i64, y: i64, z: i64) -> Vec3 {
    Vec3 { x, y, z }
}

/// Four points on the equator, a quarter turn apart.
fn square_graph() -> Graph {
    let mut g = Graph::new();
    g.add_vertex("A", p(U, 0, 0));
    g.add_vertex("B", p(0, U, 0));
    g.add_vertex("C", p(-U, 0, 0));
    g.add_vertex("D", p(0, -U, 0));
    g
}

#[test]
fn isqrt_values() {
    assert_eq!(isqrt(0), 0);
    assert_eq!(isqrt(1), 1);
    assert_eq!(isqrt(15), 3);
    assert_eq!(isqrt(16), 4);
    assert_eq!(isqrt(u64::MAX), 4294967295);
}

#[test]
fn chord_to_self_is_zero() {
    let a = p(U, 0, 0);
    assert_eq!(a.chord_distance_nm(&a), 0);
}

#[test]
fn chord_across_the_globe_is_the_diameter() {
    let a = p(U, 0, 0);
    let b = p(-U, 0, 0);
    assert_eq!(a.chord_distance_nm(&b), 2 * EARTH_RADIUS_MILLI_NM);
}

#[test]
fn chord_quarter_turn() {
    // sqrt(2) * R, rounded down through the integer square root
    let a = p(U, 0, 0);
    let b = p(0, U, 0);
    let r = isqrt(2 * (U as u64) * (U as u64));
    assert_eq!(a.chord_distance_nm(&b), r * EARTH_RADIUS_MILLI_NM / (U as u64));
}

#[test]
fn vertices_get_consecutive_ids_and_names_are_indexed() {
    let mut g = Graph::new();
    assert_eq!(g.add_vertex("ZBAA", p(U, 0, 0)), 0);
    assert_eq!(g.add_vertex("DUGEB", p(0, U, 0)), 1);
    assert_eq!(g.add_vertex("ZBAA", p(0, 0, U)), 2);
    assert_eq!(g.find_vertex_ids("ZBAA"), vec![0, 2]);
    assert_eq!(g.find_vertex_ids("DUGEB"), vec![1]);
    assert_eq!(g.find_vertex_ids("NONE"), Vec::<usize>::new());
    assert_eq!(g.find_first_id("ZBAA"), Some(0));
    assert_eq!(g.find_first_id("NONE"), None);
    assert_eq!(g.vertices[2].id, 2);
    assert_eq!(g.edges.len(), 3);
}

#[test]
fn route_ids_are_stable() {
    let mut g = Graph::new();
    let w40 = g.get_or_add_route("W40");
    let a461 = g.get_or_add_route("A461");
    assert_eq!((w40, a461), (0, 1));
    assert_eq!(g.get_or_add_route("W40"), 0);
    assert_eq!(g.route_names, vec!["W40".to_string(), "A461".to_string()]);
}

#[test]
fn undirected_edge_goes_both_ways() {
    let mut g = square_graph();
    let r = g.get_or_add_route("W1");
    g.add_undirected_edge(0, 1, r, 500);
    assert_eq!(g.edges[0].len(), 1);
    assert_eq!(g.edges[1].len(), 1);
    assert_eq!((g.edges[0][0].target, g.edges[0][0].distance, g.edges[0][0].route_id), (1, 500, r));
    assert_eq!((g.edges[1][0].target, g.edges[1][0].distance), (0, 500));
    g.add_directed_edge(2, 3, r, 7);
    assert_eq!(g.edges[2].len(), 1);
    assert_eq!(g.edges[3].len(), 0);
}

#[test]
fn a_star_takes_the_shorter_way_round() {
    let mut g = square_graph();
    let r = g.get_or_add_route("W1");
    // quarter circles A-B and B-C (great-circle lengths, so the chord
    // heuristic is consistent), and a longer direct edge A-C
    let quarter: u64 = 5409764;
    g.add_undirected_edge(0, 1, r, quarter);
    g.add_undirected_edge(1, 2, r, quarter);
    g.add_undirected_edge(0, 2, r, 3 * quarter);
    assert!(g.heuristic_is_consistent(2));
    let (cost, path, expanded) = g.a_star(0, 2);
    assert_eq!(cost, Some(2 * quarter as u128));
    assert_eq!(path, vec![0, 1, 2]);
    // vertices 0, 1 and 2 are reachable; the target itself is never
    // expanded, and every vertex of the route before it is
    assert!(expanded < 3);
    assert!(expanded >= path.len() - 1);
    assert_eq!(expanded, 2);
}

#[test]
fn a_star_start_is_target() {
    let g = square_graph();
    let (cost, path, _) = g.a_star(3, 3);
    assert_eq!(cost, Some(0));
    assert_eq!(path, vec![3]);
}

#[test]
fn a_star_unreachable() {
    let mut g = square_graph();
    let r = g.get_or_add_route("W1");
    g.add_undirected_edge(0, 1, r, 10);
    g.add_directed_edge(3, 2, r, 10);
    let (cost, path, expanded) = g.a_star(0, 2);
    assert_eq!(cost, None);
    assert!(path.is_empty());
    // every vertex reachable from the start (0 and 1) was expanded
    assert_eq!(expanded, 2);
}

#[test]
fn a_star_follows_edge_direction() {
    let mut g = square_graph();
    let r = g.get_or_add_route("SID");
    g.add_directed_edge(0, 3, r, 10);
    g.add_directed_edge(3, 2, r, 10);
    assert_eq!(g.a_star(0, 2).1, vec![0, 3, 2]);
    assert_eq!(g.a_star(2, 0).0, None);
}

#[test]
fn a_star_uses_the_lighter_parallel_edge() {
    let mut g = square_graph();
    let r = g.get_or_add_route("W1");
    g.add_directed_edge(0, 1, r, 90);
    g.add_directed_edge(0, 1, r, 30);
    let (cost, path, _) = g.a_star(0, 1);
    assert_eq!(cost, Some(30));
    assert_eq!(path, vec![0, 1]);
}

#[test]
fn legs_name_airways_and_fallbacks() {
    let mut g = square_graph();
    let sid = g.get_or_add_route("SID");
    let w1 = g.get_or_add_route("W1");
    let star = g.get_or_add_route("STAR");
    // A -> B on the SID and on W1: the airway wins
    g.add_directed_edge(0, 1, sid, 5);
    g.add_directed_edge(0, 1, w1, 6);
    // B -> C only on the STAR
    g.add_directed_edge(1, 2, star, 7);
    let legs = g.extract_legs(&vec![0, 1, 2, 3], 0, 3);
    assert_eq!(legs.len(), 3);
    assert_eq!(legs[0], ("A".to_string(), "B".to_string(), "W1".to_string(), 6));
    assert_eq!(legs[1], ("B".to_string(), "C".to_string(), "STAR".to_string(), 7));
    // no edge C -> D, and D is the arrival
    assert_eq!(legs[2], ("C".to_string(), "D".to_string(), "STAR".to_string(), 0));
    let legs = g.extract_legs(&vec![2, 3, 0], 2, 1);
    assert_eq!(legs[0].2, "SID");
    assert_eq!(legs[1].2, "DCT");
    assert!(g.extract_legs(&vec![], 0, 1).is_empty());
    assert!(g.extract_legs(&vec![2], 0, 1).is_empty());
}

#[test]
fn legs_connect() {
    let mut g = square_graph();
    let w1 = g.get_or_add_route("W1");
    g.add_undirected_edge(0, 1, w1, 1);
    g.add_undirected_edge(1, 2, w1, 1);
    let legs = g.extract_legs(&vec![0, 1, 2], 0, 2);
    assert_eq!(legs[0].1, legs[1].0);
}

#[test]
fn a_star_with_inconsistent_heuristic_may_miss_the_shortest() {
    // Edges far shorter than the chord between their ends make the chord
    // heuristic inconsistent; the search then settles C through the direct
    // edge before the cheaper way round is expanded.
    let mut g = square_graph();
    let r = g.get_or_add_route("W1");
    g.add_undirected_edge(0, 1, r, 10);
    g.add_undirected_edge(1, 2, r, 10);
    g.add_undirected_edge(0, 2, r, 50);
    assert!(!g.heuristic_is_consistent(2));
    let (cost, path, _) = g.a_star(0, 2);
    assert_eq!(cost, Some(50));
    assert_eq!(path, vec![0, 2]);
}

#[test]
fn unguided_search_finds_the_shortest_on_any_graph() {
    let mut g = square_graph();
    let r = g.get_or_add_route("W1");
    g.add_undirected_edge(0, 1, r, 10);
    g.add_undirected_edge(1, 2, r, 10);
    g.add_undirected_edge(0, 2, r, 50);
    let (cost, path, _, _) = g.guided_search(false, 0, 2);
    assert_eq!(cost, Some(20));
    assert_eq!(path, vec![0, 1, 2]);
}
