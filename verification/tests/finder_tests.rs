use routefinder_api::finder::{
    generate_route_string, join_with_spaces, waypoint_label, NavNetwork, RouteError, WaypointLabel,
};
use routefinder_api::graph::{Vec3, UNIT_VECTOR_SCALE};
use routefinder_api::models::Leg;

const U: i64 = UNIT_VECTOR_SCALE;

fn leg(from: &str, route: &str, to: &str, d: u64) -> Leg {
    Leg { from_name: from.to_string(), to_name: to.to_string(), route: route.to_string(), distance: d }
}

#[test]
fn route_string_empty() {
    assert_eq!(generate_route_string(&[]), "");
}

#[test]
fn route_string_single_leg() {
    assert_eq!(generate_route_string(&[leg("ZBAA", "DCT", "ZGGG", 1)]), "ZBAA DCT ZGGG");
}

#[test]
fn route_string_readme_example() {
    let legs = vec![
        leg("ZBAA", "SID", "DUGEB", 1),
        leg("DUGEB", "W40", "X1", 1),
        leg("X1", "W40", "BTO", 1),
        leg("BTO", "A461", "LIG", 1),
        leg("LIG", "STAR", "ZGGG", 1),
    ];
    assert_eq!(generate_route_string(&legs), "ZBAA SID DUGEB W40 BTO A461 LIG STAR ZGGG");
}

#[test]
fn route_string_merges_a_continued_first_airway() {
    let legs = vec![leg("ZBAA", "W40", "P1", 1), leg("P1", "W40", "BTO", 1)];
    assert_eq!(generate_route_string(&legs), "ZBAA W40 BTO");
    let legs = vec![leg("A", "W1", "B", 1), leg("B", "W1", "C", 1), leg("C", "W2", "D", 1)];
    assert_eq!(generate_route_string(&legs), "A W1 C W2 D");
}

#[test]
fn join_words() {
    assert_eq!(join_with_spaces(&vec![]), "");
    assert_eq!(join_with_spaces(&vec!["a".to_string()]), "a");
    assert_eq!(join_with_spaces(&vec!["a".to_string(), "b".to_string(), "c".to_string()]), "a b c");
}

fn network() -> NavNetwork {
    let mut net = NavNetwork::new();
    net.add_airport(100, "ZBAA", Vec3 { x: U, y: 0, z: 0 });
    net.add_airport(200, "ZGGG", Vec3 { x: 0, y: U, z: 0 });
    net.add_waypoint(1, "DUGEB", Vec3 { x: U / 2, y: U / 2, z: 0 });
    net.add_waypoint(2, "LIG", Vec3 { x: 0, y: U / 2, z: U / 2 });
    net.add_waypoint(3, "BTO", Vec3 { x: 0, y: 0, z: U });
    assert!(net.connect_waypoints("W40", 1, 2, 300));
    assert!(!net.connect_waypoints("W40", 1, 99, 300));
    net.add_pseudo_routes();
    net
}

#[test]
fn network_maps_ids() {
    let net = network();
    assert_eq!(net.waypoint_vertex(1), Some(2));
    assert_eq!(net.waypoint_vertex(99), None);
    assert_eq!(net.graph.route_names, vec!["W40".to_string(), "DCT".to_string(), "SID".to_string(), "STAR".to_string()]);
}

#[test]
fn resolve_endpoints_errors() {
    let net = network();
    assert_eq!(net.resolve_endpoints("ZBAA", "ZGGG").unwrap(), (0, 1));
    match net.resolve_endpoints("XXXX", "ZGGG") {
        Err(e) => assert_eq!(e.message(), "Departure 'XXXX' not found"),
        Ok(_) => panic!("expected an error"),
    }
    match net.resolve_endpoints("ZBAA", "YYYY") {
        Err(e) => {
            assert!(matches!(e, RouteError::ArrivalNotFound(_)));
            assert_eq!(e.message(), "Arrival 'YYYY' not found");
        }
        Ok(_) => panic!("expected an error"),
    }
}

#[test]
fn plan_without_route_is_direct() {
    let net = network();
    let plan = net.plan_route(0, 1, "ZBAA", "ZGGG", 1234);
    assert_eq!(plan.route, "ZBAA DCT ZGGG");
    assert!(plan.path.is_empty());
    assert_eq!(plan.stops, vec![0, 1]);
    assert_eq!(plan.stop_names, vec!["ZBAA".to_string(), "ZGGG".to_string()]);
    assert_eq!(plan.legs.len(), 1);
    assert_eq!(plan.legs[0].distance, 1234);
    assert_eq!(plan.total_distance(), 1234);
    assert_eq!(plan.departure_fix(), None);
    assert_eq!(plan.arrival_fix(), None);
}

#[test]
fn plan_along_procedures_and_airway() {
    let mut net = network();
    // ZBAA leaves by DUGEB; BTO is filtered out
    net.attach_procedures(0, &vec![(2, Some(100)), (4, None)], &vec![]);
    // ZGGG is reached from LIG
    net.attach_procedures(1, &vec![], &vec![(3, Some(200))]);
    let plan = net.plan_route(0, 1, "ZBAA", "ZGGG", 99999);
    assert_eq!(plan.path, vec![0, 2, 3, 1]);
    assert_eq!(plan.stops, plan.path);
    assert_eq!(plan.stop_names, vec!["ZBAA", "DUGEB", "LIG", "ZGGG"]);
    assert_eq!(plan.route, "ZBAA SID DUGEB W40 LIG STAR ZGGG");
    assert_eq!(plan.total_distance(), 600);
    assert_eq!(plan.departure_fix(), Some(2));
    assert_eq!(plan.arrival_fix(), Some(3));
}

#[test]
fn waypoint_labels() {
    let dep = "ZBAA".to_string();
    let arr = "ZGGG".to_string();
    assert_eq!(waypoint_label(0, 3, &dep, &dep, &arr), WaypointLabel::Departure);
    assert_eq!(waypoint_label(2, 3, &arr, &dep, &arr), WaypointLabel::Arrival);
    assert_eq!(waypoint_label(1, 3, &"LIG".to_string(), &dep, &arr), WaypointLabel::Lookup);
    assert_eq!(waypoint_label(0, 3, &arr, &dep, &arr), WaypointLabel::Lookup);
}

#[test]
fn procedures_leave_and_enter_the_airport() {
    let mut net = network();
    net.attach_procedures(0, &vec![(2, Some(100)), (4, None)], &vec![(3, Some(70))]);
    let sid = net.graph.route_ids.get("SID").copied().unwrap();
    let star = net.graph.route_ids.get("STAR").copied().unwrap();
    assert_eq!(net.graph.edges[0].len(), 1);
    assert_eq!(net.graph.edges[0][0].target, 2);
    assert_eq!(net.graph.edges[0][0].distance, 100);
    assert_eq!(net.graph.edges[0][0].route_id, sid);
    assert_eq!(net.graph.edges[4].len(), 0);
    let into_airport = net.graph.edges[3].last().unwrap();
    assert_eq!(into_airport.target, 0);
    assert_eq!(into_airport.distance, 70);
    assert_eq!(into_airport.route_id, star);
}

#[test]
fn procedures_need_their_pseudo_routes() {
    let mut net = NavNetwork::new();
    net.add_airport(100, "ZBAA", Vec3 { x: U, y: 0, z: 0 });
    net.add_waypoint(1, "DUGEB", Vec3 { x: U / 2, y: U / 2, z: 0 });
    net.attach_procedures(0, &vec![(1, Some(100))], &vec![(1, Some(100))]);
    assert!(net.graph.edges[0].is_empty());
    assert!(net.graph.edges[1].is_empty());
}

#[test]
fn procedures_are_attached_once() {
    let mut net = network();
    assert!(!net.is_attached(0));
    net.attach_procedures(0, &vec![(2, Some(100))], &vec![(3, Some(70))]);
    assert!(net.is_attached(0));
    let count: usize = net.graph.edges.iter().map(|e| e.len()).sum();
    net.attach_procedures(0, &vec![(2, Some(100))], &vec![(3, Some(70))]);
    let again: usize = net.graph.edges.iter().map(|e| e.len()).sum();
    assert_eq!(count, again);
}

#[test]
fn plan_is_shortest_even_when_the_chord_overestimates() {
    let mut net = NavNetwork::new();
    net.add_airport(100, "ZBAA", Vec3 { x: U, y: 0, z: 0 });
    net.add_waypoint(1, "MID", Vec3 { x: 0, y: U, z: 0 });
    net.add_airport(200, "ZGGG", Vec3 { x: -U, y: 0, z: 0 });
    net.add_pseudo_routes();
    net.attach_procedures(0, &vec![(1, Some(10))], &vec![]);
    net.attach_procedures(2, &vec![], &vec![(1, Some(10))]);
    net.graph.add_directed_edge(0, 2, 0, 50);
    assert!(!net.graph.heuristic_is_consistent(2));
    let plan = net.plan_route(0, 2, "ZBAA", "ZGGG", 99999);
    assert_eq!(plan.path, vec![0, 1, 2]);
    assert_eq!(plan.total_distance(), 20);
}
