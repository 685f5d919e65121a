use routing::cost::Metric;
use routing::cost::edge_cost_distance;
use routing::cost::edge_cost_time;
use routing::cost::metric_from_name;
use routing::cost::mode_from_name;
use routing::cost::vehicle_max_speed;
use routing::cost::FLAG_BIKE;
use routing::cost::FLAG_CAR;
use routing::cost::FLAG_WALK;
use routing::cost::VMAX_BIKE;
use routing::cost::VMAX_CAR;
use routing::cost::VMAX_WALK;
use routing::graph::Edge;
use routing::graph::Graph;
use routing::graph::GraphError;
use routing::graph::Node;
use routing::graph::Position;
use routing::search::route;
use routing::search::run_dijkstra;
use routing::search::Route;
use routing::search::RouteError;

fn node(ext_id: i64, lat: i64, lon: i64) -> Node {
    Node { ext_id, pos: Position { lat, lon } }
}

fn edge(target: usize, length: u64, speed: u64, allowed_modes: u8) -> Edge {
    Edge { target, length, speed, allowed_modes }
}

const ALL: u8 = FLAG_CAR | FLAG_BIKE | FLAG_WALK;

/// The four-node scenario graph: A(0,0), B(0,1), C(1,1), D(1,0);
/// A->B and B->C of length 10 at 10 m/s for all modes, A->D and D->C of
/// length 5 at 1 m/s for cars only.
fn scenario_graph() -> Graph {
    let nodes = vec![node(1, 0, 0), node(2, 0, 1), node(3, 1, 1), node(4, 1, 0)];
    let edges = vec![
        edge(1, 10, 10_000, ALL),
        edge(3, 5, 1_000, FLAG_CAR),
        edge(2, 10, 10_000, ALL),
        edge(2, 5, 1_000, FLAG_CAR),
    ];
    let offsets = vec![0, 2, 3, 3, 4];
    match Graph::build(nodes, edges, offsets) {
        Ok(g) => g,
        Err(_) => panic!("scenario graph must be well-formed"),
    }
}

/// A chain of four car-only nodes with large external ids.
fn dummy_graph() -> Graph {
    let nodes = vec![node(5000, 0, 0), node(5001, 0, 1), node(5002, 0, 2), node(5003, 0, 3)];
    let edges = vec![
        edge(1, 100, 10_000, FLAG_CAR),
        edge(2, 100, 10_000, FLAG_CAR),
        edge(3, 100, 10_000, FLAG_CAR),
    ];
    let offsets = vec![0, 1, 2, 3, 3];
    match Graph::build(nodes, edges, offsets) {
        Ok(g) => g,
        Err(_) => panic!("dummy graph must be well-formed"),
    }
}

#[test]
fn test_dijkstra() {
    let data = dummy_graph();

    let path = run_dijkstra(&data, 5000, 5003, FLAG_CAR, Metric::Time);

    println!("path: {:?}", path);
    assert!(path.is_ok());
}

#[test]
fn scenario_walk_takes_the_long_way() {
    let g = scenario_graph();
    let r = route(&g, 1, 3, "walk", "distance").unwrap();
    assert_eq!(r.distance, 20);
    assert_eq!(r.path, vec![Position { lat: 0, lon: 1 }, Position { lat: 1, lon: 1 }]);
    // 10 m at the walking maximum of 1388 mm/s, twice.
    assert_eq!(r.time, 2 * (10 * 1_000_000 / VMAX_WALK));
}

#[test]
fn scenario_car_takes_the_short_way() {
    let g = scenario_graph();
    let r = route(&g, 1, 3, "car", "distance").unwrap();
    assert_eq!(r.distance, 10);
    assert_eq!(r.path, vec![Position { lat: 1, lon: 0 }, Position { lat: 1, lon: 1 }]);
    // 5 m at the nominal 1 m/s, twice: the car maximum does not cap it.
    assert_eq!(r.time, 10_000);
}

#[test]
fn time_metric_picks_the_fast_way() {
    // For a car the short way is slow (1 m/s); optimizing time picks the
    // long fast way, optimizing distance picks the short slow way.
    let g = scenario_graph();
    let fast = route(&g, 1, 3, "car", "time").unwrap();
    assert_eq!(fast.distance, 20);
    assert_eq!(fast.time, 2_000);
    let short = route(&g, 1, 3, "car", "distance").unwrap();
    assert_eq!(short.distance, 10);
}

#[test]
fn source_equals_target_gives_zero_route() {
    let g = scenario_graph();
    let r = route(&g, 2, 2, "car", "distance").unwrap();
    assert_eq!(r, Route { distance: 0, time: 0, path: vec![] });
}

#[test]
fn unknown_source_is_reported() {
    let g = scenario_graph();
    assert_eq!(route(&g, 999, 3, "car", "distance"), Err(RouteError::UnknownEndpoint));
}

#[test]
fn unknown_target_is_reported() {
    let g = scenario_graph();
    assert_eq!(route(&g, 1, 999, "car", "distance"), Err(RouteError::UnknownEndpoint));
}

#[test]
fn disconnected_target_yields_no_route() {
    let nodes = vec![node(10, 0, 0), node(20, 5, 5)];
    let edges = vec![];
    let offsets = vec![0, 0, 0];
    let g = Graph::build(nodes, edges, offsets).unwrap();
    assert_eq!(route(&g, 10, 20, "car", "distance"), Err(RouteError::NoRouteFound));
}

#[test]
fn forbidden_only_path_yields_no_route() {
    // The only way from A to C for a walker crosses car-only edges.
    let nodes = vec![node(1, 0, 0), node(2, 1, 0), node(3, 1, 1)];
    let edges = vec![edge(1, 5, 1_000, FLAG_CAR), edge(2, 5, 1_000, FLAG_CAR)];
    let offsets = vec![0, 1, 2, 2];
    let g = Graph::build(nodes, edges, offsets).unwrap();
    assert_eq!(route(&g, 1, 3, "walk", "distance"), Err(RouteError::NoRouteFound));
    assert!(route(&g, 1, 3, "car", "distance").is_ok());
}

#[test]
fn speed_is_capped_at_the_vehicle_maximum() {
    // One edge of 10 m at a nominal 10 m/s; a bike is capped at 4166 mm/s.
    let nodes = vec![node(1, 0, 0), node(2, 0, 1)];
    let edges = vec![edge(1, 10, 10_000, ALL)];
    let offsets = vec![0, 1, 1];
    let g = Graph::build(nodes, edges, offsets).unwrap();
    let r = route(&g, 1, 2, "bike", "time").unwrap();
    assert_eq!(r.time, 10 * 1_000_000 / VMAX_BIKE);
    let r = route(&g, 1, 2, "car", "time").unwrap();
    assert_eq!(r.time, 10 * 1_000_000 / 10_000);
}

#[test]
fn repeated_queries_are_identical() {
    let g = scenario_graph();
    let first = route(&g, 1, 3, "car", "time");
    let second = route(&g, 1, 3, "car", "time");
    assert_eq!(first, second);
    let first = route(&g, 1, 4, "walk", "distance");
    let second = route(&g, 1, 4, "walk", "distance");
    assert_eq!(first, second);
}

#[test]
fn prefix_costs_never_decrease_along_a_route() {
    // The walk to B is a prefix of the walk to C: its aggregates are no
    // larger than the full route's.
    let g = scenario_graph();
    let to_b = route(&g, 1, 2, "walk", "distance").unwrap();
    let to_c = route(&g, 1, 3, "walk", "distance").unwrap();
    assert!(to_b.distance <= to_c.distance);
    assert!(to_b.time <= to_c.time);
}

#[test]
fn unrecognized_metric_falls_back_to_distance() {
    let g = scenario_graph();
    assert_eq!(route(&g, 1, 3, "walk", "banana"), route(&g, 1, 3, "walk", "distance"));
    assert_eq!(metric_from_name("banana"), Metric::Distance);
    assert_eq!(metric_from_name("time"), Metric::Time);
    assert_eq!(metric_from_name("distance"), Metric::Distance);
}

#[test]
fn unrecognized_mode_falls_back_to_car() {
    let g = scenario_graph();
    assert_eq!(route(&g, 1, 3, "rocket", "distance"), route(&g, 1, 3, "car", "distance"));
    assert_eq!(mode_from_name("car"), FLAG_CAR);
    assert_eq!(mode_from_name("bike"), FLAG_BIKE);
    assert_eq!(mode_from_name("walk"), FLAG_WALK);
    assert_eq!(mode_from_name("rocket"), FLAG_CAR);
}

#[test]
fn vehicle_maxima_are_fixed_per_mode() {
    assert_eq!(vehicle_max_speed(FLAG_CAR), VMAX_CAR);
    assert_eq!(vehicle_max_speed(FLAG_BIKE), VMAX_BIKE);
    assert_eq!(vehicle_max_speed(FLAG_WALK), VMAX_WALK);
    assert_eq!(vehicle_max_speed(0), VMAX_CAR);
    assert_eq!(VMAX_CAR, 36111);
    assert_eq!(VMAX_BIKE, 4166);
    assert_eq!(VMAX_WALK, 1388);
}

#[test]
fn cost_functions_compute_exact_values() {
    let e = edge(0, 10, 10_000, ALL);
    assert_eq!(edge_cost_distance(&e, VMAX_WALK), 10);
    // Uncapped: 10 m at 10 m/s is one second.
    assert_eq!(edge_cost_time(&e, VMAX_CAR), 1_000);
    // Capped at walking speed: 10_000_000 / 1388 ms, rounded down.
    assert_eq!(edge_cost_time(&e, VMAX_WALK), 7204);
}

#[test]
fn builder_rejects_bad_offsets() {
    let nodes = vec![node(1, 0, 0), node(2, 0, 1)];
    // Offset table too short.
    assert_eq!(
        Graph::build(nodes.clone(), vec![], vec![0, 0]).err(),
        Some(GraphError::InvalidGraph)
    );
    // Does not start at zero.
    assert_eq!(
        Graph::build(nodes.clone(), vec![], vec![1, 1, 1]).err(),
        Some(GraphError::InvalidGraph)
    );
    // Decreasing.
    assert_eq!(
        Graph::build(nodes.clone(), vec![edge(1, 1, 1, ALL)], vec![0, 1, 0]).err(),
        Some(GraphError::InvalidGraph)
    );
    // Sentinel does not cover the edge vector.
    assert_eq!(
        Graph::build(nodes.clone(), vec![edge(1, 1, 1, ALL)], vec![0, 0, 0]).err(),
        Some(GraphError::InvalidGraph)
    );
}

#[test]
fn builder_rejects_bad_edges() {
    let nodes = vec![node(1, 0, 0), node(2, 0, 1)];
    // Dangling target.
    assert_eq!(
        Graph::build(nodes.clone(), vec![edge(5, 1, 1, ALL)], vec![0, 1, 1]).err(),
        Some(GraphError::InvalidGraph)
    );
    // Zero speed.
    assert_eq!(
        Graph::build(nodes.clone(), vec![edge(1, 1, 0, ALL)], vec![0, 1, 1]).err(),
        Some(GraphError::InvalidGraph)
    );
}

#[test]
fn builder_accepts_a_well_formed_graph() {
    let g = scenario_graph();
    assert_eq!(g.nodes.len(), 4);
    assert_eq!(g.edges.len(), 4);
    assert_eq!(g.offset_lookup(0), (0, 2));
    assert_eq!(g.offset_lookup(2), (3, 3));
}

#[test]
fn resolve_translates_external_ids() {
    let g = scenario_graph();
    assert_eq!(g.resolve(1), Some(0));
    assert_eq!(g.resolve(4), Some(3));
    assert_eq!(g.resolve(77), None);
}
