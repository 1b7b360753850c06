use std::collections::HashMap;

use maps::coord::{Coord, Edge, NodeId};
use maps::graph::{build_graph, find_path, get_random_node, Graph};
use maps::osm::{assemble_multipolygon, classify_way, extract_way_nodes, WayKind};

fn haversine(a: Coord, b: Coord) -> i64 {
    let (lon1, lat1) = (a.lon as f64 * 1e-7, a.lat as f64 * 1e-7);
    let (lon2, lat2) = (b.lon as f64 * 1e-7, b.lat as f64 * 1e-7);
    let r = 6371e3;
    let phi1 = lat1.to_radians();
    let phi2 = lat2.to_radians();
    let delta_phi = (lat2 - lat1).to_radians();
    let delta_lambda = (lon2 - lon1).to_radians();
    let h = (delta_phi / 2.0).sin() * (delta_phi / 2.0).sin()
        + phi1.cos() * phi2.cos() * (delta_lambda / 2.0).sin() * (delta_lambda / 2.0).sin();
    let c = 2.0 * h.sqrt().atan2((1.0 - h).sqrt());
    ((r * c) * 1e8) as i64
}

fn c(lon: i32, lat: i32) -> Coord {
    Coord::new(lon, lat)
}

fn manhattan(a: Coord, b: Coord) -> i64 {
    (a.lon as i64 - b.lon as i64).abs() + (a.lat as i64 - b.lat as i64).abs()
}

#[test]
fn node_id_new_holds_the_id() {
    assert_eq!(NodeId::new(7).0, 7);
    assert_eq!(NodeId::from(-3), NodeId(-3));
    assert_eq!(NodeId::new(1), NodeId::new(1));
    assert_ne!(NodeId::new(1), NodeId::new(2));
}

#[test]
fn coord_new_keeps_fields() {
    let p = Coord::new(134_000_000, 525_000_000);
    assert_eq!(p.lon, 134_000_000);
    assert_eq!(p.lat, 525_000_000);
    assert_eq!(p, c(134_000_000, 525_000_000));
}

#[test]
fn build_graph_adds_both_directions_with_equal_cost() {
    let a = c(134_000_000, 525_000_000);
    let b = c(134_100_000, 525_000_000);
    let d = c(134_100_000, 525_100_000);
    let ways = vec![vec![a, b, d]];
    let g = build_graph(&ways, haversine);
    let ab = haversine(a, b);
    let bd = haversine(b, d);
    assert_eq!(g.successors(&a), vec![(b, ab)]);
    assert_eq!(g.successors(&b), vec![(a, ab), (d, bd)]);
    assert_eq!(g.successors(&d), vec![(b, bd)]);
    assert_eq!(haversine(b, a), ab);
    assert!(ab > 0);
}

#[test]
fn build_graph_ignores_single_point_ways() {
    let a = c(10, 20);
    let g = build_graph(&vec![vec![a], vec![]], manhattan);
    assert!(g.successors(&a).is_empty());
}

#[test]
fn build_graph_keeps_repeated_segments_and_self_loops() {
    let a = c(0, 0);
    let b = c(3, 4);
    let g = build_graph(&vec![vec![a, b], vec![b, a], vec![a, a]], manhattan);
    assert_eq!(g.successors(&a), vec![(b, 7), (b, 7), (a, 0), (a, 0)]);
    assert_eq!(g.successors(&b), vec![(a, 7), (a, 7)]);
}

#[test]
fn build_graph_joins_ways_at_shared_points() {
    let a = c(0, 0);
    let b = c(10, 0);
    let d = c(10, 10);
    let g = build_graph(&vec![vec![a, b], vec![b, d]], manhattan);
    assert_eq!(g.successors(&b), vec![(a, 10), (d, 10)]);
}

#[test]
fn find_path_on_a_chain_sums_its_edges() {
    let pts = vec![c(0, 0), c(100, 0), c(100, 100), c(250, 100)];
    let g = build_graph(&vec![pts.clone()], manhattan);
    let goal = pts[3];
    let (path, cost) = find_path(&g, pts[0], goal, |n| manhattan(n, goal)).unwrap();
    assert_eq!(path, pts);
    assert_eq!(cost, 100 + 100 + 150);
    assert_eq!(g.path_cost(&path), cost);
}

#[test]
fn find_path_picks_the_cheaper_route() {
    let s = c(0, 0);
    let t = c(10, 0);
    let detour = c(5, 50);
    let g = build_graph(&vec![vec![s, detour, t], vec![s, t]], manhattan);
    let (path, cost) = find_path(&g, s, t, |n| manhattan(n, t)).unwrap();
    assert_eq!(path, vec![s, t]);
    assert_eq!(cost, 10);
}

#[test]
fn find_path_from_goal_to_itself() {
    let s = c(1, 1);
    let g = build_graph(&vec![vec![s, c(2, 2)]], manhattan);
    assert_eq!(find_path(&g, s, s, |_| 0), Some((vec![s], 0)));
}

#[test]
fn find_path_returns_none_when_unreachable() {
    let g = build_graph(&vec![vec![c(0, 0), c(1, 0)], vec![c(50, 50), c(60, 50)]], manhattan);
    let goal = c(60, 50);
    assert_eq!(find_path(&g, c(0, 0), goal, |n| manhattan(n, goal)), None);
}

#[test]
fn find_path_returns_none_for_absent_nodes() {
    let g = build_graph(&vec![vec![c(0, 0), c(1, 0)]], manhattan);
    assert_eq!(find_path(&g, c(5, 5), c(0, 0), |_| 0), None);
    assert_eq!(find_path(&g, c(0, 0), c(9, 9), |_| 0), None);
    assert_eq!(find_path(&Graph::new(), c(0, 0), c(1, 1), |_| 0), None);
}

#[test]
fn found_path_cost_matches_recomputed_edges() {
    let ways = vec![
        vec![c(134_000_000, 525_000_000), c(134_010_000, 525_005_000), c(134_020_000, 525_000_000)],
        vec![c(134_010_000, 525_005_000), c(134_010_000, 525_050_000)],
    ];
    let g = build_graph(&ways, haversine);
    let goal = c(134_010_000, 525_050_000);
    let (path, cost) = find_path(&g, ways[0][0], goal, |n| haversine(n, goal)).unwrap();
    let mut sum: i128 = 0;
    for w in path.windows(2) {
        let step = g
            .successors(&w[0])
            .into_iter()
            .filter(|(t, _)| *t == w[1])
            .map(|(_, k)| k)
            .min()
            .unwrap();
        sum += step as i128;
    }
    assert_eq!(sum, cost);
    assert_eq!(path.len(), 3);
}

#[test]
fn heuristic_never_exceeds_remaining_cost() {
    let ways = vec![vec![
        c(134_000_000, 525_000_000),
        c(134_050_000, 525_020_000),
        c(134_080_000, 525_090_000),
        c(134_150_000, 525_100_000),
        c(134_160_000, 525_200_000),
    ]];
    let g = build_graph(&ways, haversine);
    let goal = ways[0][4];
    let (path, _) = find_path(&g, ways[0][0], goal, |n| haversine(n, goal)).unwrap();
    for i in 0..path.len() {
        let remaining = g.path_cost(&path[i..].to_vec());
        assert!(haversine(path[i], goal) as i128 <= remaining);
    }
}

#[test]
fn random_node_lies_on_a_highway() {
    let ways = vec![vec![c(1, 2), c(3, 4)], vec![c(5, 6)]];
    for _ in 0..20 {
        let p = get_random_node(&ways).unwrap();
        assert!(ways.iter().any(|w| w.contains(&p)));
    }
    assert_eq!(get_random_node(&vec![]), None);
    assert_eq!(get_random_node(&vec![vec![]]), None);
}

#[test]
fn edge_holds_target_and_cost() {
    let e = Edge { target: c(1, 1), cost: 5 };
    assert_eq!(e.target, c(1, 1));
    assert_eq!(e.cost, 5);
}

#[test]
fn ways_are_classified_by_first_matching_key() {
    assert_eq!(classify_way(true, true, false, false, false, false), Some(WayKind::Highway));
    assert_eq!(classify_way(false, true, true, false, false, false), Some(WayKind::Waterway));
    assert_eq!(classify_way(false, false, true, true, false, false), Some(WayKind::Railway));
    assert_eq!(classify_way(false, false, false, true, true, true), Some(WayKind::Building));
    assert_eq!(classify_way(false, false, false, false, true, true), Some(WayKind::Natural));
    assert_eq!(classify_way(false, false, false, false, false, true), Some(WayKind::Aeroway));
    assert_eq!(classify_way(false, false, false, false, false, false), None);
}

#[test]
fn way_nodes_skip_unknown_ids() {
    let mut nodes = HashMap::new();
    nodes.insert(1, c(10, 10));
    nodes.insert(3, c(30, 30));
    assert_eq!(extract_way_nodes(&vec![1, 2, 3, 1], &nodes), vec![c(10, 10), c(30, 30), c(10, 10)]);
    assert_eq!(extract_way_nodes(&vec![], &nodes), vec![]);
}

#[test]
fn multipolygon_rings_come_from_known_member_ways() {
    let mut nodes = HashMap::new();
    nodes.insert(1, c(0, 0));
    nodes.insert(2, c(0, 5));
    nodes.insert(3, c(5, 5));
    let mut ways = HashMap::new();
    ways.insert(100, vec![1, 2, 3]);
    ways.insert(200, vec![3, 4, 1]);
    let rings = assemble_multipolygon(&vec![200, 999, 100], &ways, &nodes);
    assert_eq!(rings, vec![vec![c(5, 5), c(0, 0)], vec![c(0, 0), c(0, 5), c(5, 5)]]);
}

#[test]
fn added_edges_extend_adjacency_in_order() {
    let mut g = Graph::new();
    g.add_edge(c(0, 0), Edge { target: c(1, 1), cost: 3 });
    g.add_edge(c(0, 0), Edge { target: c(2, 2), cost: 4 });
    g.add_edge(c(2, 2), Edge { target: c(0, 0), cost: 4 });
    assert_eq!(g.successors(&c(0, 0)), vec![(c(1, 1), 3), (c(2, 2), 4)]);
    assert_eq!(g.successors(&c(2, 2)), vec![(c(0, 0), 4)]);
    assert!(g.successors(&c(1, 1)).is_empty());
}

#[test]
fn admissible_heuristic_finds_shortest_path() {
    let s = c(0, 0);
    let t = c(40, 0);
    let ways = vec![
        vec![s, c(10, 0), c(20, 0), c(30, 0), t],
        vec![s, c(20, 30), t],
        vec![s, c(5, 1), c(40, 1), t],
    ];
    let g = build_graph(&ways, manhattan);
    let (path, cost) = find_path(&g, s, t, |n| manhattan(n, t)).unwrap();
    assert_eq!(cost, 40);
    assert_eq!(path, ways[0]);
}
