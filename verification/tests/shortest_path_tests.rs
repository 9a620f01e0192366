use graph_algos::distance::Distance;
use graph_algos::edge::{Edge, Edges};
use graph_algos::graph::Graph;
use graph_algos::heap::VertAttributes;
use graph_algos::shortest_path::{
    attributes_to_predecessors, initialize_single_source, initialize_single_source_dijkstra,
    recreate_path, relax, shortest_path_bellman_ford, shortest_path_dijkstra,
};
use std::collections::HashMap;

fn steps(path: &Edges) -> Vec<(u32, u32)> {
    path.iter().map(|e| (e.from, e.to)).collect()
}

fn cost(g: &Graph, path: &Edges) -> u64 {
    path.iter()
        .map(|step| {
            let at = g.position(step.from).unwrap();
            g.edges_at(at)
                .iter()
                .filter(|e| e.to == step.to)
                .map(|e| e.weight_or_one() as u64)
                .min()
                .unwrap()
        })
        .sum()
}

fn triangle() -> Graph {
    let mut g = Graph::new();
    g.add_adj(Edge::new_weighted(1, 1, 2));
    g.add_adj(Edge::new_weighted(2, 2, 3));
    g.add_adj(Edge::new_weighted(5, 1, 3));
    g
}

fn city() -> Graph {
    let mut g = Graph::new();
    for &(w, a, b) in &[
        (7u32, 1u32, 2u32),
        (9, 1, 3),
        (14, 1, 6),
        (10, 2, 3),
        (15, 2, 4),
        (11, 3, 4),
        (2, 3, 6),
        (6, 4, 5),
        (9, 5, 6),
    ] {
        g.add_adj_both(Edge::new_weighted(w, a, b));
    }
    g
}

#[test]
fn dijkstra_prefers_the_lighter_detour() {
    let g = triangle();
    let path = shortest_path_dijkstra(&g, 1, 3).unwrap();
    assert_eq!(steps(&path), vec![(1, 2), (2, 3)]);
    assert_eq!(cost(&g, &path), 3);
    assert!(path.iter().all(|e| e.value.is_none()));
}

#[test]
fn bellman_ford_prefers_the_lighter_detour() {
    let g = triangle();
    let path = shortest_path_bellman_ford(&g, 1, 3).unwrap();
    assert_eq!(steps(&path), vec![(1, 2), (2, 3)]);
    assert_eq!(cost(&g, &path), 3);
}

#[test]
fn both_searches_find_the_same_length() {
    let g = city();
    for start in 1u32..=6 {
        for end in 1u32..=6 {
            let d = shortest_path_dijkstra(&g, start, end);
            let b = shortest_path_bellman_ford(&g, start, end);
            assert_eq!(d.is_some(), b.is_some());
            assert_eq!(d.is_some(), start != end);
            if let (Some(d), Some(b)) = (d, b) {
                assert_eq!(cost(&g, &d), cost(&g, &b));
            }
        }
    }
    let d = shortest_path_dijkstra(&g, 1, 5).unwrap();
    assert_eq!(steps(&d), vec![(1, 3), (3, 6), (6, 5)]);
    assert_eq!(cost(&g, &d), 20);
}

#[test]
fn there_is_no_path_against_the_direction_of_the_edges() {
    let g = triangle();
    assert!(shortest_path_dijkstra(&g, 3, 1).is_none());
    assert!(shortest_path_bellman_ford(&g, 3, 1).is_none());
}

#[test]
fn there_is_no_path_from_a_vertex_to_itself() {
    let g = city();
    assert!(shortest_path_dijkstra(&g, 2, 2).is_none());
    assert!(shortest_path_bellman_ford(&g, 2, 2).is_none());
}

#[test]
fn there_is_no_path_from_or_to_an_unknown_vertex() {
    let g = triangle();
    assert!(shortest_path_dijkstra(&g, 9, 1).is_none());
    assert!(shortest_path_bellman_ford(&g, 9, 1).is_none());
    assert!(shortest_path_dijkstra(&g, 1, 9).is_none());
    assert!(shortest_path_bellman_ford(&g, 1, 9).is_none());
}

#[test]
fn an_edge_without_weight_counts_as_one() {
    let mut g = Graph::new();
    g.add_adj(Edge::new(1, 2));
    g.add_adj(Edge::new(2, 3));
    g.add_adj(Edge::new(3, 4));
    g.add_adj(Edge::new_weighted(2, 1, 4));
    let d = shortest_path_dijkstra(&g, 1, 4).unwrap();
    assert_eq!(steps(&d), vec![(1, 4)]);
    let b = shortest_path_bellman_ford(&g, 1, 4).unwrap();
    assert_eq!(steps(&b), vec![(1, 4)]);
}

#[test]
fn edges_of_weight_zero_are_followed() {
    let mut g = Graph::new();
    g.add_adj_both(Edge::new_weighted(0, 1, 2));
    g.add_adj_both(Edge::new_weighted(0, 2, 3));
    g.add_adj_both(Edge::new_weighted(1, 1, 3));
    let d = shortest_path_dijkstra(&g, 1, 3).unwrap();
    assert_eq!(cost(&g, &d), 0);
    let b = shortest_path_bellman_ford(&g, 1, 3).unwrap();
    assert_eq!(cost(&g, &b), 0);
}

#[test]
fn a_distance_that_does_not_fit_counts_as_unreachable() {
    let mut g = Graph::new();
    g.add_adj(Edge::new_weighted(u32::MAX, 1, 2));
    g.add_adj(Edge::new_weighted(1, 2, 3));
    assert!(shortest_path_dijkstra(&g, 1, 2).is_some());
    assert!(shortest_path_dijkstra(&g, 1, 3).is_none());
    assert!(shortest_path_bellman_ford(&g, 1, 3).is_none());
}

#[test]
fn initial_table_puts_the_source_at_zero() {
    let g = triangle();
    let table = initialize_single_source(&g, 2);
    assert_eq!(table.len(), 3);
    assert_eq!(table[&2], VertAttributes::new_zero(2));
    assert_eq!(table[&1], VertAttributes::new_inf(1));
    assert_eq!(table[&3], VertAttributes::new_inf(3));
    let with_stranger = initialize_single_source(&g, 8);
    assert_eq!(with_stranger.len(), 4);
    assert_eq!(with_stranger[&8].distance, Distance::Dist(0));
}

#[test]
fn initial_heap_has_the_source_at_the_root() {
    let g = triangle();
    let mut heap = initialize_single_source_dijkstra(&g, 3);
    assert_eq!(heap.len(), 3);
    let first = heap.extract_min();
    assert_eq!(first.id, 3);
    assert_eq!(first.distance, Distance::Dist(0));
    assert_eq!(heap.extract_min().distance, Distance::Inf);
}

#[test]
fn relax_offers_a_strictly_nearer_record_only() {
    let g = triangle();
    let mut table = initialize_single_source(&g, 1);
    let edge = Edge::new_weighted(1, 1, 2);
    let offered = relax(&table, &edge).unwrap();
    assert_eq!(
        offered,
        VertAttributes { id: 2, predecessor: Some(1), distance: Distance::Dist(1) }
    );
    table.insert(2, offered);
    assert_eq!(relax(&table, &edge), None);
    assert_eq!(relax(&table, &Edge::new_weighted(2, 3, 2)), None);
    let on = relax(&table, &Edge::new(2, 3)).unwrap();
    assert_eq!(on.distance, Distance::Dist(2));
    assert_eq!(on.predecessor, Some(2));
}

#[test]
fn predecessors_are_read_off_the_table() {
    let g = triangle();
    let mut table = initialize_single_source(&g, 1);
    table.insert(2, VertAttributes { id: 2, predecessor: Some(1), distance: Distance::Dist(1) });
    let preds = attributes_to_predecessors(&g, &table);
    assert_eq!(preds.len(), 1);
    assert_eq!(preds[&2], 1);
}

#[test]
fn recreate_path_walks_back_to_the_start() {
    let mut preds: HashMap<u32, u32> = HashMap::new();
    preds.insert(4, 3);
    preds.insert(3, 2);
    preds.insert(2, 1);
    let path = recreate_path(1, 4, &preds).unwrap();
    assert_eq!(steps(&path), vec![(1, 2), (2, 3), (3, 4)]);
    let shorter = recreate_path(2, 4, &preds).unwrap();
    assert_eq!(steps(&shorter), vec![(2, 3), (3, 4)]);
    assert!(recreate_path(4, 1, &preds).is_none());
    assert!(recreate_path(1, 1, &preds).is_none());
    assert!(recreate_path(9, 4, &preds).is_none());
}

#[test]
fn recreate_path_gives_up_on_a_circle() {
    let mut preds: HashMap<u32, u32> = HashMap::new();
    preds.insert(1, 2);
    preds.insert(2, 3);
    preds.insert(3, 1);
    assert!(recreate_path(7, 1, &preds).is_none());
    let round = recreate_path(1, 1, &preds).unwrap();
    assert_eq!(steps(&round), vec![(1, 3), (3, 2), (2, 1)]);
}

#[test]
fn searching_twice_gives_the_same_answer() {
    let g = city();
    let first = shortest_path_dijkstra(&g, 1, 5).map(|p| steps(&p));
    let second = shortest_path_dijkstra(&g, 1, 5).map(|p| steps(&p));
    assert_eq!(first, second);
    let third = shortest_path_bellman_ford(&g, 1, 5).map(|p| steps(&p));
    let fourth = shortest_path_bellman_ford(&g, 1, 5).map(|p| steps(&p));
    assert_eq!(third, fourth);
}
