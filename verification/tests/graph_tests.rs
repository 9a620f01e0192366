use graph_algos::edge::Edge;
use graph_algos::graph::{Graph, Vertices};

fn out(g: &Graph, v: u32) -> Vec<Edge> {
    match g.position(v) {
        Some(i) => g.edges_at(i).iter().copied().collect(),
        None => Vec::new(),
    }
}

fn vertices(g: &Graph) -> Vec<u32> {
    (0..g.vertex_count()).map(|i| g.vertex_at(i)).collect()
}

#[test]
fn new_graph_is_empty() {
    let g = Graph::new();
    assert_eq!(g.vertex_count(), 0);
    assert_eq!(g.position(1), None);
}

#[test]
fn add_adj_makes_both_endpoints_vertices() {
    let mut g = Graph::new();
    g.add_adj(Edge::new_weighted(4, 10, 20));
    assert_eq!(vertices(&g), vec![10, 20]);
    assert_eq!(out(&g, 10), vec![Edge::new_weighted(4, 10, 20)]);
    assert_eq!(out(&g, 20), vec![]);
    assert_eq!(g.position(20), Some(1));
}

#[test]
fn add_adj_keeps_insertion_order() {
    let mut g = Graph::new();
    g.add_adj(Edge::new(1, 2));
    g.add_adj(Edge::new(3, 1));
    g.add_adj(Edge::new(1, 3));
    assert_eq!(vertices(&g), vec![1, 2, 3]);
    assert_eq!(out(&g, 1), vec![Edge::new(1, 2), Edge::new(1, 3)]);
    assert_eq!(out(&g, 3), vec![Edge::new(3, 1)]);
}

#[test]
fn add_adj_both_stores_the_reverse_edge() {
    let mut g = Graph::new();
    g.add_adj_both(Edge::new_weighted(7, 1, 2));
    assert_eq!(vertices(&g), vec![1, 2]);
    assert_eq!(out(&g, 1), vec![Edge::new_weighted(7, 1, 2)]);
    assert_eq!(out(&g, 2), vec![Edge::new_weighted(7, 2, 1)]);
}

#[test]
fn a_loop_is_stored_twice_by_add_adj_both() {
    let mut g = Graph::new();
    g.add_adj_both(Edge::new(5, 5));
    assert_eq!(vertices(&g), vec![5]);
    assert_eq!(out(&g, 5), vec![Edge::new(5, 5), Edge::new(5, 5)]);
}

#[test]
fn vertices_collect_in_order() {
    let mut v = Vertices::new();
    assert!(v.0.is_empty());
    v.push(3);
    v.push(1);
    v.push(3);
    assert_eq!(v.0, vec![3, 1, 3]);
}

#[test]
fn position_of_finds_a_vertex_of_the_graph() {
    let mut g = Graph::new();
    g.add_adj(Edge::new(7, 8));
    g.add_adj(Edge::new(9, 7));
    assert_eq!(g.position_of(7), 0);
    assert_eq!(g.position_of(8), 1);
    assert_eq!(g.position_of(9), 2);
    assert_eq!(g.position(9), Some(2));
    assert_eq!(g.position(10), None);
}
