use graph_algos::edge::{Edge, Edges};
use graph_algos::graph::Graph;
use graph_algos::mst::{
    edges_sorted_asc, minimal_spanning_tree_kruskal, minimal_spanning_tree_prim, union_sets,
};
use std::collections::HashMap;

fn undirected(links: &[(u32, u32, u32)]) -> Graph {
    let mut g = Graph::new();
    for &(w, a, b) in links {
        g.add_adj_both(Edge::new_weighted(w, a, b));
    }
    g
}

fn sample() -> Graph {
    undirected(&[(1, 1, 2), (2, 2, 3), (3, 1, 3), (4, 3, 4), (5, 2, 4)])
}

fn list(edges: &Edges) -> Vec<Edge> {
    edges.iter().copied().collect()
}

fn total(edges: &Edges) -> u64 {
    edges.iter().map(|e| e.weight_or_one() as u64).sum()
}

#[test]
fn candidates_hold_every_link_once_lightest_first() {
    let g = sample();
    assert_eq!(
        edges_sorted_asc(&g),
        vec![
            Edge::new_weighted(1, 1, 2),
            Edge::new_weighted(2, 2, 3),
            Edge::new_weighted(3, 1, 3),
            Edge::new_weighted(4, 3, 4),
            Edge::new_weighted(5, 2, 4),
        ]
    );
}

#[test]
fn candidates_of_equal_weight_stay_in_storage_order() {
    let mut g = Graph::new();
    g.add_adj(Edge::new_weighted(2, 1, 2));
    g.add_adj(Edge::new(3, 1));
    g.add_adj(Edge::new_weighted(2, 2, 3));
    g.add_adj(Edge::new_weighted(2, 1, 3));
    g.add_adj(Edge::new_weighted(2, 2, 1));
    assert_eq!(
        edges_sorted_asc(&g),
        vec![
            Edge::new(3, 1),
            Edge::new_weighted(2, 1, 2),
            Edge::new_weighted(2, 1, 3),
            Edge::new_weighted(2, 2, 3),
        ]
    );
}

#[test]
fn union_sets_moves_a_whole_component() {
    let mut g = Graph::new();
    g.add_adj(Edge::new(1, 2));
    g.add_adj(Edge::new(3, 4));
    let mut sets: HashMap<u32, u32> = HashMap::new();
    sets.insert(1, 1);
    sets.insert(2, 1);
    sets.insert(3, 3);
    sets.insert(4, 3);
    union_sets(&g, &mut sets, 2, 4);
    assert_eq!(sets[&1], 3);
    assert_eq!(sets[&2], 3);
    assert_eq!(sets[&3], 3);
    assert_eq!(sets[&4], 3);
}

#[test]
fn kruskal_accepts_the_lightest_edges_that_join_components() {
    let g = sample();
    let tree = minimal_spanning_tree_kruskal(&g);
    assert_eq!(
        list(&tree),
        vec![
            Edge::new_weighted(1, 1, 2),
            Edge::new_weighted(2, 2, 3),
            Edge::new_weighted(4, 3, 4),
        ]
    );
    assert_eq!(total(&tree), 7);
}

#[test]
fn kruskal_spans_every_component() {
    let g = undirected(&[(3, 1, 2), (1, 3, 4), (2, 4, 5), (9, 3, 5)]);
    let forest = minimal_spanning_tree_kruskal(&g);
    assert_eq!(
        list(&forest),
        vec![
            Edge::new_weighted(1, 3, 4),
            Edge::new_weighted(2, 4, 5),
            Edge::new_weighted(3, 1, 2),
        ]
    );
}

#[test]
fn kruskal_of_the_empty_graph_is_empty() {
    let g = Graph::new();
    assert_eq!(minimal_spanning_tree_kruskal(&g).len(), 0);
}

#[test]
fn prim_links_every_vertex_to_its_predecessor() {
    let g = sample();
    let tree = minimal_spanning_tree_prim(&g, 1);
    assert_eq!(
        list(&tree),
        vec![
            Edge::new_weighted(1, 2, 1),
            Edge::new_weighted(2, 3, 2),
            Edge::new_weighted(4, 4, 3),
        ]
    );
    assert_eq!(total(&tree), 7);
}

#[test]
fn prim_and_kruskal_weigh_the_same() {
    let g = undirected(&[
        (7, 1, 2),
        (5, 1, 4),
        (8, 2, 3),
        (9, 2, 4),
        (7, 2, 5),
        (5, 3, 5),
        (15, 4, 5),
        (6, 4, 6),
        (8, 5, 6),
        (9, 5, 7),
        (11, 6, 7),
    ]);
    let kruskal = minimal_spanning_tree_kruskal(&g);
    assert_eq!(kruskal.len(), 6);
    assert_eq!(total(&kruskal), 39);
    for root in 1u32..=7 {
        let prim = minimal_spanning_tree_prim(&g, root);
        assert_eq!(prim.len(), 6);
        assert_eq!(total(&prim), 39);
    }
}

#[test]
fn prim_from_a_vertex_outside_the_graph_starts_anywhere() {
    let g = sample();
    let forest = minimal_spanning_tree_prim(&g, 99);
    assert_eq!(forest.len(), 3);
    assert_eq!(total(&forest), 7);
}

#[test]
fn prim_treats_an_edge_without_weight_as_weight_one() {
    let mut g = Graph::new();
    g.add_adj_both(Edge::new(1, 2));
    g.add_adj_both(Edge::new_weighted(3, 1, 3));
    g.add_adj_both(Edge::new(2, 3));
    let tree = minimal_spanning_tree_prim(&g, 1);
    assert_eq!(list(&tree), vec![Edge::new(2, 1), Edge::new(3, 2)]);
}
