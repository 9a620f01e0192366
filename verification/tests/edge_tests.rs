use graph_algos::edge::{Edge, Edges};
use std::cmp::Ordering;

#[test]
fn constructors_fill_the_fields() {
    let e = Edge::new_weighted(7, 1, 2);
    assert_eq!(e.value, Some(7));
    assert_eq!(e.from, 1);
    assert_eq!(e.to, 2);
    let f = Edge::new(3, 4);
    assert_eq!(f.value, None);
    assert_eq!(f.from, 3);
    assert_eq!(f.to, 4);
}

#[test]
fn reverse_swaps_the_endpoints() {
    let e = Edge::new_weighted(7, 1, 2).reverse();
    assert_eq!(e, Edge::new_weighted(7, 2, 1));
    assert_eq!(Edge::new(5, 5).reverse(), Edge::new(5, 5));
}

#[test]
fn weight_or_one_defaults_to_one() {
    assert_eq!(Edge::new(1, 2).weight_or_one(), 1);
    assert_eq!(Edge::new_weighted(0, 1, 2).weight_or_one(), 0);
    assert_eq!(Edge::new_weighted(9, 1, 2).weight_or_one(), 9);
}

#[test]
fn compare_values_orders_by_weight() {
    let none = Edge::new(1, 2);
    let zero = Edge::new_weighted(0, 1, 2);
    let five = Edge::new_weighted(5, 3, 4);
    assert_eq!(none.compare_values(&none), Ordering::Equal);
    assert_eq!(none.compare_values(&zero), Ordering::Less);
    assert_eq!(zero.compare_values(&none), Ordering::Greater);
    assert_eq!(zero.compare_values(&five), Ordering::Less);
    assert_eq!(five.compare_values(&Edge::new_weighted(5, 9, 9)), Ordering::Equal);
    assert_eq!(five.compare_values(&zero), Ordering::Greater);
}

#[test]
fn heavier_than_is_strict() {
    let zero = Edge::new_weighted(0, 1, 2);
    let five = Edge::new_weighted(5, 3, 4);
    assert!(five.heavier_than(&zero));
    assert!(!zero.heavier_than(&five));
    assert!(!five.heavier_than(&five));
    assert!(zero.heavier_than(&Edge::new(1, 2)));
}

#[test]
fn same_ignore_direction_looks_at_endpoints_and_weight() {
    let e = Edge::new_weighted(3, 1, 2);
    assert!(e.same_ignore_direction(&Edge::new_weighted(3, 1, 2)));
    assert!(e.same_ignore_direction(&Edge::new_weighted(3, 2, 1)));
    assert!(!e.same_ignore_direction(&Edge::new_weighted(4, 2, 1)));
    assert!(!e.same_ignore_direction(&Edge::new_weighted(3, 1, 3)));
    assert!(!e.same_ignore_direction(&Edge::new(2, 1)));
    assert!(Edge::new(1, 2).same_ignore_direction(&Edge::new(2, 1)));
}

#[test]
fn edges_grow_in_insertion_order() {
    let mut edges = Edges::new();
    assert_eq!(edges.len(), 0);
    assert!(matches!(edges, Edges::Empty));
    edges.add_edge(Edge::new(1, 2));
    edges.add_edge(Edge::new(1, 3));
    assert_eq!(edges.len(), 2);
    assert_eq!(edges.get(0), Edge::new(1, 2));
    assert_eq!(edges.get(1), Edge::new(1, 3));
}

#[test]
fn from_edge_holds_one_edge() {
    let edges = Edges::from_edge(Edge::new_weighted(2, 8, 9));
    assert_eq!(edges.len(), 1);
    assert_eq!(edges.get(0), Edge::new_weighted(2, 8, 9));
}

#[test]
fn reverse_turns_the_order_round() {
    let mut edges = Edges::new();
    edges.reverse();
    assert_eq!(edges.len(), 0);
    edges.add_edge(Edge::new(1, 2));
    edges.add_edge(Edge::new(2, 3));
    edges.add_edge(Edge::new(3, 4));
    edges.reverse();
    let got: Vec<Edge> = edges.iter().copied().collect();
    assert_eq!(got, vec![Edge::new(3, 4), Edge::new(2, 3), Edge::new(1, 2)]);
}

#[test]
fn iter_walks_the_edges_in_order() {
    let empty = Edges::new();
    assert_eq!(empty.iter().count(), 0);
    let mut edges = Edges::new();
    edges.add_edge(Edge::new(1, 2));
    edges.add_edge(Edge::new(1, 3));
    let targets: Vec<u32> = edges.iter().map(|e| e.to).collect();
    assert_eq!(targets, vec![2, 3]);
}
