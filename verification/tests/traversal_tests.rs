use graph_algos::edge::Edge;
use graph_algos::graph::{Graph, Vertices};
use graph_algos::traversal::{
    breadth_first_search, depth_first_search, depth_first_search_iter,
    depth_first_search_iter_traced, dfs_visit, visited_map, DfsEvent,
};

fn sample() -> Graph {
    let mut g = Graph::new();
    g.add_adj(Edge::new(1, 2));
    g.add_adj(Edge::new(1, 3));
    g.add_adj(Edge::new(2, 4));
    g.add_adj(Edge::new(3, 4));
    g.add_adj(Edge::new(4, 5));
    g.add_adj(Edge::new(6, 7));
    g
}

#[test]
fn bfs_visits_nearest_first() {
    let g = sample();
    let r = breadth_first_search(&g, 1);
    assert_eq!(r.0, vec![1, 2, 3, 4, 5]);
}

#[test]
fn bfs_from_unknown_vertex_is_the_vertex_alone() {
    let g = sample();
    let r = breadth_first_search(&g, 42);
    assert_eq!(r.0, vec![42]);
}

#[test]
fn dfs_visits_every_vertex_once() {
    let g = sample();
    let r = depth_first_search(&g);
    assert_eq!(r.0, vec![1, 2, 4, 5, 3, 6, 7]);
}

#[test]
fn dfs_iter_lists_vertices_when_left() {
    let g = sample();
    let r = depth_first_search_iter(&g);
    assert_eq!(r.0, vec![5, 4, 2, 3, 1, 7, 6]);
}

#[test]
fn bfs_order_never_steps_back_a_level() {
    let mut g = Graph::new();
    g.add_adj(Edge::new(1, 4));
    g.add_adj(Edge::new(1, 2));
    g.add_adj(Edge::new(4, 5));
    g.add_adj(Edge::new(2, 3));
    g.add_adj(Edge::new(5, 3));
    g.add_adj(Edge::new(3, 1));
    let r = breadth_first_search(&g, 1);
    assert_eq!(r.0, vec![1, 4, 2, 5, 3]);
    let r = breadth_first_search(&g, 5);
    assert_eq!(r.0, vec![5, 3, 1, 4, 2]);
}

#[test]
fn dfs_of_the_empty_graph_is_empty() {
    let g = Graph::new();
    assert!(depth_first_search(&g).0.is_empty());
    assert!(depth_first_search_iter(&g).0.is_empty());
}

#[test]
fn dfs_visit_appends_what_is_reachable_and_new() {
    let g = sample();
    let mut visited = visited_map(&g);
    assert_eq!(visited, vec![false; 7]);
    let mut result = Vertices::new();
    dfs_visit(&3, &g, &mut visited, &mut result);
    assert_eq!(result.0, vec![3, 4, 5]);
    dfs_visit(&1, &g, &mut visited, &mut result);
    assert_eq!(result.0, vec![3, 4, 5, 1, 2]);
    assert_eq!(visited, vec![true, true, true, true, true, false, false]);
}

#[test]
fn traversals_are_repeatable() {
    let g = sample();
    assert_eq!(breadth_first_search(&g, 1).0, breadth_first_search(&g, 1).0);
    assert_eq!(depth_first_search(&g).0, depth_first_search(&g).0);
    assert_eq!(depth_first_search_iter(&g).0, depth_first_search_iter(&g).0);
}

#[test]
fn every_traversal_handles_cycles() {
    let mut g = Graph::new();
    g.add_adj_both(Edge::new(1, 2));
    g.add_adj_both(Edge::new(2, 3));
    g.add_adj_both(Edge::new(3, 1));
    assert_eq!(breadth_first_search(&g, 2).0, vec![2, 1, 3]);
    assert_eq!(depth_first_search(&g).0, vec![1, 2, 3]);
    assert_eq!(depth_first_search_iter(&g).0, vec![3, 2, 1]);
}

#[test]
fn dfs_iter_traced_reports_every_step() {
    let g = sample();
    let (order, steps) = depth_first_search_iter_traced(&g);
    assert_eq!(order.0, vec![5, 4, 2, 3, 1, 7, 6]);
    assert_eq!(
        steps,
        vec![
            DfsEvent::Push(1),
            DfsEvent::Curr(1),
            DfsEvent::Push(2),
            DfsEvent::Curr(2),
            DfsEvent::Push(4),
            DfsEvent::Curr(4),
            DfsEvent::Push(5),
            DfsEvent::Curr(5),
            DfsEvent::Pop(5),
            DfsEvent::Curr(4),
            DfsEvent::Pop(4),
            DfsEvent::Curr(2),
            DfsEvent::Pop(2),
            DfsEvent::Curr(1),
            DfsEvent::Push(3),
            DfsEvent::Curr(3),
            DfsEvent::Pop(3),
            DfsEvent::Curr(1),
            DfsEvent::Pop(1),
            DfsEvent::Push(6),
            DfsEvent::Curr(6),
            DfsEvent::Push(7),
            DfsEvent::Curr(7),
            DfsEvent::Pop(7),
            DfsEvent::Curr(6),
            DfsEvent::Pop(6),
        ]
    );
}

#[test]
fn dfs_iter_handles_a_vertex_without_edges() {
    let mut g = Graph::new();
    g.add_adj(Edge::new(1, 2));
    let (order, steps) = depth_first_search_iter_traced(&g);
    assert_eq!(order.0, vec![2, 1]);
    assert_eq!(steps.len(), 7);
    assert_eq!(depth_first_search_iter(&g).0, vec![2, 1]);
}
