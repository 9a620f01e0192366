use graph_algos::astar::{a_star_recreate_path, shortest_path_a_star, shortest_path_a_star_with};
use graph_algos::distance::Distance;
use graph_algos::edge::Edge;
use graph_algos::graph::Graph;
use graph_algos::heap::{VertAttributes, VertexId};
use graph_algos::shortest_path::shortest_path_dijkstra;
use graph_algos::terrain::{MapSlice, Point2d, TerrainMap};
use std::collections::HashMap;

fn zero(_: &Point2d, _: &Point2d) -> Distance {
    Distance::Dist(0)
}

fn manhattan(a: &Point2d, b: &Point2d) -> Distance {
    Distance::Dist(a.x().abs_diff(b.x()) + a.y().abs_diff(b.y()))
}

fn is_walk(t: &TerrainMap, path: &[Point2d], start: Point2d, end: Point2d) -> bool {
    path.first() == Some(&start)
        && path.last() == Some(&end)
        && path.iter().all(|p| matches!(t.get(p.x(), p.y()), Some(MapSlice::Height(_))))
        && path.windows(2).all(|w| w[0].x().abs_diff(w[1].x()) + w[0].y().abs_diff(w[1].y()) == 1)
}

fn cost(t: &TerrainMap, path: &[Point2d]) -> u64 {
    path.windows(2)
        .map(|w| match t.distance(&w[0], &w[1]) {
            Some(Distance::Dist(d)) => d as u64,
            _ => panic!("not a step"),
        })
        .sum()
}

#[test]
fn flat_map_with_manhattan_estimates_gives_a_manhattan_path() {
    let t = TerrainMap::new(4, 5);
    for &(s, e) in &[((0u32, 0u32), (3u32, 4u32)), ((3, 0), (0, 4)), ((1, 2), (1, 4)), ((2, 3), (0, 3))] {
        let start = Point2d::new(s.0, s.1);
        let end = Point2d::new(e.0, e.1);
        let path = shortest_path_a_star(&t, start, end, manhattan).unwrap();
        assert!(is_walk(&t, &path, start, end));
        let far = (s.0.abs_diff(e.0) + s.1.abs_diff(e.1)) as usize;
        assert_eq!(path.len(), far + 1);
    }
}

#[test]
fn obstacle_across_the_map_forces_a_detour() {
    let mut t = TerrainMap::new(3, 3);
    t.put_obstacle(Point2d::new(0, 1), Point2d::new(1, 1));
    let start = Point2d::new(0, 0);
    let end = Point2d::new(0, 2);
    let path = shortest_path_a_star(&t, start, end, manhattan).unwrap();
    assert_eq!(
        path,
        vec![
            Point2d::new(0, 0),
            Point2d::new(1, 0),
            Point2d::new(2, 0),
            Point2d::new(2, 1),
            Point2d::new(2, 2),
            Point2d::new(1, 2),
            Point2d::new(0, 2),
        ]
    );
    assert!(path.len() - 1 > 2);
}

#[test]
fn obstacle_over_a_full_row_leaves_no_path() {
    let mut t = TerrainMap::new(3, 3);
    t.put_obstacle(Point2d::new(0, 1), Point2d::new(2, 1));
    assert_eq!(shortest_path_a_star(&t, Point2d::new(0, 0), Point2d::new(2, 2), manhattan), None);
    assert_eq!(shortest_path_a_star(&t, Point2d::new(0, 0), Point2d::new(2, 2), zero), None);
}

#[test]
fn zero_estimates_give_a_cheapest_path() {
    let mut t = TerrainMap::new(3, 3);
    *t.get_mut(1, 0).unwrap() = MapSlice::Height(9);
    *t.get_mut(1, 1).unwrap() = MapSlice::Height(9);
    let start = Point2d::new(0, 0);
    let end = Point2d::new(2, 0);
    let path = shortest_path_a_star(&t, start, end, zero).unwrap();
    assert_eq!(
        path,
        vec![
            Point2d::new(0, 0),
            Point2d::new(0, 1),
            Point2d::new(0, 2),
            Point2d::new(1, 2),
            Point2d::new(2, 2),
            Point2d::new(2, 1),
            Point2d::new(2, 0),
        ]
    );
    assert_eq!(cost(&t, &path), 6);
}

#[test]
fn climbing_is_taken_where_it_is_cheaper() {
    let mut t = TerrainMap::new(3, 3);
    *t.get_mut(1, 0).unwrap() = MapSlice::Height(2);
    *t.get_mut(1, 1).unwrap() = MapSlice::Height(9);
    let start = Point2d::new(0, 0);
    let end = Point2d::new(2, 0);
    let path = shortest_path_a_star(&t, start, end, zero).unwrap();
    assert_eq!(path, vec![Point2d::new(0, 0), Point2d::new(1, 0), Point2d::new(2, 0)]);
    assert_eq!(cost(&t, &path), 4);
}

#[test]
fn there_is_no_path_from_a_cell_to_itself() {
    let t = TerrainMap::new(3, 3);
    let p = Point2d::new(1, 1);
    assert_eq!(shortest_path_a_star(&t, p, p, zero), None);
}

#[test]
fn there_is_no_path_from_or_to_a_cell_that_cannot_be_walked_on() {
    let mut t = TerrainMap::new(3, 3);
    t.put_obstacle(Point2d::new(2, 2), Point2d::new(2, 2));
    assert_eq!(shortest_path_a_star(&t, Point2d::new(0, 0), Point2d::new(2, 2), zero), None);
    assert_eq!(shortest_path_a_star(&t, Point2d::new(2, 2), Point2d::new(0, 0), zero), None);
    assert_eq!(shortest_path_a_star(&t, Point2d::new(0, 0), Point2d::new(5, 0), zero), None);
    assert_eq!(shortest_path_a_star(&t, Point2d::new(0, 9), Point2d::new(0, 0), zero), None);
}

#[test]
fn estimates_can_be_handed_over_as_a_table() {
    let t = TerrainMap::new(3, 2);
    let end = Point2d::new(2, 1);
    let mut estimates: HashMap<u64, Distance> = HashMap::new();
    for x in 0..3 {
        for y in 0..2 {
            let p = Point2d::new(x, y);
            estimates.insert(p.key(), manhattan(&p, &end));
        }
    }
    let start = Point2d::new(0, 0);
    let path = shortest_path_a_star_with(&t, start, end, &estimates).unwrap();
    assert!(is_walk(&t, &path, start, end));
    assert_eq!(path.len(), 4);
    let by_closure = shortest_path_a_star(&t, start, end, manhattan).unwrap();
    assert_eq!(path, by_closure);
}

#[test]
fn a_star_recreate_path_walks_back_to_the_start() {
    let a = Point2d::new(0, 0);
    let b = Point2d::new(1, 0);
    let c = Point2d::new(1, 1);
    let mut records: HashMap<u64, VertAttributes<Point2d>> = HashMap::new();
    records.insert(a.key(), VertAttributes::new_zero(a));
    records.insert(b.key(), VertAttributes { id: b, predecessor: Some(a), distance: Distance::Dist(1) });
    records.insert(c.key(), VertAttributes { id: c, predecessor: Some(b), distance: Distance::Dist(2) });
    assert_eq!(a_star_recreate_path(&records, &a, &c), Some(vec![a, b, c]));
    assert_eq!(a_star_recreate_path(&records, &b, &c), Some(vec![b, c]));
    assert_eq!(a_star_recreate_path(&records, &c, &a), None);
    assert_eq!(a_star_recreate_path(&records, &a, &a), None);
    assert_eq!(a_star_recreate_path(&records, &a, &Point2d::new(5, 5)), None);
}

#[test]
fn searching_twice_over_the_same_map_gives_the_same_path() {
    let mut t = TerrainMap::new(4, 4);
    t.put_obstacle(Point2d::new(1, 1), Point2d::new(1, 2));
    let start = Point2d::new(0, 1);
    let end = Point2d::new(3, 2);
    let first = shortest_path_a_star(&t, start, end, manhattan);
    let second = shortest_path_a_star(&t, start, end, manhattan);
    assert_eq!(first, second);
    assert!(is_walk(&t, first.as_ref().unwrap(), start, end));
    assert_eq!(first.unwrap().len(), 7);
}

#[test]
fn zero_estimates_cost_what_dijkstra_finds_on_the_mirroring_graph() {
    let mut t = TerrainMap::new(4, 3);
    *t.get_mut(1, 0).unwrap() = MapSlice::Height(4);
    *t.get_mut(1, 1).unwrap() = MapSlice::Height(2);
    *t.get_mut(2, 1).unwrap() = MapSlice::Height(7);
    t.put_obstacle(Point2d::new(3, 1), Point2d::new(3, 1));
    let id = |p: &Point2d| p.y() * 4 + p.x();
    let mut g = Graph::new();
    for x in 0..4 {
        for y in 0..3 {
            let p = Point2d::new(x, y);
            for q in t.neighbors(&p) {
                if let Some(Distance::Dist(d)) = t.distance(&p, &q) {
                    g.add_adj(Edge::new_weighted(d, id(&p), id(&q)));
                }
            }
        }
    }
    let weight = |from: u32, to: u32| -> u64 {
        let at = g.position(from).unwrap();
        g.edges_at(at).iter().find(|e| e.to == to).unwrap().weight_or_one() as u64
    };
    let start = Point2d::new(0, 0);
    for &(ex, ey) in &[(3u32, 0u32), (3, 2), (2, 1), (1, 2)] {
        let end = Point2d::new(ex, ey);
        let walk = shortest_path_a_star(&t, start, end, zero).unwrap();
        let path = shortest_path_dijkstra(&g, id(&start), id(&end)).unwrap();
        let lightest: u64 = path.iter().map(|e| weight(e.from, e.to)).sum();
        assert_eq!(cost(&t, &walk), lightest);
    }
    assert_eq!(cost(&t, &shortest_path_a_star(&t, start, Point2d::new(3, 0), zero).unwrap()), 9);
}
